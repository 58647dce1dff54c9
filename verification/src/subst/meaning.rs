//! Laws of substitution.

use vstd::prelude::*;
use crate::lists::lemma_push_contains;
use crate::subst::collect::{
    are_rows, found_rows, is_collected, lists_constructors, read_from, Constructor,
};
use crate::subst::copy::{
    all_imaged, are_images, changes, child_value, class_image, copy_changes, first_ready, images_of,
    is_built, is_container_image, is_image, is_plan, lemma_first_ready, lemma_naming_rows_len,
    naming_rows, other_rows, replacements, rows_but, CopiedRow,
};
use crate::subst::forecast::{entry, lacks_copy, naming_row, stands};
use crate::subst::graph::{
    affected_classes, child_leaves, class_deps, edge, is_affected, lemma_affected_step, lemma_class_deps,
    lemma_key_affected,
    leads_to_key, leaves, Child, ENode,
};
use crate::subst::order::{copied_classes, postorder_of};
use crate::subst::plan::{blocked, grounded, nameable, naming_order, node_ready};
use crate::subst::state::{class_at, rows_of, staged, Edit};
use crate::subst::{
    is_outcome, is_substituted, lemma_affected_reached, lemma_collected_is_copyable,
    lemma_unblocked_plan, Failure, Substitution,
};

verus! {

/// A reached e-class is affected if and only if it is a key or one of its rows
/// refers to an affected e-class.
pub proof fn lemma_affected_is_inductive(
    graph: Map<u32, Seq<ENode>>,
    keys: Set<u32>,
    class: u32,
)
    requires
        graph.contains_key(class),
    ensures
        is_affected(graph, keys, class) <==> keys.contains(class) || exists|dep: u32|
            class_deps(graph[class]).contains(dep) && #[trigger] is_affected(graph, keys, dep),
{
    if is_affected(graph, keys, class) && !keys.contains(class) {
        let path = choose|path: Seq<u32>| leads_to_key(graph, keys, class, path);
        assert(path.len() > 1);
        assert(edge(graph, path[0], path[0int + 1]));
        let rest = path.skip(1);
        assert forall|i: int| 0 <= i < rest.len() - 1 implies #[trigger] edge(
            graph,
            rest[i],
            rest[i + 1],
        ) by {
            assert(edge(graph, path[i + 1], path[i + 1 + 1]));
        }
        assert(leads_to_key(graph, keys, path[1], rest));
        assert(is_affected(graph, keys, path[1]));
    }
    if keys.contains(class) {
        lemma_key_affected(graph, keys, class);
    }
    if exists|dep: u32|
        class_deps(graph[class]).contains(dep) && #[trigger] is_affected(graph, keys, dep) {
        let dep = choose|dep: u32|
            class_deps(graph[class]).contains(dep) && #[trigger] is_affected(graph, keys, dep);
        lemma_affected_step(graph, keys, class, dep);
    }
}

/// A key is replaced by its target as supplied, whatever else is substituted:
/// the entries of the map are applied at once, and no target is substituted in.
pub proof fn lemma_keys_are_replaced_at_once(
    state: egglog::FullState<'_, '_>,
    map: Map<u32, u32>,
    affected: Set<u32>,
    images: Map<u32, u32>,
    key: u32,
    sort: String,
    image: u32,
)
    requires
        map.contains_key(key),
        is_image(state, map, affected, images, Child::Class(key, sort), image),
    ensures
        image == map[key],
{
}

/// What holds no key and nothing affected is shared: it stands for itself.
pub proof fn lemma_unaffected_is_shared(
    state: egglog::FullState<'_, '_>,
    map: Map<u32, u32>,
    affected: Set<u32>,
    images: Map<u32, u32>,
    child: Child,
    image: u32,
)
    requires
        is_image(state, map, affected, images, child, image),
        forall|i: int|
            0 <= i < child_leaves(child).len() ==> {
                &&& !map.contains_key(#[trigger] child_leaves(child)[i])
                &&& !affected.contains(child_leaves(child)[i])
            },
    ensures
        image == child_value(child),
    decreases child,
{
    match child {
        Child::Class(value, _) => {
            assert(child_leaves(child)[0] == value);
        },
        Child::Opaque(_) => {},
        Child::Container(container) => {
            let contents = container.contents@;
            let inner = choose|inner: Seq<u32>|
                {
                    &&& inner.len() == contents.len()
                    &&& forall|j: int|
                        0 <= j < contents.len() ==> is_image(
                            state,
                            map,
                            affected,
                            images,
                            #[trigger] contents[j],
                            inner[j],
                        )
                    &&& #[trigger] is_container_image(state, container, inner, image)
                };
            assert forall|j: int| 0 <= j < contents.len() implies inner[j] == child_value(
                #[trigger] contents[j],
            ) by {
                let own = child_leaves(contents[j]);
                assert forall|i: int| 0 <= i < own.len() implies {
                    &&& !map.contains_key(#[trigger] own[i])
                    &&& !affected.contains(own[i])
                } by {
                    lemma_leaf_of(contents, j, i);
                    let at = leaves(contents).index_of(own[i]);
                    assert(child_leaves(child)[at] == own[i]);
                }
                lemma_unaffected_is_shared(state, map, affected, images, contents[j], inner[j]);
            }
            lemma_nothing_replaced(contents, inner);
        },
    }
}

proof fn lemma_leaf_of(children: Seq<Child>, j: int, i: int)
    requires
        0 <= j < children.len(),
        0 <= i < child_leaves(children[j]).len(),
    ensures
        leaves(children).contains(child_leaves(children[j])[i]),
    decreases children.len(),
{
    let front = leaves(children.drop_last());
    let back = child_leaves(children.last());
    if j == children.len() - 1 {
        assert((front + back)[front.len() + i] == back[i]);
    } else {
        lemma_leaf_of(children.drop_last(), j, i);
        let at = front.index_of(child_leaves(children[j])[i]);
        assert((front + back)[at] == front[at]);
    }
}

proof fn lemma_nothing_replaced(contents: Seq<Child>, inner: Seq<u32>)
    requires
        inner.len() == contents.len(),
        forall|j: int|
            0 <= j < contents.len() ==> inner[j] == child_value(#[trigger] contents[j]),
    ensures
        replacements(contents, inner) == Map::<u32, u32>::empty(),
        replacements(contents, inner).dom() == Set::<u32>::empty(),
    decreases contents.len(),
{
    if contents.len() > 0 {
        assert forall|j: int| 0 <= j < contents.len() - 1 implies inner.drop_last()[j]
            == child_value(#[trigger] contents.drop_last()[j]) by {
            assert(contents.drop_last()[j] == contents[j]);
        }
        lemma_nothing_replaced(contents.drop_last(), inner.drop_last());
        assert(inner[contents.len() - 1] == child_value(contents[contents.len() - 1]));
    }
    assert(Map::<u32, u32>::empty().dom() =~= Set::<u32>::empty());
}

/// The rows that are copied, in order.
pub open spec fn copied_rows(
    graph: Map<u32, Seq<ENode>>,
    copied: Set<u32>,
    order: Seq<u32>,
) -> Seq<(u32, int)> {
    naming_rows(graph, copied, order) + other_rows(graph, copied, order)
}

/// Every row of every e-class of the order is copied, and copied once.
pub proof fn lemma_every_row_is_copied_once(
    graph: Map<u32, Seq<ENode>>,
    copied: Set<u32>,
    order: Seq<u32>,
)
    requires
        is_plan(graph, copied, order),
    ensures
        copied_rows(graph, copied, order).no_duplicates(),
        forall|class: u32, row: int|
            #[trigger] copied_rows(graph, copied, order).contains((class, row)) <==> {
                &&& order.contains(class)
                &&& 0 <= row < graph[class].len()
            },
{
    let naming = naming_rows(graph, copied, order);
    let other = other_rows(graph, copied, order);
    let all = copied_rows(graph, copied, order);
    lemma_rows_of_order(graph, copied, order);
    assert forall|i: int, j: int| 0 <= i < j < all.len() implies all[i] != all[j] by {
        if j < naming.len() {
            assert(all[i] == naming[i] && all[j] == naming[j]);
        } else if i >= naming.len() {
            assert(all[i] == other[i - naming.len()] && all[j] == other[j - naming.len()]);
        } else {
            assert(all[i] == naming[i] && all[j] == other[j - naming.len()]);
            let (class, row) = all[i];
            assert(naming.contains((class, row)));
            assert(!other.contains((class, row)));
        }
    }
    assert forall|class: u32, row: int|
        #[trigger] all.contains((class, row)) <==> order.contains(class) && 0 <= row
            < graph[class].len() by {
        if all.contains((class, row)) {
            let i = all.index_of((class, row));
            if i < naming.len() {
                assert(naming[i] == (class, row));
                assert(naming.contains((class, row)));
            } else {
                assert(other[i - naming.len()] == (class, row));
                assert(other.contains((class, row)));
            }
        }
        if order.contains(class) && 0 <= row < graph[class].len() {
            if naming.contains((class, row)) {
                let i = naming.index_of((class, row));
                assert(all[i] == (class, row));
            } else {
                assert(other.contains((class, row)));
                let i = other.index_of((class, row));
                assert(all[naming.len() + i] == (class, row));
            }
        }
    }
}

/// The naming rows and the other rows of the e-classes of an order share out
/// their rows.
proof fn lemma_rows_of_order(graph: Map<u32, Seq<ENode>>, copied: Set<u32>, order: Seq<u32>)
    requires
        order.no_duplicates(),
        grounded(graph, copied, order),
    ensures
        naming_rows(graph, copied, order).no_duplicates(),
        other_rows(graph, copied, order).no_duplicates(),
        forall|class: u32, row: int| #[trigger]
            naming_rows(graph, copied, order).contains((class, row)) ==> {
                &&& order.contains(class)
                &&& 0 <= row < graph[class].len()
                &&& !other_rows(graph, copied, order).contains((class, row))
            },
        forall|class: u32, row: int| #[trigger]
            other_rows(graph, copied, order).contains((class, row)) ==> {
                &&& order.contains(class)
                &&& 0 <= row < graph[class].len()
                &&& !naming_rows(graph, copied, order).contains((class, row))
            },
        forall|class: u32, row: int|
            #![trigger naming_rows(graph, copied, order).contains((class, row))]
            #![trigger other_rows(graph, copied, order).contains((class, row))]
            order.contains(class) && 0 <= row < graph[class].len() ==> naming_rows(
                graph,
                copied,
                order,
            ).contains((class, row)) || other_rows(graph, copied, order).contains((class, row)),
    decreases order.len(),
{
    if order.len() > 0 {
        let front = order.drop_last();
        let last = order.last();
        let count = graph[last].len() as int;
        let first = first_ready(graph[last], copied, front.to_set(), 0);
        let naming = naming_rows(graph, copied, front);
        let other = other_rows(graph, copied, front);
        let rest = rows_but(last, count, first);
        assert forall|i: int| 0 <= i < front.len() implies nameable(
            graph,
            copied,
            front.take(i).to_set(),
            #[trigger] front[i],
        ) by {
            assert(order[i] == front[i]);
            assert(front.take(i) =~= order.take(i));
        }
        lemma_rows_of_order(graph, copied, front);
        assert(!front.contains(last)) by {
            if front.contains(last) {
                let i = front.index_of(last);
                assert(order[i] == order[order.len() - 1]);
            }
        }
        assert(order.take(order.len() - 1) =~= front);
        assert(nameable(graph, copied, order.take(order.len() - 1).to_set(), order[order.len() - 1]));
        let ready = choose|k: int|
            0 <= k < graph[last].len() && node_ready(
                copied,
                front.to_set(),
                #[trigger] graph[last][k],
            );
        lemma_first_in(graph[last], copied, front.to_set(), 0, ready);
        lemma_rows_but(last, count, first);
        assert forall|class: u32| #[trigger] order.contains(class) <==> front.contains(class)
            || class == last by {
            if order.contains(class) {
                let i = order.index_of(class);
                if i < front.len() {
                    assert(front[i] == class);
                }
            }
            if front.contains(class) {
                let i = front.index_of(class);
                assert(order[i] == class);
            }
            assert(order[order.len() - 1] == last);
        }
        let all_naming = naming.push((last, first));
        let all_other = other + rest;
        assert forall|pair: (u32, int)| #[trigger] all_naming.contains(pair) <==> naming.contains(
            pair,
        ) || pair == (last, first) by {
            lemma_push_contains(naming, (last, first), pair);
        }
        assert forall|pair: (u32, int)| #[trigger] all_other.contains(pair) <==> other.contains(
            pair,
        ) || rest.contains(pair) by {
            lemma_concat_contains(other, rest, pair);
        }
        assert(all_naming.no_duplicates()) by {
            assert forall|i: int, j: int| 0 <= i < j < all_naming.len() implies all_naming[i]
                != all_naming[j] by {
                assert(naming[i] == all_naming[i]);
                assert(naming.contains(all_naming[i]));
                let (class, row) = all_naming[i];
                assert(naming.contains((class, row)));
                assert(class != last);
                if j < naming.len() {
                    assert(naming[j] == all_naming[j]);
                }
            }
        }
        assert(all_other.no_duplicates()) by {
            assert forall|i: int, j: int| 0 <= i < j < all_other.len() implies all_other[i]
                != all_other[j] by {
                if j < other.len() {
                    assert(other[i] == all_other[i] && other[j] == all_other[j]);
                } else if i >= other.len() {
                    assert(rest[i - other.len()] == all_other[i] && rest[j - other.len()]
                        == all_other[j]);
                } else {
                    let (class, row) = all_other[i];
                    assert(other[i] == all_other[i]);
                    assert(other.contains((class, row)));
                    assert(class != last);
                    let (later, at) = all_other[j];
                    assert(rest[j - other.len()] == all_other[j]);
                    assert(rest.contains((later, at)));
                    assert(later == last);
                }
            }
        }
        assert forall|class: u32, row: int| #[trigger] all_naming.contains(
            (class, row),
        ) implies order.contains(class) && 0 <= row < graph[class].len() && !all_other.contains(
            (class, row),
        ) by {
            if naming.contains((class, row)) {
                assert(class != last);
                assert(!rest.contains((class, row)));
            } else {
                assert(!rest.contains((class, row)));
                assert(!other.contains((class, row)));
            }
        }
        assert forall|class: u32, row: int| #[trigger] all_other.contains(
            (class, row),
        ) implies order.contains(class) && 0 <= row < graph[class].len() && !all_naming.contains(
            (class, row),
        ) by {
            if other.contains((class, row)) {
                assert(class != last);
            } else {
                assert(rest.contains((class, row)));
            }
        }
    }
}

proof fn lemma_concat_contains<T>(left: Seq<T>, right: Seq<T>, item: T)
    ensures
        (left + right).contains(item) <==> left.contains(item) || right.contains(item),
{
    let all = left + right;
    if all.contains(item) {
        let i = all.index_of(item);
        if i < left.len() {
            assert(left[i] == item);
        } else {
            assert(right[i - left.len()] == item);
        }
    }
    if left.contains(item) {
        assert(all[left.index_of(item)] == item);
    }
    if right.contains(item) {
        assert(all[left.len() + right.index_of(item)] == item);
    }
}

proof fn lemma_first_in(nodes: Seq<ENode>, copied: Set<u32>, named: Set<u32>, k: int, j: int)
    requires
        0 <= k <= j < nodes.len(),
        node_ready(copied, named, nodes[j]),
    ensures
        k <= first_ready(nodes, copied, named, k) <= j,
    decreases j - k,
{
    if !node_ready(copied, named, nodes[k]) {
        lemma_first_in(nodes, copied, named, k + 1, j);
    }
}

proof fn lemma_rows_but(class: u32, count: int, but: int)
    ensures
        rows_but(class, count, but).no_duplicates(),
        forall|other: u32, row: int| #[trigger]
            rows_but(class, count, but).contains((other, row)) <==> {
                &&& other == class
                &&& 0 <= row < count
                &&& row != but
            },
    decreases count,
{
    if count > 0 {
        lemma_rows_but(class, count - 1, but);
        let front = rows_but(class, count - 1, but);
        if count - 1 != but {
            let all = front.push((class, count - 1));
            assert forall|other: u32, row: int| #[trigger] all.contains((other, row)) <==> other
                == class && 0 <= row < count && row != but by {
                lemma_push_contains(front, (class, count - 1), (other, row));
                assert(front.contains((other, row)) <==> other == class && 0 <= row < count - 1
                    && row != but);
            }
            assert forall|i: int, j: int| 0 <= i < j < all.len() implies all[i] != all[j] by {
                if j == front.len() {
                    let (other, row) = all[i];
                    assert(front[i] == all[i]);
                    assert(front.contains((other, row)));
                } else {
                    assert(front[i] == all[i] && front[j] == all[j]);
                }
            }
        }
    }
}

proof fn lemma_changes_hold(
    graph: Map<u32, Seq<ENode>>,
    list: Seq<Constructor>,
    order: Seq<u32>,
    copies: Seq<CopiedRow>,
    i: int,
    edit: Edit,
)
    requires
        0 <= i < copies.len(),
        copy_changes(
            graph,
            list,
            images_of(order, copies.take(i + 1)),
            copies[i],
            i + 1 <= order.len(),
        ).contains(edit),
    ensures
        changes(graph, list, order, copies).contains(edit),
    decreases copies.len(),
{
    let front = copies.drop_last();
    let own = copy_changes(
        graph,
        list,
        images_of(order, copies),
        copies.last(),
        copies.len() <= order.len(),
    );
    lemma_concat_contains(changes(graph, list, order, front), own, edit);
    if i < copies.len() - 1 {
        assert(front.take(i + 1) =~= copies.take(i + 1));
        assert(front[i] == copies[i]);
        lemma_changes_hold(graph, list, order, front, i, edit);
    } else {
        assert(copies.take(i + 1) =~= copies);
    }
}

/// The image of an e-class is what the row that names it got, whatever rows
/// come later.
pub proof fn lemma_image_of(order: Seq<u32>, copies: Seq<CopiedRow>, i: int)
    requires
        order.no_duplicates(),
        0 <= i < order.len(),
    ensures
        images_of(order, copies).contains_key(order[i]),
        images_of(order, copies)[order[i]] == copies[i].eclass,
    decreases order.len(),
{
    if i < order.len() - 1 {
        let front = order.drop_last();
        lemma_image_of(front, copies, i);
        assert(front[i] == order[i]);
        assert(order[i] != order[order.len() - 1]);
    }
}

/// The copy of a row.
pub open spec fn copy_of(
    graph: Map<u32, Seq<ENode>>,
    list: Seq<Constructor>,
    copy: CopiedRow,
) -> Edit {
    Edit::Add(
        list[graph[copy.class][copy.row as int].ctor as int].name@,
        copy.inputs@,
        copy.eclass,
    )
}

/// Every copy is added as a row of its constructor, and the copies of the rows
/// of one e-class become one e-class: each got the image of its e-class or is
/// united with it.
pub proof fn lemma_copies_are_united(
    before: egglog::FullState<'_, '_>,
    after: egglog::FullState<'_, '_>,
    graph: Map<u32, Seq<ENode>>,
    list: Seq<Constructor>,
    map: Map<u32, u32>,
    affected: Set<u32>,
    order: Seq<u32>,
    copies: Seq<CopiedRow>,
    written: Seq<Edit>,
    i: int,
)
    requires
        is_plan(graph, copied_classes(affected, map.dom()), order),
        is_built(before, after, graph, list, map, affected, order, copies, written),
        0 <= i < copies.len(),
    ensures
        ({
            let copy = copies[i];
            let image = images_of(order, copies)[copy.class];
            &&& written.contains(copy_of(graph, list, copy))
            &&& copy.eclass == image || written.contains(Edit::Union(copy.eclass, image))
        }),
{
    let copied = copied_classes(affected, map.dom());
    let copy = copies[i];
    let head = images_of(order, copies.take(i + 1));
    let own = copy_changes(graph, list, head, copy, i + 1 <= order.len());
    let add = copy_of(graph, list, copy);
    assert(own[0] == add);
    assert(own.contains(add));
    lemma_changes_hold(graph, list, order, copies, i, add);
    let rows = copied_rows(graph, copied, order);
    lemma_naming_rows_len(graph, copied, order);
    if i < order.len() {
        lemma_naming_row_class(graph, copied, order, i);
        assert(rows[i] == naming_rows(graph, copied, order)[i]);
        assert(copy.class == order[i]);
        lemma_image_of(order, copies, i);
    } else {
        lemma_every_row_is_copied_once(graph, copied, order);
        assert(rows.contains(rows[i]));
        let (class, row) = rows[i];
        assert(rows.contains((class, row)));
        let at = order.index_of(class);
        lemma_image_of(order, copies, at);
        lemma_image_of(order, copies.take(i + 1), at);
        assert(copies.take(i + 1)[at] == copies[at]);
        assert(head[class] == images_of(order, copies)[class]);
        if copy.eclass != head[class] {
            let union = Edit::Union(copy.eclass, head[class]);
            assert(own.last() == union);
            assert(own.contains(union));
            lemma_changes_hold(graph, list, order, copies, i, union);
        }
    }
}

proof fn lemma_naming_row_class(
    graph: Map<u32, Seq<ENode>>,
    copied: Set<u32>,
    order: Seq<u32>,
    i: int,
)
    requires
        0 <= i < order.len(),
    ensures
        naming_rows(graph, copied, order).len() == order.len(),
        naming_rows(graph, copied, order)[i].0 == order[i],
    decreases order.len(),
{
    lemma_naming_rows_len(graph, copied, order);
    lemma_naming_rows_len(graph, copied, order.drop_last());
    if i < order.len() - 1 {
        lemma_naming_row_class(graph, copied, order.drop_last(), i);
    }
}

/// No e-class is invented: the image of every e-class of the order is one that
/// an added row got.
pub proof fn lemma_images_come_from_rows(
    before: egglog::FullState<'_, '_>,
    after: egglog::FullState<'_, '_>,
    graph: Map<u32, Seq<ENode>>,
    list: Seq<Constructor>,
    map: Map<u32, u32>,
    affected: Set<u32>,
    order: Seq<u32>,
    copies: Seq<CopiedRow>,
    written: Seq<Edit>,
    class: u32,
)
    requires
        is_plan(graph, copied_classes(affected, map.dom()), order),
        is_built(before, after, graph, list, map, affected, order, copies, written),
        order.contains(class),
    ensures
        images_of(order, copies).contains_key(class),
        exists|table: Seq<char>, inputs: Seq<u32>| #[trigger]
            written.contains(
                Edit::Add(table, inputs, images_of(order, copies)[class]),
            ),
{
    let copied = copied_classes(affected, map.dom());
    let i = order.index_of(class);
    lemma_naming_rows_len(graph, copied, order);
    lemma_image_of(order, copies, i);
    lemma_copies_are_united(before, after, graph, list, map, affected, order, copies, written, i);
    let copy = copies[i];
    assert(written.contains(
        Edit::Add(
            list[graph[copy.class][copy.row as int].ctor as int].name@,
            copy.inputs@,
            images_of(order, copies)[class],
        ),
    ));
}

/// A copy inherits the status of its row: the copy of a subsumed row is
/// subsumed, whatever row it meets.
pub proof fn lemma_status_is_inherited(
    before: egglog::FullState<'_, '_>,
    after: egglog::FullState<'_, '_>,
    graph: Map<u32, Seq<ENode>>,
    list: Seq<Constructor>,
    map: Map<u32, u32>,
    affected: Set<u32>,
    order: Seq<u32>,
    copies: Seq<CopiedRow>,
    written: Seq<Edit>,
    i: int,
)
    requires
        is_built(before, after, graph, list, map, affected, order, copies, written),
        0 <= i < copies.len(),
        graph[copies[i].class][copies[i].row as int].subsumed,
    ensures
        ({
            let copy = copies[i];
            let table = list[graph[copy.class][copy.row as int].ctor as int].name@;
            written.contains(Edit::Subsume(table, copy.inputs@))
        }),
{
    let copy = copies[i];
    let table = list[graph[copy.class][copy.row as int].ctor as int].name@;
    let head = images_of(order, copies.take(i + 1));
    let own = copy_changes(graph, list, head, copy, i + 1 <= order.len());
    let mark = Edit::Subsume(table, copy.inputs@);
    assert(own[1] == mark);
    assert(own.contains(mark));
    lemma_changes_hold(graph, list, order, copies, i, mark);
}

/// No live row is hidden: only a copy of a subsumed row is subsumed.
pub proof fn lemma_only_subsumed_rows_hide(
    before: egglog::FullState<'_, '_>,
    after: egglog::FullState<'_, '_>,
    graph: Map<u32, Seq<ENode>>,
    list: Seq<Constructor>,
    map: Map<u32, u32>,
    affected: Set<u32>,
    order: Seq<u32>,
    copies: Seq<CopiedRow>,
    written: Seq<Edit>,
    table: Seq<char>,
    inputs: Seq<u32>,
)
    requires
        is_built(before, after, graph, list, map, affected, order, copies, written),
        written.contains(Edit::Subsume(table, inputs)),
    ensures
        exists|i: int|
            {
                &&& 0 <= i < copies.len()
                &&& (#[trigger] copies[i]).inputs@ == inputs
                &&& graph[copies[i].class][copies[i].row as int].subsumed
                &&& table == list[graph[copies[i].class][copies[i].row as int].ctor as int].name@
            },
{
    let mark = Edit::Subsume(table, inputs);
    let i = lemma_change_source(graph, list, order, copies, mark);
    assert(copies[i].inputs@ == inputs);
}

/// Whatever was written was written for some copy.
pub(crate) proof fn lemma_change_source(
    graph: Map<u32, Seq<ENode>>,
    list: Seq<Constructor>,
    order: Seq<u32>,
    copies: Seq<CopiedRow>,
    edit: Edit,
) -> (i: int)
    requires
        changes(graph, list, order, copies).contains(edit),
    ensures
        0 <= i < copies.len(),
        copy_changes(
            graph,
            list,
            images_of(order, copies.take(i + 1)),
            copies[i],
            i + 1 <= order.len(),
        ).contains(edit),
    decreases copies.len(),
{
    if copies.len() == 0 {
        0
    } else {
        let front = copies.drop_last();
        let own = copy_changes(
            graph,
            list,
            images_of(order, copies),
            copies.last(),
            copies.len() <= order.len(),
        );
        lemma_concat_contains(changes(graph, list, order, front), own, edit);
        if own.contains(edit) {
            assert(copies.take(copies.len() as int) =~= copies);
            copies.len() - 1
        } else {
            let i = lemma_change_source(graph, list, order, front, edit);
            assert(front.take(i + 1) =~= copies.take(i + 1));
            i
        }
    }
}

/// The root came back as it was, and nothing was written or interned.
pub open spec fn is_unchanged(
    before: egglog::FullState<'_, '_>,
    after: egglog::FullState<'_, '_>,
    root: u32,
    result: Result<Substitution, Failure>,
) -> bool {
    &&& result matches Ok(done)
    &&& done.image == root
    &&& done.copies@.len() == 0
    &&& after == before
}

/// Some e-class that `root` reaches is a key.
pub open spec fn reaches_key(
    state: egglog::FullState<'_, '_>,
    root: u32,
    keys: Set<u32>,
) -> bool {
    exists|list: Seq<Constructor>, graph: Map<u32, Seq<ENode>>, key: u32|
        {
            &&& #[trigger] lists_constructors(state, list)
            &&& #[trigger] is_collected(state, list, root, graph)
            &&& #[trigger] graph.contains_key(key)
            &&& keys.contains(key)
        }
}

/// If the root reaches no key, it comes back as it was, and nothing is copied.
pub proof fn lemma_no_key_no_copy(
    before: egglog::FullState<'_, '_>,
    after: egglog::FullState<'_, '_>,
    root: u32,
    map: Map<u32, u32>,
    result: Result<Substitution, Failure>,
)
    requires
        is_substituted(before, after, root, map, result),
        !map.contains_key(root),
        !reaches_key(before, root, map.dom()),
    ensures
        is_unchanged(before, after, root, result),
{
    if map.dom() != Set::<u32>::empty() {
        let (list, graph) = choose|list: Seq<Constructor>, graph: Map<u32, Seq<ENode>>|
            {
                &&& #[trigger] lists_constructors(before, list)
                &&& #[trigger] is_collected(before, list, root, graph)
                &&& is_outcome(
                    before,
                    after,
                    graph,
                    list,
                    map,
                    root,
                    result,
                    staged(after).skip(staged(before).len() as int),
                )
            };
        if is_affected(graph, map.dom(), root) {
            let path = choose|path: Seq<u32>| leads_to_key(graph, map.dom(), root, path);
            assert(graph.contains_key(path.last()));
            assert(false);
        }
        assert(!affected_classes(graph, map.dom()).contains(root));
    }
}

proof fn lemma_nothing_found(
    state: egglog::FullState<'_, '_>,
    list: Seq<Constructor>,
    class: u32,
    sort: Option<Seq<char>>,
)
    requires
        forall|table: Seq<char>| (#[trigger] rows_of(state, table, class)).len() == 0,
    ensures
        found_rows(state, list, class, sort).len() == 0,
    decreases list.len(),
{
    if list.len() > 0 {
        lemma_nothing_found(state, list.drop_last(), class, sort);
        assert(rows_of(state, list.last().name@, class).len() == 0);
    }
}

proof fn lemma_rowless_root(
    state: egglog::FullState<'_, '_>,
    list: Seq<Constructor>,
    root: u32,
    graph: Map<u32, Seq<ENode>>,
)
    requires
        is_collected(state, list, root, graph),
        forall|table: Seq<char>| (#[trigger] rows_of(state, table, root)).len() == 0,
    ensures
        graph[root].len() == 0,
{
    let sorts = choose|sorts: Map<u32, Option<Seq<char>>>| read_from(
        state,
        list,
        root,
        graph,
        sorts,
    );
    assert(graph.contains_key(root));
    lemma_nothing_found(state, list, root, sorts[root]);
    assert(are_rows(state, list, graph[root], found_rows(state, list, root, sorts[root])));
}

proof fn lemma_rowless_is_unaffected(graph: Map<u32, Seq<ENode>>, keys: Set<u32>, class: u32)
    requires
        graph[class].len() == 0,
        !keys.contains(class),
    ensures
        !is_affected(graph, keys, class),
{
    if is_affected(graph, keys, class) {
        let path = choose|path: Seq<u32>| leads_to_key(graph, keys, class, path);
        if path.len() > 1 {
            assert(edge(graph, path[0], path[0int + 1]));
            assert(class_deps(graph[class]).len() == 0);
        }
        assert(false);
    }
}

/// A root without committed rows, such as one that was built in the same
/// action, comes back as it was unless it is a key.
pub proof fn lemma_rowless_root_stays(
    before: egglog::FullState<'_, '_>,
    after: egglog::FullState<'_, '_>,
    root: u32,
    map: Map<u32, u32>,
    result: Result<Substitution, Failure>,
)
    requires
        is_substituted(before, after, root, map, result),
        !map.contains_key(root),
        forall|table: Seq<char>| (#[trigger] rows_of(before, table, root)).len() == 0,
    ensures
        is_unchanged(before, after, root, result),
{
    if map.dom() != Set::<u32>::empty() {
        let (list, graph) = choose|list: Seq<Constructor>, graph: Map<u32, Seq<ENode>>|
            {
                &&& #[trigger] lists_constructors(before, list)
                &&& #[trigger] is_collected(before, list, root, graph)
                &&& is_outcome(
                    before,
                    after,
                    graph,
                    list,
                    map,
                    root,
                    result,
                    staged(after).skip(staged(before).len() as int),
                )
            };
        lemma_rowless_root(before, list, root, graph);
        lemma_rowless_is_unaffected(graph, map.dom(), root);
        assert(!affected_classes(graph, map.dom()).contains(root));
    }
}

/// A substitution that fails because a cycle is not grounded has written and
/// interned nothing.
pub proof fn lemma_ungrounded_writes_nothing(
    before: egglog::FullState<'_, '_>,
    after: egglog::FullState<'_, '_>,
    root: u32,
    map: Map<u32, u32>,
    result: Result<Substitution, Failure>,
)
    requires
        is_substituted(before, after, root, map, result),
        result matches Err(Failure::Ungrounded(_)),
    ensures
        after == before,
{
}

/// A substitution that fails because a copy is not committed has written nothing,
/// and there is a subsumed row among those to be copied.
pub proof fn lemma_uncommitted_writes_nothing(
    before: egglog::FullState<'_, '_>,
    after: egglog::FullState<'_, '_>,
    root: u32,
    map: Map<u32, u32>,
    result: Result<Substitution, Failure>,
)
    requires
        is_substituted(before, after, root, map, result),
        result matches Err(Failure::Uncommitted(_)),
    ensures
        staged(after) == staged(before),
        exists|list: Seq<Constructor>, graph: Map<u32, Seq<ENode>>, class: u32, row: int|
            {
                &&& #[trigger] lists_constructors(before, list)
                &&& #[trigger] is_collected(before, list, root, graph)
                &&& affected_classes(graph, map.dom()).contains(root)
                &&& 0 <= row < graph[class].len()
                &&& (#[trigger] graph[class][row]).subsumed
            },
{
    let (list, graph) = choose|list: Seq<Constructor>, graph: Map<u32, Seq<ENode>>|
        {
            &&& #[trigger] lists_constructors(before, list)
            &&& #[trigger] is_collected(before, list, root, graph)
            &&& is_outcome(
                before,
                after,
                graph,
                list,
                map,
                root,
                result,
                staged(after).skip(staged(before).len() as int),
            )
        };
    assert(staged(after) =~= staged(before));
    if let Err(Failure::Uncommitted(found)) = result {
        let affected = affected_classes(graph, map.dom());
        let copied = copied_classes(affected, map.dom());
        let order = naming_order(graph, copied, postorder_of(graph, copied, root));
        let (known, row) = choose|known: Map<u32, u32>, row: int| #[trigger]
            lacks_copy(after, graph, list, map, affected, order, known, found.eclass, row);
        assert(graph[found.eclass][row].subsumed);
    }
}

/// The maps give the same for each of the e-classes.
pub open spec fn agree_on(map: Map<u32, u32>, other: Map<u32, u32>, classes: Set<u32>) -> bool {
    forall|class: u32| #[trigger]
        classes.contains(class) ==> {
            &&& map.contains_key(class) == other.contains_key(class)
            &&& map.contains_key(class) ==> map[class] == other[class]
        }
}

proof fn lemma_image_agrees(
    state: egglog::FullState<'_, '_>,
    map: Map<u32, u32>,
    other: Map<u32, u32>,
    classes: Set<u32>,
    affected: Set<u32>,
    images: Map<u32, u32>,
    child: Child,
    image: u32,
)
    requires
        agree_on(map, other, classes),
        forall|i: int|
            0 <= i < child_leaves(child).len() ==> classes.contains(
                #[trigger] child_leaves(child)[i],
            ),
        is_image(state, map, affected, images, child, image),
    ensures
        is_image(state, other, affected, images, child, image),
    decreases child,
{
    match child {
        Child::Class(value, _) => {
            assert(child_leaves(child)[0] == value);
            assert(classes.contains(value));
        },
        Child::Opaque(_) => {},
        Child::Container(container) => {
            let contents = container.contents@;
            let inner = choose|inner: Seq<u32>|
                {
                    &&& inner.len() == contents.len()
                    &&& forall|j: int|
                        0 <= j < contents.len() ==> is_image(
                            state,
                            map,
                            affected,
                            images,
                            #[trigger] contents[j],
                            inner[j],
                        )
                    &&& #[trigger] is_container_image(state, container, inner, image)
                };
            assert forall|j: int| 0 <= j < contents.len() implies is_image(
                state,
                other,
                affected,
                images,
                #[trigger] contents[j],
                inner[j],
            ) by {
                let own = child_leaves(contents[j]);
                assert forall|i: int| 0 <= i < own.len() implies classes.contains(
                    #[trigger] own[i],
                ) by {
                    lemma_leaf_of(contents, j, i);
                    let at = leaves(contents).index_of(own[i]);
                    assert(child_leaves(child)[at] == own[i]);
                }
                lemma_image_agrees(
                    state,
                    map,
                    other,
                    classes,
                    affected,
                    images,
                    contents[j],
                    inner[j],
                );
            }
            assert(is_container_image(state, container, inner, image));
        },
    }
}

/// Keys that the walk did not reach play no part in what is affected and what is
/// copied.
pub proof fn lemma_unreached_keys_affect_nothing(
    graph: Map<u32, Seq<ENode>>,
    map: Map<u32, u32>,
    other: Map<u32, u32>,
)
    requires
        agree_on(map, other, graph.dom()),
    ensures
        affected_classes(graph, map.dom()) == affected_classes(graph, other.dom()),
        copied_classes(affected_classes(graph, map.dom()), map.dom()) == copied_classes(
            affected_classes(graph, other.dom()),
            other.dom(),
        ),
{
    let left = affected_classes(graph, map.dom());
    let right = affected_classes(graph, other.dom());
    assert forall|class: u32| left.contains(class) <==> right.contains(class) by {
        if left.contains(class) {
            let path = choose|path: Seq<u32>| leads_to_key(graph, map.dom(), class, path);
            assert(graph.dom().contains(path.last()));
            assert(leads_to_key(graph, other.dom(), class, path));
        }
        if right.contains(class) {
            let path = choose|path: Seq<u32>| leads_to_key(graph, other.dom(), class, path);
            assert(graph.dom().contains(path.last()));
            assert(leads_to_key(graph, map.dom(), class, path));
        }
    }
    assert(left =~= right);
    let copied = copied_classes(left, map.dom());
    let other_copied = copied_classes(right, other.dom());
    assert forall|class: u32| copied.contains(class) <==> other_copied.contains(class) by {
        if left.contains(class) {
            lemma_affected_reached(graph, map.dom(), class);
            assert(graph.dom().contains(class));
        }
    }
    assert(copied =~= other_copied);
}

proof fn lemma_leaves_are_reached(
    state: egglog::FullState<'_, '_>,
    list: Seq<Constructor>,
    root: u32,
    graph: Map<u32, Seq<ENode>>,
    class: u32,
    row: int,
    j: int,
    i: int,
)
    requires
        lists_constructors(state, list),
        is_collected(state, list, root, graph),
        graph.contains_key(class),
        0 <= row < graph[class].len(),
        0 <= j < graph[class][row].children@.len(),
        0 <= i < child_leaves(graph[class][row].children@[j]).len(),
    ensures
        graph.contains_key(child_leaves(graph[class][row].children@[j])[i]),
{
    let node = graph[class][row];
    let leaf = child_leaves(node.children@[j])[i];
    lemma_collected_is_copyable(state, list, root, graph, class, row);
    lemma_leaf_of(node.children@, j, i);
    assert(node.deps@.contains(leaf));
    lemma_class_deps(graph[class], leaf);
    assert(edge(graph, class, leaf));
}

proof fn lemma_region_is_planned(graph: Map<u32, Seq<ENode>>, map: Map<u32, u32>, root: u32)
    requires
        graph.dom().finite(),
        !map.contains_key(root),
        affected_classes(graph, map.dom()).contains(root),
        ({
            let copied = copied_classes(affected_classes(graph, map.dom()), map.dom());
            let region = postorder_of(graph, copied, root);
            let order = naming_order(graph, copied, region);
            forall|rank: int|
                0 <= rank < region.len() ==> !blocked(
                    graph,
                    copied,
                    order.to_set(),
                    #[trigger] region[rank],
                )
        }),
    ensures
        ({
            let copied = copied_classes(affected_classes(graph, map.dom()), map.dom());
            is_plan(graph, copied, naming_order(graph, copied, postorder_of(graph, copied, root)))
        }),
{
    let copied = copied_classes(affected_classes(graph, map.dom()), map.dom());
    assert forall|class: u32| copied.contains(class) implies graph.contains_key(class) by {
        lemma_affected_reached(graph, map.dom(), class);
    }
    vstd::set_lib::lemma_set_subset_finite(graph.dom(), copied);
    lemma_affected_reached(graph, map.dom(), root);
    lemma_unblocked_plan(graph, copied, root);
}

proof fn lemma_stands_agrees(
    state: egglog::FullState<'_, '_>,
    list: Seq<Constructor>,
    map: Map<u32, u32>,
    other: Map<u32, u32>,
    classes: Set<u32>,
    affected: Set<u32>,
    known: Map<u32, u32>,
    node: ENode,
    found: Option<u32>,
)
    requires
        agree_on(map, other, classes),
        forall|j: int, i: int|
            0 <= j < node.children@.len() && 0 <= i < child_leaves(node.children@[j]).len()
                ==> classes.contains(#[trigger] child_leaves(node.children@[j])[i]),
        forall|i: int|
            0 <= i < leaves(node.children@).len() ==> classes.contains(
                #[trigger] leaves(node.children@)[i],
            ),
        stands(state, list, map, affected, known, node, found),
    ensures
        stands(state, list, other, affected, known, node, found),
{
    let below = leaves(node.children@);
    assert forall|i: int| 0 <= i < below.len() implies class_image(
        map,
        affected,
        known,
        #[trigger] below[i],
    ) == class_image(other, affected, known, below[i]) by {
        assert(classes.contains(below[i]));
    }
    if all_imaged(map, affected, known, below) {
        let inputs = choose|inputs: Seq<u32>|
            {
                &&& #[trigger] are_images(state, map, affected, known, node.children@, inputs)
                &&& class_at(state, list[node.ctor as int].name@, inputs) == found
            };
        assert forall|j: int| 0 <= j < node.children@.len() implies is_image(
            state,
            other,
            affected,
            known,
            #[trigger] node.children@[j],
            inputs[j],
        ) by {
            lemma_image_agrees(
                state,
                map,
                other,
                classes,
                affected,
                known,
                node.children@[j],
                inputs[j],
            );
        }
        assert(are_images(state, other, affected, known, node.children@, inputs));
    } else {
        let i = choose|i: int|
            0 <= i < below.len() && class_image(map, affected, known, #[trigger] below[i]) is None;
        assert(class_image(other, affected, known, below[i]) is None);
    }
}

proof fn lemma_row_agrees(
    before: egglog::FullState<'_, '_>,
    after: egglog::FullState<'_, '_>,
    list: Seq<Constructor>,
    root: u32,
    graph: Map<u32, Seq<ENode>>,
    map: Map<u32, u32>,
    other: Map<u32, u32>,
    affected: Set<u32>,
    known: Map<u32, u32>,
    class: u32,
    row: int,
    found: Option<u32>,
)
    requires
        lists_constructors(before, list),
        is_collected(before, list, root, graph),
        agree_on(map, other, graph.dom()),
        graph.contains_key(class),
        0 <= row < graph[class].len(),
        stands(after, list, map, affected, known, graph[class][row], found),
    ensures
        stands(after, list, other, affected, known, graph[class][row], found),
{
    let node = graph[class][row];
    let below = leaves(node.children@);
    lemma_collected_is_copyable(before, list, root, graph, class, row);
    assert forall|j: int, i: int|
        0 <= j < node.children@.len() && 0 <= i < child_leaves(
            node.children@[j],
        ).len() implies graph.dom().contains(#[trigger] child_leaves(node.children@[j])[i]) by {
        lemma_leaves_are_reached(before, list, root, graph, class, row, j, i);
    }
    assert forall|i: int| 0 <= i < below.len() implies graph.dom().contains(
        #[trigger] below[i],
    ) by {
        assert(node.deps@.contains(node.deps@[i]));
        lemma_class_deps(graph[class], below[i]);
        assert(edge(graph, class, below[i]));
    }
    lemma_stands_agrees(after, list, map, other, graph.dom(), affected, known, node, found);
}

proof fn lemma_outcome_agrees(
    before: egglog::FullState<'_, '_>,
    after: egglog::FullState<'_, '_>,
    graph: Map<u32, Seq<ENode>>,
    list: Seq<Constructor>,
    map: Map<u32, u32>,
    other: Map<u32, u32>,
    root: u32,
    result: Result<Substitution, Failure>,
    written: Seq<Edit>,
)
    requires
        graph.dom().finite(),
        lists_constructors(before, list),
        is_collected(before, list, root, graph),
        agree_on(map, other, graph.dom()),
        !map.contains_key(root),
        is_outcome(before, after, graph, list, map, root, result, written),
    ensures
        is_outcome(before, after, graph, list, other, root, result, written),
{
    lemma_unreached_keys_affect_nothing(graph, map, other);
    let affected = affected_classes(graph, map.dom());
    let copied = copied_classes(affected, map.dom());
    let order = naming_order(graph, copied, postorder_of(graph, copied, root));
    if let Ok(done) = result {
        if affected.contains(root) {
            lemma_region_is_planned(graph, map, root);
            lemma_every_row_is_copied_once(graph, copied, order);
            let rows = copied_rows(graph, copied, order);
            let copies = done.copies@;
            let images = images_of(order, copies);
            assert forall|i: int| 0 <= i < copies.len() implies {
                &&& (#[trigger] copies[i]).class == rows[i].0
                &&& copies[i].row == rows[i].1
                &&& are_images(
                    after,
                    other,
                    affected,
                    images,
                    graph[rows[i].0][rows[i].1].children@,
                    copies[i].inputs@,
                )
            } by {
                let (class, row) = rows[i];
                assert(rows.contains((class, row)));
                assert(order.contains(class));
                let at = order.index_of(class);
                assert(graph.contains_key(order[at]));
                let children = graph[class][row].children@;
                let inputs = copies[i].inputs@;
                assert(are_images(after, map, affected, images, children, inputs));
                assert forall|j: int| 0 <= j < children.len() implies is_image(
                    after,
                    other,
                    affected,
                    images,
                    #[trigger] children[j],
                    inputs[j],
                ) by {
                    let own = child_leaves(children[j]);
                    assert forall|k: int| 0 <= k < own.len() implies graph.dom().contains(
                        #[trigger] own[k],
                    ) by {
                        lemma_leaves_are_reached(before, list, root, graph, class, row, j, k);
                    }
                    lemma_image_agrees(
                        after,
                        map,
                        other,
                        graph.dom(),
                        affected,
                        images,
                        children[j],
                        inputs[j],
                    );
                }
            }
            assert(is_built(before, after, graph, list, other, affected, order, copies, written));
        }
    }
    if let Err(Failure::Uncommitted(found)) = result {
        lemma_region_is_planned(graph, map, root);
        let (known, row) = choose|known: Map<u32, u32>, row: int|
            {
                &&& #[trigger] lacks_copy(
                    after,
                    graph,
                    list,
                    map,
                    affected,
                    order,
                    known,
                    found.eclass,
                    row,
                )
                &&& found.constructor@ == list[graph[found.eclass][row].ctor as int].name@
            };
        assert forall|i: int| 0 <= i < order.len() implies stands(
            after,
            list,
            other,
            affected,
            known,
            graph[#[trigger] order[i]][naming_row(graph, copied, order, i)],
            entry(known, order[i]),
        ) by {
            let front = order.take(i).to_set();
            assert(nameable(graph, copied, front, order[i]));
            let ready = choose|k: int|
                0 <= k < graph[order[i]].len() && node_ready(
                    copied,
                    front,
                    #[trigger] graph[order[i]][k],
                );
            lemma_first_ready(graph[order[i]], copied, front, 0, ready);
            lemma_row_agrees(
                before,
                after,
                list,
                root,
                graph,
                map,
                other,
                affected,
                known,
                order[i],
                naming_row(graph, copied, order, i),
                entry(known, order[i]),
            );
        }
        let at = order.index_of(found.eclass);
        assert(graph.contains_key(order[at]));
        lemma_row_agrees(
            before,
            after,
            list,
            root,
            graph,
            map,
            other,
            affected,
            known,
            found.eclass,
            row,
            None,
        );
        assert(lacks_copy(after, graph, list, other, affected, order, known, found.eclass, row));
        assert(found.describes(after, graph, list, other, affected, order));
    }
}

/// Keys that the root does not reach change nothing: with them and without them
/// the substitution gives the same result and writes the same.
pub proof fn lemma_unreached_keys_change_nothing(
    before: egglog::FullState<'_, '_>,
    after: egglog::FullState<'_, '_>,
    graph: Map<u32, Seq<ENode>>,
    list: Seq<Constructor>,
    map: Map<u32, u32>,
    other: Map<u32, u32>,
    root: u32,
    result: Result<Substitution, Failure>,
    written: Seq<Edit>,
)
    requires
        graph.dom().finite(),
        lists_constructors(before, list),
        is_collected(before, list, root, graph),
        agree_on(map, other, graph.dom()),
        !map.contains_key(root),
    ensures
        is_outcome(before, after, graph, list, map, root, result, written) <==> is_outcome(
            before,
            after,
            graph,
            list,
            other,
            root,
            result,
            written,
        ),
{
    assert(graph.dom().contains(root)) by {
        let sorts = choose|sorts: Map<u32, Option<Seq<char>>>| read_from(
            before,
            list,
            root,
            graph,
            sorts,
        );
    }
    if is_outcome(before, after, graph, list, map, root, result, written) {
        lemma_outcome_agrees(before, after, graph, list, map, other, root, result, written);
    }
    if is_outcome(before, after, graph, list, other, root, result, written) {
        lemma_outcome_agrees(before, after, graph, list, other, map, root, result, written);
    }
}

} // verus!

//! What a substitution gives, column by column and row by row.

use vstd::prelude::*;
use crate::subst::collect::{
    all_shaped, child_visits, found_rows, holds, is_collected, is_row, is_shaped,
    lists_constructors, read_from, shows, visits, Constructor,
};
use crate::subst::copy::{
    are_images, images_of, is_container_image, is_image, replacements, CopiedRow,
};
use crate::subst::graph::{
    affected_classes, child_leaves, edge, leaves, lemma_class_deps, Child, ENode,
};
use crate::subst::meaning::{
    copied_rows, lemma_change_source, lemma_copies_are_united, lemma_every_row_is_copied_once,
    lemma_image_of, lemma_status_is_inherited,
};
use crate::subst::order::{
    copied_classes, copy_path, lemma_postorder_is_region, lemma_successors, postorder_of, reaches,
};
use crate::subst::plan::{blocked, lemma_naming_order, lemma_unblocked_region_is_named, naming_order};
use crate::subst::state::{rebuild_of, rows_of, sort_name, table_shape, Edit};
use crate::subst::{is_outcome, lemma_affected_reached, lemma_unblocked_plan, Substitution};

verus! {

/// The value in a column.
pub open spec fn held(child: Child) -> u32 {
    match child {
        Child::Class(value, _) => value,
        Child::Opaque(value) => value,
        Child::Container(container) => container.value,
    }
}

/// Exactly the contents that change are replaced, each by what it becomes.
pub open spec fn replaces(contents: Seq<Child>, inner: Seq<u32>, changed: Map<u32, u32>) -> bool {
    &&& forall|j: int|
        0 <= j < contents.len() && inner[j] != held(#[trigger] contents[j])
            ==> changed.contains_key(held(contents[j]))
    &&& forall|value: u32| #[trigger]
        changed.contains_key(value) ==> exists|j: int|
            {
                &&& 0 <= j < contents.len()
                &&& held(#[trigger] contents[j]) == value
                &&& inner[j] != value
                &&& changed[value] == inner[j]
            }
}

/// `image` is the column with the substitution carried through it. An e-class that
/// is a key becomes its target, another that is affected its copy, and all else
/// stays. A container is rebuilt with every value in it that changes replaced by
/// what it becomes.
pub open spec fn is_carried(
    state: egglog::FullState<'_, '_>,
    map: Map<u32, u32>,
    affected: Set<u32>,
    images: Map<u32, u32>,
    child: Child,
    image: u32,
) -> bool
    decreases child,
{
    match child {
        Child::Class(value, _) => if map.contains_key(value) {
            image == map[value]
        } else if affected.contains(value) {
            images.contains_key(value) && image == images[value]
        } else {
            image == value
        },
        Child::Opaque(value) => image == value,
        Child::Container(container) => exists|inner: Seq<u32>, changed: Map<u32, u32>|
            {
                &&& inner.len() == container.contents@.len()
                &&& forall|j: int|
                    0 <= j < container.contents@.len() ==> is_carried(
                        state,
                        map,
                        affected,
                        images,
                        #[trigger] container.contents@[j],
                        inner[j],
                    )
                &&& #[trigger] replaces(container.contents@, inner, changed)
                &&& if forall|j: int|
                    0 <= j < container.contents@.len() ==> inner[j] == held(
                        #[trigger] container.contents@[j],
                    ) {
                    image == container.value
                } else {
                    rebuild_of(state, container.sort, container.value, changed) == Some(image)
                }
            },
    }
}

/// What is replaced inside a container is exactly what changes. A value that
/// changes in the same way wherever it stands in the container is replaced by what
/// it becomes.
pub proof fn lemma_contents_are_replaced(contents: Seq<Child>, inner: Seq<u32>)
    requires
        inner.len() == contents.len(),
    ensures
        replaces(contents, inner, replacements(contents, inner)),
        forall|j: int|
            {
                &&& 0 <= j < contents.len()
                &&& inner[j] != held(#[trigger] contents[j])
                &&& forall|k: int|
                    0 <= k < contents.len() && held(#[trigger] contents[k]) == held(contents[j])
                        ==> inner[k] == inner[j]
            } ==> {
                &&& replacements(contents, inner).contains_key(held(contents[j]))
                &&& replacements(contents, inner)[held(contents[j])] == inner[j]
            },
    decreases contents.len(),
{
    if contents.len() > 0 {
        let front = contents.drop_last();
        let front_inner = inner.drop_last();
        lemma_contents_are_replaced(front, front_inner);
        let last = contents.len() - 1;
        let less = replacements(front, front_inner);
        let all = replacements(contents, inner);
        assert forall|j: int|
            0 <= j < contents.len() && inner[j] != held(
                #[trigger] contents[j],
            ) implies all.contains_key(held(contents[j])) by {
            if j < last {
                assert(front[j] == contents[j]);
                assert(front_inner[j] == inner[j]);
                assert(less.contains_key(held(front[j])));
            }
        }
        assert forall|value: u32| #[trigger] all.contains_key(value) implies exists|j: int|
            {
                &&& 0 <= j < contents.len()
                &&& held(#[trigger] contents[j]) == value
                &&& inner[j] != value
                &&& all[value] == inner[j]
            } by {
            if inner[last] != held(contents[last]) && value == held(contents[last]) {
                assert(all[value] == inner[last]);
            } else {
                assert(less.contains_key(value));
                let j = choose|j: int|
                    {
                        &&& 0 <= j < front.len()
                        &&& held(#[trigger] front[j]) == value
                        &&& front_inner[j] != value
                        &&& less[value] == front_inner[j]
                    };
                assert(contents[j] == front[j]);
                assert(inner[j] == front_inner[j]);
            }
        }
    }
    let all = replacements(contents, inner);
    assert forall|j: int|
        {
            &&& 0 <= j < contents.len()
            &&& inner[j] != held(#[trigger] contents[j])
            &&& forall|k: int|
                0 <= k < contents.len() && held(#[trigger] contents[k]) == held(contents[j])
                    ==> inner[k] == inner[j]
        } implies all.contains_key(held(contents[j])) && all[held(contents[j])] == inner[j] by {
        let value = held(contents[j]);
        assert(all.contains_key(value));
        let k = choose|k: int|
            {
                &&& 0 <= k < contents.len()
                &&& held(#[trigger] contents[k]) == value
                &&& inner[k] != value
                &&& all[value] == inner[k]
            };
        assert(inner[k] == inner[j]);
    }
}

/// The substitution is carried through a column down to the e-classes in it,
/// through whatever containers they stand in.
pub proof fn lemma_column_is_carried(
    state: egglog::FullState<'_, '_>,
    map: Map<u32, u32>,
    affected: Set<u32>,
    images: Map<u32, u32>,
    child: Child,
    image: u32,
)
    requires
        is_image(state, map, affected, images, child, image),
    ensures
        is_carried(state, map, affected, images, child, image),
    decreases child,
{
    if let Child::Container(container) = child {
        let contents = container.contents@;
        let inner = choose|inner: Seq<u32>|
            {
                &&& inner.len() == contents.len()
                &&& forall|j: int|
                    0 <= j < contents.len() ==> is_image(
                        state,
                        map,
                        affected,
                        images,
                        #[trigger] contents[j],
                        inner[j],
                    )
                &&& #[trigger] is_container_image(state, container, inner, image)
            };
        let changed = replacements(contents, inner);
        lemma_contents_are_replaced(contents, inner);
        assert forall|j: int| 0 <= j < contents.len() implies is_carried(
            state,
            map,
            affected,
            images,
            #[trigger] contents[j],
            inner[j],
        ) by {
            lemma_column_is_carried(state, map, affected, images, contents[j], inner[j]);
        }
        assert(replaces(contents, inner, changed));
        if forall|j: int| 0 <= j < contents.len() ==> inner[j] == held(#[trigger] contents[j]) {
            assert(changed.dom() =~= Set::<u32>::empty());
        } else {
            let j = choose|j: int|
                0 <= j < contents.len() && inner[j] != held(#[trigger] contents[j]);
            assert(changed.dom().contains(held(contents[j])));
        }
    }
}

/// The e-class stands in the column, through whatever containers.
pub open spec fn stands_in(child: Child, class: u32) -> bool
    decreases child,
{
    match child {
        Child::Class(value, _) => value == class,
        Child::Opaque(_) => false,
        Child::Container(container) => exists|j: int|
            0 <= j < container.contents@.len() && stands_in(
                #[trigger] container.contents@[j],
                class,
            ),
    }
}

/// A row refers to an e-class if and only if the e-class stands in one of its
/// columns, through whatever containers.
pub proof fn lemma_references_are_what_stands_in(children: Seq<Child>, class: u32)
    ensures
        leaves(children).contains(class) <==> exists|j: int|
            0 <= j < children.len() && stands_in(#[trigger] children[j], class),
    decreases children,
{
    if children.len() > 0 {
        let front = children.drop_last();
        let left = leaves(front);
        let right = child_leaves(children.last());
        lemma_references_are_what_stands_in(front, class);
        lemma_column_references(children.last(), class);
        if left.contains(class) {
            let i = left.index_of(class);
            assert((left + right)[i] == class);
            let j = choose|j: int| 0 <= j < front.len() && stands_in(#[trigger] front[j], class);
            assert(stands_in(children[j], class));
        }
        if right.contains(class) {
            let i = right.index_of(class);
            assert((left + right)[left.len() + i] == class);
            assert(stands_in(children[children.len() - 1], class));
        }
        if (left + right).contains(class) {
            let i = (left + right).index_of(class);
            if i < left.len() {
                assert(left[i] == class);
            } else {
                assert(right[i - left.len()] == class);
            }
        }
        if exists|j: int| 0 <= j < children.len() && stands_in(#[trigger] children[j], class) {
            let j = choose|j: int|
                0 <= j < children.len() && stands_in(#[trigger] children[j], class);
            if j < front.len() {
                assert(stands_in(front[j], class));
            }
        }
    }
}

proof fn lemma_column_references(child: Child, class: u32)
    ensures
        child_leaves(child).contains(class) <==> stands_in(child, class),
    decreases child,
{
    match child {
        Child::Class(value, _) => {
            assert(child_leaves(child)[0] == value);
        },
        Child::Opaque(_) => {},
        Child::Container(container) => {
            lemma_references_are_what_stands_in(container.contents@, class);
        },
    }
}

/// The row was copied: the substitution was carried through its columns, the copy was
/// added as a row of the same constructor in the image of its e-class, and it is
/// subsumed if the row is.
pub open spec fn is_copied(
    after: egglog::FullState<'_, '_>,
    list: Seq<Constructor>,
    map: Map<u32, u32>,
    affected: Set<u32>,
    images: Map<u32, u32>,
    written: Seq<Edit>,
    class: u32,
    node: ENode,
) -> bool {
    exists|inputs: Seq<u32>, eclass: u32|
        {
            &&& inputs.len() == node.children@.len()
            &&& forall|j: int|
                0 <= j < inputs.len() ==> is_carried(
                    after,
                    map,
                    affected,
                    images,
                    node.children@[j],
                    #[trigger] inputs[j],
                )
            &&& #[trigger] written.contains(
                Edit::Add(list[node.ctor as int].name@, inputs, eclass),
            )
            &&& eclass == images[class] || written.contains(Edit::Union(eclass, images[class]))
            &&& node.subsumed ==> written.contains(
                Edit::Subsume(list[node.ctor as int].name@, inputs),
            )
        }
}

/// The path leads from the root over affected e-classes that are no keys.
pub open spec fn leads_over(
    graph: Map<u32, Seq<ENode>>,
    map: Map<u32, u32>,
    affected: Set<u32>,
    root: u32,
    class: u32,
    path: Seq<u32>,
) -> bool {
    &&& path.len() > 0
    &&& path[0] == root
    &&& path.last() == class
    &&& forall|i: int|
        0 <= i < path.len() ==> {
            &&& affected.contains(#[trigger] path[i])
            &&& !map.contains_key(path[i])
        }
    &&& forall|i: int| 0 <= i < path.len() - 1 ==> #[trigger] edge(graph, path[i], path[i + 1])
}

/// What a substitution is: there is one image for every e-class that it copies, that
/// of the root is the result, and every row of every affected e-class that the root
/// reaches over such e-classes, but for the keys, is copied into the image of its
/// e-class. Nothing else is added, united or subsumed.
pub proof fn lemma_substitution_copies_every_row(
    before: egglog::FullState<'_, '_>,
    after: egglog::FullState<'_, '_>,
    graph: Map<u32, Seq<ENode>>,
    list: Seq<Constructor>,
    map: Map<u32, u32>,
    root: u32,
    done: Substitution,
    written: Seq<Edit>,
)
    requires
        graph.dom().finite(),
        !map.contains_key(root),
        affected_classes(graph, map.dom()).contains(root),
        is_outcome(before, after, graph, list, map, root, Ok(done), written),
    ensures
        exists|images: Map<u32, u32>|
            is_substitution(after, graph, list, map, root, done.image, written, images),
{
    let affected = affected_classes(graph, map.dom());
    let copied = copied_classes(affected, map.dom());
    let region = postorder_of(graph, copied, root);
    let order = naming_order(graph, copied, region);
    let copies = done.copies@;
    let images = images_of(order, copies);
    assert forall|class: u32| copied.contains(class) implies graph.contains_key(class)
        && graph[class].len() > 0 by {
        lemma_affected_reached(graph, map.dom(), class);
    }
    vstd::set_lib::lemma_set_subset_finite(graph.dom(), copied);
    lemma_unblocked_plan(graph, copied, root);
    lemma_postorder_is_region(graph, copied, root);
    lemma_naming_order(graph, copied, region);
    lemma_every_row_is_copied_once(graph, copied, order);
    let rows = copied_rows(graph, copied, order);
    assert forall|class: u32, path: Seq<u32>| #[trigger]
        leads_over(graph, map, affected, root, class, path) implies images.contains_key(class)
        && forall|row: int|
        0 <= row < graph[class].len() ==> is_copied(
            after,
            list,
            map,
            affected,
            images,
            written,
            class,
            #[trigger] graph[class][row],
        ) by {
        assert forall|i: int| 0 <= i < path.len() - 1 implies #[trigger] crate::subst::order::successors(
            graph,
            copied,
            path[i],
        ).contains(path[i + 1]) by {
            assert(edge(graph, path[i], path[i + 1]));
            assert(affected.contains(path[i + 1]));
            lemma_successors(graph, copied, path[i], path[i + 1]);
        }
        assert(copy_path(graph, copied, root, class, path));
        assert(reaches(graph, copied, root, class));
        assert(region.contains(class));
        let rank = region.index_of(class);
        assert(!blocked(graph, copied, order.to_set(), region[rank]));
        lemma_unblocked_region_is_named(graph, copied, region, class);
        let at = order.index_of(class);
        lemma_image_of(order, copies, at);
        assert forall|row: int| 0 <= row < graph[class].len() implies is_copied(
            after,
            list,
            map,
            affected,
            images,
            written,
            class,
            #[trigger] graph[class][row],
        ) by {
            assert(rows.contains((class, row)));
            let i = rows.index_of((class, row));
            let copy = copies[i];
            assert(copy.class == class && copy.row == row);
            lemma_copies_are_united(
                before,
                after,
                graph,
                list,
                map,
                affected,
                order,
                copies,
                written,
                i,
            );
            lemma_copy_is_carried(after, graph, map, affected, images, copy, class, row);
            let node = graph[class][row];
            if node.subsumed {
                lemma_status_is_inherited(
                    before,
                    after,
                    graph,
                    list,
                    map,
                    affected,
                    order,
                    copies,
                    written,
                    i,
                );
            }
            let table = list[node.ctor as int].name@;
            assert(written.contains(Edit::Add(table, copy.inputs@, copy.eclass)));
        }
    }
    assert forall|edit: Edit| #[trigger] written.contains(edit) implies is_for_a_row(
        after,
        graph,
        list,
        map,
        affected,
        images,
        edit,
    ) by {
        let i = lemma_change_source(graph, list, order, copies, edit);
        let copy = copies[i];
        let (class, row) = rows[i];
        assert(rows.contains((class, row)));
        let at = order.index_of(class);
        assert(graph.contains_key(order[at]));
        assert(region.contains(class));
        lemma_image_of(order, copies, at);
        lemma_copy_is_carried(after, graph, map, affected, images, copy, class, row);
        let head = images_of(order, copies.take(i + 1));
        if edit is Union {
            crate::subst::copy::lemma_naming_rows_len(graph, copied, order);
            assert(i >= order.len());
            lemma_image_of(order, copies.take(i + 1), at);
            assert(copies.take(i + 1)[at] == copies[at]);
        }
        assert(is_row_edit(
            list[graph[class][row].ctor as int].name@,
            copy.inputs@,
            copy.eclass,
            graph[class][row].subsumed,
            images[class],
            edit,
        ));
        assert(is_for_this_row(
            after,
            graph,
            list,
            map,
            affected,
            images,
            edit,
            class,
            row,
            copy.inputs@,
            copy.eclass,
        ));
    }
    assert(images.contains_key(root));
    assert(done.image == images[root]);
    assert(is_substitution(after, graph, list, map, root, done.image, written, images));
}

/// There is one image for every e-class that is copied, that of the root is the result,
/// every row of those e-classes is copied, and nothing else is written.
pub open spec fn is_substitution(
    after: egglog::FullState<'_, '_>,
    graph: Map<u32, Seq<ENode>>,
    list: Seq<Constructor>,
    map: Map<u32, u32>,
    root: u32,
    image: u32,
    written: Seq<Edit>,
    images: Map<u32, u32>,
) -> bool {
    let affected = affected_classes(graph, map.dom());
    &&& images.contains_key(root)
    &&& image == images[root]
    &&& forall|class: u32, path: Seq<u32>| #[trigger]
        leads_over(graph, map, affected, root, class, path) ==> {
            &&& images.contains_key(class)
            &&& forall|row: int|
                0 <= row < graph[class].len() ==> is_copied(
                    after,
                    list,
                    map,
                    affected,
                    images,
                    written,
                    class,
                    #[trigger] graph[class][row],
                )
        }
    &&& forall|edit: Edit| #[trigger]
        written.contains(edit) ==> is_for_a_row(after, graph, list, map, affected, images, edit)
}

/// The edit adds the row in this e-class, subsumes it if it is to be, or unites its
/// e-class with the image.
pub open spec fn is_row_edit(
    table: Seq<char>,
    inputs: Seq<u32>,
    eclass: u32,
    subsumed: bool,
    image: u32,
    edit: Edit,
) -> bool {
    ||| edit == Edit::Add(table, inputs, eclass)
    ||| subsumed && edit == Edit::Subsume(table, inputs)
    ||| eclass != image && edit == Edit::Union(eclass, image)
}

/// The edit is for the copy of this row.
pub open spec fn is_for_this_row(
    after: egglog::FullState<'_, '_>,
    graph: Map<u32, Seq<ENode>>,
    list: Seq<Constructor>,
    map: Map<u32, u32>,
    affected: Set<u32>,
    images: Map<u32, u32>,
    edit: Edit,
    class: u32,
    row: int,
    inputs: Seq<u32>,
    eclass: u32,
) -> bool {
    let node = graph[class][row];
    &&& affected.contains(class)
    &&& !map.contains_key(class)
    &&& 0 <= row < graph[class].len()
    &&& inputs.len() == node.children@.len()
    &&& forall|j: int|
        0 <= j < inputs.len() ==> is_carried(
            after,
            map,
            affected,
            images,
            node.children@[j],
            #[trigger] inputs[j],
        )
    &&& is_row_edit(
        list[node.ctor as int].name@,
        inputs,
        eclass,
        node.subsumed,
        images[class],
        edit,
    )
}

/// The edit is for the copy of some row of an affected e-class that is no key.
pub open spec fn is_for_a_row(
    after: egglog::FullState<'_, '_>,
    graph: Map<u32, Seq<ENode>>,
    list: Seq<Constructor>,
    map: Map<u32, u32>,
    affected: Set<u32>,
    images: Map<u32, u32>,
    edit: Edit,
) -> bool {
    exists|class: u32, row: int, inputs: Seq<u32>, eclass: u32| #[trigger]
        is_for_this_row(
            after,
            graph,
            list,
            map,
            affected,
            images,
            edit,
            class,
            row,
            inputs,
            eclass,
        )
}

proof fn lemma_copy_is_carried(
    after: egglog::FullState<'_, '_>,
    graph: Map<u32, Seq<ENode>>,
    map: Map<u32, u32>,
    affected: Set<u32>,
    images: Map<u32, u32>,
    copy: CopiedRow,
    class: u32,
    row: int,
)
    requires
        are_images(
            after,
            map,
            affected,
            images,
            graph[class][row].children@,
            copy.inputs@,
        ),
    ensures
        copy.inputs@.len() == graph[class][row].children@.len(),
        forall|j: int|
            0 <= j < copy.inputs@.len() ==> is_carried(
                after,
                map,
                affected,
                images,
                graph[class][row].children@[j],
                #[trigger] copy.inputs@[j],
            ),
{
    let children = graph[class][row].children@;
    assert forall|j: int| 0 <= j < copy.inputs@.len() implies is_carried(
        after,
        map,
        affected,
        images,
        children[j],
        #[trigger] copy.inputs@[j],
    ) by {
        assert(is_image(after, map, affected, images, children[j], copy.inputs@[j]));
        lemma_column_is_carried(after, map, affected, images, children[j], copy.inputs@[j]);
    }
}

/// The node shows this row of the constructor at position `ctor`: the values of its
/// columns in order, and whether it is subsumed.
pub open spec fn shows_row(node: ENode, ctor: int, row: (Seq<u32>, bool)) -> bool {
    &&& node.ctor == ctor
    &&& node.subsumed == row.1
    &&& node.children@.len() == row.0.len()
    &&& forall|j: int| 0 <= j < row.0.len() ==> held(node.children@[j]) == #[trigger] row.0[j]
}

spec fn finds(found: Seq<(int, Seq<u32>, bool)>, c: int, row: (Seq<u32>, bool)) -> bool {
    exists|k: int| 0 <= k < found.len() && #[trigger] found[k] == (c, row.0, row.1)
}

proof fn lemma_found_rows(
    state: egglog::FullState<'_, '_>,
    list: Seq<Constructor>,
    class: u32,
    sort: Option<Seq<char>>,
)
    ensures
        forall|c: int, r: int|
            #![trigger rows_of(state, list[c].name@, class)[r]]
            {
                &&& 0 <= c < list.len()
                &&& sort matches Some(name) ==> sort_name(list[c].output) == name
                &&& 0 <= r < rows_of(state, list[c].name@, class).len()
            } ==> finds(
                found_rows(state, list, class, sort),
                c,
                rows_of(state, list[c].name@, class)[r],
            ),
        forall|k: int|
            0 <= k < found_rows(state, list, class, sort).len() ==> {
                let found = #[trigger] found_rows(state, list, class, sort)[k];
                &&& 0 <= found.0 < list.len()
                &&& rows_of(state, list[found.0].name@, class).contains((found.1, found.2))
            },
    decreases list.len(),
{
    if list.len() > 0 {
        let front = list.drop_last();
        let last = list.len() - 1;
        lemma_found_rows(state, front, class, sort);
        let earlier = found_rows(state, front, class, sort);
        let all = found_rows(state, list, class, sort);
        let own = rows_of(state, list[last].name@, class);
        assert forall|c: int, r: int|
            #![trigger rows_of(state, list[c].name@, class)[r]]
            {
                &&& 0 <= c < list.len()
                &&& sort matches Some(name) ==> sort_name(list[c].output) == name
                &&& 0 <= r < rows_of(state, list[c].name@, class).len()
            } implies finds(all, c, rows_of(state, list[c].name@, class)[r]) by {
            if c < last {
                assert(front[c] == list[c]);
                let row = rows_of(state, front[c].name@, class)[r];
                assert(finds(earlier, c, row));
                let k = choose|k: int|
                    0 <= k < earlier.len() && #[trigger] earlier[k] == (c, row.0, row.1);
                assert(all[k] == earlier[k]);
            } else {
                assert(all[earlier.len() + r] == (last, own[r].0, own[r].1));
            }
        }
        assert forall|k: int| 0 <= k < all.len() implies {
            let found = #[trigger] all[k];
            &&& 0 <= found.0 < list.len()
            &&& rows_of(state, list[found.0].name@, class).contains((found.1, found.2))
        } by {
            if k < earlier.len() {
                assert(all[k] == earlier[k]);
                assert(front[earlier[k].0] == list[earlier[k].0]);
            } else {
                let r = k - earlier.len();
                assert(all[k] == (last, own[r].0, own[r].1));
                assert(own[r] == (own[r].0, own[r].1));
            }
        }
    }
}

/// Some node shows this row.
pub open spec fn is_shown(nodes: Seq<ENode>, ctor: int, row: (Seq<u32>, bool)) -> bool {
    exists|k: int| 0 <= k < nodes.len() && shows_row(#[trigger] nodes[k], ctor, row)
}

/// The node shows the row of its e-class at position `r` in the table of its
/// constructor.
pub open spec fn is_row_of(
    state: egglog::FullState<'_, '_>,
    list: Seq<Constructor>,
    class: u32,
    node: ENode,
    r: int,
) -> bool {
    &&& node.ctor < list.len()
    &&& 0 <= r < rows_of(state, list[node.ctor as int].name@, class).len()
    &&& shows_row(
        node,
        node.ctor as int,
        rows_of(state, list[node.ctor as int].name@, class)[r],
    )
}

/// The node shows some row of its e-class.
pub open spec fn comes_from(
    state: egglog::FullState<'_, '_>,
    list: Seq<Constructor>,
    class: u32,
    node: ENode,
) -> bool {
    exists|r: int| is_row_of(state, list, class, node, r)
}

/// The e-class stands in the column, through whatever containers, as one of the sort.
pub open spec fn stands_as(child: Child, class: u32, sort: Seq<char>) -> bool
    decreases child,
{
    match child {
        Child::Class(value, name) => value == class && name@ == sort,
        Child::Opaque(_) => false,
        Child::Container(container) => exists|j: int|
            0 <= j < container.contents@.len() && stands_as(
                #[trigger] container.contents@[j],
                class,
                sort,
            ),
    }
}

/// A row of the graph holds the e-class as one of the sort.
pub open spec fn is_held_as(graph: Map<u32, Seq<ENode>>, class: u32, sort: Seq<char>) -> bool {
    exists|from: u32, k: int, j: int|
        {
            &&& graph.contains_key(from)
            &&& 0 <= k < graph[from].len()
            &&& 0 <= j < graph[from][k].children@.len()
            &&& stands_as(#[trigger] graph[from][k].children@[j], class, sort)
        }
}

proof fn lemma_visit_stands(children: Seq<Child>, class: u32, sort: Seq<char>) -> (j: int)
    requires
        visits(children).contains((class, sort)),
    ensures
        0 <= j < children.len(),
        stands_as(children[j], class, sort),
    decreases children,
{
    let front = children.drop_last();
    let left = visits(front);
    let right = child_visits(children.last());
    let at = visits(children).index_of((class, sort));
    if at < left.len() {
        assert(left[at] == (class, sort));
        let j = lemma_visit_stands(front, class, sort);
        assert(front[j] == children[j]);
        j
    } else {
        assert(right[at - left.len()] == (class, sort));
        if let Child::Container(container) = children.last() {
            assert(visits(container.contents@).contains((class, sort)));
            let j = lemma_visit_stands(container.contents@, class, sort);
            assert(stands_as(container.contents@[j], class, sort));
        }
        children.len() - 1
    }
}

/// The root has all its rows, and every other e-class all its rows of its sort.
pub open spec fn has_all_rows(
    state: egglog::FullState<'_, '_>,
    list: Seq<Constructor>,
    root: u32,
    graph: Map<u32, Seq<ENode>>,
    sorts: Map<u32, Seq<char>>,
) -> bool {
    forall|class: u32, c: int, r: int|
        #![trigger rows_of(state, list[c].name@, class)[r]]
        {
            &&& graph.contains_key(class)
            &&& 0 <= c < list.len()
            &&& class == root || sort_name(list[c].output) == sorts[class]
            &&& 0 <= r < rows_of(state, list[c].name@, class).len()
        } ==> is_shown(graph[class], c, rows_of(state, list[c].name@, class)[r])
}

/// What is collected is what the e-graph holds: the root has all its rows, subsumed ones
/// included, every other e-class all its rows of the sort under which it was reached,
/// and no e-class has any other row. What a row refers to is collected too.
pub proof fn lemma_collected_is_what_is_held(
    state: egglog::FullState<'_, '_>,
    list: Seq<Constructor>,
    root: u32,
    graph: Map<u32, Seq<ENode>>,
)
    requires
        lists_constructors(state, list),
        is_collected(state, list, root, graph),
        all_shaped(state, list, graph),
        forall|c: int, class: u32, r: int|
            0 <= c < list.len() && 0 <= r < rows_of(state, list[c].name@, class).len()
                ==> table_shape(state, list[c].name@) == Some(
                (true, (#[trigger] rows_of(state, list[c].name@, class)[r]).0.len()),
            ),
    ensures
        graph.contains_key(root),
        exists|sorts: Map<u32, Seq<char>>|
            {
                &&& #[trigger] has_all_rows(state, list, root, graph, sorts)
                &&& forall|class: u32| #[trigger]
                    graph.contains_key(class) && class != root ==> is_held_as(
                        graph,
                        class,
                        sorts[class],
                    )
            },
        forall|class: u32, k: int|
            #![trigger graph[class][k]]
            graph.contains_key(class) && 0 <= k < graph[class].len() ==> comes_from(
                state,
                list,
                class,
                graph[class][k],
            ),
        forall|class: u32, k: int, j: int, dep: u32|
            graph.contains_key(class) && 0 <= k < graph[class].len() && 0 <= j
                < graph[class][k].children@.len() && #[trigger] stands_in(
                graph[class][k].children@[j],
                dep,
            ) ==> graph.contains_key(dep),
{
    let known = choose|sorts: Map<u32, Option<Seq<char>>>| read_from(
        state,
        list,
        root,
        graph,
        sorts,
    );
    let sorts = Map::new(|class: u32| known.contains_key(class), |class: u32| known[class]->0);
    assert forall|class: u32, c: int, r: int|
        #![trigger rows_of(state, list[c].name@, class)[r]]
        {
            &&& graph.contains_key(class)
            &&& 0 <= c < list.len()
            &&& class == root || sort_name(list[c].output) == sorts[class]
            &&& 0 <= r < rows_of(state, list[c].name@, class).len()
        } implies is_shown(graph[class], c, rows_of(state, list[c].name@, class)[r]) by {
        let sort = known[class];
        let found = found_rows(state, list, class, sort);
        lemma_found_rows(state, list, class, sort);
        assert(known.dom().contains(class));
        let row = rows_of(state, list[c].name@, class)[r];
        assert(finds(found, c, row));
        let k = choose|k: int| 0 <= k < found.len() && #[trigger] found[k] == (c, row.0, row.1);
        assert(is_row(state, list, graph[class][k], found[k]));
        lemma_row_is_shown(state, list, graph[class][k], found[k]);
        assert(is_shaped(state, list, graph[class][k]));
        assert(shows_row(graph[class][k], c, row));
    }
    assert(has_all_rows(state, list, root, graph, sorts));
    assert forall|class: u32| #[trigger]
        graph.contains_key(class) && class != root implies is_held_as(
        graph,
        class,
        sorts[class],
    ) by {
        assert(known.dom().contains(class));
        let sort = known[class]->0;
        let from = choose|from: u32| #[trigger] holds(graph, from, class, sort);
        let k = choose|k: int|
            0 <= k < graph[from].len() && #[trigger] visits(graph[from][k].children@).contains(
                (class, sort),
            );
        let j = lemma_visit_stands(graph[from][k].children@, class, sort);
        assert(stands_as(graph[from][k].children@[j], class, sort));
    }
    assert forall|class: u32, k: int|
        #![trigger graph[class][k]]
        graph.contains_key(class) && 0 <= k < graph[class].len() implies comes_from(
        state,
        list,
        class,
        graph[class][k],
    ) by {
        let node = graph[class][k];
        let found = found_rows(state, list, class, known[class]);
        lemma_found_rows(state, list, class, known[class]);
        assert(is_row(state, list, graph[class][k], found[k]));
        lemma_row_is_shown(state, list, graph[class][k], found[k]);
        let all = rows_of(state, list[node.ctor as int].name@, class);
        let r = all.index_of((found[k].1, found[k].2));
        assert(all[r] == (found[k].1, found[k].2));
        assert(is_shaped(state, list, graph[class][k]));
        assert(is_row_of(state, list, class, graph[class][k], r));
    }
    assert forall|class: u32, k: int, j: int, dep: u32|
        graph.contains_key(class) && 0 <= k < graph[class].len() && 0 <= j
            < graph[class][k].children@.len() && #[trigger] stands_in(
            graph[class][k].children@[j],
            dep,
        ) implies graph.contains_key(dep) by {
        let node = graph[class][k];
        let found = found_rows(state, list, class, known[class]);
        assert(is_row(state, list, graph[class][k], found[k]));
        lemma_references_are_what_stands_in(node.children@, dep);
        lemma_class_deps(graph[class], dep);
        assert(edge(graph, class, dep));
    }
}

proof fn lemma_row_is_shown(
    state: egglog::FullState<'_, '_>,
    list: Seq<Constructor>,
    node: ENode,
    row: (int, Seq<u32>, bool),
)
    requires
        is_row(state, list, node, row),
    ensures
        forall|j: int|
            0 <= j < node.children@.len() ==> held(#[trigger] node.children@[j]) == row.1[j],
{
    assert forall|j: int| 0 <= j < node.children@.len() implies held(
        #[trigger] node.children@[j],
    ) == row.1[j] by {
        assert(shows(
            state,
            list[row.0].inputs@[j],
            row.1[j],
            node.children@[j],
            Seq::empty(),
        ));
    }
}

} // verus!

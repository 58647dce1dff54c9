//! Why a substitution gives what it gives, or nothing.

use vstd::prelude::*;
use crate::subst::carried::{held, is_carried, leads_over, lemma_column_is_carried, stands_in};
use crate::subst::collect::{
    all_values, can_follow, is_collected, lemma_all_values_finite, lists_constructors, shows, Constructor,
};
use crate::subst::copy::{are_images, class_image};
use crate::subst::forecast::{lacks_copy, stands};
use crate::subst::graph::{
    affected_classes, class_deps, edge, is_affected, leaves, lemma_class_deps, Child, ENode,
};
use crate::subst::order::{
    copied_classes, copy_path, lemma_postorder_is_region, lemma_successors, postorder_of, reaches,
    successors,
};
use crate::subst::plan::{
    blocked, grounded, lemma_naming_order, nameable, names_blocked_row, naming_order, node_ready, resolved,
    Blocked,
};
use crate::subst::state::{
    class_at, constructor_sorts, contents_of, is_container, is_container_sort, is_eq_sort, staged,
    table_rows,
};
use crate::subst::{
    constructor_names, is_outcome, is_substituted, lemma_affected_reached,
    lemma_collected_is_copyable, uncommitted_text, ungrounded_text, Failure, Substitution,
    Unsubsumable,
};
use crate::text::{
    ascending, consists_of, decimal, joined, lemma_consists_of_more, lemma_consists_of_nothing,
    lemma_decimal_reads_back, lemma_joined_stand_in_order, lists, number_of, separated,
};

verus! {

/// A root that is a key gives its target, as supplied, and an empty map gives the root. Either
/// way nothing is read, interned or written.
pub proof fn lemma_key_root_gives_its_target(
    before: egglog::FullState<'_, '_>,
    after: egglog::FullState<'_, '_>,
    root: u32,
    map: Map<u32, u32>,
    result: Result<Substitution, Failure>,
)
    requires
        is_substituted(before, after, root, map, result),
        map.contains_key(root) || forall|key: u32| !map.contains_key(key),
    ensures
        after == before,
        result is Ok,
        result->Ok_0.copies@.len() == 0,
        map.contains_key(root) ==> result->Ok_0.image == map[root],
        !map.contains_key(root) ==> result->Ok_0.image == root,
{
    if !map.contains_key(root) {
        assert(map.dom() =~= Set::<u32>::empty());
    }
}

/// The e-class needs a copy: it is affected, and no key.
pub open spec fn needs_copy(graph: Map<u32, Seq<ENode>>, map: Map<u32, u32>, class: u32) -> bool {
    is_affected(graph, map.dom(), class) && !map.contains_key(class)
}

/// The row needs only copies of these e-classes.
pub open spec fn needs_only(
    graph: Map<u32, Seq<ENode>>,
    map: Map<u32, u32>,
    node: ENode,
    classes: Seq<u32>,
) -> bool {
    forall|dep: u32| #[trigger]
        node.deps@.contains(dep) && needs_copy(graph, map, dep) ==> classes.contains(dep)
}

/// Each e-class has a row that needs only copies of e-classes before it, so that they could be
/// copied in this order.
pub open spec fn is_possible_order(
    graph: Map<u32, Seq<ENode>>,
    map: Map<u32, u32>,
    other: Seq<u32>,
) -> bool {
    forall|i: int|
        0 <= i < other.len() ==> has_row_for(graph, map, #[trigger] other[i], other.take(i))
}

/// Some row of the e-class needs only copies of these e-classes.
pub open spec fn has_row_for(
    graph: Map<u32, Seq<ENode>>,
    map: Map<u32, u32>,
    class: u32,
    classes: Seq<u32>,
) -> bool {
    exists|k: int|
        0 <= k < graph[class].len() && needs_only(graph, map, #[trigger] graph[class][k], classes)
}

/// No order copies the e-class.
pub open spec fn has_no_order(graph: Map<u32, Seq<ENode>>, map: Map<u32, u32>, class: u32) -> bool {
    forall|other: Seq<u32>| #[trigger]
        is_possible_order(graph, map, other) ==> !other.contains(class)
}

/// The row refers to an e-class that needs a copy which no order gives.
pub open spec fn cannot_be_copied(
    graph: Map<u32, Seq<ENode>>,
    map: Map<u32, u32>,
    node: ENode,
) -> bool {
    exists|dep: u32| #[trigger]
        node.deps@.contains(dep) && needs_copy(graph, map, dep) && has_no_order(graph, map, dep)
}

/// The name is that of the constructor of a row of the e-class that cannot be copied.
pub open spec fn is_blamed(
    graph: Map<u32, Seq<ENode>>,
    list: Seq<Constructor>,
    map: Map<u32, u32>,
    class: u32,
    text: Seq<char>,
) -> bool {
    exists|k: int|
        {
            &&& 0 <= k < graph[class].len()
            &&& cannot_be_copied(graph, map, #[trigger] graph[class][k])
            &&& list[graph[class][k].ctor as int].name@ == text
        }
}

/// The e-class is one of the region, and every row of one before it can be copied.
pub open spec fn is_first(
    graph: Map<u32, Seq<ENode>>,
    map: Map<u32, u32>,
    region: Seq<u32>,
    class: u32,
) -> bool {
    exists|rank: int|
        {
            &&& 0 <= rank < region.len()
            &&& #[trigger] region[rank] == class
            &&& forall|r: int, k: int|
                0 <= r < rank && 0 <= k < graph[region[r]].len() ==> !cannot_be_copied(
                    graph,
                    map,
                    #[trigger] graph[region[r]][k],
                )
        }
}

/// The root reaches the e-class over e-classes that need copies, some row of it cannot be
/// copied, and the names are those of such rows. Every row of an e-class that comes before it
/// in postorder can be copied.
pub open spec fn is_blame(
    graph: Map<u32, Seq<ENode>>,
    list: Seq<Constructor>,
    map: Map<u32, u32>,
    root: u32,
    found: Blocked,
) -> bool {
    &&& exists|path: Seq<u32>| #[trigger]
        leads_over(graph, map, affected_classes(graph, map.dom()), root, found.eclass, path)
    &&& is_first(
        graph,
        map,
        postorder_of(graph, affected_classes(graph, map.dom()).difference(map.dom()), root),
        found.eclass,
    )
    &&& found.constructors@.len() > 0
    &&& ascending(found.constructors@)
    &&& forall|text: Seq<char>| #[trigger]
        lists(found.constructors@, text) <==> is_blamed(graph, list, map, found.eclass, text)
}

proof fn lemma_possible_is_named(
    graph: Map<u32, Seq<ENode>>,
    map: Map<u32, u32>,
    root: u32,
    other: Seq<u32>,
    i: int,
)
    requires
        copied_classes(affected_classes(graph, map.dom()), map.dom()).finite(),
        copied_classes(affected_classes(graph, map.dom()), map.dom()).contains(root),
        is_possible_order(graph, map, other),
        0 <= i < other.len(),
        postorder_of(
            graph,
            copied_classes(affected_classes(graph, map.dom()), map.dom()),
            root,
        ).contains(other[i]),
    ensures
        naming_order(
            graph,
            copied_classes(affected_classes(graph, map.dom()), map.dom()),
            postorder_of(
                graph,
                copied_classes(affected_classes(graph, map.dom()), map.dom()),
                root,
            ),
        ).contains(other[i]),
    decreases i,
{
    let copied = copied_classes(affected_classes(graph, map.dom()), map.dom());
    let region = postorder_of(graph, copied, root);
    let order = naming_order(graph, copied, region);
    let class = other[i];
    lemma_postorder_is_region(graph, copied, root);
    lemma_naming_order(graph, copied, region);
    let rank = region.index_of(class);
    assert(region[rank] == class);
    assert(has_row_for(graph, map, other[i], other.take(i)));
    let k = choose|k: int|
        0 <= k < graph[class].len() && needs_only(
            graph,
            map,
            #[trigger] graph[class][k],
            other.take(i),
        );
    let node = graph[class][k];
    lemma_affected_reached(graph, map.dom(), class);
    assert forall|d: int| 0 <= d < node.deps@.len() implies resolved(
        copied,
        order.to_set(),
        #[trigger] node.deps@[d],
    ) by {
        let dep = node.deps@[d];
        if copied.contains(dep) {
            assert(node.deps@.contains(dep));
            assert(needs_copy(graph, map, dep));
            let at = other.take(i).index_of(dep);
            assert(other.take(i)[at] == other[at]);
            lemma_class_deps(graph[class], dep);
            assert(class_deps(graph[class]).contains(dep));
            lemma_successors(graph, copied, class, dep);
            assert(successors(graph, copied, region[rank]).contains(dep));
            lemma_possible_is_named(graph, map, root, other, at);
        }
    }
    assert(node_ready(copied, order.to_set(), graph[class][k]));
    assert(nameable(graph, copied, order.to_set(), region[rank]));
}

proof fn lemma_order_is_possible(graph: Map<u32, Seq<ENode>>, map: Map<u32, u32>, order: Seq<u32>)
    requires
        grounded(graph, copied_classes(affected_classes(graph, map.dom()), map.dom()), order),
    ensures
        is_possible_order(graph, map, order),
{
    let copied = copied_classes(affected_classes(graph, map.dom()), map.dom());
    assert forall|i: int| 0 <= i < order.len() implies has_row_for(
        graph,
        map,
        #[trigger] order[i],
        order.take(i),
    ) by {
        let class = order[i];
        let named = order.take(i).to_set();
        assert(nameable(graph, copied, named, order[i]));
        let k = choose|k: int|
            0 <= k < graph[class].len() && node_ready(copied, named, #[trigger] graph[class][k]);
        let node = graph[class][k];
        assert forall|dep: u32| #[trigger]
            node.deps@.contains(dep) && needs_copy(graph, map, dep) implies order.take(i).contains(
            dep,
        ) by {
            let d = node.deps@.index_of(dep);
            assert(resolved(copied, named, node.deps@[d]));
        }
        assert(needs_only(graph, map, graph[class][k], order.take(i)));
    }
}

proof fn lemma_unready_cannot_be_copied(
    graph: Map<u32, Seq<ENode>>,
    map: Map<u32, u32>,
    root: u32,
    class: u32,
    k: int,
)
    requires
        copied_classes(affected_classes(graph, map.dom()), map.dom()).finite(),
        copied_classes(affected_classes(graph, map.dom()), map.dom()).contains(root),
        postorder_of(
            graph,
            copied_classes(affected_classes(graph, map.dom()), map.dom()),
            root,
        ).contains(class),
        0 <= k < graph[class].len(),
    ensures
        ({
            let copied = copied_classes(affected_classes(graph, map.dom()), map.dom());
            let named = naming_order(graph, copied, postorder_of(graph, copied, root)).to_set();
            !node_ready(copied, named, graph[class][k]) <==> cannot_be_copied(
                graph,
                map,
                graph[class][k],
            )
        }),
{
    let copied = copied_classes(affected_classes(graph, map.dom()), map.dom());
    let region = postorder_of(graph, copied, root);
    let order = naming_order(graph, copied, region);
    let node = graph[class][k];
    lemma_postorder_is_region(graph, copied, root);
    lemma_naming_order(graph, copied, region);
    if !node_ready(copied, order.to_set(), node) {
        let d = choose|d: int|
            0 <= d < node.deps@.len() && !resolved(copied, order.to_set(), #[trigger] node.deps@[d]);
        let dep = node.deps@[d];
        assert(node.deps@.contains(dep));
        assert(needs_copy(graph, map, dep));
        let rank = region.index_of(class);
        assert(region[rank] == class);
        lemma_affected_reached(graph, map.dom(), class);
        lemma_class_deps(graph[class], dep);
        lemma_successors(graph, copied, class, dep);
        assert(successors(graph, copied, region[rank]).contains(dep));
        assert(region.contains(dep));
        assert forall|other: Seq<u32>| #[trigger]
            is_possible_order(graph, map, other) implies !other.contains(dep) by {
            if other.contains(dep) {
                let i = other.index_of(dep);
                lemma_possible_is_named(graph, map, root, other, i);
            }
        }
        assert(has_no_order(graph, map, dep));
    }
    if cannot_be_copied(graph, map, node) {
        let dep = choose|dep: u32| #[trigger]
            node.deps@.contains(dep) && needs_copy(graph, map, dep) && has_no_order(
                graph,
                map,
                dep,
            );
        lemma_order_is_possible(graph, map, order);
        assert(!order.contains(dep));
        let d = node.deps@.index_of(dep);
        assert(!resolved(copied, order.to_set(), node.deps@[d]));
    }
}

/// A substitution is refused for a cycle only if some row that it must copy refers to an
/// e-class that no order copies, whatever the order. Of an e-class with such rows the refusal
/// names just these, by their constructors, ascending and each once. Nothing was interned or
/// written.
pub proof fn lemma_refused_cycles_cannot_be_copied(
    before: egglog::FullState<'_, '_>,
    after: egglog::FullState<'_, '_>,
    root: u32,
    map: Map<u32, u32>,
    found: Blocked,
)
    requires
        is_substituted(before, after, root, map, Err(Failure::Ungrounded(found))),
    ensures
        after == before,
        exists|list: Seq<Constructor>, graph: Map<u32, Seq<ENode>>|
            {
                &&& #[trigger] lists_constructors(before, list)
                &&& #[trigger] is_collected(before, list, root, graph)
                &&& is_blame(graph, list, map, root, found)
            },
{
    let result: Result<Substitution, Failure> = Err(Failure::Ungrounded(found));
    let (list, graph) = choose|list: Seq<Constructor>, graph: Map<u32, Seq<ENode>>|
        {
            &&& #[trigger] lists_constructors(before, list)
            &&& #[trigger] is_collected(before, list, root, graph)
            &&& is_outcome(
                before,
                after,
                graph,
                list,
                map,
                root,
                result,
                staged(after).skip(staged(before).len() as int),
            )
        };
    let affected = affected_classes(graph, map.dom());
    let copied = copied_classes(affected, map.dom());
    let region = postorder_of(graph, copied, root);
    let named = naming_order(graph, copied, region).to_set();
    let class = found.eclass;
    lemma_all_values_finite();
    vstd::set_lib::lemma_set_subset_finite(all_values(), copied);
    lemma_postorder_is_region(graph, copied, root);
    assert(region.contains(class));
    assert(reaches(graph, copied, root, class));
    let path = choose|path: Seq<u32>| copy_path(graph, copied, root, class, path);
    assert forall|i: int| 0 <= i < path.len() implies {
        &&& affected.contains(#[trigger] path[i])
        &&& !map.contains_key(path[i])
    } by {
        if i > 0 {
            let from = i - 1;
            assert(successors(graph, copied, path[from]).contains(path[from + 1]));
            lemma_successors(graph, copied, path[from], path[i]);
        }
    }
    assert forall|i: int| 0 <= i < path.len() - 1 implies #[trigger] edge(
        graph,
        path[i],
        path[i + 1],
    ) by {
        assert(successors(graph, copied, path[i]).contains(path[i + 1]));
        lemma_successors(graph, copied, path[i], path[i + 1]);
    }
    assert(leads_over(graph, map, affected, root, class, path));
    lemma_affected_reached(graph, map.dom(), class);
    let names = constructor_names(list);
    assert forall|text: Seq<char>| #[trigger]
        lists(found.constructors@, text) <==> is_blamed(graph, list, map, class, text) by {
        if names_blocked_row(graph, copied, named, class, names, text) {
            let k = choose|k: int|
                0 <= k < graph[class].len() && !node_ready(
                    copied,
                    named,
                    #[trigger] graph[class][k],
                ) && names[graph[class][k].ctor as int]@ == text;
            lemma_unready_cannot_be_copied(graph, map, root, class, k);
            lemma_collected_is_copyable(before, list, root, graph, class, k);
            assert(is_blamed(graph, list, map, class, text));
        }
        if is_blamed(graph, list, map, class, text) {
            let k = choose|k: int|
                {
                    &&& 0 <= k < graph[class].len()
                    &&& cannot_be_copied(graph, map, #[trigger] graph[class][k])
                    &&& list[graph[class][k].ctor as int].name@ == text
                };
            lemma_unready_cannot_be_copied(graph, map, root, class, k);
            lemma_collected_is_copyable(before, list, root, graph, class, k);
            assert(names[graph[class][k].ctor as int]@ == text);
            assert(names_blocked_row(graph, copied, named, class, names, text));
        }
    }
    let rank = choose|rank: int|
        0 <= rank < region.len() && #[trigger] region[rank] == class && forall|before: int|
            0 <= before < rank ==> !blocked(graph, copied, named, #[trigger] region[before]);
    assert(region[rank] == class);
    assert forall|r: int, k: int|
        0 <= r < rank && 0 <= k < graph[region[r]].len() implies !cannot_be_copied(
        graph,
        map,
        #[trigger] graph[region[r]][k],
    ) by {
        assert(!blocked(graph, copied, named, region[r]));
        assert(region.contains(region[r]));
        lemma_unready_cannot_be_copied(graph, map, root, region[r], k);
    }
    assert(is_first(graph, map, region, class));
    let k = choose|k: int|
        0 <= k < graph[class].len() && !node_ready(copied, named, #[trigger] graph[class][k]);
    let first = names[graph[class][k].ctor as int]@;
    assert(names_blocked_row(graph, copied, named, class, names, first));
    assert(lists(found.constructors@, first));
    assert(is_blame(graph, list, map, root, found));
}

/// The values lead from the column to the e-class: each but the last is an interned container
/// that holds the next, none of them inside itself.
pub open spec fn is_chain(
    state: egglog::FullState<'_, '_>,
    chain: Seq<(egglog::ResolvedVar, u32)>,
    sort: egglog::ResolvedVar,
    value: u32,
    class: u32,
) -> bool {
    &&& chain.len() > 0
    &&& chain[0] == (sort, value)
    &&& is_eq_sort(chain.last().0)
    &&& chain.last().1 == class
    &&& forall|k: int|
        0 <= k < chain.len() - 1 ==> {
            &&& !is_eq_sort((#[trigger] chain[k]).0)
            &&& is_container_sort(chain[k].0)
            &&& is_container(state, chain[k].0, chain[k].1)
            &&& contents_of(state, chain[k].0, chain[k].1).contains(chain[k + 1])
        }
    &&& forall|i: int, k: int|
        0 <= i < k < chain.len() - 1 ==> (#[trigger] chain[i]).1 != (#[trigger] chain[k]).1
}

proof fn lemma_chain_of(
    state: egglog::FullState<'_, '_>,
    sort: egglog::ResolvedVar,
    value: u32,
    child: Child,
    path: Seq<u32>,
    class: u32,
) -> (chain: Seq<(egglog::ResolvedVar, u32)>)
    requires
        shows(state, sort, value, child, path),
        stands_in(child, class),
    ensures
        is_chain(state, chain, sort, value, class),
        forall|k: int|
            0 <= k < chain.len() - 1 ==> !path.contains((#[trigger] chain[k]).1),
    decreases child,
{
    match child {
        Child::Container(container) => {
            let j = choose|j: int|
                0 <= j < container.contents@.len() && stands_in(
                    #[trigger] container.contents@[j],
                    class,
                );
            let inner = contents_of(state, sort, value);
            let further = path.push(value);
            assert(shows(state, inner[j].0, inner[j].1, container.contents@[j], further));
            let rest = lemma_chain_of(
                state,
                inner[j].0,
                inner[j].1,
                container.contents@[j],
                further,
                class,
            );
            let chain = seq![(sort, value)] + rest;
            assert(chain.last() == rest.last());
            assert(inner.contains(inner[j]));
            assert forall|k: int| 0 <= k < chain.len() - 1 implies {
                &&& !is_eq_sort((#[trigger] chain[k]).0)
                &&& is_container_sort(chain[k].0)
                &&& is_container(state, chain[k].0, chain[k].1)
                &&& contents_of(state, chain[k].0, chain[k].1).contains(chain[k + 1])
            } by {
                if k > 0 {
                    assert(chain[k] == rest[k - 1]);
                    assert(chain[k + 1] == rest[k]);
                }
            }
            assert(further[path.len() as int] == value);
            assert forall|k: int| 0 <= k < rest.len() - 1 implies {
                &&& (#[trigger] rest[k]).1 != value
                &&& !path.contains(rest[k].1)
            } by {
                assert(!further.contains(rest[k].1));
                if path.contains(rest[k].1) {
                    assert(further[path.index_of(rest[k].1)] == rest[k].1);
                }
            }
            assert forall|i: int, k: int| 0 <= i < k < chain.len() - 1 implies (
            #[trigger] chain[i]).1 != (#[trigger] chain[k]).1 by {
                assert(chain[k] == rest[k - 1]);
                if i > 0 {
                    assert(chain[i] == rest[i - 1]);
                }
            }
            assert forall|k: int| 0 <= k < chain.len() - 1 implies !path.contains(
                (#[trigger] chain[k]).1,
            ) by {
                if k > 0 {
                    assert(chain[k] == rest[k - 1]);
                }
            }
            chain
        },
        _ => seq![(sort, value)],
    }
}

proof fn lemma_chain_stands(
    state: egglog::FullState<'_, '_>,
    sort: egglog::ResolvedVar,
    value: u32,
    child: Child,
    path: Seq<u32>,
    class: u32,
    chain: Seq<(egglog::ResolvedVar, u32)>,
)
    requires
        shows(state, sort, value, child, path),
        is_chain(state, chain, sort, value, class),
        forall|k: int|
            0 <= k < chain.len() - 1 ==> !path.contains((#[trigger] chain[k]).1),
    ensures
        stands_in(child, class),
    decreases chain.len(),
{
    if chain.len() > 1 {
        assert(!path.contains(chain[0].1));
        assert(child is Container);
        let container = child->Container_0;
        let inner = contents_of(state, sort, value);
        let next = chain[1];
        assert(inner.contains(chain[0int + 1]));
        let j = inner.index_of(next);
        let further = path.push(value);
        let rest = chain.skip(1);
        assert(shows(state, inner[j].0, inner[j].1, container.contents@[j], further));
        assert(rest.last() == chain.last());
        assert forall|k: int| 0 <= k < rest.len() - 1 implies {
            &&& !is_eq_sort((#[trigger] rest[k]).0)
            &&& is_container_sort(rest[k].0)
            &&& is_container(state, rest[k].0, rest[k].1)
            &&& contents_of(state, rest[k].0, rest[k].1).contains(rest[k + 1])
        } by {
            assert(rest[k] == chain[k + 1]);
            assert(rest[k + 1] == chain[k + 1 + 1]);
        }
        assert forall|i: int, k: int| 0 <= i < k < rest.len() - 1 implies (#[trigger] rest[i]).1
            != (#[trigger] rest[k]).1 by {
            assert(rest[i] == chain[i + 1]);
            assert(rest[k] == chain[k + 1]);
        }
        assert forall|k: int| 0 <= k < rest.len() - 1 implies !further.contains(
            (#[trigger] rest[k]).1,
        ) by {
            assert(rest[k] == chain[k + 1]);
            assert(chain[0].1 != chain[k + 1].1);
            assert(!path.contains(chain[k + 1].1));
            if further.contains(rest[k].1) {
                let at = further.index_of(rest[k].1);
                if at < path.len() {
                    assert(path[at] == rest[k].1);
                }
            }
        }
        lemma_chain_stands(
            state,
            inner[j].0,
            inner[j].1,
            container.contents@[j],
            further,
            class,
            rest,
        );
        assert(stands_in(container.contents@[j], class));
    }
}

/// A column of an eq-sort holds its e-class. A column of a container sort holds the e-classes
/// that its container holds, itself or through containers in it, and another column holds none.
pub proof fn lemma_columns_hold_eclasses(
    state: egglog::FullState<'_, '_>,
    sort: egglog::ResolvedVar,
    value: u32,
    child: Child,
    class: u32,
)
    requires
        shows(state, sort, value, child, Seq::empty()),
    ensures
        held(child) == value,
        stands_in(child, class) <==> exists|chain: Seq<(egglog::ResolvedVar, u32)>| #[trigger]
            is_chain(state, chain, sort, value, class),
        is_eq_sort(sort) ==> (stands_in(child, class) <==> class == value),
        !is_eq_sort(sort) && !is_container_sort(sort) ==> !stands_in(child, class),
{
    if stands_in(child, class) {
        let chain = lemma_chain_of(state, sort, value, child, Seq::empty(), class);
    }
    if exists|chain: Seq<(egglog::ResolvedVar, u32)>| #[trigger]
        is_chain(state, chain, sort, value, class) {
        let chain = choose|chain: Seq<(egglog::ResolvedVar, u32)>| #[trigger]
            is_chain(state, chain, sort, value, class);
        lemma_chain_stands(state, sort, value, child, Seq::empty(), class, chain);
    }
}

/// The copy of the row is not committed: something that it refers to has no committed copy, or
/// its table has no row with what the columns become.
pub open spec fn is_not_committed(
    state: egglog::FullState<'_, '_>,
    graph: Map<u32, Seq<ENode>>,
    list: Seq<Constructor>,
    map: Map<u32, u32>,
    known: Map<u32, u32>,
    node: ENode,
) -> bool {
    ||| exists|dep: u32|
        {
            &&& #[trigger] leaves(node.children@).contains(dep)
            &&& needs_copy(graph, map, dep)
            &&& !known.contains_key(dep)
        }
    ||| exists|inputs: Seq<u32>|
        {
            &&& #[trigger] class_at(state, list[node.ctor as int].name@, inputs) is None
            &&& inputs.len() == node.children@.len()
            &&& forall|j: int|
                0 <= j < inputs.len() ==> is_carried(
                    state,
                    map,
                    affected_classes(graph, map.dom()),
                    known,
                    node.children@[j],
                    #[trigger] inputs[j],
                )
        }
}

/// The row that is blamed is subsumed, and its copy is not committed.
pub open spec fn is_uncommitted(
    after: egglog::FullState<'_, '_>,
    graph: Map<u32, Seq<ENode>>,
    list: Seq<Constructor>,
    map: Map<u32, u32>,
    found: Unsubsumable,
    known: Map<u32, u32>,
    row: int,
) -> bool {
    &&& needs_copy(graph, map, found.eclass)
    &&& 0 <= row < graph[found.eclass].len()
    &&& graph[found.eclass][row].subsumed
    &&& list[graph[found.eclass][row].ctor as int].name@ == found.constructor@
    &&& is_not_committed(after, graph, list, map, known, graph[found.eclass][row])
}

/// A substitution is refused for a subsumed row only if it must copy that row and the copy is
/// not committed. Nothing was written.
pub proof fn lemma_refused_copies_are_not_committed(
    before: egglog::FullState<'_, '_>,
    after: egglog::FullState<'_, '_>,
    root: u32,
    map: Map<u32, u32>,
    found: Unsubsumable,
)
    requires
        is_substituted(before, after, root, map, Err(Failure::Uncommitted(found))),
    ensures
        staged(after) == staged(before),
        exists|
            list: Seq<Constructor>,
            graph: Map<u32, Seq<ENode>>,
            known: Map<u32, u32>,
            row: int,
        |
            {
                &&& #[trigger] lists_constructors(before, list)
                &&& #[trigger] is_collected(before, list, root, graph)
                &&& #[trigger] is_uncommitted(after, graph, list, map, found, known, row)
            },
{
    let result: Result<Substitution, Failure> = Err(Failure::Uncommitted(found));
    let (list, graph) = choose|list: Seq<Constructor>, graph: Map<u32, Seq<ENode>>|
        {
            &&& #[trigger] lists_constructors(before, list)
            &&& #[trigger] is_collected(before, list, root, graph)
            &&& is_outcome(
                before,
                after,
                graph,
                list,
                map,
                root,
                result,
                staged(after).skip(staged(before).len() as int),
            )
        };
    assert(staged(after) =~= staged(before)) by {
        assert(staged(after).skip(staged(before).len() as int).len() == 0);
        assert(staged(before).is_prefix_of(staged(after)));
    }
    let affected = affected_classes(graph, map.dom());
    let copied = copied_classes(affected, map.dom());
    let region = postorder_of(graph, copied, root);
    let order = naming_order(graph, copied, region);
    lemma_all_values_finite();
    vstd::set_lib::lemma_set_subset_finite(all_values(), copied);
    lemma_postorder_is_region(graph, copied, root);
    lemma_naming_order(graph, copied, region);
    let (known, row) = choose|known: Map<u32, u32>, row: int|
        {
            &&& #[trigger] lacks_copy(
                after,
                graph,
                list,
                map,
                affected,
                order,
                known,
                found.eclass,
                row,
            )
            &&& found.constructor@ == list[graph[found.eclass][row].ctor as int].name@
        };
    let node = graph[found.eclass][row];
    assert(region.contains(order[order.index_of(found.eclass)]));
    assert(stands(after, list, map, affected, known, node, None));
    let all = leaves(node.children@);
    if forall|i: int|
        0 <= i < all.len() ==> class_image(map, affected, known, #[trigger] all[i]) is Some {
        let inputs = choose|inputs: Seq<u32>|
            {
                &&& #[trigger] are_images(after, map, affected, known, node.children@, inputs)
                &&& class_at(after, list[node.ctor as int].name@, inputs) is None
            };
        assert forall|j: int| 0 <= j < inputs.len() implies is_carried(
            after,
            map,
            affected,
            known,
            node.children@[j],
            #[trigger] inputs[j],
        ) by {
            lemma_column_is_carried(after, map, affected, known, node.children@[j], inputs[j]);
        }
        assert(class_at(after, list[node.ctor as int].name@, inputs) is None);
    } else {
        let i = choose|i: int|
            0 <= i < all.len() && !(class_image(map, affected, known, #[trigger] all[i]) is Some);
        assert(all.contains(all[i]));
    }
    assert(is_uncommitted(after, graph, list, map, found, known, row));
}

/// The tables that a walk can follow are those of the constructors with an eq-sort for their
/// output that have rows, and each is listed once, with its own sorts.
pub proof fn lemma_walk_follows_constructors(
    state: egglog::FullState<'_, '_>,
    list: Seq<Constructor>,
    table: Seq<char>,
)
    requires
        lists_constructors(state, list),
    ensures
        (exists|i: int| 0 <= i < list.len() && (#[trigger] list[i]).name@ == table) <==> {
            &&& table_rows(state).contains_key(table)
            &&& table_rows(state)[table] > 0
            &&& constructor_sorts(state, table) matches Some((_, output)) && is_eq_sort(output)
        },
        forall|i: int|
            0 <= i < list.len() ==> constructor_sorts(state, (#[trigger] list[i]).name@) == Some(
                (list[i].inputs@, list[i].output),
            ),
        forall|i: int, j: int|
            0 <= i < list.len() && 0 <= j < list.len() && i != j ==> (#[trigger] list[i]).name@ != (
            #[trigger] list[j]).name@,
{
    if exists|i: int| 0 <= i < list.len() && (#[trigger] list[i]).name@ == table {
        let i = choose|i: int| 0 <= i < list.len() && (#[trigger] list[i]).name@ == table;
        assert(can_follow(state, list[i].name@));
    }
    if can_follow(state, table) {
        let i = choose|i: int| 0 <= i < list.len() && (#[trigger] list[i]).name@ == table;
        assert(list[i].name@ == table);
    }
    assert forall|i: int, j: int|
        0 <= i < list.len() && 0 <= j < list.len() && i != j implies (#[trigger] list[i]).name@ != (
    #[trigger] list[j]).name@ by {
        if i < j {
            assert(list[i].name@ != list[j].name@);
        } else {
            assert(list[j].name@ != list[i].name@);
        }
    }
}

proof fn lemma_consists_of_five(
    a: Seq<char>,
    b: Seq<char>,
    c: Seq<char>,
    d: Seq<char>,
    e: Seq<char>,
)
    ensures
        consists_of(a + b + c + d + e, seq![a, b, c, d, e]),
{
    let none = Seq::<Seq<char>>::empty();
    lemma_consists_of_nothing();
    lemma_consists_of_more(Seq::empty(), none, a);
    lemma_consists_of_more(Seq::<char>::empty() + a, none.push(a), b);
    lemma_consists_of_more(Seq::<char>::empty() + a + b, none.push(a).push(b), c);
    lemma_consists_of_more(Seq::<char>::empty() + a + b + c, none.push(a).push(b).push(c), d);
    lemma_consists_of_more(
        Seq::<char>::empty() + a + b + c + d,
        none.push(a).push(b).push(c).push(d),
        e,
    );
    assert(Seq::<char>::empty() + a =~= a);
    assert(none.push(a).push(b).push(c).push(d).push(e) =~= seq![a, b, c, d, e]);
}

/// What is said of a cycle names the e-class by its number, and the constructors of all its
/// rows that cannot be copied, in their order and with commas between them.
pub proof fn lemma_cycles_are_told(eclass: u32, constructors: Seq<Seq<char>>)
    ensures
        exists|parts: Seq<Seq<char>>|
            {
                &&& #[trigger] consists_of(ungrounded_text(eclass, constructors), parts)
                &&& parts.len() == 5
                &&& number_of(parts[1]) == eclass
                &&& consists_of(parts[3], separated(constructors, ", "@))
            },
{
    let parts = seq![
        "unstable-subst: no order copies e-class Value("@,
        decimal(eclass as nat),
        "): its e-nodes ("@,
        joined(constructors, ", "@),
        ") refer to copies that nothing can produce. Every cycle in the substituted region needs at least one e-node whose children all lie outside it."@,
    ];
    lemma_consists_of_five(parts[0], parts[1], parts[2], parts[3], parts[4]);
    lemma_decimal_reads_back(eclass as nat);
    lemma_joined_stand_in_order(constructors, ", "@);
    assert(consists_of(ungrounded_text(eclass, constructors), parts));
}

/// What is said of a subsumed row names its constructor and its e-class by its number.
pub proof fn lemma_subsumed_rows_are_told(eclass: u32, constructor: Seq<char>)
    ensures
        exists|parts: Seq<Seq<char>>|
            {
                &&& #[trigger] consists_of(uncommitted_text(eclass, constructor), parts)
                &&& parts.len() == 5
                &&& parts[1] == constructor
                &&& number_of(parts[3]) == eclass
            },
{
    let parts = seq![
        "unstable-subst: the copy of a subsumed e-node ("@,
        constructor,
        ") of e-class Value("@,
        decimal(eclass as nat),
        ") is not in the e-graph yet, so it cannot be subsumed. Add it in an earlier command."@,
    ];
    lemma_consists_of_five(parts[0], parts[1], parts[2], parts[3], parts[4]);
    lemma_decimal_reads_back(eclass as nat);
    assert(consists_of(uncommitted_text(eclass, constructor), parts));
}

} // verus!

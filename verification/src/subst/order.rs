//! The e-classes that a substitution copies, children before parents.

use std::collections::{BTreeMap, HashSet};
use vstd::prelude::*;
use crate::subst::graph::{class_deps, EClass, ENode, Snapshot};

verus! {

broadcast use {
    vstd::std_specs::hash::group_hash_axioms,
    vstd::std_specs::btree::group_btree_axioms,
};

/// The e-classes that need a copy: the affected ones that are not replaced
/// outright.
pub open spec fn copied_classes(affected: Set<u32>, keys: Set<u32>) -> Set<u32> {
    affected.difference(keys)
}

/// The members of `set` in `list`, in order.
pub open spec fn keep(list: Seq<u32>, set: Set<u32>) -> Seq<u32>
    decreases list.len(),
{
    if list.len() == 0 {
        Seq::empty()
    } else if set.contains(list.last()) {
        keep(list.drop_last(), set).push(list.last())
    } else {
        keep(list.drop_last(), set)
    }
}

/// The e-classes to copy that `class` refers to, in order.
pub open spec fn successors(graph: Map<u32, Seq<ENode>>, copied: Set<u32>, class: u32) -> Seq<u32> {
    if graph.contains_key(class) {
        keep(class_deps(graph[class]), copied)
    } else {
        Seq::empty()
    }
}

/// Depth-first search from `class`: the e-classes seen afterwards, and those
/// that were finished on the way, in that order.
pub open spec fn visit(
    graph: Map<u32, Seq<ENode>>,
    copied: Set<u32>,
    seen: Set<u32>,
    class: u32,
) -> (Set<u32>, Seq<u32>)
    decreases copied.difference(seen).len(), 0nat,
    when copied.finite()
{
    if seen.contains(class) || !copied.contains(class) {
        (seen, Seq::empty())
    } else {
        proof {
            assert(copied.difference(seen.insert(class)) =~= copied.difference(seen).remove(class));
        }
        let (after, order) = visit_all(
            graph,
            copied,
            seen.insert(class),
            successors(graph, copied, class),
        );
        (after, order.push(class))
    }
}

/// Depth-first search from each e-class of `list`, the last one first.
pub open spec fn visit_all(
    graph: Map<u32, Seq<ENode>>,
    copied: Set<u32>,
    seen: Set<u32>,
    list: Seq<u32>,
) -> (Set<u32>, Seq<u32>)
    decreases copied.difference(seen).len(), list.len(),
    when copied.finite()
{
    if list.len() == 0 {
        (seen, Seq::empty())
    } else {
        let (between, front) = visit(graph, copied, seen, list.last());
        proof {
            vstd::set_lib::lemma_len_subset(
                copied.difference(seen.union(between)),
                copied.difference(seen),
            );
        }
        let (after, back) = visit_all(graph, copied, seen.union(between), list.drop_last());
        (after, front + back)
    }
}

/// The e-classes to copy for `root`, in the order in which a depth-first
/// search finishes them.
pub open spec fn postorder_of(
    graph: Map<u32, Seq<ENode>>,
    copied: Set<u32>,
    root: u32,
) -> Seq<u32> {
    visit(graph, copied, Set::empty(), root).1
}

/// What a search has done once it is finished.
pub open spec fn searched(
    graph: Map<u32, Seq<ENode>>,
    copied: Set<u32>,
    seen: Set<u32>,
    result: (Set<u32>, Seq<u32>),
) -> bool {
    &&& result.1.no_duplicates()
    &&& result.0 == seen.union(result.1.to_set())
    &&& forall|i: int|
        0 <= i < result.1.len() ==> {
            &&& copied.contains(#[trigger] result.1[i])
            &&& !seen.contains(result.1[i])
            &&& forall|dep: u32|
                successors(graph, copied, result.1[i]).contains(dep) ==> #[trigger] result.0.contains(
                    dep,
                )
        }
}

proof fn lemma_visit_searches(
    graph: Map<u32, Seq<ENode>>,
    copied: Set<u32>,
    seen: Set<u32>,
    class: u32,
)
    requires
        copied.finite(),
    ensures
        searched(graph, copied, seen, visit(graph, copied, seen, class)),
        copied.contains(class) ==> visit(graph, copied, seen, class).0.contains(class),
    decreases copied.difference(seen).len(), 0nat,
{
    let result = visit(graph, copied, seen, class);
    if seen.contains(class) || !copied.contains(class) {
        assert(seen =~= seen.union(result.1.to_set()));
    } else {
        let list = successors(graph, copied, class);
        let marked = seen.insert(class);
        assert(copied.difference(marked) =~= copied.difference(seen).remove(class));
        lemma_visit_all_searches(graph, copied, marked, list);
        let (after, order) = visit_all(graph, copied, marked, list);
        assert(result == (after, order.push(class)));
        assert(order.push(class)[order.len() as int] == class);
        assert(result.0 =~= seen.union(result.1.to_set())) by {
            assert forall|v: u32| result.0.contains(v) implies seen.union(
                result.1.to_set(),
            ).contains(v) by {
                if order.contains(v) {
                    let i = order.index_of(v);
                    assert(result.1[i] == v);
                } else if v == class {
                    assert(result.1[order.len() as int] == v);
                }
            }
            assert forall|v: u32| seen.union(
                result.1.to_set(),
            ).contains(v) implies result.0.contains(v) by {
                if result.1.contains(v) {
                    let i = result.1.index_of(v);
                    if i < order.len() {
                        assert(order[i] == v);
                        assert(order.to_set().contains(v));
                    }
                }
            }
        }
        assert forall|i: int| 0 <= i < result.1.len() implies {
            &&& copied.contains(#[trigger] result.1[i])
            &&& !seen.contains(result.1[i])
            &&& forall|dep: u32|
                successors(graph, copied, result.1[i]).contains(dep) ==> #[trigger] result.0.contains(
                    dep,
                )
        } by {
            if i < order.len() {
                assert(result.1[i] == order[i]);
            } else {
                assert forall|dep: u32|
                    successors(graph, copied, result.1[i]).contains(dep) implies #[trigger] result.0.contains(dep) by {
                    lemma_successors(graph, copied, class, dep);
                }
            }
        }
        assert(result.1.no_duplicates());
    }
}

proof fn lemma_keep(list: Seq<u32>, set: Set<u32>, value: u32)
    ensures
        keep(list, set).contains(value) <==> list.contains(value) && set.contains(value),
    decreases list.len(),
{
    if list.len() > 0 {
        let front = list.drop_last();
        lemma_keep(front, set, value);
        let rest = keep(front, set);
        if list.contains(value) {
            let i = list.index_of(value);
            if i < front.len() {
                assert(front[i] == value);
            }
        }
        if front.contains(value) {
            let i = front.index_of(value);
            assert(list[i] == value);
        }
        assert(list[list.len() - 1] == list.last());
        if set.contains(list.last()) {
            let kept = rest.push(list.last());
            assert(kept[rest.len() as int] == list.last());
            if rest.contains(value) {
                let i = rest.index_of(value);
                assert(kept[i] == value);
            }
            if kept.contains(value) {
                let i = kept.index_of(value);
                if i < rest.len() {
                    assert(rest[i] == value);
                }
            }
        }
    }
}

/// A successor is an e-class to copy that some row refers to.
pub proof fn lemma_successors(
    graph: Map<u32, Seq<ENode>>,
    copied: Set<u32>,
    class: u32,
    dep: u32,
)
    ensures
        successors(graph, copied, class).contains(dep) <==> {
            &&& graph.contains_key(class)
            &&& class_deps(graph[class]).contains(dep)
            &&& copied.contains(dep)
        },
{
    if graph.contains_key(class) {
        lemma_keep(class_deps(graph[class]), copied, dep);
    }
}

proof fn lemma_visit_all_searches(
    graph: Map<u32, Seq<ENode>>,
    copied: Set<u32>,
    seen: Set<u32>,
    list: Seq<u32>,
)
    requires
        copied.finite(),
    ensures
        searched(graph, copied, seen, visit_all(graph, copied, seen, list)),
        forall|class: u32|
            list.contains(class) && copied.contains(class) ==> #[trigger] visit_all(
                graph,
                copied,
                seen,
                list,
            ).0.contains(class),
    decreases copied.difference(seen).len(), list.len(),
{
    let result = visit_all(graph, copied, seen, list);
    if list.len() == 0 {
        assert(seen =~= seen.union(result.1.to_set()));
    } else {
        let (between, front) = visit(graph, copied, seen, list.last());
        lemma_visit_searches(graph, copied, seen, list.last());
        assert(seen.union(between) =~= between);
        vstd::set_lib::lemma_len_subset(copied.difference(between), copied.difference(seen));
        lemma_visit_all_searches(graph, copied, between, list.drop_last());
        let (after, back) = visit_all(graph, copied, between, list.drop_last());
        let whole = front + back;
        assert(result == (after, whole));
        assert(after =~= seen.union(whole.to_set())) by {
            assert forall|v: u32| after.contains(v) implies seen.union(whole.to_set()).contains(
                v,
            ) by {
                if back.contains(v) {
                    let i = back.index_of(v);
                    assert(whole[front.len() + i] == v);
                } else if front.contains(v) {
                    let i = front.index_of(v);
                    assert(whole[i] == v);
                }
            }
            assert forall|v: u32| seen.union(whole.to_set()).contains(v) implies after.contains(
                v,
            ) by {
                if whole.contains(v) {
                    let i = whole.index_of(v);
                    if i < front.len() {
                        assert(front[i] == v);
                        assert(front.to_set().contains(v));
                    } else {
                        assert(back[i - front.len()] == v);
                        assert(back.to_set().contains(v));
                    }
                }
            }
        }
        assert forall|i: int| 0 <= i < whole.len() implies {
            &&& copied.contains(#[trigger] whole[i])
            &&& !seen.contains(whole[i])
            &&& forall|dep: u32|
                successors(graph, copied, whole[i]).contains(dep) ==> #[trigger] after.contains(dep)
        } by {
            if i < front.len() {
                assert(whole[i] == front[i]);
            } else {
                assert(whole[i] == back[i - front.len()]);
            }
        }
        assert(whole.no_duplicates()) by {
            assert forall|i: int, j: int| 0 <= i < j < whole.len() implies whole[i] != whole[j] by {
                if i < front.len() && j >= front.len() {
                    assert(front.to_set().contains(front[i]));
                    assert(between.contains(whole[i]));
                    assert(!between.contains(back[j - front.len()]));
                }
            }
        }
        assert forall|class: u32| list.contains(class) && copied.contains(
            class,
        ) implies #[trigger] after.contains(class) by {
            let i = list.index_of(class);
            if i < list.len() - 1 {
                assert(list.drop_last()[i] == class);
            }
        }
    }
}

/// A frame of the search: an e-class to enter, or one to leave.
pub enum Frame {
    /// Search from this e-class unless it was seen.
    Enter(u32),
    /// This e-class is finished.
    Exit(u32),
}

/// What is still to be finished, given the frames of the search.
spec fn remaining(
    graph: Map<u32, Seq<ENode>>,
    copied: Set<u32>,
    seen: Set<u32>,
    stack: Seq<Frame>,
) -> Seq<u32>
    decreases stack.len(),
{
    if stack.len() == 0 {
        Seq::empty()
    } else {
        match stack.last() {
            Frame::Exit(class) => seq![class] + remaining(graph, copied, seen, stack.drop_last()),
            Frame::Enter(class) => {
                let (after, order) = visit(graph, copied, seen, class);
                order + remaining(graph, copied, after, stack.drop_last())
            },
        }
    }
}

spec fn enter_all(list: Seq<u32>) -> Seq<Frame> {
    list.map_values(|class: u32| Frame::Enter(class))
}

proof fn lemma_remaining_enter_all(
    graph: Map<u32, Seq<ENode>>,
    copied: Set<u32>,
    seen: Set<u32>,
    stack: Seq<Frame>,
    list: Seq<u32>,
)
    requires
        copied.finite(),
    ensures
        remaining(graph, copied, seen, stack + enter_all(list)) == visit_all(
            graph,
            copied,
            seen,
            list,
        ).1 + remaining(graph, copied, visit_all(graph, copied, seen, list).0, stack),
    decreases list.len(),
{
    let frames = stack + enter_all(list);
    if list.len() == 0 {
        assert(frames =~= stack);
        assert(visit_all(graph, copied, seen, list).1 + remaining(graph, copied, seen, stack)
            =~= remaining(graph, copied, seen, stack));
    } else {
        let (between, front) = visit(graph, copied, seen, list.last());
        lemma_visit_searches(graph, copied, seen, list.last());
        assert(seen.union(between) =~= between);
        assert(frames.drop_last() =~= stack + enter_all(list.drop_last()));
        assert(frames.last() == Frame::Enter(list.last()));
        lemma_remaining_enter_all(graph, copied, between, stack, list.drop_last());
        let (after, back) = visit_all(graph, copied, between, list.drop_last());
        assert(front + (back + remaining(graph, copied, after, stack)) =~= (front + back)
            + remaining(graph, copied, after, stack));
    }
}

/// Leaving out e-classes that were seen changes nothing.
proof fn lemma_visit_all_skips(
    graph: Map<u32, Seq<ENode>>,
    copied: Set<u32>,
    seen: Set<u32>,
    skipped: Set<u32>,
    list: Seq<u32>,
)
    requires
        copied.finite(),
        skipped.subset_of(seen),
    ensures
        visit_all(graph, copied, seen, keep(list, copied.difference(skipped))) == visit_all(
            graph,
            copied,
            seen,
            keep(list, copied),
        ),
    decreases list.len(),
{
    if list.len() > 0 {
        let class = list.last();
        let rest = list.drop_last();
        let few = keep(rest, copied.difference(skipped));
        let all = keep(rest, copied);
        if copied.contains(class) {
            assert(all.push(class).drop_last() =~= all);
            let (between, front) = visit(graph, copied, seen, class);
            lemma_visit_searches(graph, copied, seen, class);
            assert(seen.union(between) =~= between);
            lemma_visit_all_skips(graph, copied, between, skipped, rest);
            if skipped.contains(class) {
                assert(between == seen);
                assert(front + visit_all(graph, copied, seen, all).1 =~= visit_all(
                    graph,
                    copied,
                    seen,
                    all,
                ).1);
            } else {
                assert(few.push(class).drop_last() =~= few);
            }
        } else {
            lemma_visit_all_skips(graph, copied, seen, skipped, rest);
        }
    }
}

/// The e-classes that the rows of one e-class refer to.
fn deps_of(class: &EClass) -> (deps: Vec<u32>)
    ensures
        deps@ == class_deps(class.nodes@),
{
    let mut deps: Vec<u32> = Vec::new();
    for k in 0..class.nodes.len()
        invariant
            deps@ == class_deps(class.nodes@.take(k as int)),
    {
        let ghost before = deps@;
        let own = &class.nodes[k].deps;
        for d in 0..own.len()
            invariant
                k < class.nodes@.len(),
                own@ == class.nodes@[k as int].deps@,
                deps@ == before + own@.take(d as int),
        {
            deps.push(own[d]);
            assert(own@.take(d + 1) =~= own@.take(d as int).push(own@[d as int]));
        }
        assert(own@.take(own@.len() as int) =~= own@);
        assert(class.nodes@.take(k + 1).drop_last() =~= class.nodes@.take(k as int));
    }
    assert(class.nodes@.take(class.nodes@.len() as int) =~= class.nodes@);
    deps
}

/// The e-classes to copy for `root`, in the order in which a depth-first
/// search with an explicit stack finishes them.
pub fn postorder(
    snapshot: &Snapshot,
    map: &BTreeMap<u32, u32>,
    affected: &HashSet<u32>,
    root: u32,
) -> (order: Vec<u32>)
    requires
        snapshot.wf(),
        copied_classes(affected@, map@.dom()).contains(root),
        copied_classes(affected@, map@.dom()).subset_of(snapshot.graph().dom()),
    ensures
        order@ == postorder_of(
            snapshot.graph(),
            copied_classes(affected@, map@.dom()),
            root,
        ),
{
    let ghost graph = snapshot.graph();
    let ghost copied = copied_classes(affected@, map@.dom());
    assert(copied =~= snapshot.index@.dom().intersect(copied));
    let mut order: Vec<u32> = Vec::new();
    let mut seen: HashSet<u32> = HashSet::new();
    let mut stack: Vec<Frame> = Vec::new();
    stack.push(Frame::Enter(root));
    proof {
        let none = Seq::<Frame>::empty();
        assert(stack@.drop_last() =~= none);
        assert(remaining(graph, copied, visit(graph, copied, seen@, root).0, none) =~= Seq::empty());
        assert(order@ + remaining(graph, copied, seen@, stack@) =~= postorder_of(
            graph,
            copied,
            root,
        ));
    }
    loop
        invariant
            snapshot.wf(),
            graph == snapshot.graph(),
            copied == copied_classes(affected@, map@.dom()),
            copied.finite(),
            copied.subset_of(graph.dom()),
            forall|k: int| 0 <= k < stack@.len() ==> match #[trigger] stack@[k] {
                Frame::Enter(class) => copied.contains(class),
                Frame::Exit(class) => true,
            },
            order@ + remaining(graph, copied, seen@, stack@) == postorder_of(graph, copied, root),
        ensures
            stack@.len() == 0,
        decreases copied.difference(seen@).len(), stack@.len(),
    {
        let ghost frames = stack@;
        let ghost before = seen@;
        match stack.pop() {
            None => {
                break;
            },
            Some(Frame::Exit(class)) => {
                proof {
                    assert(frames.last() == Frame::Exit(class));
                    let rest = remaining(graph, copied, seen@, frames.drop_last());
                    assert(order@ + (seq![class] + rest) =~= order@.push(class) + rest);
                }
                order.push(class);
            },
            Some(Frame::Enter(class)) => {
                assert(frames.last() == Frame::Enter(class));
                assert(copied.contains(frames.last()->Enter_0));
                if !seen.insert(class) {
                    proof {
                        assert(seen@ =~= before);
                        let rest = remaining(graph, copied, before, frames.drop_last());
                        assert(Seq::<u32>::empty() + rest =~= rest);
                    }
                    continue ;
                }
                stack.push(Frame::Exit(class));
                let ghost base = stack@;
                proof {
                    assert(copied.difference(seen@) =~= copied.difference(before).remove(class));
                    assert(base.drop_last() =~= frames.drop_last());
                }
                match snapshot.index.get(&class) {
                    None => {
                        assert(graph.contains_key(class));
                    },
                    Some(position) => {
                        let deps = deps_of(&snapshot.classes[*position]);
                        assert(base =~= base + enter_all(keep(
                            deps@.take(0),
                            copied.difference(seen@),
                        )));
                        for k in 0..deps.len()
                            invariant
                                copied == copied_classes(affected@, map@.dom()),
                                stack@ == base + enter_all(keep(
                                    deps@.take(k as int),
                                    copied.difference(seen@),
                                )),
                        {
                            let dep = deps[k];
                            assert(deps@.take(k + 1).drop_last() =~= deps@.take(k as int));
                            assert(deps@.take(k + 1).last() == dep);
                            let ghost kept = keep(deps@.take(k as int), copied.difference(seen@));
                            if affected.contains(&dep) && !map.contains_key(&dep) && !seen.contains(
                                &dep,
                            ) {
                                stack.push(Frame::Enter(dep));
                                assert(stack@ =~= base + enter_all(kept.push(dep)));
                            }
                        }
                        proof {
                            assert(deps@.take(deps@.len() as int) =~= deps@);
                            let kept = keep(deps@, copied.difference(seen@));
                            lemma_remaining_enter_all(graph, copied, seen@, base, kept);
                            lemma_visit_all_skips(graph, copied, seen@, seen@, deps@);
                            assert(keep(deps@, copied) == successors(graph, copied, class));
                            let (after, inner) = visit_all(
                                graph,
                                copied,
                                seen@,
                                successors(graph, copied, class),
                            );
                            let rest = remaining(graph, copied, after, frames.drop_last());
                            assert(remaining(graph, copied, after, base) == seq![class] + rest);
                            assert(inner + (seq![class] + rest) =~= inner.push(class) + rest);
                            assert forall|j: int| 0 <= j < stack@.len() implies match
                            #[trigger] stack@[j] {
                                Frame::Enter(v) => copied.contains(v),
                                Frame::Exit(v) => true,
                            } by {
                                if j >= base.len() {
                                    let v = kept[j - base.len()];
                                    assert(kept.contains(v));
                                    lemma_keep(deps@, copied.difference(seen@), v);
                                } else if j < frames.len() - 1 {
                                    assert(stack@[j] == frames[j]);
                                }
                            }
                        }
                    },
                }
            },
        }
    }
    assert(order@ =~= order@ + Seq::<u32>::empty());
    order
}

/// `path` leads from `from` to `to` over e-classes to copy.
pub open spec fn copy_path(
    graph: Map<u32, Seq<ENode>>,
    copied: Set<u32>,
    from: u32,
    to: u32,
    path: Seq<u32>,
) -> bool {
    &&& path.len() > 0
    &&& path[0] == from
    &&& path.last() == to
    &&& forall|i: int|
        0 <= i < path.len() - 1 ==> #[trigger] successors(graph, copied, path[i]).contains(
            path[i + 1],
        )
}

/// `from` reaches `to` over e-classes to copy.
pub open spec fn reaches(graph: Map<u32, Seq<ENode>>, copied: Set<u32>, from: u32, to: u32) -> bool {
    exists|path: Seq<u32>| copy_path(graph, copied, from, to, path)
}

proof fn lemma_reaches_self(graph: Map<u32, Seq<ENode>>, copied: Set<u32>, class: u32)
    ensures
        reaches(graph, copied, class, class),
{
    assert(copy_path(graph, copied, class, class, seq![class]));
}

proof fn lemma_reaches_step(
    graph: Map<u32, Seq<ENode>>,
    copied: Set<u32>,
    from: u32,
    next: u32,
    to: u32,
)
    requires
        successors(graph, copied, from).contains(next),
        reaches(graph, copied, next, to),
    ensures
        reaches(graph, copied, from, to),
{
    let path = choose|path: Seq<u32>| copy_path(graph, copied, next, to, path);
    let longer = seq![from] + path;
    assert forall|i: int| 0 <= i < longer.len() - 1 implies #[trigger] successors(
        graph,
        copied,
        longer[i],
    ).contains(longer[i + 1]) by {
        if i > 0 {
            assert(longer[i] == path[i - 1]);
            assert(longer[i + 1] == path[i - 1 + 1]);
            assert(successors(graph, copied, path[i - 1]).contains(path[i - 1 + 1]));
        }
    }
    assert(copy_path(graph, copied, from, to, longer));
}

/// What a search finished lies behind where it began, and what an e-class
/// refers to was finished before it, or was seen before the search, or leads
/// back to it.
spec fn finished_in_order(
    graph: Map<u32, Seq<ENode>>,
    copied: Set<u32>,
    seen: Set<u32>,
    order: Seq<u32>,
) -> bool {
    forall|i: int, dep: u32|
        0 <= i < order.len() && #[trigger] successors(graph, copied, order[i]).contains(dep) ==> {
            ||| seen.contains(dep)
            ||| exists|j: int| 0 <= j < i && #[trigger] order[j] == dep
            ||| reaches(graph, copied, dep, order[i])
        }
}

proof fn lemma_visit_order(
    graph: Map<u32, Seq<ENode>>,
    copied: Set<u32>,
    seen: Set<u32>,
    class: u32,
)
    requires
        copied.finite(),
    ensures
        finished_in_order(graph, copied, seen, visit(graph, copied, seen, class).1),
        forall|i: int|
            0 <= i < visit(graph, copied, seen, class).1.len() ==> reaches(
                graph,
                copied,
                class,
                #[trigger] visit(graph, copied, seen, class).1[i],
            ),
    decreases copied.difference(seen).len(), 0nat,
{
    if !seen.contains(class) && copied.contains(class) {
        assert(copied.difference(seen.insert(class)) =~= copied.difference(seen).remove(class));
        let list = successors(graph, copied, class);
        let order = visit(graph, copied, seen, class).1;
        let (after, inner) = visit_all(graph, copied, seen.insert(class), list);
        lemma_visit_all_order(graph, copied, seen.insert(class), list);
        lemma_visit_all_searches(graph, copied, seen.insert(class), list);
        lemma_reaches_self(graph, copied, class);
        assert forall|i: int| 0 <= i < order.len() implies reaches(
            graph,
            copied,
            class,
            #[trigger] order[i],
        ) by {
            if i < inner.len() {
                assert(order[i] == inner[i]);
                let k = choose|k: int|
                    0 <= k < list.len() && reaches(graph, copied, #[trigger] list[k], inner[i]);
                lemma_reaches_step(graph, copied, class, list[k], inner[i]);
            }
        }
        assert forall|i: int, dep: u32|
            0 <= i < order.len() && #[trigger] successors(graph, copied, order[i]).contains(
                dep,
            ) implies {
            ||| seen.contains(dep)
            ||| exists|j: int| 0 <= j < i && #[trigger] order[j] == dep
            ||| reaches(graph, copied, dep, order[i])
        } by {
            if i < inner.len() {
                assert(order[i] == inner[i]);
                if dep != class && !seen.contains(dep) && !reaches(graph, copied, dep, order[i]) {
                    let j = choose|j: int| 0 <= j < i && #[trigger] inner[j] == dep;
                    assert(order[j] == dep);
                }
            } else {
                lemma_successors(graph, copied, class, dep);
                assert(after.contains(dep));
                if dep != class && !seen.contains(dep) {
                    assert(inner.to_set().contains(dep));
                    let j = inner.index_of(dep);
                    assert(order[j] == dep);
                }
            }
        }
    }
}

proof fn lemma_visit_all_order(
    graph: Map<u32, Seq<ENode>>,
    copied: Set<u32>,
    seen: Set<u32>,
    list: Seq<u32>,
)
    requires
        copied.finite(),
    ensures
        finished_in_order(graph, copied, seen, visit_all(graph, copied, seen, list).1),
        forall|i: int|
            0 <= i < visit_all(graph, copied, seen, list).1.len() ==> exists|k: int|
                0 <= k < list.len() && reaches(
                    graph,
                    copied,
                    #[trigger] list[k],
                    #[trigger] visit_all(graph, copied, seen, list).1[i],
                ),
    decreases copied.difference(seen).len(), list.len(),
{
    if list.len() > 0 {
        let (between, front) = visit(graph, copied, seen, list.last());
        lemma_visit_searches(graph, copied, seen, list.last());
        lemma_visit_order(graph, copied, seen, list.last());
        assert(seen.union(between) =~= between);
        vstd::set_lib::lemma_len_subset(copied.difference(between), copied.difference(seen));
        let rest = list.drop_last();
        let back = visit_all(graph, copied, between, rest).1;
        lemma_visit_all_order(graph, copied, between, rest);
        let order = visit_all(graph, copied, seen, list).1;
        assert(order == front + back);
        assert forall|i: int| 0 <= i < order.len() implies exists|k: int|
            0 <= k < list.len() && reaches(graph, copied, #[trigger] list[k], #[trigger] order[i]) by {
            if i < front.len() {
                assert(order[i] == front[i]);
                assert(reaches(graph, copied, list[list.len() - 1], order[i]));
            } else {
                assert(order[i] == back[i - front.len()]);
                let k = choose|k: int|
                    0 <= k < rest.len() && reaches(
                        graph,
                        copied,
                        #[trigger] rest[k],
                        back[i - front.len()],
                    );
                assert(reaches(graph, copied, list[k], order[i]));
            }
        }
        assert forall|i: int, dep: u32|
            0 <= i < order.len() && #[trigger] successors(graph, copied, order[i]).contains(
                dep,
            ) implies {
            ||| seen.contains(dep)
            ||| exists|j: int| 0 <= j < i && #[trigger] order[j] == dep
            ||| reaches(graph, copied, dep, order[i])
        } by {
            if seen.contains(dep) || reaches(graph, copied, dep, order[i]) {
            } else if i < front.len() {
                assert(order[i] == front[i]);
                let j = choose|j: int| 0 <= j < i && #[trigger] front[j] == dep;
                assert(order[j] == dep);
            } else {
                assert(order[i] == back[i - front.len()]);
                if between.contains(dep) {
                    assert(front.to_set().contains(dep));
                    let j = front.index_of(dep);
                    assert(order[j] == dep);
                } else {
                    let j = choose|j: int| 0 <= j < i - front.len() && #[trigger] back[j] == dep;
                    assert(order[front.len() + j] == dep);
                }
            }
        }
    }
}

proof fn lemma_closed_order_covers(
    graph: Map<u32, Seq<ENode>>,
    copied: Set<u32>,
    order: Seq<u32>,
    path: Seq<u32>,
)
    requires
        path.len() > 0,
        copy_path(graph, copied, path[0], path.last(), path),
        order.contains(path[0]),
        forall|i: int, dep: u32|
            0 <= i < order.len() && #[trigger] successors(graph, copied, order[i]).contains(dep)
                ==> order.contains(dep),
    ensures
        order.contains(path.last()),
    decreases path.len(),
{
    if path.len() > 1 {
        let i = order.index_of(path[0]);
        assert(successors(graph, copied, path[0]).contains(path[0int + 1]));
        assert(order[i] == path[0]);
        let rest = path.drop_first();
        assert forall|k: int| 0 <= k < rest.len() - 1 implies #[trigger] successors(
            graph,
            copied,
            rest[k],
        ).contains(rest[k + 1]) by {
            assert(successors(graph, copied, path[k + 1]).contains(path[k + 1 + 1]));
        }
        lemma_closed_order_covers(graph, copied, order, rest);
    }
}

/// The order lists each e-class to copy that `root` reaches over e-classes to
/// copy, once, and nothing else. `root` comes last. What a listed e-class
/// refers to and needs a copy is listed too.
pub proof fn lemma_postorder_is_region(
    graph: Map<u32, Seq<ENode>>,
    copied: Set<u32>,
    root: u32,
)
    requires
        copied.finite(),
        copied.contains(root),
    ensures
        postorder_of(graph, copied, root).no_duplicates(),
        postorder_of(graph, copied, root).len() > 0,
        postorder_of(graph, copied, root).last() == root,
        forall|class: u32|
            postorder_of(graph, copied, root).contains(class) <==> #[trigger] reaches(
                graph,
                copied,
                root,
                class,
            ),
        forall|class: u32|
            #[trigger] postorder_of(graph, copied, root).contains(class) ==> copied.contains(class),
        forall|i: int, dep: u32|
            0 <= i < postorder_of(graph, copied, root).len() && #[trigger] successors(
                graph,
                copied,
                postorder_of(graph, copied, root)[i],
            ).contains(dep) ==> postorder_of(graph, copied, root).contains(dep),
{
    let order = postorder_of(graph, copied, root);
    let seen = Set::<u32>::empty();
    lemma_visit_searches(graph, copied, seen, root);
    lemma_visit_order(graph, copied, seen, root);
    assert(order[order.len() - 1] == root);
    assert forall|i: int, dep: u32|
        0 <= i < order.len() && #[trigger] successors(graph, copied, order[i]).contains(
            dep,
        ) implies order.contains(dep) by {
        assert(visit(graph, copied, seen, root).0.contains(dep));
        assert(order.to_set().contains(dep));
    }
    assert forall|class: u32| order.contains(class) implies #[trigger] reaches(
        graph,
        copied,
        root,
        class,
    ) by {
        let i = order.index_of(class);
        assert(order[i] == class);
    }
    assert forall|class: u32| #[trigger] reaches(graph, copied, root, class) implies order.contains(
        class,
    ) by {
        let path = choose|path: Seq<u32>| copy_path(graph, copied, root, class, path);
        lemma_closed_order_covers(graph, copied, order, path);
    }
}

/// Children come before parents: what an e-class refers to comes before it,
/// unless it leads back to it.
pub proof fn lemma_children_first(
    graph: Map<u32, Seq<ENode>>,
    copied: Set<u32>,
    root: u32,
    i: int,
    dep: u32,
)
    requires
        copied.finite(),
        copied.contains(root),
        0 <= i < postorder_of(graph, copied, root).len(),
        successors(graph, copied, postorder_of(graph, copied, root)[i]).contains(dep),
    ensures
        postorder_of(graph, copied, root).take(i).contains(dep) || reaches(
            graph,
            copied,
            dep,
            postorder_of(graph, copied, root)[i],
        ),
{
    let order = postorder_of(graph, copied, root);
    lemma_visit_order(graph, copied, Set::empty(), root);
    if !reaches(graph, copied, dep, order[i]) {
        let j = choose|j: int| 0 <= j < i && #[trigger] order[j] == dep;
        assert(order.take(i)[j] == dep);
    }
}

proof fn lemma_visit_all_prefix(
    graph: Map<u32, Seq<ENode>>,
    copied: Set<u32>,
    seen: Set<u32>,
    list: Seq<u32>,
    a: int,
)
    requires
        copied.finite(),
        0 <= a <= list.len(),
    ensures
        visit_all(graph, copied, seen, list.skip(a)).1.is_prefix_of(
            visit_all(graph, copied, seen, list).1,
        ),
    decreases list.len(),
{
    let some = list.skip(a);
    if a < list.len() {
        let (between, front) = visit(graph, copied, seen, list.last());
        assert(some.last() == list.last());
        assert(some.drop_last() =~= list.drop_last().skip(a));
        lemma_visit_all_prefix(graph, copied, seen.union(between), list.drop_last(), a);
        let fewer = visit_all(graph, copied, seen.union(between), some.drop_last()).1;
        let more = visit_all(graph, copied, seen.union(between), list.drop_last()).1;
        assert(fewer =~= more.take(fewer.len() as int));
        assert(front + fewer =~= (front + more).take((front + fewer).len() as int));
    } else {
        assert(visit_all(graph, copied, seen, list).1.take(0) =~= Seq::<u32>::empty());
    }
}

/// What the root refers to is searched from the last reference on: all that is listed up to
/// one of its references is reached from that or from a later one.
pub proof fn lemma_last_references_first(
    graph: Map<u32, Seq<ENode>>,
    copied: Set<u32>,
    root: u32,
    a: int,
    i: int,
    j: int,
)
    requires
        copied.finite(),
        copied.contains(root),
        0 <= a < successors(graph, copied, root).len(),
        0 <= i <= j < postorder_of(graph, copied, root).len(),
        postorder_of(graph, copied, root)[j] == successors(graph, copied, root)[a],
    ensures
        exists|e: int|
            a <= e < successors(graph, copied, root).len() && reaches(
                graph,
                copied,
                #[trigger] successors(graph, copied, root)[e],
                postorder_of(graph, copied, root)[i],
            ),
{
    let list = successors(graph, copied, root);
    let order = postorder_of(graph, copied, root);
    let seen = Set::<u32>::empty().insert(root);
    let inner = visit_all(graph, copied, seen, list).1;
    assert(order == inner.push(root));
    lemma_postorder_is_region(graph, copied, root);
    if list[a] == root {
        assert(order.contains(order[i]));
        assert(reaches(graph, copied, list[a], order[i]));
    } else {
        let some = list.skip(a);
        let (after, first) = visit_all(graph, copied, seen, some);
        lemma_visit_all_prefix(graph, copied, seen, list, a);
        lemma_visit_all_searches(graph, copied, seen, some);
        lemma_visit_all_order(graph, copied, seen, some);
        assert(list.contains(list[a]));
        lemma_successors(graph, copied, root, list[a]);
        assert(some[0] == list[a]);
        assert(some.contains(list[a]));
        assert(after.contains(list[a]));
        let p = first.index_of(list[a]);
        assert(first[p] == inner[p]);
        assert(order[p] == list[a]);
        assert(p == j);
        assert(first[i] == inner[i]);
        let k = choose|k: int|
            0 <= k < some.len() && reaches(graph, copied, #[trigger] some[k], first[i]);
        assert(some[k] == list[a + k]);
    }
}

} // verus!

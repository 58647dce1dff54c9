//! In which order a substitution copies rows.

use vstd::prelude::*;
use crate::subst::collect::Constructor;
use crate::subst::copy::{
    changes, copy_changes, first_ready, images_of, is_built, is_plan, lemma_first_ready,
    lemma_naming_rows_len, naming_rows, other_rows, rows_but, CopiedRow,
};
use crate::subst::graph::ENode;
use crate::subst::order::copied_classes;
use crate::subst::plan::{
    due, lemma_naming_order, nameable, naming_order, node_ready, resolved, sweep, sweeps,
};
use crate::subst::state::Edit;

verus! {

/// The row needs no copy of an e-class but of these: whatever else it refers to is a key or
/// not affected.
pub open spec fn needs_only(
    map: Map<u32, u32>,
    affected: Set<u32>,
    node: ENode,
    classes: Seq<u32>,
) -> bool {
    forall|dep: u32| #[trigger]
        node.deps@.contains(dep) && affected.contains(dep) && !map.contains_key(dep)
            ==> classes.contains(dep)
}

proof fn lemma_needs_only(map: Map<u32, u32>, affected: Set<u32>, node: ENode, classes: Seq<u32>)
    ensures
        needs_only(map, affected, node, classes) <==> node_ready(
            copied_classes(affected, map.dom()),
            classes.to_set(),
            node,
        ),
{
    let copied = copied_classes(affected, map.dom());
    if needs_only(map, affected, node, classes) {
        assert forall|k: int| 0 <= k < node.deps@.len() implies resolved(
            copied,
            classes.to_set(),
            #[trigger] node.deps@[k],
        ) by {
            assert(node.deps@.contains(node.deps@[k]));
        }
    }
    if node_ready(copied, classes.to_set(), node) {
        assert forall|dep: u32| #[trigger]
            node.deps@.contains(dep) && affected.contains(dep) && !map.contains_key(
                dep,
            ) implies classes.contains(dep) by {
            let k = node.deps@.index_of(dep);
            assert(resolved(copied, classes.to_set(), node.deps@[k]));
        }
    }
}

proof fn lemma_naming_row_at(
    graph: Map<u32, Seq<ENode>>,
    copied: Set<u32>,
    order: Seq<u32>,
    i: int,
)
    requires
        0 <= i < order.len(),
    ensures
        naming_rows(graph, copied, order).len() == order.len(),
        naming_rows(graph, copied, order)[i] == (
            order[i],
            first_ready(graph[order[i]], copied, order.take(i).to_set(), 0),
        ),
    decreases order.len(),
{
    let front = order.drop_last();
    lemma_naming_rows_len(graph, copied, front);
    if i < front.len() {
        lemma_naming_row_at(graph, copied, front, i);
        assert(front.take(i) =~= order.take(i));
        assert(front[i] == order[i]);
    } else {
        assert(order.take(i) =~= front);
    }
}

proof fn lemma_rows_but(class: u32, count: int, but: int)
    ensures
        forall|i: int|
            0 <= i < rows_but(class, count, but).len() ==> {
                &&& (#[trigger] rows_but(class, count, but)[i]).0 == class
                &&& 0 <= rows_but(class, count, but)[i].1 < count
                &&& rows_but(class, count, but)[i].1 != but
            },
        forall|i: int, j: int|
            0 <= i < j < rows_but(class, count, but).len() ==> (#[trigger] rows_but(
                class,
                count,
                but,
            )[i]).1 < (#[trigger] rows_but(class, count, but)[j]).1,
    decreases count,
{
    if count > 0 {
        lemma_rows_but(class, count - 1, but);
        let all = rows_but(class, count, but);
        let front = rows_but(class, count - 1, but);
        assert forall|i: int, j: int| 0 <= i < j < all.len() implies (#[trigger] all[i]).1 < (
        #[trigger] all[j]).1 by {
            if j < front.len() {
                assert(all[i] == front[i]);
                assert(all[j] == front[j]);
            } else {
                assert(all[i] == front[i]);
                assert(front[i].1 < count - 1);
            }
        }
    }
}

/// The rows stand in the order of their e-classes, at these places, and by their positions
/// within one e-class. None of them is the one that names its e-class.
spec fn in_turn(
    graph: Map<u32, Seq<ENode>>,
    copied: Set<u32>,
    order: Seq<u32>,
    rows: Seq<(u32, int)>,
    places: Seq<int>,
) -> bool {
    &&& places.len() == rows.len()
    &&& forall|i: int|
        0 <= i < rows.len() ==> {
            &&& 0 <= (#[trigger] places[i]) < order.len()
            &&& order[places[i]] == rows[i].0
            &&& rows[i].1 != first_ready(
                graph[order[places[i]]],
                copied,
                order.take(places[i]).to_set(),
                0,
            )
        }
    &&& forall|i: int, j: int|
        0 <= i < j < rows.len() ==> {
            &&& (#[trigger] places[i]) <= (#[trigger] places[j])
            &&& places[i] == places[j] ==> rows[i].1 < rows[j].1
        }
}

proof fn lemma_other_rows(graph: Map<u32, Seq<ENode>>, copied: Set<u32>, order: Seq<u32>) -> (places:
    Seq<int>)
    ensures
        in_turn(graph, copied, order, other_rows(graph, copied, order), places),
    decreases order.len(),
{
    if order.len() == 0 {
        Seq::empty()
    } else {
        let front = order.drop_last();
        let last = order.len() - 1;
        let class = order.last();
        let but = first_ready(graph[class], copied, front.to_set(), 0);
        let fewer = lemma_other_rows(graph, copied, front);
        let before = other_rows(graph, copied, front);
        let own = rows_but(class, graph[class].len() as int, but);
        let rows = other_rows(graph, copied, order);
        lemma_rows_but(class, graph[class].len() as int, but);
        let places = fewer + Seq::new(own.len(), |i: int| last);
        assert(order.take(last) =~= front);
        assert forall|i: int| 0 <= i < rows.len() implies {
            &&& 0 <= (#[trigger] places[i]) < order.len()
            &&& order[places[i]] == rows[i].0
            &&& rows[i].1 != first_ready(
                graph[order[places[i]]],
                copied,
                order.take(places[i]).to_set(),
                0,
            )
        } by {
            if i < before.len() {
                assert(places[i] == fewer[i]);
                assert(front.take(fewer[i]) =~= order.take(fewer[i]));
            } else {
                assert(rows[i] == own[i - before.len()]);
            }
        }
        assert forall|i: int, j: int| 0 <= i < j < rows.len() implies {
            &&& (#[trigger] places[i]) <= (#[trigger] places[j])
            &&& places[i] == places[j] ==> rows[i].1 < rows[j].1
        } by {
            if j < before.len() {
                assert(places[i] == fewer[i]);
                assert(places[j] == fewer[j]);
            } else if i < before.len() {
                assert(places[i] == fewer[i]);
            } else {
                assert(rows[i] == own[i - before.len()]);
                assert(rows[j] == own[j - before.len()]);
            }
        }
        places
    }
}

/// The copy at this position names its e-class: it is that of the lowest row which needs only
/// copies of e-classes before it.
pub open spec fn names_class(
    graph: Map<u32, Seq<ENode>>,
    map: Map<u32, u32>,
    affected: Set<u32>,
    order: Seq<u32>,
    copies: Seq<CopiedRow>,
    i: int,
) -> bool {
    let class = order[i];
    &&& copies[i].class == class
    &&& copies[i].row < graph[class].len()
    &&& needs_only(map, affected, graph[class][copies[i].row as int], order.take(i))
    &&& forall|k: int|
        0 <= k < copies[i].row ==> !needs_only(
            map,
            affected,
            #[trigger] graph[class][k],
            order.take(i),
        )
}

/// E-classes are named in their order, each by the lowest of its rows that can be copied by
/// then. When all are named, the other rows follow, e-class by e-class, from the lowest on.
pub proof fn lemma_rows_are_copied_in_turn(
    before: egglog::FullState<'_, '_>,
    after: egglog::FullState<'_, '_>,
    graph: Map<u32, Seq<ENode>>,
    list: Seq<Constructor>,
    map: Map<u32, u32>,
    affected: Set<u32>,
    order: Seq<u32>,
    copies: Seq<CopiedRow>,
    written: Seq<Edit>,
) -> (places: Seq<int>)
    requires
        is_plan(graph, copied_classes(affected, map.dom()), order),
        is_built(before, after, graph, list, map, affected, order, copies, written),
    ensures
        copies.len() >= order.len(),
        forall|i: int|
            0 <= i < order.len() ==> #[trigger] names_class(
                graph,
                map,
                affected,
                order,
                copies,
                i,
            ),
        places.len() == copies.len() - order.len(),
        forall|i: int|
            0 <= i < places.len() ==> {
                &&& 0 <= (#[trigger] places[i]) < order.len()
                &&& copies[order.len() + i].class == order[places[i]]
                &&& copies[order.len() + i].row != copies[places[i]].row
            },
        forall|i: int, j: int|
            0 <= i < j < places.len() ==> {
                &&& (#[trigger] places[i]) <= (#[trigger] places[j])
                &&& places[i] == places[j] ==> copies[order.len() + i].row < copies[order.len()
                    + j].row
            },
{
    let copied = copied_classes(affected, map.dom());
    let naming = naming_rows(graph, copied, order);
    let other = other_rows(graph, copied, order);
    let rows = naming + other;
    lemma_naming_rows_len(graph, copied, order);
    let places = lemma_other_rows(graph, copied, order);
    assert forall|i: int| 0 <= i < order.len() implies #[trigger] names_class(
        graph,
        map,
        affected,
        order,
        copies,
        i,
    ) by {
        let class = order[i];
        let named = order.take(i).to_set();
        lemma_naming_row_at(graph, copied, order, i);
        assert(rows[i] == naming[i]);
        assert(copies[i].class == rows[i].0);
        assert(nameable(graph, copied, named, order[i]));
        let j = choose|j: int|
            0 <= j < graph[class].len() && node_ready(copied, named, #[trigger] graph[class][j]);
        lemma_first_ready(graph[class], copied, named, 0, j);
        lemma_needs_only(map, affected, graph[class][copies[i].row as int], order.take(i));
        assert forall|k: int| 0 <= k < copies[i].row implies !needs_only(
            map,
            affected,
            #[trigger] graph[class][k],
            order.take(i),
        ) by {
            lemma_needs_only(map, affected, graph[class][k], order.take(i));
            if node_ready(copied, named, graph[class][k]) {
                lemma_first_ready(graph[class], copied, named, 0, k);
            }
        }
    }
    assert forall|i: int| 0 <= i < places.len() implies {
        &&& 0 <= (#[trigger] places[i]) < order.len()
        &&& copies[order.len() + i].class == order[places[i]]
        &&& copies[order.len() + i].row != copies[places[i]].row
    } by {
        assert(rows[order.len() + i] == other[i]);
        assert(copies[order.len() + i].class == other[i].0);
        let at = places[i];
        lemma_naming_row_at(graph, copied, order, at);
        assert(rows[at] == naming[at]);
        assert(copies[at].row == naming[at].1);
    }
    assert forall|i: int, j: int| 0 <= i < j < places.len() implies {
        &&& (#[trigger] places[i]) <= (#[trigger] places[j])
        &&& places[i] == places[j] ==> copies[order.len() + i].row < copies[order.len() + j].row
    } by {
        assert(rows[order.len() + i] == other[i]);
        assert(rows[order.len() + j] == other[j]);
        assert(copies[order.len() + i].row == other[i].1);
        assert(copies[order.len() + j].row == other[j].1);
    }
    places
}

proof fn lemma_changes_stand(
    graph: Map<u32, Seq<ENode>>,
    list: Seq<Constructor>,
    order: Seq<u32>,
    copies: Seq<CopiedRow>,
) -> (starts: Seq<int>)
    ensures
        are_starts(graph, list, copies, changes(graph, list, order, copies), starts),
    decreases copies.len(),
{
    if copies.len() == 0 {
        Seq::empty()
    } else {
        let front = copies.drop_last();
        let fewer = lemma_changes_stand(graph, list, order, front);
        let before = changes(graph, list, order, front);
        let own = copy_changes(
            graph,
            list,
            images_of(order, copies),
            copies.last(),
            copies.len() <= order.len(),
        );
        let all = changes(graph, list, order, copies);
        let starts = fewer.push(before.len() as int);
        assert forall|i: int| 0 <= i < copies.len() implies {
            let node = graph[copies[i].class][copies[i].row as int];
            &&& 0 <= (#[trigger] starts[i]) < all.len()
            &&& all[starts[i]] == Edit::Add(
                list[node.ctor as int].name@,
                copies[i].inputs@,
                copies[i].eclass,
            )
            &&& node.subsumed ==> starts[i] + 1 < all.len() && all[starts[i] + 1] == Edit::Subsume(
                list[node.ctor as int].name@,
                copies[i].inputs@,
            )
        } by {
            if i < front.len() {
                assert(starts[i] == fewer[i]);
                assert(front[i] == copies[i]);
            } else {
                assert(all[starts[i]] == own[0]);
            }
        }
        assert forall|i: int, j: int| 0 <= i < j < starts.len() implies (#[trigger] starts[i]) < (
        #[trigger] starts[j]) by {
            assert(starts[i] == fewer[i]);
            if j < front.len() {
                assert(starts[j] == fewer[j]);
            }
        }
        starts
    }
}

/// The copies were written at these places, in this order, and the copy of a subsumed row was
/// subsumed right then.
pub open spec fn are_starts(
    graph: Map<u32, Seq<ENode>>,
    list: Seq<Constructor>,
    copies: Seq<CopiedRow>,
    written: Seq<Edit>,
    starts: Seq<int>,
) -> bool {
    &&& starts.len() == copies.len()
    &&& forall|i: int|
        0 <= i < copies.len() ==> {
            let node = graph[copies[i].class][copies[i].row as int];
            &&& 0 <= (#[trigger] starts[i]) < written.len()
            &&& written[starts[i]] == Edit::Add(
                list[node.ctor as int].name@,
                copies[i].inputs@,
                copies[i].eclass,
            )
            &&& node.subsumed ==> starts[i] + 1 < written.len() && written[starts[i] + 1]
                == Edit::Subsume(list[node.ctor as int].name@, copies[i].inputs@)
        }
    &&& forall|i: int, j: int|
        0 <= i < j < starts.len() ==> (#[trigger] starts[i]) < (#[trigger] starts[j])
}

/// The copies are written in the order in which the rows are copied.
pub proof fn lemma_copies_are_written_in_turn(
    before: egglog::FullState<'_, '_>,
    after: egglog::FullState<'_, '_>,
    graph: Map<u32, Seq<ENode>>,
    list: Seq<Constructor>,
    map: Map<u32, u32>,
    affected: Set<u32>,
    order: Seq<u32>,
    copies: Seq<CopiedRow>,
    written: Seq<Edit>,
) -> (starts: Seq<int>)
    requires
        is_built(before, after, graph, list, map, affected, order, copies, written),
    ensures
        are_starts(graph, list, copies, written, starts),
{
    lemma_changes_stand(graph, list, order, copies)
}

/// The e-class at this rank is not named, and some row of it needs only copies of e-classes
/// that are.
pub open spec fn can_be_named(
    graph: Map<u32, Seq<ENode>>,
    map: Map<u32, u32>,
    affected: Set<u32>,
    region: Seq<u32>,
    named: Seq<u32>,
    rank: int,
) -> bool {
    &&& 0 <= rank < region.len()
    &&& !named.contains(region[rank])
    &&& exists|k: int|
        0 <= k < graph[region[rank]].len() && needs_only(
            map,
            affected,
            #[trigger] graph[region[rank]][k],
            named,
        )
}

proof fn lemma_can_be_named(
    graph: Map<u32, Seq<ENode>>,
    map: Map<u32, u32>,
    affected: Set<u32>,
    region: Seq<u32>,
    named: Seq<u32>,
    rank: int,
)
    requires
        0 <= rank < region.len(),
    ensures
        can_be_named(graph, map, affected, region, named, rank) <==> due(
            graph,
            copied_classes(affected, map.dom()),
            region,
            named,
            rank,
        ),
{
    let copied = copied_classes(affected, map.dom());
    let class = region[rank];
    if can_be_named(graph, map, affected, region, named, rank) {
        let k = choose|k: int|
            0 <= k < graph[class].len() && needs_only(map, affected, #[trigger] graph[class][k], named);
        lemma_needs_only(map, affected, graph[class][k], named);
        assert(nameable(graph, copied, named.to_set(), class));
    }
    if due(graph, copied, region, named, rank) {
        let k = choose|k: int|
            0 <= k < graph[class].len() && node_ready(
                copied,
                named.to_set(),
                #[trigger] graph[class][k],
            );
        lemma_needs_only(map, affected, graph[class][k], named);
    }
}

/// The rank before the first turn, and after each the rank that had it.
pub open spec fn rank_before(ranks: Seq<int>, i: int) -> int {
    if i <= 0 {
        -1
    } else {
        ranks[i - 1]
    }
}

/// The e-class at position `i` of the order has its turn: of those that can be named, it is the
/// next above the last that was, or if there is none the lowest of all.
pub open spec fn has_turn(
    graph: Map<u32, Seq<ENode>>,
    map: Map<u32, u32>,
    affected: Set<u32>,
    region: Seq<u32>,
    order: Seq<u32>,
    ranks: Seq<int>,
    i: int,
) -> bool {
    let named = order.take(i);
    let last = rank_before(ranks, i);
    let rank = ranks[i];
    &&& can_be_named(graph, map, affected, region, named, rank)
    &&& order[i] == region[rank]
    &&& if rank > last {
        forall|q: int|
            last < q < rank ==> !#[trigger] can_be_named(graph, map, affected, region, named, q)
    } else {
        forall|q: int|
            q < rank || last < q ==> !#[trigger] can_be_named(graph, map, affected, region, named, q)
    }
}

/// Each e-class of the order has had its turn.
pub open spec fn take_turns(
    graph: Map<u32, Seq<ENode>>,
    map: Map<u32, u32>,
    affected: Set<u32>,
    region: Seq<u32>,
    order: Seq<u32>,
    ranks: Seq<int>,
) -> bool {
    &&& ranks.len() == order.len()
    &&& forall|i: int|
        0 <= i < order.len() ==> #[trigger] has_turn(graph, map, affected, region, order, ranks, i)
}

/// Either nothing above the last rank can be named up to this one, or nothing above it at all
/// and nothing up to this one.
spec fn is_swept(
    graph: Map<u32, Seq<ENode>>,
    map: Map<u32, u32>,
    affected: Set<u32>,
    region: Seq<u32>,
    named: Seq<u32>,
    last: int,
    rank: int,
) -> bool {
    ||| {
        &&& last < rank
        &&& forall|q: int|
            last < q < rank ==> !#[trigger] can_be_named(graph, map, affected, region, named, q)
    }
    ||| forall|q: int|
        q < rank || last < q ==> !#[trigger] can_be_named(graph, map, affected, region, named, q)
}

proof fn lemma_turn_taken(
    graph: Map<u32, Seq<ENode>>,
    map: Map<u32, u32>,
    affected: Set<u32>,
    region: Seq<u32>,
    named: Seq<u32>,
    ranks: Seq<int>,
    rank: int,
)
    requires
        take_turns(graph, map, affected, region, named, ranks),
        is_swept(
            graph,
            map,
            affected,
            region,
            named,
            rank_before(ranks, named.len() as int),
            rank,
        ),
        can_be_named(graph, map, affected, region, named, rank),
    ensures
        take_turns(graph, map, affected, region, named.push(region[rank]), ranks.push(rank)),
{
    let more = named.push(region[rank]);
    let longer = ranks.push(rank);
    assert forall|i: int| 0 <= i < more.len() implies #[trigger] has_turn(
        graph,
        map,
        affected,
        region,
        more,
        longer,
        i,
    ) by {
        assert(more.take(i) =~= named.take(i));
        assert(rank_before(longer, i) == rank_before(ranks, i));
        if i < named.len() {
            assert(has_turn(graph, map, affected, region, named, ranks, i));
        } else {
            assert(named.take(i) =~= named);
            let last = rank_before(ranks, i);
            if !(last < rank) {
                assert forall|q: int| q < rank || last < q implies !#[trigger] can_be_named(
                    graph,
                    map,
                    affected,
                    region,
                    named,
                    q,
                ) by {}
            } else {
                if forall|q: int|
                    q < rank || last < q ==> !#[trigger] can_be_named(
                        graph,
                        map,
                        affected,
                        region,
                        named,
                        q,
                    ) {
                    assert(!can_be_named(graph, map, affected, region, named, rank));
                }
            }
        }
    }
}

proof fn lemma_sweep_turns(
    graph: Map<u32, Seq<ENode>>,
    map: Map<u32, u32>,
    affected: Set<u32>,
    region: Seq<u32>,
    named: Seq<u32>,
    ranks: Seq<int>,
    rank: int,
) -> (all: Seq<int>)
    requires
        0 <= rank <= region.len(),
        take_turns(graph, map, affected, region, named, ranks),
        is_swept(
            graph,
            map,
            affected,
            region,
            named,
            rank_before(ranks, named.len() as int),
            rank,
        ),
    ensures
        ({
            let after = sweep(graph, copied_classes(affected, map.dom()), region, named, rank);
            &&& named.len() <= after.len()
            &&& after.len() == named.len() ==> after == named
            &&& take_turns(graph, map, affected, region, after, all)
            &&& is_swept(
                graph,
                map,
                affected,
                region,
                after,
                rank_before(all, after.len() as int),
                0,
            )
        }),
    decreases region.len() - rank,
{
    let copied = copied_classes(affected, map.dom());
    let last = rank_before(ranks, named.len() as int);
    if rank == region.len() {
        assert forall|q: int| q < 0 || last < q implies !#[trigger] can_be_named(
            graph,
            map,
            affected,
            region,
            named,
            q,
        ) by {}
        ranks
    } else {
        lemma_can_be_named(graph, map, affected, region, named, rank);
        if due(graph, copied, region, named, rank) {
            let more = named.push(region[rank]);
            let longer = ranks.push(rank);
            lemma_turn_taken(graph, map, affected, region, named, ranks, rank);
            assert(rank_before(longer, more.len() as int) == rank);
            lemma_sweep_turns(graph, map, affected, region, more, longer, rank + 1)
        } else {
            if last < rank {
                if forall|q: int|
                    last < q < rank ==> !#[trigger] can_be_named(
                        graph,
                        map,
                        affected,
                        region,
                        named,
                        q,
                    ) {
                    assert forall|q: int| last < q < rank + 1 implies !#[trigger] can_be_named(
                        graph,
                        map,
                        affected,
                        region,
                        named,
                        q,
                    ) by {}
                }
            } else {
                assert forall|q: int| q < rank + 1 || last < q implies !#[trigger] can_be_named(
                    graph,
                    map,
                    affected,
                    region,
                    named,
                    q,
                ) by {}
            }
            lemma_sweep_turns(graph, map, affected, region, named, ranks, rank + 1)
        }
    }
}

proof fn lemma_sweeps_turns(
    graph: Map<u32, Seq<ENode>>,
    map: Map<u32, u32>,
    affected: Set<u32>,
    region: Seq<u32>,
    named: Seq<u32>,
    ranks: Seq<int>,
) -> (all: Seq<int>)
    requires
        take_turns(graph, map, affected, region, named, ranks),
        is_swept(graph, map, affected, region, named, rank_before(ranks, named.len() as int), 0),
    ensures
        take_turns(
            graph,
            map,
            affected,
            region,
            sweeps(graph, copied_classes(affected, map.dom()), region, named),
            all,
        ),
    decreases region.len() - named.len(),
{
    let next = sweep(graph, copied_classes(affected, map.dom()), region, named, 0);
    let longer = lemma_sweep_turns(graph, map, affected, region, named, ranks, 0);
    if named.len() < next.len() <= region.len() {
        lemma_sweeps_turns(graph, map, affected, region, next, longer)
    } else {
        ranks
    }
}

/// The e-classes of a region are named in turn, from the lowest rank on and over again from the
/// lowest as long as some can be named: what comes next is always the next above the last that
/// can be.
pub proof fn lemma_classes_are_named_in_turn(
    graph: Map<u32, Seq<ENode>>,
    map: Map<u32, u32>,
    affected: Set<u32>,
    region: Seq<u32>,
) -> (ranks: Seq<int>)
    ensures
        take_turns(
            graph,
            map,
            affected,
            region,
            naming_order(graph, copied_classes(affected, map.dom()), region),
            ranks,
        ),
        forall|rank: int| !#[trigger]
            can_be_named(
                graph,
                map,
                affected,
                region,
                naming_order(graph, copied_classes(affected, map.dom()), region),
                rank,
            ),
{
    let copied = copied_classes(affected, map.dom());
    let order = naming_order(graph, copied, region);
    lemma_naming_order(graph, copied, region);
    assert forall|rank: int| !#[trigger]
        can_be_named(graph, map, affected, region, order, rank) by {
        if 0 <= rank < region.len() {
            lemma_can_be_named(graph, map, affected, region, order, rank);
            if !order.contains(region[rank]) {
                assert(!nameable(graph, copied, order.to_set(), region[rank]));
            }
        }
    }
    lemma_sweeps_turns(graph, map, affected, region, Seq::empty(), Seq::empty())
}

} // verus!

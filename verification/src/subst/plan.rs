//! The order in which copied e-classes are named, and whether there is one.

use std::collections::{BTreeMap, BTreeSet, HashMap, HashSet};
use vstd::prelude::*;
use crate::lists::{
    lemma_occurrences_absent, lemma_occurrences_bound, lemma_occurrences_prefix,
    lemma_occurrences_push, lemma_occurrences_take, lemma_push_contains, occurrences,
};
use crate::subst::graph::{lemma_class_deps, ENode, Snapshot};
use crate::subst::order::{
    copied_classes, lemma_postorder_is_region, lemma_successors, postorder, postorder_of, successors,
};
use crate::text::{ascending, insert_ascending, lists};

verus! {

broadcast use {
    vstd::std_specs::hash::group_hash_axioms,
    vstd::std_specs::btree::group_btree_axioms,
};

/// A copied row can name `dep`: it is replaced outright, it is shared with the
/// original, or its own copy is named.
pub open spec fn resolved(copied: Set<u32>, named: Set<u32>, dep: u32) -> bool {
    !copied.contains(dep) || named.contains(dep)
}

/// A copy of the row can be made once the e-classes of `named` have copies.
pub open spec fn node_ready(copied: Set<u32>, named: Set<u32>, node: ENode) -> bool {
    forall|k: int|
        0 <= k < node.deps@.len() ==> resolved(copied, named, #[trigger] node.deps@[k])
}

/// Some row of the e-class can be copied, so that the copy of the e-class gets
/// a name.
pub open spec fn nameable(
    graph: Map<u32, Seq<ENode>>,
    copied: Set<u32>,
    named: Set<u32>,
    class: u32,
) -> bool {
    exists|k: int|
        0 <= k < graph[class].len() && node_ready(copied, named, #[trigger] graph[class][k])
}

/// Some row of the e-class cannot be copied.
pub open spec fn blocked(
    graph: Map<u32, Seq<ENode>>,
    copied: Set<u32>,
    named: Set<u32>,
    class: u32,
) -> bool {
    exists|k: int|
        0 <= k < graph[class].len() && !node_ready(copied, named, #[trigger] graph[class][k])
}

/// The rank holds an e-class that is not named but could be.
pub open spec fn due(
    graph: Map<u32, Seq<ENode>>,
    copied: Set<u32>,
    region: Seq<u32>,
    named: Seq<u32>,
    rank: int,
) -> bool {
    !named.contains(region[rank]) && nameable(graph, copied, named.to_set(), region[rank])
}

/// One sweep over the region from left to right, from `rank` on: each e-class
/// that can be named is named at once.
pub open spec fn sweep(
    graph: Map<u32, Seq<ENode>>,
    copied: Set<u32>,
    region: Seq<u32>,
    named: Seq<u32>,
    rank: int,
) -> Seq<u32>
    decreases region.len() - rank,
{
    if rank < 0 || rank >= region.len() {
        named
    } else if due(graph, copied, region, named, rank) {
        sweep(graph, copied, region, named.push(region[rank]), rank + 1)
    } else {
        sweep(graph, copied, region, named, rank + 1)
    }
}

/// Sweeps until one names nothing.
pub open spec fn sweeps(
    graph: Map<u32, Seq<ENode>>,
    copied: Set<u32>,
    region: Seq<u32>,
    named: Seq<u32>,
) -> Seq<u32>
    decreases region.len() - named.len(),
{
    let next = sweep(graph, copied, region, named, 0);
    if named.len() < next.len() <= region.len() {
        sweeps(graph, copied, region, next)
    } else {
        named
    }
}

/// The order in which the e-classes of the region are named.
pub open spec fn naming_order(
    graph: Map<u32, Seq<ENode>>,
    copied: Set<u32>,
    region: Seq<u32>,
) -> Seq<u32> {
    sweeps(graph, copied, region, Seq::empty())
}

/// The names of the rows of an e-class that cannot be copied.
pub open spec fn names_blocked_row(
    graph: Map<u32, Seq<ENode>>,
    copied: Set<u32>,
    named: Set<u32>,
    class: u32,
    names: Seq<String>,
    text: Seq<char>,
) -> bool {
    exists|k: int|
        0 <= k < graph[class].len() && !node_ready(copied, named, #[trigger] graph[class][k])
            && names[graph[class][k].ctor as int]@ == text
}

/// An e-class that no order copies.
pub struct Blocked {
    /// The first such e-class of the region.
    pub eclass: u32,
    /// The names of its rows that refer to copies that nothing can produce,
    /// ascending.
    pub constructors: Vec<String>,
}

impl Blocked {
    /// What is said of the region: this is its first e-class with a blocked
    /// row, and the names are those of its blocked rows.
    pub open spec fn describes(
        &self,
        graph: Map<u32, Seq<ENode>>,
        copied: Set<u32>,
        region: Seq<u32>,
        names: Seq<String>,
    ) -> bool {
        let named = naming_order(graph, copied, region).to_set();
        &&& exists|rank: int|
            0 <= rank < region.len() && #[trigger] region[rank] == self.eclass && forall|before: int|
                0 <= before < rank ==> !blocked(graph, copied, named, #[trigger] region[before])
        &&& blocked(graph, copied, named, self.eclass)
        &&& ascending(self.constructors@)
        &&& forall|text: Seq<char>|
            #[trigger] lists(self.constructors@, text) <==> names_blocked_row(
                graph,
                copied,
                named,
                self.eclass,
                names,
                text,
            )
    }
}

/// How many references of a row wait for a copy.
spec fn waiting(copied: Set<u32>, named: Set<u32>, deps: Seq<u32>) -> nat
    decreases deps.len(),
{
    if deps.len() == 0 {
        0
    } else {
        waiting(copied, named, deps.drop_last()) + if resolved(copied, named, deps.last()) {
            0nat
        } else {
            1nat
        }
    }
}

proof fn lemma_waiting_name(copied: Set<u32>, named: Set<u32>, deps: Seq<u32>, class: u32)
    requires
        copied.contains(class),
        !named.contains(class),
    ensures
        waiting(copied, named.insert(class), deps) + occurrences(deps, class) == waiting(
            copied,
            named,
            deps,
        ),
    decreases deps.len(),
{
    if deps.len() > 0 {
        lemma_waiting_name(copied, named, deps.drop_last(), class);
    }
}

proof fn lemma_waiting_none(copied: Set<u32>, named: Set<u32>, deps: Seq<u32>)
    ensures
        waiting(copied, named, deps) == 0 <==> forall|k: int|
            0 <= k < deps.len() ==> resolved(copied, named, #[trigger] deps[k]),
    decreases deps.len(),
{
    if deps.len() > 0 {
        lemma_waiting_none(copied, named, deps.drop_last());
        let front = deps.drop_last();
        if waiting(copied, named, deps) == 0 {
            assert forall|k: int| 0 <= k < deps.len() implies resolved(
                copied,
                named,
                #[trigger] deps[k],
            ) by {
                if k < front.len() {
                    assert(resolved(copied, named, front[k]));
                }
            }
        }
        if forall|k: int|
            0 <= k < deps.len() ==> resolved(copied, named, #[trigger] deps[k]) {
            assert forall|k: int| 0 <= k < front.len() implies resolved(
                copied,
                named,
                #[trigger] front[k],
            ) by {
                assert(resolved(copied, named, deps[k]));
            }
            assert(resolved(copied, named, deps[deps.len() - 1]));
        }
    }
}

/// A sweep passes over ranks that are not due.
proof fn lemma_sweep_skips(
    graph: Map<u32, Seq<ENode>>,
    copied: Set<u32>,
    region: Seq<u32>,
    named: Seq<u32>,
    from: int,
    to: int,
)
    requires
        0 <= from <= to <= region.len(),
        forall|rank: int|
            from <= rank < to ==> !#[trigger] due(graph, copied, region, named, rank),
    ensures
        sweep(graph, copied, region, named, from) == sweep(graph, copied, region, named, to),
    decreases to - from,
{
    if from < to {
        assert(!due(graph, copied, region, named, from));
        lemma_sweep_skips(graph, copied, region, named, from + 1, to);
    }
}

/// What is named so far: each e-class of the region at most once.
pub open spec fn partly_named(region: Seq<u32>, named: Seq<u32>) -> bool {
    &&& named.no_duplicates()
    &&& forall|i: int| 0 <= i < named.len() ==> region.contains(#[trigger] named[i])
}

proof fn lemma_partly_named_len(region: Seq<u32>, named: Seq<u32>)
    requires
        partly_named(region, named),
    ensures
        named.len() <= region.len(),
{
    named.unique_seq_to_set();
    region.lemma_cardinality_of_set();
    assert forall|class: u32| named.to_set().contains(class) implies region.to_set().contains(
        class,
    ) by {
        let i = named.index_of(class);
        assert(named[i] == class);
    }
    vstd::seq_lib::seq_to_set_is_finite(region);
    vstd::set_lib::lemma_len_subset(named.to_set(), region.to_set());
}

/// A sweep only appends, and keeps the naming in order.
proof fn lemma_sweep_appends(
    graph: Map<u32, Seq<ENode>>,
    copied: Set<u32>,
    region: Seq<u32>,
    named: Seq<u32>,
    rank: int,
)
    requires
        0 <= rank,
        partly_named(region, named),
    ensures
        partly_named(region, sweep(graph, copied, region, named, rank)),
        named.is_prefix_of(sweep(graph, copied, region, named, rank)),
    decreases region.len() - rank,
{
    if rank < region.len() {
        if due(graph, copied, region, named, rank) {
            let next = named.push(region[rank]);
            lemma_named_next(region, named, rank);
            lemma_sweep_appends(graph, copied, region, next, rank + 1);
        } else {
            lemma_sweep_appends(graph, copied, region, named, rank + 1);
        }
    }
}

/// Sweeping once more first changes nothing.
proof fn lemma_sweeps_step(
    graph: Map<u32, Seq<ENode>>,
    copied: Set<u32>,
    region: Seq<u32>,
    named: Seq<u32>,
)
    requires
        partly_named(region, named),
    ensures
        sweeps(graph, copied, region, named) == sweeps(
            graph,
            copied,
            region,
            sweep(graph, copied, region, named, 0),
        ),
{
    let next = sweep(graph, copied, region, named, 0);
    lemma_sweep_appends(graph, copied, region, named, 0);
    lemma_partly_named_len(region, next);
    if next.len() == named.len() {
        assert(next =~= named);
    }
}

/// Removes the least rank of the set, by `BTreeSet::pop_first`: the result is
/// that rank, and `None` if and only if the set is empty.
#[verifier::external_body]
fn pop_least(ranks: &mut BTreeSet<usize>) -> (least: Option<usize>)
    ensures
        match least {
            Some(rank) => {
                &&& old(ranks)@.contains(rank)
                &&& final(ranks)@ == old(ranks)@.remove(rank)
                &&& forall|other: usize| #[trigger] old(ranks)@.contains(other) ==> rank <= other
            },
            None => old(ranks)@ == Set::<usize>::empty() && final(ranks)@ == old(ranks)@,
        },
{
    ranks.pop_first()
}

/// The rows of the region in order, and which of them wait for which copies.
struct Waiting {
    /// The rank of each row's e-class.
    owners: Vec<usize>,
    /// How many references of each row wait for a copy.
    pending: Vec<usize>,
    /// For each rank, the rows that wait for its copy, once for each
    /// reference.
    waiters: Vec<Vec<usize>>,
    /// The rank and the position in its e-class of each row.
    places: Ghost<Seq<(int, int)>>,
}

impl Waiting {
    spec fn node(&self, graph: Map<u32, Seq<ENode>>, region: Seq<u32>, i: int) -> ENode {
        graph[region[self.places@[i].0]][self.places@[i].1]
    }

    /// Row `i` stands at a place of the region.
    spec fn placed(&self, graph: Map<u32, Seq<ENode>>, region: Seq<u32>, i: int) -> bool {
        &&& self.owners@[i] == self.places@[i].0
        &&& 0 <= self.places@[i].0 < region.len()
        &&& 0 <= self.places@[i].1 < graph[region[self.places@[i].0]].len()
    }

    spec fn wf(&self, graph: Map<u32, Seq<ENode>>, region: Seq<u32>) -> bool {
        &&& self.consistent(graph, region)
        &&& forall|rank: int, k: int|
            0 <= rank < region.len() && 0 <= k < graph[region[rank]].len()
                ==> #[trigger] self.has_place(rank, k)
    }

    spec fn consistent(&self, graph: Map<u32, Seq<ENode>>, region: Seq<u32>) -> bool {
        &&& self.owners@.len() == self.places@.len()
        &&& self.pending@.len() == self.places@.len()
        &&& self.waiters@.len() == region.len()
        &&& forall|i: int|
            0 <= i < self.places@.len() ==> #[trigger] self.placed(graph, region, i)
        &&& forall|i: int, j: int|
            0 <= i <= j < self.places@.len() ==> (#[trigger] self.places@[i]).0 <= (
            #[trigger] self.places@[j]).0
        &&& forall|rank: int, i: int|
            0 <= rank < region.len() && 0 <= i < self.places@.len() ==> occurrences(
                #[trigger] self.waiters@[rank]@,
                i as usize,
            ) == occurrences(#[trigger] self.node(graph, region, i).deps@, region[rank])
        &&& forall|rank: int, w: int|
            0 <= rank < region.len() && 0 <= w < self.waiters@[rank]@.len()
                ==> #[trigger] self.waiters@[rank]@[w] < self.places@.len()
    }

    spec fn has_place(&self, rank: int, k: int) -> bool {
        exists|i: int| 0 <= i < self.places@.len() && #[trigger] self.places@[i] == (rank, k)
    }

    spec fn counts(
        &self,
        graph: Map<u32, Seq<ENode>>,
        copied: Set<u32>,
        region: Seq<u32>,
        named: Set<u32>,
    ) -> bool {
        forall|i: int|
            0 <= i < self.places@.len() ==> #[trigger] self.pending@[i] == waiting(
                copied,
                named,
                self.node(graph, region, i).deps@,
            )
    }

    /// Adds a row of the e-class at `rank` behind the others.
    fn add_row(
        &mut self,
        node: &ENode,
        rank: usize,
        ranks: &HashMap<u32, usize>,
        map: &BTreeMap<u32, u32>,
        affected: &HashSet<u32>,
        Ghost(k): Ghost<int>,
        Ghost(graph): Ghost<Map<u32, Seq<ENode>>>,
        Ghost(region): Ghost<Seq<u32>>,
    )
        requires
            old(self).consistent(graph, region),
            old(self).counts(
                graph,
                copied_classes(affected@, map@.dom()),
                region,
                Set::empty(),
            ),
            rank < region.len(),
            0 <= k < graph[region[rank as int]].len(),
            graph[region[rank as int]][k] == *node,
            forall|i: int| 0 <= i < old(self).places@.len() ==> (#[trigger] old(self).places@[i]).0 <= rank,
            region.no_duplicates(),
            forall|r: int|
                0 <= r < region.len() ==> copied_classes(affected@, map@.dom()).contains(
                    #[trigger] region[r],
                ),
            forall|r: int|
                0 <= r < region.len() ==> ranks@.contains_key(#[trigger] region[r])
                    && ranks@[region[r]] == r,
            forall|d: int|
                0 <= d < node.deps@.len() && copied_classes(affected@, map@.dom()).contains(
                    #[trigger] node.deps@[d],
                ) ==> region.contains(node.deps@[d]),
        ensures
            final(self).consistent(graph, region),
            final(self).counts(
                graph,
                copied_classes(affected@, map@.dom()),
                region,
                Set::empty(),
            ),
            final(self).places@ == old(self).places@.push((rank as int, k)),
    {
        let ghost was = *self;
        let ghost copied = copied_classes(affected@, map@.dom());
        let row = self.owners.len();
        let mut count: usize = 0;
        proof {
            assert forall|r: int| 0 <= r < region.len() implies occurrences(
                #[trigger] self.waiters@[r]@,
                row,
            ) == 0 by {
                lemma_occurrences_absent(self.waiters@[r]@, row);
            }
        }
        for d in 0..node.deps.len()
            invariant
                copied == copied_classes(affected@, map@.dom()),
                was.consistent(graph, region),
                self.owners == was.owners,
                self.pending == was.pending,
                self.places == was.places,
                row == was.places@.len(),
                self.waiters@.len() == region.len(),
                region.no_duplicates(),
                count <= d,
                count == waiting(copied, Set::empty(), node.deps@.take(d as int)),
                forall|r: int| 0 <= r < region.len() ==> copied.contains(#[trigger] region[r]),
                forall|r: int|
                    0 <= r < region.len() ==> ranks@.contains_key(#[trigger] region[r])
                        && ranks@[region[r]] == r,
                forall|e: int|
                    0 <= e < node.deps@.len() && copied.contains(#[trigger] node.deps@[e])
                        ==> region.contains(node.deps@[e]),
                forall|r: int, i: usize|
                    0 <= r < region.len() && i < row ==> #[trigger] occurrences(
                        self.waiters@[r]@,
                        i,
                    ) == occurrences(was.waiters@[r]@, i),
                forall|r: int|
                    0 <= r < region.len() ==> occurrences(#[trigger] self.waiters@[r]@, row)
                        == occurrences(node.deps@.take(d as int), region[r]),
                forall|r: int, w: int|
                    0 <= r < region.len() && 0 <= w < self.waiters@[r]@.len()
                        ==> #[trigger] self.waiters@[r]@[w] <= row,
        {
            let dep = node.deps[d];
            let ghost done = node.deps@.take(d as int);
            let ghost earlier = self.waiters@;
            assert(node.deps@.take(d + 1) =~= done.push(dep));
            assert(done.push(dep).drop_last() =~= done);
            if affected.contains(&dep) && !map.contains_key(&dep) {
                assert(copied.contains(node.deps@[d as int]));
                let ghost at = region.index_of(dep);
                assert(region[at] == dep);
                match ranks.get(&dep) {
                    None => {
                        assert(false);
                    },
                    Some(dep_rank) => {
                        count = count + 1;
                        self.waiters[*dep_rank].push(row);
                        proof {
                            assert(*dep_rank == at);
                            assert(self.waiters@[at]@ == earlier[at]@.push(row));
                            assert forall|r: int, i: usize|
                                0 <= r < region.len() && i < row implies #[trigger] occurrences(
                                self.waiters@[r]@,
                                i,
                            ) == occurrences(was.waiters@[r]@, i) by {
                                if r == at {
                                    lemma_occurrences_push(earlier[at]@, row, i);
                                } else {
                                    assert(self.waiters@[r] == earlier[r]);
                                }
                                assert(occurrences(earlier[r]@, i) == occurrences(
                                    was.waiters@[r]@,
                                    i,
                                ));
                            }
                            assert forall|r: int| 0 <= r < region.len() implies occurrences(
                                #[trigger] self.waiters@[r]@,
                                row,
                            ) == occurrences(node.deps@.take(d + 1), region[r]) by {
                                lemma_occurrences_push(done, dep, region[r]);
                                if r == at {
                                    lemma_occurrences_push(earlier[at]@, row, row);
                                } else {
                                    assert(self.waiters@[r] == earlier[r]);
                                    assert(region[r] != dep);
                                }
                            }
                            assert forall|r: int, w: int|
                                0 <= r < region.len() && 0 <= w
                                    < self.waiters@[r]@.len() implies #[trigger] self.waiters@[r]@[w]
                                <= row by {
                                if r != at {
                                    assert(self.waiters@[r] == earlier[r]);
                                    assert(earlier[r]@[w] <= row);
                                } else if w < earlier[at]@.len() {
                                    assert(earlier[at]@[w] <= row);
                                }
                            }
                        }
                    },
                }
            } else {
                proof {
                    assert forall|r: int| 0 <= r < region.len() implies occurrences(
                        #[trigger] self.waiters@[r]@,
                        row,
                    ) == occurrences(node.deps@.take(d + 1), region[r]) by {
                        lemma_occurrences_push(done, dep, region[r]);
                    }
                }
            }
        }
        assert(node.deps@.take(node.deps@.len() as int) =~= node.deps@);
        self.owners.push(rank);
        self.pending.push(count);
        self.places = Ghost(self.places@.push((rank as int, k)));
        proof {
            assert forall|i: int| 0 <= i < self.places@.len() implies #[trigger] self.placed(
                graph,
                region,
                i,
            ) by {
                if i < row {
                    assert(was.placed(graph, region, i));
                }
            }
            assert forall|r: int, i: int|
                0 <= r < region.len() && 0 <= i < self.places@.len() implies occurrences(
                #[trigger] self.waiters@[r]@,
                i as usize,
            ) == occurrences(#[trigger] self.node(graph, region, i).deps@, region[r]) by {
                if i < row {
                    assert(self.node(graph, region, i) == was.node(graph, region, i));
                    assert(occurrences(self.waiters@[r]@, i as usize) == occurrences(
                        was.waiters@[r]@,
                        i as usize,
                    ));
                } else {
                    assert(self.node(graph, region, i) == *node);
                }
            }
            assert forall|i: int| 0 <= i < self.places@.len() implies #[trigger] self.pending@[i]
                == waiting(copied, Set::empty(), self.node(graph, region, i).deps@) by {
                if i < row {
                    assert(self.node(graph, region, i) == was.node(graph, region, i));
                    assert(self.pending@[i] == was.pending@[i]);
                } else {
                    assert(self.node(graph, region, i) == *node);
                }
            }
            assert forall|i: int, j: int| 0 <= i <= j < self.places@.len() implies (
            #[trigger] self.places@[i]).0 <= (#[trigger] self.places@[j]).0 by {
                if j < row {
                    assert(self.places@[i] == was.places@[i]);
                    assert(self.places@[j] == was.places@[j]);
                } else if i < row {
                    assert(self.places@[i] == was.places@[i]);
                }
            }
        }
    }

    /// An e-class is nameable if and only if one of its rows waits for nothing.
    proof fn lemma_nameable(
        &self,
        graph: Map<u32, Seq<ENode>>,
        copied: Set<u32>,
        region: Seq<u32>,
        named: Set<u32>,
        rank: int,
    )
        requires
            self.wf(graph, region),
            self.counts(graph, copied, region, named),
            0 <= rank < region.len(),
        ensures
            nameable(graph, copied, named, region[rank]) <==> exists|i: int|
                0 <= i < self.places@.len() && #[trigger] self.owners@[i] == rank
                    && self.pending@[i] == 0,
    {
        if nameable(graph, copied, named, region[rank]) {
            let k = choose|k: int|
                0 <= k < graph[region[rank]].len() && node_ready(
                    copied,
                    named,
                    #[trigger] graph[region[rank]][k],
                );
            assert(self.has_place(rank, k));
            let i = choose|i: int|
                0 <= i < self.places@.len() && #[trigger] self.places@[i] == (rank, k);
            assert(self.placed(graph, region, i));
            lemma_waiting_none(copied, named, self.node(graph, region, i).deps@);
            assert(self.owners@[i] == rank && self.pending@[i] == 0);
        }
        if exists|i: int|
            0 <= i < self.places@.len() && #[trigger] self.owners@[i] == rank && self.pending@[i]
                == 0 {
            let i = choose|i: int|
                0 <= i < self.places@.len() && #[trigger] self.owners@[i] == rank
                    && self.pending@[i] == 0;
            assert(self.placed(graph, region, i));
            lemma_waiting_none(copied, named, self.node(graph, region, i).deps@);
            assert(node_ready(copied, named, graph[region[rank]][self.places@[i].1]));
        }
    }
}

/// Gathers the rows of the region.
fn gather(
    snapshot: &Snapshot,
    map: &BTreeMap<u32, u32>,
    affected: &HashSet<u32>,
    region: &Vec<u32>,
) -> (rows: Waiting)
    requires
        snapshot.wf(),
        region@.no_duplicates(),
        forall|r: int|
            0 <= r < region@.len() ==> {
                &&& snapshot.graph().contains_key(#[trigger] region@[r])
                &&& copied_classes(affected@, map@.dom()).contains(region@[r])
            },
        forall|r: int, dep: u32|
            0 <= r < region@.len() && #[trigger] successors(
                snapshot.graph(),
                copied_classes(affected@, map@.dom()),
                region@[r],
            ).contains(dep) ==> region@.contains(dep),
    ensures
        rows.wf(snapshot.graph(), region@),
        rows.counts(
            snapshot.graph(),
            copied_classes(affected@, map@.dom()),
            region@,
            Set::empty(),
        ),
{
    let ghost graph = snapshot.graph();
    let ghost copied = copied_classes(affected@, map@.dom());
    let mut ranks: HashMap<u32, usize> = HashMap::new();
    let mut waiters: Vec<Vec<usize>> = Vec::new();
    for r in 0..region.len()
        invariant
            region@.no_duplicates(),
            waiters@.len() == r,
            forall|q: int| 0 <= q < r ==> (#[trigger] waiters@[q])@.len() == 0,
            forall|q: int|
                0 <= q < r ==> ranks@.contains_key(#[trigger] region@[q]) && ranks@[region@[q]]
                    == q,
    {
        ranks.insert(region[r], r);
        waiters.push(Vec::new());
    }
    let mut rows = Waiting {
        owners: Vec::new(),
        pending: Vec::new(),
        waiters,
        places: Ghost(Seq::empty()),
    };
    for r in 0..region.len()
        invariant
            snapshot.wf(),
            graph == snapshot.graph(),
            copied == copied_classes(affected@, map@.dom()),
            region@.no_duplicates(),
            forall|q: int|
                0 <= q < region@.len() ==> {
                    &&& graph.contains_key(#[trigger] region@[q])
                    &&& copied.contains(region@[q])
                },
            forall|q: int, dep: u32|
                0 <= q < region@.len() && #[trigger] successors(
                    graph,
                    copied,
                    region@[q],
                ).contains(dep) ==> region@.contains(dep),
            forall|q: int|
                0 <= q < region@.len() ==> ranks@.contains_key(#[trigger] region@[q])
                    && ranks@[region@[q]] == q,
            rows.consistent(graph, region@),
            rows.counts(graph, copied, region@, Set::empty()),
            forall|i: int|
                0 <= i < rows.places@.len() ==> (#[trigger] rows.places@[i]).0 < r,
            forall|q: int, k: int|
                0 <= q < r && 0 <= k < graph[region@[q]].len() ==> #[trigger] rows.has_place(q, k),
    {
        match snapshot.index.get(&region[r]) {
            None => {
                assert(graph.contains_key(region@[r as int]));
            },
            Some(position) => {
                let nodes = &snapshot.classes[*position].nodes;
                assert(nodes@ == graph[region@[r as int]]);
                for k in 0..nodes.len()
                    invariant
                        r < region@.len(),
                        nodes@ == graph[region@[r as int]],
                        copied == copied_classes(affected@, map@.dom()),
                        region@.no_duplicates(),
                        forall|q: int|
                            0 <= q < region@.len() ==> {
                                &&& graph.contains_key(#[trigger] region@[q])
                                &&& copied.contains(region@[q])
                            },
                        forall|q: int, dep: u32|
                            0 <= q < region@.len() && #[trigger] successors(
                                graph,
                                copied,
                                region@[q],
                            ).contains(dep) ==> region@.contains(dep),
                        forall|q: int|
                            0 <= q < region@.len() ==> ranks@.contains_key(#[trigger] region@[q])
                                && ranks@[region@[q]] == q,
                        rows.consistent(graph, region@),
                        rows.counts(graph, copied, region@, Set::empty()),
                        forall|i: int|
                            0 <= i < rows.places@.len() ==> (#[trigger] rows.places@[i]).0 <= r,
                        forall|q: int, j: int|
                            0 <= q < r && 0 <= j < graph[region@[q]].len()
                                ==> #[trigger] rows.has_place(q, j),
                        forall|j: int| 0 <= j < k ==> #[trigger] rows.has_place(r as int, j),
                {
                    let node = &nodes[k];
                    let ghost was = rows;
                    proof {
                        assert forall|d: int|
                            0 <= d < node.deps@.len() && copied.contains(
                                #[trigger] node.deps@[d],
                            ) implies region@.contains(node.deps@[d]) by {
                            let dep = node.deps@[d];
                            assert(nodes@[k as int].deps@.contains(dep));
                            lemma_class_deps(nodes@, dep);
                            lemma_successors(graph, copied, region@[r as int], dep);
                        }
                    }
                    rows.add_row(
                        node,
                        r,
                        &ranks,
                        map,
                        affected,
                        Ghost(k as int),
                        Ghost(graph),
                        Ghost(region@),
                    );
                    proof {
                        assert forall|q: int, j: int| was.has_place(q, j) implies #[trigger] rows.has_place(
                            q,
                            j,
                        ) by {
                            let i = choose|i: int|
                                0 <= i < was.places@.len() && #[trigger] was.places@[i] == (q, j);
                            assert(rows.places@[i] == (q, j));
                        }
                        assert(rows.places@[was.places@.len() as int] == (r as int, k as int));
                        assert(rows.has_place(r as int, k as int));
                    }
                }
            },
        }
    }
    rows
}

/// Names what can be named, each e-class as soon as a sweep from left to right
/// comes to it.
fn schedule(
    mut rows: Waiting,
    region: &Vec<u32>,
    Ghost(graph): Ghost<Map<u32, Seq<ENode>>>,
    Ghost(copied): Ghost<Set<u32>>,
) -> (order: Vec<u32>)
    requires
        rows.wf(graph, region@),
        rows.counts(graph, copied, region@, Set::empty()),
        region@.no_duplicates(),
        forall|r: int| 0 <= r < region@.len() ==> copied.contains(#[trigger] region@[r]),
    ensures
        order@ == naming_order(graph, copied, region@),
{
    let n = region.len();
    let mut order: Vec<u32> = Vec::new();
    let mut scheduled: Vec<bool> = Vec::new();
    for r in 0..n
        invariant
            scheduled@.len() == r,
            forall|q: int| 0 <= q < r ==> #[trigger] scheduled@[q] == false,
    {
        scheduled.push(false);
    }
    let mut current: BTreeSet<usize> = BTreeSet::new();
    let mut later: BTreeSet<usize> = BTreeSet::new();
    let mut cursor: usize = 0;
    assert(order@.to_set() =~= Set::<u32>::empty());
    let rows_len = rows.owners.len();
    for i in 0..rows_len
        invariant
            rows.wf(graph, region@),
            n == region@.len(),
            rows_len == rows.places@.len(),
            scheduled@.len() == n,
            forall|x: usize| #[trigger]
                current@.contains(x) ==> x < n && exists|j: int|
                    0 <= j < i && #[trigger] rows.owners@[j] == x && rows.pending@[j] == 0,
            forall|j: int|
                0 <= j < i && #[trigger] rows.pending@[j] == 0 ==> current@.contains(
                    rows.owners@[j],
                ),
            forall|x: int| 0 <= x < n ==> #[trigger] scheduled@[x] == current@.contains(x as usize),
    {
        assert(rows.placed(graph, region@, i as int));
        let owner = rows.owners[i];
        if rows.pending[i] == 0 && !scheduled[owner] {
            scheduled.set(owner, true);
            current.insert(owner);
        }
    }
    proof {
        assert forall|r: int| 0 <= r < n implies (#[trigger] due(graph, copied, region@, order@, r)
            <==> current@.contains(r as usize)) by {
            rows.lemma_nameable(graph, copied, region@, Set::empty(), r);
        }
        lemma_sweeps_step(graph, copied, region@, order@);
    }
    loop
        invariant
            rows.wf(graph, region@),
            rows.counts(graph, copied, region@, order@.to_set()),
            rows_len == rows.places@.len(),
            n == region@.len(),
            cursor <= n,
            region@.no_duplicates(),
            forall|r: int| 0 <= r < region@.len() ==> copied.contains(#[trigger] region@[r]),
            partly_named(region@, order@),
            scheduled@.len() == n,
            forall|x: usize| #[trigger] current@.contains(x) ==> cursor <= x < n,
            forall|x: usize| #[trigger] later@.contains(x) ==> x < cursor,
            forall|r: int|
                0 <= r < n ==> (#[trigger] due(graph, copied, region@, order@, r)
                    <==> current@.contains(r as usize) || later@.contains(r as usize)),
            forall|x: int|
                0 <= x < n ==> (#[trigger] scheduled@[x] <==> order@.contains(region@[x])
                    || current@.contains(x as usize) || later@.contains(x as usize)),
            sweeps(
                graph,
                copied,
                region@,
                sweep(graph, copied, region@, order@, cursor as int),
            ) == naming_order(graph, copied, region@),
        ensures
            order@ == naming_order(graph, copied, region@),
        decreases n - order@.len(), cursor,
    {
        let ghost ready = current@;
        let ghost named = order@;
        proof {
            lemma_partly_named_len(region@, order@);
        }
        match pop_least(&mut current) {
            None => {
                proof {
                    assert forall|rank: int| cursor <= rank < n implies !#[trigger] due(
                        graph,
                        copied,
                        region@,
                        order@,
                        rank,
                    ) by {
                        assert(!current@.contains(rank as usize));
                    }
                    lemma_sweep_skips(
                        graph,
                        copied,
                        region@,
                        order@,
                        cursor as int,
                        n as int,
                    );
                    lemma_sweeps_step(graph, copied, region@, order@);
                }
                if later.is_empty() {
                    proof {
                        assert forall|rank: int| 0 <= rank < n implies !#[trigger] due(
                            graph,
                            copied,
                            region@,
                            order@,
                            rank,
                        ) by {
                            assert(!later@.contains(rank as usize));
                        }
                        lemma_sweep_skips(graph, copied, region@, order@, 0, n as int);
                    }
                    break;
                }
                proof {
                    if cursor == 0 {
                        assert(later@ =~= Set::<usize>::empty());
                    }
                }
                current = later;
                later = BTreeSet::new();
                cursor = 0;
            },
            Some(rank) => {
                let eclass = region[rank];
                order.push(eclass);
                let ghost before = rows;
                proof {
                    assert(ready.contains(rank));
                    assert(due(graph, copied, region@, named, rank as int));
                    assert forall|r: int| cursor <= r < rank implies !#[trigger] due(
                        graph,
                        copied,
                        region@,
                        named,
                        r,
                    ) by {
                        assert(!ready.contains(r as usize));
                    }
                    lemma_sweep_skips(
                        graph,
                        copied,
                        region@,
                        named,
                        cursor as int,
                        rank as int,
                    );
                    assert forall|class: u32| order@.contains(class) <==> named.contains(class)
                        || class == eclass by {
                        lemma_push_contains(named, eclass, class);
                    }
                    assert(order@.to_set() =~= named.to_set().insert(eclass));
                    lemma_named_next(region@, named, rank as int);
                    lemma_partly_named_len(region@, order@);
                    assert forall|x: int| 0 <= x < n implies order@.contains(region@[x]) == (
                    named.contains(region@[x]) || x == rank) by {
                        lemma_push_contains(named, eclass, region@[x]);
                    }
                    assert forall|i: int| 0 <= i < rows.places@.len() implies #[trigger] rows.pending@[i]
                        == waiting(copied, named.to_set(), rows.node(graph, region@, i).deps@)
                        - occurrences(rows.waiters@[rank as int]@.take(0), i as usize) by {
                        lemma_occurrences_absent(rows.waiters@[rank as int]@.take(0), i as usize);
                    }
                    assert forall|i: int|
                        0 <= i < rows.places@.len() && #[trigger] rows.pending@[i]
                            == 0 implies scheduled@[rows.owners@[i] as int] by {
                        assert(rows.placed(graph, region@, i));
                        let x = rows.owners@[i] as int;
                        rows.lemma_nameable(graph, copied, region@, named.to_set(), x);
                        if !named.contains(region@[x]) {
                            assert(due(graph, copied, region@, named, x));
                        }
                    }
                    assert forall|x: usize| x < n && (current@.contains(x) || later@.contains(
                        x,
                    )) implies nameable(
                        graph,
                        copied,
                        order@.to_set(),
                        #[trigger] region@[x as int],
                    ) by {
                        assert(due(graph, copied, region@, named, x as int));
                        lemma_nameable_grows(
                            graph,
                            copied,
                            named.to_set(),
                            eclass,
                            region@[x as int],
                        );
                    }
                    assert forall|x: usize| #[trigger] current@.contains(
                        x,
                    ) implies !order@.contains(region@[x as int]) by {
                        assert(due(graph, copied, region@, named, x as int));
                    }
                    assert forall|x: usize| #[trigger] later@.contains(x) implies !order@.contains(
                        region@[x as int],
                    ) by {
                        assert(due(graph, copied, region@, named, x as int));
                    }
                }
                cursor = rank + 1;
                let count = rows.waiters[rank].len();
                for w in 0..count
                    invariant
                        rank < n,
                        n == region@.len(),
                        cursor == rank + 1,
                        region@.no_duplicates(),
                        eclass == region@[rank as int],
                        copied.contains(eclass),
                        !named.contains(eclass),
                        order@.to_set() == named.to_set().insert(eclass),
                        before.wf(graph, region@),
                        rows.owners == before.owners,
                        rows.waiters == before.waiters,
                        rows.places == before.places,
                        rows.pending@.len() == before.pending@.len(),
                        rows_len == before.places@.len(),
                        count == before.waiters@[rank as int]@.len(),
                        forall|i: int|
                            0 <= i < rows.places@.len() ==> #[trigger] rows.pending@[i] == waiting(
                                copied,
                                named.to_set(),
                                before.node(graph, region@, i).deps@,
                            ) - occurrences(
                                before.waiters@[rank as int]@.take(w as int),
                                i as usize,
                            ),
                        forall|i: int|
                            0 <= i < rows.places@.len() && #[trigger] rows.pending@[i] == 0
                                ==> scheduled@[rows.owners@[i] as int],
                        scheduled@.len() == n,
                        forall|x: int|
                            0 <= x < n ==> (#[trigger] scheduled@[x] <==> order@.contains(
                                region@[x],
                            ) || current@.contains(x as usize) || later@.contains(x as usize)),
                        forall|x: usize| #[trigger] current@.contains(x) ==> cursor <= x < n,
                        forall|x: usize| #[trigger] later@.contains(x) ==> x < cursor,
                        forall|x: usize|
                            x < n && (current@.contains(x) || later@.contains(x)) ==> nameable(
                                graph,
                                copied,
                                order@.to_set(),
                                #[trigger] region@[x as int],
                            ),
                        forall|x: usize| #[trigger]
                            current@.contains(x) ==> !order@.contains(region@[x as int]),
                        forall|x: usize| #[trigger]
                            later@.contains(x) ==> !order@.contains(region@[x as int]),
                {
                    let ghost list = before.waiters@[rank as int]@;
                    let i = rows.waiters[rank][w];
                    assert(list[w as int] == i);
                    assert(i < before.places@.len());
                    assert(before.placed(graph, region@, i as int));
                    let ghost deps = before.node(graph, region@, i as int).deps@;
                    proof {
                        lemma_waiting_name(copied, named.to_set(), deps, eclass);
                        lemma_occurrences_prefix(list, w as int, i);
                        assert(occurrences(list, i) == occurrences(deps, eclass));
                    }
                    let ghost held = rows.pending@;
                    let remaining = rows.pending[i] - 1;
                    rows.pending.set(i, remaining);
                    proof {
                        assert forall|j: int| 0 <= j < rows.places@.len() implies #[trigger] rows.pending@[j]
                            == waiting(
                            copied,
                            named.to_set(),
                            before.node(graph, region@, j).deps@,
                        ) - occurrences(list.take(w + 1), j as usize) by {
                            if j != i {
                                assert(rows.pending@[j] == held[j]);
                            }
                            assert(held[j] == waiting(
                                copied,
                                named.to_set(),
                                before.node(graph, region@, j).deps@,
                            ) - occurrences(list.take(w as int), j as usize));
                            lemma_occurrences_take(list, w as int, j as usize);
                        }
                    }
                    if remaining == 0 {
                        let owner = rows.owners[i];
                        proof {
                            lemma_occurrences_bound(list, w + 1, i);
                            assert(waiting(copied, order@.to_set(), deps) == 0);
                            lemma_waiting_none(copied, order@.to_set(), deps);
                            assert(node_ready(
                                copied,
                                order@.to_set(),
                                graph[region@[owner as int]][before.places@[i as int].1],
                            ));
                        }
                        if !scheduled[owner] {
                            scheduled.set(owner, true);
                            if owner <= rank {
                                later.insert(owner);
                            } else {
                                current.insert(owner);
                            }
                        }
                    }
                    proof {
                        assert forall|j: int|
                            0 <= j < rows.places@.len() && #[trigger] rows.pending@[j]
                                == 0 implies scheduled@[rows.owners@[j] as int] by {
                            assert(before.placed(graph, region@, j));
                            if j != i {
                                assert(held[j] == 0);
                            }
                        }
                    }
                }
                proof {
                    let list = before.waiters@[rank as int]@;
                    assert(list.take(count as int) =~= list);
                    assert forall|i: int| 0 <= i < rows.places@.len() implies #[trigger] rows.pending@[i]
                        == waiting(copied, order@.to_set(), rows.node(graph, region@, i).deps@) by {
                        let deps = before.node(graph, region@, i).deps@;
                        assert(rows.node(graph, region@, i) == before.node(graph, region@, i));
                        lemma_waiting_name(copied, named.to_set(), deps, eclass);
                        assert(occurrences(list, i as usize) == occurrences(deps, eclass));
                    }
                    assert(rows.wf(graph, region@)) by {
                        assert forall|i: int| 0 <= i < rows.places@.len() implies #[trigger] rows.placed(
                            graph,
                            region@,
                            i,
                        ) by {
                            assert(before.placed(graph, region@, i));
                        }
                        assert forall|r: int, k: int|
                            0 <= r < region@.len() && 0 <= k
                                < graph[region@[r]].len() implies #[trigger] rows.has_place(r, k) by {
                            assert(before.has_place(r, k));
                            let i = choose|i: int|
                                0 <= i < before.places@.len() && #[trigger] before.places@[i] == (
                                r,
                                k,
                                );
                            assert(rows.places@[i] == (r, k));
                        }
                        assert forall|r: int, i: int|
                            0 <= r < region@.len() && 0 <= i
                                < rows.places@.len() implies occurrences(
                            #[trigger] rows.waiters@[r]@,
                            i as usize,
                        ) == occurrences(
                            #[trigger] rows.node(graph, region@, i).deps@,
                            region@[r],
                        ) by {
                            assert(rows.node(graph, region@, i) == before.node(graph, region@, i));
                            assert(occurrences(before.waiters@[r]@, i as usize) == occurrences(
                                before.node(graph, region@, i).deps@,
                                region@[r],
                            ));
                        }
                    }
                    assert forall|r: int| 0 <= r < n implies (#[trigger] due(
                        graph,
                        copied,
                        region@,
                        order@,
                        r,
                    ) <==> current@.contains(r as usize) || later@.contains(r as usize)) by {
                        rows.lemma_nameable(graph, copied, region@, order@.to_set(), r);
                        if due(graph, copied, region@, order@, r) {
                            let i = choose|i: int|
                                0 <= i < rows.places@.len() && #[trigger] rows.owners@[i] == r
                                    && rows.pending@[i] == 0;
                            assert(rows.pending@[i] == 0);
                            assert(scheduled@[r]);
                        }
                    }
                }
            },
        }
    }
    order
}

proof fn lemma_named_next(region: Seq<u32>, named: Seq<u32>, rank: int)
    requires
        partly_named(region, named),
        0 <= rank < region.len(),
        !named.contains(region[rank]),
    ensures
        partly_named(region, named.push(region[rank])),
{
    let next = named.push(region[rank]);
    assert(region.contains(region[rank]));
    assert forall|i: int, j: int| 0 <= i < j < next.len() implies next[i] != next[j] by {
        if j == named.len() {
            assert(named.contains(named[i]));
        }
    }
}

/// What can be named stays so when more is named.
proof fn lemma_nameable_grows(
    graph: Map<u32, Seq<ENode>>,
    copied: Set<u32>,
    named: Set<u32>,
    more: u32,
    class: u32,
)
    requires
        nameable(graph, copied, named, class),
    ensures
        nameable(graph, copied, named.insert(more), class),
{
    let k = choose|k: int|
        0 <= k < graph[class].len() && node_ready(copied, named, #[trigger] graph[class][k]);
    let deps = graph[class][k].deps@;
    assert forall|d: int| 0 <= d < deps.len() implies resolved(
        copied,
        named.insert(more),
        #[trigger] deps[d],
    ) by {
        assert(resolved(copied, named, deps[d]));
    }
    assert(node_ready(copied, named.insert(more), graph[class][k]));
}

/// Whether a copy of the row can be made once the e-classes of `named` have
/// copies.
pub fn row_ready(
    node: &ENode,
    map: &BTreeMap<u32, u32>,
    affected: &HashSet<u32>,
    named: &HashSet<u32>,
) -> (ready: bool)
    ensures
        ready == node_ready(copied_classes(affected@, map@.dom()), named@, *node),
{
    let ghost copied = copied_classes(affected@, map@.dom());
    for d in 0..node.deps.len()
        invariant
            copied == copied_classes(affected@, map@.dom()),
            forall|e: int|
                0 <= e < d ==> resolved(copied, named@, #[trigger] node.deps@[e]),
    {
        let dep = node.deps[d];
        if affected.contains(&dep) && !map.contains_key(&dep) && !named.contains(&dep) {
            assert(!resolved(copied, named@, node.deps@[d as int]));
            return false;
        }
    }
    true
}

/// Decides, without writing anything, whether the e-classes to copy for `root`
/// can be copied at all, and in what order they can be named.
pub fn plan(
    snapshot: &Snapshot,
    map: &BTreeMap<u32, u32>,
    affected: &HashSet<u32>,
    names: &Vec<String>,
    root: u32,
) -> (result: Result<Vec<u32>, Blocked>)
    requires
        snapshot.wf(),
        copied_classes(affected@, map@.dom()).contains(root),
        copied_classes(affected@, map@.dom()).subset_of(snapshot.graph().dom()),
        forall|class: u32, k: int|
            snapshot.graph().contains_key(class) && 0 <= k < snapshot.graph()[class].len() ==> (
            #[trigger] snapshot.graph()[class][k]).ctor < names@.len(),
    ensures
        ({
            let graph = snapshot.graph();
            let copied = copied_classes(affected@, map@.dom());
            let region = postorder_of(graph, copied, root);
            match result {
                Ok(order) => {
                    &&& order@ == naming_order(graph, copied, region)
                    &&& forall|rank: int|
                        0 <= rank < region.len() ==> !blocked(
                            graph,
                            copied,
                            order@.to_set(),
                            #[trigger] region[rank],
                        )
                },
                Err(found) => found.describes(graph, copied, region, names@),
            }
        }),
{
    let ghost graph = snapshot.graph();
    let ghost copied = copied_classes(affected@, map@.dom());
    assert(copied =~= snapshot.index@.dom().intersect(copied));
    let region = postorder(snapshot, map, affected, root);
    proof {
        lemma_postorder_is_region(graph, copied, root);
        assert forall|r: int| 0 <= r < region@.len() implies copied.contains(
            #[trigger] region@[r],
        ) by {
            assert(region@.contains(region@[r]));
        }
    }
    let rows = gather(snapshot, map, affected, &region);
    let order = schedule(rows, &region, Ghost(graph), Ghost(copied));
    let mut copyable: HashSet<u32> = HashSet::new();
    for i in 0..order.len()
        invariant
            forall|class: u32| #[trigger]
                copyable@.contains(class) <==> order@.take(i as int).contains(class),
    {
        proof {
            assert(order@.take(i + 1) =~= order@.take(i as int).push(order@[i as int]));
            assert forall|class: u32| order@.take(i + 1).contains(class) <==> order@.take(
                i as int,
            ).contains(class) || class == order@[i as int] by {
                lemma_push_contains(order@.take(i as int), order@[i as int], class);
            }
        }
        copyable.insert(order[i]);
    }
    proof {
        assert(order@.take(order@.len() as int) =~= order@);
        assert(copyable@ =~= order@.to_set());
    }
    for r in 0..region.len()
        invariant
            snapshot.wf(),
            graph == snapshot.graph(),
            copied == copied_classes(affected@, map@.dom()),
            region@ == postorder_of(graph, copied, root),
            order@ == naming_order(graph, copied, region@),
            copyable@ == order@.to_set(),
            forall|q: int|
                0 <= q < region@.len() ==> graph.contains_key(#[trigger] region@[q]),
            forall|class: u32, k: int|
                graph.contains_key(class) && 0 <= k < graph[class].len() ==> (
                #[trigger] graph[class][k]).ctor < names@.len(),
            forall|q: int|
                0 <= q < r ==> !blocked(graph, copied, order@.to_set(), #[trigger] region@[q]),
    {
        let eclass = region[r];
        assert(graph.contains_key(region@[r as int]));
        match snapshot.index.get(&eclass) {
            None => {
                assert(false);
            },
            Some(position) => {
                let nodes = &snapshot.classes[*position].nodes;
                assert(nodes@ == graph[eclass]);
                let mut constructors: Vec<String> = Vec::new();
                let mut any = false;
                for k in 0..nodes.len()
                    invariant
                        copied == copied_classes(affected@, map@.dom()),
                        copyable@ == order@.to_set(),
                        graph.contains_key(eclass),
                        nodes@ == graph[eclass],
                        forall|class: u32, j: int|
                            graph.contains_key(class) && 0 <= j < graph[class].len() ==> (
                            #[trigger] graph[class][j]).ctor < names@.len(),
                        ascending(constructors@),
                        any <==> exists|j: int|
                            0 <= j < k && !node_ready(
                                copied,
                                order@.to_set(),
                                #[trigger] nodes@[j],
                            ),
                        forall|text: Seq<char>| #[trigger]
                            lists(constructors@, text) <==> exists|j: int|
                                0 <= j < k && !node_ready(
                                    copied,
                                    order@.to_set(),
                                    #[trigger] nodes@[j],
                                ) && names@[nodes@[j].ctor as int]@ == text,
                {
                    let ready = row_ready(&nodes[k], map, affected, &copyable);
                    assert(graph[eclass][k as int].ctor < names@.len());
                    if !ready {
                        let ghost was = constructors@;
                        let name = &names[nodes[k].ctor];
                        insert_ascending(&mut constructors, name.as_str());
                        any = true;
                        proof {
                            assert(!node_ready(copied, order@.to_set(), nodes@[k as int]));
                            assert forall|text: Seq<char>| #[trigger]
                                lists(constructors@, text) <==> exists|j: int|
                                    0 <= j < k + 1 && !node_ready(
                                        copied,
                                        order@.to_set(),
                                        #[trigger] nodes@[j],
                                    ) && names@[nodes@[j].ctor as int]@ == text by {
                                assert(lists(constructors@, text) <==> lists(was, text) || text
                                    == name@);
                            }
                        }
                    }
                }
                if any {
                    assert(blocked(graph, copied, order@.to_set(), eclass));
                    let found = Blocked { eclass, constructors };
                    proof {
                        assert(region@[r as int] == found.eclass);
                        assert forall|text: Seq<char>| #[trigger]
                            lists(found.constructors@, text) <==> names_blocked_row(
                                graph,
                                copied,
                                order@.to_set(),
                                eclass,
                                names@,
                                text,
                            ) by {
                            if names_blocked_row(
                                graph,
                                copied,
                                order@.to_set(),
                                eclass,
                                names@,
                                text,
                            ) {
                                let j = choose|j: int|
                                    0 <= j < graph[eclass].len() && !node_ready(
                                        copied,
                                        order@.to_set(),
                                        #[trigger] graph[eclass][j],
                                    ) && names@[graph[eclass][j].ctor as int]@ == text;
                                assert(!node_ready(copied, order@.to_set(), nodes@[j]));
                            }
                            if lists(found.constructors@, text) {
                                let j = choose|j: int|
                                    0 <= j < nodes@.len() && !node_ready(
                                        copied,
                                        order@.to_set(),
                                        #[trigger] nodes@[j],
                                    ) && names@[nodes@[j].ctor as int]@ == text;
                                assert(!node_ready(copied, order@.to_set(), graph[eclass][j]));
                            }
                        }
                    }
                    return Err(found);
                }
            },
        }
    }
    Ok(order)
}

/// Each e-class is named from a row that needs only what was named before it.
pub open spec fn grounded(
    graph: Map<u32, Seq<ENode>>,
    copied: Set<u32>,
    named: Seq<u32>,
) -> bool {
    forall|i: int|
        0 <= i < named.len() ==> nameable(
            graph,
            copied,
            named.take(i).to_set(),
            #[trigger] named[i],
        )
}

proof fn lemma_sweep_grounded(
    graph: Map<u32, Seq<ENode>>,
    copied: Set<u32>,
    region: Seq<u32>,
    named: Seq<u32>,
    rank: int,
)
    requires
        0 <= rank,
        grounded(graph, copied, named),
    ensures
        grounded(graph, copied, sweep(graph, copied, region, named, rank)),
    decreases region.len() - rank,
{
    if rank < region.len() {
        if due(graph, copied, region, named, rank) {
            let next = named.push(region[rank]);
            assert forall|i: int| 0 <= i < next.len() implies nameable(
                graph,
                copied,
                next.take(i).to_set(),
                #[trigger] next[i],
            ) by {
                assert(next.take(i) =~= named.take(i));
                if i < named.len() {
                    assert(nameable(graph, copied, named.take(i).to_set(), named[i]));
                } else {
                    assert(named.take(i) =~= named);
                }
            }
            lemma_sweep_grounded(graph, copied, region, next, rank + 1);
        } else {
            lemma_sweep_grounded(graph, copied, region, named, rank + 1);
        }
    }
}

/// A sweep that names nothing found nothing to name.
proof fn lemma_idle_sweep(
    graph: Map<u32, Seq<ENode>>,
    copied: Set<u32>,
    region: Seq<u32>,
    named: Seq<u32>,
    from: int,
    rank: int,
)
    requires
        0 <= from <= rank < region.len(),
        partly_named(region, named),
        sweep(graph, copied, region, named, from).len() == named.len(),
    ensures
        !due(graph, copied, region, named, rank),
    decreases rank - from,
{
    if due(graph, copied, region, named, from) {
        let next = named.push(region[from]);
        lemma_named_next(region, named, from);
        lemma_sweep_appends(graph, copied, region, next, from + 1);
    } else if from < rank {
        lemma_idle_sweep(graph, copied, region, named, from + 1, rank);
    }
}

proof fn lemma_sweeps(
    graph: Map<u32, Seq<ENode>>,
    copied: Set<u32>,
    region: Seq<u32>,
    named: Seq<u32>,
)
    requires
        partly_named(region, named),
        grounded(graph, copied, named),
    ensures
        ({
            let order = sweeps(graph, copied, region, named);
            &&& partly_named(region, order)
            &&& grounded(graph, copied, order)
            &&& forall|rank: int|
                0 <= rank < region.len() ==> !#[trigger] due(graph, copied, region, order, rank)
        }),
    decreases region.len() - named.len(),
{
    let next = sweep(graph, copied, region, named, 0);
    lemma_sweep_appends(graph, copied, region, named, 0);
    lemma_sweep_grounded(graph, copied, region, named, 0);
    lemma_partly_named_len(region, next);
    if named.len() < next.len() {
        lemma_sweeps(graph, copied, region, next);
    } else {
        assert forall|rank: int| 0 <= rank < region.len() implies !#[trigger] due(
            graph,
            copied,
            region,
            named,
            rank,
        ) by {
            lemma_idle_sweep(graph, copied, region, named, 0, rank);
        }
    }
}

/// The naming order lists e-classes of the region, each once. Each is named
/// from a row whose references to copies come before it, and no e-class that
/// is left out could be named.
pub proof fn lemma_naming_order(graph: Map<u32, Seq<ENode>>, copied: Set<u32>, region: Seq<u32>)
    ensures
        partly_named(region, naming_order(graph, copied, region)),
        grounded(graph, copied, naming_order(graph, copied, region)),
        forall|rank: int|
            0 <= rank < region.len() && !naming_order(graph, copied, region).contains(
                #[trigger] region[rank],
            ) ==> !nameable(
                graph,
                copied,
                naming_order(graph, copied, region).to_set(),
                region[rank],
            ),
{
    lemma_sweeps(graph, copied, region, Seq::empty());
    let order = naming_order(graph, copied, region);
    assert forall|rank: int| 0 <= rank < region.len() && !order.contains(
        #[trigger] region[rank],
    ) implies !nameable(graph, copied, order.to_set(), region[rank]) by {
        assert(!due(graph, copied, region, order, rank));
    }
}

/// If no row of the region is blocked, every e-class of it that has a row is
/// named.
pub proof fn lemma_unblocked_region_is_named(
    graph: Map<u32, Seq<ENode>>,
    copied: Set<u32>,
    region: Seq<u32>,
    class: u32,
)
    requires
        region.contains(class),
        graph[class].len() > 0,
        !blocked(graph, copied, naming_order(graph, copied, region).to_set(), class),
    ensures
        naming_order(graph, copied, region).contains(class),
{
    lemma_naming_order(graph, copied, region);
    let rank = region.index_of(class);
    assert(region[rank] == class);
    let named = naming_order(graph, copied, region).to_set();
    assert(node_ready(copied, named, graph[class][0]));
    assert(nameable(graph, copied, named, class));
}

/// Whether the region can be copied does not depend on the order of the
/// naming: whatever is named from rows that need only what was named before is
/// named in the end.
pub proof fn lemma_naming_order_is_greatest(
    graph: Map<u32, Seq<ENode>>,
    copied: Set<u32>,
    region: Seq<u32>,
    other: Seq<u32>,
    i: int,
)
    requires
        partly_named(region, other),
        grounded(graph, copied, other),
        0 <= i < other.len(),
    ensures
        naming_order(graph, copied, region).contains(other[i]),
    decreases i,
{
    lemma_naming_order(graph, copied, region);
    let order = naming_order(graph, copied, region);
    let class = other[i];
    if !order.contains(class) {
        let rank = region.index_of(class);
        assert(region[rank] == class);
        let some = other.take(i).to_set();
        let k = choose|k: int|
            0 <= k < graph[class].len() && node_ready(copied, some, #[trigger] graph[class][k]);
        let deps = graph[class][k].deps@;
        assert forall|d: int| 0 <= d < deps.len() implies resolved(
            copied,
            order.to_set(),
            #[trigger] deps[d],
        ) by {
            assert(resolved(copied, some, deps[d]));
            if some.contains(deps[d]) {
                let j = other.take(i).index_of(deps[d]);
                lemma_naming_order_is_greatest(graph, copied, region, other, j);
            }
        }
        assert(node_ready(copied, order.to_set(), graph[class][k]));
        assert(nameable(graph, copied, order.to_set(), class));
    }
}

} // verus!

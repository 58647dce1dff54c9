//! Substitution over a reachable sub-e-graph: `(unstable-subst root map)`.
//!
//! The keys and values of the map share one eq-sort. They are applied
//! simultaneously while the affected constructor rows are copied. What the
//! substitution does not change is shared with the original.

pub mod carried;
pub mod collect;
pub mod copy;
pub mod forecast;
pub mod graph;
pub mod meaning;
pub mod order;
pub mod plan;
pub mod reasons;
pub mod state;
pub mod turns;
pub mod typing;

use std::collections::BTreeMap;
use vstd::prelude::*;
use crate::subst::collect::{
    are_rows, collect, constructors, found_rows, is_collected, is_row, is_shaped, lists_constructors,
    read_from, Constructor,
};
use crate::subst::copy::{
    build, images_of, is_built, is_copyable, is_plan, lemma_copyable_persists, lemma_naming_rows_len,
    lemma_read_is_copyable, CopiedRow,
};
use crate::subst::forecast::{foresee, lacks_copy, naming_positions};
use crate::subst::graph::{
    affected_classes, class_deps, edge, is_affected, leads_to_key, mark, ENode,
};
use crate::subst::meaning::lemma_image_of;
use crate::subst::order::{copied_classes, lemma_postorder_is_region, postorder_of};
use crate::subst::plan::{
    blocked, lemma_naming_order, lemma_unblocked_region_is_named, naming_order, node_ready, plan,
    Blocked,
};
use crate::subst::state::{
    constructor_sorts, map_contents, map_entries, owns, persists, staged, Edit,
};
use crate::text::{decimal, decimal_text, join, joined, texts};

verus! {

broadcast use {
    vstd::std_specs::hash::group_hash_axioms,
    vstd::std_specs::btree::group_btree_axioms,
};

/// What a substitution gives.
pub struct Substitution {
    /// The root of the copy.
    pub image: u32,
    /// The copied rows, in the order in which they were written.
    pub copies: Vec<CopiedRow>,
}

/// Why a substitution was not carried out.
pub enum Failure {
    /// The second argument of the primitive is no map.
    NotAMap,
    /// A cycle that nothing grounds. Nothing was written.
    Ungrounded(Blocked),
    /// A subsumed row whose copy is not committed, and so cannot be subsumed.
    /// Nothing was written.
    Uncommitted(Unsubsumable),
}

/// A subsumed row whose copy is not committed.
pub struct Unsubsumable {
    /// The e-class of the row.
    pub eclass: u32,
    /// The constructor of the row.
    pub constructor: String,
}

impl Unsubsumable {
    /// The row is one of the e-classes of `order`. It is subsumed, and its copy is
    /// not committed.
    pub open spec fn describes(
        &self,
        state: egglog::FullState<'_, '_>,
        graph: Map<u32, Seq<ENode>>,
        list: Seq<Constructor>,
        map: Map<u32, u32>,
        affected: Set<u32>,
        order: Seq<u32>,
    ) -> bool {
        exists|known: Map<u32, u32>, row: int|
            {
                &&& #[trigger] lacks_copy(
                    state,
                    graph,
                    list,
                    map,
                    affected,
                    order,
                    known,
                    self.eclass,
                    row,
                )
                &&& self.constructor@ == list[graph[self.eclass][row].ctor as int].name@
            }
    }
}

/// The names of the constructors.
pub open spec fn constructor_names(list: Seq<Constructor>) -> Seq<String> {
    list.map_values(|constructor: Constructor| constructor.name)
}

/// What substituting in the collected graph gives, and what was written.
pub open spec fn is_outcome(
    before: egglog::FullState<'_, '_>,
    after: egglog::FullState<'_, '_>,
    graph: Map<u32, Seq<ENode>>,
    list: Seq<Constructor>,
    map: Map<u32, u32>,
    root: u32,
    result: Result<Substitution, Failure>,
    written: Seq<Edit>,
) -> bool {
    let affected = affected_classes(graph, map.dom());
    let copied = copied_classes(affected, map.dom());
    let region = postorder_of(graph, copied, root);
    let order = naming_order(graph, copied, region);
    match result {
        Ok(done) => if affected.contains(root) {
            &&& forall|rank: int|
                0 <= rank < region.len() ==> !blocked(
                    graph,
                    copied,
                    order.to_set(),
                    #[trigger] region[rank],
                )
            &&& is_built(
                before,
                after,
                graph,
                list,
                map,
                affected,
                order,
                done.copies@,
                written,
            )
            &&& images_of(order, done.copies@).contains_key(root)
            &&& done.image == images_of(order, done.copies@)[root]
        } else {
            &&& after == before
            &&& done.image == root
            &&& done.copies@.len() == 0
            &&& written.len() == 0
        },
        Err(Failure::Ungrounded(found)) => {
            &&& affected.contains(root)
            &&& found.describes(graph, copied, region, constructor_names(list))
            &&& after == before
            &&& written.len() == 0
        },
        Err(Failure::Uncommitted(found)) => {
            &&& affected.contains(root)
            &&& forall|rank: int|
                0 <= rank < region.len() ==> !blocked(
                    graph,
                    copied,
                    order.to_set(),
                    #[trigger] region[rank],
                )
            &&& found.describes(after, graph, list, map, affected, order)
            &&& persists(before, after)
            &&& written.len() == 0
        },
        Err(Failure::NotAMap) => false,
    }
}

/// What substituting `map` from `root` on gives, and what it does to the
/// state.
pub open spec fn is_substituted(
    before: egglog::FullState<'_, '_>,
    after: egglog::FullState<'_, '_>,
    root: u32,
    map: Map<u32, u32>,
    result: Result<Substitution, Failure>,
) -> bool {
    &&& staged(before).is_prefix_of(staged(after))
    &&& map.contains_key(root) || map.dom() == Set::<u32>::empty() ==> {
        &&& after == before
        &&& result matches Ok(done)
        &&& done.image == (if map.contains_key(root) {
            map[root]
        } else {
            root
        })
        &&& done.copies@.len() == 0
    }
    &&& !map.contains_key(root) && map.dom() != Set::<u32>::empty() ==> exists|
        list: Seq<Constructor>,
        graph: Map<u32, Seq<ENode>>,
    |
        {
            &&& #[trigger] lists_constructors(before, list)
            &&& #[trigger] is_collected(before, list, root, graph)
            &&& is_outcome(
                before,
                after,
                graph,
                list,
                map,
                root,
                result,
                staged(after).skip(staged(before).len() as int),
            )
        }
}

/// An affected e-class was reached.
pub proof fn lemma_affected_reached(graph: Map<u32, Seq<ENode>>, keys: Set<u32>, class: u32)
    requires
        is_affected(graph, keys, class),
    ensures
        graph.contains_key(class),
        !keys.contains(class) ==> graph[class].len() > 0,
{
    let path = choose|path: Seq<u32>| leads_to_key(graph, keys, class, path);
    if path.len() > 1 {
        assert(edge(graph, path[0], path[0int + 1]));
        assert(class_deps(graph[class]).len() > 0);
    }
}

/// If no row of the region is blocked, the naming order is one in which every
/// row can be copied, and it names `root`.
pub proof fn lemma_unblocked_plan(graph: Map<u32, Seq<ENode>>, copied: Set<u32>, root: u32)
    requires
        copied.finite(),
        copied.contains(root),
        copied.subset_of(graph.dom()),
        graph[root].len() > 0,
        ({
            let region = postorder_of(graph, copied, root);
            let order = naming_order(graph, copied, region);
            forall|rank: int|
                0 <= rank < region.len() ==> !blocked(
                    graph,
                    copied,
                    order.to_set(),
                    #[trigger] region[rank],
                )
        }),
    ensures
        is_plan(graph, copied, naming_order(graph, copied, postorder_of(graph, copied, root))),
        naming_order(graph, copied, postorder_of(graph, copied, root)).contains(root),
{
    let region = postorder_of(graph, copied, root);
    let order = naming_order(graph, copied, region);
    lemma_postorder_is_region(graph, copied, root);
    lemma_naming_order(graph, copied, region);
    assert forall|i: int| 0 <= i < order.len() implies graph.contains_key(#[trigger] order[i]) by {
        assert(region.contains(order[i]));
    }
    assert forall|i: int, k: int|
        0 <= i < order.len() && 0 <= k < graph[order[i]].len() implies node_ready(
        copied,
        order.to_set(),
        #[trigger] graph[order[i]][k],
    ) by {
        let rank = region.index_of(order[i]);
        assert(region.contains(order[i]));
        assert(region[rank] == order[i]);
        assert(!blocked(graph, copied, order.to_set(), region[rank]));
    }
    assert(region[region.len() - 1] == root);
    assert(region.contains(root));
    assert(!blocked(graph, copied, order.to_set(), region[region.len() - 1]));
    lemma_unblocked_region_is_named(graph, copied, region, root);
}

/// The rows of a collected graph can be copied as far as the state goes.
pub proof fn lemma_collected_is_copyable(
    state: egglog::FullState<'_, '_>,
    list: Seq<Constructor>,
    root: u32,
    graph: Map<u32, Seq<ENode>>,
    class: u32,
    k: int,
)
    requires
        lists_constructors(state, list),
        is_collected(state, list, root, graph),
        graph.contains_key(class),
        0 <= k < graph[class].len(),
    ensures
        is_copyable(state, list, graph[class][k]),
        graph[class][k].ctor < list.len(),
{
    let sorts = choose|sorts: Map<u32, Option<Seq<char>>>| read_from(
        state,
        list,
        root,
        graph,
        sorts,
    );
    let rows = found_rows(state, list, class, sorts[class]);
    assert(are_rows(state, list, graph[class], rows));
    assert(is_row(state, list, graph[class][k], rows[k]));
    assert(constructor_sorts(state, list[rows[k].0].name@) is Some);
    lemma_read_is_copyable(state, list, graph[class][k], rows[k]);
}

/// Substitutes `map` through the sub-e-graph reachable from `root`.
///
/// A root that is a key gives its target, and an empty map gives the root,
/// without a walk. Otherwise the rows that `root` reaches are read. If none of
/// them leads to a key, the root comes back unchanged. If the affected rows
/// cannot all be copied, or the copy of a subsumed row is not committed so that it
/// could not be subsumed, that is the failure, and nothing is written.
pub fn substitute(
    state: &mut egglog::FullState<'_, '_>,
    root: u32,
    map: &BTreeMap<u32, u32>,
) -> (result: Result<Substitution, Failure>)
    requires
        owns(*old(state)),
    ensures
        is_substituted(*old(state), *final(state), root, map@, result),
{
    let ghost base = *state;
    assert(staged(base).skip(staged(base).len() as int) =~= Seq::<Edit>::empty());
    match map.get(&root) {
        Some(target) => {
            return Ok(Substitution { image: *target, copies: Vec::new() });
        },
        None => {},
    }
    if map.is_empty() {
        assert(map@.dom() =~= Set::<u32>::empty());
        return Ok(Substitution { image: root, copies: Vec::new() });
    }
    let list = constructors(state);
    let snapshot = collect(state, &list, root);
    let ghost graph = snapshot.graph();
    let affected = mark(&snapshot, map);
    let ghost copied = copied_classes(affected@, map@.dom());
    if !affected.contains(&root) {
        let done = Substitution { image: root, copies: Vec::new() };
        proof {
            assert(lists_constructors(base, list@));
            assert(is_outcome(
                base,
                *state,
                graph,
                list@,
                map@,
                root,
                Ok(done),
                staged(base).skip(staged(base).len() as int),
            ));
        }
        return Ok(done);
    }
    proof {
        assert forall|class: u32| copied.contains(class) implies graph.contains_key(class) by {
            lemma_affected_reached(graph, map@.dom(), class);
        }
        assert forall|class: u32, k: int|
            graph.contains_key(class) && 0 <= k < graph[class].len() implies {
            &&& (#[trigger] graph[class][k]).ctor < list@.len()
            &&& is_copyable(base, list@, graph[class][k])
        } by {
            lemma_collected_is_copyable(base, list@, root, graph, class, k);
        }
        lemma_affected_reached(graph, map@.dom(), root);
        assert(copied =~= snapshot.index@.dom().intersect(copied));
    }
    let mut names: Vec<String> = Vec::new();
    for i in 0..list.len()
        invariant
            names@ == constructor_names(list@).take(i as int),
    {
        names.push(list[i].name.clone());
        assert(names@ =~= constructor_names(list@).take(i + 1));
    }
    assert(names@ =~= constructor_names(list@));
    let order = match plan(&snapshot, map, &affected, &names, root) {
        Ok(order) => order,
        Err(found) => {
            proof {
                assert(lists_constructors(base, list@));
                assert(is_outcome(
                    base,
                    *state,
                    graph,
                    list@,
                    map@,
                    root,
                    Err(Failure::Ungrounded(found)),
                    staged(base).skip(staged(base).len() as int),
                ));
            }
            return Err(Failure::Ungrounded(found));
        },
    };
    proof {
        lemma_unblocked_plan(graph, copied, root);
    }
    let firsts = naming_positions(&snapshot, map, &affected, &order);
    let known = match foresee(state, &snapshot, &list, map, &affected, &order, &firsts) {
        Ok(known) => known,
        Err(missing) => {
            proof {
                let at = order@.index_of(missing.eclass);
                assert(graph.contains_key(order@[at]));
            }
            let constructor = match snapshot.index.get(&missing.eclass) {
                None => vstd::pervasive::unreached(),
                Some(position) => {
                    let nodes = &snapshot.classes[*position].nodes;
                    assert(nodes@ == graph[missing.eclass]);
                    list[nodes[missing.row].ctor].name.clone()
                },
            };
            let found = Unsubsumable { eclass: missing.eclass, constructor };
            proof {
                let known = choose|known: Map<u32, u32>| #[trigger]
                    lacks_copy(
                        *state,
                        graph,
                        list@,
                        map@,
                        affected@,
                        order@,
                        known,
                        missing.eclass,
                        missing.row as int,
                    );
                assert(lacks_copy(
                    *state,
                    graph,
                    list@,
                    map@,
                    affected@,
                    order@,
                    known,
                    found.eclass,
                    missing.row as int,
                ));
                assert(found.constructor@ == list@[graph[found.eclass][missing.row as int].ctor as int].name@);
                assert(found.describes(*state, graph, list@, map@, affected@, order@));
                assert(lists_constructors(base, list@));
                assert(is_outcome(
                    base,
                    *state,
                    graph,
                    list@,
                    map@,
                    root,
                    Err(Failure::Uncommitted(found)),
                    staged(base).skip(staged(base).len() as int),
                ));
            }
            return Err(Failure::Uncommitted(found));
        },
    };
    let ghost ready = *state;
    proof {
        assert forall|class: u32, k: int|
            graph.contains_key(class) && 0 <= k < graph[class].len() implies {
            &&& is_copyable(ready, list@, #[trigger] graph[class][k])
            &&& is_shaped(ready, list@, graph[class][k])
        } by {
            assert(is_copyable(base, list@, graph[class][k]));
            assert(is_shaped(base, list@, graph[class][k]));
            lemma_copyable_persists(base, ready, list@, graph[class][k]);
        }
    }
    let copies = build(state, &snapshot, &list, map, &affected, &order, &firsts, &known);
    let mut place: usize = 0;
    while place < order.len() && order[place] != root
        invariant
            place <= order@.len(),
            forall|i: int| 0 <= i < place ==> #[trigger] order@[i] != root,
        decreases order@.len() - place,
    {
        place = place + 1;
    }
    proof {
        let at = order@.index_of(root);
        assert(order@[at] == root);
        lemma_image_of(order@, copies@, place as int);
        lemma_naming_rows_len(graph, copied, order@);
    }
    let image = copies[place].eclass;
    let done = Substitution { image, copies };
    proof {
        assert(lists_constructors(base, list@));
        assert(is_outcome(
            base,
            *state,
            graph,
            list@,
            map@,
            root,
            Ok(done),
            staged(*state).skip(staged(base).len() as int),
        ));
    }
    Ok(done)
}

/// The text that says why a region cannot be copied.
pub open spec fn ungrounded_text(eclass: u32, constructors: Seq<Seq<char>>) -> Seq<char> {
    "unstable-subst: no order copies e-class Value("@ + decimal(eclass as nat)
        + "): its e-nodes ("@ + joined(constructors, ", "@)
        + ") refer to copies that nothing can produce. Every cycle in the substituted region needs at least one e-node whose children all lie outside it."@
}

/// The text that says why a subsumed row cannot be copied.
pub open spec fn uncommitted_text(eclass: u32, constructor: Seq<char>) -> Seq<char> {
    "unstable-subst: the copy of a subsumed e-node ("@ + constructor + ") of e-class Value("@
        + decimal(eclass as nat)
        + ") is not in the e-graph yet, so it cannot be subsumed. Add it in an earlier command."@
}

impl Unsubsumable {
    /// Says why the row cannot be copied.
    pub fn message(&self) -> (text: String)
        ensures
            text@ == uncommitted_text(self.eclass, self.constructor@),
    {
        let mut text = "unstable-subst: the copy of a subsumed e-node (".to_owned();
        text.append(self.constructor.as_str());
        text.append(") of e-class Value(");
        text.append(decimal_text(self.eclass as u128).as_str());
        text.append(
            ") is not in the e-graph yet, so it cannot be subsumed. Add it in an earlier command.",
        );
        text
    }
}

impl Blocked {
    /// Says why the region cannot be copied.
    pub fn message(&self) -> (text: String)
        ensures
            text@ == ungrounded_text(self.eclass, texts(self.constructors@)),
    {
        let mut text = "unstable-subst: no order copies e-class Value(".to_owned();
        text.append(decimal_text(self.eclass as u128).as_str());
        text.append("): its e-nodes (");
        text.append(join(&self.constructors, ", ").as_str());
        text.append(
            ") refer to copies that nothing can produce. Every cycle in the substituted region needs at least one e-node whose children all lie outside it.",
        );
        text
    }
}

/// The full-context `(unstable-subst root map)` primitive.
///
/// Callers must ensure that substitution preserves the derivation and every
/// premise of each copied equation.
pub struct Subst;

impl Clone for Subst {
    fn clone(&self) -> (copy: Self)
        ensures
            copy == *self,
    {
        Subst
    }
}

impl Subst {
    /// The name of the primitive.
    pub fn name(&self) -> (name: &'static str)
        ensures
            name@ == "unstable-subst"@,
    {
        "unstable-subst"
    }

    /// Applies the primitive to a root and a map value.
    pub fn apply(
        &self,
        state: &mut egglog::FullState<'_, '_>,
        root: u32,
        map: u32,
    ) -> (result: Result<Substitution, Failure>)
        requires
            owns(*old(state)),
        ensures
            match map_contents(*old(state), map) {
                Some(entries) => is_substituted(
                    *old(state),
                    *final(state),
                    root,
                    entries,
                    result,
                ),
                None => result matches Err(Failure::NotAMap) && *final(state) == *old(state),
            },
    {
        match map_entries(state, map) {
            Some(entries) => substitute(state, root, &entries),
            None => Err(Failure::NotAMap),
        }
    }
}

} // verus!

//! Which copies are committed before anything is copied.
//!
//! A row that is subsumed is to stay so in the copy, and only a row that is
//! committed can be subsumed. So before the first write it is found out what the
//! copies of the subsumed rows will be, as far as they are committed.

use std::collections::{BTreeMap, HashMap, HashSet};
use vstd::prelude::*;
use crate::subst::collect::{all_shaped, is_shaped, Constructor};
use crate::subst::copy::{
    all_imaged, are_images, carries, class_image, copy_inputs, eclass_image, first_ready, has_copy,
    is_copyable, is_plan, lemma_copyable_persists, lemma_first_ready, lemma_images_carry,
    lemma_images_unique,
};
use crate::subst::graph::{leaves, ENode, Snapshot};
use crate::subst::order::copied_classes;
use crate::subst::plan::{nameable, node_ready, resolved, row_ready};
use crate::subst::state::{class_at, eclass_of, owns, persists, staged};

verus! {

broadcast use {
    vstd::std_specs::hash::group_hash_axioms,
    vstd::std_specs::btree::group_btree_axioms,
};

/// The e-class of the committed row that is the copy of the row, if there is one.
/// A copy is not committed if the copy of something it refers to is not.
pub open spec fn stands(
    state: egglog::FullState<'_, '_>,
    list: Seq<Constructor>,
    map: Map<u32, u32>,
    affected: Set<u32>,
    known: Map<u32, u32>,
    node: ENode,
    found: Option<u32>,
) -> bool {
    if all_imaged(map, affected, known, leaves(node.children@)) {
        exists|inputs: Seq<u32>|
            {
                &&& #[trigger] are_images(state, map, affected, known, node.children@, inputs)
                &&& class_at(state, list[node.ctor as int].name@, inputs) == found
            }
    } else {
        found is None
    }
}

/// The value of the map, if it has one.
pub open spec fn entry(known: Map<u32, u32>, class: u32) -> Option<u32> {
    if known.contains_key(class) {
        Some(known[class])
    } else {
        None
    }
}

/// The row that names the e-class at position `i` of the order.
pub open spec fn naming_row(
    graph: Map<u32, Seq<ENode>>,
    copied: Set<u32>,
    order: Seq<u32>,
    i: int,
) -> int {
    first_ready(graph[order[i]], copied, order.take(i).to_set(), 0)
}

/// `known` has the images of those e-classes of the order whose naming rows have
/// copies that are committed.
pub open spec fn is_forecast(
    state: egglog::FullState<'_, '_>,
    graph: Map<u32, Seq<ENode>>,
    list: Seq<Constructor>,
    map: Map<u32, u32>,
    affected: Set<u32>,
    order: Seq<u32>,
    known: Map<u32, u32>,
) -> bool {
    let copied = copied_classes(affected, map.dom());
    &&& known.dom().subset_of(order.to_set())
    &&& forall|i: int|
        0 <= i < order.len() ==> stands(
            state,
            list,
            map,
            affected,
            known,
            graph[#[trigger] order[i]][naming_row(graph, copied, order, i)],
            entry(known, order[i]),
        )
}

/// Some row of the e-classes of the order is subsumed.
pub open spec fn has_subsumed(graph: Map<u32, Seq<ENode>>, order: Seq<u32>) -> bool {
    exists|i: int, k: int|
        0 <= i < order.len() && 0 <= k < graph[order[i]].len() && (
        #[trigger] graph[order[i]][k]).subsumed
}

/// The copies of the subsumed rows are committed.
pub open spec fn all_stand(
    state: egglog::FullState<'_, '_>,
    graph: Map<u32, Seq<ENode>>,
    list: Seq<Constructor>,
    map: Map<u32, u32>,
    affected: Set<u32>,
    order: Seq<u32>,
    known: Map<u32, u32>,
) -> bool {
    has_subsumed(graph, order) ==> {
        &&& is_forecast(state, graph, list, map, affected, order, known)
        &&& forall|i: int, k: int|
            0 <= i < order.len() && 0 <= k < graph[order[i]].len() && (
            #[trigger] graph[order[i]][k]).subsumed ==> exists|class: u32| #[trigger]
                stands(state, list, map, affected, known, graph[order[i]][k], Some(class))
    }
}

/// The row is subsumed, and its copy is not committed.
pub open spec fn lacks_copy(
    state: egglog::FullState<'_, '_>,
    graph: Map<u32, Seq<ENode>>,
    list: Seq<Constructor>,
    map: Map<u32, u32>,
    affected: Set<u32>,
    order: Seq<u32>,
    known: Map<u32, u32>,
    class: u32,
    row: int,
) -> bool {
    &&& is_forecast(state, graph, list, map, affected, order, known)
    &&& order.contains(class)
    &&& 0 <= row < graph[class].len()
    &&& graph[class][row].subsumed
    &&& stands(state, list, map, affected, known, graph[class][row], None)
}

/// What the row refers to keeps what stands for it, if the e-classes that are
/// named do.
pub(crate) proof fn lemma_ready_carries(
    map: Map<u32, u32>,
    affected: Set<u32>,
    known: Map<u32, u32>,
    images: Map<u32, u32>,
    named: Set<u32>,
    node: ENode,
)
    requires
        node_ready(copied_classes(affected, map.dom()), named, node),
        node.deps@ == leaves(node.children@),
        forall|class: u32|
            named.contains(class) && known.contains_key(class) ==> entry(images, class)
                == #[trigger] entry(known, class),
    ensures
        carries(map, affected, known, images, leaves(node.children@)),
{
    let list = leaves(node.children@);
    assert forall|i: int| 0 <= i < list.len() implies {
        let image = class_image(map, affected, known, #[trigger] list[i]);
        image is Some ==> class_image(map, affected, images, list[i]) == image
    } by {
        assert(resolved(copied_classes(affected, map.dom()), named, node.deps@[i]));
        assert(entry(known, list[i]) == entry(known, list[i]));
    }
}

/// The copy that stands is the one that the columns give.
pub(crate) proof fn lemma_copy_stands(
    before: egglog::FullState<'_, '_>,
    after: egglog::FullState<'_, '_>,
    list: Seq<Constructor>,
    map: Map<u32, u32>,
    affected: Set<u32>,
    known: Map<u32, u32>,
    images: Map<u32, u32>,
    node: ENode,
    class: u32,
)
    requires
        persists(before, after),
        carries(map, affected, known, images, leaves(node.children@)),
        stands(before, list, map, affected, known, node, Some(class)),
    ensures
        has_copy(after, list, map, affected, images, node),
        forall|inputs: Seq<u32>| #[trigger]
            are_images(after, map, affected, images, node.children@, inputs) ==> class_at(
                after,
                list[node.ctor as int].name@,
                inputs,
            ) == Some(class),
{
    let found = choose|inputs: Seq<u32>|
        {
            &&& #[trigger] are_images(before, map, affected, known, node.children@, inputs)
            &&& class_at(before, list[node.ctor as int].name@, inputs) == Some(class)
        };
    lemma_images_carry(before, after, map, affected, known, images, node.children@, found);
    assert forall|inputs: Seq<u32>| #[trigger]
        are_images(after, map, affected, images, node.children@, inputs) implies class_at(
        after,
        list[node.ctor as int].name@,
        inputs,
    ) == Some(class) by {
        lemma_images_unique(after, map, affected, images, node.children@, found, inputs);
    }
}

/// Whether the copy of a row is committed stays what it is when something is
/// interned and e-classes get images that the row does not wait for.
proof fn lemma_stands_stays(
    before: egglog::FullState<'_, '_>,
    after: egglog::FullState<'_, '_>,
    list: Seq<Constructor>,
    map: Map<u32, u32>,
    affected: Set<u32>,
    known: Map<u32, u32>,
    more: Map<u32, u32>,
    node: ENode,
    found: Option<u32>,
)
    requires
        persists(before, after),
        stands(before, list, map, affected, known, node, found),
        forall|i: int|
            0 <= i < leaves(node.children@).len() ==> class_image(
                map,
                affected,
                known,
                #[trigger] leaves(node.children@)[i],
            ) == class_image(map, affected, more, leaves(node.children@)[i]),
    ensures
        stands(after, list, map, affected, more, node, found),
{
    let list_of = leaves(node.children@);
    if all_imaged(map, affected, known, list_of) {
        let inputs = choose|inputs: Seq<u32>|
            {
                &&& #[trigger] are_images(before, map, affected, known, node.children@, inputs)
                &&& class_at(before, list[node.ctor as int].name@, inputs) == found
            };
        lemma_images_carry(before, after, map, affected, known, more, node.children@, inputs);
    } else {
        let i = choose|i: int|
            0 <= i < list_of.len() && class_image(
                map,
                affected,
                known,
                #[trigger] list_of[i],
            ) is None;
        assert(class_image(map, affected, more, list_of[i]) is None);
    }
}

/// Finds the committed row that is the copy of a row. Whatever container it
/// interns, it writes no row.
fn find_copy(
    state: &mut egglog::FullState<'_, '_>,
    list: &Vec<Constructor>,
    map: &BTreeMap<u32, u32>,
    affected: &HashSet<u32>,
    known: &HashMap<u32, u32>,
    node: &ENode,
) -> (found: Option<u32>)
    requires
        owns(*old(state)),
        is_copyable(*old(state), list@, *node),
        is_shaped(*old(state), list@, *node),
    ensures
        persists(*old(state), *final(state)),
        staged(*final(state)) == staged(*old(state)),
        stands(*final(state), list@, map@, affected@, known@, *node, found),
{
    for j in 0..node.deps.len()
        invariant
            *state == *old(state),
            node.deps@ == leaves(node.children@),
            forall|i: int|
                0 <= i < j ==> class_image(map@, affected@, known@, #[trigger] node.deps@[i]) is Some,
    {
        if eclass_image(map, affected, known, node.deps[j]).is_none() {
            assert(class_image(map@, affected@, known@, leaves(node.children@)[j as int]) is None);
            return None;
        }
    }
    let inputs = copy_inputs(state, list, map, affected, known, node);
    match eclass_of(state, list[node.ctor].name.as_str(), &inputs) {
        Ok(found) => found,
        Err(_) => vstd::pervasive::unreached(),
    }
}

/// Finds for each e-class of the order the first of its rows that can be copied
/// when it is named.
pub fn naming_positions(
    snapshot: &Snapshot,
    map: &BTreeMap<u32, u32>,
    affected: &HashSet<u32>,
    order: &Vec<u32>,
) -> (firsts: Vec<usize>)
    requires
        snapshot.wf(),
        is_plan(snapshot.graph(), copied_classes(affected@, map@.dom()), order@),
    ensures
        are_naming(snapshot.graph(), copied_classes(affected@, map@.dom()), order@, firsts@),
{
    let ghost graph = snapshot.graph();
    let ghost copied = copied_classes(affected@, map@.dom());
    let mut firsts: Vec<usize> = Vec::new();
    let mut named: HashSet<u32> = HashSet::new();
    assert(named@ =~= order@.take(0).to_set());
    for i in 0..order.len()
        invariant
            snapshot.wf(),
            graph == snapshot.graph(),
            copied == copied_classes(affected@, map@.dom()),
            is_plan(graph, copied, order@),
            named@ == order@.take(i as int).to_set(),
            firsts@.len() == i,
            forall|j: int| 0 <= j < i ==> is_naming(graph, copied, order@, j, #[trigger] firsts@[j]),
    {
        let class = order[i];
        let ghost front = order@.take(i as int);
        assert(graph.contains_key(order@[i as int]));
        match snapshot.index.get(&class) {
            None => {
                assert(false);
            },
            Some(position) => {
                let nodes = &snapshot.classes[*position].nodes;
                assert(nodes@ == graph[class]);
                proof {
                    assert(nameable(graph, copied, front.to_set(), order@[i as int]));
                    let ready = choose|k: int|
                        0 <= k < graph[class].len() && node_ready(
                            copied,
                            front.to_set(),
                            #[trigger] graph[class][k],
                        );
                    lemma_first_ready(nodes@, copied, front.to_set(), 0, ready);
                }
                let mut k: usize = 0;
                while k < nodes.len() && !row_ready(&nodes[k], map, affected, &named)
                    invariant
                        copied == copied_classes(affected@, map@.dom()),
                        named@ == front.to_set(),
                        k <= nodes@.len(),
                        first_ready(nodes@, copied, front.to_set(), 0) == first_ready(
                            nodes@,
                            copied,
                            front.to_set(),
                            k as int,
                        ),
                    decreases nodes@.len() - k,
                {
                    k = k + 1;
                }
                named.insert(class);
                firsts.push(k);
                proof {
                    let next = order@.take(i + 1);
                    assert(next =~= front.push(class));
                    assert forall|other: u32| next.to_set().contains(other) <==> front.to_set().insert(
                        class,
                    ).contains(other) by {
                        crate::lists::lemma_push_contains(front, class, other);
                    }
                    assert(named@ =~= next.to_set());
                    assert(is_naming(graph, copied, order@, i as int, k));
                }
            },
        }
    }
    firsts
}

/// The row at this position names the e-class at position `i` of the order, and
/// refers only to what is named before.
pub open spec fn is_naming(
    graph: Map<u32, Seq<ENode>>,
    copied: Set<u32>,
    order: Seq<u32>,
    i: int,
    first: usize,
) -> bool {
    &&& first == naming_row(graph, copied, order, i)
    &&& first < graph[order[i]].len()
    &&& node_ready(copied, order.take(i).to_set(), graph[order[i]][first as int])
}

/// The rows at these positions name the e-classes of the order.
pub open spec fn are_naming(
    graph: Map<u32, Seq<ENode>>,
    copied: Set<u32>,
    order: Seq<u32>,
    firsts: Seq<usize>,
) -> bool {
    &&& firsts.len() == order.len()
    &&& forall|i: int|
        0 <= i < order.len() ==> is_naming(graph, copied, order, i, #[trigger] firsts[i])
}

/// Finds the images of those e-classes of the order whose naming rows have copies
/// that are committed.
fn forecast(
    state: &mut egglog::FullState<'_, '_>,
    snapshot: &Snapshot,
    list: &Vec<Constructor>,
    map: &BTreeMap<u32, u32>,
    affected: &HashSet<u32>,
    order: &Vec<u32>,
    firsts: &Vec<usize>,
) -> (known: HashMap<u32, u32>)
    requires
        owns(*old(state)),
        snapshot.wf(),
        is_plan(snapshot.graph(), copied_classes(affected@, map@.dom()), order@),
        are_naming(snapshot.graph(), copied_classes(affected@, map@.dom()), order@, firsts@),
        all_copyable(*old(state), list@, snapshot.graph()),
        all_shaped(*old(state), list@, snapshot.graph()),
    ensures
        persists(*old(state), *final(state)),
        staged(*final(state)) == staged(*old(state)),
        is_forecast(
            *final(state),
            snapshot.graph(),
            list@,
            map@,
            affected@,
            order@,
            known@,
        ),
{
    let ghost base = *state;
    let ghost graph = snapshot.graph();
    let ghost copied = copied_classes(affected@, map@.dom());
    let mut known: HashMap<u32, u32> = HashMap::new();
    for i in 0..order.len()
        invariant
            base == *old(state),
            owns(base),
            snapshot.wf(),
            graph == snapshot.graph(),
            copied == copied_classes(affected@, map@.dom()),
            is_plan(graph, copied, order@),
            are_naming(graph, copied, order@, firsts@),
            all_copyable(base, list@, graph),
            all_shaped(base, list@, graph),
            persists(base, *state),
            staged(*state) == staged(base),
            forall|class: u32| #[trigger]
                known@.contains_key(class) ==> order@.take(i as int).contains(class),
            forall|j: int|
                0 <= j < i ==> stands(
                    *state,
                    list@,
                    map@,
                    affected@,
                    known@,
                    graph[#[trigger] order@[j]][naming_row(graph, copied, order@, j)],
                    entry(known@, order@[j]),
                ),
    {
        let class = order[i];
        assert(graph.contains_key(order@[i as int]));
        match snapshot.index.get(&class) {
            None => {
                assert(false);
            },
            Some(position) => {
                let nodes = &snapshot.classes[*position].nodes;
                assert(nodes@ == graph[class]);
                assert(is_naming(graph, copied, order@, i as int, firsts@[i as int]));
                let first = firsts[i];
                let ghost node = graph[class][first as int];
                let ghost had = known@;
                let ghost earlier = *state;
                proof {
                    lemma_copyable_persists(base, *state, list@, node);
                    assert(is_shaped(base, list@, graph[class][first as int]));
                }
                let found = find_copy(state, list, map, affected, &known, &nodes[first]);
                if let Some(image) = found {
                    known.insert(class, image);
                }
                proof {
                    let next = order@.take(i + 1);
                    let front = order@.take(i as int);
                    assert(next =~= front.push(class));
                    assert forall|other: u32| #[trigger]
                        known@.contains_key(other) implies next.contains(other) by {
                        crate::lists::lemma_push_contains(front, class, other);
                    }
                    assert(!had.contains_key(class)) by {
                        if had.contains_key(class) {
                            let j = front.index_of(class);
                            assert(order@[j] == order@[i as int]);
                        }
                    }
                    assert forall|j: int| 0 <= j < i + 1 implies stands(
                        *state,
                        list@,
                        map@,
                        affected@,
                        known@,
                        graph[#[trigger] order@[j]][naming_row(graph, copied, order@, j)],
                        entry(known@, order@[j]),
                    ) by {
                        assert(is_naming(graph, copied, order@, j, firsts@[j]));
                        let own = graph[order@[j]][naming_row(graph, copied, order@, j)];
                        assert(graph.contains_key(order@[j]));
                        assert(is_copyable(base, list@, graph[order@[j]][firsts@[j] as int]));
                        assert forall|l: int|
                            0 <= l < leaves(own.children@).len() implies class_image(
                            map@,
                            affected@,
                            had,
                            #[trigger] leaves(own.children@)[l],
                        ) == class_image(map@, affected@, known@, leaves(own.children@)[l]) by {
                            let leaf = own.deps@[l];
                            assert(resolved(copied, order@.take(j).to_set(), own.deps@[l]));
                            if leaf == class && copied.contains(leaf) {
                                let at = order@.take(j).index_of(leaf);
                                assert(order@[at] == order@[i as int]);
                            }
                        }
                        if j < i {
                            assert(order@[j] != order@[i as int]);
                            lemma_stands_stays(
                                earlier,
                                *state,
                                list@,
                                map@,
                                affected@,
                                had,
                                known@,
                                own,
                                entry(had, order@[j]),
                            );
                        } else {
                            lemma_stands_stays(
                                *state,
                                *state,
                                list@,
                                map@,
                                affected@,
                                had,
                                known@,
                                own,
                                found,
                            );
                        }
                    }
                }
            },
        }
    }
    assert(order@.take(order@.len() as int) =~= order@);
    known
}

/// Every row of the graph can be copied as far as the state goes.
pub open spec fn all_copyable(
    state: egglog::FullState<'_, '_>,
    list: Seq<Constructor>,
    graph: Map<u32, Seq<ENode>>,
) -> bool {
    forall|class: u32, k: int|
        graph.contains_key(class) && 0 <= k < graph[class].len() ==> is_copyable(
            state,
            list,
            #[trigger] graph[class][k],
        )
}

/// Whether some row of the e-classes of the order is subsumed.
fn any_subsumed(snapshot: &Snapshot, order: &Vec<u32>) -> (yes: bool)
    requires
        snapshot.wf(),
        forall|i: int| 0 <= i < order@.len() ==> snapshot.graph().contains_key(#[trigger] order@[i]),
    ensures
        yes == has_subsumed(snapshot.graph(), order@),
{
    let ghost graph = snapshot.graph();
    for i in 0..order.len()
        invariant
            snapshot.wf(),
            graph == snapshot.graph(),
            forall|j: int| 0 <= j < order@.len() ==> graph.contains_key(#[trigger] order@[j]),
            forall|j: int, k: int|
                0 <= j < i && 0 <= k < graph[order@[j]].len() ==> !(
                #[trigger] graph[order@[j]][k]).subsumed,
    {
        assert(graph.contains_key(order@[i as int]));
        match snapshot.index.get(&order[i]) {
            None => {
                assert(false);
            },
            Some(position) => {
                let nodes = &snapshot.classes[*position].nodes;
                assert(nodes@ == graph[order@[i as int]]);
                for k in 0..nodes.len()
                    invariant
                        i < order@.len(),
                        graph == snapshot.graph(),
                        nodes@ == graph[order@[i as int]],
                        forall|j: int| 0 <= j < k ==> !(#[trigger] nodes@[j]).subsumed,
                {
                    if nodes[k].subsumed {
                        assert(graph[order@[i as int]][k as int].subsumed);
                        return true;
                    }
                }
            },
        }
    }
    false
}

/// A subsumed row whose copy is not committed.
pub struct Missing {
    /// The e-class of the row.
    pub eclass: u32,
    /// The position of the row in its e-class.
    pub row: usize,
}

/// The row is subsumed, and its copy is not committed.
pub open spec fn is_missing(
    state: egglog::FullState<'_, '_>,
    graph: Map<u32, Seq<ENode>>,
    list: Seq<Constructor>,
    map: Map<u32, u32>,
    affected: Set<u32>,
    order: Seq<u32>,
    missing: Missing,
) -> bool {
    exists|known: Map<u32, u32>| #[trigger]
        lacks_copy(
            state,
            graph,
            list,
            map,
            affected,
            order,
            known,
            missing.eclass,
            missing.row as int,
        )
}

/// Finds out whether the copies of the subsumed rows are committed, and if not
/// which is the first that is not. Whatever container it interns, it writes no
/// row.
pub fn foresee(
    state: &mut egglog::FullState<'_, '_>,
    snapshot: &Snapshot,
    list: &Vec<Constructor>,
    map: &BTreeMap<u32, u32>,
    affected: &HashSet<u32>,
    order: &Vec<u32>,
    firsts: &Vec<usize>,
) -> (result: Result<HashMap<u32, u32>, Missing>)
    requires
        owns(*old(state)),
        snapshot.wf(),
        is_plan(snapshot.graph(), copied_classes(affected@, map@.dom()), order@),
        are_naming(snapshot.graph(), copied_classes(affected@, map@.dom()), order@, firsts@),
        all_copyable(*old(state), list@, snapshot.graph()),
        all_shaped(*old(state), list@, snapshot.graph()),
    ensures
        persists(*old(state), *final(state)),
        staged(*final(state)) == staged(*old(state)),
        match result {
            Ok(known) => all_stand(
                *final(state),
                snapshot.graph(),
                list@,
                map@,
                affected@,
                order@,
                known@,
            ),
            Err(missing) => is_missing(
                *final(state),
                snapshot.graph(),
                list@,
                map@,
                affected@,
                order@,
                missing,
            ),
        },
{
    let ghost base = *state;
    let ghost graph = snapshot.graph();
    let ghost copied = copied_classes(affected@, map@.dom());
    if !any_subsumed(snapshot, order) {
        return Ok(HashMap::new());
    }
    let known = forecast(state, snapshot, list, map, affected, order, firsts);
    for i in 0..order.len()
        invariant
            base == *old(state),
            owns(base),
            snapshot.wf(),
            graph == snapshot.graph(),
            is_plan(graph, copied, order@),
            all_copyable(base, list@, graph),
            all_shaped(base, list@, graph),
            persists(base, *state),
            staged(*state) == staged(base),
            is_forecast(*state, graph, list@, map@, affected@, order@, known@),
            forall|j: int, k: int|
                0 <= j < i && 0 <= k < graph[order@[j]].len() && (
                #[trigger] graph[order@[j]][k]).subsumed ==> exists|class: u32| #[trigger]
                    stands(*state, list@, map@, affected@, known@, graph[order@[j]][k], Some(class)),
    {
        let class = order[i];
        assert(graph.contains_key(order@[i as int]));
        match snapshot.index.get(&class) {
            None => {
                assert(false);
            },
            Some(position) => {
                let nodes = &snapshot.classes[*position].nodes;
                assert(nodes@ == graph[class]);
                for k in 0..nodes.len()
                    invariant
                        base == *old(state),
                        owns(base),
                        graph == snapshot.graph(),
                        i < order@.len(),
                        class == order@[i as int],
                        nodes@ == graph[class],
                        graph.contains_key(class),
                        all_copyable(base, list@, graph),
                        all_shaped(base, list@, graph),
                        persists(base, *state),
                        staged(*state) == staged(base),
                        is_forecast(*state, graph, list@, map@, affected@, order@, known@),
                        forall|j: int, l: int|
                            0 <= j <= i && 0 <= l < graph[order@[j]].len() && (j < i || l < k) && (
                            #[trigger] graph[order@[j]][l]).subsumed ==> exists|found: u32|
                             #[trigger]
                                stands(
                                    *state,
                                    list@,
                                    map@,
                                    affected@,
                                    known@,
                                    graph[order@[j]][l],
                                    Some(found),
                                ),
                {
                    if nodes[k].subsumed {
                        let ghost earlier = *state;
                        let ghost node = graph[class][k as int];
                        proof {
                            assert(is_copyable(base, list@, graph[class][k as int]));
                            assert(is_shaped(base, list@, graph[class][k as int]));
                            lemma_copyable_persists(base, *state, list@, node);
                        }
                        let found = find_copy(state, list, map, affected, &known, &nodes[k]);
                        proof {
                            lemma_forecast_stays(
                                earlier,
                                *state,
                                graph,
                                list@,
                                map@,
                                affected@,
                                order@,
                                known@,
                            );
                            assert forall|j: int, l: int|
                                0 <= j <= i && 0 <= l < graph[order@[j]].len() && (j < i || l < k)
                                    && (#[trigger] graph[order@[j]][l]).subsumed implies exists|
                                found: u32,
                            | #[trigger]
                                stands(
                                    *state,
                                    list@,
                                    map@,
                                    affected@,
                                    known@,
                                    graph[order@[j]][l],
                                    Some(found),
                                ) by {
                                let found = choose|found: u32| #[trigger]
                                    stands(
                                        earlier,
                                        list@,
                                        map@,
                                        affected@,
                                        known@,
                                        graph[order@[j]][l],
                                        Some(found),
                                    );
                                lemma_stands_stays(
                                    earlier,
                                    *state,
                                    list@,
                                    map@,
                                    affected@,
                                    known@,
                                    known@,
                                    graph[order@[j]][l],
                                    Some(found),
                                );
                            }
                        }
                        if found.is_none() {
                            let missing = Missing { eclass: class, row: k };
                            proof {
                                assert(order@.contains(class));
                                assert(lacks_copy(
                                    *state,
                                    graph,
                                    list@,
                                    map@,
                                    affected@,
                                    order@,
                                    known@,
                                    missing.eclass,
                                    missing.row as int,
                                ));
                                assert(is_missing(
                                    *state,
                                    graph,
                                    list@,
                                    map@,
                                    affected@,
                                    order@,
                                    missing,
                                ));
                            }
                            return Err(missing);
                        }
                        proof {
                            let image = found->0;
                            assert(stands(
                                *state,
                                list@,
                                map@,
                                affected@,
                                known@,
                                node,
                                Some(image),
                            ));
                            assert forall|j: int, l: int|
                                0 <= j <= i && 0 <= l < graph[order@[j]].len() && (j < i || l < k
                                    + 1) && (
                                #[trigger] graph[order@[j]][l]).subsumed implies exists|found: u32|
                                 #[trigger]
                                stands(
                                    *state,
                                    list@,
                                    map@,
                                    affected@,
                                    known@,
                                    graph[order@[j]][l],
                                    Some(found),
                                ) by {
                                if j == i && l == k {
                                    assert(graph[order@[j]][l] == node);
                                }
                            }
                        }
                    }
                }
            },
        }
    }
    Ok(known)
}

proof fn lemma_forecast_stays(
    before: egglog::FullState<'_, '_>,
    after: egglog::FullState<'_, '_>,
    graph: Map<u32, Seq<ENode>>,
    list: Seq<Constructor>,
    map: Map<u32, u32>,
    affected: Set<u32>,
    order: Seq<u32>,
    known: Map<u32, u32>,
)
    requires
        persists(before, after),
        is_forecast(before, graph, list, map, affected, order, known),
    ensures
        is_forecast(after, graph, list, map, affected, order, known),
{
    let copied = copied_classes(affected, map.dom());
    assert forall|i: int| 0 <= i < order.len() implies stands(
        after,
        list,
        map,
        affected,
        known,
        graph[#[trigger] order[i]][naming_row(graph, copied, order, i)],
        entry(known, order[i]),
    ) by {
        lemma_stands_stays(
            before,
            after,
            list,
            map,
            affected,
            known,
            known,
            graph[order[i]][naming_row(graph, copied, order, i)],
            entry(known, order[i]),
        );
    }
}

} // verus!

//! The snapshot of a reachable sub-e-graph, and the part of it that a
//! substitution changes.

use std::collections::{BTreeMap, HashMap, HashSet};
use vstd::prelude::*;

verus! {

broadcast use {
    vstd::std_specs::hash::group_hash_axioms,
    vstd::std_specs::btree::group_btree_axioms,
};

/// One input column of a constructor row.
pub enum Child {
    /// An e-class with the name of its sort: it is walked into, and copied if
    /// it is affected.
    Class(u32, String),
    /// A container: its contents are walked into, and it is rebuilt if any of
    /// them change.
    Container(Container),
    /// Nothing an e-class can hide in: it is copied through untouched.
    Opaque(u32),
}

/// A container value with its contents.
pub struct Container {
    /// The interned container value.
    pub value: u32,
    /// Its sort.
    pub sort: egglog::ResolvedVar,
    /// What it holds, in the order in which its sort lists it.
    pub contents: Vec<Child>,
}

/// One reachable constructor row.
pub struct ENode {
    /// The position of the constructor among the constructors of the walk.
    pub ctor: usize,
    /// The input columns.
    pub children: Vec<Child>,
    /// Whether the row is subsumed.
    pub subsumed: bool,
    /// The e-classes that the row refers to, in column order, containers
    /// flattened.
    pub deps: Vec<u32>,
}

/// The rows of one reachable e-class.
pub struct EClass {
    /// The e-class.
    pub id: u32,
    /// Its rows, subsumed ones included.
    pub nodes: Vec<ENode>,
}

/// The e-classes inside one column, in order.
pub open spec fn child_leaves(child: Child) -> Seq<u32>
    decreases child,
{
    match child {
        Child::Class(value, _) => seq![value],
        Child::Container(container) => leaves(container.contents@),
        Child::Opaque(_) => Seq::empty(),
    }
}

/// The e-classes inside a list of columns, in order.
pub open spec fn leaves(children: Seq<Child>) -> Seq<u32>
    decreases children,
{
    if children.len() == 0 {
        Seq::empty()
    } else {
        leaves(children.drop_last()) + child_leaves(children.last())
    }
}

/// The e-classes that the rows of one e-class refer to, in order.
pub open spec fn class_deps(nodes: Seq<ENode>) -> Seq<u32>
    decreases nodes.len(),
{
    if nodes.len() == 0 {
        Seq::empty()
    } else {
        class_deps(nodes.drop_last()) + nodes.last().deps@
    }
}

/// Some row of `from` refers to `to`.
pub open spec fn edge(graph: Map<u32, Seq<ENode>>, from: u32, to: u32) -> bool {
    graph.contains_key(from) && class_deps(graph[from]).contains(to)
}

/// Each e-class of `path` but the last refers to the next.
pub open spec fn is_path(graph: Map<u32, Seq<ENode>>, path: Seq<u32>) -> bool {
    &&& path.len() > 0
    &&& forall|i: int| 0 <= i < path.len() - 1 ==> #[trigger] edge(graph, path[i], path[i + 1])
}

/// `path` leads from `from` to a key that the walk reached.
pub open spec fn leads_to_key(
    graph: Map<u32, Seq<ENode>>,
    keys: Set<u32>,
    from: u32,
    path: Seq<u32>,
) -> bool {
    &&& is_path(graph, path)
    &&& path[0] == from
    &&& keys.contains(path.last())
    &&& graph.contains_key(path.last())
}

/// A reached e-class is affected if it is a key or refers, through any number
/// of rows, to one.
pub open spec fn is_affected(graph: Map<u32, Seq<ENode>>, keys: Set<u32>, class: u32) -> bool {
    exists|path: Seq<u32>| leads_to_key(graph, keys, class, path)
}

/// The affected e-classes.
pub open spec fn affected_classes(graph: Map<u32, Seq<ENode>>, keys: Set<u32>) -> Set<u32> {
    Set::new(|class: u32| is_affected(graph, keys, class))
}

/// The reachable sub-e-graph.
pub struct Snapshot {
    /// The reachable e-classes in the order of their discovery.
    pub classes: Vec<EClass>,
    /// The position of each in `classes`.
    pub index: HashMap<u32, usize>,
}

impl Snapshot {
    /// Every e-class stands in `classes` once, at the position that `index`
    /// gives.
    pub open spec fn wf(&self) -> bool {
        &&& forall|i: int|
            0 <= i < self.classes@.len() ==> {
                &&& self.index@.contains_key((#[trigger] self.classes@[i]).id)
                &&& self.index@[self.classes@[i].id] == i
            }
        &&& forall|class: u32| #[trigger]
            self.index@.contains_key(class) ==> {
                &&& self.index@[class] < self.classes@.len()
                &&& self.classes@[self.index@[class] as int].id == class
            }
    }

    /// The rows of each reachable e-class.
    pub open spec fn graph(&self) -> Map<u32, Seq<ENode>> {
        Map::new(
            |class: u32| self.index@.contains_key(class),
            |class: u32| self.classes@[self.index@[class] as int].nodes@,
        )
    }
}

/// An edge out of an e-class is a reference of one of its rows.
pub proof fn lemma_class_deps(nodes: Seq<ENode>, dep: u32)
    ensures
        class_deps(nodes).contains(dep) <==> exists|k: int|
            0 <= k < nodes.len() && (#[trigger] nodes[k]).deps@.contains(dep),
    decreases nodes.len(),
{
    if nodes.len() > 0 {
        lemma_class_deps(nodes.drop_last(), dep);
        let front = class_deps(nodes.drop_last());
        let back = nodes.last().deps@;
        if front.contains(dep) {
            let i = front.index_of(dep);
            assert((front + back)[i] == dep);
            let k = choose|k: int|
                0 <= k < nodes.drop_last().len() && (#[trigger] nodes.drop_last()[k]).deps@.contains(
                    dep,
                );
            assert(nodes[k].deps@.contains(dep));
        }
        if back.contains(dep) {
            let i = back.index_of(dep);
            assert((front + back)[front.len() + i] == dep);
            assert(nodes[nodes.len() - 1].deps@.contains(dep));
        }
        if (front + back).contains(dep) {
            let i = (front + back).index_of(dep);
            if i < front.len() {
                assert(front[i] == dep);
            } else {
                assert(back[i - front.len()] == dep);
            }
        }
        if exists|k: int| 0 <= k < nodes.len() && (#[trigger] nodes[k]).deps@.contains(dep) {
            let k = choose|k: int| 0 <= k < nodes.len() && (#[trigger] nodes[k]).deps@.contains(dep);
            if k < nodes.len() - 1 {
                assert(nodes.drop_last()[k].deps@.contains(dep));
            }
        }
    }
}

/// Whoever refers to an affected e-class is affected.
pub proof fn lemma_affected_step(graph: Map<u32, Seq<ENode>>, keys: Set<u32>, from: u32, to: u32)
    requires
        edge(graph, from, to),
        is_affected(graph, keys, to),
    ensures
        is_affected(graph, keys, from),
{
    let path = choose|path: Seq<u32>| leads_to_key(graph, keys, to, path);
    let longer = seq![from] + path;
    assert forall|i: int| 0 <= i < longer.len() - 1 implies #[trigger] edge(
        graph,
        longer[i],
        longer[i + 1],
    ) by {
        if i > 0 {
            assert(edge(graph, path[i - 1], path[i - 1 + 1]));
        }
    }
    assert(leads_to_key(graph, keys, from, longer));
}

/// A key that the walk reached is affected.
pub proof fn lemma_key_affected(graph: Map<u32, Seq<ENode>>, keys: Set<u32>, class: u32)
    requires
        graph.contains_key(class),
        keys.contains(class),
    ensures
        is_affected(graph, keys, class),
{
    assert(leads_to_key(graph, keys, class, seq![class]));
}

/// A set that holds the reached keys and whoever refers to a member holds
/// every affected e-class.
proof fn lemma_closed_set_covers(
    graph: Map<u32, Seq<ENode>>,
    keys: Set<u32>,
    set: Set<u32>,
    path: Seq<u32>,
)
    requires
        leads_to_key(graph, keys, path[0], path),
        forall|class: u32| graph.contains_key(class) && keys.contains(class) ==> set.contains(class),
        forall|from: u32, to: u32| #[trigger]
            edge(graph, from, to) && set.contains(to) ==> set.contains(from),
    ensures
        set.contains(path[0]),
    decreases path.len(),
{
    if path.len() > 1 {
        let rest = path.drop_first();
        assert forall|i: int| 0 <= i < rest.len() - 1 implies #[trigger] edge(
            graph,
            rest[i],
            rest[i + 1],
        ) by {
            assert(edge(graph, path[i + 1], path[i + 1 + 1]));
        }
        lemma_closed_set_covers(graph, keys, set, rest);
        assert(edge(graph, path[0], path[0int + 1]));
    }
}

/// The e-classes that refer to the e-class at each position, by position.
fn users(snapshot: &Snapshot) -> (users: Vec<Vec<usize>>)
    requires
        snapshot.wf(),
    ensures
        users@.len() == snapshot.classes@.len(),
        forall|j: int, i: usize|
            0 <= j < users@.len() ==> (#[trigger] users@[j]@.contains(i) <==> {
                &&& i < snapshot.classes@.len()
                &&& edge(
                    snapshot.graph(),
                    snapshot.classes@[i as int].id,
                    snapshot.classes@[j].id,
                )
            }),
{
    let n = snapshot.classes.len();
    let mut users: Vec<Vec<usize>> = Vec::new();
    for j in 0..n
        invariant
            users@.len() == j,
            forall|k: int| 0 <= k < j ==> (#[trigger] users@[k])@.len() == 0,
    {
        users.push(Vec::new());
    }
    for i in 0..n
        invariant
            snapshot.wf(),
            n == snapshot.classes@.len(),
            users@.len() == n,
            forall|j: int, o: usize|
                0 <= j < n ==> (#[trigger] users@[j]@.contains(o) <==> {
                    &&& o < i
                    &&& edge(
                        snapshot.graph(),
                        snapshot.classes@[o as int].id,
                        snapshot.classes@[j].id,
                    )
                }),
    {
        let nodes = &snapshot.classes[i].nodes;
        assert(snapshot.graph()[snapshot.classes@[i as int].id] == nodes@);
        for k in 0..nodes.len()
            invariant
                snapshot.wf(),
                i < n,
                n == snapshot.classes@.len(),
                users@.len() == n,
                nodes@ == snapshot.classes@[i as int].nodes@,
                forall|j: int, o: usize|
                    0 <= j < n ==> (#[trigger] users@[j]@.contains(o) <==> {
                        ||| {
                            &&& o < i
                            &&& edge(
                                snapshot.graph(),
                                snapshot.classes@[o as int].id,
                                snapshot.classes@[j].id,
                            )
                        }
                        ||| {
                            &&& o == i
                            &&& exists|m: int|
                                0 <= m < k && (#[trigger] nodes@[m]).deps@.contains(
                                    snapshot.classes@[j].id,
                                )
                        }
                    }),
        {
            let deps = &nodes[k].deps;
            for d in 0..deps.len()
                invariant
                    snapshot.wf(),
                    i < n,
                    k < nodes@.len(),
                    n == snapshot.classes@.len(),
                    users@.len() == n,
                    nodes@ == snapshot.classes@[i as int].nodes@,
                    deps@ == nodes@[k as int].deps@,
                    forall|j: int, o: usize|
                        0 <= j < n ==> (#[trigger] users@[j]@.contains(o) <==> {
                            ||| {
                                &&& o < i
                                &&& edge(
                                    snapshot.graph(),
                                    snapshot.classes@[o as int].id,
                                    snapshot.classes@[j].id,
                                )
                            }
                            ||| {
                                &&& o == i
                                &&& {
                                    ||| exists|m: int|
                                        0 <= m < k && (#[trigger] nodes@[m]).deps@.contains(
                                            snapshot.classes@[j].id,
                                        )
                                    ||| exists|m: int|
                                        0 <= m < d && #[trigger] deps@[m]
                                            == snapshot.classes@[j].id
                                }
                            }
                        }),
            {
                let ghost before = users@;
                match snapshot.index.get(&deps[d]) {
                    Some(position) => {
                        users[*position].push(i);
                        proof {
                            let p = *position as int;
                            assert(users@[p]@ == before[p]@.push(i));
                            assert forall|j: int, o: usize| 0 <= j < n implies (
                            #[trigger] users@[j]@.contains(o) <==> before[j]@.contains(o) || (j == p
                                && o == i)) by {
                                if j == p {
                                    assert(before[p]@.push(i)[before[p]@.len() as int] == i);
                                    if before[p]@.contains(o) {
                                        let q = before[p]@.index_of(o);
                                        assert(before[p]@.push(i)[q] == o);
                                    }
                                } else {
                                    assert(users@[j] == before[j]);
                                }
                            }
                            assert(snapshot.classes@[p].id == deps@[d as int]);
                            assert forall|j: int| 0 <= j < n && snapshot.classes@[j].id
                                == deps@[d as int] implies j == p by {}
                        }
                    },
                    None => {
                        assert(forall|j: int| 0 <= j < n ==> snapshot.classes@[j].id
                            != deps@[d as int]);
                    },
                }
            }
        }
        proof {
            assert forall|j: int| 0 <= j < n implies (#[trigger] edge(
                snapshot.graph(),
                snapshot.classes@[i as int].id,
                snapshot.classes@[j].id,
            ) <==> exists|m: int|
                0 <= m < nodes@.len() && (#[trigger] nodes@[m]).deps@.contains(
                    snapshot.classes@[j].id,
                )) by {
                lemma_class_deps(nodes@, snapshot.classes@[j].id);
            }
        }
    }
    users
}

/// The e-classes that the substitution changes: the least set that holds the
/// reached keys and whoever refers to a member.
pub fn mark(snapshot: &Snapshot, map: &BTreeMap<u32, u32>) -> (affected: HashSet<u32>)
    requires
        snapshot.wf(),
    ensures
        affected@ == affected_classes(snapshot.graph(), map@.dom()),
{
    let ghost graph = snapshot.graph();
    let ghost keys = map@.dom();
    let n = snapshot.classes.len();
    let users = users(snapshot);
    let mut affected: HashSet<u32> = HashSet::new();
    let mut queue: Vec<usize> = Vec::new();
    for i in 0..n
        invariant
            snapshot.wf(),
            graph == snapshot.graph(),
            keys == map@.dom(),
            n == snapshot.classes@.len(),
            forall|class: u32| #[trigger]
                affected@.contains(class) <==> exists|k: int|
                    0 <= k < i && (#[trigger] snapshot.classes@[k]).id == class && keys.contains(
                        class,
                    ),
            forall|k: int|
                0 <= k < queue@.len() ==> {
                    &&& (#[trigger] queue@[k]) < n
                    &&& affected@.contains(snapshot.classes@[queue@[k] as int].id)
                },
            forall|class: u32| #[trigger]
                affected@.contains(class) ==> queue@.contains(snapshot.index@[class]),
    {
        let id = snapshot.classes[i].id;
        let ghost before = queue@;
        let ghost marked = affected@;
        if map.contains_key(&id) {
            affected.insert(id);
            queue.push(i);
            proof {
                assert(queue@[before.len() as int] == i);
                assert forall|class: u32| #[trigger] affected@.contains(class) implies queue@.contains(
                    snapshot.index@[class],
                ) by {
                    if class != id {
                        assert(marked.contains(class));
                        let q = before.index_of(snapshot.index@[class]);
                        assert(queue@[q] == snapshot.index@[class]);
                    }
                }
                assert forall|class: u32| #[trigger] affected@.contains(class) implies exists|k: int|
                    0 <= k < i + 1 && (#[trigger] snapshot.classes@[k]).id == class
                        && keys.contains(class) by {
                    if class == id {
                        assert(snapshot.classes@[i as int].id == class);
                    } else {
                        assert(marked.contains(class));
                    }
                }
            }
        }
    }
    proof {
        assert forall|class: u32| #[trigger] affected@.contains(class) implies is_affected(
            graph,
            keys,
            class,
        ) by {
            lemma_key_affected(graph, keys, class);
        }
        assert forall|class: u32| graph.contains_key(class) && keys.contains(
            class,
        ) implies affected@.contains(class) by {
            assert(snapshot.classes@[snapshot.index@[class] as int].id == class);
        }
        assert(affected@.subset_of(snapshot.index@.dom()));
    }
    loop
        invariant
            snapshot.wf(),
            graph == snapshot.graph(),
            keys == map@.dom(),
            n == snapshot.classes@.len(),
            users@.len() == n,
            forall|j: int, i: usize|
                0 <= j < n ==> (#[trigger] users@[j]@.contains(i) <==> {
                    &&& i < n
                    &&& edge(graph, snapshot.classes@[i as int].id, snapshot.classes@[j].id)
                }),
            affected@.subset_of(snapshot.index@.dom()),
            forall|class: u32| #[trigger]
                affected@.contains(class) ==> is_affected(graph, keys, class),
            forall|class: u32|
                graph.contains_key(class) && keys.contains(class) ==> affected@.contains(class),
            forall|k: int|
                0 <= k < queue@.len() ==> {
                    &&& (#[trigger] queue@[k]) < n
                    &&& affected@.contains(snapshot.classes@[queue@[k] as int].id)
                },
            forall|from: u32, to: u32| #[trigger]
                edge(graph, from, to) && affected@.contains(to) ==> affected@.contains(from)
                    || queue@.contains(snapshot.index@[to]),
        ensures
            queue@.len() == 0,
        decreases snapshot.index@.dom().len() - affected@.len(), queue@.len(),
    {
        let ghost before = queue@;
        let ghost bound = affected@;
        match queue.pop() {
            None => {
                break;
            },
            Some(position) => {
                let ghost value = snapshot.classes@[position as int].id;
                let owners = &users[position];
                proof {
                    assert(before.last() == position);
                    vstd::set_lib::lemma_len_subset(affected@, snapshot.index@.dom());
                }
                for k in 0..owners.len()
                    invariant
                        snapshot.wf(),
                        graph == snapshot.graph(),
                        keys == map@.dom(),
                        n == snapshot.classes@.len(),
                        users@.len() == n,
                        position < n,
                        owners@ == users@[position as int]@,
                        value == snapshot.classes@[position as int].id,
                        bound.contains(value),
                        forall|j: int, i: usize|
                            0 <= j < n ==> (#[trigger] users@[j]@.contains(i) <==> {
                                &&& i < n
                                &&& edge(
                                    graph,
                                    snapshot.classes@[i as int].id,
                                    snapshot.classes@[j].id,
                                )
                            }),
                        affected@.subset_of(snapshot.index@.dom()),
                        bound.subset_of(affected@),
                        forall|class: u32| #[trigger]
                            affected@.contains(class) ==> is_affected(graph, keys, class),
                        before.len() > 0,
                        before.last() == position,
                        queue@.len() >= before.len() - 1,
                        queue@.len() == before.len() - 1 ==> affected@ == bound,
                        queue@.len() > before.len() - 1 ==> affected@.len() > bound.len(),
                        queue@.take(before.len() - 1) == before.drop_last(),
                        forall|j: int|
                            0 <= j < queue@.len() ==> {
                                &&& (#[trigger] queue@[j]) < n
                                &&& affected@.contains(snapshot.classes@[queue@[j] as int].id)
                            },
                        forall|class: u32| #[trigger]
                            affected@.contains(class) && !bound.contains(class) ==> queue@.contains(
                                snapshot.index@[class],
                            ),
                        forall|j: int|
                            0 <= j < k ==> affected@.contains(
                                snapshot.classes@[#[trigger] owners@[j] as int].id,
                            ),
                {
                    let owner = owners[k];
                    assert(users@[position as int]@.contains(owner));
                    let id = snapshot.classes[owner].id;
                    let ghost earlier = queue@;
                    let ghost marked = affected@;
                    if affected.insert(id) {
                        queue.push(owner);
                        proof {
                            lemma_affected_step(graph, keys, id, value);
                            assert(queue@[earlier.len() as int] == owner);
                            assert forall|class: u32| #[trigger]
                                affected@.contains(class) && !bound.contains(
                                    class,
                                ) implies queue@.contains(snapshot.index@[class]) by {
                                if class != id {
                                    let q = earlier.index_of(snapshot.index@[class]);
                                    assert(queue@[q] == snapshot.index@[class]);
                                }
                            }
                            assert(queue@.take(before.len() - 1) =~= earlier.take(
                                before.len() - 1,
                            ));
                            vstd::set_lib::lemma_len_subset(bound, marked);
                        }
                    }
                }
                proof {
                    vstd::set_lib::lemma_len_subset(affected@, snapshot.index@.dom());
                    assert forall|from: u32, to: u32| #[trigger]
                        edge(graph, from, to) && affected@.contains(to) implies affected@.contains(
                        from,
                    ) || queue@.contains(snapshot.index@[to]) by {
                        if to == value {
                            let p = snapshot.index@[from];
                            assert(snapshot.classes@[p as int].id == from);
                            assert(users@[position as int]@.contains(p));
                            let j = owners@.index_of(p);
                            assert(owners@[j] == p);
                        } else if bound.contains(to) {
                            if !bound.contains(from) {
                                let q = before.index_of(snapshot.index@[to]);
                                assert(snapshot.index@[to] != position);
                                assert(queue@.take(before.len() - 1)[q] == before[q]);
                                assert(queue@[q] == snapshot.index@[to]);
                            }
                        }
                    }
                }
            },
        }
    }
    proof {
        assert forall|class: u32| is_affected(graph, keys, class) implies affected@.contains(
            class,
        ) by {
            let path = choose|path: Seq<u32>| leads_to_key(graph, keys, class, path);
            lemma_closed_set_covers(graph, keys, affected@, path);
        }
        assert(affected@ =~= affected_classes(graph, keys));
    }
    affected
}

} // verus!

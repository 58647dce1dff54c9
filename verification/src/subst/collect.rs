//! The collection of the reachable sub-e-graph.

use std::collections::HashMap;
use vstd::prelude::*;
use crate::subst::graph::{
    class_deps, edge, is_path, leaves, lemma_class_deps, Child, Container, EClass, ENode, Snapshot,
};
use crate::subst::state::{
    constructor_schema, constructor_sorts, contents_of, enodes_for_eclass, holds_containers,
    holds_eclasses, inner_values, is_container, is_container_sort, is_eq_sort, map_container,
    name_of_sort, owns, row_views, rows_of, sort_name, table_rows, table_shape, table_sizes,
};
use crate::text::same;

verus! {

broadcast use vstd::std_specs::hash::group_hash_axioms;

/// What a column of a given sort holds, as far as the walk cares.
pub enum Kind {
    /// An e-class: it is walked into, and copied if it is affected.
    Eclass,
    /// A container: its contents are walked into, and it is rebuilt if any of
    /// them change.
    Container,
    /// Nothing an e-class can hide in: it is copied through untouched.
    Opaque,
}

/// The kind of a sort. Every container is walked, whatever the sorts that its
/// own sort declares for its contents.
pub open spec fn kind(sort: egglog::ResolvedVar) -> Kind {
    if is_eq_sort(sort) {
        Kind::Eclass
    } else if is_container_sort(sort) {
        Kind::Container
    } else {
        Kind::Opaque
    }
}

/// Tells the kind of a sort.
pub fn kind_of(sort: &egglog::ResolvedVar) -> (found: Kind)
    ensures
        found == kind(*sort),
{
    if holds_eclasses(sort) {
        Kind::Eclass
    } else if holds_containers(sort) {
        Kind::Container
    } else {
        Kind::Opaque
    }
}

/// A constructor that the walk can follow.
pub struct Constructor {
    /// The name of its table.
    pub name: String,
    /// The sorts of its input columns.
    pub inputs: Vec<egglog::ResolvedVar>,
    /// The sort of its e-class column.
    pub output: egglog::ResolvedVar,
}

/// The table is a constructor with an eq-sort output and has rows.
pub open spec fn can_follow(state: egglog::FullState<'_, '_>, table: Seq<char>) -> bool {
    &&& table_rows(state).contains_key(table)
    &&& table_rows(state)[table] != 0
    &&& constructor_sorts(state, table) is Some
    &&& is_eq_sort((constructor_sorts(state, table)->0).1)
}

/// The list names each constructor that the walk can follow once, with its
/// sorts.
pub open spec fn lists_constructors(
    state: egglog::FullState<'_, '_>,
    list: Seq<Constructor>,
) -> bool {
    &&& forall|i: int|
        0 <= i < list.len() ==> {
            &&& can_follow(state, (#[trigger] list[i]).name@)
            &&& constructor_sorts(state, list[i].name@) == Some((list[i].inputs@, list[i].output))
        }
    &&& forall|table: Seq<char>| #[trigger]
        can_follow(state, table) ==> exists|i: int|
            0 <= i < list.len() && (#[trigger] list[i]).name@ == table
    &&& forall|i: int, j: int|
        0 <= i < j < list.len() ==> (#[trigger] list[i]).name@ != (#[trigger] list[j]).name@
}

/// The tables of the constructors that the walk can follow are as declared.
pub open spec fn in_step(state: egglog::FullState<'_, '_>) -> bool {
    forall|table: Seq<char>| #[trigger]
        can_follow(state, table) ==> table_shape(state, table) == Some(
            (true, (constructor_sorts(state, table)->0).0.len()),
        )
}

/// The row has as many columns as the table of its constructor has inputs.
pub open spec fn is_shaped(
    state: egglog::FullState<'_, '_>,
    list: Seq<Constructor>,
    node: ENode,
) -> bool {
    table_shape(state, list[node.ctor as int].name@) == Some((true, node.children@.len()))
}

/// Every row of the graph has as many columns as its table has inputs.
pub open spec fn all_shaped(
    state: egglog::FullState<'_, '_>,
    list: Seq<Constructor>,
    graph: Map<u32, Seq<ENode>>,
) -> bool {
    forall|class: u32, k: int|
        graph.contains_key(class) && 0 <= k < graph[class].len() ==> is_shaped(
            state,
            list,
            #[trigger] graph[class][k],
        )
}

/// The constructors with an eq-sort output that have rows: the rows that make
/// up the term structure.
#[verifier::rlimit(30)]
pub fn constructors(state: &egglog::FullState<'_, '_>) -> (list: Vec<Constructor>)
    requires
        owns(*state),
    ensures
        lists_constructors(*state, list@),
        in_step(*state),
{
    let sizes = table_sizes(state);
    let mut list: Vec<Constructor> = Vec::new();
    for i in 0..sizes.len()
        invariant
            owns(*state),
            forall|j: int|
                0 <= j < sizes@.len() ==> {
                    &&& table_rows(*state).contains_key((#[trigger] sizes@[j]).0@)
                    &&& table_rows(*state)[sizes@[j].0@] == sizes@[j].1
                },
            forall|j: int, k: int|
                0 <= j < k < sizes@.len() ==> (#[trigger] sizes@[j]).0@ != (
                #[trigger] sizes@[k]).0@,
            forall|k: int|
                0 <= k < list@.len() ==> {
                    &&& can_follow(*state, (#[trigger] list@[k]).name@)
                    &&& constructor_sorts(*state, list@[k].name@) == Some(
                        (list@[k].inputs@, list@[k].output),
                    )
                    &&& exists|j: int| 0 <= j < i && (#[trigger] sizes@[j]).0@ == list@[k].name@
                },
            forall|k: int|
                0 <= k < list@.len() ==> table_shape(*state, (#[trigger] list@[k]).name@) == Some(
                    (true, list@[k].inputs@.len()),
                ),
            forall|j: int|
                0 <= j < i && can_follow(*state, (#[trigger] sizes@[j]).0@) ==> exists|k: int|
                    0 <= k < list@.len() && (#[trigger] list@[k]).name@ == sizes@[j].0@,
            forall|j: int, k: int|
                0 <= j < k < list@.len() ==> (#[trigger] list@[j]).name@ != (
                #[trigger] list@[k]).name@,
    {
        let ghost before = list@;
        if sizes[i].1 != 0 {
            let name = sizes[i].0.clone();
            match constructor_schema(state, name.as_str()) {
                None => {},
                Some((inputs, output)) => {
                    if holds_eclasses(&output) {
                        let ghost arity = inputs@.len();
                        list.push(Constructor { name, inputs, output });
                        assert(table_shape(*state, list@[before.len() as int].name@) == Some(
                            (true, arity),
                        ));
                        assert(list@[before.len() as int].name@ == sizes@[i as int].0@);
                    }
                },
            }
        }
        proof {
            assert forall|j: int|
                0 <= j < i + 1 && can_follow(
                    *state,
                    (#[trigger] sizes@[j]).0@,
                ) implies exists|k: int|
                0 <= k < list@.len() && (#[trigger] list@[k]).name@ == sizes@[j].0@ by {
                if j < i {
                    let k = choose|k: int|
                        0 <= k < before.len() && (#[trigger] before[k]).name@ == sizes@[j].0@;
                    assert(list@[k] == before[k]);
                }
            }
            assert forall|k: int| 0 <= k < list@.len() implies exists|j: int|
                0 <= j < i + 1 && (#[trigger] sizes@[j]).0@ == (#[trigger] list@[k]).name@ by {
                if k < before.len() {
                    assert(list@[k] == before[k]);
                    let j = choose|j: int|
                        0 <= j < i && (#[trigger] sizes@[j]).0@ == before[k].name@;
                    assert(sizes@[j].0@ == list@[k].name@);
                } else {
                    assert(sizes@[i as int].0@ == list@[k].name@);
                }
            }
            assert forall|j: int, k: int| 0 <= j < k < list@.len() implies (
            #[trigger] list@[j]).name@ != (#[trigger] list@[k]).name@ by {
                if k < before.len() {
                    assert(list@[j] == before[j]);
                    assert(list@[k] == before[k]);
                } else {
                    assert(list@[j] == before[j]);
                    let q = choose|q: int|
                        0 <= q < i && (#[trigger] sizes@[q]).0@ == before[j].name@;
                    assert(sizes@[q].0@ != sizes@[i as int].0@);
                }
            }
        }
    }
    proof {
        assert forall|table: Seq<char>| #[trigger] can_follow(
            *state,
            table,
        ) implies exists|k: int| 0 <= k < list@.len() && (#[trigger] list@[k]).name@ == table by {
            let j = choose|j: int| 0 <= j < sizes@.len() && (#[trigger] sizes@[j]).0@ == table;
            assert(can_follow(*state, sizes@[j].0@));
        }
        assert forall|table: Seq<char>| #[trigger] can_follow(*state, table) implies table_shape(
            *state,
            table,
        ) == Some((true, (constructor_sorts(*state, table)->0).0.len())) by {
            let k = choose|k: int| 0 <= k < list@.len() && (#[trigger] list@[k]).name@ == table;
        }
    }
    list
}

/// Every value that a column can hold.
pub open spec fn all_values() -> Set<u32> {
    Set::new(|value: u32| true)
}

pub(crate) proof fn lemma_all_values_finite()
    ensures
        all_values().finite(),
{
    let ints = vstd::set_lib::set_int_range(0, 0x1_0000_0000);
    vstd::set_lib::lemma_int_range(0, 0x1_0000_0000);
    let values = ints.map(|i: int| i as u32);
    ints.lemma_map_finite(|i: int| i as u32);
    assert forall|value: u32| values.contains(value) by {
        assert(ints.contains(value as int));
        assert((value as int) as u32 == value);
    }
    assert(values =~= all_values());
}

/// How many values are not on the path.
spec fn unseen(path: Seq<u32>) -> nat {
    all_values().difference(path.to_set()).len()
}

proof fn lemma_unseen_push(path: Seq<u32>, value: u32)
    requires
        !path.contains(value),
    ensures
        unseen(path.push(value)) < unseen(path),
{
    lemma_all_values_finite();
    assert(path.push(value)[path.len() as int] == value);
    assert(path.push(value).to_set() =~= path.to_set().insert(value)) by {
        assert forall|other: u32| path.to_set().contains(other) implies path.push(
            value,
        ).contains(other) by {
            let i = path.index_of(other);
            assert(path.push(value)[i] == other);
        }
    }
    assert(all_values().difference(path.push(value).to_set()) =~= all_values().difference(
        path.to_set(),
    ).remove(value));
}

/// `child` shows the column value of this sort. A container shows what it
/// holds, unless it stands on `path`, inside itself.
pub open spec fn shows(
    state: egglog::FullState<'_, '_>,
    sort: egglog::ResolvedVar,
    value: u32,
    child: Child,
    path: Seq<u32>,
) -> bool
    decreases child,
{
    match child {
        Child::Class(class, name) => {
            &&& kind(sort) is Eclass
            &&& class == value
            &&& name@ == sort_name(sort)
        },
        Child::Container(container) => {
            let inner = contents_of(state, sort, value);
            &&& kind(sort) is Container
            &&& is_container(state, sort, value)
            &&& !path.contains(value)
            &&& container.value == value
            &&& container.sort == sort
            &&& container.contents@.len() == inner.len()
            &&& forall|j: int|
                0 <= j < container.contents@.len() ==> shows(
                    state,
                    inner[j].0,
                    inner[j].1,
                    #[trigger] container.contents@[j],
                    path.push(value),
                )
        },
        Child::Opaque(other) => {
            &&& other == value
            &&& !(kind(sort) is Eclass)
            &&& kind(sort) is Container ==> path.contains(value) || !is_container(
                state,
                sort,
                value,
            )
        },
    }
}

fn on_path(path: &Vec<u32>, value: u32) -> (found: bool)
    ensures
        found == path@.contains(value),
{
    for i in 0..path.len()
        invariant
            forall|j: int| 0 <= j < i ==> #[trigger] path@[j] != value,
    {
        if path[i] == value {
            return true;
        }
    }
    false
}

/// Reads a column value with what it holds.
fn expand(
    state: &mut egglog::FullState<'_, '_>,
    sort: &egglog::ResolvedVar,
    value: u32,
    path: &mut Vec<u32>,
) -> (child: Child)
    ensures
        *final(state) == *old(state),
        final(path)@ == old(path)@,
        shows(*old(state), *sort, value, child, old(path)@),
    decreases unseen(old(path)@),
{
    let ghost here = path@;
    let ghost base = *state;
    match kind_of(sort) {
        Kind::Eclass => Child::Class(value, name_of_sort(sort)),
        Kind::Opaque => Child::Opaque(value),
        Kind::Container => {
            if on_path(path, value) {
                return Child::Opaque(value);
            }
            let nothing: HashMap<u32, u32> = HashMap::new();
            assert(nothing@.dom() =~= Set::<u32>::empty());
            if map_container(state, sort, value, &nothing).is_none() {
                return Child::Opaque(value);
            }
            let inner = inner_values(state, sort, value);
            let mut contents: Vec<Child> = Vec::new();
            path.push(value);
            proof {
                lemma_unseen_push(here, value);
            }
            for i in 0..inner.len()
                invariant
                    *state == base,
                    here == old(path)@,
                    path@ == here.push(value),
                    unseen(here.push(value)) < unseen(here),
                    inner@ == contents_of(base, *sort, value),
                    contents@.len() == i,
                    forall|j: int|
                        0 <= j < i ==> shows(
                            base,
                            inner@[j].0,
                            inner@[j].1,
                            #[trigger] contents@[j],
                            here.push(value),
                        ),
            {
                let held = expand(state, &inner[i].0, inner[i].1, path);
                contents.push(held);
            }
            path.pop();
            assert(path@ =~= here);
            Child::Container(Container { value, sort: sort.clone(), contents })
        },
    }
}

/// A pending visit of an e-class whose sort has this name.
pub struct Visit {
    /// The e-class.
    pub value: u32,
    /// The name of its sort.
    pub sort: String,
}

/// The e-classes inside one column with the names of their sorts.
pub open spec fn child_visits(child: Child) -> Seq<(u32, Seq<char>)>
    decreases child,
{
    match child {
        Child::Class(value, sort) => seq![(value, sort@)],
        Child::Container(container) => visits(container.contents@),
        Child::Opaque(_) => Seq::empty(),
    }
}

/// The e-classes inside a list of columns with the names of their sorts.
pub open spec fn visits(children: Seq<Child>) -> Seq<(u32, Seq<char>)>
    decreases children,
{
    if children.len() == 0 {
        Seq::empty()
    } else {
        visits(children.drop_last()) + child_visits(children.last())
    }
}

/// The visits go to the leaves.
pub open spec fn targets(list: Seq<(u32, Seq<char>)>) -> Seq<u32> {
    list.map_values(|visit: (u32, Seq<char>)| visit.0)
}

proof fn lemma_targets_add(left: Seq<(u32, Seq<char>)>, right: Seq<(u32, Seq<char>)>)
    ensures
        targets(left + right) == targets(left) + targets(right),
{
    assert(targets(left + right) =~= targets(left) + targets(right));
}

proof fn lemma_child_visits(child: Child)
    ensures
        targets(child_visits(child)) == crate::subst::graph::child_leaves(child),
    decreases child,
{
    match child {
        Child::Class(value, sort) => {
            assert(targets(child_visits(child)) =~= seq![value]);
        },
        Child::Container(container) => {
            lemma_visits(container.contents@);
        },
        Child::Opaque(_) => {
            assert(targets(child_visits(child)) =~= Seq::<u32>::empty());
        },
    }
}

/// The visits of a list of columns go to its leaves.
pub proof fn lemma_visits(children: Seq<Child>)
    ensures
        targets(visits(children)) == leaves(children),
    decreases children,
{
    if children.len() == 0 {
        assert(targets(visits(children)) =~= Seq::<u32>::empty());
    } else {
        lemma_visits(children.drop_last());
        lemma_child_visits(children.last());
        lemma_targets_add(visits(children.drop_last()), child_visits(children.last()));
    }
}

/// What a list of visits says.
pub open spec fn visit_views(list: Seq<Visit>) -> Seq<(u32, Seq<char>)> {
    list.map_values(|visit: Visit| (visit.value, visit.sort@))
}

/// Appends the visits of a column.
fn push_visits(child: &Child, list: &mut Vec<Visit>)
    ensures
        visit_views(final(list)@) == visit_views(old(list)@) + child_visits(*child),
    decreases child,
{
    let ghost before = visit_views(list@);
    match child {
        Child::Class(value, sort) => {
            list.push(Visit { value: *value, sort: sort.clone() });
            assert(visit_views(list@) =~= before + child_visits(*child));
        },
        Child::Opaque(_) => {
            assert(visit_views(list@) =~= before + child_visits(*child));
        },
        Child::Container(container) => {
            assert(before =~= before + visits(container.contents@.take(0)));
            for j in 0..container.contents.len()
                invariant
                    child is Container,
                    *container == child->Container_0,
                    visit_views(list@) == before + visits(container.contents@.take(j as int)),
            {
                let ghost front = container.contents@.take(j as int);
                push_visits(&container.contents[j], list);
                assert(container.contents@.take(j + 1).drop_last() =~= front);
                assert(visit_views(list@) =~= before + visits(container.contents@.take(j + 1)));
            }
            assert(container.contents@.take(container.contents@.len() as int)
                =~= container.contents@);
        },
    }
}

/// The constructor can have rows for an e-class of the sort. The sort is
/// unknown for the root only.
pub open spec fn is_candidate(constructor: Constructor, sort: Option<Seq<char>>) -> bool {
    match sort {
        Some(name) => sort_name(constructor.output) == name,
        None => true,
    }
}

/// The rows of an e-class, each with the position of its constructor: those of
/// the first constructors, in order.
pub open spec fn found_rows(
    state: egglog::FullState<'_, '_>,
    list: Seq<Constructor>,
    class: u32,
    sort: Option<Seq<char>>,
) -> Seq<(int, Seq<u32>, bool)>
    decreases list.len(),
{
    if list.len() == 0 {
        Seq::empty()
    } else {
        let front = found_rows(state, list.drop_last(), class, sort);
        let last = list.len() - 1;
        if is_candidate(list.last(), sort) {
            front + rows_of(state, list.last().name@, class).map_values(
                |row: (Seq<u32>, bool)| (last, row.0, row.1),
            )
        } else {
            front
        }
    }
}

/// The node is the row: the same constructor and status, and the columns with
/// what they hold.
pub open spec fn is_row(
    state: egglog::FullState<'_, '_>,
    list: Seq<Constructor>,
    node: ENode,
    row: (int, Seq<u32>, bool),
) -> bool {
    &&& node.ctor == row.0
    &&& node.ctor < list.len()
    &&& node.subsumed == row.2
    &&& node.children@.len() <= row.1.len()
    &&& node.children@.len() <= list[row.0].inputs@.len()
    &&& node.children@.len() == row.1.len() || node.children@.len() == list[row.0].inputs@.len()
    &&& forall|j: int|
        0 <= j < node.children@.len() ==> shows(
            state,
            list[row.0].inputs@[j],
            row.1[j],
            #[trigger] node.children@[j],
            Seq::empty(),
        )
    &&& node.deps@ == leaves(node.children@)
}

/// The nodes are the rows.
pub open spec fn are_rows(
    state: egglog::FullState<'_, '_>,
    list: Seq<Constructor>,
    nodes: Seq<ENode>,
    rows: Seq<(int, Seq<u32>, bool)>,
) -> bool {
    &&& nodes.len() == rows.len()
    &&& forall|k: int| 0 <= k < nodes.len() ==> is_row(state, list, #[trigger] nodes[k], rows[k])
}

/// Reads one row with what its columns hold.
fn read_row(
    state: &mut egglog::FullState<'_, '_>,
    list: &Vec<Constructor>,
    ctor: usize,
    row: &(Vec<u32>, bool),
) -> (node: ENode)
    requires
        ctor < list@.len(),
    ensures
        *final(state) == *old(state),
        is_row(*old(state), list@, node, (ctor as int, row.0@, row.1)),
{
    let ghost base = *state;
    let inputs = &list[ctor].inputs;
    let width = if row.0.len() < inputs.len() {
        row.0.len()
    } else {
        inputs.len()
    };
    let mut children: Vec<Child> = Vec::new();
    let mut found: Vec<Visit> = Vec::new();
    assert(visit_views(found@) =~= visits(children@));
    for j in 0..width
        invariant
            *state == base,
            width <= row.0@.len(),
            width <= inputs@.len(),
            children@.len() == j,
            forall|i: int|
                0 <= i < j ==> shows(
                    base,
                    inputs@[i],
                    row.0@[i],
                    #[trigger] children@[i],
                    Seq::empty(),
                ),
            visit_views(found@) == visits(children@),
    {
        let mut path: Vec<u32> = Vec::new();
        assert(path@ =~= Seq::<u32>::empty());
        let child = expand(state, &inputs[j], row.0[j], &mut path);
        push_visits(&child, &mut found);
        let ghost front = children@;
        children.push(child);
        assert(children@.drop_last() =~= front);
    }
    let mut deps: Vec<u32> = Vec::new();
    for i in 0..found.len()
        invariant
            deps@ == targets(visit_views(found@)).take(i as int),
    {
        deps.push(found[i].value);
        assert(deps@ =~= targets(visit_views(found@)).take(i + 1));
    }
    proof {
        lemma_visits(children@);
        assert(deps@ =~= leaves(children@));
    }
    ENode { ctor, children, subsumed: row.1, deps }
}

/// Reads the rows of an e-class from the constructors that can have any.
fn read_class(
    state: &mut egglog::FullState<'_, '_>,
    list: &Vec<Constructor>,
    class: u32,
    sort: Option<&str>,
) -> (nodes: Vec<ENode>)
    requires
        owns(*old(state)),
        lists_constructors(*old(state), list@),
        in_step(*old(state)),
    ensures
        *final(state) == *old(state),
        are_rows(
            *old(state),
            list@,
            nodes@,
            found_rows(*old(state), list@, class, sort_text(sort)),
        ),
        forall|k: int|
            0 <= k < nodes@.len() ==> is_shaped(*old(state), list@, #[trigger] nodes@[k]),
{
    let ghost base = *state;
    let ghost name = sort_text(sort);
    let mut nodes: Vec<ENode> = Vec::new();
    for i in 0..list.len()
        invariant
            *state == base,
            base == *old(state),
            name == sort_text(sort),
            owns(base),
            lists_constructors(base, list@),
            in_step(base),
            forall|k: int|
                0 <= k < nodes@.len() ==> is_shaped(base, list@, #[trigger] nodes@[k]),
            are_rows(base, list@, nodes@, found_rows(base, list@.take(i as int), class, name)),
    {
        let ghost front = list@.take(i as int);
        assert(list@.take(i + 1).drop_last() =~= front);
        assert(list@.take(i + 1).last() == list@[i as int]);
        let candidate = match sort {
            Some(wanted) => same(name_of_sort(&list[i].output).as_str(), wanted),
            None => true,
        };
        if candidate {
            assert(can_follow(base, list@[i as int].name@));
            let rows = match enodes_for_eclass(state, list[i].name.as_str(), class) {
                Ok(rows) => rows,
                Err(_) => vstd::pervasive::unreached(),
            };
            let ghost before = found_rows(base, front, class, name);
            let ghost tagged = rows_of(base, list@[i as int].name@, class).map_values(
                |row: (Seq<u32>, bool)| (i as int, row.0, row.1),
            );
            assert(before + tagged.take(0) =~= before);
            for k in 0..rows.len()
                invariant
                    *state == base,
                    i < list@.len(),
                    lists_constructors(base, list@),
                    in_step(base),
                    forall|j: int|
                        0 <= j < nodes@.len() ==> is_shaped(base, list@, #[trigger] nodes@[j]),
                    table_shape(base, list@[i as int].name@) is Some,
                    forall|j: int|
                        0 <= j < rows@.len() ==> (#[trigger] rows@[j]).0@.len() == (table_shape(
                            base,
                            list@[i as int].name@,
                        )->0).1,
                    row_views(rows@) == rows_of(base, list@[i as int].name@, class),
                    tagged == rows_of(base, list@[i as int].name@, class).map_values(
                        |row: (Seq<u32>, bool)| (i as int, row.0, row.1),
                    ),
                    are_rows(base, list@, nodes@, before + tagged.take(k as int)),
            {
                let ghost had = nodes@;
                let node = read_row(state, list, i, &rows[k]);
                nodes.push(node);
                proof {
                    assert(can_follow(base, list@[i as int].name@));
                    assert(rows@[k as int].0@.len() == list@[i as int].inputs@.len());
                    assert(is_shaped(base, list@, node));
                    let all = before + tagged.take(k + 1);
                    assert(row_views(rows@)[k as int] == (rows@[k as int].0@, rows@[k as int].1));
                    assert(tagged[k as int] == (i as int, rows@[k as int].0@, rows@[k as int].1));
                    assert forall|j: int| 0 <= j < nodes@.len() implies is_row(
                        base,
                        list@,
                        #[trigger] nodes@[j],
                        all[j],
                    ) by {
                        if j < had.len() {
                            assert(nodes@[j] == had[j]);
                            assert(all[j] == (before + tagged.take(k as int))[j]);
                        } else {
                            assert(all[j] == tagged[k as int]);
                        }
                    }
                }
            }
            proof {
                assert(row_views(rows@).len() == rows@.len());
                assert(tagged.take(rows@.len() as int) =~= tagged);
                assert(found_rows(base, list@.take(i + 1), class, name) == before + tagged);
            }
        }
    }
    assert(list@.take(list@.len() as int) =~= list@);
    nodes
}

/// The name of a sort, if it is known.
pub open spec fn sort_text(sort: Option<&str>) -> Option<Seq<char>> {
    match sort {
        Some(name) => Some(name@),
        None => None,
    }
}

/// Some row of `from` holds `class`, as an e-class of the sort.
pub open spec fn holds(
    graph: Map<u32, Seq<ENode>>,
    from: u32,
    class: u32,
    sort: Seq<char>,
) -> bool {
    graph.contains_key(from) && exists|k: int|
        0 <= k < graph[from].len() && #[trigger] visits(graph[from][k].children@).contains(
            (class, sort),
        )
}

/// `path` leads from `root` to `class`.
pub open spec fn leads(
    graph: Map<u32, Seq<ENode>>,
    root: u32,
    class: u32,
    path: Seq<u32>,
) -> bool {
    is_path(graph, path) && path[0] == root && path.last() == class
}

/// `root` reaches `class`.
pub open spec fn reached(graph: Map<u32, Seq<ENode>>, root: u32, class: u32) -> bool {
    exists|path: Seq<u32>| leads(graph, root, class, path)
}

/// Each e-class has the rows that it has in the state, under the sort under
/// which it was reached, and was reached from the root.
pub open spec fn read_from(
    state: egglog::FullState<'_, '_>,
    list: Seq<Constructor>,
    root: u32,
    graph: Map<u32, Seq<ENode>>,
    sorts: Map<u32, Option<Seq<char>>>,
) -> bool {
    &&& sorts.dom() == graph.dom()
    &&& graph.contains_key(root)
    &&& sorts[root] is None
    &&& forall|class: u32| #[trigger]
        graph.contains_key(class) ==> {
            &&& are_rows(state, list, graph[class], found_rows(state, list, class, sorts[class]))
            &&& reached(graph, root, class)
            &&& class != root ==> sorts[class] is Some && exists|from: u32| #[trigger]
                holds(graph, from, class, sorts[class]->0)
        }
}

/// Whatever a row of a reached e-class refers to is reached.
pub open spec fn is_closed(graph: Map<u32, Seq<ENode>>) -> bool {
    forall|from: u32, to: u32| #[trigger] edge(graph, from, to) ==> graph.contains_key(to)
}

/// The graph is the sub-e-graph that `root` reaches in the state.
pub open spec fn is_collected(
    state: egglog::FullState<'_, '_>,
    list: Seq<Constructor>,
    root: u32,
    graph: Map<u32, Seq<ENode>>,
) -> bool {
    &&& is_closed(graph)
    &&& exists|sorts: Map<u32, Option<Seq<char>>>| read_from(state, list, root, graph, sorts)
}

/// Every row of the graph lists the e-classes that its columns hold.
spec fn lists_leaves(nodes: Seq<ENode>) -> bool {
    forall|k: int| 0 <= k < nodes.len() ==> (#[trigger] nodes[k]).deps@ == leaves(nodes[k].children@)
}

/// The e-classes inside the rows with the names of their sorts.
pub open spec fn node_visits(nodes: Seq<ENode>) -> Seq<(u32, Seq<char>)>
    decreases nodes.len(),
{
    if nodes.len() == 0 {
        Seq::empty()
    } else {
        node_visits(nodes.drop_last()) + visits(nodes.last().children@)
    }
}

proof fn lemma_node_visits(nodes: Seq<ENode>, visit: (u32, Seq<char>))
    ensures
        node_visits(nodes).contains(visit) <==> exists|k: int|
            0 <= k < nodes.len() && #[trigger] visits(nodes[k].children@).contains(visit),
    decreases nodes.len(),
{
    if nodes.len() > 0 {
        let front = nodes.drop_last();
        lemma_node_visits(front, visit);
        let left = node_visits(front);
        let right = visits(nodes.last().children@);
        let both = left + right;
        if left.contains(visit) {
            let i = left.index_of(visit);
            assert(both[i] == visit);
            let k = choose|k: int|
                0 <= k < front.len() && #[trigger] visits(front[k].children@).contains(visit);
            assert(visits(nodes[k].children@).contains(visit));
        }
        if right.contains(visit) {
            let i = right.index_of(visit);
            assert(both[left.len() + i] == visit);
            assert(visits(nodes[nodes.len() - 1].children@).contains(visit));
        }
        if both.contains(visit) {
            let i = both.index_of(visit);
            if i < left.len() {
                assert(left[i] == visit);
            } else {
                assert(right[i - left.len()] == visit);
            }
        }
        if exists|k: int|
            0 <= k < nodes.len() && #[trigger] visits(nodes[k].children@).contains(visit) {
            let k = choose|k: int|
                0 <= k < nodes.len() && #[trigger] visits(nodes[k].children@).contains(visit);
            if k < front.len() {
                assert(visits(front[k].children@).contains(visit));
            }
        }
    }
}

/// What a row refers to is visited, and what is visited is referred to.
proof fn lemma_deps_visited(nodes: Seq<ENode>, class: u32)
    requires
        lists_leaves(nodes),
    ensures
        class_deps(nodes).contains(class) <==> exists|sort: Seq<char>| #[trigger]
            node_visits(nodes).contains((class, sort)),
{
    lemma_class_deps(nodes, class);
    if class_deps(nodes).contains(class) {
        let k = choose|k: int| 0 <= k < nodes.len() && (#[trigger] nodes[k]).deps@.contains(class);
        let children = nodes[k].children@;
        lemma_visits(children);
        let i = nodes[k].deps@.index_of(class);
        assert(targets(visits(children))[i] == class);
        let sort = visits(children)[i].1;
        assert(visits(children)[i] == (class, sort));
        assert(visits(nodes[k].children@).contains((class, sort)));
        lemma_node_visits(nodes, (class, sort));
    }
    if exists|sort: Seq<char>| #[trigger] node_visits(nodes).contains((class, sort)) {
        let sort = choose|sort: Seq<char>| #[trigger] node_visits(nodes).contains((class, sort));
        lemma_node_visits(nodes, (class, sort));
        let k = choose|k: int|
            0 <= k < nodes.len() && #[trigger] visits(nodes[k].children@).contains((class, sort));
        let children = nodes[k].children@;
        lemma_visits(children);
        let i = visits(children).index_of((class, sort));
        assert(targets(visits(children))[i] == class);
        assert(nodes[k].deps@[i] == class);
    }
}

/// A further e-class takes nothing away.
proof fn lemma_graph_grows(
    graph: Map<u32, Seq<ENode>>,
    root: u32,
    class: u32,
    nodes: Seq<ENode>,
)
    requires
        !graph.contains_key(class),
    ensures
        forall|from: u32, to: u32|
            edge(graph, from, to) ==> #[trigger] edge(graph.insert(class, nodes), from, to),
        forall|to: u32|
            reached(graph, root, to) ==> #[trigger] reached(graph.insert(class, nodes), root, to),
        forall|from: u32, to: u32, sort: Seq<char>|
            holds(graph, from, to, sort) ==> #[trigger] holds(
                graph.insert(class, nodes),
                from,
                to,
                sort,
            ),
{
    let more = graph.insert(class, nodes);
    assert forall|to: u32| reached(graph, root, to) implies #[trigger] reached(more, root, to) by {
        let path = choose|path: Seq<u32>| leads(graph, root, to, path);
        assert forall|i: int| 0 <= i < path.len() - 1 implies #[trigger] edge(
            more,
            path[i],
            path[i + 1],
        ) by {
            assert(edge(graph, path[i], path[i + 1]));
        }
        assert(leads(more, root, to, path));
    }
    assert forall|from: u32, to: u32, sort: Seq<char>| holds(
        graph,
        from,
        to,
        sort,
    ) implies #[trigger] holds(more, from, to, sort) by {
        let k = choose|k: int|
            0 <= k < graph[from].len() && #[trigger] visits(graph[from][k].children@).contains(
                (to, sort),
            );
        assert(visits(more[from][k].children@).contains((to, sort)));
    }
}

/// What a reached e-class refers to is reached.
proof fn lemma_reached_step(graph: Map<u32, Seq<ENode>>, root: u32, from: u32, to: u32)
    requires
        reached(graph, root, from),
        edge(graph, from, to),
    ensures
        reached(graph, root, to),
{
    let path = choose|path: Seq<u32>| leads(graph, root, from, path);
    let longer = path.push(to);
    assert forall|i: int| 0 <= i < longer.len() - 1 implies #[trigger] edge(
        graph,
        longer[i],
        longer[i + 1],
    ) by {
        if i < path.len() - 1 {
            assert(edge(graph, path[i], path[i + 1]));
        }
    }
    assert(leads(graph, root, to, longer));
}

/// Records an e-class and appends the visits of its rows.
fn record(snapshot: &mut Snapshot, stack: &mut Vec<Visit>, class: u32, nodes: Vec<ENode>)
    requires
        old(snapshot).wf(),
        !old(snapshot).graph().contains_key(class),
    ensures
        final(snapshot).wf(),
        final(snapshot).graph() == old(snapshot).graph().insert(class, nodes@),
        visit_views(final(stack)@) == visit_views(old(stack)@) + node_visits(nodes@),
{
    let ghost was = *snapshot;
    let ghost pending = visit_views(stack@);
    assert(pending =~= pending + node_visits(nodes@.take(0)));
    for k in 0..nodes.len()
        invariant
            visit_views(stack@) == pending + node_visits(nodes@.take(k as int)),
    {
        let ghost had = visit_views(stack@);
        let children = &nodes[k].children;
        assert(had =~= had + visits(children@.take(0)));
        for j in 0..children.len()
            invariant
                visit_views(stack@) == had + visits(children@.take(j as int)),
        {
            push_visits(&children[j], stack);
            assert(children@.take(j + 1).drop_last() =~= children@.take(j as int));
            assert(visit_views(stack@) =~= had + visits(children@.take(j + 1)));
        }
        assert(children@.take(children@.len() as int) =~= children@);
        assert(nodes@.take(k + 1).drop_last() =~= nodes@.take(k as int));
        assert(visit_views(stack@) =~= pending + node_visits(nodes@.take(k + 1)));
    }
    assert(nodes@.take(nodes@.len() as int) =~= nodes@);
    let position = snapshot.classes.len();
    snapshot.index.insert(class, position);
    snapshot.classes.push(EClass { id: class, nodes });
    proof {
        assert forall|i: int| 0 <= i < snapshot.classes@.len() implies {
            &&& snapshot.index@.contains_key((#[trigger] snapshot.classes@[i]).id)
            &&& snapshot.index@[snapshot.classes@[i].id] == i
        } by {
            if i < was.classes@.len() {
                assert(snapshot.classes@[i] == was.classes@[i]);
            }
        }
        assert(snapshot.graph() =~= was.graph().insert(class, nodes@)) by {
            assert forall|other: u32| was.graph().contains_key(
                other,
            ) implies #[trigger] snapshot.graph()[other] == was.graph()[other] by {
                let p = was.index@[other] as int;
                assert(snapshot.classes@[p] == was.classes@[p]);
            }
        }
    }
}

/// Gathers the reachable rows, starting from `root`.
pub fn collect(
    state: &mut egglog::FullState<'_, '_>,
    list: &Vec<Constructor>,
    root: u32,
) -> (snapshot: Snapshot)
    requires
        owns(*old(state)),
        lists_constructors(*old(state), list@),
        in_step(*old(state)),
    ensures
        *final(state) == *old(state),
        snapshot.wf(),
        is_collected(*old(state), list@, root, snapshot.graph()),
        all_shaped(*old(state), list@, snapshot.graph()),
{
    let ghost base = *state;
    let mut snapshot = Snapshot { classes: Vec::new(), index: HashMap::new() };
    let mut stack: Vec<Visit> = Vec::new();
    let nodes = read_class(state, list, root, None);
    let ghost mut sorts: Map<u32, Option<Seq<char>>> = Map::empty().insert(root, None);
    let ghost first = nodes@;
    record(&mut snapshot, &mut stack, root, nodes);
    proof {
        let graph = snapshot.graph();
        assert(graph.dom() =~= sorts.dom());
        assert(leads(graph, root, root, seq![root]));
        lemma_rows_list_leaves(base, list@, first, found_rows(base, list@, root, None));
        assert forall|from: u32, to: u32| #[trigger] edge(graph, from, to) implies to_visit(
            visit_views(stack@),
            to,
        ) by {
            lemma_deps_visited(first, to);
            let sort = choose|sort: Seq<char>| #[trigger] node_visits(first).contains((to, sort));
            assert(visit_views(stack@) =~= node_visits(first));
            assert(visit_views(stack@).contains((to, sort)));
        }
        assert forall|i: int| 0 <= i < stack@.len() implies is_held(
            graph,
            (#[trigger] stack@[i]).value,
            stack@[i].sort@,
        ) by {
            let visit = (stack@[i].value, stack@[i].sort@);
            assert(visit_views(stack@) =~= node_visits(first));
            assert(visit_views(stack@)[i] == visit);
            assert(node_visits(first).contains(visit));
            lemma_node_visits(first, visit);
            let k = choose|k: int|
                0 <= k < first.len() && #[trigger] visits(first[k].children@).contains(visit);
            assert(visits(graph[root][k].children@).contains(visit));
            assert(holds(graph, root, visit.0, visit.1));
        }
    }
    loop
        invariant
            *state == base,
            base == *old(state),
            snapshot.wf(),
            owns(base),
            lists_constructors(base, list@),
            in_step(base),
            all_shaped(base, list@, snapshot.graph()),
            read_from(base, list@, root, snapshot.graph(), sorts),
            forall|from: u32, to: u32| #[trigger]
                edge(snapshot.graph(), from, to) ==> snapshot.graph().contains_key(to) || to_visit(
                    visit_views(stack@),
                    to,
                ),
            forall|i: int|
                0 <= i < stack@.len() ==> is_held(
                    snapshot.graph(),
                    (#[trigger] stack@[i]).value,
                    stack@[i].sort@,
                ),
        ensures
            stack@.len() == 0,
        decreases all_values().difference(snapshot.index@.dom()).len(), stack@.len(),
    {
        let ghost graph = snapshot.graph();
        let ghost pending = stack@;
        let visit = match stack.pop() {
            None => {
                break;
            },
            Some(visit) => visit,
        };
        proof {
            assert(pending.last() == visit);
            assert(pending[pending.len() - 1] == visit);
            assert forall|to: u32| to_visit(visit_views(pending), to) implies to == visit.value
                || to_visit(visit_views(stack@), to) by {
                let sort = choose|sort: Seq<char>| #[trigger]
                    visit_views(pending).contains((to, sort));
                let i = visit_views(pending).index_of((to, sort));
                if i < stack@.len() {
                    assert(stack@[i] == pending[i]);
                    assert(visit_views(stack@)[i] == (to, sort));
                    assert(visit_views(stack@).contains((to, sort)));
                }
            }
            assert forall|i: int| 0 <= i < stack@.len() implies is_held(
                graph,
                (#[trigger] stack@[i]).value,
                stack@[i].sort@,
            ) by {
                assert(stack@[i] == pending[i]);
            }
        }
        if snapshot.index.contains_key(&visit.value) {
            continue ;
        }
        let found = read_class(state, list, visit.value, Some(visit.sort.as_str()));
        let ghost rows = found@;
        let ghost waiting = stack@;
        let ghost ids = snapshot.index@.dom();
        let ghost known = sorts;
        proof {
            sorts = sorts.insert(visit.value, Some(visit.sort@));
        }
        record(&mut snapshot, &mut stack, visit.value, found);
        proof {
            let class = visit.value;
            let more = snapshot.graph();
            assert forall|other: u32, k: int|
                more.contains_key(other) && 0 <= k < more[other].len() implies is_shaped(
                base,
                list@,
                #[trigger] more[other][k],
            ) by {
                if other == class {
                    assert(more[other][k] == rows[k]);
                } else {
                    assert(more[other][k] == graph[other][k]);
                }
            }
            lemma_graph_grows(graph, root, class, rows);
            lemma_rows_list_leaves(
                base,
                list@,
                rows,
                found_rows(base, list@, class, Some(visit.sort@)),
            );
            let from = choose|from: u32| #[trigger] holds(graph, from, class, visit.sort@);
            lemma_rows_list_leaves(
                base,
                list@,
                graph[from],
                found_rows(base, list@, from, known[from]),
            );
            lemma_holds_edge(graph, from, class, visit.sort@);
            assert(edge(more, from, class));
            lemma_reached_step(more, root, from, class);
            assert(sorts.dom() =~= more.dom());
            assert forall|other: u32| #[trigger] more.contains_key(other) implies {
                &&& are_rows(base, list@, more[other], found_rows(base, list@, other, sorts[other]))
                &&& reached(more, root, other)
                &&& other != root ==> sorts[other] is Some && exists|source: u32| #[trigger]
                    holds(more, source, other, sorts[other]->0)
            } by {
                if other == class {
                    assert(holds(more, from, class, visit.sort@));
                } else {
                    assert(graph.contains_key(other));
                    assert(reached(graph, root, other));
                    if other != root {
                        let source = choose|source: u32| #[trigger]
                            holds(graph, source, other, known[other]->0);
                        assert(holds(more, source, other, sorts[other]->0));
                    }
                }
            }
            let views = visit_views(stack@);
            assert(views == visit_views(waiting) + node_visits(rows));
            assert forall|source: u32, to: u32| #[trigger]
                edge(more, source, to) implies more.contains_key(to) || to_visit(views, to) by {
                if source == class {
                    lemma_deps_visited(rows, to);
                    let sort = choose|sort: Seq<char>| #[trigger]
                        node_visits(rows).contains((to, sort));
                    let i = node_visits(rows).index_of((to, sort));
                    assert(views[visit_views(waiting).len() + i] == (to, sort));
                    assert(views.contains((to, sort)));
                } else {
                    assert(edge(graph, source, to));
                    if !graph.contains_key(to) && to != class {
                        let sort = choose|sort: Seq<char>| #[trigger]
                            visit_views(waiting).contains((to, sort));
                        let i = visit_views(waiting).index_of((to, sort));
                        assert(views[i] == (to, sort));
                        assert(views.contains((to, sort)));
                    }
                }
            }
            assert forall|i: int| 0 <= i < stack@.len() implies is_held(
                more,
                (#[trigger] stack@[i]).value,
                stack@[i].sort@,
            ) by {
                assert(views[i] == (stack@[i].value, stack@[i].sort@));
                assert(visit_views(waiting).len() == waiting.len());
                assert(views.len() == stack@.len());
                if i < waiting.len() {
                    assert(visit_views(waiting)[i] == (waiting[i].value, waiting[i].sort@));
                    let source = choose|source: u32| #[trigger]
                        holds(graph, source, waiting[i].value, waiting[i].sort@);
                    assert(holds(more, source, stack@[i].value, stack@[i].sort@));
                } else {
                    let item = (stack@[i].value, stack@[i].sort@);
                    assert(node_visits(rows)[i - waiting.len()] == item);
                    assert(node_visits(rows).contains(item));
                    lemma_node_visits(rows, item);
                    let k = choose|k: int|
                        0 <= k < rows.len() && #[trigger] visits(rows[k].children@).contains(item);
                    assert(visits(more[class][k].children@).contains(item));
                    assert(holds(more, class, item.0, item.1));
                }
            }
            lemma_all_values_finite();
            assert(snapshot.index@.dom() =~= ids.insert(class)) by {
                assert forall|other: u32| snapshot.index@.contains_key(other) <==> ids.insert(
                    class,
                ).contains(other) by {
                    assert(more.contains_key(other) <==> snapshot.index@.contains_key(other));
                    assert(graph.contains_key(other) <==> ids.contains(other));
                }
            }
            assert(all_values().difference(snapshot.index@.dom()) =~= all_values().difference(
                ids,
            ).remove(class));
        }
    }
    proof {
        assert forall|from: u32, to: u32| #[trigger] edge(
            snapshot.graph(),
            from,
            to,
        ) implies snapshot.graph().contains_key(to) by {
            assert(visit_views(stack@).len() == 0);
        }
    }
    snapshot
}

/// Some row holds `class`, as an e-class of the sort.
spec fn is_held(graph: Map<u32, Seq<ENode>>, class: u32, sort: Seq<char>) -> bool {
    exists|from: u32| #[trigger] holds(graph, from, class, sort)
}

/// Some visit goes to the e-class.
spec fn to_visit(list: Seq<(u32, Seq<char>)>, class: u32) -> bool {
    exists|sort: Seq<char>| #[trigger] list.contains((class, sort))
}

proof fn lemma_rows_list_leaves(
    state: egglog::FullState<'_, '_>,
    list: Seq<Constructor>,
    nodes: Seq<ENode>,
    rows: Seq<(int, Seq<u32>, bool)>,
)
    requires
        are_rows(state, list, nodes, rows),
    ensures
        lists_leaves(nodes),
{
    assert forall|k: int| 0 <= k < nodes.len() implies (#[trigger] nodes[k]).deps@ == leaves(
        nodes[k].children@,
    ) by {
        assert(is_row(state, list, nodes[k], rows[k]));
    }
}

proof fn lemma_holds_edge(
    graph: Map<u32, Seq<ENode>>,
    from: u32,
    class: u32,
    sort: Seq<char>,
)
    requires
        holds(graph, from, class, sort),
        lists_leaves(graph[from]),
    ensures
        edge(graph, from, class),
{
    lemma_node_visits(graph[from], (class, sort));
    lemma_deps_visited(graph[from], class);
}

} // verus!

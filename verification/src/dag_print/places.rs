//! Where the terms of a DAG stand in what is printed.

use vstd::prelude::*;
use crate::dag_print::{
    arguments, binding_names, body, children, is_bound, is_dag, lemma_reachable_is_used,
    literal_text, naming, reachable, references, shown, uses, Node,
};
use crate::lists::occurrences;
use crate::text::{consists_of, lemma_consists_of_more, lemma_consists_of_nothing};

verus! {

/// The terms lead from one to another: each is a child of the next.
pub open spec fn is_path(list: Seq<Node>, path: Seq<int>) -> bool {
    &&& path.len() > 0
    &&& forall|k: int| 0 <= k < path.len() ==> 0 <= #[trigger] path[k] < list.len()
    &&& forall|k: int|
        0 <= k < path.len() - 1 ==> is_child(list, #[trigger] path[k], path[k + 1])
}

/// The term is one of the children of the other.
pub open spec fn is_child(list: Seq<Node>, id: int, parent: int) -> bool {
    list[parent] matches Node::App(_, args) && exists|j: int|
        0 <= j < args.len() && #[trigger] args[j] == id
}

/// The terms lead from this one to a root.
pub open spec fn leads_to_root(list: Seq<Node>, roots: Seq<usize>, id: int, path: Seq<int>) -> bool {
    &&& is_path(list, path)
    &&& path[0] == id
    &&& exists|i: int| 0 <= i < roots.len() && #[trigger] roots[i] == path.last()
}

proof fn lemma_child(list: Seq<Node>, id: int, parent: int)
    requires
        0 <= id <= usize::MAX,
    ensures
        is_child(list, id, parent) <==> children(list[parent]).contains(id as usize),
{
    if children(list[parent]).contains(id as usize) {
        let args = children(list[parent]);
        let j = args.index_of(id as usize);
        assert(list[parent] is App);
        assert(args[j] == id);
    }
    if is_child(list, id, parent) {
        let args = children(list[parent]);
        let j = choose|j: int| 0 <= j < args.len() && #[trigger] args[j] == id;
        assert(children(list[parent])[j] == id as usize);
    }
}

/// A term is printed if and only if some path leads from it to a root.
pub proof fn lemma_printed_terms_lead_to_roots(list: Seq<Node>, roots: Seq<usize>, id: int)
    requires
        is_dag(list),
        list.len() <= usize::MAX,
        0 <= id < list.len(),
    ensures
        reachable(list, roots, id) <==> exists|path: Seq<int>| #[trigger]
            leads_to_root(list, roots, id, path),
    decreases list.len() - id,
{
    if reachable(list, roots, id) {
        if roots.contains(id as usize) {
            let path = seq![id];
            assert(roots[roots.index_of(id as usize)] == path.last());
            assert(leads_to_root(list, roots, id, path));
        } else {
            let parent = choose|parent: int|
                id < parent < list.len() && children(#[trigger] list[parent]).contains(id as usize)
                    && reachable(list, roots, parent);
            lemma_printed_terms_lead_to_roots(list, roots, parent);
            let rest = choose|path: Seq<int>| #[trigger] leads_to_root(list, roots, parent, path);
            let path = seq![id] + rest;
            lemma_child(list, id, parent);
            assert forall|k: int| 0 <= k < path.len() - 1 implies is_child(
                list,
                #[trigger] path[k],
                path[k + 1],
            ) by {
                if k > 0 {
                    assert(rest[k - 1] == path[k]);
                    assert(rest[k] == path[k + 1]);
                }
            }
            assert forall|k: int| 0 <= k < path.len() implies 0 <= #[trigger] path[k]
                < list.len() by {
                if k > 0 {
                    assert(rest[k - 1] == path[k]);
                }
            }
            assert(path.last() == rest.last());
            assert(leads_to_root(list, roots, id, path));
        }
    }
    if exists|path: Seq<int>| #[trigger] leads_to_root(list, roots, id, path) {
        let path = choose|path: Seq<int>| #[trigger] leads_to_root(list, roots, id, path);
        let i = choose|i: int| 0 <= i < roots.len() && #[trigger] roots[i] == path.last();
        if path.len() == 1 {
            assert(roots[i] == id as usize);
            assert(roots.contains(id as usize));
        } else {
            let rest = path.skip(1);
            let parent = path[1];
            assert(is_child(list, path[0], path[1]));
            lemma_child(list, id, parent);
            let j = children(list[parent]).index_of(id as usize);
            assert(children(list[parent])[j] < parent);
            assert forall|k: int| 0 <= k < rest.len() - 1 implies is_child(
                list,
                #[trigger] rest[k],
                rest[k + 1],
            ) by {
                assert(is_child(list, path[k + 1], path[k + 1 + 1]));
            }
            assert forall|k: int| 0 <= k < rest.len() implies 0 <= #[trigger] rest[k]
                < list.len() by {
                assert(rest[k] == path[k + 1]);
            }
            assert(rest.last() == path.last());
            assert(roots[i] == rest.last());
            assert(leads_to_root(list, roots, parent, rest));
            lemma_printed_terms_lead_to_roots(list, roots, parent);
            assert(children(list[parent]).contains(id as usize));
        }
    }
}

/// A place in what is printed.
pub enum Place {
    /// The root at this position.
    Root(int),
    /// The child at this position of the term of this id.
    Child(int, int),
}

/// The term stands in the place, and the place is printed.
pub open spec fn stands_in(list: Seq<Node>, roots: Seq<usize>, id: usize, place: Place) -> bool {
    match place {
        Place::Root(i) => 0 <= i < roots.len() && roots[i] == id,
        Place::Child(parent, j) => {
            &&& 0 <= parent < list.len()
            &&& reachable(list, roots, parent)
            &&& list[parent] matches Node::App(_, args)
            &&& 0 <= j < args.len()
            &&& args[j] == id
        },
    }
}

/// The term stands in two places that are not the same.
pub open spec fn stands_twice(
    list: Seq<Node>,
    roots: Seq<usize>,
    id: usize,
    first: Place,
    second: Place,
) -> bool {
    &&& stands_in(list, roots, id, first)
    &&& stands_in(list, roots, id, second)
    &&& first != second
}

proof fn lemma_two_occurrences<T>(list: Seq<T>, value: T) -> (found: (int, int))
    requires
        occurrences(list, value) >= 1,
    ensures
        0 <= found.0 < list.len(),
        list[found.0] == value,
        occurrences(list, value) >= 2 ==> {
            &&& found.0 != found.1
            &&& 0 <= found.1 < list.len()
            &&& list[found.1] == value
        },
    decreases list.len(),
{
    let front = list.drop_last();
    if list.last() == value {
        if occurrences(front, value) >= 1 {
            let (i, _) = lemma_two_occurrences(front, value);
            assert(front[i] == list[i]);
            (list.len() - 1, i)
        } else {
            (list.len() - 1, 0)
        }
    } else {
        let (i, j) = lemma_two_occurrences(front, value);
        assert(front[i] == list[i]);
        (i, j)
    }
}

proof fn lemma_occurs_at<T>(list: Seq<T>, value: T, i: int)
    requires
        0 <= i < list.len(),
        list[i] == value,
    ensures
        occurrences(list, value) >= 1,
        forall|j: int|
            0 <= j < list.len() && j != i && #[trigger] list[j] == value ==> occurrences(list, value)
                >= 2,
    decreases list.len(),
{
    let front = list.drop_last();
    if i < front.len() {
        assert(front[i] == value);
        lemma_occurs_at(front, value, i);
        assert forall|j: int|
            0 <= j < list.len() && j != i && #[trigger] list[j] == value implies occurrences(
            list,
            value,
        ) >= 2 by {
            if j < front.len() {
                assert(front[j] == value);
            }
        }
    } else {
        assert forall|j: int|
            0 <= j < list.len() && j != i && #[trigger] list[j] == value implies occurrences(
            list,
            value,
        ) >= 2 by {
            assert(front[j] == value);
            lemma_occurs_at(front, value, j);
        }
    }
}

/// The place is one of a child of a term from `from` on.
spec fn is_from(place: Place, from: int) -> bool {
    place matches Place::Child(parent, _) && from <= parent
}

proof fn lemma_two_references(list: Seq<Node>, roots: Seq<usize>, id: usize, from: int) -> (found: (
    Place,
    Place,
))
    requires
        0 <= from,
        references(list, roots, id, from) >= 1,
    ensures
        stands_in(list, roots, id, found.0),
        is_from(found.0, from),
        references(list, roots, id, from) >= 2 ==> stands_twice(
            list,
            roots,
            id,
            found.0,
            found.1,
        ) && is_from(found.1, from),
    decreases list.len() - from,
{
    let args = children(list[from]);
    let here = if reachable(list, roots, from) {
        occurrences(args, id)
    } else {
        0
    };
    if here == 0 {
        lemma_two_references(list, roots, id, from + 1)
    } else {
        let (i, j) = lemma_two_occurrences(args, id);
        assert(list[from] is App);
        let first = Place::Child(from, i);
        if here >= 2 {
            (first, Place::Child(from, j))
        } else if references(list, roots, id, from + 1) >= 1 {
            let (later, _) = lemma_two_references(list, roots, id, from + 1);
            (first, later)
        } else {
            (first, first)
        }
    }
}

proof fn lemma_referenced_at(
    list: Seq<Node>,
    roots: Seq<usize>,
    id: usize,
    from: int,
    first: Place,
)
    requires
        0 <= from,
        stands_in(list, roots, id, first),
        is_from(first, from),
    ensures
        references(list, roots, id, from) >= 1,
        forall|second: Place| #[trigger]
            stands_in(list, roots, id, second) && is_from(second, from) && second != first
                ==> references(list, roots, id, from) >= 2,
    decreases list.len() - from,
{
    let args = children(list[from]);
    let parent = first->Child_0;
    let i = first->Child_1;
    if parent == from {
        lemma_occurs_at(args, id, i);
    } else {
        lemma_referenced_at(list, roots, id, from + 1, first);
    }
    assert forall|second: Place| #[trigger]
        stands_in(list, roots, id, second) && is_from(second, from) && second
            != first implies references(list, roots, id, from) >= 2 by {
        let other = second->Child_0;
        let j = second->Child_1;
        if other == from {
            lemma_occurs_at(args, id, j);
            if parent == from {
                assert(args[j] == id);
            }
        } else {
            lemma_referenced_at(list, roots, id, from + 1, second);
        }
    }
}

/// A printed term gets a name of its own if and only if it is an application and stands in
/// two places or more: as a root, or as a child of a printed term.
pub proof fn lemma_shared_terms_are_bound(list: Seq<Node>, roots: Seq<usize>, id: usize)
    requires
        is_dag(list),
        id < list.len(),
    ensures
        is_bound(list, roots, id as int) <==> list[id as int] is App && exists|
            first: Place,
            second: Place,
        | #[trigger] stands_twice(list, roots, id, first, second),
{
    let direct = occurrences(roots, id);
    let indirect = references(list, roots, id, 0);
    lemma_reachable_is_used(list, roots, id, 0);
    if is_bound(list, roots, id as int) {
        if direct >= 1 {
            let (i, j) = lemma_two_occurrences(roots, id);
            if direct >= 2 {
                assert(stands_twice(list, roots, id, Place::Root(i), Place::Root(j)));
            } else {
                let (child, _) = lemma_two_references(list, roots, id, 0);
                assert(stands_twice(list, roots, id, Place::Root(i), child));
            }
        } else {
            let (first, second) = lemma_two_references(list, roots, id, 0);
            assert(stands_twice(list, roots, id, first, second));
        }
    }
    if exists|first: Place, second: Place| #[trigger]
        stands_twice(list, roots, id, first, second) {
        let (first, second) = choose|first: Place, second: Place| #[trigger]
            stands_twice(list, roots, id, first, second);
        match first {
            Place::Root(i) => {
                lemma_occurs_at(roots, id, i);
                match second {
                    Place::Root(j) => {
                        assert(roots[j] == id);
                    },
                    Place::Child(_, _) => {
                        lemma_referenced_at(list, roots, id, 0, second);
                    },
                }
            },
            Place::Child(_, _) => {
                lemma_referenced_at(list, roots, id, 0, first);
                match second {
                    Place::Root(j) => {
                        lemma_occurs_at(roots, id, j);
                    },
                    Place::Child(_, _) => {
                        assert(stands_in(list, roots, id, second));
                    },
                }
            },
        }
        assert(uses(list, roots, id) >= 2);
    }
}

/// A child as it is printed: its name where it has one, and its text where it has none.
pub open spec fn child_text(list: Seq<Node>, names: Map<int, Seq<char>>, id: int) -> Seq<char> {
    if names.contains_key(id) {
        names[id]
    } else {
        body(list, names, id)
    }
}

/// The texts of the children, each with a space before it.
pub open spec fn child_parts(list: Seq<Node>, names: Map<int, Seq<char>>, args: Seq<usize>) -> Seq<
    Seq<char>,
> {
    Seq::new(args.len(), |j: int| " "@ + child_text(list, names, args[j] as int))
}

proof fn lemma_arguments_are_printed(
    list: Seq<Node>,
    names: Map<int, Seq<char>>,
    id: int,
    args: Seq<usize>,
    before: Seq<char>,
)
    requires
        forall|j: int| 0 <= j < args.len() ==> #[trigger] args[j] < id,
    ensures
        consists_of(
            before + arguments(list, names, id, args),
            seq![before] + child_parts(list, names, args),
        ),
    decreases args.len(),
{
    let parts = seq![before] + child_parts(list, names, args);
    if args.len() == 0 {
        lemma_consists_of_nothing();
        lemma_consists_of_more(Seq::empty(), Seq::empty(), before);
        assert(Seq::<char>::empty() + before =~= before + arguments(list, names, id, args));
        assert(Seq::<Seq<char>>::empty().push(before) =~= parts);
    } else {
        let front = args.drop_last();
        assert forall|j: int| 0 <= j < front.len() implies #[trigger] front[j] < id by {
            assert(args[j] < id);
        }
        lemma_arguments_are_printed(list, names, id, front, before);
        let last = " "@ + child_text(list, names, args.last() as int);
        assert(args[args.len() - 1] < id);
        lemma_consists_of_more(
            before + arguments(list, names, id, front),
            seq![before] + child_parts(list, names, front),
            last,
        );
        assert((seq![before] + child_parts(list, names, front)).push(last) =~= parts);
        assert((before + arguments(list, names, id, front)) + last =~= before + arguments(
            list,
            names,
            id,
            args,
        ));
    }
}

/// A literal is printed as its text and a variable as its name. An application is printed as
/// its head and its children in their order, with a space before each, between brackets.
pub proof fn lemma_terms_are_printed(list: Seq<Node>, names: Map<int, Seq<char>>, id: int)
    requires
        is_dag(list),
        0 <= id < list.len(),
    ensures
        match list[id] {
            Node::Lit(literal) => body(list, names, id) == literal_text(literal),
            Node::Var(name) => body(list, names, id) == name,
            Node::App(head, args) => consists_of(
                body(list, names, id),
                (seq!["("@ + head] + child_parts(list, names, args)).push(")"@),
            ),
        },
{
    if let Node::App(head, args) = list[id] {
        let before = "("@ + head;
        assert forall|j: int| 0 <= j < args.len() implies #[trigger] args[j] < id by {
            assert(children(list[id])[j] < id);
        }
        lemma_arguments_are_printed(list, names, id, args, before);
        lemma_consists_of_more(
            before + arguments(list, names, id, args),
            seq![before] + child_parts(list, names, args),
            ")"@,
        );
    }
}

proof fn lemma_named(list: Seq<Node>, roots: Seq<usize>, count: int, id: int)
    ensures
        naming(list, roots, count).0.contains_key(id) <==> 0 <= id < count && is_bound(
            list,
            roots,
            id,
        ),
    decreases count,
{
    if count > 0 {
        lemma_named(list, roots, count - 1, id);
    }
}

/// The terms that have names are those that are bound. Where one is referred to, its name is
/// printed, and where any other is, its text.
pub proof fn lemma_bound_terms_are_shown_by_name(list: Seq<Node>, roots: Seq<usize>, id: int)
    requires
        0 <= id < list.len(),
    ensures
        binding_names(list, roots).contains_key(id) <==> is_bound(list, roots, id),
        is_bound(list, roots, id) ==> shown(list, binding_names(list, roots), id)
            == binding_names(list, roots)[id],
        !is_bound(list, roots, id) ==> shown(list, binding_names(list, roots), id) == body(
            list,
            binding_names(list, roots),
            id,
        ),
{
    lemma_named(list, roots, list.len() as int, id);
}

} // verus!

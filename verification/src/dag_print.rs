//! Compact printing of term DAGs: subterms shared across the printed roots are
//! let-bound once instead of expanded at every use.
//!
//! - A binding is introduced only for an application that is referenced two or
//!   more times across all printed terms. Everything else is inlined, so that
//!   unshared output looks exactly like the ordinary printed form.
//! - Binding names are fresh `?t0`, `?t1`, ... names in dependency order, with
//!   names already used by term variables skipped. A definition may reference
//!   earlier names, like `let*`.

pub mod places;
pub mod sharing;

use vstd::prelude::*;
use crate::lists::{lemma_occurrences_contains, lemma_occurrences_take, occurrences};
use crate::text::{decimal, decimal_text, lemma_decimal_injective, lists};

verus! {

/// A term, its children given by their ids.
pub enum Node {
    /// A literal.
    Lit(egglog::ast::Literal),
    /// A variable.
    Var(Seq<char>),
    /// A head symbol applied to children.
    App(Seq<char>, Seq<usize>),
}

/// What a term says.
pub open spec fn node_of(term: egglog::Term) -> Node {
    match term {
        egglog::Term::Lit(literal) => Node::Lit(literal),
        egglog::Term::Var(name) => Node::Var(name@),
        egglog::Term::App(head, children) => Node::App(head@, children@),
    }
}

/// The terms of a DAG, each at its id.
pub uninterp spec fn nodes(dag: egglog::TermDag) -> Seq<Node>;

/// A number that two literals share if and only if they are equal as
/// literals.
pub uninterp spec fn literal_key(literal: egglog::ast::Literal) -> int;

/// How a literal is printed.
pub uninterp spec fn literal_text(literal: egglog::ast::Literal) -> Seq<char>;

/// The DAG does not tell the two terms apart.
pub open spec fn same_node(left: Node, right: Node) -> bool {
    match (left, right) {
        (Node::Lit(a), Node::Lit(b)) => literal_key(a) == literal_key(b),
        _ => left == right,
    }
}

/// A term was looked up or appended.
pub open spec fn interned(before: Seq<Node>, after: Seq<Node>, node: Node, id: usize) -> bool {
    ||| {
        &&& id < before.len()
        &&& same_node(before[id as int], node)
        &&& after == before
    }
    ||| {
        &&& id == before.len()
        &&& forall|other: int| 0 <= other < before.len() ==> !same_node(#[trigger] before[other], node)
        &&& after == before.push(node)
    }
}

/// The children of a term.
pub open spec fn children(node: Node) -> Seq<usize> {
    match node {
        Node::App(_, list) => list,
        _ => Seq::empty(),
    }
}

/// Children come before their parents.
pub open spec fn is_dag(list: Seq<Node>) -> bool {
    forall|id: int, j: int|
        0 <= id < list.len() && 0 <= j < children(list[id]).len() ==> #[trigger] children(
            list[id],
        )[j] < id
}

/// The text of a term that stands at `id`, with bound terms printed as their
/// names.
pub open spec fn body(list: Seq<Node>, names: Map<int, Seq<char>>, id: int) -> Seq<char>
    decreases id, children(list[id]).len() + 1,
{
    match list[id] {
        Node::Lit(literal) => literal_text(literal),
        Node::Var(name) => name,
        Node::App(head, args) => "("@ + head + arguments(list, names, id, args) + ")"@,
    }
}

/// The texts of the children, a space before each.
pub open spec fn arguments(
    list: Seq<Node>,
    names: Map<int, Seq<char>>,
    id: int,
    args: Seq<usize>,
) -> Seq<char>
    decreases id, args.len(),
{
    if args.len() == 0 {
        Seq::empty()
    } else {
        let child = args.last() as int;
        arguments(list, names, id, args.drop_last()) + " "@ + if names.contains_key(child) {
            names[child]
        } else if child < id {
            body(list, names, child)
        } else {
            Seq::empty()
        }
    }
}

/// How a reference to a term is printed.
pub open spec fn shown(list: Seq<Node>, names: Map<int, Seq<char>>, id: int) -> Seq<char> {
    if names.contains_key(id) {
        names[id]
    } else {
        body(list, names, id)
    }
}

/// The ordinary printed form of a term.
pub open spec fn plain(list: Seq<Node>, id: int) -> Seq<char> {
    body(list, Map::empty(), id)
}

/// The number of terms, by `TermDag::size`.
#[verifier::external_body]
pub(crate) fn dag_size(dag: &egglog::TermDag) -> (size: usize)
    ensures
        size == nodes(*dag).len(),
{
    dag.size()
}

/// The term of an id, by `TermDag::get`. No other id has an equal term.
#[verifier::external_body]
pub(crate) fn dag_get(dag: &egglog::TermDag, id: usize) -> (term: &egglog::Term)
    requires
        id < nodes(*dag).len(),
    ensures
        node_of(*term) == nodes(*dag)[id as int],
        forall|other: int|
            0 <= other < nodes(*dag).len() && other != id ==> !same_node(
                #[trigger] nodes(*dag)[other],
                node_of(*term),
            ),
{
    dag.get(id)
}

/// An empty DAG, by `TermDag::default`.
#[verifier::external_body]
pub(crate) fn dag_default() -> (dag: egglog::TermDag)
    ensures
        nodes(dag) == Seq::<Node>::empty(),
{
    egglog::TermDag::default()
}

/// Looks a literal up or appends it, by `TermDag::lit`.
#[verifier::external_body]
fn dag_lit(dag: &mut egglog::TermDag, literal: egglog::ast::Literal) -> (id: usize)
    ensures
        interned(nodes(*old(dag)), nodes(*final(dag)), Node::Lit(literal), id),
        match nodes(*final(dag))[id as int] {
            Node::Lit(held) => literal_key(held) == literal_key(literal),
            _ => false,
        },
{
    dag.lit(literal)
}

/// Looks a variable up or appends it, by `TermDag::var`.
#[verifier::external_body]
fn dag_var(dag: &mut egglog::TermDag, name: String) -> (id: usize)
    ensures
        interned(nodes(*old(dag)), nodes(*final(dag)), Node::Var(name@), id),
{
    dag.var(name)
}

/// Looks an application up or appends it, by `TermDag::app`.
#[verifier::external_body]
fn dag_app(dag: &mut egglog::TermDag, head: String, args: Vec<usize>) -> (id: usize)
    requires
        forall|j: int| 0 <= j < args@.len() ==> #[trigger] args@[j] < nodes(*old(dag)).len(),
    ensures
        interned(nodes(*old(dag)), nodes(*final(dag)), Node::App(head@, args@), id),
{
    dag.app(head, args)
}

/// The printed form of a term, by `TermDag::to_string`.
#[verifier::external_body]
pub(crate) fn dag_to_string(dag: &egglog::TermDag, id: usize) -> (text: String)
    requires
        id < nodes(*dag).len(),
        is_dag(nodes(*dag)),
    ensures
        text@ == plain(nodes(*dag), id as int),
        nodes(*dag)[id as int] matches Node::Lit(literal) ==> text@ == literal_text(literal),
{
    dag.to_string(id)
}

/// A term is printed: it is a root, or a child of a printed term.
pub open spec fn reachable(list: Seq<Node>, roots: Seq<usize>, id: int) -> bool
    decreases list.len() - id,
{
    ||| roots.contains(id as usize)
    ||| exists|parent: int|
        id < parent < list.len() && children(#[trigger] list[parent]).contains(id as usize)
            && reachable(list, roots, parent)
}

/// How often the printed terms from `from` on have a term as a child.
pub open spec fn references(list: Seq<Node>, roots: Seq<usize>, id: usize, from: int) -> nat
    decreases list.len() - from,
{
    if from < 0 || from >= list.len() {
        0
    } else {
        references(list, roots, id, from + 1) + if reachable(list, roots, from) {
            occurrences(children(list[from]), id)
        } else {
            0
        }
    }
}

/// How often a term is referenced: as a root, or as a child of a printed term.
pub open spec fn uses(list: Seq<Node>, roots: Seq<usize>, id: usize) -> nat {
    occurrences(roots, id) + references(list, roots, id, 0)
}

/// A printed application that is referenced two or more times is bound.
pub open spec fn is_bound(list: Seq<Node>, roots: Seq<usize>, id: int) -> bool {
    &&& reachable(list, roots, id)
    &&& list[id] is App
    &&& uses(list, roots, id as usize) >= 2
}

/// A name that a printed variable has.
pub open spec fn is_taken(list: Seq<Node>, roots: Seq<usize>, name: Seq<char>) -> bool {
    exists|id: int|
        0 <= id < list.len() && #[trigger] reachable(list, roots, id) && list[id] == Node::Var(name)
}

/// The name of a number.
pub open spec fn numbered(number: nat) -> Seq<char> {
    "?t"@ + decimal(number)
}

/// The names of numbers from `number` on that are taken.
spec fn taken_from(list: Seq<Node>, roots: Seq<usize>, number: nat) -> Set<nat> {
    Set::new(|other: nat| other >= number && is_taken(list, roots, numbered(other)))
}

proof fn lemma_taken_finite(list: Seq<Node>, roots: Seq<usize>, number: nat)
    ensures
        taken_from(list, roots, number).finite(),
        taken_from(list, roots, number).len() <= list.len(),
{
    let taken = taken_from(list, roots, number);
    let ids = vstd::set_lib::set_int_range(0, list.len() as int);
    vstd::set_lib::lemma_int_range(0, list.len() as int);
    let holder = |other: nat| -> int {
        choose|id: int|
            0 <= id < list.len() && #[trigger] reachable(list, roots, id) && list[id] == Node::Var(
                numbered(other),
            )
    };
    assert forall|other: nat| taken.contains(other) implies {
        &&& 0 <= #[trigger] holder(other) < list.len()
        &&& list[holder(other)] == Node::Var(numbered(other))
    } by {}
    assert forall|a: nat, b: nat|
        taken.contains(a) && taken.contains(b) && #[trigger] holder(a) == #[trigger] holder(
            b,
        ) implies a == b by {
        lemma_numbered_injective(a, b);
    }
    lemma_injection_bounds(taken, ids, holder);
}

/// Different numbers have different names.
pub proof fn lemma_numbered_injective(a: nat, b: nat)
    ensures
        numbered(a) == numbered(b) <==> a == b,
{
    let prefix = "?t"@;
    if numbered(a) == numbered(b) {
        assert(numbered(a).skip(prefix.len() as int) =~= decimal(a));
        assert(numbered(b).skip(prefix.len() as int) =~= decimal(b));
        lemma_decimal_injective(a, b);
    }
}

proof fn lemma_injection_bounds(from: Set<nat>, to: Set<int>, f: spec_fn(nat) -> int)
    requires
        to.finite(),
        forall|a: nat| from.contains(a) ==> to.contains(#[trigger] f(a)),
        forall|a: nat, b: nat|
            from.contains(a) && from.contains(b) && #[trigger] f(a) == #[trigger] f(b) ==> a == b,
    ensures
        from.finite(),
        from.len() <= to.len(),
    decreases to.len(),
{
    if exists|a: nat| from.contains(a) {
        let a = choose|a: nat| from.contains(a);
        let less = from.remove(a);
        lemma_injection_bounds(less, to.remove(f(a)), f);
        assert(from =~= less.insert(a));
    } else {
        assert(from =~= Set::empty());
    }
}

/// The first number from `number` on whose name is not taken.
pub open spec fn free_number(list: Seq<Node>, roots: Seq<usize>, number: nat) -> nat
    decreases taken_count(list, roots, number),
{
    if is_taken(list, roots, numbered(number)) {
        proof {
            lemma_taken_step(list, roots, number);
        }
        free_number(list, roots, number + 1)
    } else {
        number
    }
}

/// How many numbers from `number` on have names that are taken.
pub closed spec fn taken_count(list: Seq<Node>, roots: Seq<usize>, number: nat) -> nat {
    taken_from(list, roots, number).len()
}

/// A taken number leaves one less to pass.
pub proof fn lemma_taken_step(list: Seq<Node>, roots: Seq<usize>, number: nat)
    requires
        is_taken(list, roots, numbered(number)),
    ensures
        taken_count(list, roots, number + 1) + 1 == taken_count(list, roots, number),
{
    lemma_taken_finite(list, roots, number);
    assert(taken_from(list, roots, number + 1) =~= taken_from(list, roots, number).remove(number));
}

/// The names of the bound terms among the first `count`, in order of their
/// ids, and the number from which the search for the next name starts.
pub open spec fn naming(list: Seq<Node>, roots: Seq<usize>, count: int) -> (
    Map<int, Seq<char>>,
    nat,
)
    decreases count,
{
    if count <= 0 {
        (Map::empty(), 0)
    } else {
        let (names, next) = naming(list, roots, count - 1);
        if is_bound(list, roots, count - 1) {
            let number = free_number(list, roots, next);
            (names.insert(count - 1, numbered(number)), number + 1)
        } else {
            (names, next)
        }
    }
}

/// The names of all bound terms.
pub open spec fn binding_names(list: Seq<Node>, roots: Seq<usize>) -> Map<int, Seq<char>> {
    naming(list, roots, list.len() as int).0
}

/// The bindings for the first `count` terms, in order: each name with the
/// definition that it stands for.
pub open spec fn bindings_of(list: Seq<Node>, roots: Seq<usize>, count: int) -> Seq<
    (Seq<char>, Seq<char>),
>
    decreases count,
{
    if count <= 0 {
        Seq::empty()
    } else {
        let front = bindings_of(list, roots, count - 1);
        let names = binding_names(list, roots);
        if is_bound(list, roots, count - 1) {
            front.push((names[count - 1], body(list, names, count - 1)))
        } else {
            front
        }
    }
}

/// Names given later do not touch earlier ones.
pub(crate) proof fn lemma_naming_grows(list: Seq<Node>, roots: Seq<usize>, count: int, more: int)
    requires
        0 <= count <= more,
    ensures
        naming(list, roots, count).1 <= naming(list, roots, more).1,
        forall|id: int| #[trigger]
            naming(list, roots, more).0.contains_key(id) ==> 0 <= id < more && is_bound(
                list,
                roots,
                id,
            ),
        forall|id: int|
            id < count ==> {
                &&& #[trigger] naming(list, roots, more).0.contains_key(id) <==> naming(
                    list,
                    roots,
                    count,
                ).0.contains_key(id)
                &&& naming(list, roots, more).0.contains_key(id) ==> naming(list, roots, more).0[id]
                    == naming(list, roots, count).0[id]
            },
        forall|id: int|
            0 <= id < more && is_bound(list, roots, id) ==> #[trigger] naming(
                list,
                roots,
                more,
            ).0.contains_key(id),
    decreases more,
{
    if more > 0 {
        if count < more {
            lemma_naming_grows(list, roots, count, more - 1);
        } else {
            lemma_naming_grows(list, roots, count - 1, more - 1);
        }
        lemma_free_number(list, roots, naming(list, roots, more - 1).1);
    }
}

/// The first free number is free and not below where the search starts.
pub proof fn lemma_free_number(list: Seq<Node>, roots: Seq<usize>, number: nat)
    ensures
        free_number(list, roots, number) >= number,
        !is_taken(list, roots, numbered(free_number(list, roots, number))),
        forall|other: nat|
            number <= other < free_number(list, roots, number) ==> #[trigger] is_taken(
                list,
                roots,
                numbered(other),
            ),
    decreases taken_count(list, roots, number),
{
    if is_taken(list, roots, numbered(number)) {
        lemma_taken_step(list, roots, number);
        lemma_free_number(list, roots, number + 1);
    }
}

/// The text of a term depends only on the names of the terms before it.
pub proof fn lemma_body_names(
    list: Seq<Node>,
    names: Map<int, Seq<char>>,
    others: Map<int, Seq<char>>,
    id: int,
)
    requires
        is_dag(list),
        0 <= id < list.len(),
        forall|k: int|
            0 <= k < id ==> {
                &&& #[trigger] names.contains_key(k) <==> others.contains_key(k)
                &&& names.contains_key(k) ==> names[k] == others[k]
            },
    ensures
        body(list, names, id) == body(list, others, id),
    decreases id, children(list[id]).len() + 1,
{
    if let Node::App(head, args) = list[id] {
        assert forall|j: int| 0 <= j < args.len() implies #[trigger] args[j] < id by {
            assert(children(list[id])[j] < id);
        }
        lemma_arguments_names(list, names, others, id, args);
    }
}

proof fn lemma_arguments_names(
    list: Seq<Node>,
    names: Map<int, Seq<char>>,
    others: Map<int, Seq<char>>,
    id: int,
    args: Seq<usize>,
)
    requires
        is_dag(list),
        0 <= id < list.len(),
        forall|j: int| 0 <= j < args.len() ==> #[trigger] args[j] < id,
        forall|k: int|
            0 <= k < id ==> {
                &&& #[trigger] names.contains_key(k) <==> others.contains_key(k)
                &&& names.contains_key(k) ==> names[k] == others[k]
            },
    ensures
        arguments(list, names, id, args) == arguments(list, others, id, args),
    decreases id, args.len(),
{
    if args.len() > 0 {
        let child = args.last() as int;
        assert(args[args.len() - 1] < id);
        assert(names.contains_key(child) <==> others.contains_key(child));
        lemma_arguments_names(list, names, others, id, args.drop_last());
        lemma_body_names(list, names, others, child);
    }
}

/// Terms that are appended later do not touch the text of earlier ones.
proof fn lemma_body_prefix(list: Seq<Node>, more: Seq<Node>, id: int)
    requires
        is_dag(list),
        list.is_prefix_of(more),
        0 <= id < list.len(),
    ensures
        plain(list, id) == plain(more, id),
    decreases id, children(list[id]).len() + 1,
{
    assert(list[id] == more[id]);
    if let Node::App(head, args) = list[id] {
        assert forall|j: int| 0 <= j < args.len() implies #[trigger] args[j] < id by {
            assert(children(list[id])[j] < id);
        }
        lemma_arguments_prefix(list, more, id, args);
    }
}

proof fn lemma_arguments_prefix(list: Seq<Node>, more: Seq<Node>, id: int, args: Seq<usize>)
    requires
        is_dag(list),
        list.is_prefix_of(more),
        0 <= id < list.len(),
        forall|j: int| 0 <= j < args.len() ==> #[trigger] args[j] < id,
    ensures
        arguments(list, Map::empty(), id, args) == arguments(more, Map::empty(), id, args),
    decreases id, args.len(),
{
    if args.len() > 0 {
        assert(args[args.len() - 1] < id);
        lemma_arguments_prefix(list, more, id, args.drop_last());
        lemma_body_prefix(list, more, args.last() as int);
    }
}

/// Arguments whose texts agree print alike.
proof fn lemma_arguments_agree(
    list: Seq<Node>,
    names: Map<int, Seq<char>>,
    id: int,
    args: Seq<usize>,
    other: Seq<Node>,
    place: int,
    images: Seq<usize>,
)
    requires
        args.len() == images.len(),
        forall|j: int|
            0 <= j < args.len() ==> {
                &&& (#[trigger] args[j]) < id
                &&& images[j] < place
                &&& shown(list, names, args[j] as int) == plain(other, images[j] as int)
            },
    ensures
        arguments(list, names, id, args) == arguments(other, Map::empty(), place, images),
    decreases args.len(),
{
    if args.len() > 0 {
        assert(args[args.len() - 1] < id);
        assert forall|j: int| 0 <= j < args.drop_last().len() implies {
            &&& (#[trigger] args.drop_last()[j]) < id
            &&& images.drop_last()[j] < place
            &&& shown(list, names, args.drop_last()[j] as int) == plain(
                other,
                images.drop_last()[j] as int,
            )
        } by {
            assert(args[j] < id);
        }
        lemma_arguments_agree(
            list,
            names,
            id,
            args.drop_last(),
            other,
            place,
            images.drop_last(),
        );
    }
}

proof fn lemma_references(list: Seq<Node>, roots: Seq<usize>, id: usize, from: int)
    requires
        0 <= from,
    ensures
        references(list, roots, id, from) > 0 <==> exists|parent: int|
            from <= parent < list.len() && children(#[trigger] list[parent]).contains(id)
                && reachable(list, roots, parent),
    decreases list.len() - from,
{
    if from < list.len() {
        lemma_references(list, roots, id, from + 1);
        lemma_occurrences_contains(children(list[from]), id);
        if reachable(list, roots, from) && children(list[from]).contains(id) {
            assert(references(list, roots, id, from) > 0);
        }
    }
}

/// A term is printed if and only if it is referenced, and all references come
/// from later terms.
pub proof fn lemma_reachable_is_used(list: Seq<Node>, roots: Seq<usize>, id: usize, from: int)
    requires
        is_dag(list),
        id < list.len(),
        0 <= from <= id + 1,
    ensures
        reachable(list, roots, id as int) <==> occurrences(roots, id) + references(
            list,
            roots,
            id,
            from,
        ) > 0,
        references(list, roots, id, from) == references(list, roots, id, 0),
    decreases id + 1 - from,
{
    lemma_references(list, roots, id, from);
    lemma_occurrences_contains(roots, id);
    if reachable(list, roots, id as int) && !roots.contains(id) {
        let parent = choose|parent: int|
            id < parent < list.len() && children(#[trigger] list[parent]).contains(
                id as int as usize,
            ) && reachable(list, roots, parent);
        assert(children(list[parent]).contains(id));
    }
    if references(list, roots, id, from) > 0 {
        let parent = choose|parent: int|
            from <= parent < list.len() && children(#[trigger] list[parent]).contains(id)
                && reachable(list, roots, parent);
        let j = children(list[parent]).index_of(id);
        assert(children(list[parent])[j] < parent);
        assert(reachable(list, roots, id as int));
    }
    lemma_references_from_later(list, roots, id, 0, from);
}

proof fn lemma_references_from_later(
    list: Seq<Node>,
    roots: Seq<usize>,
    id: usize,
    low: int,
    high: int,
)
    requires
        is_dag(list),
        id < list.len(),
        0 <= low <= high <= id + 1,
    ensures
        references(list, roots, id, low) == references(list, roots, id, high),
    decreases high - low,
{
    if low < high {
        lemma_references_from_later(list, roots, id, low + 1, high);
        lemma_occurrences_contains(children(list[low]), id);
        if children(list[low]).contains(id) {
            let j = children(list[low]).index_of(id);
            assert(children(list[low])[j] < low);
        }
    }
}

/// Two or more count as two.
spec fn capped(count: nat) -> nat {
    if count >= 2 {
        2
    } else {
        count
    }
}

fn bump(counts: &mut Vec<u8>, id: usize)
    requires
        id < old(counts)@.len(),
        old(counts)@[id as int] <= 2,
    ensures
        final(counts)@ == old(counts)@.update(
            id as int,
            capped((old(counts)@[id as int] + 1) as nat) as u8,
        ),
{
    let count = counts[id];
    if count < 2 {
        counts.set(id, count + 1);
    } else {
        assert(counts@ =~= counts@.update(id as int, 2));
    }
}

/// Counts the references to each term, up to two.
///
/// Each child edge of a distinct printed application counts, plus each root
/// occurrence. A repeated parent will be bound, so that its children occur in
/// that one definition only, and its edges count once.
fn count_uses(dag: &egglog::TermDag, roots: &Vec<usize>) -> (counts: Vec<u8>)
    requires
        is_dag(nodes(*dag)),
        forall|i: int| 0 <= i < roots@.len() ==> #[trigger] roots@[i] < nodes(*dag).len(),
    ensures
        counts@.len() == nodes(*dag).len(),
        forall|id: int|
            0 <= id < counts@.len() ==> #[trigger] counts@[id] == capped(
                uses(nodes(*dag), roots@, id as usize),
            ),
{
    let ghost list = nodes(*dag);
    let size = dag_size(dag);
    let mut counts: Vec<u8> = Vec::new();
    for id in 0..size
        invariant
            counts@.len() == id,
            forall|k: int| 0 <= k < id ==> #[trigger] counts@[k] == 0,
    {
        counts.push(0);
    }
    for i in 0..roots.len()
        invariant
            size == list.len(),
            counts@.len() == size,
            forall|k: int| 0 <= k < roots@.len() ==> #[trigger] roots@[k] < size,
            forall|k: int|
                0 <= k < size ==> #[trigger] counts@[k] == capped(
                    occurrences(roots@.take(i as int), k as usize),
                ),
    {
        proof {
            assert forall|k: int| 0 <= k < size implies occurrences(
                roots@.take(i + 1),
                #[trigger] (k as usize),
            ) == occurrences(roots@.take(i as int), k as usize) + if roots@[i as int] == k {
                1nat
            } else {
                0nat
            } by {
                lemma_occurrences_take(roots@, i as int, k as usize);
            }
        }
        bump(&mut counts, roots[i]);
    }
    assert(roots@.take(roots@.len() as int) =~= roots@);
    let mut k: usize = size;
    while k > 0
        invariant
            list == nodes(*dag),
            is_dag(list),
            size == list.len(),
            k <= size,
            counts@.len() == size,
            forall|id: int|
                0 <= id < size ==> #[trigger] counts@[id] == capped(
                    occurrences(roots@, id as usize) + references(list, roots@, id as usize, k as int),
                ),
        decreases k,
    {
        k = k - 1;
        proof {
            lemma_reachable_is_used(list, roots@, k, k + 1);
        }
        assert(counts@[k as int] > 0 <==> reachable(list, roots@, k as int));
        if counts[k] > 0 {
            match dag_get(dag, k) {
                egglog::Term::App(_, args) => {
                    assert(children(list[k as int]) == args@);
                    let ghost before = counts@;
                    for j in 0..args.len()
                        invariant
                            list == nodes(*dag),
                            is_dag(list),
                            size == list.len(),
                            k < size,
                            children(list[k as int]) == args@,
                            before.len() == size,
                            counts@.len() == size,
                            forall|id: int|
                                0 <= id < size ==> #[trigger] counts@[id] == capped(
                                    occurrences(roots@, id as usize) + references(
                                        list,
                                        roots@,
                                        id as usize,
                                        k + 1,
                                    ) + occurrences(args@.take(j as int), id as usize),
                                ),
                    {
                        assert(children(list[k as int])[j as int] < k);
                        proof {
                            assert forall|id: int| 0 <= id < size implies occurrences(
                                args@.take(j + 1),
                                #[trigger] (id as usize),
                            ) == occurrences(args@.take(j as int), id as usize) + if args@[j as int]
                                == id {
                                1nat
                            } else {
                                0nat
                            } by {
                                lemma_occurrences_take(args@, j as int, id as usize);
                            }
                        }
                        bump(&mut counts, args[j]);
                    }
                    assert(args@.take(args@.len() as int) =~= args@);
                },
                _ => {
                    assert(children(list[k as int]).len() == 0);
                },
            }
        }
    }
    counts
}

/// The names that printed variables have.
fn taken_names(dag: &egglog::TermDag, roots: &Vec<usize>, counts: &Vec<u8>) -> (taken: Vec<String>)
    requires
        is_dag(nodes(*dag)),
        counts@.len() == nodes(*dag).len(),
        forall|id: int|
            0 <= id < counts@.len() ==> #[trigger] counts@[id] == capped(
                uses(nodes(*dag), roots@, id as usize),
            ),
    ensures
        forall|name: Seq<char>| #[trigger]
            lists(taken@, name) <==> is_taken(nodes(*dag), roots@, name),
{
    let ghost list = nodes(*dag);
    let mut taken: Vec<String> = Vec::new();
    for id in 0..counts.len()
        invariant
            list == nodes(*dag),
            is_dag(list),
            counts@.len() == list.len(),
            forall|k: int|
                0 <= k < counts@.len() ==> #[trigger] counts@[k] == capped(
                    uses(list, roots@, k as usize),
                ),
            forall|name: Seq<char>| #[trigger]
                lists(taken@, name) <==> exists|k: int|
                    0 <= k < id && #[trigger] reachable(list, roots@, k) && list[k] == Node::Var(
                        name,
                    ),
    {
        proof {
            lemma_reachable_is_used(list, roots@, id, 0);
        }
        assert(counts@[id as int] > 0 <==> reachable(list, roots@, id as int));
        let ghost before = taken@;
        if counts[id] > 0 {
            match dag_get(dag, id) {
                egglog::Term::Var(name) => {
                    taken.push(name.clone());
                    proof {
                        let text = name@;
                        assert(list[id as int] == Node::Var(text));
                        assert forall|other: Seq<char>| #[trigger]
                            lists(taken@, other) <==> lists(before, other) || other == text by {
                            assert(taken@[before.len() as int]@ == text);
                            if lists(before, other) {
                                let i = choose|i: int|
                                    0 <= i < before.len() && #[trigger] before[i]@ == other;
                                assert(taken@[i]@ == other);
                            }
                            if lists(taken@, other) {
                                let i = choose|i: int|
                                    0 <= i < taken@.len() && #[trigger] taken@[i]@ == other;
                                if i < before.len() {
                                    assert(before[i]@ == other);
                                }
                            }
                        }
                        assert forall|other: Seq<char>| #[trigger]
                            lists(taken@, other) <==> exists|k: int|
                                0 <= k < id + 1 && #[trigger] reachable(list, roots@, k) && list[k]
                                    == Node::Var(other) by {
                            if other == text {
                                assert(reachable(list, roots@, id as int));
                            }
                        }
                    }
                },
                _ => {},
            }
        }
    }
    taken
}

fn is_listed(strings: &Vec<String>, text: &String) -> (found: bool)
    ensures
        found == lists(strings@, text@),
{
    for i in 0..strings.len()
        invariant
            forall|j: int| 0 <= j < i ==> #[trigger] strings@[j]@ != text@,
    {
        if strings[i] == *text {
            return true;
        }
    }
    false
}

/// The search for names stays below the number of taken names and bindings.
proof fn lemma_naming_bound(list: Seq<Node>, roots: Seq<usize>, count: int)
    requires
        0 <= count,
    ensures
        naming(list, roots, count).1 + taken_count(list, roots, naming(list, roots, count).1)
            <= list.len() + count,
    decreases count,
{
    if count == 0 {
        lemma_taken_finite(list, roots, 0);
    } else {
        lemma_naming_bound(list, roots, count - 1);
        let next = naming(list, roots, count - 1).1;
        if is_bound(list, roots, count - 1) {
            let number = free_number(list, roots, next);
            lemma_free_number_bound(list, roots, next);
            lemma_free_number(list, roots, next);
            lemma_taken_finite(list, roots, number);
            assert(taken_from(list, roots, number + 1) =~= taken_from(list, roots, number));
        }
    }
}

proof fn lemma_free_number_bound(list: Seq<Node>, roots: Seq<usize>, number: nat)
    ensures
        free_number(list, roots, number) + taken_count(
            list,
            roots,
            free_number(list, roots, number),
        ) == number + taken_count(list, roots, number),
    decreases taken_count(list, roots, number),
{
    if is_taken(list, roots, numbered(number)) {
        lemma_taken_step(list, roots, number);
        lemma_free_number_bound(list, roots, number + 1);
    }
}

/// Finds the first number from `number` on whose name is not taken, and gives
/// it with the name.
fn find_name(
    taken: &Vec<String>,
    number: u128,
    Ghost(list): Ghost<Seq<Node>>,
    Ghost(roots): Ghost<Seq<usize>>,
) -> (found: (u128, String))
    requires
        forall|name: Seq<char>| #[trigger] lists(taken@, name) <==> is_taken(list, roots, name),
        number + taken_count(list, roots, number as nat) < u128::MAX,
    ensures
        found.0 == free_number(list, roots, number as nat),
        found.1@ == numbered(found.0 as nat),
{
    let mut candidate = number;
    loop
        invariant
            forall|name: Seq<char>| #[trigger]
                lists(taken@, name) <==> is_taken(list, roots, name),
            candidate + taken_count(list, roots, candidate as nat) < u128::MAX,
            free_number(list, roots, candidate as nat) == free_number(list, roots, number as nat),
        decreases taken_count(list, roots, candidate as nat),
    {
        let mut name = "?t".to_owned();
        name.append(decimal_text(candidate).as_str());
        assert(name@ == numbered(candidate as nat));
        if !is_listed(taken, &name) {
            return (candidate, name);
        }
        proof {
            lemma_taken_step(list, roots, candidate as nat);
        }
        candidate = candidate + 1;
    }
}

/// What a list of bindings says.
pub open spec fn binding_texts(bindings: Seq<(String, String)>) -> Seq<(Seq<char>, Seq<char>)> {
    bindings.map_values(|binding: (String, String)| (binding.0@, binding.1@))
}

/// Every literal of the projection comes from one of the first terms.
spec fn literals_from(projected: Seq<Node>, list: Seq<Node>, count: int) -> bool {
    forall|q: int|
        0 <= q < projected.len() && (#[trigger] projected[q]) is Lit ==> exists|p: int|
            0 <= p < count && #[trigger] list[p] == projected[q]
}

/// Renders `roots` against a single shared sequence of let bindings.
///
/// Gives the ordered `(name, definition)` bindings and the rendered text of
/// each root, in order. A root that is itself bound renders as its binding
/// name.
pub fn render_terms_with_shared_lets(dag: &egglog::TermDag, roots: &Vec<usize>) -> (rendered: (
    Vec<(String, String)>,
    Vec<String>,
))
    requires
        is_dag(nodes(*dag)),
        forall|i: int| 0 <= i < roots@.len() ==> #[trigger] roots@[i] < nodes(*dag).len(),
    ensures
        binding_texts(rendered.0@) == bindings_of(
            nodes(*dag),
            roots@,
            nodes(*dag).len() as int,
        ),
        rendered.1@.len() == roots@.len(),
        forall|i: int|
            0 <= i < roots@.len() ==> #[trigger] rendered.1@[i]@ == shown(
                nodes(*dag),
                binding_names(nodes(*dag), roots@),
                roots@[i] as int,
            ),
{
    let ghost list = nodes(*dag);
    let ghost names = binding_names(list, roots@);
    let counts = count_uses(dag, roots);
    let taken = taken_names(dag, roots, &counts);
    let size = counts.len();
    let mut projected = dag_default();
    let mut images: Vec<usize> = Vec::new();
    let mut bindings: Vec<(String, String)> = Vec::new();
    let mut next: u128 = 0;
    assert(binding_texts(bindings@) =~= Seq::<(Seq<char>, Seq<char>)>::empty());
    for id in 0..size
        invariant
            list == nodes(*dag),
            names == binding_names(list, roots@),
            is_dag(list),
            size == list.len(),
            size == counts@.len(),
            forall|k: int|
                0 <= k < counts@.len() ==> #[trigger] counts@[k] == capped(
                    uses(list, roots@, k as usize),
                ),
            forall|name: Seq<char>| #[trigger]
                lists(taken@, name) <==> is_taken(list, roots@, name),
            next == naming(list, roots@, id as int).1,
            binding_texts(bindings@) == bindings_of(list, roots@, id as int),
            is_dag(nodes(projected)),
            literals_from(nodes(projected), list, id as int),
            images@.len() == id,
            forall|k: int|
                0 <= k < id && #[trigger] reachable(list, roots@, k) ==> {
                    &&& images@[k] < nodes(projected).len()
                    &&& plain(nodes(projected), images@[k] as int) == shown(list, names, k)
                },
    {
        let ghost before = nodes(projected);
        proof {
            lemma_reachable_is_used(list, roots@, id, 0);
            lemma_naming_grows(list, roots@, id as int, size as int);
            lemma_naming_grows(list, roots@, id + 1, size as int);
            lemma_naming_bound(list, roots@, id as int);
        }
        assert(counts@[id as int] > 0 <==> reachable(list, roots@, id as int));
        let mut image: usize = 0;
        if counts[id] > 0 {
            let term = dag_get(dag, id);
            let mut bound: bool = false;
            match term {
                egglog::Term::Lit(literal) => {
                    image = dag_lit(&mut projected, literal.clone());
                    proof {
                        if image < before.len() {
                            let p = choose|p: int|
                                0 <= p < id && #[trigger] list[p] == before[image as int];
                            assert(same_node(list[p], node_of(*term)));
                        }
                        assert(nodes(projected) == before.push(list[id as int]));
                    }
                },
                egglog::Term::Var(name) => {
                    image = dag_var(&mut projected, name.clone());
                },
                egglog::Term::App(head, args) => {
                    let ghost own = children(list[id as int]);
                    let mut inner: Vec<usize> = Vec::new();
                    for j in 0..args.len()
                        invariant
                            list == nodes(*dag),
                            is_dag(list),
                            id < list.len(),
                            own == children(list[id as int]),
                            own == args@,
                            reachable(list, roots@, id as int),
                            before == nodes(projected),
                            images@.len() == id,
                            forall|k: int|
                                0 <= k < id && #[trigger] reachable(list, roots@, k) ==> {
                                    &&& images@[k] < before.len()
                                    &&& plain(before, images@[k] as int) == shown(list, names, k)
                                },
                            inner@.len() == j,
                            forall|i: int|
                                0 <= i < j ==> {
                                    &&& (#[trigger] inner@[i]) < before.len()
                                    &&& shown(list, names, args@[i] as int) == plain(
                                        before,
                                        inner@[i] as int,
                                    )
                                },
                    {
                        assert(own[j as int] < id);
                        assert(reachable(list, roots@, args@[j as int] as int)) by {
                            assert(children(list[id as int]).contains(args@[j as int]));
                        }
                        inner.push(images[args[j]]);
                    }
                    let ghost kept = inner@;
                    image = dag_app(&mut projected, head.clone(), inner);
                    bound = counts[id] >= 2;
                    proof {
                        let after = nodes(projected);
                        assert(after[image as int] == Node::App(head@, kept));
                        assert(is_dag(after)) by {
                            assert forall|q: int, j: int|
                                0 <= q < after.len() && 0 <= j < children(
                                    after[q],
                                ).len() implies #[trigger] children(after[q])[j] < q by {
                                if q < before.len() {
                                    assert(after[q] == before[q]);
                                    assert(children(before[q])[j] < q);
                                } else {
                                    assert(children(after[q]) == kept);
                                }
                            }
                        }
                        assert forall|i: int| 0 <= i < args@.len() implies {
                            &&& (#[trigger] args@[i]) < id
                            &&& kept[i] < image
                            &&& shown(list, names, args@[i] as int) == plain(
                                after,
                                kept[i] as int,
                            )
                        } by {
                            assert(own[i] < id);
                            assert(children(after[image as int])[i] < image);
                            assert(kept[i] < before.len());
                            lemma_body_prefix(before, after, kept[i] as int);
                        }
                        lemma_arguments_agree(
                            list,
                            names,
                            id as int,
                            args@,
                            after,
                            image as int,
                            kept,
                        );
                    }
                },
            }
            let ghost middle = nodes(projected);
            proof {
                assert(before.is_prefix_of(middle));
                assert(image < middle.len());
                assert(plain(middle, image as int) == body(list, names, id as int));
                assert(bound == is_bound(list, roots@, id as int));
                assert(is_dag(middle)) by {
                    assert forall|q: int, j: int|
                        0 <= q < middle.len() && 0 <= j < children(
                            middle[q],
                        ).len() implies #[trigger] children(middle[q])[j] < q by {
                        if q < before.len() {
                            assert(middle[q] == before[q]);
                            assert(children(before[q])[j] < q);
                        }
                    }
                }
                assert(literals_from(middle, list, id + 1)) by {
                    assert forall|q: int|
                        0 <= q < middle.len() && (#[trigger] middle[q]) is Lit implies exists|
                        p: int,
                    |
                        0 <= p < id + 1 && #[trigger] list[p] == middle[q] by {
                        if q < before.len() {
                            assert(middle[q] == before[q]);
                            let p = choose|p: int| 0 <= p < id && #[trigger] list[p] == before[q];
                            assert(list[p] == middle[q]);
                        } else {
                            assert(list[id as int] == middle[q]);
                        }
                    }
                }
            }
            if bound {
                let (number, name) = find_name(&taken, next, Ghost(list), Ghost(roots@));
                proof {
                    lemma_free_number_bound(list, roots@, next as nat);
                    assert(names.contains_key(id as int));
                    assert(naming(list, roots@, id + 1).0[id as int] == name@);
                }
                let definition = dag_to_string(&projected, image);
                let ghost said = binding_texts(bindings@);
                let ghost text = name@;
                bindings.push((name.clone(), definition));
                next = number + 1;
                image = dag_var(&mut projected, name);
                proof {
                    let after = nodes(projected);
                    assert(names[id as int] == text);
                    assert(binding_texts(bindings@) =~= said.push((text, definition@)));
                    assert(after[image as int] == Node::Var(text));
                    assert(is_dag(after)) by {
                        assert forall|q: int, j: int|
                            0 <= q < after.len() && 0 <= j < children(
                                after[q],
                            ).len() implies #[trigger] children(after[q])[j] < q by {
                            if q < middle.len() {
                                assert(after[q] == middle[q]);
                                assert(children(middle[q])[j] < q);
                            }
                        }
                    }
                    assert(literals_from(after, list, id + 1)) by {
                        assert forall|q: int|
                            0 <= q < after.len() && (#[trigger] after[q]) is Lit implies exists|
                            p: int,
                        |
                            0 <= p < id + 1 && #[trigger] list[p] == after[q] by {
                            assert(q < middle.len());
                            assert(after[q] == middle[q]);
                        }
                    }
                }
            }
            proof {
                let after = nodes(projected);
                assert(middle.is_prefix_of(after));
                assert(plain(after, image as int) == shown(list, names, id as int)) by {
                    if !bound {
                        assert(!names.contains_key(id as int));
                    }
                }
                assert forall|k: int|
                    0 <= k < id && #[trigger] reachable(list, roots@, k) implies {
                    &&& images@[k] < after.len()
                    &&& plain(after, images@[k] as int) == shown(list, names, k)
                } by {
                    lemma_body_prefix(before, after, images@[k] as int);
                }
            }
        }
        images.push(image);
    }
    let mut rendered: Vec<String> = Vec::new();
    for i in 0..roots.len()
        invariant
            list == nodes(*dag),
            names == binding_names(list, roots@),
            size == list.len(),
            images@.len() == size,
            is_dag(nodes(projected)),
            forall|k: int| 0 <= k < roots@.len() ==> #[trigger] roots@[k] < size,
            forall|k: int|
                0 <= k < size && #[trigger] reachable(list, roots@, k) ==> {
                    &&& images@[k] < nodes(projected).len()
                    &&& plain(nodes(projected), images@[k] as int) == shown(list, names, k)
                },
            rendered@.len() == i,
            forall|k: int|
                0 <= k < i ==> #[trigger] rendered@[k]@ == shown(list, names, roots@[k] as int),
    {
        assert(reachable(list, roots@, roots@[i as int] as int)) by {
            assert(roots@.contains(roots@[i as int]));
        }
        let text = dag_to_string(&projected, images[roots[i]]);
        rendered.push(text);
    }
    (bindings, rendered)
}

} // verus!

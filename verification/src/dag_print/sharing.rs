//! Laws of printing with shared bindings.

use vstd::prelude::*;
use crate::dag_print::{
    arguments, binding_names, bindings_of, body, children, free_number, is_bound, is_dag,
    is_taken, lemma_body_names, lemma_free_number, lemma_naming_grows, lemma_numbered_injective,
    lemma_reachable_is_used, naming, numbered, plain, reachable, references, shown, uses, Node,
};
use crate::lists::occurrences;

verus! {

/// The names of two bindings differ, and no name is that of a printed variable.
pub proof fn lemma_binding_names_are_fresh(
    list: Seq<Node>,
    roots: Seq<usize>,
    id: int,
    other: int,
)
    requires
        0 <= id < list.len(),
        0 <= other < list.len(),
        id != other,
        is_bound(list, roots, id),
        is_bound(list, roots, other),
    ensures
        binding_names(list, roots).contains_key(id),
        binding_names(list, roots).contains_key(other),
        binding_names(list, roots)[id] != binding_names(list, roots)[other],
        !is_taken(list, roots, binding_names(list, roots)[id]),
        !is_taken(list, roots, binding_names(list, roots)[other]),
        forall|v: int|
            0 <= v < list.len() && #[trigger] reachable(list, roots, v) ==> list[v] != Node::Var(
                binding_names(list, roots)[id],
            ),
{
    lemma_name_of(list, roots, id);
    lemma_name_of(list, roots, other);
    let low = if id < other {
        id
    } else {
        other
    };
    let high = if id < other {
        other
    } else {
        id
    };
    lemma_naming_grows(list, roots, low + 1, high);
    lemma_free_number(list, roots, naming(list, roots, high).1);
    lemma_numbered_injective(
        free_number(list, roots, naming(list, roots, low).1),
        free_number(list, roots, naming(list, roots, high).1),
    );
}

proof fn lemma_name_of(list: Seq<Node>, roots: Seq<usize>, id: int)
    requires
        0 <= id < list.len(),
        is_bound(list, roots, id),
    ensures
        binding_names(list, roots).contains_key(id),
        binding_names(list, roots)[id] == numbered(
            free_number(list, roots, naming(list, roots, id).1),
        ),
        !is_taken(list, roots, binding_names(list, roots)[id]),
{
    lemma_naming_grows(list, roots, id + 1, list.len() as int);
    lemma_free_number(list, roots, naming(list, roots, id).1);
    assert(naming(list, roots, id + 1).0.contains_key(id));
}

/// A definition has only names that were bound before it, like those of `let*`.
pub proof fn lemma_definitions_look_back(list: Seq<Node>, roots: Seq<usize>, id: int)
    requires
        is_dag(list),
        0 <= id < list.len(),
    ensures
        body(list, binding_names(list, roots), id) == body(
            list,
            naming(list, roots, id).0,
            id,
        ),
{
    lemma_naming_grows(list, roots, id, list.len() as int);
    lemma_body_names(list, binding_names(list, roots), naming(list, roots, id).0, id);
}

/// Where nothing is shared, there are no bindings, and every term is printed in
/// its ordinary form.
pub proof fn lemma_unshared_is_plain(list: Seq<Node>, roots: Seq<usize>, id: int)
    requires
        forall|k: int| 0 <= k < list.len() ==> !#[trigger] is_bound(list, roots, k),
    ensures
        bindings_of(list, roots, list.len() as int).len() == 0,
        shown(list, binding_names(list, roots), id) == plain(list, id),
{
    lemma_no_names(list, roots, list.len() as int);
}

proof fn lemma_no_names(list: Seq<Node>, roots: Seq<usize>, count: int)
    requires
        count <= list.len(),
        forall|k: int| 0 <= k < list.len() ==> !#[trigger] is_bound(list, roots, k),
    ensures
        naming(list, roots, count).0 == Map::<int, Seq<char>>::empty(),
        bindings_of(list, roots, count).len() == 0,
    decreases count,
{
    if count > 0 {
        assert(!is_bound(list, roots, count - 1));
        lemma_no_names(list, roots, count - 1);
    }
}

/// A piece of a printed text.
pub enum Piece {
    /// These characters.
    Text(Seq<char>),
    /// The name of a bound term.
    Term(int),
}

/// The pieces of the text of a term.
pub open spec fn pieces(list: Seq<Node>, names: Map<int, Seq<char>>, id: int) -> Seq<Piece>
    decreases id, children(list[id]).len() + 1,
{
    match list[id] {
        Node::App(head, args) => seq![Piece::Text("("@ + head)] + argument_pieces(
            list,
            names,
            id,
            args,
        ) + seq![Piece::Text(")"@)],
        _ => seq![Piece::Text(body(list, names, id))],
    }
}

/// The pieces of the texts of the children.
pub open spec fn argument_pieces(
    list: Seq<Node>,
    names: Map<int, Seq<char>>,
    id: int,
    args: Seq<usize>,
) -> Seq<Piece>
    decreases id, args.len(),
{
    if args.len() == 0 {
        Seq::empty()
    } else {
        let child = args.last() as int;
        argument_pieces(list, names, id, args.drop_last()) + seq![Piece::Text(" "@)]
            + if names.contains_key(child) {
            seq![Piece::Term(child)]
        } else if child < id {
            pieces(list, names, child)
        } else {
            Seq::empty()
        }
    }
}

/// The text of pieces, with these texts for the bound terms.
pub open spec fn written_out(parts: Seq<Piece>, texts: spec_fn(int) -> Seq<char>) -> Seq<char>
    decreases parts.len(),
{
    if parts.len() == 0 {
        Seq::empty()
    } else {
        written_out(parts.drop_last(), texts) + match parts.last() {
            Piece::Text(text) => text,
            Piece::Term(id) => texts(id),
        }
    }
}

/// A binding stands for its term: the printed text of a term with a name
/// wherever a bound term stands becomes the ordinary printed form of the term
/// when each name is replaced by the ordinary printed form of what it is bound
/// to.
pub proof fn lemma_bindings_stand_for_terms(
    list: Seq<Node>,
    names: Map<int, Seq<char>>,
    id: int,
)
    requires
        is_dag(list),
        0 <= id < list.len(),
    ensures
        written_out(pieces(list, names, id), |k: int| names[k]) == body(list, names, id),
        written_out(pieces(list, names, id), |k: int| plain(list, k)) == plain(list, id),
    decreases id, children(list[id]).len() + 1,
{
    let named = |k: int| names[k];
    let ordinary = |k: int| plain(list, k);
    match list[id] {
        Node::App(head, args) => {
            assert forall|j: int| 0 <= j < args.len() implies #[trigger] args[j] < id by {
                assert(children(list[id])[j] < id);
            }
            let open = seq![Piece::Text("("@ + head)];
            let inner = argument_pieces(list, names, id, args);
            let close = seq![Piece::Text(")"@)];
            lemma_arguments_stand(list, names, id, args);
            lemma_one_piece(Piece::Text("("@ + head), named);
            lemma_one_piece(Piece::Text("("@ + head), ordinary);
            lemma_one_piece(Piece::Text(")"@), named);
            lemma_one_piece(Piece::Text(")"@), ordinary);
            lemma_written_concat(open, inner, named);
            lemma_written_concat(open + inner, close, named);
            lemma_written_concat(open, inner, ordinary);
            lemma_written_concat(open + inner, close, ordinary);
        },
        _ => {
            lemma_one_piece(Piece::Text(body(list, names, id)), named);
            lemma_one_piece(Piece::Text(body(list, names, id)), ordinary);
        },
    }
}

proof fn lemma_arguments_stand(
    list: Seq<Node>,
    names: Map<int, Seq<char>>,
    id: int,
    args: Seq<usize>,
)
    requires
        is_dag(list),
        0 <= id < list.len(),
        forall|j: int| 0 <= j < args.len() ==> #[trigger] args[j] < id,
    ensures
        written_out(argument_pieces(list, names, id, args), |k: int| names[k]) == arguments(
            list,
            names,
            id,
            args,
        ),
        written_out(argument_pieces(list, names, id, args), |k: int| plain(list, k)) == arguments(
            list,
            Map::empty(),
            id,
            args,
        ),
    decreases id, args.len(),
{
    let named = |k: int| names[k];
    let ordinary = |k: int| plain(list, k);
    if args.len() > 0 {
        let child = args.last() as int;
        assert(args[args.len() - 1] < id);
        let front = argument_pieces(list, names, id, args.drop_last());
        let space = seq![Piece::Text(" "@)];
        let own = if names.contains_key(child) {
            seq![Piece::Term(child)]
        } else {
            pieces(list, names, child)
        };
        lemma_arguments_stand(list, names, id, args.drop_last());
        if names.contains_key(child) {
            lemma_one_piece(Piece::Term(child), named);
            lemma_one_piece(Piece::Term(child), ordinary);
        } else {
            lemma_bindings_stand_for_terms(list, names, child);
        }
        lemma_one_piece(Piece::Text(" "@), named);
        lemma_one_piece(Piece::Text(" "@), ordinary);
        lemma_written_concat(front, space, named);
        lemma_written_concat(front + space, own, named);
        lemma_written_concat(front, space, ordinary);
        lemma_written_concat(front + space, own, ordinary);
    }
}

proof fn lemma_one_piece(piece: Piece, texts: spec_fn(int) -> Seq<char>)
    ensures
        written_out(seq![piece], texts) == match piece {
            Piece::Text(text) => text,
            Piece::Term(id) => texts(id),
        },
{
    assert(seq![piece].drop_last() =~= Seq::empty());
    assert(written_out(Seq::<Piece>::empty(), texts) =~= Seq::<char>::empty());
    let text = match piece {
        Piece::Text(text) => text,
        Piece::Term(id) => texts(id),
    };
    assert(Seq::<char>::empty() + text =~= text);
}

proof fn lemma_written_concat(
    left: Seq<Piece>,
    right: Seq<Piece>,
    texts: spec_fn(int) -> Seq<char>,
)
    ensures
        written_out(left + right, texts) == written_out(left, texts) + written_out(right, texts),
    decreases right.len(),
{
    if right.len() == 0 {
        assert(left + right =~= left);
        assert(written_out(left, texts) + Seq::empty() =~= written_out(left, texts));
    } else {
        assert((left + right).drop_last() =~= left + right.drop_last());
        lemma_written_concat(left, right.drop_last(), texts);
        let last = match right.last() {
            Piece::Text(text) => text,
            Piece::Term(id) => texts(id),
        };
        assert(written_out(left, texts) + written_out(right.drop_last(), texts) + last
            =~= written_out(left, texts) + (written_out(right.drop_last(), texts) + last));
    }
}

/// The number of heads, leaves and names in the text of a term.
pub open spec fn body_size(list: Seq<Node>, names: Map<int, Seq<char>>, id: int) -> nat
    decreases id, children(list[id]).len() + 1,
{
    match list[id] {
        Node::App(_, args) => 1 + arguments_size(list, names, id, args),
        _ => 1,
    }
}

/// The number of heads, leaves and names in the texts of the children.
pub open spec fn arguments_size(
    list: Seq<Node>,
    names: Map<int, Seq<char>>,
    id: int,
    args: Seq<usize>,
) -> nat
    decreases id, args.len(),
{
    if args.len() == 0 {
        0
    } else {
        let child = args.last() as int;
        arguments_size(list, names, id, args.drop_last()) + if names.contains_key(child) {
            1
        } else if child < id {
            body_size(list, names, child)
        } else {
            0
        }
    }
}

/// The number of heads, leaves and names in a reference to a term.
pub open spec fn shown_size(list: Seq<Node>, names: Map<int, Seq<char>>, id: int) -> nat {
    if names.contains_key(id) {
        1
    } else {
        body_size(list, names, id)
    }
}

/// The number of heads, leaves and names in the definitions of the bound terms
/// among the first `count`.
pub open spec fn definitions_size(list: Seq<Node>, roots: Seq<usize>, count: int) -> nat
    decreases count,
{
    if count <= 0 {
        0
    } else {
        definitions_size(list, roots, count - 1) + if is_bound(list, roots, count - 1) {
            body_size(list, binding_names(list, roots), count - 1)
        } else {
            0
        }
    }
}

/// The number of heads, leaves and names in the rendered roots.
pub open spec fn roots_size(
    list: Seq<Node>,
    names: Map<int, Seq<char>>,
    roots: Seq<usize>,
) -> nat
    decreases roots.len(),
{
    if roots.len() == 0 {
        0
    } else {
        roots_size(list, names, roots.drop_last()) + shown_size(list, names, roots.last() as int)
    }
}

/// The number of children of the printed terms from `from` on.
pub open spec fn printed_edges(list: Seq<Node>, roots: Seq<usize>, from: int) -> nat
    decreases list.len() - from,
{
    if from < 0 || from >= list.len() {
        0
    } else {
        printed_edges(list, roots, from + 1) + if reachable(list, roots, from) {
            children(list[from]).len()
        } else {
            0
        }
    }
}

/// The number of bound terms from `from` on.
pub open spec fn bound_terms(list: Seq<Node>, roots: Seq<usize>, from: int) -> nat
    decreases list.len() - from,
{
    if from < 0 || from >= list.len() {
        0
    } else {
        bound_terms(list, roots, from + 1) + if is_bound(list, roots, from) {
            1nat
        } else {
            0nat
        }
    }
}

/// The printed size is linear in the DAG: the bindings and the rendered roots
/// together have one head, leaf or name for each root, one for each child of a
/// printed term and one for each binding.
pub proof fn lemma_printed_size_is_linear(list: Seq<Node>, roots: Seq<usize>)
    requires
        is_dag(list),
        list.len() <= usize::MAX,
        forall|i: int| 0 <= i < roots.len() ==> #[trigger] roots[i] < list.len(),
    ensures
        definitions_size(list, roots, list.len() as int) + roots_size(
            list,
            binding_names(list, roots),
            roots,
        ) == roots.len() + printed_edges(list, roots, 0) + bound_terms(list, roots, 0),
{
    let count = list.len() as int;
    let names = binding_names(list, roots);
    let sizes = |k: int| shown_size(list, names, k);
    let ones = |k: int| 1nat;
    lemma_weight_of_list(roots, count, sizes);
    lemma_weight_of_list(roots, count, ones);
    lemma_roots_size(list, names, roots);
    lemma_ones(roots);
    lemma_start(list, roots, sizes, count);
    lemma_start(list, roots, ones, count);
    lemma_cut(list, roots, 0);
    lemma_all_references(list, roots, 0);
    assert(pending(list, roots, sizes, 0, 0) == 0);
    assert(definitions_size(list, roots, 0) == 0);
}

/// How often a term is a root, or a child of a printed term from `from` on.
spec fn seen(list: Seq<Node>, roots: Seq<usize>, id: int, from: int) -> nat {
    occurrences(roots, id as usize) + references(list, roots, id as usize, from)
}

/// The weights of the first `count` terms, each as often as it is seen.
spec fn pending(
    list: Seq<Node>,
    roots: Seq<usize>,
    weight: spec_fn(int) -> nat,
    from: int,
    count: int,
) -> nat
    decreases count,
{
    if count <= 0 {
        0
    } else {
        pending(list, roots, weight, from, count - 1) + seen(list, roots, count - 1, from)
            * weight(count - 1)
    }
}

/// The weights of the first `count` terms, each as often as it occurs.
spec fn weighed(ids: Seq<usize>, weight: spec_fn(int) -> nat, count: int) -> nat
    decreases count,
{
    if count <= 0 {
        0
    } else {
        weighed(ids, weight, count - 1) + occurrences(ids, (count - 1) as usize) * weight(count - 1)
    }
}

/// The weights of the terms of a list.
spec fn weight_of(ids: Seq<usize>, weight: spec_fn(int) -> nat) -> nat
    decreases ids.len(),
{
    if ids.len() == 0 {
        0
    } else {
        weight_of(ids.drop_last(), weight) + weight(ids.last() as int)
    }
}

proof fn lemma_weight_of_list(ids: Seq<usize>, count: int, weight: spec_fn(int) -> nat)
    requires
        0 <= count <= usize::MAX,
        forall|i: int| 0 <= i < ids.len() ==> #[trigger] ids[i] < count,
    ensures
        weighed(ids, weight, count) == weight_of(ids, weight),
    decreases ids.len(),
{
    if ids.len() == 0 {
        lemma_weighed_empty(ids, weight, count);
    } else {
        let front = ids.drop_last();
        assert forall|i: int| 0 <= i < front.len() implies #[trigger] front[i] < count by {
            assert(ids[i] < count);
        }
        lemma_weight_of_list(front, count, weight);
        assert(ids[ids.len() - 1] < count);
        lemma_weighed_push(ids, weight, count);
    }
}

proof fn lemma_weighed_empty(ids: Seq<usize>, weight: spec_fn(int) -> nat, count: int)
    requires
        ids.len() == 0,
    ensures
        weighed(ids, weight, count) == 0,
    decreases count,
{
    if count > 0 {
        lemma_weighed_empty(ids, weight, count - 1);
        assert(0 * weight(count - 1) == 0);
    }
}

proof fn lemma_weighed_push(ids: Seq<usize>, weight: spec_fn(int) -> nat, count: int)
    requires
        ids.len() > 0,
        0 <= count <= usize::MAX,
    ensures
        weighed(ids, weight, count) == weighed(ids.drop_last(), weight, count) + if ids.last()
            < count {
            weight(ids.last() as int)
        } else {
            0
        },
    decreases count,
{
    if count > 0 {
        lemma_weighed_push(ids, weight, count - 1);
        let id = (count - 1) as usize;
        let front = occurrences(ids.drop_last(), id);
        let own = weight(count - 1);
        if ids.last() == id {
            assert((front + 1) * own == front * own + own) by (nonlinear_arith);
        }
    }
}

proof fn lemma_roots_size(list: Seq<Node>, names: Map<int, Seq<char>>, roots: Seq<usize>)
    ensures
        roots_size(list, names, roots) == weight_of(
            roots,
            |k: int| shown_size(list, names, k),
        ),
    decreases roots.len(),
{
    if roots.len() > 0 {
        lemma_roots_size(list, names, roots.drop_last());
    }
}

proof fn lemma_arguments_size(
    list: Seq<Node>,
    names: Map<int, Seq<char>>,
    id: int,
    args: Seq<usize>,
)
    requires
        forall|j: int| 0 <= j < args.len() ==> #[trigger] args[j] < id,
    ensures
        arguments_size(list, names, id, args) == weight_of(
            args,
            |k: int| shown_size(list, names, k),
        ),
    decreases args.len(),
{
    if args.len() > 0 {
        assert(args[args.len() - 1] < id);
        lemma_arguments_size(list, names, id, args.drop_last());
    }
}

proof fn lemma_ones(ids: Seq<usize>)
    ensures
        weight_of(ids, |k: int| 1nat) == ids.len(),
    decreases ids.len(),
{
    if ids.len() > 0 {
        lemma_ones(ids.drop_last());
    }
}

/// Behind the last term only the roots are pending.
proof fn lemma_start(
    list: Seq<Node>,
    roots: Seq<usize>,
    weight: spec_fn(int) -> nat,
    count: int,
)
    ensures
        pending(list, roots, weight, list.len() as int, count) == weighed(roots, weight, count),
    decreases count,
{
    if count > 0 {
        lemma_start(list, roots, weight, count - 1);
    }
}

/// One more printed term brings its children.
proof fn lemma_one_more(
    list: Seq<Node>,
    roots: Seq<usize>,
    weight: spec_fn(int) -> nat,
    from: int,
    count: int,
)
    requires
        0 <= from < list.len(),
    ensures
        pending(list, roots, weight, from, count) == pending(
            list,
            roots,
            weight,
            from + 1,
            count,
        ) + if reachable(list, roots, from) {
            weighed(children(list[from]), weight, count)
        } else {
            0
        },
    decreases count,
{
    if count > 0 {
        lemma_one_more(list, roots, weight, from, count - 1);
        let more = seen(list, roots, count - 1, from + 1);
        let own = occurrences(children(list[from]), (count - 1) as usize);
        let each = weight(count - 1);
        assert((more + own) * each == more * each + own * each) by (nonlinear_arith);
    }
}

/// All references together: one for each root and one for each child of a
/// printed term.
proof fn lemma_all_references(list: Seq<Node>, roots: Seq<usize>, from: int)
    requires
        is_dag(list),
        list.len() <= usize::MAX,
        0 <= from <= list.len(),
        forall|i: int| 0 <= i < roots.len() ==> #[trigger] roots[i] < list.len(),
    ensures
        pending(list, roots, |k: int| 1nat, from, list.len() as int) == roots.len()
            + printed_edges(list, roots, from),
    decreases list.len() - from,
{
    let ones = |k: int| 1nat;
    let count = list.len() as int;
    if from == list.len() {
        lemma_start(list, roots, ones, count);
        lemma_weight_of_list(roots, count, ones);
        lemma_ones(roots);
    } else {
        lemma_all_references(list, roots, from + 1);
        lemma_one_more(list, roots, ones, from, count);
        let args = children(list[from]);
        assert forall|j: int| 0 <= j < args.len() implies #[trigger] args[j] < count by {
            assert(children(list[from])[j] < from);
        }
        lemma_weight_of_list(args, count, ones);
        lemma_ones(args);
    }
}

/// The references to the terms from `from` on.
spec fn references_from(list: Seq<Node>, roots: Seq<usize>, from: int) -> nat
    decreases list.len() - from,
{
    if from < 0 || from >= list.len() {
        0
    } else {
        references_from(list, roots, from + 1) + uses(list, roots, from as usize)
    }
}

proof fn lemma_references_from(list: Seq<Node>, roots: Seq<usize>, from: int)
    requires
        0 <= from <= list.len(),
        list.len() <= usize::MAX,
    ensures
        pending(list, roots, |k: int| 1nat, 0, from) + references_from(list, roots, from)
            == pending(list, roots, |k: int| 1nat, 0, list.len() as int),
    decreases list.len() - from,
{
    let ones = |k: int| 1nat;
    if from < list.len() {
        lemma_references_from(list, roots, from + 1);
        let own = seen(list, roots, from, 0);
        assert(own * ones(from) == own) by {
            assert(own * 1 == own);
        }
    }
}

/// Down to any term, what is printed is what is pending, the definitions below,
/// and one for each reference and each binding above.
proof fn lemma_cut(list: Seq<Node>, roots: Seq<usize>, from: int)
    requires
        is_dag(list),
        list.len() <= usize::MAX,
        0 <= from <= list.len(),
    ensures
        ({
            let sizes = |k: int| shown_size(list, binding_names(list, roots), k);
            let count = list.len() as int;
            pending(list, roots, sizes, count, count) + definitions_size(list, roots, count)
                == pending(list, roots, sizes, from, from) + definitions_size(list, roots, from)
                + references_from(list, roots, from) + bound_terms(list, roots, from)
        }),
        from == 0 ==> references_from(list, roots, 0) == pending(
            list,
            roots,
            |k: int| 1nat,
            0,
            list.len() as int,
        ),
    decreases list.len() - from,
{
    let names = binding_names(list, roots);
    let sizes = |k: int| shown_size(list, names, k);
    let count = list.len() as int;
    if from < count {
        lemma_cut(list, roots, from + 1);
        let id = from as usize;
        lemma_reachable_is_used(list, roots, id, from + 1);
        lemma_naming_grows(list, roots, count, count);
        lemma_one_more(list, roots, sizes, from, from);
        let own = seen(list, roots, from, from + 1);
        assert(own == uses(list, roots, id));
        let args = children(list[from]);
        assert forall|j: int| 0 <= j < args.len() implies #[trigger] args[j] < from by {
            assert(children(list[from])[j] < from);
        }
        lemma_weight_of_list(args, from, sizes);
        lemma_arguments_size(list, names, from, args);
        assert(names.contains_key(from) <==> is_bound(list, roots, from));
        if !reachable(list, roots, from) {
            assert(own == 0);
            assert(own * sizes(from) == 0) by (nonlinear_arith)
                requires
                    own == 0,
            ;
        } else if is_bound(list, roots, from) {
            assert(own * sizes(from) == own) by (nonlinear_arith)
                requires
                    sizes(from) == 1,
            ;
        } else if list[from] is App {
            assert(own == 1);
            assert(own * sizes(from) == sizes(from)) by (nonlinear_arith)
                requires
                    own == 1,
            ;
        } else {
            assert(args.len() == 0);
            assert(sizes(from) == 1);
            assert(own * sizes(from) == own) by (nonlinear_arith)
                requires
                    sizes(from) == 1,
            ;
        }
    }
    if from == 0 {
        lemma_references_from(list, roots, 0);
    }
}

} // verus!

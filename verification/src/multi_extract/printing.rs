//! How the output of `multi-extract` reads.

use vstd::prelude::*;
use crate::dag_print::{
    binding_names, bindings_of, body, free_number, is_bound, is_dag, is_taken, lemma_body_names,
    lemma_free_number, lemma_naming_grows, naming, nodes, numbered, plain, reachable, shown, Node,
};
use crate::engine::variant_views;
use crate::lists::flattened;
use crate::multi_extract::{
    binding_lines, root_lines, shown_terms, variant_lines, MultiExtractOutput,
};
use crate::text::{
    consists_of, decimal, lemma_consists_of_more, lemma_consists_of_nothing,
};

verus! {

/// The line of a binding.
pub open spec fn binding_line(binding: (Seq<char>, Seq<char>)) -> Seq<char> {
    "   ("@ + binding.0 + " "@ + binding.1 + ")\n"@
}

/// The lines of bindings, each by itself.
pub open spec fn all_binding_lines(bindings: Seq<(Seq<char>, Seq<char>)>) -> Seq<Seq<char>> {
    Seq::new(bindings.len(), |k: int| binding_line(bindings[k]))
}

/// The bindings are printed one to a line, in their order.
pub proof fn lemma_bindings_are_printed_in_order(bindings: Seq<(Seq<char>, Seq<char>)>)
    ensures
        consists_of(binding_lines(bindings), all_binding_lines(bindings)),
    decreases bindings.len(),
{
    if bindings.len() == 0 {
        lemma_consists_of_nothing();
        assert(all_binding_lines(bindings) =~= Seq::empty());
    } else {
        let front = bindings.drop_last();
        let last = binding_line(bindings.last());
        lemma_bindings_are_printed_in_order(front);
        lemma_consists_of_more(binding_lines(front), all_binding_lines(front), last);
        assert(all_binding_lines(front).push(last) =~= all_binding_lines(bindings));
        assert(binding_lines(front) + last =~= binding_lines(bindings));
    }
}

/// The line of a variant.
pub open spec fn variant_line(variant: Seq<char>) -> Seq<char> {
    "      "@ + variant + "\n"@
}

/// The lines of variants, each by itself.
pub open spec fn all_variant_lines(variants: Seq<Seq<char>>) -> Seq<Seq<char>> {
    Seq::new(variants.len(), |k: int| variant_line(variants[k]))
}

/// The variants of a root are printed one to a line, in their order.
pub proof fn lemma_variants_are_printed_in_order(variants: Seq<Seq<char>>)
    ensures
        consists_of(variant_lines(variants), all_variant_lines(variants)),
    decreases variants.len(),
{
    if variants.len() == 0 {
        lemma_consists_of_nothing();
        assert(all_variant_lines(variants) =~= Seq::empty());
    } else {
        let front = variants.drop_last();
        let last = variant_line(variants.last());
        lemma_variants_are_printed_in_order(front);
        lemma_consists_of_more(variant_lines(front), all_variant_lines(front), last);
        assert(all_variant_lines(front).push(last) =~= all_variant_lines(variants));
        assert(variant_lines(front) + last =~= variant_lines(variants));
    }
}

/// The lines of a root: those of its variants, between two of its own.
pub open spec fn is_root_part(part: Seq<char>, variants: Seq<Seq<char>>) -> bool {
    exists|lines: Seq<char>|
        {
            &&& part == "   (\n"@ + lines + "   )\n"@
            &&& #[trigger] consists_of(lines, all_variant_lines(variants))
        }
}

/// The roots are printed one after the other, in their order, each with its own variants.
pub proof fn lemma_roots_are_printed_in_order(roots: Seq<Seq<Seq<char>>>)
    ensures
        exists|parts: Seq<Seq<char>>|
            {
                &&& #[trigger] consists_of(root_lines(roots), parts)
                &&& parts.len() == roots.len()
                &&& forall|i: int|
                    0 <= i < roots.len() ==> is_root_part(#[trigger] parts[i], roots[i])
            },
    decreases roots.len(),
{
    if roots.len() == 0 {
        lemma_consists_of_nothing();
        assert(consists_of(root_lines(roots), Seq::empty()));
    } else {
        let front = roots.drop_last();
        lemma_roots_are_printed_in_order(front);
        let parts = choose|parts: Seq<Seq<char>>|
            {
                &&& #[trigger] consists_of(root_lines(front), parts)
                &&& parts.len() == front.len()
                &&& forall|i: int|
                    0 <= i < front.len() ==> is_root_part(#[trigger] parts[i], front[i])
            };
        let own = variant_lines(roots.last());
        let last = "   (\n"@ + own + "   )\n"@;
        lemma_variants_are_printed_in_order(roots.last());
        assert(is_root_part(last, roots.last()));
        lemma_consists_of_more(root_lines(front), parts, last);
        let all = parts.push(last);
        assert(root_lines(front) + last =~= root_lines(roots));
        assert forall|i: int| 0 <= i < roots.len() implies is_root_part(
            #[trigger] all[i],
            roots[i],
        ) by {
            if i < front.len() {
                assert(all[i] == parts[i]);
                assert(front[i] == roots[i]);
            }
        }
        assert(consists_of(root_lines(roots), all));
    }
}

/// The text reads as a list of the roots, in their order, each a list of its variants in
/// theirs; with bindings these stand before it, one to a line and in their order.
pub open spec fn reads_as(
    text: Seq<char>,
    bindings: Option<Seq<(Seq<char>, Seq<char>)>>,
    roots: Seq<Seq<Seq<char>>>,
) -> bool {
    exists|listed: Seq<char>, parts: Seq<Seq<char>>|
        {
            &&& #[trigger] consists_of(listed, parts)
            &&& parts.len() == roots.len()
            &&& forall|i: int|
                0 <= i < roots.len() ==> is_root_part(#[trigger] parts[i], roots[i])
            &&& match bindings {
                Some(list) => surrounds(text, list, listed),
                None => text == "(\n"@ + listed + ")\n"@,
            }
        }
}

/// The text is a `let` of the bindings around the listed roots.
pub open spec fn surrounds(
    text: Seq<char>,
    bindings: Seq<(Seq<char>, Seq<char>)>,
    listed: Seq<char>,
) -> bool {
    exists|defined: Seq<char>|
        {
            &&& #[trigger] defines(defined, bindings)
            &&& text == "(let (\n"@ + defined + " )\n (\n"@ + listed + " ))\n"@
        }
}

/// The text is the lines of the bindings, in their order.
pub open spec fn defines(text: Seq<char>, bindings: Seq<(Seq<char>, Seq<char>)>) -> bool {
    consists_of(text, all_binding_lines(bindings))
}

/// The text of the output reads as these texts of its variants, root by root: each in its
/// ordinary form, or with the bindings before them and their names in it.
pub open spec fn is_printed(output: MultiExtractOutput, roots: Seq<Seq<Seq<char>>>) -> bool {
    let list = nodes(output.termdag);
    let all = flattened(variant_views(output.terms@));
    &&& roots.len() == output.terms@.len()
    &&& forall|i: int|
        0 <= i < roots.len() ==> (#[trigger] roots[i]).len() == output.terms@[i]@.len()
    &&& if output.dag {
        &&& reads_as(
            output.text(),
            Some(bindings_of(list, all, list.len() as int)),
            roots,
        )
        &&& forall|i: int, j: int|
            0 <= i < roots.len() && 0 <= j < roots[i].len() ==> #[trigger] roots[i][j] == shown(
                list,
                binding_names(list, all),
                output.terms@[i]@[j] as int,
            )
    } else {
        &&& reads_as(output.text(), None, roots)
        &&& forall|i: int, j: int|
            0 <= i < roots.len() && 0 <= j < roots[i].len() ==> #[trigger] roots[i][j] == plain(
                list,
                output.terms@[i]@[j] as int,
            )
    }
}

/// The printed output reads as the variants of each root in their order, root by root,
/// with the bindings before them one to a line and in their order. By
/// [`lemma_bindings_look_back`] every name is defined on an earlier line than where it is
/// used.
pub proof fn lemma_output_reads_in_order(output: MultiExtractOutput)
    requires
        output.wf(),
    ensures
        exists|roots: Seq<Seq<Seq<char>>>| is_printed(output, roots),
{
    let list = nodes(output.termdag);
    let terms = variant_views(output.terms@);
    let all = flattened(terms);
    let names = if output.dag {
        binding_names(list, all)
    } else {
        Map::empty()
    };
    let roots = shown_terms(list, names, terms);
    lemma_roots_are_printed_in_order(roots);
    let listed = root_lines(roots);
    let parts = choose|parts: Seq<Seq<char>>|
        {
            &&& #[trigger] consists_of(listed, parts)
            &&& parts.len() == roots.len()
            &&& forall|i: int| 0 <= i < roots.len() ==> is_root_part(#[trigger] parts[i], roots[i])
        };
    if output.dag {
        let bindings = bindings_of(list, all, list.len() as int);
        let defined = binding_lines(bindings);
        lemma_bindings_are_printed_in_order(bindings);
        assert(defines(defined, bindings));
        reveal_strlit(" )\n");
        reveal_strlit(" (\n");
        reveal_strlit(" )\n (\n");
        assert(" )\n (\n"@ =~= " )\n"@ + " (\n"@);
        assert(output.text() =~= "(let (\n"@ + defined + " )\n (\n"@ + listed + " ))\n"@);
        assert(surrounds(output.text(), bindings, listed));
        assert(reads_as(output.text(), Some(bindings), roots));
        assert(is_printed(output, roots));
    } else {
        assert(output.text() =~= "(\n"@ + listed + ")\n"@);
        assert(reads_as(output.text(), None, roots));
        assert(is_printed(output, roots));
    }
}

/// The bindings are those of the terms that are bound, in the order of their ids, and each
/// is defined through the names of those before it alone.
pub open spec fn looks_back(
    list: Seq<Node>,
    roots: Seq<usize>,
    bindings: Seq<(Seq<char>, Seq<char>)>,
    count: int,
    ids: Seq<int>,
) -> bool {
    &&& bindings.len() == ids.len()
    &&& forall|i: int, j: int| 0 <= i < j < ids.len() ==> #[trigger] ids[i] < #[trigger] ids[j]
    &&& forall|id: int| #[trigger]
        ids.contains(id) <==> 0 <= id < count && is_bound(list, roots, id)
    &&& forall|k: int|
        0 <= k < ids.len() ==> #[trigger] bindings[k] == (
            binding_names(list, roots)[ids[k]],
            body(list, earlier_names(list, roots, ids, k), ids[k]),
        )
}

/// The names of the first bound terms.
pub open spec fn earlier_names(
    list: Seq<Node>,
    roots: Seq<usize>,
    ids: Seq<int>,
    k: int,
) -> Map<int, Seq<char>> {
    Map::new(
        |id: int| ids.take(k).contains(id),
        |id: int| binding_names(list, roots)[id],
    )
}

/// A definition uses only names that are defined before it, like those of `let*`.
pub proof fn lemma_bindings_look_back(list: Seq<Node>, roots: Seq<usize>, count: int)
    requires
        is_dag(list),
        0 <= count <= list.len(),
    ensures
        exists|ids: Seq<int>|
            looks_back(list, roots, bindings_of(list, roots, count), count, ids),
    decreases count,
{
    let names = binding_names(list, roots);
    let bindings = bindings_of(list, roots, count);
    if count == 0 {
        let none = Seq::<int>::empty();
        assert(looks_back(list, roots, bindings, count, none));
    } else {
        lemma_bindings_look_back(list, roots, count - 1);
        let before = bindings_of(list, roots, count - 1);
        let fewer = count - 1;
        let ids = choose|ids: Seq<int>| looks_back(list, roots, before, fewer, ids);
        let id = count - 1;
        if is_bound(list, roots, id) {
            let more = ids.push(id);
            assert forall|i: int, j: int| 0 <= i < j < more.len() implies #[trigger] more[i]
                < #[trigger] more[j] by {
                assert(ids[i] == more[i]);
                assert(ids.contains(ids[i]));
                if j < ids.len() {
                    assert(ids[j] == more[j]);
                }
            }
            assert forall|other: int| #[trigger] more.contains(other) <==> 0 <= other < count
                && is_bound(list, roots, other) by {
                crate::lists::lemma_push_contains(ids, id, other);
                assert(ids.contains(other) <==> 0 <= other < count - 1 && is_bound(
                    list,
                    roots,
                    other,
                ));
            }
            lemma_naming_grows(list, roots, id, list.len() as int);
            let earlier = earlier_names(list, roots, more, ids.len() as int);
            assert(more.take(ids.len() as int) =~= ids);
            assert forall|k: int| 0 <= k < id implies {
                &&& #[trigger] names.contains_key(k) <==> earlier.contains_key(k)
                &&& names.contains_key(k) ==> names[k] == earlier[k]
            } by {
                assert(ids.contains(k) <==> is_bound(list, roots, k));
            }
            lemma_body_names(list, names, earlier, id);
            assert forall|k: int| 0 <= k < more.len() implies #[trigger] bindings[k] == (
                names[more[k]],
                body(list, earlier_names(list, roots, more, k), more[k]),
            ) by {
                if k < ids.len() {
                    assert(bindings[k] == before[k]);
                    assert(more.take(k) =~= ids.take(k));
                    assert(earlier_names(list, roots, more, k) =~= earlier_names(
                        list,
                        roots,
                        ids,
                        k,
                    ));
                }
            }
            assert(looks_back(list, roots, bindings, count, more));
        } else {
            assert forall|other: int| #[trigger] ids.contains(other) <==> 0 <= other < count
                && is_bound(list, roots, other) by {}
            assert(looks_back(list, roots, bindings, count, ids));
        }
    }
}

/// The name of the bound term is `?t` and the number, and each lower number is that of a
/// term with a lower id or makes the name of a printed variable.
pub open spec fn is_counted(list: Seq<Node>, roots: Seq<usize>, id: int, number: nat) -> bool {
    &&& binding_names(list, roots)[id] == "?t"@ + decimal(number)
    &&& forall|lower: nat|
        lower < number ==> is_used(list, roots, id, "?t"@ + #[trigger] decimal(lower))
}

/// The name is that of a printed variable, or of a bound term with a lower id.
pub open spec fn is_used(list: Seq<Node>, roots: Seq<usize>, id: int, name: Seq<char>) -> bool {
    ||| exists|v: int|
        0 <= v < list.len() && #[trigger] reachable(list, roots, v) && list[v] == Node::Var(name)
    ||| exists|other: int|
        {
            &&& 0 <= other < id
            &&& #[trigger] is_bound(list, roots, other)
            &&& binding_names(list, roots)[other] == name
        }
}

/// The name of a bound term is `?t` and a number. No lower
/// number is free: it is that of a term with a lower id, or its name is that of a printed
/// variable.
pub proof fn lemma_names_count_up(list: Seq<Node>, roots: Seq<usize>, id: int)
    requires
        0 <= id < list.len(),
        is_bound(list, roots, id),
    ensures
        exists|number: nat| #[trigger]
            is_counted(list, roots, id, number),
{
    let next = naming(list, roots, id).1;
    let number = free_number(list, roots, next);
    lemma_naming_grows(list, roots, id + 1, list.len() as int);
    lemma_free_number(list, roots, next);
    assert(naming(list, roots, id + 1).0[id] == numbered(number));
    assert(naming(list, roots, list.len() as int).0.contains_key(id));
    assert(binding_names(list, roots)[id] == numbered(number));
    assert(binding_names(list, roots)[id] == "?t"@ + decimal(number));
    assert forall|lower: nat| lower < number implies is_used(
        list,
        roots,
        id,
        "?t"@ + #[trigger] decimal(lower),
    ) by {
        assert("?t"@ + decimal(lower) == numbered(lower));
        if lower < next {
            lemma_lower_numbers(list, roots, id, lower);
        } else {
            assert(is_taken(list, roots, numbered(lower)));
        }
    }
    assert(is_counted(list, roots, id, number));
}

proof fn lemma_lower_numbers(list: Seq<Node>, roots: Seq<usize>, count: int, lower: nat)
    requires
        0 <= count <= list.len(),
        lower < naming(list, roots, count).1,
    ensures
        is_used(list, roots, count, numbered(lower)),
    decreases count,
{
    if count > 0 {
        let next = naming(list, roots, count - 1).1;
        if lower < next {
            lemma_lower_numbers(list, roots, count - 1, lower);
        } else {
            lemma_free_number(list, roots, next);
            let number = free_number(list, roots, next);
            assert(is_bound(list, roots, count - 1));
            if lower == number {
                lemma_naming_grows(list, roots, count, list.len() as int);
                assert(naming(list, roots, count).0[count - 1] == numbered(number));
                assert(naming(list, roots, list.len() as int).0.contains_key(count - 1));
                assert(binding_names(list, roots)[count - 1] == numbered(lower));
            } else {
                assert(is_taken(list, roots, numbered(lower)));
            }
        }
    }
}

} // verus!

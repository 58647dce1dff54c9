//! What the arguments of `multi-extract` ask for.

use vstd::prelude::*;
use crate::dag_print::{nodes, Node};
use crate::engine::{
    all_ranked, calls, evaluations, ids_of, integer_of, is_ranked, least_cost, ranking, row_costs,
    stopped_at, variant_views, Call, Costs,
};
use crate::extractor::{leading, selected};
use crate::multi_extract::{
    all_evaluated, asked_for, asks_dag, bad_request, count_known, first_term, is_output,
    is_prepared, is_refused, is_unknown, saw, MultiExtractOutput, Prepared, Refusal,
};
use crate::subst::state::sort_name;

verus! {

/// The argument is this word.
pub open spec fn is_word(arg: egglog::ast::Expr, word: Seq<char>) -> bool {
    arg matches egglog::ast::Expr::Var(_, text) && text@ == word
}

/// The last two arguments are `:extractor` and a word.
pub open spec fn ends_in_extractor(args: Seq<egglog::ast::Expr>) -> bool {
    &&& args.len() >= 2
    &&& is_word(args[args.len() - 2], ":extractor"@)
    &&& args[args.len() - 1] is Var
}

/// Without an extractor at the end, the first argument is the count and those behind it are
/// the terms, in their order.
pub proof fn lemma_count_and_terms(args: Seq<egglog::ast::Expr>)
    requires
        args.len() >= 2,
        !ends_in_extractor(args),
        !is_word(args[1], ":dag"@),
    ensures
        !bad_request(args),
        !asks_dag(args),
        selected(args) is None,
        asked_for(args) == args,
{
    assert(asked_for(args) =~= args);
}

/// `:dag` behind the count asks for bindings, and for nothing else.
pub proof fn lemma_dag_asks_for_bindings(
    args: Seq<egglog::ast::Expr>,
    dag: egglog::ast::Expr,
)
    requires
        args.len() >= 2,
        !ends_in_extractor(args),
        !is_word(args[1], ":dag"@),
        is_word(dag, ":dag"@),
    ensures
        ({
            let longer = seq![args[0], dag] + args.skip(1);
            &&& !bad_request(longer)
            &&& asks_dag(longer)
            &&& selected(longer) is None
            &&& asked_for(longer) == asked_for(args)
        }),
{
    let longer = seq![args[0], dag] + args.skip(1);
    reveal_strlit(":dag");
    reveal_strlit(":extractor");
    assert(longer[1] == dag);
    assert(longer[longer.len() - 1] == args[args.len() - 1]);
    if args.len() > 2 {
        assert(longer[longer.len() - 2] == args[args.len() - 2]);
    } else {
        assert(longer[longer.len() - 2] == dag);
        assert(":dag"@.len() != ":extractor"@.len());
    }
    lemma_count_and_terms(args);
    assert(asked_for(longer) =~= args);
}

/// `:extractor greedy-dag` at the end asks for that extractor, and for nothing else.
pub proof fn lemma_extractor_is_split_off(
    args: Seq<egglog::ast::Expr>,
    keyword: egglog::ast::Expr,
    name: egglog::ast::Expr,
)
    requires
        args.len() >= 1,
        !ends_in_extractor(args),
        is_word(keyword, ":extractor"@),
        is_word(name, "greedy-dag"@),
    ensures
        ({
            let longer = args + seq![keyword, name];
            &&& selected(longer) == Some("greedy-dag"@)
            &&& leading(longer) == args.len()
            &&& longer.take(leading(longer)) == args
            &&& bad_request(longer) == bad_request(args)
            &&& asks_dag(longer) == asks_dag(args)
            &&& !bad_request(args) ==> asked_for(longer) == asked_for(args)
        }),
{
    let longer = args + seq![keyword, name];
    assert(longer[longer.len() - 2] == keyword);
    assert(longer[longer.len() - 1] == name);
    assert(longer.take(args.len() as int) =~= args);
    assert(longer[0] == args[0]);
    if args.len() > 1 {
        assert(longer[1] == args[1]);
    }
    if !bad_request(args) {
        assert(longer.subrange(first_term(args), args.len() as int) =~= args.subrange(
            first_term(args),
            args.len() as int,
        ));
    }
}

/// Any other name behind a last `:extractor` is unknown.
pub proof fn lemma_other_extractors_are_unknown(
    args: Seq<egglog::ast::Expr>,
    keyword: egglog::ast::Expr,
    name: egglog::ast::Expr,
    word: Seq<char>,
)
    requires
        is_word(keyword, ":extractor"@),
        is_word(name, word),
        word != "greedy-dag"@,
    ensures
        is_unknown(args + seq![keyword, name]),
        selected(args + seq![keyword, name]) == Some(word),
        bad_request(args + seq![keyword, name]),
{
    let longer = args + seq![keyword, name];
    assert(longer[longer.len() - 2] == keyword);
    assert(longer[longer.len() - 1] == name);
}

/// The variants that are listed for a value are the terms of its rows in the order of their
/// costs, from the least on.
pub proof fn lemma_variants_are_listed_by_cost(
    costs: Costs,
    after: egglog::EGraph,
    prepared: Prepared,
    output: MultiExtractOutput,
    i: int,
)
    requires
        is_output(costs, after, prepared, output),
        prepared.count > 0,
        0 <= i < prepared.roots@.len(),
    ensures
        ({
            let root = prepared.roots@[i];
            let ranks = all_ranked(costs, after, prepared.roots@, prepared.count).1[i];
            let rows = row_costs(costs, after, root.0, root.1);
            &&& output.dag == prepared.dag
            &&& output.terms@.len() == prepared.roots@.len()
            &&& output.terms@[i]@.len() == ranks.len()
            &&& output.terms@[i]@.len() <= prepared.count
            &&& output.terms@[i]@.len() == prepared.count || output.terms@[i]@.len() == rows.len()
            &&& forall|k: int|
                0 <= k < ranks.len() ==> ranks[k] == (
                    rows[k],
                    #[trigger] output.terms@[i]@[k],
                )
            &&& forall|k: int, l: int|
                0 <= k <= l < ranks.len() ==> (#[trigger] ranks[k]).0 <= (#[trigger] ranks[l]).0
        }),
{
    let root = prepared.roots@[i];
    let found = all_ranked(costs, after, prepared.roots@, prepared.count).1;
    let views = variant_views(output.terms@);
    assert(views.len() == found.len());
    assert(views[i] == ids_of(found[i]));
    assert(is_ranked(
        found[i],
        row_costs(costs, after, root.0, root.1),
        least_cost(costs, after, root.0, root.1),
        prepared.count,
    ));
    assert forall|k: int| 0 <= k < found[i].len() implies found[i][k] == (
        row_costs(costs, after, root.0, root.1)[k],
        #[trigger] output.terms@[i]@[k],
    ) by {
        assert(ids_of(found[i])[k] == found[i][k].1);
    }
}

/// The lists are the DAG before the first value, and after each of them: each value has its
/// cheapest terms, so many at most, which were added to the DAG that the values before it left.
pub open spec fn are_added(
    costs: Costs,
    egraph: egglog::EGraph,
    roots: Seq<(egglog::ResolvedVar, u32)>,
    count: usize,
    terms: Seq<Seq<usize>>,
    lists: Seq<Seq<Node>>,
) -> bool {
    &&& lists.len() == roots.len() + 1
    &&& lists[0].len() == 0
    &&& terms.len() == roots.len()
    &&& forall|k: int|
        0 <= k < roots.len() ==> {
            let (own, longer) = ranking(
                costs,
                egraph,
                lists[k],
                (#[trigger] roots[k]).0,
                roots[k].1,
                count,
            );
            &&& lists[k + 1] == longer
            &&& terms[k].len() == own.len()
            &&& forall|v: int| 0 <= v < own.len() ==> #[trigger] terms[k][v] == own[v].1
        }
}

proof fn lemma_ranked_in_order(
    costs: Costs,
    egraph: egglog::EGraph,
    roots: Seq<(egglog::ResolvedVar, u32)>,
    count: usize,
) -> (lists: Seq<Seq<Node>>)
    ensures
        are_added(
            costs,
            egraph,
            roots,
            count,
            all_ranked(costs, egraph, roots, count).1.map_values(
                |own: Seq<(u64, usize)>| ids_of(own),
            ),
            lists,
        ),
        lists.last() == all_ranked(costs, egraph, roots, count).0,
    decreases roots.len(),
{
    if roots.len() == 0 {
        seq![Seq::empty()]
    } else {
        let front = roots.drop_last();
        let fewer = lemma_ranked_in_order(costs, egraph, front, count);
        let (list, found) = all_ranked(costs, egraph, roots, count);
        let lists = fewer.push(list);
        let terms = found.map_values(|own: Seq<(u64, usize)>| ids_of(own));
        let before = all_ranked(costs, egraph, front, count).1.map_values(
            |own: Seq<(u64, usize)>| ids_of(own),
        );
        assert forall|k: int| 0 <= k < roots.len() implies {
            let (own, longer) = ranking(
                costs,
                egraph,
                lists[k],
                (#[trigger] roots[k]).0,
                roots[k].1,
                count,
            );
            &&& lists[k + 1] == longer
            &&& terms[k].len() == own.len()
            &&& forall|v: int| 0 <= v < own.len() ==> #[trigger] terms[k][v] == own[v].1
        } by {
            if k < front.len() {
                assert(front[k] == roots[k]);
                assert(terms[k] == before[k]);
            } else {
                assert(terms[k] == ids_of(found[k]));
            }
        }
        lists
    }
}

/// The variants of all terms stand in one DAG, to which they were added term by term, in the
/// order of the terms.
pub proof fn lemma_variants_are_added_in_order(
    costs: Costs,
    after: egglog::EGraph,
    prepared: Prepared,
    output: MultiExtractOutput,
) -> (lists: Seq<Seq<Node>>)
    requires
        is_output(costs, after, prepared, output),
    ensures
        lists.last() == nodes(output.termdag),
        are_added(
            costs,
            after,
            prepared.roots@,
            prepared.count,
            variant_views(output.terms@),
            lists,
        ),
{
    lemma_ranked_in_order(costs, after, prepared.roots@, prepared.count)
}

/// How many arguments there are but for an extractor at the end.
pub open spec fn own_len(args: Seq<egglog::ast::Expr>) -> int {
    if ends_in_extractor(args) {
        args.len() - 2
    } else {
        args.len() as int
    }
}

/// `:dag` stands behind the first argument, and is not that of an extractor at the end.
pub open spec fn has_dag(args: Seq<egglog::ast::Expr>) -> bool {
    own_len(args) > 1 && is_word(args[1], ":dag"@)
}

/// How many arguments stand before the terms: the count, and `:dag` where it stands there.
pub open spec fn before_terms(args: Seq<egglog::ast::Expr>) -> int {
    if has_dag(args) {
        2
    } else {
        1
    }
}

/// What is to be extracted is what the arguments say. The count is evaluated first, to a
/// positive integer, and then each term, once and in its order, and nothing else is asked. The
/// values are those that the terms gave.
pub proof fn lemma_arguments_are_evaluated_in_order(
    before: egglog::EGraph,
    after: egglog::EGraph,
    args: Seq<egglog::ast::Expr>,
    prepared: Prepared,
)
    requires
        is_prepared(before, after, args, prepared),
    ensures
        prepared.dag == has_dag(args),
        prepared.greedy == ends_in_extractor(args),
        prepared.roots@.len() == own_len(args) - before_terms(args),
        prepared.roots@.len() > 0,
        calls(before).is_prefix_of(calls(after)),
        calls(after).len() == calls(before).len() + 1 + prepared.roots@.len(),
        calls(after)[calls(before).len() as int] matches Call::Eval(expr, Some(found)) && {
            &&& expr == args[0]
            &&& sort_name(found.0) == "i64"@
            &&& integer_of(after, found.1) > 0
            &&& prepared.count == integer_of(after, found.1) as usize
        },
        forall|i: int|
            0 <= i < prepared.roots@.len() ==> calls(after)[calls(before).len() + 1 + i]
                == Call::Eval(
                args[before_terms(args) + i],
                Some(#[trigger] prepared.roots@[i]),
            ),
{
    let found = choose|found: Seq<(egglog::ResolvedVar, u32)>|
        {
            &&& #[trigger] all_evaluated(before, after, args, found)
            &&& prepared.roots@ == found.skip(1)
            &&& prepared.count == integer_of(after, found[0].1) as usize
        };
    let asked = asked_for(args);
    let log = evaluations(asked, found);
    assert(calls(after)[calls(before).len() as int] == log[0]);
    assert(asked[0] == args[0]);
    assert forall|i: int| 0 <= i < prepared.roots@.len() implies calls(after)[calls(before).len()
        + 1 + i] == Call::Eval(
        args[before_terms(args) + i],
        Some(#[trigger] prepared.roots@[i]),
    ) by {
        assert(calls(after)[calls(before).len() + 1 + i] == log[i + 1]);
        assert(asked[i + 1] == args[before_terms(args) + i]);
        assert(prepared.roots@[i] == found[i + 1]);
    }
}

/// A refusal says why there is no output. For an unknown extractor, and for want of a count or
/// of terms, nothing is asked. For a count that is no positive integer, just the count has been
/// evaluated.
pub proof fn lemma_refusals_say_why(
    before: egglog::EGraph,
    after: egglog::EGraph,
    args: Seq<egglog::ast::Expr>,
    refusal: Refusal,
)
    requires
        is_refused(before, after, args, refusal),
    ensures
        match refusal {
            Refusal::UnknownExtractor(name) => {
                &&& after == before
                &&& ends_in_extractor(args)
                &&& is_word(args[args.len() - 1], name@)
                &&& name@ != "greedy-dag"@
            },
            Refusal::TooFew { counted } => {
                &&& after == before
                &&& own_len(args) <= before_terms(args)
                &&& counted <==> own_len(args) > 0
            },
            Refusal::NotAnInteger(sort) => {
                &&& sort_name(sort) != "i64"@
                &&& asked_once(before, after, args, sort)
            },
            Refusal::Negative => exists|sort: egglog::ResolvedVar, value: u32|
                {
                    &&& sort_name(sort) == "i64"@
                    &&& #[trigger] gave_count(before, after, args, sort, value)
                    &&& integer_of(after, value) < 0
                },
            Refusal::Zero => exists|sort: egglog::ResolvedVar, value: u32|
                {
                    &&& sort_name(sort) == "i64"@
                    &&& #[trigger] gave_count(before, after, args, sort, value)
                    &&& integer_of(after, value) == 0
                },
            Refusal::Retired(i) => {
                &&& own_len(args) > before_terms(args)
                &&& i < own_len(args) - before_terms(args)
                &&& calls(after).len() == calls(before).len() + 1 + own_len(args) - before_terms(
                    args,
                )
            },
            Refusal::Engine(_) => {
                &&& calls(after).len() > calls(before).len()
                &&& calls(after).last() matches Call::Eval(_, end)
                &&& end is None
            },
        },
{
    if !bad_request(args) {
        match refusal {
            Refusal::NotAnInteger(sort) => {
                let value = choose|value: u32| #[trigger]
                    count_known(before, after, args, sort, value);
                assert(gave_count(before, after, args, sort, value));
            },
            Refusal::Negative => {
                let (sort, value) = choose|sort: egglog::ResolvedVar, value: u32|
                    {
                        &&& #[trigger] count_known(before, after, args, sort, value)
                        &&& sort_name(sort) == "i64"@
                        &&& integer_of(after, value) < 0
                    };
                assert(gave_count(before, after, args, sort, value));
            },
            Refusal::Zero => {
                let (sort, value) = choose|sort: egglog::ResolvedVar, value: u32|
                    {
                        &&& #[trigger] count_known(before, after, args, sort, value)
                        &&& sort_name(sort) == "i64"@
                        &&& integer_of(after, value) == 0
                    };
                assert(gave_count(before, after, args, sort, value));
            },
            Refusal::Retired(i) => {
                let (found, seen, k) = choose|
                    found: Seq<(egglog::ResolvedVar, u32)>,
                    seen: egglog::EGraph,
                    k: int,
                |
                    {
                        &&& #[trigger] all_evaluated(before, after, args, found)
                        &&& 0 <= i as int
                        &&& i as int + 3 <= k <= found.len()
                        &&& #[trigger] saw(before, seen, args, found, k)
                    };
                assert(found.len() == asked_for(args).len());
            },
            Refusal::Engine(_) => {
                let i = choose|i: int| #[trigger]
                    stopped_at(before, after, asked_for(args), i, None);
            },
            _ => {},
        }
    }
}

/// Just the first argument was evaluated, to this sort and value.
pub open spec fn gave_count(
    before: egglog::EGraph,
    after: egglog::EGraph,
    args: Seq<egglog::ast::Expr>,
    sort: egglog::ResolvedVar,
    value: u32,
) -> bool {
    &&& calls(after).len() == calls(before).len() + 1
    &&& calls(before).is_prefix_of(calls(after))
    &&& calls(after).last() == Call::Eval(args[0], Some((sort, value)))
}

/// Just the first argument was evaluated, to a value of this sort.
pub open spec fn asked_once(
    before: egglog::EGraph,
    after: egglog::EGraph,
    args: Seq<egglog::ast::Expr>,
    sort: egglog::ResolvedVar,
) -> bool {
    exists|value: u32| #[trigger] gave_count(before, after, args, sort, value)
}

} // verus!

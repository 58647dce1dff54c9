//! The `multi-extract` command.
//!
//! `(multi-extract n [:dag] term... [:extractor greedy-dag])` prints the `n`
//! lowest-cost variants of every term. `n` must be a positive `i64`.
//!
//! With `:dag`, the output is one `(let ((name def) ...) ((variant ...) ...))`
//! s-expression in which subterms shared across all variants of all terms are
//! let-bound once, instead of every variant being expanded to a tree.

pub mod asking;
pub mod printing;

use vstd::prelude::*;
use crate::dag_print::{
    binding_names, binding_texts, bindings_of, dag_get, dag_size, dag_to_string, is_dag, nodes,
    plain, render_terms_with_shared_lets, shown, Node,
};
use crate::engine::{
    additive_costs, all_affordable, all_are_ranked, all_ranked, are_roots, calls, compute_costs,
    covers, eval_expr, evaluates, evaluations, has_sort, holds_container, ids_in, ids_of, integer,
    integer_of, is_held, is_lasting, is_ranked, least_cost, lemma_reaches_push, list_variants,
    reaches, root_sorts, row_costs, sorts_of_roots, stopped_at, variant_views, variants_of, Call,
    Costs,
};
use crate::extractor::{
    is_symbol, leading, selected, split_trailing_extractor, unknown_extractor,
    unknown_extractor_text,
};
use crate::lists::{flattened, lemma_flattened_push};
use crate::subst::state::{holds_containers, name_of_sort, sort_name};
use crate::text::same;

verus! {

/// The output of the command.
pub struct MultiExtractOutput {
    /// The terms of all variants.
    pub termdag: egglog::TermDag,
    /// For each root the ids of its variants, in order.
    pub terms: Vec<Vec<usize>>,
    /// Whether shared subterms are bound when the output is printed.
    pub dag: bool,
}

/// The lines of the variants of one root.
pub open spec fn variant_lines(variants: Seq<Seq<char>>) -> Seq<char>
    decreases variants.len(),
{
    if variants.len() == 0 {
        Seq::empty()
    } else {
        variant_lines(variants.drop_last()) + "      "@ + variants.last() + "\n"@
    }
}

/// The lines of all roots.
pub open spec fn root_lines(roots: Seq<Seq<Seq<char>>>) -> Seq<char>
    decreases roots.len(),
{
    if roots.len() == 0 {
        Seq::empty()
    } else {
        root_lines(roots.drop_last()) + "   (\n"@ + variant_lines(roots.last()) + "   )\n"@
    }
}

/// The lines of the bindings.
pub open spec fn binding_lines(bindings: Seq<(Seq<char>, Seq<char>)>) -> Seq<char>
    decreases bindings.len(),
{
    if bindings.len() == 0 {
        Seq::empty()
    } else {
        binding_lines(bindings.drop_last()) + "   ("@ + bindings.last().0 + " "@
            + bindings.last().1 + ")\n"@
    }
}

/// The variants of each root, each shown with the given names.
pub open spec fn shown_terms(
    list: Seq<Node>,
    names: Map<int, Seq<char>>,
    terms: Seq<Seq<usize>>,
) -> Seq<Seq<Seq<char>>> {
    terms.map_values(
        |ids: Seq<usize>| ids.map_values(|id: usize| shown(list, names, id as int)),
    )
}

impl MultiExtractOutput {
    /// The ids stand for terms, and children come before their parents.
    pub open spec fn wf(&self) -> bool {
        &&& is_dag(nodes(self.termdag))
        &&& forall|i: int|
            0 <= i < self.terms@.len() ==> ids_in(nodes(self.termdag), #[trigger] self.terms@[i]@)
    }

    /// What is printed.
    pub open spec fn text(&self) -> Seq<char> {
        let list = nodes(self.termdag);
        let terms = variant_views(self.terms@);
        let roots = flattened(terms);
        if self.dag {
            "(let (\n"@ + binding_lines(bindings_of(list, roots, list.len() as int)) + " )\n"@
                + " (\n"@ + root_lines(shown_terms(list, binding_names(list, roots), terms))
                + " ))\n"@
        } else {
            "(\n"@ + root_lines(shown_terms(list, Map::empty(), terms)) + ")\n"@
        }
    }

    /// Prints the output.
    pub fn to_text(&self) -> (text: String)
        requires
            self.wf(),
        ensures
            text@ == self.text(),
    {
        let ghost list = nodes(self.termdag);
        let ghost terms = variant_views(self.terms@);
        if !self.dag {
            let mut text = "(\n".to_owned();
            let lines = self.plain_lines();
            text.append(lines.as_str());
            text.append(")\n");
            return text;
        }
        let mut roots: Vec<usize> = Vec::new();
        assert(variant_views(self.terms@.take(0)) =~= Seq::<Seq<usize>>::empty());
        for i in 0..self.terms.len()
            invariant
                list == nodes(self.termdag),
                self.wf(),
                roots@ == flattened(variant_views(self.terms@.take(i as int))),
                ids_in(list, roots@),
        {
            let ghost before = roots@;
            let ids = &self.terms[i];
            assert(ids_in(list, self.terms@[i as int]@));
            assert(before =~= before + ids@.take(0));
            for j in 0..ids.len()
                invariant
                    ids_in(list, before),
                    ids_in(list, ids@),
                    roots@ == before + ids@.take(j as int),
            {
                roots.push(ids[j]);
                assert(roots@ =~= before + ids@.take(j + 1));
            }
            proof {
                assert(ids@.take(ids@.len() as int) =~= ids@);
                let views = variant_views(self.terms@.take(i as int));
                assert(variant_views(self.terms@.take(i + 1)) =~= views.push(ids@));
                lemma_flattened_push(views, ids@);
            }
        }
        assert(self.terms@.take(self.terms@.len() as int) =~= self.terms@);
        let (bindings, rendered) = render_terms_with_shared_lets(&self.termdag, &roots);
        let ghost names = binding_names(list, roots@);
        let mut text = "(let (\n".to_owned();
        let defined = print_bindings(&bindings);
        text.append(defined.as_str());
        text.append(" )\n");
        text.append(" (\n");
        let lines = self.print_rendered(&rendered, Ghost(names));
        text.append(lines.as_str());
        text.append(" ))\n");
        assert(text@ =~= self.text());
        text
    }

    fn plain_lines(&self) -> (text: String)
        requires
            self.wf(),
        ensures
            text@ == root_lines(
                shown_terms(nodes(self.termdag), Map::empty(), variant_views(self.terms@)),
            ),
    {
        let ghost list = nodes(self.termdag);
        let ghost all = shown_terms(list, Map::empty(), variant_views(self.terms@));
        let mut text = String::new();
        for i in 0..self.terms.len()
            invariant
                self.wf(),
                list == nodes(self.termdag),
                all == shown_terms(list, Map::empty(), variant_views(self.terms@)),
                text@ == root_lines(all.take(i as int)),
        {
            let ids = &self.terms[i];
            let ghost before = text@;
            text.append("   (\n");
            let ghost own = all[i as int];
            let ghost opened = text@;
            assert(ids_in(list, self.terms@[i as int]@));
            assert(opened =~= opened + variant_lines(own.take(0)));
            for j in 0..ids.len()
                invariant
                    self.wf(),
                    list == nodes(self.termdag),
                    ids_in(list, ids@),
                    own.len() == ids@.len(),
                    forall|k: int|
                        0 <= k < own.len() ==> #[trigger] own[k] == plain(list, ids@[k] as int),
                    text@ == opened + variant_lines(own.take(j as int)),
            {
                text.append("      ");
                let shown_text = dag_to_string(&self.termdag, ids[j]);
                text.append(shown_text.as_str());
                text.append("\n");
                proof {
                    assert(own.take(j + 1).drop_last() =~= own.take(j as int));
                    assert(own.take(j + 1).last() == own[j as int]);
                    assert(text@ =~= opened + variant_lines(own.take(j + 1)));
                }
            }
            assert(own.take(ids@.len() as int) =~= own);
            text.append("   )\n");
            proof {
                assert(all.take(i + 1).drop_last() =~= all.take(i as int));
                assert(all.take(i + 1).last() == own);
                assert(text@ =~= root_lines(all.take(i + 1)));
            }
        }
        assert(all.take(self.terms@.len() as int) =~= all);
        text
    }

    fn print_rendered(
        &self,
        rendered: &Vec<String>,
        Ghost(names): Ghost<Map<int, Seq<char>>>,
    ) -> (text: String)
        requires
            rendered@.len() == flattened(variant_views(self.terms@)).len(),
            forall|i: int|
                0 <= i < rendered@.len() ==> #[trigger] rendered@[i]@ == shown(
                    nodes(self.termdag),
                    names,
                    flattened(variant_views(self.terms@))[i] as int,
                ),
        ensures
            text@ == root_lines(
                shown_terms(nodes(self.termdag), names, variant_views(self.terms@)),
            ),
    {
        let ghost list = nodes(self.termdag);
        let ghost terms = variant_views(self.terms@);
        let ghost roots = flattened(terms);
        let ghost all = shown_terms(list, names, terms);
        let mut text = String::new();
        let mut next: usize = 0;
        let total = rendered.len();
        assert(terms.take(0) =~= Seq::<Seq<usize>>::empty());
        for i in 0..self.terms.len()
            invariant
                list == nodes(self.termdag),
                terms == variant_views(self.terms@),
                roots == flattened(terms),
                all == shown_terms(list, names, terms),
                total == rendered@.len(),
                total == roots.len(),
                forall|k: int|
                    0 <= k < rendered@.len() ==> #[trigger] rendered@[k]@ == shown(
                        list,
                        names,
                        roots[k] as int,
                    ),
                next == flattened(terms.take(i as int)).len(),
                text@ == root_lines(all.take(i as int)),
        {
            let ids = &self.terms[i];
            text.append("   (\n");
            let ghost own = all[i as int];
            let ghost opened = text@;
            let start = next;
            proof {
                assert(opened =~= opened + variant_lines(own.take(0)));
                assert(terms.take(i + 1) =~= terms.take(i as int).push(ids@));
                lemma_flattened_push(terms.take(i as int), ids@);
                lemma_flattened_prefix(terms, i + 1);
            }
            for j in 0..ids.len()
                invariant
                    total == rendered@.len(),
                    total == roots.len(),
                    forall|k: int|
                        0 <= k < rendered@.len() ==> #[trigger] rendered@[k]@ == shown(
                            list,
                            names,
                            roots[k] as int,
                        ),
                    start + ids@.len() <= total,
                    forall|k: int|
                        0 <= k < ids@.len() ==> #[trigger] roots[start + k] == ids@[k],
                    own.len() == ids@.len(),
                    forall|k: int|
                        0 <= k < own.len() ==> #[trigger] own[k] == shown(
                            list,
                            names,
                            ids@[k] as int,
                        ),
                    next == start + j,
                    text@ == opened + variant_lines(own.take(j as int)),
            {
                text.append("      ");
                text.append(rendered[next].as_str());
                text.append("\n");
                proof {
                    assert(roots[start + j] == ids@[j as int]);
                    assert(rendered@[next as int]@ == own[j as int]);
                    assert(own.take(j + 1).drop_last() =~= own.take(j as int));
                    assert(own.take(j + 1).last() == own[j as int]);
                    assert(text@ =~= opened + variant_lines(own.take(j + 1)));
                }
                next = next + 1;
            }
            assert(own.take(ids@.len() as int) =~= own);
            text.append("   )\n");
            proof {
                assert(all.take(i + 1).drop_last() =~= all.take(i as int));
                assert(all.take(i + 1).last() == own);
                assert(text@ =~= root_lines(all.take(i + 1)));
            }
        }
        assert(all.take(self.terms@.len() as int) =~= all);
        text
    }

    /// Whether the output is one that can be printed.
    pub fn is_sound(&self) -> (sound: bool)
        ensures
            sound == self.wf(),
    {
        let ghost list = nodes(self.termdag);
        let size = dag_size(&self.termdag);
        for id in 0..size
            invariant
                list == nodes(self.termdag),
                size == list.len(),
                forall|k: int, j: int|
                    0 <= k < id && 0 <= j < crate::dag_print::children(list[k]).len()
                        ==> #[trigger] crate::dag_print::children(list[k])[j] < k,
        {
            match dag_get(&self.termdag, id) {
                egglog::Term::App(_, args) => {
                    assert(crate::dag_print::children(list[id as int]) == args@);
                    for j in 0..args.len()
                        invariant
                            id < list.len(),
                            list == nodes(self.termdag),
                            crate::dag_print::children(list[id as int]) == args@,
                            forall|k: int| 0 <= k < j ==> #[trigger] args@[k] < id,
                    {
                        if args[j] >= id {
                            assert(crate::dag_print::children(list[id as int])[j as int] >= id);
                            return false;
                        }
                    }
                },
                _ => {
                    assert(crate::dag_print::children(list[id as int]).len() == 0);
                },
            }
        }
        for i in 0..self.terms.len()
            invariant
                list == nodes(self.termdag),
                size == list.len(),
                forall|k: int| 0 <= k < i ==> ids_in(list, #[trigger] self.terms@[k]@),
        {
            let ids = &self.terms[i];
            for j in 0..ids.len()
                invariant
                    i < self.terms@.len(),
                    ids@ == self.terms@[i as int]@,
                    list == nodes(self.termdag),
                    size == list.len(),
                    forall|k: int| 0 <= k < j ==> #[trigger] ids@[k] < size,
            {
                if ids[j] >= size {
                    assert(!ids_in(list, self.terms@[i as int]@)) by {
                        assert(ids@[j as int] >= list.len());
                    }
                    return false;
                }
            }
        }
        true
    }

    /// Prints the output if it is one that can be printed.
    pub fn try_text(&self) -> (text: Option<String>)
        ensures
            match text {
                Some(printed) => self.wf() && printed@ == self.text(),
                None => !self.wf(),
            },
    {
        if self.is_sound() {
            Some(self.to_text())
        } else {
            None
        }
    }
}

proof fn lemma_flattened_prefix<T>(lists: Seq<Seq<T>>, k: int)
    requires
        0 <= k <= lists.len(),
    ensures
        flattened(lists.take(k)).len() <= flattened(lists).len(),
        forall|i: int|
            0 <= i < flattened(lists.take(k)).len() ==> #[trigger] flattened(lists)[i]
                == flattened(lists.take(k))[i],
    decreases lists.len() - k,
{
    if k < lists.len() {
        lemma_flattened_prefix(lists, k + 1);
        assert(lists.take(k + 1) =~= lists.take(k).push(lists[k]));
        lemma_flattened_push(lists.take(k), lists[k]);
    } else {
        assert(lists.take(k) =~= lists);
    }
}

fn print_bindings(bindings: &Vec<(String, String)>) -> (text: String)
    ensures
        text@ == binding_lines(binding_texts(bindings@)),
{
    let ghost all = binding_texts(bindings@);
    let mut text = String::new();
    for i in 0..bindings.len()
        invariant
            all == binding_texts(bindings@),
            text@ == binding_lines(all.take(i as int)),
    {
        text.append("   (");
        text.append(bindings[i].0.as_str());
        text.append(" ");
        text.append(bindings[i].1.as_str());
        text.append(")\n");
        proof {
            assert(all.take(i + 1).drop_last() =~= all.take(i as int));
            assert(all.take(i + 1).last() == all[i as int]);
            assert(text@ =~= binding_lines(all.take(i + 1)));
        }
    }
    assert(all.take(bindings@.len() as int) =~= all);
    text
}

/// Why `multi-extract` gave no output.
pub enum Refusal {
    /// The arguments end in `:extractor` and this unknown name.
    UnknownExtractor(String),
    /// There is no count, or with `counted` no term behind it.
    TooFew {
        /// Whether there is a count.
        counted: bool,
    },
    /// The count has this sort, which is not `i64`.
    NotAnInteger(egglog::ResolvedVar),
    /// The count is negative.
    Negative,
    /// The count is zero.
    Zero,
    /// The term at this position evaluated to a container, which went when a
    /// later one was evaluated.
    Retired(usize),
    /// The engine gave an error.
    Engine(egglog::Error),
}

impl Refusal {
    /// The text of a refusal that is not the engine's.
    pub open spec fn text(&self) -> Seq<char> {
        match self {
            Refusal::UnknownExtractor(name) => unknown_extractor_text(name@),
            Refusal::TooFew { .. } =>
                "multi-extract expects at least a variant count and one expression"@,
            Refusal::NotAnInteger(_) => "multi-extract expects a variant count of sort i64"@,
            Refusal::Negative => "Cannot extract negative number of variants"@,
            Refusal::Zero => "multi-extract requires a positive number of variants"@,
            Refusal::Retired(_) => "multi-extract: a container changed while terms were evaluated"@,
            Refusal::Engine(_) => Seq::empty(),
        }
    }

    /// Says why there is no output. What the engine says is its own.
    pub fn message(&self) -> (message: String)
        ensures
            message@ == self.text(),
    {
        match self {
            Refusal::UnknownExtractor(name) => unknown_extractor(name.as_str()),
            Refusal::TooFew { .. } =>
                "multi-extract expects at least a variant count and one expression".to_owned(),
            Refusal::NotAnInteger(_) =>
                "multi-extract expects a variant count of sort i64".to_owned(),
            Refusal::Negative => "Cannot extract negative number of variants".to_owned(),
            Refusal::Zero => "multi-extract requires a positive number of variants".to_owned(),
            Refusal::Retired(_) =>
                "multi-extract: a container changed while terms were evaluated".to_owned(),
            Refusal::Engine(_) => String::new(),
        }
    }
}

/// What the arguments ask for. The count is the first argument.
pub struct Request {
    /// The position of the first term.
    pub first: usize,
    /// The position behind the last term.
    pub end: usize,
    /// Whether shared subterms are to be bound.
    pub dag: bool,
    /// Whether the greedy DAG extractor is asked for.
    pub greedy: bool,
}

/// `:dag` stands directly behind the count.
pub open spec fn asks_dag(args: Seq<egglog::ast::Expr>) -> bool {
    leading(args) > 1 && is_symbol(args[1], ":dag"@)
}

/// The position of the first term.
pub open spec fn first_term(args: Seq<egglog::ast::Expr>) -> int {
    if asks_dag(args) {
        2
    } else {
        1
    }
}

/// Why the arguments ask for nothing, whatever they evaluate to: the extractor
/// is unknown, or there are too few of them.
pub open spec fn bad_request(args: Seq<egglog::ast::Expr>) -> bool {
    is_unknown(args) || leading(args) <= first_term(args)
}

/// The arguments end in an extractor that is unknown.
pub open spec fn is_unknown(args: Seq<egglog::ast::Expr>) -> bool {
    selected(args) is Some && selected(args) != Some("greedy-dag"@)
}

/// The refusal is that of arguments that ask for nothing.
pub open spec fn refuses_request(args: Seq<egglog::ast::Expr>, refusal: Refusal) -> bool {
    if is_unknown(args) {
        refusal matches Refusal::UnknownExtractor(name) && selected(args) == Some(name@)
    } else {
        &&& leading(args) <= first_term(args)
        &&& refusal == Refusal::TooFew { counted: leading(args) > 0 }
    }
}

/// Reads what the arguments ask for.
pub fn parse_request(args: &[egglog::ast::Expr]) -> (result: Result<Request, Refusal>)
    ensures
        match result {
            Ok(request) => {
                &&& !bad_request(args@)
                &&& request.greedy == (selected(args@) is Some)
                &&& request.dag == asks_dag(args@)
                &&& request.first == first_term(args@)
                &&& request.end == leading(args@)
                &&& request.first < request.end
            },
            Err(refusal) => bad_request(args@) && refuses_request(args@, refusal),
        },
{
    let (end, greedy) = match split_trailing_extractor(args) {
        Ok(split) => split,
        Err(name) => {
            return Err(Refusal::UnknownExtractor(name));
        },
    };
    if end == 0 {
        return Err(Refusal::TooFew { counted: false });
    }
    let mut dag = false;
    if end > 1 {
        if let egglog::ast::Expr::Var(_, option) = &args[1] {
            dag = same(option.as_str(), ":dag");
        }
    }
    let first: usize = if dag {
        2
    } else {
        1
    };
    if first >= end {
        return Err(Refusal::TooFew { counted: true });
    }
    Ok(Request { first, end, dag, greedy })
}

/// Checks the number of variants.
pub fn check_count(number: i64) -> (result: Result<usize, Refusal>)
    ensures
        match result {
            Ok(count) => number > 0 && count == number as usize,
            Err(Refusal::Negative) => number < 0,
            Err(Refusal::Zero) => number == 0,
            Err(_) => false,
        },
{
    if number < 0 {
        Err(Refusal::Negative)
    } else if number == 0 {
        Err(Refusal::Zero)
    } else {
        Ok(number as usize)
    }
}

/// The expressions that are evaluated, in order: the count and the terms.
pub open spec fn asked_for(args: Seq<egglog::ast::Expr>) -> Seq<egglog::ast::Expr> {
    seq![args[0]] + args.subrange(first_term(args), leading(args))
}

/// The count was evaluated, to this sort and value.
pub open spec fn count_known(
    before: egglog::EGraph,
    after: egglog::EGraph,
    args: Seq<egglog::ast::Expr>,
    sort: egglog::ResolvedVar,
    value: u32,
) -> bool {
    calls(after) == calls(before).push(Call::Eval(args[0], Some((sort, value))))
}

/// The count was evaluated to an integer for which the check fails so.
pub open spec fn count_refused(
    before: egglog::EGraph,
    after: egglog::EGraph,
    args: Seq<egglog::ast::Expr>,
    negative: bool,
) -> bool {
    exists|sort: egglog::ResolvedVar, value: u32|
        {
            &&& #[trigger] count_known(before, after, args, sort, value)
            &&& sort_name(sort) == "i64"@
            &&& if negative {
                integer_of(after, value) < 0
            } else {
                integer_of(after, value) == 0
            }
        }
}

/// The count and the terms were evaluated, and the count is a positive
/// integer.
pub open spec fn all_evaluated(
    before: egglog::EGraph,
    after: egglog::EGraph,
    args: Seq<egglog::ast::Expr>,
    found: Seq<(egglog::ResolvedVar, u32)>,
) -> bool {
    &&& found.len() == asked_for(args).len()
    &&& calls(after) == calls(before) + evaluations(asked_for(args), found)
    &&& reaches(before, evaluations(asked_for(args), found), after)
    &&& sort_name(found[0].0) == "i64"@
    &&& integer_of(after, found[0].1) > 0
}

/// The first of the values is the number of variants: a positive integer.
pub open spec fn is_counted(
    egraph: egglog::EGraph,
    found: Seq<(egglog::ResolvedVar, u32)>,
) -> bool {
    &&& sort_name(found[0].0) == "i64"@
    &&& integer_of(egraph, found[0].1) > 0
}

/// What the arguments ask for can be evaluated, term by term: each in the e-graph
/// that what comes before leaves.
pub open spec fn can_evaluate(before: egglog::EGraph, args: Seq<egglog::ast::Expr>) -> bool {
    let asked = asked_for(args);
    !bad_request(args) ==> forall|
        i: int,
        found: Seq<(egglog::ResolvedVar, u32)>,
        middle: egglog::EGraph,
    |
        {
            &&& 0 <= i < asked.len()
            &&& found.len() == i
            &&& i > 0 ==> is_counted(middle, found)
            &&& #[trigger] reaches(before, evaluations(asked.take(i), found), middle)
        } ==> evaluates(middle, asked[i])
}

/// What the arguments come to can be extracted: no cost of what is to be listed
/// reaches `u64::MAX`.
pub open spec fn can_extract(before: egglog::EGraph, args: Seq<egglog::ast::Expr>) -> bool {
    forall|after: egglog::EGraph, prepared: Prepared|
        #[trigger] is_prepared(before, after, args, prepared) && !prepared.greedy
            ==> all_affordable(
            additive_costs(after, root_sorts(prepared.roots@)),
            after,
            prepared.roots@,
            prepared.count,
        )
}

/// The output is that of the evaluated terms: the terms of least cost of each,
/// at most so many, by their costs.
pub open spec fn is_output(
    costs: Costs,
    after: egglog::EGraph,
    prepared: Prepared,
    output: MultiExtractOutput,
) -> bool {
    &&& output.dag == prepared.dag
    &&& output.terms@.len() == prepared.roots@.len()
    &&& (nodes(output.termdag), variant_views(output.terms@)) == variants_of(
        costs,
        after,
        prepared.roots@,
        prepared.count,
    )
    &&& prepared.count > 0 ==> all_are_ranked(costs, after, prepared.roots@, prepared.count)
}

/// Some expression could not be evaluated.
pub open spec fn term_refused(
    before: egglog::EGraph,
    after: egglog::EGraph,
    args: Seq<egglog::ast::Expr>,
) -> bool {
    exists|i: int| #[trigger] stopped_at(before, after, asked_for(args), i, None)
}

/// The command, with the cost model by which it ranks variants.
///
/// The positive `i64` value `n` is the number of variants returned for each
/// term. All terms share one extractor computation.
pub struct MultiExtract<CM> {
    /// The cost model.
    pub cost_model: CM,
}

impl<CM> MultiExtract<CM> {
    /// Creates a command for a cost model.
    pub fn new(cost_model: CM) -> (command: Self)
        ensures
            command.cost_model == cost_model,
    {
        MultiExtract { cost_model }
    }
}

/// What is to be extracted.
pub struct Prepared {
    /// The evaluated terms, in order, each with its sort.
    pub roots: Vec<(egglog::ResolvedVar, u32)>,
    /// The number of variants of each.
    pub count: usize,
    /// Whether shared subterms are bound when the output is printed.
    pub dag: bool,
    /// Whether the greedy DAG extractor is asked for.
    pub greedy: bool,
}

impl Prepared {
    /// The output, from what an extractor found: a DAG and for each term the ids
    /// of its variants.
    pub fn output(&self, termdag: egglog::TermDag, terms: Vec<Vec<usize>>) -> (output:
        MultiExtractOutput)
        ensures
            output == (MultiExtractOutput { termdag, terms, dag: self.dag }),
    {
        MultiExtractOutput { termdag, terms, dag: self.dag }
    }

    /// Extracts the variants by costs that were computed for the sorts of the terms,
    /// under whatever cost model.
    pub fn extract(&self, egraph: &egglog::EGraph, costs: &Costs) -> (output: MultiExtractOutput)
        requires
            are_roots(*costs, *egraph, self.roots@),
            all_affordable(*costs, *egraph, self.roots@, self.count),
        ensures
            output.wf(),
            is_output(*costs, *egraph, *self, output),
    {
        let (termdag, terms) = list_variants(egraph, costs, &self.roots, self.count);
        self.output(termdag, terms)
    }
}

/// The count and the terms were evaluated, and this is what is to be extracted.
pub open spec fn is_prepared(
    before: egglog::EGraph,
    after: egglog::EGraph,
    args: Seq<egglog::ast::Expr>,
    prepared: Prepared,
) -> bool {
    &&& !bad_request(args)
    &&& prepared.dag == asks_dag(args)
    &&& prepared.greedy == (selected(args) is Some)
    &&& prepared.roots@.len() == leading(args) - first_term(args)
    &&& exists|found: Seq<(egglog::ResolvedVar, u32)>|
        {
            &&& #[trigger] all_evaluated(before, after, args, found)
            &&& prepared.roots@ == found.skip(1)
            &&& prepared.count == integer_of(after, found[0].1) as usize
        }
    &&& forall|i: int|
        0 <= i < prepared.roots@.len() ==> has_sort(
            after,
            (#[trigger] prepared.roots@[i]).0,
            prepared.roots@[i].1,
        )
}

/// All terms were evaluated, and the one at position `i` to a container that was no
/// longer held when some later term had been evaluated.
pub open spec fn is_retired(
    before: egglog::EGraph,
    after: egglog::EGraph,
    args: Seq<egglog::ast::Expr>,
    i: int,
) -> bool {
    exists|found: Seq<(egglog::ResolvedVar, u32)>, seen: egglog::EGraph, k: int|
        {
            &&& #[trigger] all_evaluated(before, after, args, found)
            &&& 0 <= i
            &&& i + 3 <= k <= found.len()
            &&& #[trigger] saw(before, seen, args, found, k)
            &&& reaches(seen, evaluations(asked_for(args).skip(k), found.skip(k)), after)
            &&& !is_lasting(found[i + 1].0)
            &&& !is_held(seen, found[i + 1].0, found[i + 1].1)
        }
}

/// The e-graph came from `before` by evaluating the count and the first terms, `k`
/// expressions in all.
pub open spec fn saw(
    before: egglog::EGraph,
    seen: egglog::EGraph,
    args: Seq<egglog::ast::Expr>,
    found: Seq<(egglog::ResolvedVar, u32)>,
    k: int,
) -> bool {
    let log = evaluations(asked_for(args).take(k), found.take(k));
    calls(seen) == calls(before) + log && reaches(before, log, seen)
}

/// The refusal is for what an argument evaluated to.
pub open spec fn refuses_value(
    before: egglog::EGraph,
    after: egglog::EGraph,
    args: Seq<egglog::ast::Expr>,
    refusal: Refusal,
) -> bool {
    match refusal {
        Refusal::NotAnInteger(sort) => {
            &&& sort_name(sort) != "i64"@
            &&& exists|value: u32| #[trigger] count_known(before, after, args, sort, value)
        },
        Refusal::Negative => count_refused(before, after, args, true),
        Refusal::Zero => count_refused(before, after, args, false),
        Refusal::Retired(i) => is_retired(before, after, args, i as int),
        Refusal::Engine(_) => term_refused(before, after, args),
        _ => false,
    }
}

/// What a refusal says, and what was done before it.
pub open spec fn is_refused(
    before: egglog::EGraph,
    after: egglog::EGraph,
    args: Seq<egglog::ast::Expr>,
    refusal: Refusal,
) -> bool {
    if bad_request(args) {
        after == before && refuses_request(args, refusal)
    } else {
        refuses_value(before, after, args, refusal)
    }
}

/// Whether the first values that are containers are still held, and if not which
/// is the first that is not.
fn first_retired(egraph: &egglog::EGraph, roots: &Vec<(egglog::ResolvedVar, u32)>) -> (gone: Option<
    usize,
>)
    ensures
        match gone {
            Some(i) => {
                &&& i < roots@.len()
                &&& !is_lasting(roots@[i as int].0)
                &&& !is_held(*egraph, roots@[i as int].0, roots@[i as int].1)
            },
            None => forall|i: int|
                0 <= i < roots@.len() ==> is_lasting((#[trigger] roots@[i]).0) || is_held(
                    *egraph,
                    roots@[i].0,
                    roots@[i].1,
                ),
        },
{
    for i in 0..roots.len()
        invariant
            forall|k: int|
                0 <= k < i ==> is_lasting((#[trigger] roots@[k]).0) || is_held(
                    *egraph,
                    roots@[k].0,
                    roots@[k].1,
                ),
    {
        let sort = &roots[i].0;
        if holds_containers(sort) && !holds_container(egraph, sort, roots[i].1) {
            let name = name_of_sort(sort);
            if !same(name.as_str(), "String") && !same(name.as_str(), "i64") {
                return Some(i);
            }
        }
    }
    None
}

/// Reads what the arguments ask for, and evaluates the count and the terms.
pub fn prepare(egraph: &mut egglog::EGraph, args: &[egglog::ast::Expr]) -> (result: Result<
    Prepared,
    Refusal,
>)
    requires
        can_evaluate(*old(egraph), args@),
    ensures
        match result {
            Ok(prepared) => is_prepared(*old(egraph), *final(egraph), args@, prepared),
            Err(refusal) => is_refused(*old(egraph), *final(egraph), args@, refusal),
        },
{
    let ghost base = *egraph;
    let request = match parse_request(args) {
        Ok(request) => request,
        Err(refusal) => {
            return Err(refusal);
        },
    };
    let ghost asked = asked_for(args@);
    proof {
        let none = Seq::<(egglog::ResolvedVar, u32)>::empty();
        assert(evaluations(asked.take(0), none) =~= Seq::<Call>::empty());
        assert(reaches(base, evaluations(asked.take(0), none), *egraph));
        assert(evaluates(*egraph, asked[0]));
    }
    let (sort, value) = match eval_expr(egraph, &args[0]) {
        Ok(found) => found,
        Err(error) => {
            proof {
                let none = Seq::<(egglog::ResolvedVar, u32)>::empty();
                assert(calls(*egraph) =~= (calls(base) + evaluations(asked.take(0), none)).push(
                    Call::Eval(asked[0], None),
                ));
                assert(stopped_at(base, *egraph, asked, 0, None));
            }
            return Err(Refusal::Engine(error));
        },
    };
    assert(count_known(base, *egraph, args@, sort, value));
    if !same(name_of_sort(&sort).as_str(), "i64") {
        return Err(Refusal::NotAnInteger(sort));
    }
    let number = integer(egraph, &sort, value);
    let count = match check_count(number) {
        Ok(count) => count,
        Err(refusal) => {
            return Err(refusal);
        },
    };
    let mut roots: Vec<(egglog::ResolvedVar, u32)> = Vec::new();
    let mut retired: Option<usize> = None;
    let ghost head = (sort, value);
    let ghost mut found: Seq<(egglog::ResolvedVar, u32)> = seq![head];
    proof {
        assert(calls(*egraph) =~= calls(base) + evaluations(asked.take(1), found));
        assert(found.skip(1) =~= roots@);
        let none = Seq::<(egglog::ResolvedVar, u32)>::empty();
        let call = Call::Eval(asked[0], Some(head));
        lemma_reaches_push(base, evaluations(asked.take(0), none), base, call, *egraph);
        assert(evaluations(asked.take(0), none).push(call) =~= evaluations(asked.take(1), found));
    }
    let ghost mut seen: egglog::EGraph = *egraph;
    let ghost mut seen_at: int = 0;
    let mut next: usize = request.first;
    while next < request.end
        invariant
            base == *old(egraph),
            can_evaluate(base, args@),
            asked == asked_for(args@),
            !bad_request(args@),
            request.first == first_term(args@),
            request.end == leading(args@),
            request.first <= next <= request.end,
            request.end <= args@.len(),
            found.len() == next - request.first + 1,
            found[0] == head,
            found.skip(1) == roots@,
            calls(*egraph) == calls(base) + evaluations(
                asked.take(next - request.first + 1),
                found,
            ),
            reaches(
                base,
                evaluations(asked.take(next - request.first + 1), found),
                *egraph,
            ),
            sort_name(head.0) == "i64"@,
            has_sort(*egraph, head.0, head.1),
            integer_of(*egraph, head.1) == number,
            number > 0,
            match retired {
                Some(i) => {
                    &&& i + 3 <= seen_at <= found.len()
                    &&& !is_lasting(roots@[i as int].0)
                    &&& !is_held(seen, roots@[i as int].0, roots@[i as int].1)
                    &&& saw(base, seen, args@, found, seen_at)
                    &&& reaches(
                        seen,
                        evaluations(
                            asked.subrange(seen_at, next - request.first + 1),
                            found.skip(seen_at),
                        ),
                        *egraph,
                    )
                },
                None => forall|i: int|
                    0 <= i < roots@.len() ==> has_sort(
                        *egraph,
                        (#[trigger] roots@[i]).0,
                        roots@[i].1,
                    ),
            },
        decreases request.end - next,
    {
        let ghost earlier = *egraph;
        let ghost had = found;
        let ghost had_roots = roots@;
        let ghost at = next - request.first + 1;
        assert(asked[at] == args@[next as int]);
        proof {
            assert(is_counted(*egraph, found));
            assert(evaluates(*egraph, asked[at]));
        }
        let pair = match eval_expr(egraph, &args[next]) {
            Ok(pair) => pair,
            Err(error) => {
                assert(stopped_at(base, *egraph, asked, at, None));
                return Err(Refusal::Engine(error));
            },
        };
        proof {
            found = found.push(pair);
            assert(evaluations(asked.take(at + 1), found) =~= evaluations(
                asked.take(at),
                had,
            ).push(Call::Eval(asked[at], Some(pair))));
            assert(calls(*egraph) =~= calls(base) + evaluations(asked.take(at + 1), found));
            assert(has_sort(*egraph, head.0, head.1));
            let call = Call::Eval(asked[at], Some(pair));
            lemma_reaches_push(base, evaluations(asked.take(at), had), earlier, call, *egraph);
            if retired is Some {
                let log = evaluations(asked.subrange(seen_at, at), had.skip(seen_at));
                lemma_reaches_push(seen, log, earlier, call, *egraph);
                assert(log.push(call) =~= evaluations(
                    asked.subrange(seen_at, at + 1),
                    found.skip(seen_at),
                ));
                assert(found.take(seen_at) =~= had.take(seen_at));
            }
        }
        if retired.is_none() {
            retired = first_retired(egraph, &roots);
            proof {
                seen = *egraph;
                seen_at = at + 1;
                assert(found.take(at + 1) =~= found);
                assert(saw(base, seen, args@, found, seen_at));
                assert(evaluations(
                    asked.subrange(seen_at, at + 1),
                    found.skip(seen_at),
                ) =~= Seq::<Call>::empty());
            }
        }
        roots.push(pair);
        proof {
            assert(found.skip(1) =~= roots@);
            if let Some(i) = retired {
                assert(roots@[i as int] == had_roots[i as int]);
            }
            if retired is None {
                assert forall|i: int| 0 <= i < roots@.len() implies has_sort(
                    *egraph,
                    (#[trigger] roots@[i]).0,
                    roots@[i].1,
                ) by {
                    if i < had_roots.len() {
                        assert(roots@[i] == had_roots[i]);
                        assert(has_sort(earlier, had_roots[i].0, had_roots[i].1));
                        if is_lasting(had_roots[i].0) {
                            assert(has_sort(*egraph, had_roots[i].0, had_roots[i].1));
                        } else {
                            assert(is_held(*egraph, had_roots[i].0, had_roots[i].1));
                        }
                    }
                }
            }
        }
        next = next + 1;
    }
    proof {
        assert(asked.take(asked.len() as int) =~= asked);
        assert(all_evaluated(base, *egraph, args@, found));
    }
    if let Some(i) = retired {
        proof {
            assert(found[i + 1] == roots@[i as int]);
            assert(asked.subrange(seen_at, asked.len() as int) =~= asked.skip(seen_at));
            assert(is_retired(base, *egraph, args@, i as int));
        }
        return Err(Refusal::Retired(i));
    }
    let prepared = Prepared { roots, count, dag: request.dag, greedy: request.greedy };
    assert(is_prepared(base, *egraph, args@, prepared));
    Ok(prepared)
}

/// With a count of one, each value for which there is a term has exactly one
/// variant, and it costs what the best extraction of the value costs, whatever the
/// cost model.
pub proof fn lemma_one_variant_is_best(
    costs: Costs,
    after: egglog::EGraph,
    prepared: Prepared,
    output: MultiExtractOutput,
    i: int,
)
    requires
        is_output(costs, after, prepared, output),
        prepared.count == 1,
        0 <= i < prepared.roots@.len(),
    ensures
        ({
            let root = prepared.roots@[i];
            let ranks = all_ranked(costs, after, prepared.roots@, 1).1[i];
            &&& output.terms@.len() == prepared.roots@.len()
            &&& output.terms@[i]@ == ids_of(ranks)
            &&& match least_cost(costs, after, root.0, root.1) {
                Some(cost) => ranks.len() == 1 && ranks[0].0 == cost,
                None => ranks.len() == 0,
            }
        }),
{
    lemma_variants_are_cheapest(costs, after, prepared, output, i);
    let root = prepared.roots@[i];
    assert(is_ranked(
        all_ranked(costs, after, prepared.roots@, 1).1[i],
        row_costs(costs, after, root.0, root.1),
        least_cost(costs, after, root.0, root.1),
        1,
    ));
}

/// The variants of a value are those of the rows of lowest cost, whatever the cost
/// model: a row that is left out costs no less than any variant that is listed, and
/// one is left out only if as many are listed as were asked for.
pub proof fn lemma_variants_are_cheapest(
    costs: Costs,
    after: egglog::EGraph,
    prepared: Prepared,
    output: MultiExtractOutput,
    i: int,
)
    requires
        is_output(costs, after, prepared, output),
        prepared.count > 0,
        0 <= i < prepared.roots@.len(),
    ensures
        ({
            let root = prepared.roots@[i];
            let ranks = all_ranked(costs, after, prepared.roots@, prepared.count).1[i];
            let rows = row_costs(costs, after, root.0, root.1);
            &&& output.terms@[i]@ == ids_of(ranks)
            &&& ranks.len() <= rows.len()
            &&& forall|k: int| 0 <= k < ranks.len() ==> (#[trigger] ranks[k]).0 == rows[k]
            &&& forall|k: int, left: int|
                0 <= k < ranks.len() <= left < rows.len() ==> (#[trigger] ranks[k]).0
                    <= #[trigger] rows[left]
            &&& ranks.len() < rows.len() ==> ranks.len() == prepared.count
        }),
{
    let root = prepared.roots@[i];
    let found = all_ranked(costs, after, prepared.roots@, prepared.count).1;
    let views = variant_views(output.terms@);
    assert(views.len() == found.len());
    assert(views[i] == ids_of(found[i]));
    assert(is_ranked(
        found[i],
        row_costs(costs, after, root.0, root.1),
        least_cost(costs, after, root.0, root.1),
        prepared.count,
    ));
}

/// What the command comes to.
pub enum Outcome {
    /// The output.
    Output(MultiExtractOutput),
    /// What the greedy DAG extractor is to extract. [`Prepared::output`] makes the
    /// output from what it finds.
    Greedy(Prepared),
}

impl MultiExtract<egglog::extract::TreeAdditiveCostModel> {
    /// Runs the command on its arguments.
    pub fn update(&self, egraph: &mut egglog::EGraph, args: &[egglog::ast::Expr]) -> (result: Result<
        Outcome,
        Refusal,
    >)
        requires
            can_evaluate(*old(egraph), args@),
            can_extract(*old(egraph), args@),
        ensures
            match result {
                Ok(Outcome::Output(output)) => {
                    &&& selected(args@) is None
                    &&& output.wf()
                    &&& exists|prepared: Prepared|
                        {
                            &&& #[trigger] is_prepared(
                                *old(egraph),
                                *final(egraph),
                                args@,
                                prepared,
                            )
                            &&& is_output(
                                additive_costs(*final(egraph), root_sorts(prepared.roots@)),
                                *final(egraph),
                                prepared,
                                output,
                            )
                        }
                },
                Ok(Outcome::Greedy(prepared)) => {
                    &&& selected(args@) is Some
                    &&& is_prepared(*old(egraph), *final(egraph), args@, prepared)
                },
                Err(refusal) => is_refused(*old(egraph), *final(egraph), args@, refusal),
            },
    {
        let ghost base = *egraph;
        let prepared = match prepare(egraph, args) {
            Ok(prepared) => prepared,
            Err(refusal) => {
                return Err(refusal);
            },
        };
        if prepared.greedy {
            return Ok(Outcome::Greedy(prepared));
        }
        let sorts = sorts_of_roots(&prepared.roots);
        let costs = compute_costs(egraph, &sorts, &self.cost_model);
        proof {
            assert(is_prepared(base, *egraph, args@, prepared));
            assert forall|i: int| 0 <= i < prepared.roots@.len() implies {
                &&& has_sort(*egraph, (#[trigger] prepared.roots@[i]).0, prepared.roots@[i].1)
                &&& covers(costs, *egraph, prepared.roots@[i].0)
            } by {
                assert(sorts@[i] == prepared.roots@[i].0);
            }
        }
        Ok(Outcome::Output(prepared.extract(egraph, &costs)))
    }
}

} // verus!

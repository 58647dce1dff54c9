//! What commands ask of an e-graph.
//!
//! E-class ids and interned values are plain numbers here. A sort is handled
//! as an `egglog::ResolvedVar` that carries it. A sort of a caller's own is taken to
//! implement what egglog's `Sort` asks of its kind: that of a container gives what
//! it holds, and every sort but those of e-classes writes its values as terms.

use egglog::Core;
use egglog_numeric_id::NumericId;
use vstd::prelude::*;
use crate::dag_print::{dag_default, is_dag, nodes, Node};
use crate::subst::state::{is_container_sort, sort_name, Edit};

verus! {

/// Something that was asked of an e-graph, with the answer.
pub enum Call {
    /// An expression was evaluated, to a sort and a value unless there was an
    /// error.
    Eval(egglog::ast::Expr, Option<(egglog::ResolvedVar, u32)>),
    /// A function was cleared, unless there was an error.
    Clear(Seq<char>, bool),
    /// Rows were to be inserted together: the table of each, whether it is a
    /// constructor's, and the columns. This was written, unless there was an error.
    Update(Seq<(Seq<char>, bool, Seq<u32>)>, Option<Seq<Edit>>),
}

/// What was asked of the e-graph so far, in order.
pub uninterp spec fn calls(egraph: egglog::EGraph) -> Seq<Call>;

/// Evaluating the expression, by `EGraph::eval_expr`, may end with this answer and
/// leave that e-graph. It never ends where a primitive panics on its arguments.
pub uninterp spec fn may_evaluate(
    before: egglog::EGraph,
    expr: egglog::ast::Expr,
    answer: Option<(egglog::ResolvedVar, u32)>,
    after: egglog::EGraph,
) -> bool;

/// Clearing the function, by `EGraph::clear_function`, may end well or not and leave
/// that e-graph.
pub uninterp spec fn may_clear(
    before: egglog::EGraph,
    name: Seq<char>,
    done: bool,
    after: egglog::EGraph,
) -> bool;

/// Inserting the rows, by `EGraph::update`, may write this, or give an error, and
/// leave that e-graph. It never ends where a primitive panics in the merge of a
/// function.
pub uninterp spec fn may_update(
    before: egglog::EGraph,
    rows: Seq<(Seq<char>, bool, Seq<u32>)>,
    written: Option<Seq<Edit>>,
    after: egglog::EGraph,
) -> bool;

/// Asking this of the e-graph, with this answer, may leave that e-graph.
pub open spec fn may_lead(before: egglog::EGraph, call: Call, after: egglog::EGraph) -> bool {
    match call {
        Call::Eval(expr, answer) => may_evaluate(before, expr, answer, after),
        Call::Clear(name, done) => may_clear(before, name, done, after),
        Call::Update(rows, written) => may_update(before, rows, written, after),
    }
}

/// Asking this of the e-graph, with these answers, may leave that e-graph.
pub open spec fn reaches(before: egglog::EGraph, log: Seq<Call>, after: egglog::EGraph) -> bool
    decreases log.len(),
{
    if log.len() == 0 {
        after == before
    } else {
        exists|middle: egglog::EGraph|
            {
                &&& reaches(before, log.drop_last(), middle)
                &&& #[trigger] may_lead(middle, log.last(), after)
            }
    }
}

/// The expression can be evaluated, be it with an error.
pub open spec fn evaluates(egraph: egglog::EGraph, expr: egglog::ast::Expr) -> bool {
    exists|answer: Option<(egglog::ResolvedVar, u32)>, after: egglog::EGraph| #[trigger]
        may_evaluate(egraph, expr, answer, after)
}

/// What is asked next leads on.
pub proof fn lemma_reaches_push(
    a: egglog::EGraph,
    log: Seq<Call>,
    b: egglog::EGraph,
    call: Call,
    c: egglog::EGraph,
)
    requires
        reaches(a, log, b),
        may_lead(b, call, c),
    ensures
        reaches(a, log.push(call), c),
{
    let longer = log.push(call);
    assert(longer.drop_last() =~= log);
    assert(may_lead(b, longer.last(), c));
}

/// What is asked in two parts is asked.
pub proof fn lemma_reaches_add(
    a: egglog::EGraph,
    log: Seq<Call>,
    b: egglog::EGraph,
    more: Seq<Call>,
    c: egglog::EGraph,
)
    requires
        reaches(a, log, b),
        reaches(b, more, c),
    ensures
        reaches(a, log + more, c),
    decreases more.len(),
{
    if more.len() == 0 {
        assert(log + more =~= log);
    } else {
        let middle = choose|middle: egglog::EGraph|
            {
                &&& reaches(b, more.drop_last(), middle)
                &&& #[trigger] may_lead(middle, more.last(), c)
            };
        lemma_reaches_add(a, log, b, more.drop_last(), middle);
        lemma_reaches_push(a, log + more.drop_last(), middle, more.last(), c);
        assert((log + more.drop_last()).push(more.last()) =~= log + more);
    }
}

/// The name of every function of the e-graph leads to its own table in the register
/// of tables, which an e-graph shares with its clones. That is so unless a clone of
/// it, or a state of it that was popped, declared functions after the two parted.
pub uninterp spec fn owns_tables(egraph: egglog::EGraph) -> bool;

/// The value is one of the sort.
pub uninterp spec fn has_sort(
    egraph: egglog::EGraph,
    sort: egglog::ResolvedVar,
    value: u32,
) -> bool;

/// The integer that a value of sort `i64` stands for.
pub uninterp spec fn integer_of(egraph: egglog::EGraph, value: u32) -> i64;

/// The string that a value of sort `String` stands for.
pub uninterp spec fn string_of(egraph: egglog::EGraph, value: u32) -> Seq<char>;

/// The input sorts and the output sort of a function, if there is one of the
/// name.
pub uninterp spec fn function_sorts_of(
    egraph: egglog::EGraph,
    name: Seq<char>,
) -> Option<(Seq<egglog::ResolvedVar>, egglog::ResolvedVar)>;

/// The names of the functions, in the order of their declaration.
pub uninterp spec fn function_names_of(egraph: egglog::EGraph) -> Seq<Seq<char>>;

/// Whether the table is a constructor's rather than a function's, if there is
/// one of the name.
pub uninterp spec fn is_constructor_table(egraph: egglog::EGraph, name: Seq<char>) -> Option<bool>;

/// The rows of a constructor table: the input columns and the e-class of each.
pub uninterp spec fn constructor_rows_of(
    egraph: egglog::EGraph,
    name: Seq<char>,
) -> Seq<(Seq<u32>, u32)>;

/// The rows of a function table: the input columns and the output of each.
pub uninterp spec fn function_rows_of(
    egraph: egglog::EGraph,
    name: Seq<char>,
) -> Seq<(Seq<u32>, u32)>;

/// The value is an interned container of the type that values of the sort
/// have.
pub uninterp spec fn is_held(
    egraph: egglog::EGraph,
    sort: egglog::ResolvedVar,
    value: u32,
) -> bool;

/// Values of the sort stay values of it. Only containers may go: of two that
/// become equal one does.
pub open spec fn is_lasting(sort: egglog::ResolvedVar) -> bool {
    ||| !is_container_sort(sort)
    ||| sort_name(sort) == "String"@
    ||| sort_name(sort) == "i64"@
}

/// Values other than containers keep their sorts, strings and integers what
/// they stand for, tables their subtypes, and functions their sorts.
pub open spec fn keeps(before: egglog::EGraph, after: egglog::EGraph) -> bool {
    &&& forall|sort: egglog::ResolvedVar, value: u32|
        has_sort(before, sort, value) && is_lasting(sort) ==> {
            &&& #[trigger] has_sort(after, sort, value)
            &&& sort_name(sort) == "String"@ ==> string_of(after, value) == string_of(before, value)
            &&& sort_name(sort) == "i64"@ ==> integer_of(after, value) == integer_of(before, value)
        }
    &&& forall|name: Seq<char>|
        #[trigger] is_constructor_table(after, name) == is_constructor_table(before, name)
    &&& forall|name: Seq<char>|
        #[trigger] function_sorts_of(after, name) == function_sorts_of(before, name)
    &&& owns_tables(before) ==> owns_tables(after)
}

/// A container that is still held has kept its sort.
pub open spec fn keeps_held(before: egglog::EGraph, after: egglog::EGraph) -> bool {
    forall|sort: egglog::ResolvedVar, value: u32|
        has_sort(before, sort, value) && #[trigger] is_held(after, sort, value) ==> has_sort(
            after,
            sort,
            value,
        )
}

/// What is kept step by step is kept.
pub proof fn lemma_keeps(a: egglog::EGraph, b: egglog::EGraph, c: egglog::EGraph)
    requires
        keeps(a, b),
        keeps(b, c),
    ensures
        keeps(a, c),
{
    assert forall|sort: egglog::ResolvedVar, value: u32|
        has_sort(a, sort, value) && is_lasting(sort) implies {
        &&& #[trigger] has_sort(c, sort, value)
        &&& sort_name(sort) == "String"@ ==> string_of(c, value) == string_of(a, value)
        &&& sort_name(sort) == "i64"@ ==> integer_of(c, value) == integer_of(a, value)
    } by {
        assert(has_sort(b, sort, value));
        assert(has_sort(c, sort, value));
    }
    assert forall|name: Seq<char>| #[trigger] is_constructor_table(c, name)
        == is_constructor_table(a, name) by {
        assert(is_constructor_table(b, name) == is_constructor_table(a, name));
    }
    assert forall|name: Seq<char>| #[trigger] function_sorts_of(c, name) == function_sorts_of(
        a,
        name,
    ) by {
        assert(function_sorts_of(b, name) == function_sorts_of(a, name));
    }
}

/// Evaluates an expression, by `EGraph::eval_expr`: the sort and the value. To
/// what it evaluates, and when there is an error, is left open. A container may
/// go when the e-graph is rebuilt, and its number is not used again. Some
/// primitives panic on some arguments.
#[verifier::external_body]
pub(crate) fn eval_expr(egraph: &mut egglog::EGraph, expr: &egglog::ast::Expr) -> (result: Result<
    (egglog::ResolvedVar, u32),
    egglog::Error,
>)
    requires
        evaluates(*old(egraph), *expr),
    ensures
        match result {
            Ok(found) => {
                &&& calls(*final(egraph)) == calls(*old(egraph)).push(Call::Eval(*expr, Some(found)))
                &&& may_evaluate(*old(egraph), *expr, Some(found), *final(egraph))
                &&& has_sort(*final(egraph), found.0, found.1)
            },
            Err(_) => {
                &&& calls(*final(egraph)) == calls(*old(egraph)).push(Call::Eval(*expr, None))
                &&& may_evaluate(*old(egraph), *expr, None, *final(egraph))
            },
        },
        keeps(*old(egraph), *final(egraph)),
        keeps_held(*old(egraph), *final(egraph)),
{
    let (sort, value) = egraph.eval_expr(expr)?;
    let carrier = egglog::ResolvedVar { name: String::new(), sort, is_global_ref: false };
    Ok((carrier, value.rep()))
}

/// The expressions were evaluated in order, to these sorts and values.
pub open spec fn evaluations(
    exprs: Seq<egglog::ast::Expr>,
    found: Seq<(egglog::ResolvedVar, u32)>,
) -> Seq<Call> {
    Seq::new(exprs.len(), |i: int| Call::Eval(exprs[i], Some(found[i])))
}

/// The e-graph came from `before` by evaluating the expressions up to the one at
/// position `i`, which ended so.
pub open spec fn stopped_at(
    before: egglog::EGraph,
    after: egglog::EGraph,
    exprs: Seq<egglog::ast::Expr>,
    i: int,
    end: Option<(egglog::ResolvedVar, u32)>,
) -> bool {
    &&& 0 <= i < exprs.len()
    &&& exists|found: Seq<(egglog::ResolvedVar, u32)>|
        found.len() == i && calls(after) == (calls(before) + #[trigger] evaluations(
            exprs.take(i),
            found,
        )).push(Call::Eval(exprs[i], end))
}

/// The integer of a value, by `EGraph::value_to_base` at `i64`.
#[verifier::external_body]
pub(crate) fn integer(
    egraph: &egglog::EGraph,
    sort: &egglog::ResolvedVar,
    value: u32,
) -> (number: i64)
    requires
        has_sort(*egraph, *sort, value),
        sort_name(*sort) == "i64"@,
    ensures
        number == integer_of(*egraph, value),
{
    egraph.value_to_base::<i64>(egglog::Value::new_const(value))
}

/// The string of a value, by `EGraph::value_to_base` at the type of strings.
#[verifier::external_body]
pub(crate) fn string(
    egraph: &egglog::EGraph,
    sort: &egglog::ResolvedVar,
    value: u32,
) -> (text: String)
    requires
        has_sort(*egraph, *sort, value),
        sort_name(*sort) == "String"@,
    ensures
        text@ == string_of(*egraph, value),
{
    egraph.value_to_base::<egglog::sort::S>(egglog::Value::new_const(value)).0
}

/// The sorts of a function, by `EGraph::get_function` and its type: `None` if
/// there is no function of the name.
#[verifier::external_body]
pub(crate) fn function_sorts(egraph: &egglog::EGraph, name: &str) -> (sorts: Option<
    (Vec<egglog::ResolvedVar>, egglog::ResolvedVar),
>)
    ensures
        match sorts {
            Some((inputs, output)) => function_sorts_of(*egraph, name@) == Some((inputs@, output)),
            None => function_sorts_of(*egraph, name@) is None,
        },
{
    let func = egraph.get_function(name)?.func_type();
    let carry = |sort: &egglog::ArcSort| egglog::ResolvedVar {
        name: String::new(),
        sort: sort.clone(),
        is_global_ref: false,
    };
    Some((func.input.iter().map(carry).collect(), carry(&func.output)))
}

/// The names of the functions, by `EGraph::get_function_names`. Each is that of
/// a function.
#[verifier::external_body]
pub(crate) fn function_names(egraph: &egglog::EGraph) -> (names: Vec<String>)
    ensures
        crate::text::texts(names@) == function_names_of(*egraph),
        forall|i: int|
            0 <= i < names@.len() ==> function_sorts_of(*egraph, #[trigger] names@[i]@) is Some,
{
    egraph.get_function_names()
}

/// How a probe of a table as a constructor's ended.
pub enum Probe {
    /// It is a constructor's.
    Constructor,
    /// It is a function's.
    WrongSubtype,
    /// There is none.
    Failed(egglog::Error),
}

/// Probes a table with `EGraph::constructor_enodes_while`, stopping before the
/// first row: it is a constructor's unless the error says that its subtype is
/// another. Any other error is that there is no table of the name.
#[verifier::external_body]
pub(crate) fn probe_table(egraph: &egglog::EGraph, name: &str) -> (probe: Probe)
    requires
        owns_tables(*egraph),
    ensures
        is_constructor_table(*egraph, name@) == (match probe {
            Probe::Constructor => Some(true),
            Probe::WrongSubtype => Some(false),
            Probe::Failed(_) => None,
        }),
        owns_tables(*egraph) && function_sorts_of(*egraph, name@) is Some ==> !(probe is Failed),
{
    match egraph.constructor_enodes_while(name, |_| false) {
        Ok(()) => Probe::Constructor,
        Err(egglog::Error::ApiError(egglog::ApiError::WrongSubtype { .. })) => Probe::WrongSubtype,
        Err(error) => Probe::Failed(error),
    }
}

/// What a list of rows says.
pub open spec fn entry_views(rows: Seq<(Vec<u32>, u32)>) -> Seq<(Seq<u32>, u32)> {
    rows.map_values(|row: (Vec<u32>, u32)| (row.0@, row.1))
}

/// The columns of the row have the sorts of the table.
pub open spec fn row_has_sorts(
    egraph: egglog::EGraph,
    sorts: (Seq<egglog::ResolvedVar>, egglog::ResolvedVar),
    row: (Seq<u32>, u32),
) -> bool {
    &&& row.0.len() == sorts.0.len()
    &&& forall|j: int| 0 <= j < row.0.len() ==> has_sort(egraph, sorts.0[j], #[trigger] row.0[j])
    &&& has_sort(egraph, sorts.1, row.1)
}

/// The columns of each row have the sorts of the table.
pub open spec fn rows_have_sorts(
    egraph: egglog::EGraph,
    name: Seq<char>,
    rows: Seq<(Seq<u32>, u32)>,
) -> bool {
    function_sorts_of(egraph, name) matches Some(sorts) ==> forall|i: int|
        0 <= i < rows.len() ==> row_has_sorts(egraph, sorts, #[trigger] rows[i])
}

/// The rows of a constructor table, by `EGraph::constructor_enodes`. It is an
/// error that the table is no constructor's.
#[verifier::external_body]
pub(crate) fn constructor_rows(egraph: &egglog::EGraph, name: &str) -> (rows: Result<
    Vec<(Vec<u32>, u32)>,
    egglog::Error,
>)
    requires
        owns_tables(*egraph),
    ensures
        rows is Ok <==> is_constructor_table(*egraph, name@) == Some(true),
        rows matches Ok(found) ==> {
            &&& entry_views(found@) == constructor_rows_of(*egraph, name@)
            &&& rows_have_sorts(*egraph, name@, entry_views(found@))
        },
{
    let mut rows = Vec::new();
    egraph.constructor_enodes(
        name,
        |enode| rows.push(
            (enode.children.iter().map(|child| child.rep()).collect(), enode.eclass.rep()),
        ),
    )?;
    Ok(rows)
}

/// The rows of a function table, by `EGraph::function_entries`. It is an error
/// that the table is no function's.
#[verifier::external_body]
pub(crate) fn function_rows(egraph: &egglog::EGraph, name: &str) -> (rows: Result<
    Vec<(Vec<u32>, u32)>,
    egglog::Error,
>)
    requires
        owns_tables(*egraph),
    ensures
        rows is Ok <==> is_constructor_table(*egraph, name@) == Some(false),
        rows matches Ok(found) ==> {
            &&& entry_views(found@) == function_rows_of(*egraph, name@)
            &&& rows_have_sorts(*egraph, name@, entry_views(found@))
        },
{
    let mut rows = Vec::new();
    egraph.function_entries(
        name,
        |entry| rows.push(
            (entry.inputs.iter().map(|input| input.rep()).collect(), entry.output.rep()),
        ),
    )?;
    Ok(rows)
}

/// Clears a function, by `EGraph::clear_function`. It is an error that there is
/// no function of the name.
#[verifier::external_body]
pub(crate) fn clear_function(egraph: &mut egglog::EGraph, name: &str) -> (done: Result<
    (),
    egglog::Error,
>)
    ensures
        done is Ok <==> function_sorts_of(*old(egraph), name@) is Some,
        calls(*final(egraph)) == calls(*old(egraph)).push(Call::Clear(name@, done is Ok)),
        may_clear(*old(egraph), name@, done is Ok, *final(egraph)),
        keeps(*old(egraph), *final(egraph)),
{
    egraph.clear_function(name)
}

/// The ids stand for terms of the DAG.
pub open spec fn ids_in(list: Seq<Node>, ids: Seq<usize>) -> bool {
    forall|i: int| 0 <= i < ids.len() ==> #[trigger] ids[i] < list.len()
}

/// Whether a container is held, by `Core::map_container` with nothing replaced
/// under the type of the sort's values: it gives nothing if and only if the
/// value is no interned container of that type.
#[verifier::external_body]
pub(crate) fn holds_container(
    egraph: &egglog::EGraph,
    sort: &egglog::ResolvedVar,
    value: u32,
) -> (held: bool)
    ensures
        held == is_held(*egraph, *sort, value),
{
    let kind = sort.sort.value_type();
    let held = egglog::Value::new_const(value);
    let same = &std::convert::identity;
    let find = |kind| egraph.read(|mut state| state.map_container(kind, held, same));
    kind.and_then(find).is_some()
}

/// The least costs of the values of an e-graph, with the rows that have them.
#[verifier::external_body]
pub struct Costs {
    /// What egglog has computed.
    pub table: egglog::extract::Extractor<u64>,
}

/// The costs were computed on the e-graph, for the sort among others, under a cost
/// model by which a whole gets cheaper when a part does, as long as no cost has
/// reached `u64::MAX`.
pub uninterp spec fn covers(
    costs: Costs,
    egraph: egglog::EGraph,
    sort: egglog::ResolvedVar,
) -> bool;

/// The costs of the values that values of these sorts can be built from, where a
/// term costs what its nodes cost together.
pub uninterp spec fn additive_costs(
    egraph: egglog::EGraph,
    sorts: Seq<egglog::ResolvedVar>,
) -> Costs;

/// The least cost of a term for the value, if there is a term.
pub uninterp spec fn least_cost(
    costs: Costs,
    egraph: egglog::EGraph,
    sort: egglog::ResolvedVar,
    value: u32,
) -> Option<u64>;

/// The costs of the cheapest terms for the value that begin with each of its rows,
/// from the least on. A value that is no e-class has one such term at most.
pub uninterp spec fn row_costs(
    costs: Costs,
    egraph: egglog::EGraph,
    sort: egglog::ResolvedVar,
    value: u32,
) -> Seq<u64>;

/// The cost and the id of a term of least cost for the value, and the DAG to which
/// it was added.
pub uninterp spec fn cheapest(
    costs: Costs,
    egraph: egglog::EGraph,
    list: Seq<Node>,
    sort: egglog::ResolvedVar,
    value: u32,
) -> (Option<(u64, usize)>, Seq<Node>);

/// The cheapest terms for the value with their costs, at most so many, and the
/// DAG to which they were added.
pub uninterp spec fn ranking(
    costs: Costs,
    egraph: egglog::EGraph,
    list: Seq<Node>,
    sort: egglog::ResolvedVar,
    value: u32,
    count: usize,
) -> (Seq<(u64, usize)>, Seq<Node>);

/// Computes the costs for sorts, by `Extractor::compute_costs_from_rootsorts`.
#[verifier::external_body]
pub(crate) fn compute_costs(
    egraph: &egglog::EGraph,
    sorts: &Vec<egglog::ResolvedVar>,
    model: &egglog::extract::TreeAdditiveCostModel,
) -> (costs: Costs)
    ensures
        costs == additive_costs(*egraph, sorts@),
        forall|i: int| 0 <= i < sorts@.len() ==> covers(costs, *egraph, #[trigger] sorts@[i]),
{
    let list = sorts.iter().map(|sort| sort.sort.clone()).collect();
    let model = model.clone();
    let table = egglog::extract::Extractor::compute_costs_from_rootsorts(Some(list), egraph, model);
    Costs { table }
}

/// Adds a term of least cost for a value to a DAG, by
/// `Extractor::extract_best_with_sort`: its cost and id, `None` where there is no
/// term. Costs end at `u64::MAX`. Of a value whose least cost that is, egglog may
/// not know a row to build the term from, and then panics.
#[verifier::external_body]
pub(crate) fn best_term(
    egraph: &egglog::EGraph,
    costs: &Costs,
    dag: &mut egglog::TermDag,
    sort: &egglog::ResolvedVar,
    value: u32,
) -> (found: Option<(u64, usize)>)
    requires
        covers(*costs, *egraph, *sort),
        has_sort(*egraph, *sort, value),
        least_cost(*costs, *egraph, *sort, value) != Some(u64::MAX),
        is_dag(nodes(*old(dag))),
    ensures
        (found, nodes(*final(dag))) == cheapest(
            *costs,
            *egraph,
            nodes(*old(dag)),
            *sort,
            value,
        ),
        match found {
            Some((cost, id)) => {
                &&& least_cost(*costs, *egraph, *sort, value) == Some(cost)
                &&& id < nodes(*final(dag)).len()
            },
            None => least_cost(*costs, *egraph, *sort, value) is None,
        },
        is_dag(nodes(*final(dag))),
        nodes(*old(dag)).is_prefix_of(nodes(*final(dag))),
{
    let root = egglog::Value::new_const(value);
    costs.table.extract_best_with_sort(egraph, dag, root, sort.sort.clone())
}

/// The terms are the cheapest, at most so many: one for each of the lowest costs of
/// the rows, in order, of which the first is the least cost.
pub open spec fn is_ranked(
    list: Seq<(u64, usize)>,
    rows: Seq<u64>,
    least: Option<u64>,
    count: usize,
) -> bool {
    &&& list.len() == if rows.len() < count {
        rows.len()
    } else {
        count as nat
    }
    &&& forall|i: int| 0 <= i < list.len() ==> (#[trigger] list[i]).0 == rows[i]
    &&& forall|i: int, j: int| 0 <= i <= j < rows.len() ==> #[trigger] rows[i] <= #[trigger] rows[j]
    &&& least == if rows.len() > 0 {
        Some(rows[0])
    } else {
        None
    }
}

/// No cost of the cheapest terms for the value, so many of them, has reached
/// `u64::MAX`.
pub open spec fn is_affordable(
    costs: Costs,
    egraph: egglog::EGraph,
    sort: egglog::ResolvedVar,
    value: u32,
    count: usize,
) -> bool {
    &&& least_cost(costs, egraph, sort, value) != Some(u64::MAX)
    &&& forall|i: int|
        0 <= i < count && i < row_costs(costs, egraph, sort, value).len()
            ==> #[trigger] row_costs(costs, egraph, sort, value)[i] < u64::MAX
}

/// Adds the cheapest terms for a value to a DAG, by
/// `Extractor::extract_variants_with_sort`: their costs and ids. There is a term for
/// each row with one of the lowest costs, and no row that is left out costs less.
/// It may panic where a cost has reached `u64::MAX`, as [`best_term`] may.
#[verifier::external_body]
pub(crate) fn ranked_terms(
    egraph: &egglog::EGraph,
    costs: &Costs,
    dag: &mut egglog::TermDag,
    sort: &egglog::ResolvedVar,
    value: u32,
    count: usize,
) -> (found: Vec<(u64, usize)>)
    requires
        covers(*costs, *egraph, *sort),
        has_sort(*egraph, *sort, value),
        is_affordable(*costs, *egraph, *sort, value, count),
        is_dag(nodes(*old(dag))),
    ensures
        (found@, nodes(*final(dag))) == ranking(
            *costs,
            *egraph,
            nodes(*old(dag)),
            *sort,
            value,
            count,
        ),
        count > 0 ==> is_ranked(
            found@,
            row_costs(*costs, *egraph, *sort, value),
            least_cost(*costs, *egraph, *sort, value),
            count,
        ),
        forall|i: int|
            0 <= i < found@.len() ==> (#[trigger] found@[i]).1 < nodes(*final(dag)).len(),
        is_dag(nodes(*final(dag))),
        nodes(*old(dag)).is_prefix_of(nodes(*final(dag))),
{
    let root = egglog::Value::new_const(value);
    costs.table.extract_variants_with_sort(egraph, dag, root, count, sort.sort.clone())
}

/// The sorts of the values.
pub open spec fn root_sorts(roots: Seq<(egglog::ResolvedVar, u32)>) -> Seq<egglog::ResolvedVar> {
    roots.map_values(|root: (egglog::ResolvedVar, u32)| root.0)
}

/// The sorts of values.
pub(crate) fn sorts_of_roots(roots: &Vec<(egglog::ResolvedVar, u32)>) -> (sorts: Vec<
    egglog::ResolvedVar,
>)
    ensures
        sorts@ == root_sorts(roots@),
{
    let mut sorts: Vec<egglog::ResolvedVar> = Vec::new();
    for i in 0..roots.len()
        invariant
            sorts@ == root_sorts(roots@).take(i as int),
    {
        sorts.push(roots[i].0.clone());
        assert(sorts@ =~= root_sorts(roots@).take(i + 1));
    }
    assert(root_sorts(roots@).take(roots@.len() as int) =~= root_sorts(roots@));
    sorts
}

/// The values have their sorts, for which the costs were computed.
pub open spec fn are_roots(
    costs: Costs,
    egraph: egglog::EGraph,
    roots: Seq<(egglog::ResolvedVar, u32)>,
) -> bool {
    forall|i: int|
        0 <= i < roots.len() ==> {
            &&& has_sort(egraph, (#[trigger] roots[i]).0, roots[i].1)
            &&& covers(costs, egraph, roots[i].0)
        }
}

/// The DAG that holds a term of least cost for each value, added in order, and
/// the costs and ids of the terms.
pub open spec fn all_cheapest(
    costs: Costs,
    egraph: egglog::EGraph,
    roots: Seq<(egglog::ResolvedVar, u32)>,
) -> (Seq<Node>, Seq<Option<(u64, usize)>>)
    decreases roots.len(),
{
    if roots.len() == 0 {
        (Seq::empty(), Seq::empty())
    } else {
        let (list, terms) = all_cheapest(costs, egraph, roots.drop_last());
        let (term, longer) = cheapest(costs, egraph, list, roots.last().0, roots.last().1);
        (longer, terms.push(term))
    }
}

/// The term is one of the DAG and costs least, or there is none.
pub open spec fn is_best(term: Option<(u64, usize)>, list: Seq<Node>, least: Option<u64>) -> bool {
    match term {
        Some((cost, id)) => least == Some(cost) && id < list.len(),
        None => least is None,
    }
}

/// Adds a term of least cost for each value to one DAG, in order: the costs and ids
/// of the terms, `None` where there is none.
pub fn best_terms(
    egraph: &egglog::EGraph,
    costs: &Costs,
    roots: &Vec<(egglog::ResolvedVar, u32)>,
) -> (found: (egglog::TermDag, Vec<Option<(u64, usize)>>))
    requires
        are_roots(*costs, *egraph, roots@),
        forall|i: int|
            0 <= i < roots@.len() ==> least_cost(
                *costs,
                *egraph,
                (#[trigger] roots@[i]).0,
                roots@[i].1,
            ) != Some(u64::MAX),
    ensures
        (nodes(found.0), found.1@) == all_cheapest(*costs, *egraph, roots@),
        is_dag(nodes(found.0)),
        found.1@.len() == roots@.len(),
        forall|i: int|
            0 <= i < found.1@.len() ==> is_best(
                #[trigger] found.1@[i],
                nodes(found.0),
                least_cost(*costs, *egraph, roots@[i].0, roots@[i].1),
            ),
{
    let mut dag = dag_default();
    let mut terms: Vec<Option<(u64, usize)>> = Vec::new();
    assert(roots@.take(0) =~= Seq::<(egglog::ResolvedVar, u32)>::empty());
    for i in 0..roots.len()
        invariant
            are_roots(*costs, *egraph, roots@),
            forall|k: int|
                0 <= k < roots@.len() ==> least_cost(
                    *costs,
                    *egraph,
                    (#[trigger] roots@[k]).0,
                    roots@[k].1,
                ) != Some(u64::MAX),
            is_dag(nodes(dag)),
            (nodes(dag), terms@) == all_cheapest(*costs, *egraph, roots@.take(i as int)),
            terms@.len() == i,
            forall|k: int|
                0 <= k < i ==> is_best(
                    #[trigger] terms@[k],
                    nodes(dag),
                    least_cost(*costs, *egraph, roots@[k].0, roots@[k].1),
                ),
    {
        let root = &roots[i];
        assert(has_sort(*egraph, roots@[i as int].0, roots@[i as int].1));
        assert(roots@.take(i + 1).drop_last() =~= roots@.take(i as int));
        let term = best_term(egraph, costs, &mut dag, &root.0, root.1);
        terms.push(term);
    }
    assert(roots@.take(roots@.len() as int) =~= roots@);
    (dag, terms)
}

/// The DAG that holds the cheapest terms for each value, added in order, and the
/// costs and ids of the terms.
pub open spec fn all_ranked(
    costs: Costs,
    egraph: egglog::EGraph,
    roots: Seq<(egglog::ResolvedVar, u32)>,
    count: usize,
) -> (Seq<Node>, Seq<Seq<(u64, usize)>>)
    decreases roots.len(),
{
    if roots.len() == 0 {
        (Seq::empty(), Seq::empty())
    } else {
        let (list, found) = all_ranked(costs, egraph, roots.drop_last(), count);
        let (own, longer) = ranking(costs, egraph, list, roots.last().0, roots.last().1, count);
        (longer, found.push(own))
    }
}

/// What a list of lists of ids says.
pub open spec fn variant_views(lists: Seq<Vec<usize>>) -> Seq<Seq<usize>> {
    lists.map_values(|list: Vec<usize>| list@)
}

/// The ids among costs and ids.
pub open spec fn ids_of(list: Seq<(u64, usize)>) -> Seq<usize> {
    list.map_values(|term: (u64, usize)| term.1)
}

/// The ids of the cheapest terms for each value, with the DAG that holds them.
pub open spec fn variants_of(
    costs: Costs,
    egraph: egglog::EGraph,
    roots: Seq<(egglog::ResolvedVar, u32)>,
    count: usize,
) -> (Seq<Node>, Seq<Seq<usize>>) {
    let (list, found) = all_ranked(costs, egraph, roots, count);
    (list, found.map_values(|own: Seq<(u64, usize)>| ids_of(own)))
}

/// The terms of each value are the cheapest, at most so many, by their costs.
pub open spec fn all_are_ranked(
    costs: Costs,
    egraph: egglog::EGraph,
    roots: Seq<(egglog::ResolvedVar, u32)>,
    count: usize,
) -> bool {
    let found = all_ranked(costs, egraph, roots, count).1;
    &&& found.len() == roots.len()
    &&& forall|i: int|
        0 <= i < found.len() ==> is_ranked(
            #[trigger] found[i],
            row_costs(costs, egraph, roots[i].0, roots[i].1),
            least_cost(costs, egraph, roots[i].0, roots[i].1),
            count,
        )
}

/// No cost of the cheapest terms for the values, so many of each, has reached
/// `u64::MAX`.
pub open spec fn all_affordable(
    costs: Costs,
    egraph: egglog::EGraph,
    roots: Seq<(egglog::ResolvedVar, u32)>,
    count: usize,
) -> bool {
    forall|i: int|
        0 <= i < roots.len() ==> is_affordable(
            costs,
            egraph,
            (#[trigger] roots[i]).0,
            roots[i].1,
            count,
        )
}

/// Adds the cheapest terms for each value to one DAG, in order: the ids of the
/// terms of each value, by their costs.
pub fn list_variants(
    egraph: &egglog::EGraph,
    costs: &Costs,
    roots: &Vec<(egglog::ResolvedVar, u32)>,
    count: usize,
) -> (found: (egglog::TermDag, Vec<Vec<usize>>))
    requires
        are_roots(*costs, *egraph, roots@),
        all_affordable(*costs, *egraph, roots@, count),
    ensures
        (nodes(found.0), variant_views(found.1@)) == variants_of(*costs, *egraph, roots@, count),
        count > 0 ==> all_are_ranked(*costs, *egraph, roots@, count),
        is_dag(nodes(found.0)),
        found.1@.len() == roots@.len(),
        forall|i: int|
            0 <= i < found.1@.len() ==> ids_in(nodes(found.0), #[trigger] found.1@[i]@),
{
    let mut dag = dag_default();
    let mut lists: Vec<Vec<usize>> = Vec::new();
    let ghost mut all: Seq<Seq<(u64, usize)>> = Seq::empty();
    assert(roots@.take(0) =~= Seq::<(egglog::ResolvedVar, u32)>::empty());
    for i in 0..roots.len()
        invariant
            are_roots(*costs, *egraph, roots@),
            all_affordable(*costs, *egraph, roots@, count),
            is_dag(nodes(dag)),
            (nodes(dag), all) == all_ranked(*costs, *egraph, roots@.take(i as int), count),
            all.len() == i,
            lists@.len() == i,
            forall|k: int| 0 <= k < i ==> #[trigger] lists@[k]@ == ids_of(all[k]),
            forall|k: int| 0 <= k < i ==> ids_in(nodes(dag), #[trigger] lists@[k]@),
            count > 0 ==> forall|k: int|
                0 <= k < i ==> is_ranked(
                    #[trigger] all[k],
                    row_costs(*costs, *egraph, roots@[k].0, roots@[k].1),
                    least_cost(*costs, *egraph, roots@[k].0, roots@[k].1),
                    count,
                ),
    {
        let root = &roots[i];
        let ghost had = all;
        let ghost before = nodes(dag);
        let ghost done = lists@;
        assert(has_sort(*egraph, roots@[i as int].0, roots@[i as int].1));
        assert(roots@.take(i + 1).drop_last() =~= roots@.take(i as int));
        let terms = ranked_terms(egraph, costs, &mut dag, &root.0, root.1, count);
        let mut ids: Vec<usize> = Vec::new();
        for j in 0..terms.len()
            invariant
                ids@ == ids_of(terms@).take(j as int),
        {
            ids.push(terms[j].1);
            assert(ids@ =~= ids_of(terms@).take(j + 1));
        }
        assert(ids@ =~= ids_of(terms@));
        lists.push(ids);
        proof {
            all = all.push(terms@);
            assert forall|k: int| 0 <= k < i + 1 implies ids_in(nodes(dag), #[trigger] lists@[k]@) by {
                if k < i {
                    assert(lists@[k] == done[k]);
                    assert(ids_in(before, done[k]@));
                } else {
                    assert forall|j: int| 0 <= j < lists@[k]@.len() implies #[trigger] lists@[k]@[j]
                        < nodes(dag).len() by {
                        assert(terms@[j].1 == lists@[k]@[j]);
                    }
                }
            }
        }
    }
    proof {
        assert(roots@.take(roots@.len() as int) =~= roots@);
        assert(variant_views(lists@) =~= variants_of(*costs, *egraph, roots@, count).1);
    }
    (dag, lists)
}

/// The expression is the term that stands at `id`.
pub open spec fn is_expr_of(list: Seq<Node>, id: int, expr: egglog::ast::Expr) -> bool
    decreases expr,
{
    match expr {
        egglog::ast::Expr::Lit(_, literal) => list[id] == Node::Lit(literal),
        egglog::ast::Expr::Var(_, name) => list[id] == Node::Var(name@),
        egglog::ast::Expr::Call(_, head, args) => {
            &&& list[id] matches Node::App(symbol, children)
            &&& symbol == head@
            &&& children.len() == args@.len()
            &&& forall|j: int|
                0 <= j < args@.len() ==> is_expr_of(
                    list,
                    children[j] as int,
                    #[trigger] args@[j],
                )
        },
    }
}

/// The expression of a term, by `TermDag::term_to_expr`.
#[verifier::external_body]
pub(crate) fn term_to_expr(dag: &egglog::TermDag, id: usize) -> (expr: egglog::ast::Expr)
    requires
        id < nodes(*dag).len(),
        is_dag(nodes(*dag)),
    ensures
        is_expr_of(nodes(*dag), id as int, expr),
{
    let place = egglog::ast::RustSpan { file: "keep_best.rs", line: 0, column: 0 };
    dag.term_to_expr(&id, egglog::ast::Span::Rust(std::sync::Arc::new(place)))
}

} // verus!

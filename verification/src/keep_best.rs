//! The `keep-best` command.
//!
//! `(keep-best "table1" "table2" ... [:extractor greedy-dag])` extracts the
//! best representative for every entry in each named table, clears the entire
//! e-graph, and re-inserts only those rows.

use vstd::prelude::*;
use crate::dag_print::{is_dag, nodes, Node};
use crate::engine::{
    additive_costs, all_cheapest, best_terms, calls, clear_function, compute_costs, covers,
    eval_expr, evaluates, evaluations, function_names, function_names_of, function_sorts,
    function_sorts_of, has_sort, ids_in, is_best, is_constructor_table, is_expr_of, keeps,
    least_cost, lemma_keeps, lemma_reaches_add, lemma_reaches_push, may_update, owns_tables, reaches,
    root_sorts, sorts_of_roots, stopped_at, string, string_of, term_to_expr, Call,
};
use crate::extractor::{leading, selected, split_trailing_extractor};
use crate::lists::{flattened, lemma_flattened_push, lemma_flattened_take};
use crate::subst::state::{
    add_row, name_of_sort, owns, persists, set_row, sort_name, staged, table_shape, union_classes, Edit,
};
use crate::table_rows::{
    column_sorts, columns_have_sorts, entries_of, is_constructor, read_rows, row_views, rows_of,
    whole_row,
};
use crate::text::{same, texts};

pub mod rows;

verus! {

/// Why `keep-best` did not keep anything.
pub enum Refusal {
    /// The arguments end in `:extractor` and this unknown name.
    UnknownExtractor(String),
    /// The argument at this position does not evaluate to a string.
    NotAString(usize),
    /// There is no function of this name.
    UnboundFunction(String),
    /// Some value in the table of this name has no term.
    NoTerm(String),
    /// The engine gave an error.
    Engine(egglog::Error),
}

/// The text that says that a value has no term.
pub open spec fn no_term_text(table: Seq<char>) -> Seq<char> {
    "keep-best: could not extract value in table "@ + table
}

/// Says that some value in a table has no term.
pub fn no_term(table: &str) -> (text: String)
    ensures
        text@ == no_term_text(table@),
{
    let mut text = "keep-best: could not extract value in table ".to_owned();
    text.append(table);
    text
}

/// A table with the best terms of its rows.
pub struct ExtractedTable {
    /// The name of the table.
    pub name: String,
    /// For each row the ids of the terms of its columns.
    pub rows: Vec<Vec<usize>>,
    /// The terms.
    pub dag: egglog::TermDag,
}

impl ExtractedTable {
    /// The ids stand for terms, children come before their parents, and each row
    /// has an output column.
    pub open spec fn wf(&self) -> bool {
        &&& is_dag(nodes(self.dag))
        &&& forall|i: int|
            0 <= i < self.rows@.len() ==> ids_in(nodes(self.dag), #[trigger] self.rows@[i]@)
        &&& forall|i: int| 0 <= i < self.rows@.len() ==> (#[trigger] self.rows@[i])@.len() > 0
    }
}

/// The cells of the rows, row by row, each with its sort.
pub open spec fn cells(rows: Seq<Seq<u32>>, sorts: Seq<egglog::ResolvedVar>) -> Seq<
    (egglog::ResolvedVar, u32),
>
    decreases rows.len(),
{
    if rows.len() == 0 {
        Seq::empty()
    } else {
        cells(rows.drop_last(), sorts) + row_cells(rows.last(), sorts)
    }
}

/// The cells of a row, each with its sort.
pub open spec fn row_cells(row: Seq<u32>, sorts: Seq<egglog::ResolvedVar>) -> Seq<
    (egglog::ResolvedVar, u32),
> {
    Seq::new(row.len(), |j: int| (sorts[j], row[j]))
}

/// What a list of lists of ids says.
pub open spec fn id_views(rows: Seq<Vec<usize>>) -> Seq<Seq<usize>> {
    rows.map_values(|row: Vec<usize>| row@)
}

/// The best terms of the cells in one DAG, where a term costs what its nodes cost
/// together.
pub open spec fn best_cells(egraph: egglog::EGraph, cells: Seq<(egglog::ResolvedVar, u32)>) -> (
    Seq<Node>,
    Seq<Option<usize>>,
) {
    let (list, terms) = all_cheapest(additive_costs(egraph, root_sorts(cells)), egraph, cells);
    (list, without_costs(terms))
}

/// The ids of terms, without their costs.
pub open spec fn without_costs(terms: Seq<Option<(u64, usize)>>) -> Seq<Option<usize>> {
    terms.map_values(
        |term: Option<(u64, usize)>|
            match term {
                Some((_, id)) => Some(id),
                None => None,
            },
    )
}

/// The table holds, cell by cell, the best terms of the rows of its function.
pub open spec fn is_extracted(egraph: egglog::EGraph, table: ExtractedTable) -> bool {
    &&& flaw(egraph, table.name@) is None
    &&& {
        let sorts = column_sorts(function_sorts_of(egraph, table.name@)->0);
        let rows = rows_of(egraph, table.name@);
        let (list, terms) = best_cells(egraph, cells(rows, sorts));
        let ids = flattened(id_views(table.rows@));
        &&& nodes(table.dag) == list
        &&& table.rows@.len() == rows.len()
        &&& forall|i: int| 0 <= i < rows.len() ==> (#[trigger] table.rows@[i])@.len() == rows[i].len()
        &&& ids.len() == terms.len()
        &&& forall|i: int| 0 <= i < ids.len() ==> terms[i] == Some(#[trigger] ids[i])
    }
    &&& is_dag(nodes(table.dag))
    &&& forall|i: int| 0 <= i < table.rows@.len() ==> ids_in(nodes(table.dag), #[trigger] table.rows@[i]@)
}

/// Some value in the table, whose columns have these sorts, has no term.
pub open spec fn lacks_term(
    egraph: egglog::EGraph,
    name: Seq<char>,
    sorts: Seq<egglog::ResolvedVar>,
) -> bool {
    let terms = best_cells(egraph, cells(rows_of(egraph, name), sorts)).1;
    exists|i: int| 0 <= i < terms.len() && #[trigger] terms[i] is None
}

/// Why a table cannot be extracted.
pub enum Flaw {
    /// There is no function of the name.
    Unbound,
    /// Some value in the table has no term.
    NoTerm,
}

/// Why the table of the name cannot be extracted, unless it can.
pub open spec fn flaw(egraph: egglog::EGraph, name: Seq<char>) -> Option<Flaw> {
    match function_sorts_of(egraph, name) {
        None => Some(Flaw::Unbound),
        Some(sorts) => if lacks_term(egraph, name, column_sorts(sorts)) {
            Some(Flaw::NoTerm)
        } else {
            None
        },
    }
}

/// The refusal is for this flaw of the table.
pub open spec fn tells(refusal: Refusal, flaw: Flaw, name: Seq<char>) -> bool {
    match refusal {
        Refusal::UnboundFunction(unbound) => flaw is Unbound && unbound@ == name,
        Refusal::NoTerm(table) => flaw is NoTerm && table@ == name,
        _ => false,
    }
}

/// The name at position `i` is the first whose table cannot be extracted.
pub open spec fn first_flaw(egraph: egglog::EGraph, names: Seq<Seq<char>>, i: int) -> bool {
    &&& 0 <= i < names.len()
    &&& flaw(egraph, names[i]) is Some
    &&& forall|k: int| 0 <= k < i ==> flaw(egraph, #[trigger] names[k]) is None
}

/// The refusal is for the first of the names whose table cannot be extracted.
pub open spec fn tells_first_flaw(
    egraph: egglog::EGraph,
    names: Seq<Seq<char>>,
    refusal: Refusal,
) -> bool {
    exists|i: int| #[trigger]
        first_flaw(egraph, names, i) && tells(refusal, flaw(egraph, names[i])->0, names[i])
}

proof fn lemma_cells_typed(
    egraph: egglog::EGraph,
    rows: Seq<Seq<u32>>,
    sorts: Seq<egglog::ResolvedVar>,
)
    requires
        forall|i: int|
            0 <= i < rows.len() ==> columns_have_sorts(egraph, sorts, #[trigger] rows[i]),
    ensures
        forall|i: int|
            0 <= i < cells(rows, sorts).len() ==> has_sort(
                egraph,
                (#[trigger] cells(rows, sorts)[i]).0,
                cells(rows, sorts)[i].1,
            ),
        cells(rows, sorts).len() == rows.len() * sorts.len(),
    decreases rows.len(),
{
    if rows.len() > 0 {
        let front = rows.drop_last();
        assert forall|i: int| 0 <= i < front.len() implies columns_have_sorts(
            egraph,
            sorts,
            #[trigger] front[i],
        ) by {
            assert(columns_have_sorts(egraph, sorts, rows[i]));
        }
        lemma_cells_typed(egraph, front, sorts);
        assert(columns_have_sorts(egraph, sorts, rows[rows.len() - 1]));
        let all = cells(rows, sorts);
        let before = cells(front, sorts);
        assert forall|i: int| 0 <= i < all.len() implies has_sort(
            egraph,
            (#[trigger] all[i]).0,
            all[i].1,
        ) by {
            if i < before.len() {
                assert(all[i] == before[i]);
            } else {
                let j = i - before.len();
                assert(all[i] == (sorts[j], rows.last()[j]));
                assert(has_sort(egraph, sorts[j], rows.last()[j]));
            }
        }
        assert(front.len() * sorts.len() + sorts.len() == rows.len() * sorts.len())
            by (nonlinear_arith)
            requires
                front.len() == rows.len() - 1,
        ;
    } else {
        assert(rows.len() * sorts.len() == 0) by (nonlinear_arith)
            requires
                rows.len() == 0,
        ;
    }
}

/// The values of a table that are to be extracted.
pub struct TableRoots {
    /// The name of the table.
    pub name: String,
    /// How many rows it has.
    pub count: usize,
    /// How many columns each row has.
    pub width: usize,
    /// The values, row by row, each with its sort.
    pub roots: Vec<(egglog::ResolvedVar, u32)>,
}

/// The values are those of the table of the name.
pub open spec fn is_roots_of(egraph: egglog::EGraph, table: TableRoots) -> bool {
    &&& function_sorts_of(egraph, table.name@) is Some
    &&& is_constructor_table(egraph, table.name@) is Some
    &&& {
        let sorts = column_sorts(function_sorts_of(egraph, table.name@)->0);
        let rows = rows_of(egraph, table.name@);
        &&& table.count == rows.len()
        &&& table.width == sorts.len()
        &&& forall|i: int| 0 <= i < rows.len() ==> (#[trigger] rows[i]).len() == sorts.len()
        &&& table.roots@ == cells(rows, sorts)
        &&& table.roots@.len() == table.count * table.width
    }
    &&& forall|i: int|
        0 <= i < table.roots@.len() ==> has_sort(
            egraph,
            (#[trigger] table.roots@[i]).0,
            table.roots@[i].1,
        )
}

/// Reads the values of a table.
pub fn table_roots(egraph: &egglog::EGraph, name: &String) -> (result: Result<TableRoots, Refusal>)
    requires
        owns_tables(*egraph),
    ensures
        match result {
            Ok(table) => table.name@ == name@ && is_roots_of(*egraph, table),
            Err(refusal) => {
                &&& function_sorts_of(*egraph, name@) is None
                &&& tells(refusal, Flaw::Unbound, name@)
            },
        },
{
    let (inputs, output) = match function_sorts(egraph, name.as_str()) {
        Some(sorts) => sorts,
        None => {
            return Err(Refusal::UnboundFunction(name.clone()));
        },
    };
    let ghost declared = (inputs@, output);
    let mut sorts = inputs;
    sorts.push(output);
    assert(sorts@ == column_sorts(declared));
    let rows = match read_rows(egraph, name.as_str()) {
        Ok(rows) => rows,
        Err(_) => vstd::pervasive::unreached(),
    };
    let ghost views = row_views(rows@);
    let mut roots: Vec<(egglog::ResolvedVar, u32)> = Vec::new();
    assert(views.take(0) =~= Seq::<Seq<u32>>::empty());
    assert(roots@ =~= cells(views.take(0), sorts@));
    for i in 0..rows.len()
        invariant
            views == row_views(rows@),
            forall|k: int|
                0 <= k < rows@.len() ==> columns_have_sorts(*egraph, sorts@, #[trigger] rows@[k]@),
            roots@ == cells(views.take(i as int), sorts@),
    {
        let ghost before = roots@;
        assert(columns_have_sorts(*egraph, sorts@, rows@[i as int]@));
        let row = &rows[i];
        assert(row_cells(row@, sorts@).take(0) =~= Seq::<(egglog::ResolvedVar, u32)>::empty());
        assert(before =~= before + row_cells(row@, sorts@).take(0));
        for j in 0..row.len()
            invariant
                row@.len() == sorts@.len(),
                roots@ == before + row_cells(row@, sorts@).take(j as int),
        {
            roots.push((sorts[j].clone(), row[j]));
            assert(roots@ =~= before + row_cells(row@, sorts@).take(j + 1));
        }
        assert(row_cells(row@, sorts@).take(row@.len() as int) =~= row_cells(row@, sorts@));
        assert(views.take(i + 1).drop_last() =~= views.take(i as int));
        assert(views.take(i + 1).last() == row@);
    }
    proof {
        assert(views.take(rows@.len() as int) =~= views);
        assert forall|i: int| 0 <= i < views.len() implies columns_have_sorts(
            *egraph,
            sorts@,
            #[trigger] views[i],
        ) by {
            assert(columns_have_sorts(*egraph, sorts@, rows@[i]@));
        }
        lemma_cells_typed(*egraph, views, sorts@);
    }
    let table = TableRoots { name: name.clone(), count: rows.len(), width: sorts.len(), roots };
    proof {
        assert forall|i: int| 0 <= i < views.len() implies (#[trigger] views[i]).len()
            == sorts@.len() by {
            assert(columns_have_sorts(*egraph, sorts@, rows@[i]@));
        }
    }
    Ok(table)
}

/// The table has a term for each of the values: these ids, row by row.
pub open spec fn is_assembled(
    table: TableRoots,
    dag: egglog::TermDag,
    terms: Seq<Option<usize>>,
    extracted: ExtractedTable,
) -> bool {
    let ids = flattened(id_views(extracted.rows@));
    &&& extracted.name@ == table.name@
    &&& extracted.dag == dag
    &&& extracted.rows@.len() == table.count
    &&& forall|i: int|
        0 <= i < table.count ==> (#[trigger] extracted.rows@[i])@.len() == table.width
    &&& ids.len() == terms.len()
    &&& forall|i: int| 0 <= i < ids.len() ==> terms[i] == Some(#[trigger] ids[i])
}

/// Puts a table together from what an extractor found for its values: a DAG, and
/// the id of a term for each value, or `None` where there is none.
pub fn assemble(table: &TableRoots, dag: egglog::TermDag, terms: &Vec<Option<usize>>) -> (result:
    Result<ExtractedTable, Refusal>)
    requires
        terms@.len() == table.count * table.width,
        forall|i: int|
            0 <= i < terms@.len() ==> ((#[trigger] terms@[i]) matches Some(id) ==> id < nodes(
                dag,
            ).len()),
    ensures
        match result {
            Ok(extracted) => {
                &&& is_assembled(*table, dag, terms@, extracted)
                &&& forall|i: int|
                    0 <= i < extracted.rows@.len() ==> ids_in(
                        nodes(dag),
                        #[trigger] extracted.rows@[i]@,
                    )
            },
            Err(refusal) => {
                &&& refusal matches Refusal::NoTerm(name)
                &&& name@ == table.name@
                &&& exists|i: int| 0 <= i < terms@.len() && #[trigger] terms@[i] is None
            },
        },
{
    let width = table.width;
    let total = terms.len();
    let mut extracted: Vec<Vec<usize>> = Vec::new();
    let mut next: usize = 0;
    assert(flattened(id_views(extracted@)) =~= Seq::<usize>::empty());
    assert(0 * width == 0) by (nonlinear_arith);
    for i in 0..table.count
        invariant
            width == table.width,
            total == terms@.len(),
            terms@.len() == table.count * width,
            forall|k: int|
                0 <= k < terms@.len() ==> ((#[trigger] terms@[k]) matches Some(id) ==> id < nodes(
                    dag,
                ).len()),
            next == i * width,
            extracted@.len() == i,
            flattened(id_views(extracted@)).len() == next,
            forall|k: int|
                0 <= k < next ==> terms@[k] == Some(#[trigger] flattened(id_views(extracted@))[k]),
            forall|k: int|
                0 <= k < i ==> {
                    &&& (#[trigger] extracted@[k])@.len() == width
                    &&& ids_in(nodes(dag), extracted@[k]@)
                },
    {
        let ghost before = flattened(id_views(extracted@));
        let ghost done = extracted@;
        let mut ids: Vec<usize> = Vec::new();
        assert(i * width + width <= table.count * width) by (nonlinear_arith)
            requires
                i < table.count,
        ;
        let start = next;
        for j in 0..width
            invariant
                start == i * width,
                total == terms@.len(),
                i * width + width <= terms@.len(),
                forall|k: int|
                    0 <= k < terms@.len() ==> ((#[trigger] terms@[k]) matches Some(id) ==> id
                        < nodes(dag).len()),
                next == start + j,
                ids@.len() == j,
                forall|k: int| 0 <= k < j ==> terms@[start + k] == Some(#[trigger] ids@[k]),
                ids_in(nodes(dag), ids@),
        {
            match terms[next] {
                Some(id) => {
                    ids.push(id);
                },
                None => {
                    assert(terms@[next as int] is None);
                    return Err(Refusal::NoTerm(table.name.clone()));
                },
            }
            next = next + 1;
        }
        assert((i + 1) * width == i * width + width) by (nonlinear_arith);
        let ghost own = ids@;
        extracted.push(ids);
        proof {
            let now = id_views(extracted@);
            assert(now.drop_last() =~= id_views(done));
            assert(now.last() == own);
            assert(flattened(now) == before + own);
            assert forall|k: int| 0 <= k < next implies terms@[k] == Some(
                #[trigger] flattened(now)[k],
            ) by {
                if k < start {
                    assert(flattened(now)[k] == before[k]);
                } else {
                    assert(flattened(now)[k] == own[k - start]);
                    assert(terms@[start + (k - start)] == Some(own[k - start]));
                }
            }
        }
    }
    Ok(ExtractedTable { name: table.name.clone(), rows: extracted, dag })
}

/// No value in the table has a least cost that has reached `u64::MAX`.
pub open spec fn is_cheap(egraph: egglog::EGraph, name: Seq<char>) -> bool {
    function_sorts_of(egraph, name) matches Some(sorts) ==> {
        let roots = cells(rows_of(egraph, name), column_sorts(sorts));
        forall|i: int|
            0 <= i < roots.len() ==> least_cost(
                additive_costs(egraph, root_sorts(roots)),
                egraph,
                (#[trigger] roots[i]).0,
                roots[i].1,
            ) != Some(u64::MAX)
    }
}

/// No value in the tables has a least cost that has reached `u64::MAX`, up to the
/// first table that cannot be extracted.
pub open spec fn are_cheap(egraph: egglog::EGraph, names: Seq<Seq<char>>) -> bool {
    forall|i: int|
        0 <= i < names.len() && (forall|k: int|
            0 <= k < i ==> flaw(egraph, #[trigger] names[k]) is None) ==> is_cheap(
            egraph,
            #[trigger] names[i],
        )
}

/// Extracts the best term of every value in a table.
fn extract_table(egraph: &egglog::EGraph, name: &String) -> (result: Result<ExtractedTable, Refusal>)
    requires
        owns_tables(*egraph),
        is_cheap(*egraph, name@),
    ensures
        match result {
            Ok(table) => table.name@ == name@ && is_extracted(*egraph, table),
            Err(refusal) => flaw(*egraph, name@) matches Some(flaw) && tells(refusal, flaw, name@),
        },
{
    let table = match table_roots(egraph, name) {
        Ok(table) => table,
        Err(refusal) => {
            return Err(refusal);
        },
    };
    let sorts = sorts_of_roots(&table.roots);
    let model = egglog::extract::TreeAdditiveCostModel::default();
    let costs = compute_costs(egraph, &sorts, &model);
    proof {
        assert forall|i: int| 0 <= i < table.roots@.len() implies {
            &&& has_sort(*egraph, (#[trigger] table.roots@[i]).0, table.roots@[i].1)
            &&& covers(costs, *egraph, table.roots@[i].0)
        } by {
            assert(sorts@[i] == table.roots@[i].0);
        }
    }
    let (dag, found) = best_terms(egraph, &costs, &table.roots);
    let mut terms: Vec<Option<usize>> = Vec::new();
    for i in 0..found.len()
        invariant
            terms@ == without_costs(found@).take(i as int),
    {
        match found[i] {
            Some((_, id)) => terms.push(Some(id)),
            None => terms.push(None),
        }
        assert(terms@ =~= without_costs(found@).take(i + 1));
    }
    assert(terms@ =~= without_costs(found@));
    let ghost columns = column_sorts(function_sorts_of(*egraph, name@)->0);
    assert(terms@ == best_cells(*egraph, cells(rows_of(*egraph, name@), columns)).1);
    proof {
        assert forall|i: int| 0 <= i < terms@.len() implies ((#[trigger] terms@[i]) matches Some(
            id,
        ) ==> id < nodes(dag).len()) by {
            assert(is_best(
                found@[i],
                nodes(dag),
                least_cost(costs, *egraph, table.roots@[i].0, table.roots@[i].1),
            ));
        }
    }
    let result = assemble(&table, dag, &terms);
    proof {
        match &result {
            Ok(extracted) => {
                let ids = flattened(id_views(extracted.rows@));
                assert forall|i: int| 0 <= i < terms@.len() implies #[trigger] terms@[i] is Some by {
                    assert(terms@[i] == Some(ids[i]));
                }
                assert(!lacks_term(*egraph, name@, columns));
            },
            Err(_) => {
                assert(lacks_term(*egraph, name@, columns));
            },
        }
    }
    result
}

/// For each table in order, extracts the best term for every value. The error
/// is that of the first table for which it fails.
pub fn collect_and_extract(egraph: &egglog::EGraph, names: &Vec<String>) -> (result: Result<
    Vec<ExtractedTable>,
    Refusal,
>)
    requires
        owns_tables(*egraph),
        are_cheap(*egraph, texts(names@)),
    ensures
        match result {
            Ok(tables) => {
                &&& tables@.len() == names@.len()
                &&& forall|i: int|
                    0 <= i < tables@.len() ==> {
                        &&& (#[trigger] tables@[i]).name@ == names@[i]@
                        &&& is_extracted(*egraph, tables@[i])
                    }
            },
            Err(refusal) => tells_first_flaw(*egraph, texts(names@), refusal),
        },
        result is Ok <==> forall|i: int|
            0 <= i < names@.len() ==> flaw(*egraph, #[trigger] names@[i]@) is None,
{
    let mut tables: Vec<ExtractedTable> = Vec::new();
    for i in 0..names.len()
        invariant
            owns_tables(*egraph),
            are_cheap(*egraph, texts(names@)),
            tables@.len() == i,
            forall|k: int|
                0 <= k < i ==> {
                    &&& (#[trigger] tables@[k]).name@ == names@[k]@
                    &&& is_extracted(*egraph, tables@[k])
                },
    {
        proof {
            let all = texts(names@);
            assert forall|k: int| 0 <= k < i implies flaw(*egraph, #[trigger] all[k]) is None by {
                assert(is_extracted(*egraph, tables@[k]));
            }
            assert(is_cheap(*egraph, all[i as int]));
        }
        match extract_table(egraph, &names[i]) {
            Ok(table) => {
                tables.push(table);
            },
            Err(refusal) => {
                proof {
                    let all = texts(names@);
                    assert(all[i as int] == names@[i as int]@);
                    assert forall|k: int| 0 <= k < i implies flaw(
                        *egraph,
                        #[trigger] all[k],
                    ) is None by {
                        assert(is_extracted(*egraph, tables@[k]));
                    }
                    assert(first_flaw(*egraph, all, i as int));
                }
                return Err(refusal);
            },
        }
    }
    proof {
        assert forall|i: int| 0 <= i < names@.len() implies flaw(
            *egraph,
            #[trigger] names@[i]@,
        ) is None by {
            assert(is_extracted(*egraph, tables@[i]));
        }
    }
    Ok(tables)
}

/// A row to be inserted again.
pub struct KeptRow {
    /// The name of the table.
    pub table: String,
    /// Whether the table is a constructor's or relation's.
    pub constructor: bool,
    /// The columns, inputs first.
    pub values: Vec<u32>,
}

/// What inserting a row writes. The row of a constructor gets an e-class,
/// which is united with that of the output.
pub open spec fn insertion(row: KeptRow, class: u32) -> Seq<Edit> {
    let inputs = row.values@.drop_last();
    let output = row.values@.last();
    if row.constructor {
        seq![Edit::Add(row.table@, inputs, class), Edit::Union(class, output)]
    } else {
        seq![Edit::Assign(row.table@, inputs, output)]
    }
}

/// What inserting the rows writes, given the e-classes that the rows of
/// constructors get.
pub open spec fn insertions(rows: Seq<KeptRow>, classes: Seq<u32>) -> Seq<Edit>
    decreases rows.len(),
{
    if rows.len() == 0 {
        Seq::empty()
    } else {
        insertions(rows.drop_last(), classes.drop_last()) + insertion(rows.last(), classes.last())
    }
}

/// Every row has an output column.
pub open spec fn have_outputs(rows: Seq<KeptRow>) -> bool {
    forall|i: int| 0 <= i < rows.len() ==> (#[trigger] rows[i]).values@.len() > 0
}

/// There is a table of the name and the kind of the row with as many input
/// columns.
pub open spec fn row_fits(state: egglog::FullState<'_, '_>, row: KeptRow) -> bool {
    table_shape(state, row.table@) == Some((row.constructor, (row.values@.len() - 1) as nat))
}

/// The row at position `i` is the first for which there is no table.
pub open spec fn first_unfit(state: egglog::FullState<'_, '_>, rows: Seq<KeptRow>, i: int) -> bool {
    &&& 0 <= i < rows.len()
    &&& !row_fits(state, rows[i])
    &&& forall|j: int| 0 <= j < i ==> row_fits(state, #[trigger] rows[j])
}

/// The rows were inserted, and nothing else was written.
pub open spec fn are_inserted(
    before: egglog::FullState<'_, '_>,
    after: egglog::FullState<'_, '_>,
    rows: Seq<KeptRow>,
) -> bool {
    exists|classes: Seq<u32>|
        classes.len() == rows.len() && staged(after) == staged(before) + #[trigger] insertions(
            rows,
            classes,
        )
}

/// Inserts the rows, up to the first for which there is no table.
pub fn insert_rows(state: &mut egglog::FullState<'_, '_>, rows: &Vec<KeptRow>) -> (result: Result<
    (),
    egglog::Error,
>)
    requires
        owns(*old(state)),
        have_outputs(rows@),
    ensures
        result is Ok <==> forall|i: int|
            0 <= i < rows@.len() ==> row_fits(*old(state), #[trigger] rows@[i]),
        match result {
            Ok(_) => are_inserted(*old(state), *final(state), rows@),
            Err(_) => exists|i: int|
                {
                    &&& #[trigger] first_unfit(*old(state), rows@, i)
                    &&& are_inserted(*old(state), *final(state), rows@.take(i))
                },
        },
{
    let ghost base = staged(*state);
    let ghost mut classes: Seq<u32> = Seq::empty();
    assert(rows@.take(0) =~= Seq::<KeptRow>::empty());
    assert(base =~= base + insertions(rows@.take(0), classes));
    for i in 0..rows.len()
        invariant
            owns(*old(state)),
            base == staged(*old(state)),
            persists(*old(state), *state),
            forall|j: int| 0 <= j < i ==> row_fits(*old(state), #[trigger] rows@[j]),
            have_outputs(rows@),
            classes.len() == i,
            staged(*state) == base + insertions(rows@.take(i as int), classes),
    {
        let row = &rows[i];
        let ghost had = classes;
        let ghost log = staged(*state);
        assert(rows@[i as int].values@.len() > 0);
        let last = row.values.len() - 1;
        let output = row.values[last];
        let mut inputs: Vec<u32> = Vec::new();
        for j in 0..last
            invariant
                last == row.values@.len() - 1,
                inputs@ == row.values@.take(j as int),
        {
            inputs.push(row.values[j]);
            assert(inputs@ =~= row.values@.take(j + 1));
        }
        assert(inputs@ =~= row.values@.drop_last());
        assert(rows@.take(i + 1).drop_last() =~= rows@.take(i as int));
        if row.constructor {
            let class = match add_row(state, row.table.as_str(), &inputs) {
                Ok(class) => class,
                Err(error) => {
                    proof {
                        assert(first_unfit(*old(state), rows@, i as int));
                        assert(staged(*state) == base + insertions(rows@.take(i as int), had));
                        assert(are_inserted(*old(state), *state, rows@.take(i as int)));
                    }
                    return Err(error);
                },
            };
            match union_classes(state, class, output) {
                Ok(_) => {},
                Err(error) => {
                    return Err(error);
                },
            }
            proof {
                classes = classes.push(class);
                assert(classes.drop_last() =~= had);
                assert(staged(*state) =~= log + insertion(*row, class));
                assert(staged(*state) =~= base + insertions(rows@.take(i + 1), classes));
            }
        } else {
            match set_row(state, row.table.as_str(), &inputs, output) {
                Ok(_) => {},
                Err(error) => {
                    proof {
                        assert(first_unfit(*old(state), rows@, i as int));
                        assert(staged(*state) == base + insertions(rows@.take(i as int), had));
                        assert(are_inserted(*old(state), *state, rows@.take(i as int)));
                    }
                    return Err(error);
                },
            }
            proof {
                classes = classes.push(0);
                assert(classes.drop_last() =~= had);
                assert(staged(*state) =~= log + insertion(*row, 0));
                assert(staged(*state) =~= base + insertions(rows@.take(i + 1), classes));
            }
        }
    }
    proof {
        assert(rows@.take(rows@.len() as int) =~= rows@);
        assert(staged(*state) == base + insertions(rows@, classes));
    }
    Ok(())
}

/// What a list of rows to be inserted says.
pub open spec fn asked_rows(rows: Seq<KeptRow>) -> Seq<(Seq<char>, bool, Seq<u32>)> {
    rows.map_values(|row: KeptRow| (row.table@, row.constructor, row.values@))
}

/// The rows can be inserted, be it with an error.
pub open spec fn accepts(egraph: egglog::EGraph, rows: Seq<KeptRow>) -> bool {
    exists|outcome: Option<Seq<Edit>>, after: egglog::EGraph| #[trigger]
        may_update(egraph, asked_rows(rows), outcome, after)
}

/// Inserts rows into an e-graph, by `EGraph::update` with [`insert_rows`]:
/// what that writes is written together. What was written before an error is
/// left open.
#[verifier::external_body]
fn update_with_rows(egraph: &mut egglog::EGraph, rows: &Vec<KeptRow>) -> (result: Result<
    (),
    egglog::Error,
>)
    requires
        owns_tables(*old(egraph)),
        accepts(*old(egraph), rows@),
        have_outputs(rows@),
    ensures
        match result {
            Ok(_) => exists|classes: Seq<u32>|
                {
                    let written = Some(#[trigger] insertions(rows@, classes));
                    &&& classes.len() == rows@.len()
                    &&& calls(*final(egraph)) == calls(*old(egraph)).push(
                        Call::Update(asked_rows(rows@), written),
                    )
                    &&& may_update(*old(egraph), asked_rows(rows@), written, *final(egraph))
                },
            Err(_) => {
                &&& calls(*final(egraph)) == calls(*old(egraph)).push(
                    Call::Update(asked_rows(rows@), None),
                )
                &&& may_update(*old(egraph), asked_rows(rows@), None, *final(egraph))
            },
        },
        keeps(*old(egraph), *final(egraph)),
{
    egraph.update(|mut state| insert_rows(&mut state, rows))
}

/// The e-graph came from `before` by evaluating the first arguments, which
/// gave the names.
pub open spec fn names_evaluated(
    before: egglog::EGraph,
    after: egglog::EGraph,
    args: Seq<egglog::ast::Expr>,
    found: Seq<(egglog::ResolvedVar, u32)>,
    names: Seq<Seq<char>>,
) -> bool {
    &&& found.len() == args.len()
    &&& names.len() == args.len()
    &&& calls(after) == calls(before) + evaluations(args, found)
    &&& reaches(before, evaluations(args, found), after)
    &&& keeps(before, after)
    &&& forall|i: int|
        0 <= i < names.len() ==> {
            &&& sort_name((#[trigger] found[i]).0) == "String"@
            &&& has_sort(after, found[i].0, found[i].1)
            &&& names[i] == string_of(after, found[i].1)
        }
}

/// The e-graph came from `before` by evaluating the arguments, which gave the
/// names.
pub open spec fn names_known(
    before: egglog::EGraph,
    after: egglog::EGraph,
    args: Seq<egglog::ast::Expr>,
    names: Seq<Seq<char>>,
) -> bool {
    exists|found: Seq<(egglog::ResolvedVar, u32)>| #[trigger]
        names_evaluated(before, after, args, found, names)
}

/// The argument at position `i` evaluated to something other than a string.
pub open spec fn no_string_at(
    before: egglog::EGraph,
    after: egglog::EGraph,
    args: Seq<egglog::ast::Expr>,
    i: int,
) -> bool {
    exists|found: (egglog::ResolvedVar, u32)|
        sort_name(found.0) != "String"@ && #[trigger] stopped_at(before, after, args, i, Some(found))
}

/// Some argument could not be evaluated.
pub open spec fn name_refused(
    before: egglog::EGraph,
    after: egglog::EGraph,
    args: Seq<egglog::ast::Expr>,
) -> bool {
    exists|i: int| #[trigger] stopped_at(before, after, args, i, None)
}

/// The values are strings.
pub open spec fn are_strings(found: Seq<(egglog::ResolvedVar, u32)>) -> bool {
    forall|k: int| 0 <= k < found.len() ==> sort_name((#[trigger] found[k]).0) == "String"@
}

/// The arguments can be evaluated, one by one up to the first that is no string:
/// each in the e-graph that what comes before leaves.
pub open spec fn can_evaluate(before: egglog::EGraph, args: Seq<egglog::ast::Expr>) -> bool {
    forall|i: int, found: Seq<(egglog::ResolvedVar, u32)>, middle: egglog::EGraph|
        {
            &&& 0 <= i < args.len()
            &&& found.len() == i
            &&& are_strings(found)
            &&& #[trigger] reaches(before, evaluations(args.take(i), found), middle)
        } ==> evaluates(middle, args[i])
}

/// Evaluates each argument to a table name.
fn eval_names(egraph: &mut egglog::EGraph, args: &[egglog::ast::Expr]) -> (result: Result<
    Vec<String>,
    Refusal,
>)
    requires
        can_evaluate(*old(egraph), args@),
    ensures
        match result {
            Ok(names) => names_known(*old(egraph), *final(egraph), args@, texts(names@)),
            Err(Refusal::NotAString(i)) => no_string_at(
                *old(egraph),
                *final(egraph),
                args@,
                i as int,
            ),
            Err(Refusal::Engine(_)) => name_refused(*old(egraph), *final(egraph), args@),
            Err(_) => false,
        },
{
    let ghost base = *egraph;
    let ghost mut found: Seq<(egglog::ResolvedVar, u32)> = Seq::empty();
    let mut names: Vec<String> = Vec::new();
    proof {
        assert(evaluations(args@.take(0), found) =~= Seq::<Call>::empty());
        assert(calls(base) =~= calls(base) + evaluations(args@.take(0), found));
    }
    for i in 0..args.len()
        invariant
            base == *old(egraph),
            can_evaluate(base, args@),
            found.len() == i,
            names@.len() == i,
            reaches(base, evaluations(args@.take(i as int), found), *egraph),
            calls(*egraph) == calls(base) + evaluations(args@.take(i as int), found),
            keeps(base, *egraph),
            forall|k: int|
                0 <= k < i ==> {
                    &&& sort_name((#[trigger] found[k]).0) == "String"@
                    &&& has_sort(*egraph, found[k].0, found[k].1)
                    &&& names@[k]@ == string_of(*egraph, found[k].1)
                },
    {
        let ghost had = found;
        let ghost earlier = *egraph;
        proof {
            assert(are_strings(found));
            assert(evaluates(*egraph, args@[i as int]));
        }
        let (sort, value) = match eval_expr(egraph, &args[i]) {
            Ok(pair) => pair,
            Err(error) => {
                assert(stopped_at(base, *egraph, args@, i as int, None));
                return Err(Refusal::Engine(error));
            },
        };
        if !same(name_of_sort(&sort).as_str(), "String") {
            proof {
                assert(calls(*egraph) == (calls(base) + evaluations(args@.take(i as int), had)).push(
                    Call::Eval(args@[i as int], Some((sort, value))),
                ));
                assert(stopped_at(base, *egraph, args@, i as int, Some((sort, value))));
            }
            return Err(Refusal::NotAString(i));
        }
        proof {
            found = found.push((sort, value));
            assert(evaluations(args@.take(i + 1), found) =~= evaluations(
                args@.take(i as int),
                had,
            ).push(Call::Eval(args@[i as int], Some((sort, value)))));
            assert(calls(*egraph) =~= calls(base) + evaluations(args@.take(i + 1), found));
            lemma_reaches_push(
                base,
                evaluations(args@.take(i as int), had),
                earlier,
                Call::Eval(args@[i as int], Some((sort, value))),
                *egraph,
            );
            lemma_keeps(base, earlier, *egraph);
            assert forall|k: int| 0 <= k < i implies {
                &&& sort_name((#[trigger] found[k]).0) == "String"@
                &&& has_sort(*egraph, found[k].0, found[k].1)
                &&& names@[k]@ == string_of(*egraph, found[k].1)
            } by {
                assert(found[k] == had[k]);
                assert(has_sort(earlier, had[k].0, had[k].1));
            }
            assert(found[i as int] == (sort, value));
        }
        let name = string(egraph, &sort, value);
        names.push(name);
    }
    proof {
        assert(args@.take(args@.len() as int) =~= args@);
        assert forall|i: int| 0 <= i < texts(names@).len() implies {
            &&& sort_name((#[trigger] found[i]).0) == "String"@
            &&& has_sort(*egraph, found[i].0, found[i].1)
            &&& texts(names@)[i] == string_of(*egraph, found[i].1)
        } by {}
        assert(names_evaluated(base, *egraph, args@, found, texts(names@)));
    }
    Ok(names)
}

/// The functions were cleared, in order.
pub open spec fn clearings(names: Seq<Seq<char>>) -> Seq<Call> {
    Seq::new(names.len(), |i: int| Call::Clear(names[i], true))
}

/// Clears every function of the e-graph.
fn clear_all(egraph: &mut egglog::EGraph) -> (result: Result<(), egglog::Error>)
    ensures
        result is Ok,
        keeps(*old(egraph), *final(egraph)),
        calls(*final(egraph)) == calls(*old(egraph)) + clearings(function_names_of(*old(egraph))),
        reaches(*old(egraph), clearings(function_names_of(*old(egraph))), *final(egraph)),
{
    let ghost base = *egraph;
    let names = function_names(egraph);
    let ghost all = texts(names@);
    proof {
        assert(clearings(all.take(0)) =~= Seq::<Call>::empty());
        assert(calls(base) =~= calls(base) + clearings(all.take(0)));
    }
    for i in 0..names.len()
        invariant
            base == *old(egraph),
            all == texts(names@),
            forall|k: int|
                0 <= k < names@.len() ==> function_sorts_of(base, #[trigger] names@[k]@) is Some,
            keeps(base, *egraph),
            calls(*egraph) == calls(base) + clearings(all.take(i as int)),
            reaches(base, clearings(all.take(i as int)), *egraph),
    {
        let ghost earlier = *egraph;
        assert(function_sorts_of(earlier, names@[i as int]@) == function_sorts_of(
            base,
            names@[i as int]@,
        ));
        let done = clear_function(egraph, names[i].as_str());
        proof {
            lemma_keeps(base, earlier, *egraph);
        }
        match done {
            Ok(_) => {},
            Err(error) => {
                return Err(error);
            },
        }
        proof {
            let call = Call::Clear(names@[i as int]@, true);
            assert(calls(*egraph) =~= calls(base) + clearings(all.take(i + 1)));
            lemma_reaches_push(base, clearings(all.take(i as int)), earlier, call, *egraph);
            assert(clearings(all.take(i as int)).push(call) =~= clearings(all.take(i + 1)));
        }
    }
    assert(all.take(names@.len() as int) =~= all);
    Ok(())
}

/// The call evaluated the term to the value.
pub open spec fn gave_value(list: Seq<Node>, id: usize, call: Call, value: u32) -> bool {
    match call {
        Call::Eval(expr, Some(found)) => is_expr_of(list, id as int, expr) && found.1 == value,
        _ => false,
    }
}

/// The calls evaluated the terms to the values, in order.
pub open spec fn gave_values(
    terms: Seq<(Seq<Node>, usize)>,
    asked: Seq<Call>,
    values: Seq<u32>,
) -> bool {
    &&& asked.len() == terms.len()
    &&& values.len() == terms.len()
    &&& forall|k: int|
        0 <= k < terms.len() ==> gave_value(
            (#[trigger] terms[k]).0,
            terms[k].1,
            asked[k],
            values[k],
        )
}

proof fn lemma_gave_values_add(
    terms: Seq<(Seq<Node>, usize)>,
    asked: Seq<Call>,
    values: Seq<u32>,
    more_terms: Seq<(Seq<Node>, usize)>,
    more_asked: Seq<Call>,
    more_values: Seq<u32>,
)
    requires
        gave_values(terms, asked, values),
        gave_values(more_terms, more_asked, more_values),
    ensures
        gave_values(terms + more_terms, asked + more_asked, values + more_values),
{
    let all = terms + more_terms;
    assert forall|k: int| 0 <= k < all.len() implies gave_value(
        (#[trigger] all[k]).0,
        all[k].1,
        (asked + more_asked)[k],
        (values + more_values)[k],
    ) by {
        if k < terms.len() {
            assert(all[k] == terms[k]);
        } else {
            assert(all[k] == more_terms[k - terms.len()]);
        }
    }
}

/// The call failed to evaluate the term.
pub open spec fn gave_no_value(list: Seq<Node>, id: usize, call: Call) -> bool {
    match call {
        Call::Eval(expr, None) => is_expr_of(list, id as int, expr),
        _ => false,
    }
}

/// The calls evaluated the terms in order, up to one for which it failed.
pub open spec fn gave_out(terms: Seq<(Seq<Node>, usize)>, asked: Seq<Call>) -> bool {
    let count = asked.len() - 1;
    &&& 0 <= count < terms.len()
    &&& exists|values: Seq<u32>| #[trigger]
        gave_values(terms.take(count), asked.drop_last(), values)
    &&& gave_no_value(terms[count].0, terms[count].1, asked.last())
}

proof fn lemma_gave_out_add(
    terms: Seq<(Seq<Node>, usize)>,
    asked: Seq<Call>,
    values: Seq<u32>,
    more_terms: Seq<(Seq<Node>, usize)>,
    more_asked: Seq<Call>,
)
    requires
        gave_values(terms, asked, values),
        gave_out(more_terms, more_asked),
    ensures
        gave_out(terms + more_terms, asked + more_asked),
{
    let count = more_asked.len() - 1;
    let more_values = choose|more: Seq<u32>| #[trigger]
        gave_values(more_terms.take(count), more_asked.drop_last(), more);
    lemma_gave_values_add(
        terms,
        asked,
        values,
        more_terms.take(count),
        more_asked.drop_last(),
        more_values,
    );
    let all = terms + more_terms;
    let calls = asked + more_asked;
    assert(all.take(calls.len() - 1) =~= terms + more_terms.take(count));
    assert(calls.drop_last() =~= asked + more_asked.drop_last());
    assert(calls.last() == more_asked.last());
    assert(gave_values(all.take(calls.len() - 1), calls.drop_last(), values + more_values));
}

proof fn lemma_gave_out_prefix(
    terms: Seq<(Seq<Node>, usize)>,
    all: Seq<(Seq<Node>, usize)>,
    asked: Seq<Call>,
)
    requires
        terms.is_prefix_of(all),
        gave_out(terms, asked),
    ensures
        gave_out(all, asked),
{
    let count = asked.len() - 1;
    let values = choose|values: Seq<u32>| #[trigger]
        gave_values(terms.take(count), asked.drop_last(), values);
    assert(all.take(count) =~= terms.take(count));
    assert(all[count] == terms[count]);
    assert(gave_values(all.take(count), asked.drop_last(), values));
}

/// The ids with the terms in which they stand.
pub open spec fn terms_at(list: Seq<Node>, ids: Seq<usize>) -> Seq<(Seq<Node>, usize)> {
    ids.map_values(|id: usize| (list, id))
}

/// The expression is the term.
pub open spec fn is_term(term: (Seq<Node>, usize), expr: egglog::ast::Expr) -> bool {
    is_expr_of(term.0, term.1 as int, expr)
}

/// The terms can be evaluated, one by one: each in the e-graph that what comes
/// before leaves.
pub open spec fn terms_run(egraph: egglog::EGraph, terms: Seq<(Seq<Node>, usize)>) -> bool {
    forall|
        asked: Seq<Call>,
        values: Seq<u32>,
        middle: egglog::EGraph,
        expr: egglog::ast::Expr,
    |
        {
            &&& asked.len() < terms.len()
            &&& #[trigger] gave_values(terms.take(asked.len() as int), asked, values)
            &&& #[trigger] reaches(egraph, asked, middle)
            &&& #[trigger] is_term(terms[asked.len() as int], expr)
        } ==> evaluates(middle, expr)
}

/// When the first terms have been evaluated, those that follow can be.
proof fn lemma_terms_run_on(
    before: egglog::EGraph,
    all: Seq<(Seq<Node>, usize)>,
    terms: Seq<(Seq<Node>, usize)>,
    asked: Seq<Call>,
    values: Seq<u32>,
    after: egglog::EGraph,
    more: Seq<(Seq<Node>, usize)>,
)
    requires
        terms_run(before, all),
        reaches(before, asked, after),
        gave_values(terms, asked, values),
        (terms + more).is_prefix_of(all),
    ensures
        terms_run(after, more),
{
    assert forall|
        more_asked: Seq<Call>,
        more_values: Seq<u32>,
        middle: egglog::EGraph,
        expr: egglog::ast::Expr,
    |
        {
            &&& more_asked.len() < more.len()
            &&& #[trigger] gave_values(more.take(more_asked.len() as int), more_asked, more_values)
            &&& #[trigger] reaches(after, more_asked, middle)
            &&& #[trigger] is_term(more[more_asked.len() as int], expr)
        } implies evaluates(middle, expr) by {
        let n = more_asked.len() as int;
        let log = asked + more_asked;
        lemma_gave_values_add(terms, asked, values, more.take(n), more_asked, more_values);
        lemma_reaches_add(before, asked, after, more_asked, middle);
        assert(all.take(log.len() as int) =~= terms + more.take(n));
        assert(all[log.len() as int] == (terms + more)[log.len() as int]);
        assert(all[log.len() as int] == more[n]);
        assert(gave_values(all.take(log.len() as int), log, values + more_values));
        assert(is_term(all[log.len() as int], expr));
    }
}

/// Evaluates the terms in order, up to the first for which it fails.
fn eval_terms(egraph: &mut egglog::EGraph, dag: &egglog::TermDag, ids: &Vec<usize>) -> (result:
    Result<Vec<u32>, egglog::Error>)
    requires
        is_dag(nodes(*dag)),
        ids_in(nodes(*dag), ids@),
        terms_run(*old(egraph), terms_at(nodes(*dag), ids@)),
    ensures
        keeps(*old(egraph), *final(egraph)),
        calls(*old(egraph)).is_prefix_of(calls(*final(egraph))),
        ({
            let asked = calls(*final(egraph)).skip(calls(*old(egraph)).len() as int);
            reaches(*old(egraph), asked, *final(egraph))
        }),
        ({
            let asked = calls(*final(egraph)).skip(calls(*old(egraph)).len() as int);
            match result {
                Ok(values) => gave_values(terms_at(nodes(*dag), ids@), asked, values@),
                Err(_) => gave_out(terms_at(nodes(*dag), ids@), asked),
            }
        }),
{
    let ghost base = *egraph;
    let ghost list = nodes(*dag);
    let ghost mut asked: Seq<Call> = Seq::empty();
    let mut values: Vec<u32> = Vec::new();
    for i in 0..ids.len()
        invariant
            base == *old(egraph),
            list == nodes(*dag),
            is_dag(list),
            ids_in(list, ids@),
            terms_run(base, terms_at(list, ids@)),
            keeps(base, *egraph),
            calls(*egraph) == calls(base) + asked,
            reaches(base, asked, *egraph),
            asked.len() == i,
            values@.len() == i,
            forall|k: int|
                0 <= k < i ==> gave_value(list, #[trigger] ids@[k], asked[k], values@[k]),
    {
        let ghost earlier = *egraph;
        let ghost had = asked;
        let expr = term_to_expr(dag, ids[i]);
        proof {
            let terms = terms_at(list, ids@);
            let done = terms.take(i as int);
            assert forall|k: int| 0 <= k < done.len() implies gave_value(
                (#[trigger] done[k]).0,
                done[k].1,
                asked[k],
                values@[k],
            ) by {
                assert(gave_value(list, ids@[k], asked[k], values@[k]));
            }
            assert(gave_values(terms.take(asked.len() as int), asked, values@));
            assert(terms[asked.len() as int] == (list, ids@[i as int]));
            assert(is_term(terms[asked.len() as int], expr));
            assert(evaluates(*egraph, expr));
        }
        let answer = eval_expr(egraph, &expr);
        proof {
            lemma_keeps(base, earlier, *egraph);
        }
        match answer {
            Ok((sort, value)) => {
                values.push(value);
                proof {
                    let call = Call::Eval(expr, Some((sort, value)));
                    lemma_reaches_push(base, asked, earlier, call, *egraph);
                    asked = asked.push(call);
                    assert(calls(*egraph) =~= calls(base) + asked);
                }
            },
            Err(error) => {
                proof {
                    let terms = terms_at(list, ids@);
                    let all = asked.push(Call::Eval(expr, None));
                    lemma_reaches_push(base, asked, earlier, Call::Eval(expr, None), *egraph);
                    assert(calls(*egraph).skip(calls(base).len() as int) =~= all);
                    assert(all.drop_last() =~= asked);
                    let done = terms.take(i as int);
                    assert forall|k: int| 0 <= k < done.len() implies gave_value(
                        (#[trigger] done[k]).0,
                        done[k].1,
                        asked[k],
                        values@[k],
                    ) by {
                        assert(gave_value(list, ids@[k], asked[k], values@[k]));
                    }
                    assert(gave_values(done, all.drop_last(), values@));
                    assert(terms[i as int] == (list, ids@[i as int]));
                }
                return Err(error);
            },
        }
    }
    proof {
        assert(calls(*egraph).skip(calls(base).len() as int) =~= asked);
        let terms = terms_at(list, ids@);
        assert forall|k: int| 0 <= k < terms.len() implies gave_value(
            (#[trigger] terms[k]).0,
            terms[k].1,
            asked[k],
            values@[k],
        ) by {
            assert(gave_value(list, ids@[k], asked[k], values@[k]));
        }
    }
    Ok(values)
}

/// The terms of the tables, table by table, row by row.
pub open spec fn all_terms(tables: Seq<ExtractedTable>) -> Seq<(Seq<Node>, usize)>
    decreases tables.len(),
{
    if tables.len() == 0 {
        Seq::empty()
    } else {
        all_terms(tables.drop_last()) + terms_at(
            nodes(tables.last().dag),
            flattened(id_views(tables.last().rows@)),
        )
    }
}

/// The first tables and the first rows of the next hold the first terms.
proof fn lemma_all_terms_prefix(tables: Seq<ExtractedTable>, t: int, r: int)
    requires
        0 <= t < tables.len(),
        0 <= r <= tables[t].rows@.len(),
    ensures
        (all_terms(tables.take(t)) + terms_at(
            nodes(tables[t].dag),
            flattened(id_views(tables[t].rows@.take(r))),
        )).is_prefix_of(all_terms(tables)),
    decreases tables.len(),
{
    if t == tables.len() - 1 {
        let table = tables[t];
        assert(tables.take(t) =~= tables.drop_last());
        assert(id_views(table.rows@).take(r) =~= id_views(table.rows@.take(r)));
        lemma_flattened_take(id_views(table.rows@), r);
    } else {
        lemma_all_terms_prefix(tables.drop_last(), t, r);
        assert(tables.drop_last().take(t) =~= tables.take(t));
    }
}

/// The name and the number of columns of each row of a table.
pub open spec fn table_heads(name: Seq<char>, rows: Seq<Vec<usize>>) -> Seq<(Seq<char>, nat)> {
    Seq::new(rows.len(), |i: int| (name, rows[i]@.len()))
}

/// The name of the table and the number of columns of each row, table by
/// table.
pub open spec fn all_heads(tables: Seq<ExtractedTable>) -> Seq<(Seq<char>, nat)>
    decreases tables.len(),
{
    if tables.len() == 0 {
        Seq::empty()
    } else {
        all_heads(tables.drop_last()) + table_heads(tables.last().name@, tables.last().rows@)
    }
}

/// The columns of the rows, row by row.
pub open spec fn kept_values(rows: Seq<KeptRow>) -> Seq<u32> {
    flattened(rows.map_values(|row: KeptRow| row.values@))
}

/// The rows have these tables and numbers of columns, and the subtypes of
/// their tables.
pub open spec fn have_heads(
    egraph: egglog::EGraph,
    rows: Seq<KeptRow>,
    heads: Seq<(Seq<char>, nat)>,
) -> bool {
    &&& rows.len() == heads.len()
    &&& forall|k: int|
        0 <= k < rows.len() ==> {
            &&& (#[trigger] rows[k]).table@ == heads[k].0
            &&& rows[k].values@.len() == heads[k].1
            &&& is_constructor_table(egraph, heads[k].0) == Some(rows[k].constructor)
        }
}

proof fn lemma_kept_values_push(rows: Seq<KeptRow>, row: KeptRow)
    ensures
        kept_values(rows.push(row)) == kept_values(rows) + row.values@,
{
    let lists = rows.map_values(|row: KeptRow| row.values@);
    lemma_flattened_push(lists, row.values@);
    assert(rows.push(row).map_values(|row: KeptRow| row.values@) =~= lists.push(row.values@));
}

/// There is no function of the name of some table.
pub open spec fn is_unbound(egraph: egglog::EGraph, tables: Seq<ExtractedTable>) -> bool {
    exists|t: int|
        0 <= t < tables.len() && function_sorts_of(egraph, (#[trigger] tables[t]).name@) is None
}

/// Evaluates the terms of the tables again, row by row, up to the first for
/// which it fails.
fn reevaluate(egraph: &mut egglog::EGraph, tables: &Vec<ExtractedTable>) -> (result: Result<
    Vec<KeptRow>,
    egglog::Error,
>)
    requires
        forall|t: int|
            0 <= t < tables@.len() ==> (#[trigger] tables@[t]).wf(),
        owns_tables(*old(egraph)),
        terms_run(*old(egraph), all_terms(tables@)),
    ensures
        keeps(*old(egraph), *final(egraph)),
        calls(*old(egraph)).is_prefix_of(calls(*final(egraph))),
        ({
            let asked = calls(*final(egraph)).skip(calls(*old(egraph)).len() as int);
            reaches(*old(egraph), asked, *final(egraph))
        }),
        ({
            let asked = calls(*final(egraph)).skip(calls(*old(egraph)).len() as int);
            match result {
                Ok(rows) => {
                    &&& have_heads(*old(egraph), rows@, all_heads(tables@))
                    &&& gave_values(all_terms(tables@), asked, kept_values(rows@))
                },
                Err(_) => gave_out(all_terms(tables@), asked) || is_unbound(
                    *old(egraph),
                    tables@,
                ),
            }
        }),
{
    let ghost base = *egraph;
    let ghost mut asked: Seq<Call> = Seq::empty();
    let mut kept: Vec<KeptRow> = Vec::new();
    proof {
        assert(tables@.take(0) =~= Seq::<ExtractedTable>::empty());
        assert(kept@.map_values(|row: KeptRow| row.values@) =~= Seq::<Seq<u32>>::empty());
        assert(calls(base) =~= calls(base) + asked);
    }
    for t in 0..tables.len()
        invariant
            base == *old(egraph),
            forall|u: int|
                0 <= u < tables@.len() ==> (#[trigger] tables@[u]).wf(),
            owns_tables(base),
            terms_run(base, all_terms(tables@)),
            keeps(base, *egraph),
            calls(*egraph) == calls(base) + asked,
            reaches(base, asked, *egraph),
            have_heads(base, kept@, all_heads(tables@.take(t as int))),
            gave_values(all_terms(tables@.take(t as int)), asked, kept_values(kept@)),
    {
        let table = &tables[t];
        let ghost list = nodes(table.dag);
        let ghost before_terms = all_terms(tables@.take(t as int));
        let ghost before_heads = all_heads(tables@.take(t as int));
        proof {
            assert(tables@.take(t + 1).drop_last() =~= tables@.take(t as int));
            assert(tables@.take(t + 1).last() == *table);
            assert(tables@[t as int].wf());
        }
        assert(is_constructor_table(*egraph, table.name@) == is_constructor_table(
            base,
            table.name@,
        ));
        let constructor = match is_constructor(egraph, table.name.as_str()) {
            Ok(constructor) => constructor,
            Err(error) => {
                assert(function_sorts_of(*egraph, table.name@) == function_sorts_of(
                    base,
                    table.name@,
                ));
                assert(function_sorts_of(base, tables@[t as int].name@) is None);
                assert(calls(base).is_prefix_of(calls(*egraph)));
                assert(calls(*egraph).skip(calls(base).len() as int) =~= asked);
                return Err(error);
            },
        };
        proof {
            assert(table.rows@.take(0) =~= Seq::<Vec<usize>>::empty());
            assert(id_views(table.rows@.take(0)) =~= Seq::<Seq<usize>>::empty());
            assert(terms_at(list, flattened(id_views(table.rows@.take(0)))) =~= Seq::<
                (Seq<Node>, usize),
            >::empty());
            assert(before_terms =~= before_terms + terms_at(
                list,
                flattened(id_views(table.rows@.take(0))),
            ));
            assert(before_heads =~= before_heads + table_heads(table.name@, table.rows@.take(0)));
        }
        for r in 0..table.rows.len()
            invariant
                base == *old(egraph),
                t < tables@.len(),
                *table == tables@[t as int],
                list == nodes(table.dag),
                is_dag(list),
                before_terms == all_terms(tables@.take(t as int)),
                forall|i: int|
                    0 <= i < table.rows@.len() ==> ids_in(list, #[trigger] table.rows@[i]@),
                is_constructor_table(base, table.name@) == Some(constructor),
                terms_run(base, all_terms(tables@)),
                keeps(base, *egraph),
                calls(*egraph) == calls(base) + asked,
                reaches(base, asked, *egraph),
                have_heads(
                    base,
                    kept@,
                    before_heads + table_heads(table.name@, table.rows@.take(r as int)),
                ),
                gave_values(
                    before_terms + terms_at(
                        list,
                        flattened(id_views(table.rows@.take(r as int))),
                    ),
                    asked,
                    kept_values(kept@),
                ),
        {
            let ghost earlier = *egraph;
            let ghost had = asked;
            let ghost old_kept = kept@;
            let ghost done = table.rows@.take(r as int);
            assert(ids_in(list, table.rows@[r as int]@));
            proof {
                let ids = table.rows@[r as int]@;
                let next = table.rows@.take(r + 1);
                assert(id_views(next) =~= id_views(done).push(ids));
                lemma_flattened_push(id_views(done), ids);
                let terms = before_terms + terms_at(list, flattened(id_views(done)));
                assert(before_terms + terms_at(list, flattened(id_views(next))) =~= terms
                    + terms_at(list, ids));
                lemma_all_terms_prefix(tables@, t as int, r + 1);
                lemma_terms_run_on(
                    base,
                    all_terms(tables@),
                    terms,
                    asked,
                    kept_values(kept@),
                    *egraph,
                    terms_at(list, ids),
                );
            }
            let answer = eval_terms(egraph, &table.dag, &table.rows[r]);
            proof {
                lemma_keeps(base, earlier, *egraph);
            }
            let values = match answer {
                Ok(values) => values,
                Err(error) => {
                    proof {
                        let more = calls(*egraph).skip(calls(earlier).len() as int);
                        assert(calls(*egraph) =~= calls(earlier) + more);
                        assert(calls(*egraph).skip(calls(base).len() as int) =~= asked + more);
                        lemma_reaches_add(base, asked, earlier, more, *egraph);
                        let ids = table.rows@[r as int]@;
                        let next = table.rows@.take(r + 1);
                        assert(id_views(next) =~= id_views(done).push(ids));
                        lemma_flattened_push(id_views(done), ids);
                        let terms = before_terms + terms_at(list, flattened(id_views(done)));
                        let longer = before_terms + terms_at(list, flattened(id_views(next)));
                        assert(longer =~= terms + terms_at(list, ids));
                        lemma_gave_out_add(
                            terms,
                            asked,
                            kept_values(kept@),
                            terms_at(list, ids),
                            more,
                        );
                        lemma_all_terms_prefix(tables@, t as int, r + 1);
                        lemma_gave_out_prefix(longer, all_terms(tables@), asked + more);
                    }
                    return Err(error);
                },
            };
            let ghost row_values = values@;
            kept.push(KeptRow { table: table.name.clone(), constructor, values });
            proof {
                let more = calls(*egraph).skip(calls(earlier).len() as int);
                lemma_reaches_add(base, asked, earlier, more, *egraph);
                asked = asked + more;
                assert(calls(*egraph) =~= calls(earlier) + more);
                assert(calls(*egraph) =~= calls(base) + asked);
                let ids = table.rows@[r as int]@;
                let next = table.rows@.take(r + 1);
                assert(next =~= done.push(table.rows@[r as int]));
                assert(id_views(next) =~= id_views(done).push(ids));
                lemma_flattened_push(id_views(done), ids);
                let terms = before_terms + terms_at(list, flattened(id_views(done)));
                let longer = before_terms + terms_at(list, flattened(id_views(next)));
                assert(longer =~= terms + terms_at(list, ids));
                lemma_gave_values_add(
                    terms,
                    had,
                    kept_values(old_kept),
                    terms_at(list, ids),
                    more,
                    row_values,
                );
                lemma_kept_values_push(old_kept, kept@.last());
                assert(kept@ =~= old_kept.push(kept@.last()));
                let heads = before_heads + table_heads(table.name@, done);
                let all = before_heads + table_heads(table.name@, next);
                assert(all =~= heads.push((table.name@, ids.len())));
                assert forall|k: int| 0 <= k < kept@.len() implies {
                    &&& (#[trigger] kept@[k]).table@ == all[k].0
                    &&& kept@[k].values@.len() == all[k].1
                    &&& is_constructor_table(base, all[k].0) == Some(kept@[k].constructor)
                } by {
                    if k < old_kept.len() {
                        assert(kept@[k] == old_kept[k]);
                        assert(all[k] == heads[k]);
                    }
                }
            }
        }
        proof {
            assert(table.rows@.take(table.rows@.len() as int) =~= table.rows@);
        }
    }
    proof {
        assert(tables@.take(tables@.len() as int) =~= tables@);
        assert(calls(*egraph).skip(calls(base).len() as int) =~= asked);
    }
    Ok(kept)
}

/// What `keep-best` kept.
pub struct Kept {
    /// The named tables with the best terms of their rows.
    pub tables: Vec<ExtractedTable>,
    /// The rows that were inserted again.
    pub rows: Vec<KeptRow>,
}

/// The names of the tables.
pub open spec fn table_names(tables: Seq<ExtractedTable>) -> Seq<Seq<char>> {
    tables.map_values(|table: ExtractedTable| table.name@)
}

/// The e-graph came from `before` by evaluating the arguments, which gave the
/// names of the tables, and the tables were extracted.
pub open spec fn is_collected(
    before: egglog::EGraph,
    after: egglog::EGraph,
    args: Seq<egglog::ast::Expr>,
    tables: Seq<ExtractedTable>,
) -> bool {
    &&& names_known(before, after, args, table_names(tables))
    &&& forall|t: int| 0 <= t < tables.len() ==> is_extracted(after, #[trigger] tables[t])
}

/// What was asked of the e-graph once every function was cleared.
pub open spec fn cleared_calls(egraph: egglog::EGraph) -> Seq<Call> {
    calls(egraph) + clearings(function_names_of(egraph))
}

/// Every function was cleared, and the rows of the tables were evaluated and
/// inserted again, in this order.
pub open spec fn is_restored(before: egglog::EGraph, after: egglog::EGraph, kept: Kept) -> bool {
    exists|asked: Seq<Call>, classes: Seq<u32>|
        {
            &&& have_heads(before, kept.rows@, all_heads(kept.tables@))
            &&& #[trigger] gave_values(all_terms(kept.tables@), asked, kept_values(kept.rows@))
            &&& calls(after) == (cleared_calls(before) + asked).push(
                Call::Update(
                    asked_rows(kept.rows@),
                    Some(#[trigger] insertions(kept.rows@, classes)),
                ),
            )
            &&& classes.len() == kept.rows@.len()
        }
}

/// Every function was cleared, and then the evaluation of some term of the tables
/// failed.
pub open spec fn term_refused(
    before: egglog::EGraph,
    after: egglog::EGraph,
    tables: Seq<ExtractedTable>,
) -> bool {
    exists|asked: Seq<Call>| #[trigger]
        gave_out(all_terms(tables), asked) && calls(after) == cleared_calls(before) + asked
}

/// Every function was cleared, and the rows of the tables were evaluated, and then
/// their insertion failed.
pub open spec fn rows_refused(
    before: egglog::EGraph,
    after: egglog::EGraph,
    tables: Seq<ExtractedTable>,
) -> bool {
    exists|asked: Seq<Call>, rows: Seq<KeptRow>|
        {
            &&& have_heads(before, rows, all_heads(tables))
            &&& #[trigger] gave_values(all_terms(tables), asked, kept_values(rows))
            &&& calls(after) == (cleared_calls(before) + asked).push(
                Call::Update(asked_rows(rows), None),
            )
        }
}

/// The named tables were extracted, and their rows alone were kept.
pub open spec fn is_kept(
    before: egglog::EGraph,
    after: egglog::EGraph,
    args: Seq<egglog::ast::Expr>,
    kept: Kept,
) -> bool {
    exists|middle: egglog::EGraph| #[trigger]
        is_collected(before, middle, args, kept.tables@) && is_restored(middle, after, kept)
}

/// The named tables were extracted, and then the engine gave an error for a term
/// or for the insertion of the rows.
pub open spec fn restoring_refused(
    before: egglog::EGraph,
    after: egglog::EGraph,
    args: Seq<egglog::ast::Expr>,
) -> bool {
    exists|middle: egglog::EGraph, tables: Seq<ExtractedTable>|
        {
            &&& #[trigger] is_collected(before, middle, args, tables)
            &&& term_refused(middle, after, tables) || rows_refused(middle, after, tables)
        }
}

/// The evaluation of an argument failed, or its sort is not that of strings.
pub open spec fn argument_refused(
    before: egglog::EGraph,
    after: egglog::EGraph,
    args: Seq<egglog::ast::Expr>,
    refusal: Refusal,
) -> bool {
    match refusal {
        Refusal::NotAString(i) => no_string_at(before, after, args, i as int),
        Refusal::Engine(_) => name_refused(before, after, args),
        _ => false,
    }
}

/// The arguments were evaluated, and the first of the named tables that cannot
/// be extracted was refused. No function was cleared.
pub open spec fn table_refused(
    before: egglog::EGraph,
    after: egglog::EGraph,
    args: Seq<egglog::ast::Expr>,
    refusal: Refusal,
) -> bool {
    exists|names: Seq<Seq<char>>| #[trigger]
        names_known(before, after, args, names) && tells_first_flaw(after, names, refusal)
}

/// What `keep-best` comes to.
pub enum Outcome {
    /// The rows of the named tables were kept.
    Kept(Kept),
    /// The names of the tables whose values the greedy DAG extractor is to extract.
    /// [`table_roots`], [`assemble`] and [`restore`] go on from there.
    Greedy(Vec<String>),
}

/// The arguments end in an extractor that is unknown.
pub open spec fn is_unknown(args: Seq<egglog::ast::Expr>) -> bool {
    selected(args) is Some && selected(args) != Some("greedy-dag"@)
}

/// Evaluates the arguments to the names of tables, and says whether the greedy DAG
/// extractor is asked for.
pub fn prepare(egraph: &mut egglog::EGraph, args: &[egglog::ast::Expr]) -> (result: Result<
    (Vec<String>, bool),
    Refusal,
>)
    requires
        !is_unknown(args@) ==> can_evaluate(*old(egraph), args@.take(leading(args@))),
    ensures
        ({
            let before = *old(egraph);
            let after = *final(egraph);
            let own = args@.take(leading(args@));
            if selected(args@) is None || selected(args@) == Some("greedy-dag"@) {
                match result {
                    Ok((names, greedy)) => {
                        &&& names_known(before, after, own, texts(names@))
                        &&& greedy == (selected(args@) is Some)
                    },
                    Err(refusal) => argument_refused(before, after, own, refusal),
                }
            } else {
                &&& after == before
                &&& result matches Err(Refusal::UnknownExtractor(unknown))
                &&& selected(args@) == Some(unknown@)
            }
        }),
{
    let (count, greedy) = match split_trailing_extractor(args) {
        Ok(split) => split,
        Err(name) => {
            return Err(Refusal::UnknownExtractor(name));
        },
    };
    let own = vstd::slice::slice_subrange(args, 0, count);
    assert(own@ == args@.take(leading(args@)));
    match eval_names(egraph, own) {
        Ok(names) => Ok((names, greedy)),
        Err(refusal) => Err(refusal),
    }
}

pub(crate) proof fn lemma_rows_have_outputs(tables: Seq<ExtractedTable>)
    requires
        forall|t: int| 0 <= t < tables.len() ==> (#[trigger] tables[t]).wf(),
    ensures
        forall|k: int| 0 <= k < all_heads(tables).len() ==> (#[trigger] all_heads(tables)[k]).1 > 0,
    decreases tables.len(),
{
    if tables.len() > 0 {
        let front = tables.drop_last();
        assert forall|t: int| 0 <= t < front.len() implies (#[trigger] front[t]).wf() by {
            assert(tables[t].wf());
        }
        lemma_rows_have_outputs(front);
        let last = tables.last();
        assert(tables[tables.len() - 1].wf());
        let heads = all_heads(tables);
        assert forall|k: int| 0 <= k < heads.len() implies (#[trigger] heads[k]).1 > 0 by {
            if k < all_heads(front).len() {
                assert(heads[k] == all_heads(front)[k]);
            } else {
                let i = k - all_heads(front).len();
                assert(heads[k] == table_heads(last.name@, last.rows@)[i]);
                assert(last.rows@[i]@.len() > 0);
            }
        }
    }
}

/// Once every function is cleared, the terms of the tables can be evaluated and
/// their rows inserted.
pub open spec fn is_restorable(egraph: egglog::EGraph, tables: Seq<ExtractedTable>) -> bool {
    forall|cleared: egglog::EGraph| #[trigger]
        reaches(egraph, clearings(function_names_of(egraph)), cleared) ==> {
            &&& terms_run(cleared, all_terms(tables))
            &&& forall|asked: Seq<Call>, rows: Seq<KeptRow>, middle: egglog::EGraph|
                {
                    &&& have_heads(egraph, rows, all_heads(tables))
                    &&& #[trigger] gave_values(all_terms(tables), asked, kept_values(rows))
                    &&& #[trigger] reaches(cleared, asked, middle)
                } ==> accepts(middle, rows)
        }
}

/// Clears every function, and inserts only the rows of the tables again.
pub fn restore(egraph: &mut egglog::EGraph, tables: Vec<ExtractedTable>) -> (result: Result<
    Kept,
    egglog::Error,
>)
    requires
        forall|t: int| 0 <= t < tables@.len() ==> (#[trigger] tables@[t]).wf(),
        owns_tables(*old(egraph)),
        is_restorable(*old(egraph), tables@),
    ensures
        match result {
            Ok(kept) => kept.tables@ == tables@ && is_restored(
                *old(egraph),
                *final(egraph),
                kept,
            ),
            Err(_) => {
                ||| term_refused(*old(egraph), *final(egraph), tables@)
                ||| rows_refused(*old(egraph), *final(egraph), tables@)
                ||| is_unbound(*old(egraph), tables@)
            },
        },
{
    let ghost base = *egraph;
    match clear_all(egraph) {
        Ok(_) => {},
        Err(error) => {
            return Err(error);
        },
    }
    let ghost cleared = *egraph;
    let answer = reevaluate(egraph, &tables);
    let ghost asked = calls(*egraph).skip(calls(cleared).len() as int);
    assert(calls(*egraph) =~= cleared_calls(base) + asked);
    let rows = match answer {
        Ok(rows) => rows,
        Err(error) => {
            proof {
                if gave_out(all_terms(tables@), asked) {
                    assert(term_refused(base, *egraph, tables@));
                } else {
                    let t = choose|t: int|
                        0 <= t < tables@.len() && function_sorts_of(
                            cleared,
                            (#[trigger] tables@[t]).name@,
                        ) is None;
                    assert(function_sorts_of(cleared, tables@[t].name@) == function_sorts_of(
                        base,
                        tables@[t].name@,
                    ));
                }
            }
            return Err(error);
        },
    };
    proof {
        assert(have_heads(base, rows@, all_heads(tables@))) by {
            let heads = all_heads(tables@);
            assert forall|k: int| 0 <= k < rows@.len() implies is_constructor_table(
                base,
                (#[trigger] heads[k]).0,
            ) == Some(rows@[k].constructor) by {
                assert(is_constructor_table(cleared, heads[k].0) == is_constructor_table(
                    base,
                    heads[k].0,
                ));
            }
        }
        lemma_rows_have_outputs(tables@);
        assert forall|i: int| 0 <= i < rows@.len() implies (#[trigger] rows@[i]).values@.len()
            > 0 by {
            assert(all_heads(tables@)[i].1 > 0);
        }
        assert(gave_values(all_terms(tables@), asked, kept_values(rows@)));
        assert(reaches(cleared, asked, *egraph));
        assert(accepts(*egraph, rows@));
    }
    match update_with_rows(egraph, &rows) {
        Ok(_) => {},
        Err(error) => {
            assert(rows_refused(base, *egraph, tables@)) by {
                assert(gave_values(all_terms(tables@), asked, kept_values(rows@)));
            }
            return Err(error);
        },
    }
    let kept = Kept { tables, rows };
    proof {
        let classes = choose|classes: Seq<u32>|
            classes.len() == kept.rows@.len() && calls(*egraph) == (cleared_calls(base)
                + asked).push(
                Call::Update(
                    asked_rows(kept.rows@),
                    Some(#[trigger] insertions(kept.rows@, classes)),
                ),
            );
        assert(gave_values(all_terms(kept.tables@), asked, kept_values(kept.rows@)));
        assert(calls(*egraph) == (cleared_calls(base) + asked).push(
            Call::Update(asked_rows(kept.rows@), Some(insertions(kept.rows@, classes))),
        ));
        assert(is_restored(base, *egraph, kept));
    }
    Ok(kept)
}

/// The command can be run on the arguments: they can be evaluated, what they name can
/// be extracted, and its rows can be restored.
pub open spec fn can_keep(before: egglog::EGraph, args: Seq<egglog::ast::Expr>) -> bool {
    let own = args.take(leading(args));
    &&& !is_unknown(args) ==> can_evaluate(before, own)
    &&& selected(args) is None ==> {
        &&& forall|middle: egglog::EGraph, names: Seq<Seq<char>>| #[trigger]
            names_known(before, middle, own, names) ==> are_cheap(middle, names)
        &&& forall|middle: egglog::EGraph, tables: Seq<ExtractedTable>| #[trigger]
            is_collected(before, middle, own, tables) ==> is_restorable(middle, tables)
    }
}

/// The `keep-best` command.
///
/// For every row in the named tables, the command extracts the best term for
/// each value. It then **clears every function in the e-graph** and reinserts
/// only the extracted rows from the named tables.
pub struct KeepBestCommand;

impl KeepBestCommand {
    /// Runs the command on its arguments, which name the tables.
    pub fn update(&self, egraph: &mut egglog::EGraph, args: &[egglog::ast::Expr]) -> (result: Result<
        Outcome,
        Refusal,
    >)
        requires
            owns_tables(*old(egraph)),
            can_keep(*old(egraph), args@),
        ensures
            ({
                let before = *old(egraph);
                let after = *final(egraph);
                let own = args@.take(leading(args@));
                match selected(args@) {
                    Some(name) => if name == "greedy-dag"@ {
                        match result {
                            Ok(Outcome::Greedy(names)) => names_known(
                                before,
                                after,
                                own,
                                texts(names@),
                            ),
                            Ok(Outcome::Kept(_)) => false,
                            Err(refusal) => argument_refused(before, after, own, refusal),
                        }
                    } else {
                        &&& after == before
                        &&& result matches Err(Refusal::UnknownExtractor(unknown))
                        &&& unknown@ == name
                    },
                    None => match result {
                        Ok(Outcome::Kept(kept)) => is_kept(before, after, own, kept),
                        Ok(Outcome::Greedy(_)) => false,
                        Err(refusal) => {
                            ||| argument_refused(before, after, own, refusal)
                            ||| table_refused(before, after, own, refusal)
                            ||| refusal is Engine && restoring_refused(before, after, own)
                        },
                    },
                }
            }),
    {
        let ghost base = *egraph;
        let ghost own = args@.take(leading(args@));
        let (names, greedy) = match prepare(egraph, args) {
            Ok(prepared) => prepared,
            Err(refusal) => {
                return Err(refusal);
            },
        };
        if greedy {
            return Ok(Outcome::Greedy(names));
        }
        let ghost middle = *egraph;
        assert(names_known(base, middle, own, texts(names@)));
        let tables = match collect_and_extract(egraph, &names) {
            Ok(tables) => tables,
            Err(refusal) => {
                assert(table_refused(base, middle, own, refusal));
                return Err(refusal);
            },
        };
        let ghost extracted = tables@;
        proof {
            assert(table_names(tables@) =~= texts(names@));
            assert(is_collected(base, middle, own, tables@));
            assert forall|t: int| 0 <= t < tables@.len() implies (#[trigger] tables@[t]).wf() by {
                lemma_extracted_is_wf(middle, tables@[t]);
            }
            assert forall|t: int| 0 <= t < tables@.len() implies function_sorts_of(
                middle,
                (#[trigger] tables@[t]).name@,
            ) is Some by {
                assert(is_extracted(middle, tables@[t]));
            }
        }
        match restore(egraph, tables) {
            Ok(kept) => {
                assert(is_collected(base, middle, own, kept.tables@));
                Ok(Outcome::Kept(kept))
            },
            Err(error) => {
                assert(is_collected(base, middle, own, extracted));
                assert(restoring_refused(base, *egraph, own));
                Err(Refusal::Engine(error))
            },
        }
    }
}

pub(crate) proof fn lemma_extracted_is_wf(egraph: egglog::EGraph, table: ExtractedTable)
    requires
        is_extracted(egraph, table),
    ensures
        table.wf(),
{
    let rows = rows_of(egraph, table.name@);
    assert forall|i: int| 0 <= i < table.rows@.len() implies (#[trigger] table.rows@[i])@.len()
        > 0 by {
        assert(table.rows@[i]@.len() == rows[i].len());
        assert(rows[i] == whole_row(entries_of(egraph, table.name@)[i]));
    }
}

} // verus!

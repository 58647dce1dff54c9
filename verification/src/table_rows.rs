//! Rows of tables, whatever their subtype.
//!
//! Table scans are split by subtype: one for functions, one for constructors
//! and relations. Commands that treat both alike read whole rows here: the
//! inputs followed by the output or e-class column.

use vstd::prelude::*;
use crate::engine::{
    constructor_rows, constructor_rows_of, entry_views, function_rows, function_rows_of,
    function_sorts_of, has_sort, is_constructor_table, owns_tables, probe_table, row_has_sorts,
    rows_have_sorts, Probe,
};

verus! {

/// Whether the table is a constructor's or relation's rather than a
/// function's.
pub fn is_constructor(egraph: &egglog::EGraph, name: &str) -> (result: Result<bool, egglog::Error>)
    requires
        owns_tables(*egraph),
    ensures
        match result {
            Ok(yes) => is_constructor_table(*egraph, name@) == Some(yes),
            Err(_) => is_constructor_table(*egraph, name@) is None,
        },
        function_sorts_of(*egraph, name@) is Some ==> result is Ok,
{
    match probe_table(egraph, name) {
        Probe::Constructor => Ok(true),
        Probe::WrongSubtype => Ok(false),
        Probe::Failed(error) => Err(error),
    }
}

/// The rows of the table, inputs and output apart.
pub open spec fn entries_of(egraph: egglog::EGraph, name: Seq<char>) -> Seq<(Seq<u32>, u32)> {
    if is_constructor_table(egraph, name) == Some(true) {
        constructor_rows_of(egraph, name)
    } else {
        function_rows_of(egraph, name)
    }
}

/// A row with all its columns in the order of the table.
pub open spec fn whole_row(entry: (Seq<u32>, u32)) -> Seq<u32> {
    entry.0.push(entry.1)
}

/// The rows of the table.
pub open spec fn rows_of(egraph: egglog::EGraph, name: Seq<char>) -> Seq<Seq<u32>> {
    entries_of(egraph, name).map_values(|entry: (Seq<u32>, u32)| whole_row(entry))
}

/// What a list of rows says.
pub open spec fn row_views(rows: Seq<Vec<u32>>) -> Seq<Seq<u32>> {
    rows.map_values(|row: Vec<u32>| row@)
}

/// The sorts of all columns of the table.
pub open spec fn column_sorts(
    sorts: (Seq<egglog::ResolvedVar>, egglog::ResolvedVar),
) -> Seq<egglog::ResolvedVar> {
    sorts.0.push(sorts.1)
}

/// The columns of the row have the given sorts.
pub open spec fn columns_have_sorts(
    egraph: egglog::EGraph,
    sorts: Seq<egglog::ResolvedVar>,
    row: Seq<u32>,
) -> bool {
    &&& row.len() == sorts.len()
    &&& forall|j: int| 0 <= j < row.len() ==> has_sort(egraph, sorts[j], #[trigger] row[j])
}

/// Reads the rows of a table, all columns in the order of the table. It is an
/// error that there is no table of the name.
pub fn read_rows(egraph: &egglog::EGraph, name: &str) -> (result: Result<
    Vec<Vec<u32>>,
    egglog::Error,
>)
    requires
        owns_tables(*egraph),
    ensures
        result is Ok <==> is_constructor_table(*egraph, name@) is Some,
        function_sorts_of(*egraph, name@) is Some ==> result is Ok,
        result matches Ok(rows) ==> {
            &&& row_views(rows@) == rows_of(*egraph, name@)
            &&& function_sorts_of(*egraph, name@) matches Some(sorts) ==> forall|i: int|
                0 <= i < rows@.len() ==> columns_have_sorts(
                    *egraph,
                    column_sorts(sorts),
                    #[trigger] rows@[i]@,
                )
        },
{
    let constructor = match is_constructor(egraph, name) {
        Ok(constructor) => constructor,
        Err(error) => {
            return Err(error);
        },
    };
    let entries = if constructor {
        match constructor_rows(egraph, name) {
            Ok(entries) => entries,
            Err(error) => {
                return Err(error);
            },
        }
    } else {
        match function_rows(egraph, name) {
            Ok(entries) => entries,
            Err(error) => {
                return Err(error);
            },
        }
    };
    let ghost views = entry_views(entries@);
    assert(views == entries_of(*egraph, name@));
    let mut rows: Vec<Vec<u32>> = Vec::new();
    for i in 0..entries.len()
        invariant
            views == entry_views(entries@),
            rows@.len() == i,
            forall|k: int| 0 <= k < i ==> #[trigger] rows@[k]@ == whole_row(views[k]),
    {
        let mut row: Vec<u32> = entries[i].0.clone();
        assert(row@ =~= entries@[i as int].0@);
        row.push(entries[i].1);
        rows.push(row);
    }
    proof {
        assert(row_views(rows@) =~= rows_of(*egraph, name@));
        if let Some(sorts) = function_sorts_of(*egraph, name@) {
            assert forall|i: int| 0 <= i < rows@.len() implies columns_have_sorts(
                *egraph,
                column_sorts(sorts),
                #[trigger] rows@[i]@,
            ) by {
                assert(rows_have_sorts(*egraph, name@, views));
                assert(row_has_sorts(*egraph, sorts, views[i]));
                let row = rows@[i]@;
                assert forall|j: int| 0 <= j < row.len() implies has_sort(
                    *egraph,
                    column_sorts(sorts)[j],
                    #[trigger] row[j],
                ) by {
                    if j < row.len() - 1 {
                        assert(row[j] == views[i].0[j]);
                    }
                }
            }
        }
    }
    Ok(rows)
}

/// The columns of a row are the inputs of an entry of the table, and then its output or
/// e-class. There is a row for each entry, in the same order: for a constructor or a
/// relation those of the constructor scan, for a function those of the function scan.
pub proof fn lemma_rows_are_entries(egraph: egglog::EGraph, name: Seq<char>, i: int)
    requires
        0 <= i < rows_of(egraph, name).len(),
    ensures
        is_constructor_table(egraph, name) == Some(true) ==> {
            &&& rows_of(egraph, name).len() == constructor_rows_of(egraph, name).len()
            &&& rows_of(egraph, name)[i] == constructor_rows_of(egraph, name)[i].0
                + seq![constructor_rows_of(egraph, name)[i].1]
        },
        is_constructor_table(egraph, name) == Some(false) ==> {
            &&& rows_of(egraph, name).len() == function_rows_of(egraph, name).len()
            &&& rows_of(egraph, name)[i] == function_rows_of(egraph, name)[i].0
                + seq![function_rows_of(egraph, name)[i].1]
        },
{
    let entry = entries_of(egraph, name)[i];
    assert(rows_of(egraph, name)[i] == whole_row(entry));
    assert(whole_row(entry) =~= entry.0 + seq![entry.1]);
}

} // verus!

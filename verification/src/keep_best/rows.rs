//! How the rows that `keep-best` keeps follow from the tables.

use vstd::prelude::*;
use crate::dag_print::{nodes, Node};
use crate::engine::{
    additive_costs, all_cheapest, calls, cheapest, evaluations, function_names_of,
    function_sorts_of, is_constructor_table, root_sorts, stopped_at, string_of, Call, Costs,
};
use crate::keep_best::{
    all_heads, all_terms, argument_refused, asked_rows, best_cells, cells, cleared_calls, clearings,
    first_flaw, flaw, gave_out, gave_value, gave_values, have_heads, have_outputs, id_views,
    insertion, insertions, is_assembled, is_collected, is_extracted, is_kept, is_restored,
    is_roots_of, kept_values, lemma_extracted_is_wf, lemma_rows_have_outputs, names_evaluated,
    names_known, rows_refused, table_heads, table_names, table_refused, tells, tells_first_flaw,
    term_refused, terms_at, without_costs, ExtractedTable, Kept, KeptRow, Refusal, TableRoots,
};
use crate::lists::{flattened, held_before, lemma_flattened_at, lemma_held_before};
use crate::subst::state::{sort_name, Edit};
use crate::table_rows::{column_sorts, rows_of};

verus! {

/// How many rows the first tables hold.
pub open spec fn rows_before(tables: Seq<ExtractedTable>, t: int) -> nat
    decreases t,
{
    if t <= 0 {
        0
    } else {
        rows_before(tables, t - 1) + tables[t - 1].rows@.len()
    }
}

/// The terms of each row of a table.
spec fn own_terms(table: ExtractedTable) -> Seq<Seq<(Seq<Node>, usize)>> {
    Seq::new(table.rows@.len(), |i: int| terms_at(nodes(table.dag), table.rows@[i]@))
}

/// The terms of each row, table by table.
spec fn row_terms(tables: Seq<ExtractedTable>) -> Seq<Seq<(Seq<Node>, usize)>>
    decreases tables.len(),
{
    if tables.len() == 0 {
        Seq::empty()
    } else {
        row_terms(tables.drop_last()) + own_terms(tables.last())
    }
}

proof fn lemma_rows_before_front(tables: Seq<ExtractedTable>, t: int)
    requires
        0 <= t < tables.len(),
    ensures
        rows_before(tables.drop_last(), t) == rows_before(tables, t),
    decreases t,
{
    if t > 0 {
        lemma_rows_before_front(tables, t - 1);
    }
}

proof fn lemma_flattened_own(
    front: Seq<Seq<(Seq<Node>, usize)>>,
    table: ExtractedTable,
    count: int,
)
    requires
        0 <= count <= table.rows@.len(),
    ensures
        flattened(front + own_terms(table).take(count)) == flattened(front) + terms_at(
            nodes(table.dag),
            flattened(id_views(table.rows@.take(count))),
        ),
    decreases count,
{
    let list = nodes(table.dag);
    let rows = table.rows@.take(count);
    let all = front + own_terms(table).take(count);
    if count == 0 {
        assert(all =~= front);
        assert(terms_at(list, flattened(id_views(rows))) =~= Seq::<(Seq<Node>, usize)>::empty());
    } else {
        lemma_flattened_own(front, table, count - 1);
        assert(all.drop_last() =~= front + own_terms(table).take(count - 1));
        assert(all.last() == terms_at(list, table.rows@[count - 1]@));
        assert(id_views(rows).drop_last() =~= id_views(table.rows@.take(count - 1)));
        assert(id_views(rows).last() == table.rows@[count - 1]@);
        assert(flattened(all) =~= flattened(front) + terms_at(list, flattened(id_views(rows))));
    }
}

proof fn lemma_row_terms(tables: Seq<ExtractedTable>)
    ensures
        flattened(row_terms(tables)) == all_terms(tables),
        row_terms(tables).len() == rows_before(tables, tables.len() as int),
        all_heads(tables).len() == row_terms(tables).len(),
        forall|k: int|
            0 <= k < row_terms(tables).len() ==> (#[trigger] row_terms(tables)[k]).len()
                == all_heads(tables)[k].1,
    decreases tables.len(),
{
    if tables.len() > 0 {
        let front = tables.drop_last();
        let last = tables.last();
        let own = own_terms(last);
        lemma_row_terms(front);
        lemma_flattened_own(row_terms(front), last, last.rows@.len() as int);
        assert(own.take(last.rows@.len() as int) =~= own);
        assert(last.rows@.take(last.rows@.len() as int) =~= last.rows@);
        lemma_rows_before_front(tables, tables.len() - 1);
        let all = row_terms(tables);
        let heads = all_heads(tables);
        assert forall|k: int| 0 <= k < all.len() implies (#[trigger] all[k]).len()
            == heads[k].1 by {
            let before = row_terms(front).len();
            if k < before {
                assert(all[k] == row_terms(front)[k]);
                assert(heads[k] == all_heads(front)[k]);
            } else {
                assert(all[k] == own[k - before]);
                assert(heads[k] == table_heads(last.name@, last.rows@)[k - before]);
            }
        }
    }
}

proof fn lemma_row_terms_at(tables: Seq<ExtractedTable>, t: int, i: int)
    requires
        0 <= t < tables.len(),
        0 <= i < tables[t].rows@.len(),
    ensures
        rows_before(tables, t) + i < row_terms(tables).len(),
        row_terms(tables)[rows_before(tables, t) + i] == terms_at(
            nodes(tables[t].dag),
            tables[t].rows@[i]@,
        ),
        all_heads(tables)[rows_before(tables, t) + i].0 == tables[t].name@,
    decreases tables.len(),
{
    let front = tables.drop_last();
    let k = rows_before(tables, t) + i;
    lemma_row_terms(front);
    lemma_rows_before_front(tables, t);
    if t < front.len() {
        lemma_row_terms_at(front, t, i);
        assert(row_terms(tables)[k] == row_terms(front)[k]);
        assert(all_heads(tables)[k] == all_heads(front)[k]);
    } else {
        assert(row_terms(tables)[k] == own_terms(tables[t])[i]);
        assert(all_heads(tables)[k] == table_heads(tables[t].name@, tables[t].rows@)[i]);
    }
}

/// Some call evaluated the term to the value.
pub open spec fn was_given(asked: Seq<Call>, list: Seq<Node>, id: usize, value: u32) -> bool {
    exists|q: int| 0 <= q < asked.len() && gave_value(list, id, #[trigger] asked[q], value)
}

/// The row is one of the table, and each of its columns is what the term
/// extracted for it evaluated to.
pub open spec fn stands_for(row: KeptRow, table: ExtractedTable, i: int, asked: Seq<Call>) -> bool {
    &&& row.table@ == table.name@
    &&& row.values@.len() == table.rows@[i]@.len()
    &&& forall|j: int|
        0 <= j < row.values@.len() ==> was_given(
            asked,
            nodes(table.dag),
            table.rows@[i]@[j],
            #[trigger] row.values@[j],
        )
}

proof fn lemma_row_stands(
    egraph: egglog::EGraph,
    tables: Seq<ExtractedTable>,
    rows: Seq<KeptRow>,
    asked: Seq<Call>,
    t: int,
    i: int,
)
    requires
        have_heads(egraph, rows, all_heads(tables)),
        gave_values(all_terms(tables), asked, kept_values(rows)),
        0 <= t < tables.len(),
        0 <= i < tables[t].rows@.len(),
    ensures
        stands_for(rows[rows_before(tables, t) + i], tables[t], i, asked),
{
    lemma_row_terms(tables);
    lemma_row_terms_at(tables, t, i);
    let lists = row_terms(tables);
    let columns = rows.map_values(|row: KeptRow| row.values@);
    assert forall|k: int| 0 <= k < lists.len() implies (#[trigger] lists[k]).len()
        == columns[k].len() by {
        assert(rows[k].values@.len() == all_heads(tables)[k].1);
    }
    let k = rows_before(tables, t) + i;
    let row = rows[k];
    let list = nodes(tables[t].dag);
    let ids = tables[t].rows@[i]@;
    assert(columns[k] == row.values@);
    assert(lists[k].len() == ids.len());
    lemma_held_before(lists, columns, k);
    assert forall|j: int| 0 <= j < row.values@.len() implies was_given(
        asked,
        list,
        ids[j],
        #[trigger] row.values@[j],
    ) by {
        let q = held_before(lists, k) + j;
        lemma_flattened_at(lists, k, j);
        lemma_flattened_at(columns, k, j);
        assert(lists[k][j] == (list, ids[j]));
        assert(all_terms(tables)[q] == (list, ids[j]));
        assert(kept_values(rows)[q] == row.values@[j]);
        assert(gave_value(list, ids[j], asked[q], row.values@[j]));
    }
}

/// Each row of the named tables is kept exactly once, table by table in the
/// order of the rows, and no other row is.
pub proof fn lemma_each_row_is_kept_once(
    before: egglog::EGraph,
    middle: egglog::EGraph,
    args: Seq<egglog::ast::Expr>,
    tables: Seq<ExtractedTable>,
    rows: Seq<KeptRow>,
    asked: Seq<Call>,
)
    requires
        is_collected(before, middle, args, tables),
        have_heads(middle, rows, all_heads(tables)),
        gave_values(all_terms(tables), asked, kept_values(rows)),
    ensures
        rows.len() == rows_before(tables, tables.len() as int),
        forall|t: int|
            0 <= t < tables.len() ==> (#[trigger] tables[t]).rows@.len() == rows_of(
                middle,
                tables[t].name@,
            ).len(),
        forall|t: int, i: int|
            0 <= t < tables.len() && 0 <= i < tables[t].rows@.len() ==> #[trigger] stands_for(
                rows[rows_before(tables, t) + i],
                tables[t],
                i,
                asked,
            ),
{
    lemma_row_terms(tables);
    assert forall|t: int| 0 <= t < tables.len() implies (#[trigger] tables[t]).rows@.len()
        == rows_of(middle, tables[t].name@).len() by {
        assert(is_extracted(middle, tables[t]));
    }
    assert forall|t: int, i: int|
        0 <= t < tables.len() && 0 <= i < tables[t].rows@.len() implies #[trigger] stands_for(
        rows[rows_before(tables, t) + i],
        tables[t],
        i,
        asked,
    ) by {
        lemma_row_stands(middle, tables, rows, asked, t, i);
    }
}

/// What was written puts the row back: a row of a function with its value, and a row of
/// a constructor in the e-class of its output.
pub open spec fn puts_back(written: Seq<Edit>, row: KeptRow) -> bool {
    let inputs = row.values@.take(row.values@.len() - 1);
    let output = row.values@[row.values@.len() - 1];
    if row.constructor {
        exists|class: u32|
            {
                &&& #[trigger] written.contains(Edit::Add(row.table@, inputs, class))
                &&& class == output || written.contains(Edit::Union(class, output))
            }
    } else {
        written.contains(Edit::Assign(row.table@, inputs, output))
    }
}

/// The edit puts one of the rows back.
pub open spec fn is_for_row(edit: Edit, row: KeptRow, class: u32) -> bool {
    let inputs = row.values@.take(row.values@.len() - 1);
    let output = row.values@[row.values@.len() - 1];
    if row.constructor {
        edit == Edit::Add(row.table@, inputs, class) || edit == Edit::Union(class, output)
    } else {
        edit == Edit::Assign(row.table@, inputs, output)
    }
}

/// Every row is put back, in the e-class of its output if it is a constructor's, and
/// nothing else is written.
pub proof fn lemma_rows_are_put_back(rows: Seq<KeptRow>, classes: Seq<u32>)
    requires
        have_outputs(rows),
        classes.len() == rows.len(),
    ensures
        forall|i: int| 0 <= i < rows.len() ==> puts_back(insertions(rows, classes), #[trigger] rows[i]),
        forall|edit: Edit| #[trigger]
            insertions(rows, classes).contains(edit) ==> exists|i: int|
                0 <= i < rows.len() && is_for_row(edit, #[trigger] rows[i], classes[i]),
    decreases rows.len(),
{
    if rows.len() > 0 {
        let front = rows.drop_last();
        let fewer = classes.drop_last();
        assert forall|i: int| 0 <= i < front.len() implies (#[trigger] front[i]).values@.len()
            > 0 by {
            assert(rows[i].values@.len() > 0);
        }
        lemma_rows_are_put_back(front, fewer);
        let last = rows.len() - 1;
        let row = rows[last];
        let class = classes[last];
        assert(rows[last].values@.len() > 0);
        assert(row.values@.drop_last() =~= row.values@.take(row.values@.len() - 1));
        let inputs = row.values@.take(row.values@.len() - 1);
        let output = row.values@[row.values@.len() - 1];
        let left = insertions(front, fewer);
        let right = insertion(row, class);
        let all = insertions(rows, classes);
        assert(all == left + right);
        assert forall|edit: Edit| left.contains(edit) implies #[trigger] all.contains(edit) by {
            assert(all[left.index_of(edit)] == edit);
        }
        assert forall|edit: Edit| right.contains(edit) implies #[trigger] all.contains(edit) by {
            assert(all[left.len() + right.index_of(edit)] == edit);
        }
        if row.constructor {
            assert(right[0] == Edit::Add(row.table@, inputs, class));
            assert(right.contains(Edit::Add(row.table@, inputs, class)));
            assert(right[1] == Edit::Union(class, output));
            assert(right.contains(Edit::Union(class, output)));
            assert(all.contains(Edit::Add(row.table@, inputs, class)));
            assert(all.contains(Edit::Union(class, output)));
        } else {
            assert(right[0] == Edit::Assign(row.table@, inputs, output));
            assert(right.contains(Edit::Assign(row.table@, inputs, output)));
        }
        assert forall|i: int| 0 <= i < rows.len() implies puts_back(all, #[trigger] rows[i]) by {
            if i < last {
                assert(front[i] == rows[i]);
                assert(puts_back(left, front[i]));
                let kept = rows[i];
                if kept.constructor {
                    let own = kept.values@.take(kept.values@.len() - 1);
                    let out = kept.values@[kept.values@.len() - 1];
                    let c = choose|c: u32|
                        {
                            &&& #[trigger] left.contains(Edit::Add(kept.table@, own, c))
                            &&& c == out || left.contains(Edit::Union(c, out))
                        };
                    assert(all.contains(Edit::Add(kept.table@, own, c)));
                    if c != out {
                        assert(all.contains(Edit::Union(c, out)));
                    }
                }
            }
        }
        assert forall|edit: Edit| #[trigger] all.contains(edit) implies exists|i: int|
            0 <= i < rows.len() && is_for_row(edit, #[trigger] rows[i], classes[i]) by {
            let k = all.index_of(edit);
            if k < left.len() {
                assert(left[k] == edit);
                assert(left.contains(edit));
                let i = choose|i: int|
                    0 <= i < front.len() && is_for_row(edit, #[trigger] front[i], fewer[i]);
                assert(rows[i] == front[i]);
                assert(classes[i] == fewer[i]);
            } else {
                assert(right[k - left.len()] == edit);
                assert(is_for_row(edit, rows[last], classes[last]));
            }
        }
    }
}

/// The last that was asked of the e-graph is that the rows be inserted, which put every
/// one of them back and wrote nothing else.
pub open spec fn ends_in_rows(after: egglog::EGraph, rows: Seq<KeptRow>, written: Seq<Edit>) -> bool {
    &&& calls(after).len() > 0
    &&& calls(after).last() matches Call::Update(_, Some(log))
    &&& log == written
    &&& forall|i: int| 0 <= i < rows.len() ==> puts_back(written, #[trigger] rows[i])
    &&& forall|edit: Edit| #[trigger]
        written.contains(edit) ==> exists|i: int, class: u32|
            0 <= i < rows.len() && #[trigger] is_for_row(edit, rows[i], class)
}

/// `keep-best` keeps each row of the named tables and no other. Once the tables are
/// extracted, every function is cleared, by its name; then the terms of the rows are
/// evaluated again, in order; then each row is put back with the values that they gave,
/// a row of a constructor in the e-class of its output.
pub proof fn lemma_keep_best_keeps_the_rows(
    before: egglog::EGraph,
    after: egglog::EGraph,
    args: Seq<egglog::ast::Expr>,
    kept: Kept,
)
    requires
        is_kept(before, after, args, kept),
    ensures
        exists|middle: egglog::EGraph, asked: Seq<Call>, written: Seq<Edit>|
            {
                &&& #[trigger] is_collected(before, middle, args, kept.tables@)
                &&& #[trigger] follows_clearing(middle, after, asked)
                &&& #[trigger] ends_in_rows(after, kept.rows@, written)
                &&& kept.rows@.len() == rows_before(kept.tables@, kept.tables@.len() as int)
                &&& forall|t: int, i: int|
                    0 <= t < kept.tables@.len() && 0 <= i < kept.tables@[t].rows@.len()
                        ==> #[trigger] stands_for(
                        kept.rows@[rows_before(kept.tables@, t) + i],
                        kept.tables@[t],
                        i,
                        asked,
                    )
                &&& forall|k: int|
                    0 <= k < kept.rows@.len() ==> is_constructor_table(
                        middle,
                        (#[trigger] kept.rows@[k]).table@,
                    ) == Some(kept.rows@[k].constructor)
            },
{
    let middle = choose|middle: egglog::EGraph| #[trigger]
        is_collected(before, middle, args, kept.tables@) && is_restored(middle, after, kept);
    let (asked, classes) = choose|asked: Seq<Call>, classes: Seq<u32>|
        {
            &&& have_heads(middle, kept.rows@, all_heads(kept.tables@))
            &&& #[trigger] gave_values(all_terms(kept.tables@), asked, kept_values(kept.rows@))
            &&& calls(after) == (cleared_calls(middle) + asked).push(
                Call::Update(
                    asked_rows(kept.rows@),
                    Some(#[trigger] insertions(kept.rows@, classes)),
                ),
            )
            &&& classes.len() == kept.rows@.len()
        };
    let written = insertions(kept.rows@, classes);
    assert forall|t: int| 0 <= t < kept.tables@.len() implies (#[trigger] kept.tables@[t]).wf() by {
        lemma_extracted_is_wf(middle, kept.tables@[t]);
    }
    lemma_rows_have_outputs(kept.tables@);
    assert forall|i: int| 0 <= i < kept.rows@.len() implies (#[trigger] kept.rows@[i]).values@.len()
        > 0 by {
        assert(all_heads(kept.tables@)[i].1 > 0);
    }
    lemma_rows_are_put_back(kept.rows@, classes);
    lemma_each_row_is_kept_once(before, middle, args, kept.tables@, kept.rows@, asked);
    assert forall|edit: Edit| #[trigger] written.contains(edit) implies exists|
        i: int,
        class: u32,
    | 0 <= i < kept.rows@.len() && #[trigger] is_for_row(edit, kept.rows@[i], class) by {
        let i = choose|i: int|
            0 <= i < kept.rows@.len() && is_for_row(edit, #[trigger] kept.rows@[i], classes[i]);
        assert(is_for_row(edit, kept.rows@[i], classes[i]));
    }
    assert(ends_in_rows(after, kept.rows@, written));
    let names = function_names_of(middle);
    let log = calls(after).skip(calls(middle).len() as int);
    assert(log =~= clearings(names) + asked.push(calls(after).last()));
    assert forall|k: int| 0 <= k < names.len() implies log[k] == Call::Clear(
        #[trigger] names[k],
        true,
    ) by {}
    assert(calls(middle).is_prefix_of(calls(after)));
    assert(log.subrange(names.len() as int, log.len() - 1) =~= asked);
    assert(follows_clearing(middle, after, asked));
}

/// Each function was cleared, by its name, and then this was asked, and then one thing
/// more.
pub open spec fn follows_clearing(middle: egglog::EGraph, after: egglog::EGraph, asked: Seq<Call>) -> bool {
    let names = function_names_of(middle);
    let log = calls(after).skip(calls(middle).len() as int);
    &&& calls(middle).is_prefix_of(calls(after))
    &&& log.len() == names.len() + asked.len() + 1
    &&& forall|k: int| 0 <= k < names.len() ==> log[k] == Call::Clear(#[trigger] names[k], true)
    &&& log.subrange(names.len() as int, log.len() - 1) == asked
}

proof fn lemma_cheapest_at(
    costs: Costs,
    egraph: egglog::EGraph,
    roots: Seq<(egglog::ResolvedVar, u32)>,
    k: int,
)
    requires
        0 <= k < roots.len(),
    ensures
        all_cheapest(costs, egraph, roots).1.len() == roots.len(),
        all_cheapest(costs, egraph, roots).1[k] == cheapest(
            costs,
            egraph,
            all_cheapest(costs, egraph, roots.take(k)).0,
            roots[k].0,
            roots[k].1,
        ).0,
    decreases roots.len(),
{
    let front = roots.drop_last();
    lemma_cheapest_len(costs, egraph, front);
    lemma_cheapest_len(costs, egraph, roots);
    if k < roots.len() - 1 {
        lemma_cheapest_at(costs, egraph, front, k);
        assert(front.take(k) =~= roots.take(k));
        assert(front[k] == roots[k]);
    } else {
        assert(roots.take(k) =~= front);
    }
}

proof fn lemma_cheapest_len(
    costs: Costs,
    egraph: egglog::EGraph,
    roots: Seq<(egglog::ResolvedVar, u32)>,
)
    ensures
        all_cheapest(costs, egraph, roots).1.len() == roots.len(),
    decreases roots.len(),
{
    if roots.len() > 0 {
        lemma_cheapest_len(costs, egraph, roots.drop_last());
    }
}

proof fn lemma_cell_at(rows: Seq<Seq<u32>>, sorts: Seq<egglog::ResolvedVar>, i: int, j: int)
    requires
        0 <= i < rows.len(),
        0 <= j < rows[i].len(),
    ensures
        held_before(rows, i) + j < cells(rows, sorts).len(),
        cells(rows, sorts)[held_before(rows, i) + j] == (sorts[j], rows[i][j]),
        cells(rows, sorts).len() == flattened(rows).len(),
    decreases rows.len(),
{
    let front = rows.drop_last();
    lemma_cells_len(front, sorts);
    lemma_cells_len(rows, sorts);
    if i < rows.len() - 1 {
        lemma_cell_at(front, sorts, i, j);
        assert(front.take(i) =~= rows.take(i));
        assert(front[i] == rows[i]);
    } else {
        assert(rows.take(i) =~= front);
    }
}

proof fn lemma_cells_len(rows: Seq<Seq<u32>>, sorts: Seq<egglog::ResolvedVar>)
    ensures
        cells(rows, sorts).len() == flattened(rows).len(),
    decreases rows.len(),
{
    if rows.len() > 0 {
        lemma_cells_len(rows.drop_last(), sorts);
    }
}

/// Each cell of an extracted table has a term of its own: the one that costs least for
/// the value in that row and column, taken as a value of the sort of that column.
pub proof fn lemma_each_cell_has_its_best_term(
    egraph: egglog::EGraph,
    table: ExtractedTable,
    sorts: Seq<egglog::ResolvedVar>,
    output: egglog::ResolvedVar,
    i: int,
    j: int,
)
    requires
        is_extracted(egraph, table),
        function_sorts_of(egraph, table.name@) == Some((sorts, output)),
        0 <= i < rows_of(egraph, table.name@).len(),
        0 <= j < rows_of(egraph, table.name@)[i].len(),
    ensures
        i < table.rows@.len(),
        j < table.rows@[i]@.len(),
        j < sorts.len() ==> is_best_term(
            egraph,
            sorts[j],
            rows_of(egraph, table.name@)[i][j],
            table.rows@[i]@[j],
        ),
        j == sorts.len() ==> is_best_term(
            egraph,
            output,
            rows_of(egraph, table.name@)[i][j],
            table.rows@[i]@[j],
        ),
{
    let columns = column_sorts((sorts, output));
    let rows = rows_of(egraph, table.name@);
    let roots = cells(rows, columns);
    let costs = additive_costs(egraph, root_sorts(roots));
    let ids = id_views(table.rows@);
    assert(table.rows@[i]@.len() == rows[i].len());
    assert forall|k: int| 0 <= k < ids.len() implies (#[trigger] ids[k]).len() == rows[k].len() by {
        assert(table.rows@[k]@.len() == rows[k].len());
    }
    let at = held_before(rows, i) + j;
    lemma_held_before(ids, rows, i);
    lemma_flattened_at(ids, i, j);
    lemma_cell_at(rows, columns, i, j);
    lemma_cheapest_at(costs, egraph, roots, at);
    let found = all_cheapest(costs, egraph, roots).1;
    let terms = best_cells(egraph, roots).1;
    assert(terms[at] == Some(flattened(ids)[at]));
    assert(terms == without_costs(found));
    assert(found[at] is Some);
    let cost = (found[at]->0).0;
    let list = all_cheapest(costs, egraph, roots.take(at)).0;
    if j <= sorts.len() {
        assert(roots[at] == (columns[j], rows[i][j]));
        assert(found[at] == Some((cost, table.rows@[i]@[j])));
        assert(cheapest(costs, egraph, list, columns[j], rows[i][j]).0 == Some(
            (cost, table.rows@[i]@[j]),
        ));
        assert(root_sorts(roots)[at] == columns[j]);
        assert(root_sorts(roots).contains(columns[j]));
        assert(costs_least(
            egraph,
            root_sorts(roots),
            list,
            columns[j],
            rows[i][j],
            cost,
            table.rows@[i]@[j],
        ));
    }
}

/// By the additive cost model, this is the term of least cost for the value, added to a
/// DAG with these terms.
pub open spec fn costs_least(
    egraph: egglog::EGraph,
    all: Seq<egglog::ResolvedVar>,
    list: Seq<Node>,
    sort: egglog::ResolvedVar,
    value: u32,
    cost: u64,
    id: usize,
) -> bool {
    cheapest(additive_costs(egraph, all), egraph, list, sort, value).0 == Some((cost, id))
}

/// By the additive cost model, this is the term of least cost for the value, where the costs
/// were computed for its sort among others.
pub open spec fn is_best_term(
    egraph: egglog::EGraph,
    sort: egglog::ResolvedVar,
    value: u32,
    id: usize,
) -> bool {
    exists|all: Seq<egglog::ResolvedVar>, list: Seq<Node>, cost: u64|
        all.contains(sort) && #[trigger] costs_least(egraph, all, list, sort, value, cost, id)
}

/// The lists are the DAG before the first value, and after each of them: each value has the
/// term of least cost for it, which was added to the DAG that the values before it left.
pub open spec fn are_added(
    costs: Costs,
    egraph: egglog::EGraph,
    roots: Seq<(egglog::ResolvedVar, u32)>,
    terms: Seq<Option<(u64, usize)>>,
    lists: Seq<Seq<Node>>,
) -> bool {
    &&& lists.len() == roots.len() + 1
    &&& lists[0].len() == 0
    &&& terms.len() == roots.len()
    &&& forall|k: int|
        0 <= k < roots.len() ==> cheapest(
            costs,
            egraph,
            lists[k],
            (#[trigger] roots[k]).0,
            roots[k].1,
        ) == (terms[k], lists[k + 1])
}

/// The terms of values are added to one DAG, in the order of the values.
pub proof fn lemma_terms_are_added_in_order(
    costs: Costs,
    egraph: egglog::EGraph,
    roots: Seq<(egglog::ResolvedVar, u32)>,
) -> (lists: Seq<Seq<Node>>)
    ensures
        are_added(costs, egraph, roots, all_cheapest(costs, egraph, roots).1, lists),
        lists.last() == all_cheapest(costs, egraph, roots).0,
    decreases roots.len(),
{
    if roots.len() == 0 {
        seq![Seq::empty()]
    } else {
        let front = roots.drop_last();
        let fewer = lemma_terms_are_added_in_order(costs, egraph, front);
        let (list, terms) = all_cheapest(costs, egraph, roots);
        let lists = fewer.push(list);
        assert forall|k: int| 0 <= k < roots.len() implies cheapest(
            costs,
            egraph,
            lists[k],
            (#[trigger] roots[k]).0,
            roots[k].1,
        ) == (terms[k], lists[k + 1]) by {
            if k < front.len() {
                assert(front[k] == roots[k]);
            }
        }
        lists
    }
}

/// The argument was evaluated to this string.
pub open spec fn names_table(
    call: Call,
    arg: egglog::ast::Expr,
    after: egglog::EGraph,
    name: Seq<char>,
) -> bool {
    &&& call matches Call::Eval(expr, Some(found))
    &&& expr == arg
    &&& sort_name(found.0) == "String"@
    &&& name == string_of(after, found.1)
}

/// Of the e-graph it was asked, since then, that the arguments be evaluated, each in its
/// turn, and nothing else, and each gave the name in its place.
pub open spec fn are_named(
    before: egglog::EGraph,
    after: egglog::EGraph,
    args: Seq<egglog::ast::Expr>,
    names: Seq<Seq<char>>,
) -> bool {
    &&& calls(after).len() == calls(before).len() + args.len()
    &&& calls(before).is_prefix_of(calls(after))
    &&& names.len() == args.len()
    &&& forall|k: int|
        0 <= k < args.len() ==> names_table(
            calls(after)[calls(before).len() + k],
            #[trigger] args[k],
            after,
            names[k],
        )
}

/// The names of the tables are the strings to which the arguments are evaluated, each once and
/// in its turn, and nothing else is asked.
pub proof fn lemma_arguments_give_names(
    before: egglog::EGraph,
    after: egglog::EGraph,
    args: Seq<egglog::ast::Expr>,
    names: Seq<Seq<char>>,
)
    requires
        names_known(before, after, args, names),
    ensures
        are_named(before, after, args, names),
{
    let found = choose|found: Seq<(egglog::ResolvedVar, u32)>| #[trigger]
        names_evaluated(before, after, args, found, names);
    assert forall|k: int| 0 <= k < args.len() implies names_table(
        calls(after)[calls(before).len() + k],
        #[trigger] args[k],
        after,
        names[k],
    ) by {
        assert(calls(after)[calls(before).len() + k] == evaluations(args, found)[k]);
        assert(sort_name(found[k].0) == "String"@);
    }
}

/// The tables that are extracted are those that the arguments name, in their order: each
/// argument is evaluated, once, to the name of its table.
pub proof fn lemma_arguments_name_the_tables(
    before: egglog::EGraph,
    after: egglog::EGraph,
    args: Seq<egglog::ast::Expr>,
    tables: Seq<ExtractedTable>,
)
    requires
        is_collected(before, after, args, tables),
    ensures
        tables.len() == args.len(),
        are_named(before, after, args, table_names(tables)),
        forall|t: int|
            0 <= t < tables.len() ==> names_table(
                calls(after)[calls(before).len() + t],
                args[t],
                after,
                (#[trigger] tables[t]).name@,
            ),
{
    lemma_arguments_give_names(before, after, args, table_names(tables));
    assert forall|t: int| 0 <= t < tables.len() implies names_table(
        calls(after)[calls(before).len() + t],
        args[t],
        after,
        (#[trigger] tables[t]).name@,
    ) by {
        assert(table_names(tables)[t] == tables[t].name@);
        assert(args[t] == args[t]);
    }
}

/// The value in that row and column, taken as a value of the sort of the column, has no
/// term.
pub open spec fn has_no_term(
    egraph: egglog::EGraph,
    name: Seq<char>,
    sorts: (Seq<egglog::ResolvedVar>, egglog::ResolvedVar),
    i: int,
    j: int,
) -> bool {
    let row = rows_of(egraph, name)[i];
    &&& 0 <= i < rows_of(egraph, name).len()
    &&& 0 <= j < row.len()
    &&& exists|all: Seq<egglog::ResolvedVar>, list: Seq<Node>, sort: egglog::ResolvedVar|
        {
            &&& (#[trigger] cheapest(
                additive_costs(egraph, all),
                egraph,
                list,
                sort,
                row[j],
            )).0 is None
            &&& all.contains(sort)
            &&& j < sorts.0.len() ==> sort == sorts.0[j]
            &&& j == sorts.0.len() ==> sort == sorts.1
        }
}

/// The table of the name cannot be extracted, for this reason: there is none, or some value
/// in it has no term.
pub open spec fn is_refused_for(egraph: egglog::EGraph, name: Seq<char>, refusal: Refusal) -> bool {
    match refusal {
        Refusal::UnboundFunction(unbound) => {
            &&& unbound@ == name
            &&& function_sorts_of(egraph, name) is None
        },
        Refusal::NoTerm(table) => {
            &&& table@ == name
            &&& function_sorts_of(egraph, name) matches Some(sorts) && exists|i: int, j: int|
                #[trigger] has_no_term(egraph, name, sorts, i, j)
        },
        _ => false,
    }
}

proof fn lemma_cell_of(rows: Seq<Seq<u32>>, sorts: Seq<egglog::ResolvedVar>, at: int) -> (cell: (
    int,
    int,
))
    requires
        0 <= at < cells(rows, sorts).len(),
    ensures
        0 <= cell.0 < rows.len(),
        0 <= cell.1 < rows[cell.0].len(),
        cells(rows, sorts)[at] == (sorts[cell.1], rows[cell.0][cell.1]),
    decreases rows.len(),
{
    let front = rows.drop_last();
    let before = cells(front, sorts);
    if at < before.len() {
        let cell = lemma_cell_of(front, sorts, at);
        assert(front[cell.0] == rows[cell.0]);
        cell
    } else {
        (rows.len() - 1, at - before.len())
    }
}

/// Where a table is refused, the arguments have been evaluated and nothing else has been
/// asked. It is the first of the named tables that there is none of or that holds a value
/// without a term, and the refusal says which of the two.
pub proof fn lemma_first_flawed_table_is_refused(
    before: egglog::EGraph,
    after: egglog::EGraph,
    args: Seq<egglog::ast::Expr>,
    refusal: Refusal,
)
    requires
        table_refused(before, after, args, refusal),
    ensures
        exists|names: Seq<Seq<char>>, t: int|
            {
                &&& are_named(before, after, args, names)
                &&& 0 <= t < names.len()
                &&& is_refused_for(after, #[trigger] names[t], refusal)
                &&& forall|k: int|
                    0 <= k < t ==> function_sorts_of(after, #[trigger] names[k]) is Some
            },
{
    let names = choose|names: Seq<Seq<char>>| #[trigger]
        names_known(before, after, args, names) && tells_first_flaw(after, names, refusal);
    lemma_arguments_give_names(before, after, args, names);
    let t = choose|i: int| #[trigger]
        first_flaw(after, names, i) && tells(refusal, flaw(after, names[i])->0, names[i]);
    let name = names[t];
    if let Some(sorts) = function_sorts_of(after, name) {
        let columns = column_sorts(sorts);
        let rows = rows_of(after, name);
        let roots = cells(rows, columns);
        let costs = additive_costs(after, root_sorts(roots));
        let terms = best_cells(after, roots).1;
        let at = choose|i: int| 0 <= i < terms.len() && #[trigger] terms[i] is None;
        let found = all_cheapest(costs, after, roots).1;
        lemma_cheapest_len(costs, after, roots);
        assert(terms == without_costs(found));
        assert(found[at] is None);
        lemma_cheapest_at(costs, after, roots, at);
        let (i, j) = lemma_cell_of(rows, columns, at);
        let list = all_cheapest(costs, after, roots.take(at)).0;
        assert(cheapest(costs, after, list, roots[at].0, roots[at].1).0 is None);
        assert(root_sorts(roots)[at] == roots[at].0);
        assert(root_sorts(roots).contains(roots[at].0));
        assert(has_no_term(after, name, sorts, i, j));
    }
    assert(is_refused_for(after, names[t], refusal));
    assert forall|k: int| 0 <= k < t implies function_sorts_of(
        after,
        #[trigger] names[k],
    ) is Some by {
        assert(flaw(after, names[k]) is None);
    }
}

proof fn lemma_held_evenly<T>(lists: Seq<Seq<T>>, width: nat, i: int)
    requires
        0 <= i <= lists.len(),
        forall|k: int| 0 <= k < lists.len() ==> (#[trigger] lists[k]).len() == width,
    ensures
        held_before(lists, i) == i * width,
    decreases i,
{
    if i > 0 {
        lemma_held_evenly(lists, width, i - 1);
        assert(lists.take(i).drop_last() =~= lists.take(i - 1));
        assert(lists.take(i).last() == lists[i - 1]);
        assert((i - 1) * width + width == i * width) by (nonlinear_arith);
    } else {
        assert(0 * width == 0) by (nonlinear_arith);
        assert(lists.take(0) =~= Seq::<Seq<T>>::empty());
    }
}

/// The values of a table are listed row by row, each with the sort of its column.
pub proof fn lemma_values_are_listed_row_by_row(
    egraph: egglog::EGraph,
    table: TableRoots,
    sorts: Seq<egglog::ResolvedVar>,
    output: egglog::ResolvedVar,
    i: int,
    j: int,
)
    requires
        is_roots_of(egraph, table),
        function_sorts_of(egraph, table.name@) == Some((sorts, output)),
        0 <= i < table.count,
        0 <= j < table.width,
    ensures
        table.count == rows_of(egraph, table.name@).len(),
        table.width == sorts.len() + 1,
        0 <= i * table.width + j < table.roots@.len(),
        table.roots@[i * table.width + j].1 == rows_of(egraph, table.name@)[i][j],
        j < sorts.len() ==> table.roots@[i * table.width + j].0 == sorts[j],
        j == sorts.len() ==> table.roots@[i * table.width + j].0 == output,
{
    let rows = rows_of(egraph, table.name@);
    let columns = column_sorts((sorts, output));
    lemma_held_evenly(rows, table.width as nat, i);
    lemma_cell_at(rows, columns, i, j);
}

/// A table is put together row by row: the term in a row and column is the one that was
/// found for the value in that place.
pub proof fn lemma_terms_are_put_in_their_places(
    table: TableRoots,
    dag: egglog::TermDag,
    terms: Seq<Option<usize>>,
    extracted: ExtractedTable,
    i: int,
    j: int,
)
    requires
        is_assembled(table, dag, terms, extracted),
        0 <= i < table.count,
        0 <= j < table.width,
    ensures
        extracted.name@ == table.name@,
        extracted.dag == dag,
        extracted.rows@.len() == table.count,
        extracted.rows@[i]@.len() == table.width,
        0 <= i * table.width + j < terms.len(),
        terms[i * table.width + j] == Some(extracted.rows@[i]@[j]),
{
    let ids = id_views(extracted.rows@);
    assert forall|k: int| 0 <= k < ids.len() implies (#[trigger] ids[k]).len() == table.width by {
        assert(extracted.rows@[k]@.len() == table.width);
    }
    assert(extracted.rows@[i]@.len() == table.width);
    lemma_held_evenly(ids, table.width as nat, i);
    lemma_flattened_at(ids, i, j);
    assert(terms[i * table.width + j] == Some(flattened(ids)[i * table.width + j]));
}

/// Where an argument is refused, those before it have been evaluated, each in its turn, and
/// then this one, and nothing else has been asked. It gave a value that is no string, or
/// none.
pub proof fn lemma_arguments_are_evaluated_up_to_a_refusal(
    before: egglog::EGraph,
    after: egglog::EGraph,
    args: Seq<egglog::ast::Expr>,
    refusal: Refusal,
)
    requires
        argument_refused(before, after, args, refusal),
    ensures
        calls(before).is_prefix_of(calls(after)),
        calls(before).len() < calls(after).len() <= calls(before).len() + args.len(),
        ({
            let log = calls(after).skip(calls(before).len() as int);
            let last = log.len() - 1;
            &&& forall|k: int|
                0 <= k < last ==> ((#[trigger] log[k]) matches Call::Eval(expr, Some(_)) && expr
                    == args[k])
            &&& log[last] matches Call::Eval(expr, end)
            &&& expr == args[last]
            &&& match refusal {
                Refusal::NotAString(i) => {
                    &&& i == last
                    &&& end matches Some(found) && sort_name(found.0)
                        != "String"@
                },
                Refusal::Engine(_) => end is None,
                _ => false,
            }
        }),
{
    let (i, end) = match refusal {
        Refusal::NotAString(i) => {
            let found = choose|found: (egglog::ResolvedVar, u32)|
                sort_name(found.0) != "String"@ && #[trigger] stopped_at(
                    before,
                    after,
                    args,
                    i as int,
                    Some(found),
                );
            (i as int, Some(found))
        },
        _ => {
            let i = choose|i: int| #[trigger] stopped_at(before, after, args, i, None);
            (i, None)
        },
    };
    let found = choose|found: Seq<(egglog::ResolvedVar, u32)>|
        found.len() == i && calls(after) == (calls(before) + #[trigger] evaluations(
            args.take(i),
            found,
        )).push(Call::Eval(args[i], end));
    let log = calls(after).skip(calls(before).len() as int);
    assert(log =~= evaluations(args.take(i), found).push(Call::Eval(args[i], end)));
    assert forall|k: int| 0 <= k < log.len() - 1 implies ((#[trigger] log[k]) matches Call::Eval(
        expr,
        Some(_),
    ) && expr == args[k]) by {
        assert(log[k] == evaluations(args.take(i), found)[k]);
    }
}

/// Where the rows of extracted tables cannot be restored, every function has been cleared,
/// by its name, before any term was evaluated, and the last that was asked failed: the
/// evaluation of a term, or the insertion of the rows.
pub proof fn lemma_restoring_stops_at_an_error(
    before: egglog::EGraph,
    after: egglog::EGraph,
    tables: Seq<ExtractedTable>,
)
    requires
        term_refused(before, after, tables) || rows_refused(before, after, tables),
    ensures
        calls(before).is_prefix_of(calls(after)),
        ({
            let names = function_names_of(before);
            let log = calls(after).skip(calls(before).len() as int);
            let last = log.len() - 1;
            &&& names.len() <= last
            &&& forall|k: int|
                0 <= k < names.len() ==> log[k] == Call::Clear(#[trigger] names[k], true)
            &&& forall|k: int|
                names.len() <= k < last ==> ((#[trigger] log[k]) matches Call::Eval(_, end)
                    && end is Some)
            &&& match log[last] {
                Call::Eval(_, end) => end is None,
                Call::Update(_, written) => written is None,
                _ => false,
            }
        }),
{
    let names = function_names_of(before);
    let log = calls(after).skip(calls(before).len() as int);
    let last = log.len() - 1;
    let all = all_terms(tables);
    if term_refused(before, after, tables) {
        let asked = choose|asked: Seq<Call>| #[trigger]
            gave_out(all, asked) && calls(after) == cleared_calls(before) + asked;
        assert(log =~= clearings(names) + asked);
        let count = asked.len() - 1;
        let values = choose|values: Seq<u32>| #[trigger]
            gave_values(all.take(count), asked.drop_last(), values);
        assert forall|k: int| names.len() <= k < last implies ((#[trigger] log[k]) matches Call::Eval(
            _,
            end,
        ) && end is Some) by {
            let at = k - names.len();
            assert(log[k] == asked.drop_last()[at]);
            assert(gave_value(all.take(count)[at].0, all.take(count)[at].1, log[k], values[at]));
        }
    } else {
        let (asked, rows) = choose|asked: Seq<Call>, rows: Seq<KeptRow>|
            {
                &&& have_heads(before, rows, all_heads(tables))
                &&& #[trigger] gave_values(all, asked, kept_values(rows))
                &&& calls(after) == (cleared_calls(before) + asked).push(
                    Call::Update(asked_rows(rows), None),
                )
            };
        let end = Call::Update(asked_rows(rows), None);
        assert(log =~= clearings(names) + asked.push(end));
        assert forall|k: int| names.len() <= k < last implies ((#[trigger] log[k]) matches Call::Eval(
            _,
            end,
        ) && end is Some) by {
            let at = k - names.len();
            assert(log[k] == asked[at]);
            assert(gave_value(all[at].0, all[at].1, log[k], kept_values(rows)[at]));
        }
    }
    assert forall|k: int| 0 <= k < names.len() implies log[k] == Call::Clear(
        #[trigger] names[k],
        true,
    ) by {
        assert(log[k] == clearings(names)[k]);
    }
}

} // verus!

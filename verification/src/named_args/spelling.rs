//! Laws of named arguments.

use vstd::prelude::*;
use crate::named_args::call::{
    empty_slots, fill, is_argument, is_ellipsis, is_named_call, layout, marks, named_result,
    no_progress, position_from, positional_result, step, End, Progress, Step,
};
use crate::named_args::fields::{named_field, named_sorts, schema_list};
use crate::named_args::parser::{follows_spelling, leads, spelled, takes, Event};
use crate::named_args::sexp::{atom, call_of, is_key, items_of, sexp_span, starts_colon};

verus! {

/// Each field gets its value from at most one argument.
pub proof fn lemma_fields_get_one_value(
    name: Seq<char>,
    names: Seq<Seq<char>>,
    args: Seq<egglog::ast::Sexp>,
)
    ensures
        ({
            let fills = layout(name, names, args, 0, no_progress()).0;
            forall|i: int, j: int|
                0 <= i < j < fills.len() ==> (#[trigger] fills[i]).0 != (#[trigger] fills[j]).0
        }),
{
    lemma_new_slots(name, names, args, 0, no_progress());
}

/// The fields before the next positional one have values, until a field is
/// named.
spec fn is_filled_up(progress: Progress) -> bool {
    &&& 0 <= progress.next
    &&& !progress.named ==> forall|k: int|
        #[trigger] progress.filled.contains(k) ==> 0 <= k < progress.next
}

proof fn lemma_new_slots(
    name: Seq<char>,
    names: Seq<Seq<char>>,
    args: Seq<egglog::ast::Sexp>,
    i: int,
    progress: Progress,
)
    requires
        is_filled_up(progress),
    ensures
        ({
            let fills = layout(name, names, args, i, progress).0;
            &&& forall|k: int|
                0 <= k < fills.len() ==> !progress.filled.contains((#[trigger] fills[k]).0)
            &&& forall|j: int, k: int|
                0 <= j < k < fills.len() ==> (#[trigger] fills[j]).0 != (#[trigger] fills[k]).0
        }),
    decreases args.len() - i,
{
    if 0 <= i < args.len() {
        match step(name, names, args, i, progress) {
            Step::Fail(_, _) => {},
            Step::Ellipsis => {
                let next = Progress { ellipsis: true, ..progress };
                lemma_new_slots(name, names, args, i + 1, next);
                assert(layout(name, names, args, i, progress) == layout(
                    name,
                    names,
                    args,
                    i + 1,
                    next,
                ));
                assert(next.filled == progress.filled);
            },
            Step::Fill(slot, at, named) => {
                let next = fill(progress, slot, named);
                assert(!progress.filled.contains(slot));
                lemma_new_slots(name, names, args, at + 1, next);
                let rest = layout(name, names, args, at + 1, next).0;
                let fills = layout(name, names, args, i, progress).0;
                assert(fills =~= seq![(slot, at)] + rest);
                assert(next.filled.contains(slot));
                assert forall|k: int| 0 <= k < fills.len() implies (k > 0 ==> (
                #[trigger] fills[k]).0 != slot) && !progress.filled.contains(fills[k].0) by {
                    if k > 0 {
                        assert(fills[k] == rest[k - 1]);
                        assert(!next.filled.contains(rest[k - 1].0));
                    } else {
                        assert(fills[k] == (slot, at));
                    }
                }
                assert forall|j: int, k: int| 0 <= j < k < fills.len() implies (
                #[trigger] fills[j]).0 != (#[trigger] fills[k]).0 by {
                    if j > 0 {
                        assert(fills[j] == rest[j - 1]);
                        assert(fills[k] == rest[k - 1]);
                    }
                }
            },
        }
    }
}

/// A call with `count` positional arguments, then `named` named ones, then
/// perhaps an ellipsis. Each name is that of another field behind the
/// positional ones.
pub open spec fn is_spelled_out(
    names: Seq<Seq<char>>,
    args: Seq<egglog::ast::Sexp>,
    count: int,
    named: int,
    ellipsis: bool,
) -> bool {
    &&& 0 <= count <= names.len()
    &&& 0 <= named
    &&& args.len() == count + 2 * named + (if ellipsis {
        1int
    } else {
        0
    })
    &&& forall|j: int| 0 <= j < count ==> !marks(#[trigger] args[j])
    &&& forall|j: int| 0 <= j < named ==> #[trigger] is_pair(names, args, count, j)
    &&& forall|j: int, k: int|
        0 <= j < k < named ==> #[trigger] field_at(names, args, count, j) != #[trigger] field_at(
            names,
            args,
            count,
            k,
        )
    &&& ellipsis ==> is_ellipsis(args[args.len() - 1])
}

/// The field of the named argument at position `j` among the named ones.
pub open spec fn field_at(
    names: Seq<Seq<char>>,
    args: Seq<egglog::ast::Sexp>,
    count: int,
    j: int,
) -> int {
    position_from(names, atom(args[count + 2 * j])->0.skip(1), 0)->0
}

/// The named argument at position `j` among the named ones has the name of a
/// field behind the positional arguments, and a value.
pub open spec fn is_pair(
    names: Seq<Seq<char>>,
    args: Seq<egglog::ast::Sexp>,
    count: int,
    j: int,
) -> bool {
    let key = args[count + 2 * j];
    &&& is_key(key)
    &&& !is_ellipsis(key)
    &&& position_from(names, atom(key)->0.skip(1), 0) is Some
    &&& count <= field_at(names, args, count, j)
    &&& !marks(args[count + 2 * j + 1])
}

/// The arguments of a call that is spelled out give the fields these values:
/// the positional ones in order, and each named one the field of its name,
/// whatever their order.
pub open spec fn spelled_fills(
    names: Seq<Seq<char>>,
    args: Seq<egglog::ast::Sexp>,
    count: int,
    named: int,
) -> Seq<(int, int)> {
    Seq::new(
        (count + named) as nat,
        |k: int|
            if k < count {
                (k, k)
            } else {
                (field_at(names, args, count, k - count), count + 2 * (k - count) + 1)
            },
    )
}

/// The arguments of a call may be leading positional ones and then named ones
/// in any order: each named argument is the value of the field of its name, and
/// the ellipsis leaves the other fields open.
pub proof fn lemma_named_arguments_in_any_order(
    name: Seq<char>,
    names: Seq<Seq<char>>,
    args: Seq<egglog::ast::Sexp>,
    count: int,
    named: int,
    ellipsis: bool,
)
    requires
        is_spelled_out(names, args, count, named, ellipsis),
    ensures
        ({
            let (fills, end) = layout(name, names, args, 0, no_progress());
            &&& fills == spelled_fills(names, args, count, named)
            &&& end matches End::Complete(progress)
            &&& progress.ellipsis == ellipsis
            &&& forall|slot: int|
                #[trigger] progress.filled.contains(slot) <==> 0 <= slot < count || exists|j: int|
                    0 <= j < named && slot == #[trigger] field_at(names, args, count, j)
        }),
{
    lemma_positional_part(name, names, args, count, named, ellipsis, 0, no_progress());
    let fills = layout(name, names, args, 0, no_progress()).0;
    assert(fills =~= spelled_fills(names, args, count, named));
}

/// The progress behind `done` positional and `pairs` named arguments.
spec fn is_progress(
    names: Seq<Seq<char>>,
    args: Seq<egglog::ast::Sexp>,
    count: int,
    done: int,
    pairs: int,
    progress: Progress,
) -> bool {
    &&& progress.next == done
    &&& progress.named == (pairs > 0)
    &&& forall|slot: int|
        #[trigger] progress.filled.contains(slot) <==> 0 <= slot < done || exists|j: int|
            0 <= j < pairs && slot == #[trigger] field_at(names, args, count, j)
}

proof fn lemma_positional_part(
    name: Seq<char>,
    names: Seq<Seq<char>>,
    args: Seq<egglog::ast::Sexp>,
    count: int,
    named: int,
    ellipsis: bool,
    done: int,
    progress: Progress,
)
    requires
        is_spelled_out(names, args, count, named, ellipsis),
        0 <= done <= count,
        !progress.ellipsis,
        is_progress(names, args, count, done, 0, progress),
    ensures
        ({
            let (fills, end) = layout(name, names, args, done, progress);
            &&& fills == spelled_fills(names, args, count, named).skip(done)
            &&& end matches End::Complete(after)
            &&& after.ellipsis == ellipsis
            &&& is_progress(names, args, count, count, named, after)
        }),
    decreases count - done,
{
    let all = spelled_fills(names, args, count, named);
    if done == count {
        lemma_named_part(name, names, args, count, named, ellipsis, 0, progress);
    } else {
        assert(!marks(args[done]));
        assert(step(name, names, args, done, progress) == Step::Fill(done, done, false));
        let next = fill(progress, done, false);
        lemma_positional_part(name, names, args, count, named, ellipsis, done + 1, next);
        assert(all.skip(done) =~= seq![(done, done)] + all.skip(done + 1));
    }
}

proof fn lemma_named_part(
    name: Seq<char>,
    names: Seq<Seq<char>>,
    args: Seq<egglog::ast::Sexp>,
    count: int,
    named: int,
    ellipsis: bool,
    pairs: int,
    progress: Progress,
)
    requires
        is_spelled_out(names, args, count, named, ellipsis),
        0 <= pairs <= named,
        !progress.ellipsis,
        is_progress(names, args, count, count, pairs, progress),
    ensures
        ({
            let (fills, end) = layout(name, names, args, count + 2 * pairs, progress);
            &&& fills == spelled_fills(names, args, count, named).skip(count + pairs)
            &&& end matches End::Complete(after)
            &&& after.ellipsis == ellipsis
            &&& is_progress(names, args, count, count, named, after)
        }),
    decreases named - pairs,
{
    let all = spelled_fills(names, args, count, named);
    let i = count + 2 * pairs;
    if pairs == named {
        assert(all.skip(count + pairs) =~= Seq::empty());
        if ellipsis {
            let after = Progress { ellipsis: true, ..progress };
            assert(i + 1 >= args.len());
            assert(layout(name, names, args, i + 1, after) == (
                Seq::<(int, int)>::empty(),
                End::Complete(after),
            ));
            assert(step(name, names, args, i, progress) == Step::Ellipsis);
            assert(layout(name, names, args, i, progress) == layout(
                name,
                names,
                args,
                i + 1,
                after,
            ));
        }
    } else {
        assert(is_pair(names, args, count, pairs));
        let slot = field_at(names, args, count, pairs);
        assert(!progress.filled.contains(slot)) by {
            if progress.filled.contains(slot) {
                let j = choose|j: int|
                    0 <= j < pairs && slot == #[trigger] field_at(names, args, count, j);
                assert(field_at(names, args, count, j) != field_at(names, args, count, pairs));
            }
        }
        assert(step(name, names, args, i, progress) == Step::Fill(slot, i + 1, true));
        let next = fill(progress, slot, true);
        assert forall|other: int| #[trigger] next.filled.contains(other) <==> 0 <= other < count
            || exists|j: int|
            0 <= j < pairs + 1 && other == #[trigger] field_at(names, args, count, j) by {
            if next.filled.contains(other) && other != slot {
                assert(progress.filled.contains(other));
            }
            if exists|j: int|
                0 <= j < pairs + 1 && other == #[trigger] field_at(names, args, count, j) {
                let j = choose|j: int|
                    0 <= j < pairs + 1 && other == #[trigger] field_at(names, args, count, j);
                if j < pairs {
                    assert(progress.filled.contains(other));
                }
            }
            if 0 <= other < count {
                assert(progress.filled.contains(other));
            }
        }
        lemma_named_part(name, names, args, count, named, ellipsis, pairs + 1, next);
        assert(all.skip(count + pairs) =~= seq![(slot, i + 1)] + all.skip(count + pairs + 1));
    }
}

/// Every field has an argument, by position or by name.
pub open spec fn gives_all(
    names: Seq<Seq<char>>,
    args: Seq<egglog::ast::Sexp>,
    count: int,
    named: int,
) -> bool {
    forall|slot: int|
        #![trigger names[slot]]
        count <= slot < names.len() ==> exists|j: int|
            0 <= j < named && slot == #[trigger] field_at(names, args, count, j)
}

proof fn lemma_no_empty_slots(filled: Set<int>, count: int)
    requires
        forall|slot: int| 0 <= slot < count ==> filled.contains(slot),
    ensures
        empty_slots(filled, count).len() == 0,
    decreases count,
{
    if count > 0 {
        assert(filled.contains(count - 1));
        lemma_no_empty_slots(filled, count - 1);
    }
}

/// The expression is what the argument of the field was parsed to.
spec fn is_value(
    fills: Seq<(int, int)>,
    exprs: Seq<egglog::ast::Expr>,
    slot: int,
    expr: egglog::ast::Expr,
) -> bool {
    exists|k: int| 0 <= k < fills.len() && (#[trigger] fills[k]).0 == slot && expr == exprs[k]
}

/// The call that a spelling gives: it succeeds, and each field is what its
/// argument was parsed to.
proof fn lemma_spelled_call(
    name: Seq<char>,
    names: Seq<Seq<char>>,
    args: Seq<egglog::ast::Sexp>,
    count: int,
    named: int,
    span: egglog::ast::Span,
    result: Result<egglog::ast::Expr, egglog::ast::ParseError>,
    asked: Seq<Event>,
    exprs: Seq<egglog::ast::Expr>,
    fresh: Seq<Seq<char>>,
)
    requires
        is_spelled_out(names, args, count, named, false),
        gives_all(names, args, count, named),
        is_named_call(name, names, args, span, result, asked, exprs, fresh),
        exprs.len() == count + named,
    ensures
        ({
            &&& result matches Ok(egglog::ast::Expr::Call(place, head, list))
            &&& place == span
            &&& head@ == name
            &&& list@.len() == names.len()
            &&& forall|slot: int|
                0 <= slot < names.len() ==> is_value(
                    spelled_fills(names, args, count, named),
                    exprs,
                    slot,
                    #[trigger] list@[slot],
                )
        }),
{
    lemma_named_arguments_in_any_order(name, names, args, count, named, false);
    let (fills, end) = layout(name, names, args, 0, no_progress());
    match end {
        End::Complete(progress) => {
            assert forall|slot: int| 0 <= slot < names.len() implies progress.filled.contains(
                slot,
            ) by {
                let field = names[slot];
            }
            lemma_no_empty_slots(progress.filled, names.len() as int);
            match result {
                Ok(egglog::ast::Expr::Call(_, _, list)) => {
                    assert forall|slot: int| 0 <= slot < names.len() implies is_value(
                        spelled_fills(names, args, count, named),
                        exprs,
                        slot,
                        #[trigger] list@[slot],
                    ) by {
                        assert(is_argument(
                            list@[slot],
                            slot,
                            span,
                            fills,
                            exprs,
                            progress.filled,
                            fresh,
                        ));
                    }
                },
                _ => {},
            }
        },
        _ => {},
    }
}

/// Two spellings of one call give the same call: whether its fields have their
/// values by position or by name, and in whatever order, if each field's value is
/// parsed to the same expression, both succeed with the same head and the same
/// arguments.
pub proof fn lemma_spellings_give_the_same_call(
    name: Seq<char>,
    names: Seq<Seq<char>>,
    span: egglog::ast::Span,
    args: Seq<egglog::ast::Sexp>,
    count: int,
    named: int,
    result: Result<egglog::ast::Expr, egglog::ast::ParseError>,
    asked: Seq<Event>,
    exprs: Seq<egglog::ast::Expr>,
    fresh: Seq<Seq<char>>,
    other_args: Seq<egglog::ast::Sexp>,
    other_count: int,
    other_named: int,
    other_result: Result<egglog::ast::Expr, egglog::ast::ParseError>,
    other_asked: Seq<Event>,
    other_exprs: Seq<egglog::ast::Expr>,
    other_fresh: Seq<Seq<char>>,
)
    requires
        is_spelled_out(names, args, count, named, false),
        gives_all(names, args, count, named),
        is_named_call(name, names, args, span, result, asked, exprs, fresh),
        exprs.len() == count + named,
        is_spelled_out(names, other_args, other_count, other_named, false),
        gives_all(names, other_args, other_count, other_named),
        is_named_call(
            name,
            names,
            other_args,
            span,
            other_result,
            other_asked,
            other_exprs,
            other_fresh,
        ),
        other_exprs.len() == other_count + other_named,
        forall|k: int, l: int|
            0 <= k < exprs.len() && 0 <= l < other_exprs.len() && (#[trigger] spelled_fills(
                names,
                args,
                count,
                named,
            )[k]).0 == (#[trigger] spelled_fills(names, other_args, other_count, other_named)[l]).0
                ==> exprs[k] == other_exprs[l],
    ensures
        match (result, other_result) {
            (
                Ok(egglog::ast::Expr::Call(place, head, list)),
                Ok(egglog::ast::Expr::Call(other_place, other_head, other_list)),
            ) => {
                &&& place == span
                &&& other_place == span
                &&& head@ == name
                &&& other_head@ == name
                &&& list@ == other_list@
            },
            _ => false,
        },
{
    lemma_spelled_call(name, names, args, count, named, span, result, asked, exprs, fresh);
    lemma_spelled_call(
        name,
        names,
        other_args,
        other_count,
        other_named,
        span,
        other_result,
        other_asked,
        other_exprs,
        other_fresh,
    );
    match (result, other_result) {
        (
            Ok(egglog::ast::Expr::Call(_, _, list)),
            Ok(egglog::ast::Expr::Call(_, _, other_list)),
        ) => {
            let fills = spelled_fills(names, args, count, named);
            let other_fills = spelled_fills(names, other_args, other_count, other_named);
            assert forall|slot: int| 0 <= slot < names.len() implies list@[slot]
                == other_list@[slot] by {
                assert(is_value(fills, exprs, slot, list@[slot]));
                assert(is_value(other_fills, other_exprs, slot, other_list@[slot]));
            }
            assert(list@ =~= other_list@);
        },
        _ => {},
    }
}

/// With the ellipsis at the end no field has to be given: once the values are parsed, the
/// call succeeds.
pub proof fn lemma_ellipsis_leaves_fields_open(
    name: Seq<char>,
    names: Seq<Seq<char>>,
    args: Seq<egglog::ast::Sexp>,
    count: int,
    named: int,
    span: egglog::ast::Span,
    result: Result<egglog::ast::Expr, egglog::ast::ParseError>,
    asked: Seq<Event>,
    exprs: Seq<egglog::ast::Expr>,
    fresh: Seq<Seq<char>>,
)
    requires
        is_spelled_out(names, args, count, named, true),
        is_named_call(name, names, args, span, result, asked, exprs, fresh),
        exprs.len() == count + named,
    ensures
        result is Ok,
{
    lemma_named_arguments_in_any_order(name, names, args, count, named, true);
}

/// The last spelling of a name among those that were told.
pub open spec fn last_spelling(asked: Seq<Event>, name: Seq<char>) -> Option<
    Option<Seq<Seq<char>>>,
>
    decreases asked.len(),
{
    if asked.len() == 0 {
        None
    } else {
        match asked.last() {
            Event::Spell(other, fields) if other == name => Some(fields),
            _ => last_spelling(asked.drop_last(), name),
        }
    }
}

/// The later declaration of a name counts: the parser spells each name as it
/// was declared last, with its fields or by position, and a name that was not
/// declared as before.
pub proof fn lemma_later_declaration_counts(
    before: egglog::ast::Parser,
    asked: Seq<Event>,
    after: egglog::ast::Parser,
    name: Seq<char>,
)
    requires
        leads(before, asked, after),
        forall|k: int| 0 <= k < asked.len() ==> (#[trigger] asked[k]) is Spell,
    ensures
        match last_spelling(asked, name) {
            Some(fields) => spelled(after).contains_key(name) && spelled(after)[name] == fields,
            None => {
                &&& spelled(after).contains_key(name) == spelled(before).contains_key(name)
                &&& spelled(before).contains_key(name) ==> spelled(after)[name]
                    == spelled(before)[name]
            },
        },
    decreases asked.len(),
{
    if asked.len() > 0 {
        let middle = choose|middle: egglog::ast::Parser|
            leads(before, asked.drop_last(), middle) && #[trigger] takes(
                middle,
                asked.last(),
                after,
            );
        let rest = asked.drop_last();
        assert forall|k: int| 0 <= k < rest.len() implies (#[trigger] rest[k]) is Spell by {
            assert(rest[k] == asked[k]);
        }
        lemma_later_declaration_counts(before, rest, middle, name);
        assert(asked[asked.len() - 1] is Spell);
    }
}

/// Once a name is declared with named fields, its calls are parsed with named
/// arguments; once it is declared without, they are parsed by position. Either
/// way each argument is what its own s-expression is parsed to.
pub proof fn lemma_declared_calls(
    before: egglog::ast::Parser,
    asked: Seq<Event>,
    after: egglog::ast::Parser,
    name: Seq<char>,
    fields: Option<Seq<Seq<char>>>,
    sexp: egglog::ast::Sexp,
    tail: Seq<egglog::ast::Sexp>,
    result: Result<egglog::ast::Expr, egglog::ast::ParseError>,
    parsed: egglog::ast::Parser,
)
    requires
        leads(before, asked, after),
        asked.len() > 0,
        asked.last() == Event::Spell(name, fields),
        call_of(sexp) == Some((name, tail)),
        follows_spelling(after, sexp, result, parsed),
    ensures
        match fields {
            Some(names) => named_result(
                after,
                parsed,
                name,
                names,
                tail,
                sexp_span(sexp),
                result,
            ),
            None => positional_result(after, parsed, name, tail, sexp_span(sexp), result),
        },
{
    let middle = choose|middle: egglog::ast::Parser|
        leads(before, asked.drop_last(), middle) && #[trigger] takes(middle, asked.last(), after);
    assert(spelled(after)[name] == fields);
}

/// The names of the fields of a declaration are distinct, and each has a sort.
pub proof fn lemma_field_names_are_distinct(input: egglog::ast::Sexp)
    ensures
        match schema_list(input) {
            Ok((Some(names), sorts)) => names.no_duplicates() && names.len() == sorts.len(),
            _ => true,
        },
{
    match items_of(input) {
        Some(items) => lemma_named_sorts(items, 0, Seq::empty(), Seq::empty()),
        None => {},
    }
}

proof fn lemma_named_sorts(
    items: Seq<egglog::ast::Sexp>,
    i: int,
    names: Seq<Seq<char>>,
    sorts: Seq<Seq<char>>,
)
    requires
        names.no_duplicates(),
        names.len() == sorts.len(),
    ensures
        match named_sorts(items, i, names, sorts) {
            Ok((all, all_sorts)) => all.no_duplicates() && all.len() == all_sorts.len(),
            Err(_) => true,
        },
    decreases items.len() - i,
{
    if i < items.len() {
        match atom(items[i]) {
            Some(key) if starts_colon(key) => match named_field(items, i, names) {
                Ok((name, sort)) => {
                    assert(!names.contains(name));
                    assert(names.push(name).no_duplicates());
                    lemma_named_sorts(items, i + 2, names.push(name), sorts.push(sort));
                },
                Err(_) => {},
            },
            _ => {},
        }
    }
}

} // verus!

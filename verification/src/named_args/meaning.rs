//! What calls mean, argument by argument.

use vstd::prelude::*;
use crate::named_args::call::{
    all_parsed, empty_slots, fill, freshened, is_argument, is_ellipsis, is_named_call,
    is_positional_call, layout, marks, named_result, names_at, no_progress, parsed, position_from,
    positional_result, step, End, Progress, Step,
};
use crate::named_args::parser::{leads, made, takes, Event};
use crate::named_args::sexp::{atom, is_key, sexp_span};
use crate::text::{consists_of, decimal, lemma_joined_stand_in_order, separated};

verus! {

/// The key is the name of the field, behind a colon, and of none before it.
pub open spec fn is_key_of(names: Seq<Seq<char>>, key: egglog::ast::Sexp, slot: int) -> bool {
    &&& 0 <= slot < names.len()
    &&& key matches egglog::ast::Sexp::Atom(text, _)
    &&& text@ == seq![':'] + names[slot]
    &&& forall|k: int| 0 <= k < slot ==> #[trigger] names[k] != names[slot]
}

/// The s-expression at position `at` is a value for the field: it stands behind the key of
/// the field, or at the position of the field with no key or ellipsis up to there.
pub open spec fn gives(
    names: Seq<Seq<char>>,
    args: Seq<egglog::ast::Sexp>,
    slot: int,
    at: int,
) -> bool {
    &&& 0 <= at < args.len()
    &&& 0 <= slot < names.len()
    &&& !marks(args[at])
    &&& {
        ||| at > 0 && is_key_of(names, args[at - 1], slot)
        ||| at == slot && forall|k: int| 0 <= k <= at ==> !marks(#[trigger] args[k])
    }
}

/// Some argument is a value for the field.
pub open spec fn is_given(
    names: Seq<Seq<char>>,
    args: Seq<egglog::ast::Sexp>,
    slot: int,
) -> bool {
    exists|at: int| gives(names, args, slot, at)
}

proof fn lemma_position(names: Seq<Seq<char>>, key: Seq<char>, from: int)
    requires
        0 <= from,
    ensures
        match position_from(names, key, from) {
            Some(slot) => {
                &&& from <= slot < names.len()
                &&& names[slot] == key
                &&& forall|k: int| from <= k < slot ==> #[trigger] names[k] != key
            },
            None => forall|k: int| from <= k < names.len() ==> #[trigger] names[k] != key,
        },
    decreases names.len() - from,
{
    if from < names.len() && names[from] != key {
        lemma_position(names, key, from + 1);
    }
}

/// The reading of the arguments up to position `i` has come so far.
spec fn is_read(
    names: Seq<Seq<char>>,
    args: Seq<egglog::ast::Sexp>,
    i: int,
    progress: Progress,
) -> bool {
    &&& 0 <= i <= args.len()
    &&& i > 0 ==> !is_key(args[i - 1])
    &&& forall|k: int|
        0 <= k < i && is_ellipsis(#[trigger] args[k]) ==> progress.ellipsis && k == i - 1
    &&& progress.ellipsis ==> i > 0 && is_ellipsis(args[i - 1])
    &&& !progress.named ==> forall|k: int| 0 <= k < i ==> !is_key(#[trigger] args[k])
    &&& !progress.named && !progress.ellipsis ==> progress.next == i
    &&& progress.named ==> exists|k: int| 0 <= k < i && is_key(#[trigger] args[k])
    &&& forall|k: int|
        0 <= k < i && is_key(#[trigger] args[k]) ==> k + 1 < i && !marks(args[k + 1])
    &&& forall|slot: int, at: int, other: int|
        #[trigger] gives(names, args, slot, at) && #[trigger] gives(names, args, slot, other) && at
            < i && other < i ==> at == other
    &&& forall|slot: int| #[trigger]
        progress.filled.contains(slot) <==> exists|at: int| at < i && gives(names, args, slot, at)
}

/// What the arguments from position `i` on give.
spec fn is_rest(
    names: Seq<Seq<char>>,
    args: Seq<egglog::ast::Sexp>,
    i: int,
    fills: Seq<(int, int)>,
    end: Progress,
) -> bool {
    &&& forall|m: int|
        0 <= m < fills.len() ==> {
            &&& i <= (#[trigger] fills[m]).1
            &&& gives(names, args, fills[m].0, fills[m].1)
        }
    &&& forall|m: int, n: int|
        0 <= m < n < fills.len() ==> (#[trigger] fills[m]).1 < (#[trigger] fills[n]).1
    &&& forall|at: int|
        i <= at < args.len() && !marks(#[trigger] args[at]) ==> exists|m: int|
            0 <= m < fills.len() && (#[trigger] fills[m]).1 == at
    &&& is_read(names, args, args.len() as int, end)
}

proof fn lemma_layout_gives(
    name: Seq<char>,
    names: Seq<Seq<char>>,
    args: Seq<egglog::ast::Sexp>,
    i: int,
    progress: Progress,
)
    requires
        is_read(names, args, i, progress),
    ensures
        match layout(name, names, args, i, progress) {
            (fills, End::Complete(end)) => is_rest(names, args, i, fills, end),
            _ => true,
        },
    decreases args.len() - i,
{
    if i < args.len() {
        match step(name, names, args, i, progress) {
            Step::Fail(_, _) => {},
            Step::Ellipsis => {
                let next = Progress { ellipsis: true, ..progress };
                lemma_dots_are_no_key(args[i]);
                assert forall|slot: int| #[trigger] next.filled.contains(slot) <==> exists|at: int|
                    at < i + 1 && gives(names, args, slot, at) by {
                    if exists|at: int| at < i + 1 && gives(names, args, slot, at) {
                        let at = choose|at: int| at < i + 1 && gives(names, args, slot, at);
                        assert(at != i);
                        assert(progress.filled.contains(slot));
                    }
                    if progress.filled.contains(slot) {
                        let at = choose|at: int| at < i && gives(names, args, slot, at);
                        assert(at < i + 1 && gives(names, args, slot, at));
                    }
                }
                assert forall|slot: int, at: int, other: int|
                    #[trigger] gives(names, args, slot, at) && #[trigger] gives(
                        names,
                        args,
                        slot,
                        other,
                    ) && at < i + 1 && other < i + 1 implies at == other by {
                    assert(at != i && other != i);
                }
                assert(is_read(names, args, i + 1, next));
                lemma_layout_gives(name, names, args, i + 1, next);
            },
            Step::Fill(slot, at, named) => {
                let next = fill(progress, slot, named);
                lemma_fill_gives(name, names, args, i, progress, slot, at, named);
                lemma_layout_gives(name, names, args, at + 1, next);
                let (rest, end) = layout(name, names, args, at + 1, next);
                let fills = layout(name, names, args, i, progress).0;
                assert(fills == seq![(slot, at)] + rest);
                if let End::Complete(done) = end {
                    assert forall|m: int| 0 <= m < fills.len() implies {
                        &&& i <= (#[trigger] fills[m]).1
                        &&& gives(names, args, fills[m].0, fills[m].1)
                    } by {
                        if m > 0 {
                            assert(fills[m] == rest[m - 1]);
                        }
                    }
                    assert forall|m: int, n: int| 0 <= m < n < fills.len() implies (
                    #[trigger] fills[m]).1 < (#[trigger] fills[n]).1 by {
                        assert(fills[n] == rest[n - 1]);
                        if m > 0 {
                            assert(fills[m] == rest[m - 1]);
                        }
                    }
                    assert forall|other: int|
                        i <= other < args.len() && !marks(#[trigger] args[other]) implies exists|
                        m: int,
                    | 0 <= m < fills.len() && (#[trigger] fills[m]).1 == other by {
                        if other > at {
                            let m = choose|m: int|
                                0 <= m < rest.len() && (#[trigger] rest[m]).1 == other;
                            assert(fills[m + 1] == rest[m]);
                        } else {
                            assert(fills[0].1 == at);
                            assert(other == at);
                        }
                    }
                    assert(is_rest(names, args, i, fills, done));
                }
            },
        }
    } else {
        assert(layout(name, names, args, i, progress).0.len() == 0);
    }
}

/// The ellipsis is no key.
proof fn lemma_dots_are_no_key(sexp: egglog::ast::Sexp)
    requires
        is_ellipsis(sexp),
    ensures
        !is_key(sexp),
{
    reveal_strlit("...");
}

proof fn lemma_fill_gives(
    name: Seq<char>,
    names: Seq<Seq<char>>,
    args: Seq<egglog::ast::Sexp>,
    i: int,
    progress: Progress,
    slot: int,
    at: int,
    named: bool,
)
    requires
        is_read(names, args, i, progress),
        i < args.len(),
        step(name, names, args, i, progress) == Step::Fill(slot, at, named),
    ensures
        gives(names, args, slot, at),
        named ==> at == i + 1 && marks(args[i]),
        !named ==> at == i,
        is_read(names, args, at + 1, fill(progress, slot, named)),
{
    let next = fill(progress, slot, named);
    let arg = args[i];
    if named {
        let key = atom(arg)->0;
        lemma_position(names, key.skip(1), 0);
        assert(key =~= seq![':'] + names[slot]);
        assert(is_key_of(names, args[at - 1], slot));
    } else {
        assert forall|k: int| 0 <= k <= at implies !marks(#[trigger] args[k]) by {
            if k < i {
                assert(!is_ellipsis(args[k]));
                assert(!is_key(args[k]));
            }
        }
        assert(progress.next == i);
    }
    assert(gives(names, args, slot, at));
    assert forall|other: int| #[trigger] next.filled.contains(other) <==> exists|place: int|
        place < at + 1 && gives(names, args, other, place) by {
        if next.filled.contains(other) {
            if other == slot {
                assert(at < at + 1 && gives(names, args, slot, at));
            } else {
                assert(progress.filled.contains(other));
                let place = choose|place: int| place < i && gives(names, args, other, place);
                assert(place < at + 1 && gives(names, args, other, place));
            }
        }
        if exists|place: int| place < at + 1 && gives(names, args, other, place) {
            let place = choose|place: int| place < at + 1 && gives(names, args, other, place);
            if place < i {
                assert(progress.filled.contains(other));
            } else {
                assert(place == at);
                lemma_gives_one(names, args, slot, other, at);
            }
        }
    }
    if named {
        assert(is_key(args[i]));
        assert forall|k: int| 0 <= k < at + 1 && is_ellipsis(#[trigger] args[k]) implies false by {
            if k < i {
            } else if k == i {
                lemma_dots_are_no_key(args[k]);
            }
        }
    } else {
        assert forall|k: int| 0 <= k < at + 1 && is_ellipsis(#[trigger] args[k]) implies false by {}
    }
    if next.named && progress.named {
        let k = choose|k: int| 0 <= k < i && is_key(#[trigger] args[k]);
        assert(0 <= k < at + 1 && is_key(args[k]));
    }
    assert forall|k: int| 0 <= k < at + 1 && is_key(#[trigger] args[k]) implies k + 1 < at + 1
        && !marks(args[k + 1]) by {
        if k >= i {
            assert(k == i);
        }
    }
    assert(!progress.filled.contains(slot)) by {
        if !named && progress.filled.contains(slot) {
            let place = choose|place: int| place < i && gives(names, args, slot, place);
            if place > 0 && is_key_of(names, args[place - 1], slot) {
                lemma_key_marks(names, args[place - 1], slot);
                assert(is_key(args[place - 1]));
            }
        }
    }
    assert forall|field: int, place: int, other: int|
        #[trigger] gives(names, args, field, place) && #[trigger] gives(
            names,
            args,
            field,
            other,
        ) && place < at + 1 && other < at + 1 implies place == other by {
        if place < i && other < i {
        } else if place >= i && other >= i {
            assert(place == at && other == at);
        } else if place >= i {
            assert(place == at);
            lemma_gives_one(names, args, slot, field, at);
            assert(other < i && gives(names, args, slot, other));
            assert(progress.filled.contains(slot));
        } else {
            assert(other == at);
            lemma_gives_one(names, args, slot, field, at);
            assert(place < i && gives(names, args, slot, place));
            assert(progress.filled.contains(slot));
        }
    }
}

/// An argument is a value for one field.
proof fn lemma_gives_one(
    names: Seq<Seq<char>>,
    args: Seq<egglog::ast::Sexp>,
    slot: int,
    other: int,
    at: int,
)
    requires
        gives(names, args, slot, at),
        gives(names, args, other, at),
    ensures
        slot == other,
{
    if at > 0 && is_key_of(names, args[at - 1], slot) {
        lemma_key_marks(names, args[at - 1], slot);
        assert(marks(args[at - 1]));
        if is_key_of(names, args[at - 1], other) {
            let a = seq![':'] + names[slot];
            let b = seq![':'] + names[other];
            assert(names[slot] =~= a.skip(1));
            assert(names[other] =~= b.skip(1));
            if slot < other {
                assert(names[slot] != names[other]);
            } else if other < slot {
                assert(names[other] != names[slot]);
            }
        }
    } else if at > 0 && is_key_of(names, args[at - 1], other) {
        lemma_key_marks(names, args[at - 1], other);
        assert(marks(args[at - 1]));
    }
}

proof fn lemma_key_marks(names: Seq<Seq<char>>, key: egglog::ast::Sexp, slot: int)
    requires
        is_key_of(names, key, slot),
    ensures
        is_key(key),
        marks(key),
{
    let text = seq![':'] + names[slot];
    assert(text[0] == ':');
}

/// The values of the arguments at these positions were parsed one after the other.
pub open spec fn parse_events(
    args: Seq<egglog::ast::Sexp>,
    ats: Seq<int>,
    exprs: Seq<egglog::ast::Expr>,
) -> Seq<Event> {
    Seq::new(ats.len(), |k: int| Event::Expr(args[ats[k]], Ok(exprs[k])))
}

/// The positions are those of the arguments that are values, in order.
pub open spec fn are_values(args: Seq<egglog::ast::Sexp>, ats: Seq<int>) -> bool {
    &&& forall|k: int, l: int| 0 <= k < l < ats.len() ==> #[trigger] ats[k] < #[trigger] ats[l]
    &&& forall|at: int| #[trigger]
        ats.contains(at) <==> 0 <= at < args.len() && !marks(args[at])
}

/// The call has an argument for each field: what the value for the field was parsed to,
/// or a variable of its own for a field without a value. The variables of two fields
/// differ, and none has a name that the parser had made when the values were parsed.
pub open spec fn is_meant(
    before: egglog::ast::Parser,
    middle: egglog::ast::Parser,
    after: egglog::ast::Parser,
    names: Seq<Seq<char>>,
    args: Seq<egglog::ast::Sexp>,
    span: egglog::ast::Span,
    list: Seq<egglog::ast::Expr>,
    ats: Seq<int>,
    exprs: Seq<egglog::ast::Expr>,
) -> bool {
    &&& list.len() == names.len()
    &&& are_values(args, ats)
    &&& exprs.len() == ats.len()
    &&& leads(before, parse_events(args, ats, exprs), middle)
    &&& forall|k: int| 0 <= k < ats.len() ==> is_for_a_field(names, args, #[trigger] ats[k])
    &&& are_arguments(middle, after, names, args, span, list, ats, exprs)
    &&& is_well_formed(names, args)
}

/// The argument is a variable at the place of the call, with a name that the parser had not
/// made when the values were parsed.
pub open spec fn is_open(
    middle: egglog::ast::Parser,
    after: egglog::ast::Parser,
    span: egglog::ast::Span,
    arg: egglog::ast::Expr,
) -> bool {
    &&& arg matches egglog::ast::Expr::Var(place, variable)
    &&& place == span
    &&& !made(middle).contains(variable@)
    &&& made(after).contains(variable@)
}

/// Each field with a value has what that was parsed to, and each without one has a variable
/// of its own. There is a field without a value only if the ellipsis stands at the end.
pub open spec fn are_arguments(
    middle: egglog::ast::Parser,
    after: egglog::ast::Parser,
    names: Seq<Seq<char>>,
    args: Seq<egglog::ast::Sexp>,
    span: egglog::ast::Span,
    list: Seq<egglog::ast::Expr>,
    ats: Seq<int>,
    exprs: Seq<egglog::ast::Expr>,
) -> bool {
    &&& forall|slot: int|
        0 <= slot < names.len() && is_given(names, args, slot) ==> has_value(
            names,
            args,
            ats,
            exprs,
            slot,
            #[trigger] list[slot],
        )
    &&& forall|slot: int|
        0 <= slot < names.len() && !is_given(names, args, slot) ==> is_open(
            middle,
            after,
            span,
            #[trigger] list[slot],
        )
    &&& forall|slot: int, other: int|
        {
            &&& 0 <= slot < other < names.len()
            &&& !is_given(names, args, slot)
            &&& !is_given(names, args, other)
        } ==> variable_name(#[trigger] list[slot]) != variable_name(#[trigger] list[other])
    &&& forall|slot: int|
        0 <= slot < names.len() && !#[trigger] is_given(names, args, slot) ==> args.len() > 0 && is_ellipsis(
            args[args.len() - 1],
        )
}

/// The ellipsis stands at the end only, there is a value behind each key, and no field has two
/// values.
pub open spec fn is_well_formed(names: Seq<Seq<char>>, args: Seq<egglog::ast::Sexp>) -> bool {
    &&& forall|k: int| 0 <= k < args.len() - 1 ==> !is_ellipsis(#[trigger] args[k])
    &&& forall|k: int|
        0 <= k < args.len() && is_key(#[trigger] args[k]) ==> k + 1 < args.len() && !marks(
            args[k + 1],
        )
    &&& forall|slot: int, at: int, other: int|
        #[trigger] gives(names, args, slot, at) && #[trigger] gives(names, args, slot, other)
            ==> at == other
}

/// The name of a variable.
pub open spec fn variable_name(expr: egglog::ast::Expr) -> Seq<char> {
    match expr {
        egglog::ast::Expr::Var(_, name) => name@,
        _ => Seq::empty(),
    }
}

/// The argument at the position is a value for some field.
pub open spec fn is_for_a_field(
    names: Seq<Seq<char>>,
    args: Seq<egglog::ast::Sexp>,
    at: int,
) -> bool {
    exists|slot: int| gives(names, args, slot, at)
}

/// The expression is what a value for the field was parsed to.
pub open spec fn has_value(
    names: Seq<Seq<char>>,
    args: Seq<egglog::ast::Sexp>,
    ats: Seq<int>,
    exprs: Seq<egglog::ast::Expr>,
    slot: int,
    expr: egglog::ast::Expr,
) -> bool {
    exists|k: int|
        0 <= k < ats.len() && gives(names, args, slot, #[trigger] ats[k]) && expr == exprs[k]
}

proof fn lemma_leads_split(
    before: egglog::ast::Parser,
    first: Seq<Event>,
    second: Seq<Event>,
    after: egglog::ast::Parser,
)
    requires
        leads(before, first + second, after),
    ensures
        exists|middle: egglog::ast::Parser| #[trigger]
            leads(before, first, middle) && leads(middle, second, after),
    decreases second.len(),
{
    if second.len() == 0 {
        assert(first + second =~= first);
        assert(leads(before, first, after) && leads(after, second, after));
    } else {
        let all = first + second;
        let last = choose|last: egglog::ast::Parser|
            leads(before, all.drop_last(), last) && #[trigger] takes(last, all.last(), after);
        assert(all.drop_last() =~= first + second.drop_last());
        lemma_leads_split(before, first, second.drop_last(), last);
        let middle = choose|middle: egglog::ast::Parser| #[trigger]
            leads(before, first, middle) && leads(middle, second.drop_last(), last);
        assert(takes(last, second.last(), after));
        assert(leads(middle, second, after));
    }
}

proof fn lemma_fresh_names(
    before: egglog::ast::Parser,
    fresh: Seq<Seq<char>>,
    after: egglog::ast::Parser,
)
    requires
        leads(before, freshened(fresh), after),
    ensures
        forall|i: int|
            0 <= i < fresh.len() ==> {
                &&& !made(before).contains(#[trigger] fresh[i])
                &&& made(after).contains(fresh[i])
            },
        fresh.no_duplicates(),
        made(before).subset_of(made(after)),
    decreases fresh.len(),
{
    let asked = freshened(fresh);
    if fresh.len() > 0 {
        let front = fresh.drop_last();
        assert(asked.drop_last() =~= freshened(front));
        let middle = choose|middle: egglog::ast::Parser|
            leads(before, asked.drop_last(), middle) && #[trigger] takes(
                middle,
                asked.last(),
                after,
            );
        lemma_fresh_names(before, front, middle);
        assert(asked.last() == Event::Fresh(fresh.last()));
        assert forall|i: int| 0 <= i < fresh.len() implies {
            &&& !made(before).contains(#[trigger] fresh[i])
            &&& made(after).contains(fresh[i])
        } by {
            if i < front.len() {
                assert(front[i] == fresh[i]);
            }
        }
        assert forall|i: int, j: int| 0 <= i < j < fresh.len() implies fresh[i] != fresh[j] by {
            assert(front[i] == fresh[i]);
            if j < front.len() {
                assert(front[j] == fresh[j]);
            }
        }
    }
}

proof fn lemma_more_empty(filled: Set<int>, few: int, many: int)
    requires
        0 <= few < many,
        !filled.contains(few),
    ensures
        empty_slots(filled, few).len() < empty_slots(filled, many).len(),
    decreases many - few,
{
    if few + 1 < many {
        lemma_more_empty(filled, few, many - 1);
    }
}

/// What a call with named arguments means. Each field has its own argument: what the value
/// for the field is parsed to, be it given by position or behind the name of the field in
/// whatever order. With the ellipsis at the end, each field without a value has a variable
/// of its own, with a name that the parser had not made when the values were parsed and
/// that no other field has. Every value is for some field, and the values are parsed in the
/// order in which they stand.
pub proof fn lemma_named_call_means(
    before: egglog::ast::Parser,
    after: egglog::ast::Parser,
    name: Seq<char>,
    names: Seq<Seq<char>>,
    args: Seq<egglog::ast::Sexp>,
    span: egglog::ast::Span,
    expr: egglog::ast::Expr,
)
    requires
        named_result(before, after, name, names, args, span, Ok(expr)),
    ensures
        expr matches egglog::ast::Expr::Call(place, head, list) && {
            &&& place == span
            &&& head@ == name
            &&& exists|
                middle: egglog::ast::Parser,
                ats: Seq<int>,
                exprs: Seq<egglog::ast::Expr>,
            | #[trigger] is_meant(before, middle, after, names, args, span, list@, ats, exprs)
        },
{
    let result = Ok::<egglog::ast::Expr, egglog::ast::ParseError>(expr);
    let (asked, exprs, fresh) = choose|
        asked: Seq<Event>,
        exprs: Seq<egglog::ast::Expr>,
        fresh: Seq<Seq<char>>,
    |
        leads(before, asked, after) && #[trigger] is_named_call(
            name,
            names,
            args,
            span,
            result,
            asked,
            exprs,
            fresh,
        );
    let (fills, end) = layout(name, names, args, 0, no_progress());
    assert(is_read(names, args, 0, no_progress()));
    lemma_layout_gives(name, names, args, 0, no_progress());
    let progress = end->Complete_0;
    let empty = empty_slots(progress.filled, names.len() as int);
    let ats = positions(fills);
    let list = match expr {
        egglog::ast::Expr::Call(_, _, list) => list@,
        _ => Seq::empty(),
    };
    lemma_leads_split(before, parsed(args, fills, exprs), freshened(fresh), after);
    let middle = choose|middle: egglog::ast::Parser| #[trigger]
        leads(before, parsed(args, fills, exprs), middle) && leads(
            middle,
            freshened(fresh),
            after,
        );
    assert(parse_events(args, ats, exprs) =~= parsed(args, fills, exprs));
    lemma_positions_are_values(names, args, fills, progress);
    lemma_is_filled(names, args, fills, progress);
    lemma_arguments_mean(
        middle,
        after,
        names,
        args,
        span,
        list,
        fills,
        progress.ellipsis,
        progress.filled,
        exprs,
        fresh,
    );
    assert(is_meant(before, middle, after, names, args, span, list, ats, exprs));
}

/// The positions of the values.
spec fn positions(fills: Seq<(int, int)>) -> Seq<int> {
    Seq::new(fills.len(), |k: int| fills[k].1)
}

proof fn lemma_positions_are_values(
    names: Seq<Seq<char>>,
    args: Seq<egglog::ast::Sexp>,
    fills: Seq<(int, int)>,
    progress: Progress,
)
    requires
        is_rest(names, args, 0, fills, progress),
    ensures
        are_values(args, positions(fills)),
        forall|k: int|
            0 <= k < positions(fills).len() ==> is_for_a_field(
                names,
                args,
                #[trigger] positions(fills)[k],
            ),
        is_well_formed(names, args),
{
    let ats = positions(fills);
    assert forall|at: int| #[trigger] ats.contains(at) <==> 0 <= at < args.len() && !marks(
        args[at],
    ) by {
        if ats.contains(at) {
            let k = ats.index_of(at);
            assert(gives(names, args, fills[k].0, fills[k].1));
        }
        if 0 <= at < args.len() && !marks(args[at]) {
            let m = choose|m: int| 0 <= m < fills.len() && (#[trigger] fills[m]).1 == at;
            assert(ats[m] == at);
        }
    }
    assert forall|k: int| 0 <= k < ats.len() implies is_for_a_field(
        names,
        args,
        #[trigger] ats[k],
    ) by {
        assert(gives(names, args, fills[k].0, fills[k].1));
    }
    assert forall|k: int, l: int| 0 <= k < l < ats.len() implies #[trigger] ats[k]
        < #[trigger] ats[l] by {
        assert(fills[k].1 < fills[l].1);
    }
}

/// The fields that have values are those that arguments are values for.
spec fn is_filled(
    names: Seq<Seq<char>>,
    args: Seq<egglog::ast::Sexp>,
    fills: Seq<(int, int)>,
    filled: Set<int>,
) -> bool {
    &&& forall|slot: int|
        0 <= slot < names.len() ==> (#[trigger] filled.contains(slot) <==> is_given(
            names,
            args,
            slot,
        ))
    &&& forall|m: int|
        0 <= m < fills.len() ==> gives(names, args, (#[trigger] fills[m]).0, fills[m].1)
}

proof fn lemma_is_filled(
    names: Seq<Seq<char>>,
    args: Seq<egglog::ast::Sexp>,
    fills: Seq<(int, int)>,
    progress: Progress,
)
    requires
        is_rest(names, args, 0, fills, progress),
    ensures
        is_filled(names, args, fills, progress.filled),
        progress.ellipsis ==> args.len() > 0 && is_ellipsis(args[args.len() - 1]),
{
    assert forall|slot: int| 0 <= slot < names.len() implies (
    #[trigger] progress.filled.contains(slot) <==> is_given(names, args, slot)) by {
        if is_given(names, args, slot) {
            let at = choose|at: int| gives(names, args, slot, at);
            assert(at < args.len() && gives(names, args, slot, at));
        }
    }
}

proof fn lemma_field_with_value(
    names: Seq<Seq<char>>,
    args: Seq<egglog::ast::Sexp>,
    span: egglog::ast::Span,
    arg: egglog::ast::Expr,
    slot: int,
    fills: Seq<(int, int)>,
    exprs: Seq<egglog::ast::Expr>,
    filled: Set<int>,
    fresh: Seq<Seq<char>>,
)
    requires
        is_filled(names, args, fills, filled),
        filled.contains(slot),
        is_argument(arg, slot, span, fills, exprs, filled, fresh),
    ensures
        has_value(names, args, positions(fills), exprs, slot, arg),
{
    let k = choose|k: int|
        0 <= k < fills.len() && (#[trigger] fills[k]).0 == slot && arg == exprs[k];
    assert(positions(fills)[k] == fills[k].1);
    assert(gives(names, args, slot, positions(fills)[k]));
}

proof fn lemma_field_without_value(
    middle: egglog::ast::Parser,
    after: egglog::ast::Parser,
    count: int,
    span: egglog::ast::Span,
    arg: egglog::ast::Expr,
    slot: int,
    fills: Seq<(int, int)>,
    exprs: Seq<egglog::ast::Expr>,
    filled: Set<int>,
    fresh: Seq<Seq<char>>,
)
    requires
        0 <= slot < count,
        !filled.contains(slot),
        is_argument(arg, slot, span, fills, exprs, filled, fresh),
        leads(middle, freshened(fresh), after),
        fresh.len() == empty_slots(filled, count).len(),
    ensures
        is_open(middle, after, span, arg),
        empty_slots(filled, slot).len() < fresh.len(),
        variable_name(arg) == fresh[empty_slots(filled, slot).len() as int],
{
    lemma_more_empty(filled, slot, count);
    lemma_fresh_names(middle, fresh, after);
    let n = empty_slots(filled, slot).len() as int;
    assert(!made(middle).contains(fresh[n]));
}

proof fn lemma_fields_differ(
    middle: egglog::ast::Parser,
    after: egglog::ast::Parser,
    count: int,
    span: egglog::ast::Span,
    arg: egglog::ast::Expr,
    slot: int,
    other_arg: egglog::ast::Expr,
    other: int,
    fills: Seq<(int, int)>,
    exprs: Seq<egglog::ast::Expr>,
    filled: Set<int>,
    fresh: Seq<Seq<char>>,
)
    requires
        0 <= slot < other < count,
        !filled.contains(slot),
        !filled.contains(other),
        is_argument(arg, slot, span, fills, exprs, filled, fresh),
        is_argument(other_arg, other, span, fills, exprs, filled, fresh),
        leads(middle, freshened(fresh), after),
        fresh.len() == empty_slots(filled, count).len(),
    ensures
        variable_name(arg) != variable_name(other_arg),
{
    lemma_field_without_value(
        middle,
        after,
        count,
        span,
        arg,
        slot,
        fills,
        exprs,
        filled,
        fresh,
    );
    lemma_field_without_value(
        middle,
        after,
        count,
        span,
        other_arg,
        other,
        fills,
        exprs,
        filled,
        fresh,
    );
    lemma_more_empty(filled, slot, other);
    lemma_fresh_names(middle, fresh, after);
}

proof fn lemma_arguments_mean(
    middle: egglog::ast::Parser,
    after: egglog::ast::Parser,
    names: Seq<Seq<char>>,
    args: Seq<egglog::ast::Sexp>,
    span: egglog::ast::Span,
    list: Seq<egglog::ast::Expr>,
    fills: Seq<(int, int)>,
    ellipsis: bool,
    filled: Set<int>,
    exprs: Seq<egglog::ast::Expr>,
    fresh: Seq<Seq<char>>,
)
    requires
        is_filled(names, args, fills, filled),
        ellipsis ==> args.len() > 0 && is_ellipsis(args[args.len() - 1]),
        list.len() == names.len(),
        leads(middle, freshened(fresh), after),
        fresh.len() == empty_slots(filled, names.len() as int).len(),
        !ellipsis ==> fresh.len() == 0,
        forall|slot: int|
            0 <= slot < names.len() ==> is_argument(
                #[trigger] list[slot],
                slot,
                span,
                fills,
                exprs,
                filled,
                fresh,
            ),
    ensures
        are_arguments(middle, after, names, args, span, list, positions(fills), exprs),
{
    let count = names.len() as int;
    assert forall|slot: int| 0 <= slot < names.len() && is_given(
        names,
        args,
        slot,
    ) implies has_value(names, args, positions(fills), exprs, slot, #[trigger] list[slot]) by {
        assert(filled.contains(slot));
        lemma_field_with_value(
            names,
            args,
            span,
            list[slot],
            slot,
            fills,
            exprs,
            filled,
            fresh,
        );
    }
    assert forall|slot: int| 0 <= slot < names.len() && !is_given(names, args, slot) implies is_open(
        middle,
        after,
        span,
        #[trigger] list[slot],
    ) by {
        assert(!filled.contains(slot));
        lemma_field_without_value(
            middle,
            after,
            count,
            span,
            list[slot],
            slot,
            fills,
            exprs,
            filled,
            fresh,
        );
    }
    assert forall|slot: int, other: int|
        {
            &&& 0 <= slot < other < names.len()
            &&& !is_given(names, args, slot)
            &&& !is_given(names, args, other)
        } implies variable_name(#[trigger] list[slot]) != variable_name(#[trigger] list[other]) by {
        assert(!filled.contains(slot));
        assert(!filled.contains(other));
        lemma_fields_differ(
            middle,
            after,
            count,
            span,
            list[slot],
            slot,
            list[other],
            other,
            fills,
            exprs,
            filled,
            fresh,
        );
    }
    assert forall|slot: int|
        0 <= slot < names.len() && !#[trigger] is_given(names, args, slot) implies args.len() > 0
        && is_ellipsis(args[args.len() - 1]) by {
        assert(!filled.contains(slot));
        lemma_more_empty(filled, slot, count);
    }
}

/// What a positional call means: its arguments are what its s-expressions are parsed to, one
/// after the other and in their order.
pub proof fn lemma_positional_call_means(
    before: egglog::ast::Parser,
    after: egglog::ast::Parser,
    name: Seq<char>,
    args: Seq<egglog::ast::Sexp>,
    span: egglog::ast::Span,
    expr: egglog::ast::Expr,
)
    requires
        positional_result(before, after, name, args, span, Ok(expr)),
    ensures
        expr matches egglog::ast::Expr::Call(place, head, list) && {
            &&& place == span
            &&& head@ == name
            &&& list@.len() == args.len()
            &&& leads(
                before,
                parse_events(args, Seq::new(args.len(), |k: int| k), list@),
                after,
            )
        },
{
    let result = Ok::<egglog::ast::Expr, egglog::ast::ParseError>(expr);
    let (asked, exprs) = choose|asked: Seq<Event>, exprs: Seq<egglog::ast::Expr>|
        leads(before, asked, after) && #[trigger] is_positional_call(
            name,
            args,
            span,
            result,
            asked,
            exprs,
        );
    let ats = Seq::new(args.len(), |k: int| k);
    assert(parse_events(args, ats, exprs) =~= all_parsed(args, exprs));
}

/// Every value is for some field.
pub open spec fn all_for_fields(names: Seq<Seq<char>>, args: Seq<egglog::ast::Sexp>) -> bool {
    forall|at: int|
        0 <= at < args.len() && !marks(#[trigger] args[at]) ==> is_for_a_field(names, args, at)
}

proof fn lemma_step_goes_on(
    name: Seq<char>,
    names: Seq<Seq<char>>,
    args: Seq<egglog::ast::Sexp>,
    i: int,
    progress: Progress,
)
    requires
        is_well_formed(names, args),
        all_for_fields(names, args),
        is_read(names, args, i, progress),
        i < args.len(),
    ensures
        !(step(name, names, args, i, progress) is Fail),
{
    let arg = args[i];
    if progress.ellipsis {
        assert(is_ellipsis(args[i - 1]));
        assert(false);
    } else if is_ellipsis(arg) {
    } else if is_key(arg) {
        assert(i + 1 < args.len() && !marks(args[i + 1]));
        assert(is_for_a_field(names, args, i + 1));
        let next = i + 1;
        let slot = choose|slot: int| gives(names, args, slot, next);
        assert(marks(args[i]));
        assert(is_key_of(names, args[i + 1 - 1], slot));
        let key = atom(arg)->0;
        assert(key.skip(1) =~= names[slot]);
        lemma_position(names, key.skip(1), 0);
        let found = position_from(names, key.skip(1), 0)->0;
        assert(found == slot) by {
            if found < slot {
                assert(names[found] != names[slot]);
            }
        }
        if progress.filled.contains(slot) {
            let at = choose|at: int| at < i && gives(names, args, slot, at);
            assert(gives(names, args, slot, i + 1));
            assert(at == i + 1);
        }
    } else {
        assert(!marks(args[i]));
        assert(is_for_a_field(names, args, i));
        let slot = choose|slot: int| gives(names, args, slot, i);
        if i > 0 && is_key_of(names, args[i - 1], slot) {
            lemma_key_marks(names, args[i - 1], slot);
            assert(false);
        }
        if progress.named {
            let k = choose|k: int| 0 <= k < i && is_key(#[trigger] args[k]);
            assert(marks(args[k]));
            assert(false);
        }
    }
}

proof fn lemma_layout_completes(
    name: Seq<char>,
    names: Seq<Seq<char>>,
    args: Seq<egglog::ast::Sexp>,
    i: int,
    progress: Progress,
)
    requires
        is_well_formed(names, args),
        all_for_fields(names, args),
        is_read(names, args, i, progress),
    ensures
        layout(name, names, args, i, progress).1 is Complete,
    decreases args.len() - i,
{
    if i < args.len() {
        lemma_step_goes_on(name, names, args, i, progress);
        match step(name, names, args, i, progress) {
            Step::Fail(_, _) => {},
            Step::Ellipsis => {
                lemma_ellipsis_is_read(names, args, i, progress);
                lemma_layout_completes(
                    name,
                    names,
                    args,
                    i + 1,
                    Progress { ellipsis: true, ..progress },
                );
            },
            Step::Fill(slot, at, named) => {
                lemma_fill_gives(name, names, args, i, progress, slot, at, named);
                lemma_layout_completes(name, names, args, at + 1, fill(progress, slot, named));
            },
        }
    }
}

proof fn lemma_ellipsis_is_read(
    names: Seq<Seq<char>>,
    args: Seq<egglog::ast::Sexp>,
    i: int,
    progress: Progress,
)
    requires
        is_read(names, args, i, progress),
        i < args.len(),
        is_ellipsis(args[i]),
        !progress.ellipsis,
    ensures
        is_read(names, args, i + 1, Progress { ellipsis: true, ..progress }),
{
    let next = Progress { ellipsis: true, ..progress };
    lemma_dots_are_no_key(args[i]);
    assert forall|slot: int| #[trigger] next.filled.contains(slot) <==> exists|at: int|
        at < i + 1 && gives(names, args, slot, at) by {
        if exists|at: int| at < i + 1 && gives(names, args, slot, at) {
            let at = choose|at: int| at < i + 1 && gives(names, args, slot, at);
            assert(at != i);
            assert(progress.filled.contains(slot));
        }
        if progress.filled.contains(slot) {
            let at = choose|at: int| at < i && gives(names, args, slot, at);
            assert(at < i + 1 && gives(names, args, slot, at));
        }
    }
    assert forall|slot: int, at: int, other: int|
        #[trigger] gives(names, args, slot, at) && #[trigger] gives(names, args, slot, other) && at
            < i + 1 && other < i + 1 implies at == other by {
        assert(at != i && other != i);
    }
}

/// A call that is well formed succeeds: with every value for some field, and each field with a
/// value or the ellipsis at the end, the only thing that can go wrong is that a value is not
/// parsed.
pub proof fn lemma_well_formed_call_succeeds(
    name: Seq<char>,
    names: Seq<Seq<char>>,
    args: Seq<egglog::ast::Sexp>,
    span: egglog::ast::Span,
    error: egglog::ast::ParseError,
    asked: Seq<Event>,
    exprs: Seq<egglog::ast::Expr>,
    fresh: Seq<Seq<char>>,
)
    requires
        is_well_formed(names, args),
        all_for_fields(names, args),
        args.len() > 0 && is_ellipsis(args[args.len() - 1]) || forall|slot: int|
            0 <= slot < names.len() ==> #[trigger] is_given(names, args, slot),
        is_named_call(name, names, args, span, Err(error), asked, exprs, fresh),
    ensures
        asked.len() > 0,
        asked.last() matches Event::Expr(sexp, Err(given)) && given == error && args.contains(sexp),
{
    let (fills, end) = layout(name, names, args, 0, no_progress());
    assert(is_read(names, args, 0, no_progress()));
    lemma_layout_completes(name, names, args, 0, no_progress());
    lemma_layout_gives(name, names, args, 0, no_progress());
    let progress = end->Complete_0;
    lemma_is_filled(names, args, fills, progress);
    if exprs.len() < fills.len() {
        let m = exprs.len() as int;
        assert(gives(names, args, fills[m].0, fills[m].1));
        assert(args[fills[m].1] == args[fills[m].1]);
    } else {
        if args.len() > 0 && is_ellipsis(args[args.len() - 1]) {
            assert(progress.ellipsis);
        } else {
            lemma_none_empty(progress.filled, names.len() as int);
        }
    }
}

proof fn lemma_none_empty(filled: Set<int>, count: int)
    ensures
        (forall|slot: int| 0 <= slot < count ==> #[trigger] filled.contains(slot)) ==> empty_slots(
            filled,
            count,
        ).len() == 0,
    decreases count,
{
    if count > 0 {
        lemma_none_empty(filled, count - 1);
    }
}

/// Why the argument at position `i` is wrong: this is said of this place.
pub open spec fn is_reason_at(
    name: Seq<char>,
    names: Seq<Seq<char>>,
    args: Seq<egglog::ast::Sexp>,
    i: int,
    place: egglog::ast::Span,
    text: Seq<char>,
) -> bool {
    let arg = args[i];
    let key = key_name(arg);
    &&& 0 <= i < args.len()
    &&& {
        ||| {
            &&& i > 0
            &&& is_ellipsis(args[i - 1])
            &&& place == sexp_span(arg)
            &&& text == "`...` must be the last argument"@
        }
        ||| {
            &&& is_key(arg)
            &&& !names.contains(key)
            &&& place == sexp_span(arg)
            &&& text == "`"@ + name + "` has no argument named `"@ + key + "`"@
        }
        ||| {
            &&& is_key(arg)
            &&& is_given_before(names, args, i, key)
            &&& place == sexp_span(arg)
            &&& text == "argument `"@ + key + "` of `"@ + name + "` specified more than once"@
        }
        ||| {
            &&& is_key(arg)
            &&& i == args.len() - 1
            &&& place == sexp_span(arg)
            &&& text == "`:"@ + key + "` requires a value"@
        }
        ||| {
            &&& is_key(arg)
            &&& i < args.len() - 1
            &&& marks(args[i + 1])
            &&& place == sexp_span(args[i + 1])
            &&& text == "expected a value for `:"@ + key + "`"@
        }
        ||| {
            &&& !marks(arg)
            &&& i > 0
            &&& !is_key(args[i - 1])
            &&& has_key_before(args, i)
            &&& place == sexp_span(arg)
            &&& text == "positional arguments must come before named arguments"@
        }
        ||| {
            &&& !marks(arg)
            &&& i >= names.len()
            &&& forall|k: int| 0 <= k <= i ==> !marks(#[trigger] args[k])
            &&& place == sexp_span(arg)
            &&& text == "`"@ + name + "` takes "@ + decimal(names.len())
                + " argument(s) but was given more"@
        }
    }
}

/// The name in a key.
pub open spec fn key_name(key: egglog::ast::Sexp) -> Seq<char> {
    match key {
        egglog::ast::Sexp::Atom(text, _) => text@.skip(1),
        _ => Seq::empty(),
    }
}

/// There is a key before the position.
pub open spec fn has_key_before(args: Seq<egglog::ast::Sexp>, i: int) -> bool {
    exists|k: int| 0 <= k < i && is_key(#[trigger] args[k])
}

/// The field of the name has a value before the position.
pub open spec fn is_given_before(
    names: Seq<Seq<char>>,
    args: Seq<egglog::ast::Sexp>,
    i: int,
    key: Seq<char>,
) -> bool {
    exists|slot: int, at: int|
        0 <= slot < names.len() && names[slot] == key && at < i && #[trigger] gives(
            names,
            args,
            slot,
            at,
        )
}

/// Why some argument is wrong: this is said of this place.
pub open spec fn is_reason(
    name: Seq<char>,
    names: Seq<Seq<char>>,
    args: Seq<egglog::ast::Sexp>,
    place: egglog::ast::Span,
    text: Seq<char>,
) -> bool {
    exists|i: int| #[trigger] is_reason_at(name, names, args, i, place, text)
}

proof fn lemma_layout_fails(
    name: Seq<char>,
    names: Seq<Seq<char>>,
    args: Seq<egglog::ast::Sexp>,
    i: int,
    progress: Progress,
)
    requires
        is_read(names, args, i, progress),
    ensures
        layout(name, names, args, i, progress).1 matches End::Fail(place, text) ==> is_reason(
            name,
            names,
            args,
            place,
            text,
        ),
    decreases args.len() - i,
{
    if i < args.len() {
        match step(name, names, args, i, progress) {
            Step::Fail(place, text) => {
                let arg = args[i];
                if progress.ellipsis {
                    assert(is_ellipsis(args[i - 1]));
                } else if is_key(arg) && !is_ellipsis(arg) {
                    let key = key_name(arg);
                    lemma_position(names, key, 0);
                    match position_from(names, key, 0) {
                        None => {
                            if names.contains(key) {
                                let k = names.index_of(key);
                                assert(names[k] == key);
                            }
                        },
                        Some(slot) => {
                            if progress.filled.contains(slot) {
                                let at = choose|at: int| at < i && gives(names, args, slot, at);
                                assert(is_given_before(names, args, i, key));
                            }
                        },
                    }
                } else {
                    assert(!marks(arg));
                    if progress.named {
                        assert(has_key_before(args, i));
                        let k = choose|k: int| 0 <= k < i && is_key(#[trigger] args[k]);
                        assert(i > 0);
                    } else {
                        assert forall|k: int| 0 <= k <= i implies !marks(#[trigger] args[k]) by {
                            if k < i {
                                assert(!is_ellipsis(args[k]));
                                assert(!is_key(args[k]));
                            }
                        }
                    }
                }
                assert(is_reason_at(name, names, args, i, place, text));
                assert(layout(name, names, args, i, progress).1 == End::Fail(place, text));
            },
            Step::Ellipsis => {
                let next = Progress { ellipsis: true, ..progress };
                lemma_ellipsis_is_read(names, args, i, progress);
                lemma_layout_fails(name, names, args, i + 1, next);
                assert(layout(name, names, args, i, progress) == layout(
                    name,
                    names,
                    args,
                    i + 1,
                    next,
                ));
            },
            Step::Fill(slot, at, named) => {
                let next = fill(progress, slot, named);
                lemma_fill_gives(name, names, args, i, progress, slot, at, named);
                lemma_layout_fails(name, names, args, at + 1, next);
                assert(layout(name, names, args, i, progress).1 == layout(
                    name,
                    names,
                    args,
                    at + 1,
                    next,
                ).1);
            },
        }
    }
}

/// The fields without a value, in their order.
pub open spec fn are_missing(
    names: Seq<Seq<char>>,
    args: Seq<egglog::ast::Sexp>,
    missing: Seq<int>,
) -> bool {
    &&& missing.len() > 0
    &&& forall|k: int, l: int|
        0 <= k < l < missing.len() ==> #[trigger] missing[k] < #[trigger] missing[l]
    &&& forall|slot: int| #[trigger]
        missing.contains(slot) <==> 0 <= slot < names.len() && !is_given(names, args, slot)
}

proof fn lemma_empty_slots_are_missing(filled: Set<int>, count: int)
    ensures
        forall|k: int, l: int|
            0 <= k < l < empty_slots(filled, count).len() ==> #[trigger] empty_slots(
                filled,
                count,
            )[k] < #[trigger] empty_slots(filled, count)[l],
        forall|slot: int| #[trigger]
            empty_slots(filled, count).contains(slot) <==> 0 <= slot < count && !filled.contains(
                slot,
            ),
    decreases count,
{
    if count > 0 {
        lemma_empty_slots_are_missing(filled, count - 1);
        let front = empty_slots(filled, count - 1);
        let all = empty_slots(filled, count);
        if !filled.contains(count - 1) {
            assert forall|slot: int| #[trigger] all.contains(slot) <==> 0 <= slot < count
                && !filled.contains(slot) by {
                crate::lists::lemma_push_contains(front, count - 1, slot);
                assert(front.contains(slot) <==> 0 <= slot < count - 1 && !filled.contains(slot));
            }
            assert forall|k: int, l: int| 0 <= k < l < all.len() implies #[trigger] all[k]
                < #[trigger] all[l] by {
                assert(front[k] == all[k]);
                assert(front.contains(front[k]));
                if l < front.len() {
                    assert(front[l] == all[l]);
                }
            }
        } else {
            assert forall|slot: int| #[trigger] all.contains(slot) <==> 0 <= slot < count
                && !filled.contains(slot) by {
                assert(front.contains(slot) <==> 0 <= slot < count - 1 && !filled.contains(slot));
            }
        }
    }
}

/// The names of the fields.
pub open spec fn missing_names(names: Seq<Seq<char>>, missing: Seq<int>) -> Seq<Seq<char>> {
    Seq::new(missing.len(), |k: int| names[missing[k]])
}

/// The error lists the names of the fields without a value, in their order.
pub open spec fn tells_missing(
    name: Seq<char>,
    names: Seq<Seq<char>>,
    missing: Seq<int>,
    text: Seq<char>,
) -> bool {
    exists|listed: Seq<char>|
        {
            &&& #[trigger] consists_of(
                listed,
                separated(missing_names(names, missing), ", "@),
            )
            &&& text == "`"@ + name + "` is missing argument(s): "@ + listed
                + " (add `...` to bind the rest to fresh variables)"@
        }
}

/// A call fails only for a reason: a value is not parsed; or an argument is wrong, and the error
/// says so of its place; or fields have no value and there is no ellipsis, and the error names
/// them in their order.
pub proof fn lemma_call_fails_for_a_reason(
    name: Seq<char>,
    names: Seq<Seq<char>>,
    args: Seq<egglog::ast::Sexp>,
    span: egglog::ast::Span,
    error: egglog::ast::ParseError,
    asked: Seq<Event>,
    exprs: Seq<egglog::ast::Expr>,
    fresh: Seq<Seq<char>>,
)
    requires
        is_named_call(name, names, args, span, Err(error), asked, exprs, fresh),
    ensures
        ({
            ||| asked.len() > 0 && (asked.last() matches Event::Expr(sexp, Err(given)) && given
                == error)
            ||| is_reason(name, names, args, error.0, error.1@)
            ||| error.0 == span && exists|missing: Seq<int>|
                #[trigger] are_missing(names, args, missing) && tells_missing(
                    name,
                    names,
                    missing,
                    error.1@,
                )
        }),
{
    let (fills, end) = layout(name, names, args, 0, no_progress());
    assert(is_read(names, args, 0, no_progress()));
    if exprs.len() == fills.len() {
        match end {
            End::Fail(place, text) => {
                lemma_layout_fails(name, names, args, 0, no_progress());
            },
            End::Complete(progress) => {
                lemma_layout_gives(name, names, args, 0, no_progress());
                lemma_is_filled(names, args, fills, progress);
                let missing = empty_slots(progress.filled, names.len() as int);
                lemma_empty_slots_are_missing(progress.filled, names.len() as int);
                assert forall|slot: int| #[trigger] missing.contains(slot) <==> 0 <= slot
                    < names.len() && !is_given(names, args, slot) by {
                    if 0 <= slot < names.len() {
                        assert(progress.filled.contains(slot) <==> is_given(names, args, slot));
                    }
                }
                assert(are_missing(names, args, missing));
                let parts = missing_names(names, missing);
                assert(parts =~= names_at(names, missing));
                lemma_joined_stand_in_order(parts, ", "@);
                assert(tells_missing(name, names, missing, error.1@));
            },
        }
    }
}

} // verus!

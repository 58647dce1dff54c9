//! Calls with named arguments.

use std::sync::Arc;
use vstd::prelude::*;
use crate::named_args::parser::{
    follows_spelling, fresh_name, keeps_words, leads, lemma_leads_concat, lemma_leads_push, made,
    parse_expr, parses_expr, spelled, spells, Event,
};
use crate::named_args::sexp::{
    atom, is_key, is_keyword, parse_error, says, sexp_span, without_first,
};
use crate::text::{decimal, decimal_text, join, joined, same, texts};

verus! {

/// The s-expression is the ellipsis `...`.
pub open spec fn is_ellipsis(sexp: egglog::ast::Sexp) -> bool {
    atom(sexp) == Some("..."@)
}

/// The s-expression is a marker in a call: the ellipsis or a `:name` keyword.
/// A marker is never a plain argument value.
pub open spec fn marks(sexp: egglog::ast::Sexp) -> bool {
    is_ellipsis(sexp) || is_key(sexp)
}

/// Whether the s-expression is a marker in a call.
pub fn is_marker(sexp: &egglog::ast::Sexp) -> (yes: bool)
    ensures
        yes == marks(*sexp),
{
    match sexp {
        egglog::ast::Sexp::Atom(text, _) => same(text.as_str(), "...") || is_keyword(text.as_str()),
        _ => false,
    }
}

/// The first position at which a name stands, from `from` on.
pub open spec fn position_from(names: Seq<Seq<char>>, key: Seq<char>, from: int) -> Option<int>
    decreases names.len() - from,
{
    if from < 0 || from >= names.len() {
        None
    } else if names[from] == key {
        Some(from)
    } else {
        position_from(names, key, from + 1)
    }
}

/// The first position of a name.
fn position(names: &Vec<String>, key: &str) -> (found: Option<usize>)
    ensures
        match found {
            Some(place) => {
                &&& position_from(texts(names@), key@, 0) == Some(place as int)
                &&& place < names@.len()
            },
            None => position_from(texts(names@), key@, 0) is None,
        },
{
    for i in 0..names.len()
        invariant
            position_from(texts(names@), key@, 0) == position_from(texts(names@), key@, i as int),
    {
        if same(names[i].as_str(), key) {
            return Some(i);
        }
    }
    None
}

/// How far the arguments of a call have been read.
pub struct Progress {
    /// The fields that have a value.
    pub filled: Set<int>,
    /// Whether the ellipsis was read.
    pub ellipsis: bool,
    /// Whether a named argument was read.
    pub named: bool,
    /// The field of the next positional argument.
    pub next: int,
}

/// The beginning of a call.
pub open spec fn no_progress() -> Progress {
    Progress { filled: Set::empty(), ellipsis: false, named: false, next: 0 }
}

/// What the argument at some position does.
pub enum Step {
    /// It is an error, at this place and with this text.
    Fail(egglog::ast::Span, Seq<char>),
    /// It is the ellipsis.
    Ellipsis,
    /// The s-expression at position `at` is the value of a field.
    Fill(int, int, bool),
}

/// What the argument at position `i` does.
pub open spec fn step(
    name: Seq<char>,
    names: Seq<Seq<char>>,
    args: Seq<egglog::ast::Sexp>,
    i: int,
    progress: Progress,
) -> Step {
    let arg = args[i];
    let span = sexp_span(arg);
    if progress.ellipsis {
        Step::Fail(span, "`...` must be the last argument"@)
    } else if is_ellipsis(arg) {
        Step::Ellipsis
    } else if is_key(arg) {
        let key = atom(arg)->0.skip(1);
        match position_from(names, key, 0) {
            None => Step::Fail(span, "`"@ + name + "` has no argument named `"@ + key + "`"@),
            Some(slot) => if progress.filled.contains(slot) {
                Step::Fail(
                    span,
                    "argument `"@ + key + "` of `"@ + name + "` specified more than once"@,
                )
            } else if i + 1 >= args.len() {
                Step::Fail(span, "`:"@ + key + "` requires a value"@)
            } else if marks(args[i + 1]) {
                Step::Fail(sexp_span(args[i + 1]), "expected a value for `:"@ + key + "`"@)
            } else {
                Step::Fill(slot, i + 1, true)
            },
        }
    } else if progress.named {
        Step::Fail(span, "positional arguments must come before named arguments"@)
    } else if progress.next >= names.len() {
        Step::Fail(
            span,
            "`"@ + name + "` takes "@ + decimal(names.len())
                + " argument(s) but was given more"@,
        )
    } else {
        Step::Fill(progress.next, i, false)
    }
}

/// The progress behind a field's value.
pub open spec fn fill(progress: Progress, slot: int, named: bool) -> Progress {
    Progress {
        filled: progress.filled.insert(slot),
        ellipsis: progress.ellipsis,
        named: progress.named || named,
        next: if named {
            progress.next
        } else {
            progress.next + 1
        },
    }
}

/// How the reading of the arguments ends.
pub enum End {
    /// All arguments were read.
    Complete(Progress),
    /// There is an error, at this place and with this text.
    Fail(egglog::ast::Span, Seq<char>),
}

/// Which s-expressions give values to which fields, in order, and how the
/// reading ends.
pub open spec fn layout(
    name: Seq<char>,
    names: Seq<Seq<char>>,
    args: Seq<egglog::ast::Sexp>,
    i: int,
    progress: Progress,
) -> (Seq<(int, int)>, End)
    decreases args.len() - i,
{
    if i < 0 || i >= args.len() {
        (Seq::empty(), End::Complete(progress))
    } else {
        match step(name, names, args, i, progress) {
            Step::Fail(span, text) => (Seq::empty(), End::Fail(span, text)),
            Step::Ellipsis => layout(
                name,
                names,
                args,
                i + 1,
                Progress { ellipsis: true, ..progress },
            ),
            Step::Fill(slot, at, named) => {
                let (rest, end) = if at >= i {
                    layout(name, names, args, at + 1, fill(progress, slot, named))
                } else {
                    (Seq::empty(), End::Complete(progress))
                };
                (seq![(slot, at)] + rest, end)
            },
        }
    }
}

/// The s-expressions at the given positions were parsed to these expressions.
pub open spec fn parsed(
    args: Seq<egglog::ast::Sexp>,
    fills: Seq<(int, int)>,
    exprs: Seq<egglog::ast::Expr>,
) -> Seq<Event> {
    Seq::new(exprs.len(), |k: int| Event::Expr(args[fills[k].1], Ok(exprs[k])))
}

/// The fields without a value among the first `count`, in order.
pub open spec fn empty_slots(filled: Set<int>, count: int) -> Seq<int>
    decreases count,
{
    if count <= 0 {
        Seq::empty()
    } else if filled.contains(count - 1) {
        empty_slots(filled, count - 1)
    } else {
        empty_slots(filled, count - 1).push(count - 1)
    }
}

/// The names of the fields.
pub open spec fn names_at(names: Seq<Seq<char>>, slots: Seq<int>) -> Seq<Seq<char>> {
    slots.map_values(|slot: int| names[slot])
}

/// The text that lists missing arguments.
pub open spec fn missing_text(name: Seq<char>, missing: Seq<Seq<char>>) -> Seq<char> {
    "`"@ + name + "` is missing argument(s): "@ + joined(missing, ", "@)
        + " (add `...` to bind the rest to fresh variables)"@
}

/// The fresh names were made, in order.
pub open spec fn freshened(fresh: Seq<Seq<char>>) -> Seq<Event> {
    fresh.map_values(|name: Seq<char>| Event::Fresh(name))
}

/// The argument of a field: the parsed value, or a variable with a fresh name
/// for a field without a value.
pub open spec fn is_argument(
    arg: egglog::ast::Expr,
    slot: int,
    span: egglog::ast::Span,
    fills: Seq<(int, int)>,
    exprs: Seq<egglog::ast::Expr>,
    filled: Set<int>,
    fresh: Seq<Seq<char>>,
) -> bool {
    if filled.contains(slot) {
        exists|k: int| 0 <= k < fills.len() && (#[trigger] fills[k]).0 == slot && arg == exprs[k]
    } else {
        &&& arg matches egglog::ast::Expr::Var(place, variable)
        &&& place == span
        &&& variable@ == fresh[empty_slots(filled, slot).len() as int]
    }
}

/// What a call with named arguments gives, and what was asked of the parser.
pub open spec fn is_named_call(
    name: Seq<char>,
    names: Seq<Seq<char>>,
    args: Seq<egglog::ast::Sexp>,
    span: egglog::ast::Span,
    result: Result<egglog::ast::Expr, egglog::ast::ParseError>,
    asked: Seq<Event>,
    exprs: Seq<egglog::ast::Expr>,
    fresh: Seq<Seq<char>>,
) -> bool {
    let (fills, end) = layout(name, names, args, 0, no_progress());
    if exprs.len() < fills.len() {
        &&& result matches Err(error)
        &&& asked == parsed(args, fills, exprs).push(
            Event::Expr(args[fills[exprs.len() as int].1], Err(error)),
        )
    } else {
        &&& exprs.len() == fills.len()
        &&& match end {
            End::Fail(place, text) => {
                &&& result matches Err(error)
                &&& says(error, place, text)
                &&& asked == parsed(args, fills, exprs)
            },
            End::Complete(progress) => {
                let empty = empty_slots(progress.filled, names.len() as int);
                if !progress.ellipsis && empty.len() > 0 {
                    &&& result matches Err(error)
                    &&& says(error, span, missing_text(name, names_at(names, empty)))
                    &&& asked == parsed(args, fills, exprs)
                } else {
                    &&& result matches Ok(egglog::ast::Expr::Call(place, head, list))
                    &&& place == span
                    &&& head@ == name
                    &&& list@.len() == names.len()
                    &&& fresh.len() == empty.len()
                    &&& fresh.no_duplicates()
                    &&& asked == parsed(args, fills, exprs) + freshened(fresh)
                    &&& forall|slot: int|
                        0 <= slot < list@.len() ==> is_argument(
                            #[trigger] list@[slot],
                            slot,
                            span,
                            fills,
                            exprs,
                            progress.filled,
                            fresh,
                        )
                }
            },
        }
    }
}

/// What a call with named arguments gives: the fields of the call are what the
/// parser makes of their arguments, one after the other, and nothing else is
/// asked of it but fresh names.
pub open spec fn named_result(
    before: egglog::ast::Parser,
    after: egglog::ast::Parser,
    name: Seq<char>,
    names: Seq<Seq<char>>,
    args: Seq<egglog::ast::Sexp>,
    span: egglog::ast::Span,
    result: Result<egglog::ast::Expr, egglog::ast::ParseError>,
) -> bool {
    exists|asked: Seq<Event>, exprs: Seq<egglog::ast::Expr>, fresh: Seq<Seq<char>>|
        leads(before, asked, after) && #[trigger] is_named_call(
            name,
            names,
            args,
            span,
            result,
            asked,
            exprs,
            fresh,
        )
}

/// The arguments were parsed in order to these expressions.
pub open spec fn all_parsed(
    args: Seq<egglog::ast::Sexp>,
    exprs: Seq<egglog::ast::Expr>,
) -> Seq<Event> {
    Seq::new(exprs.len(), |k: int| Event::Expr(args[k], Ok(exprs[k])))
}

/// What a positional call gives, and what was asked of the parser.
pub open spec fn is_positional_call(
    name: Seq<char>,
    args: Seq<egglog::ast::Sexp>,
    span: egglog::ast::Span,
    result: Result<egglog::ast::Expr, egglog::ast::ParseError>,
    asked: Seq<Event>,
    exprs: Seq<egglog::ast::Expr>,
) -> bool {
    if exprs.len() < args.len() {
        &&& result matches Err(error)
        &&& asked == all_parsed(args, exprs).push(
            Event::Expr(args[exprs.len() as int], Err(error)),
        )
    } else {
        &&& exprs.len() == args.len()
        &&& asked == all_parsed(args, exprs)
        &&& result matches Ok(egglog::ast::Expr::Call(place, head, list))
        &&& place == span
        &&& head@ == name
        &&& list@ == exprs
    }
}

/// What a positional call gives: its arguments are what the parser makes of
/// theirs, one after the other, and nothing else is asked of it.
pub open spec fn positional_result(
    before: egglog::ast::Parser,
    after: egglog::ast::Parser,
    name: Seq<char>,
    args: Seq<egglog::ast::Sexp>,
    span: egglog::ast::Span,
    result: Result<egglog::ast::Expr, egglog::ast::ParseError>,
) -> bool {
    exists|asked: Seq<Event>, exprs: Seq<egglog::ast::Expr>|
        leads(before, asked, after) && #[trigger] is_positional_call(
            name,
            args,
            span,
            result,
            asked,
            exprs,
        )
}

/// The values that were found for the fields.
pub open spec fn is_held(
    slots: Seq<Option<egglog::ast::Expr>>,
    filled: Set<int>,
    fills: Seq<(int, int)>,
    exprs: Seq<egglog::ast::Expr>,
) -> bool {
    &&& forall|k: int|
        0 <= k < slots.len() ==> ((#[trigger] slots[k]) is Some <==> filled.contains(k))
    &&& forall|k: int|
        0 <= k < slots.len() && (#[trigger] slots[k]) is Some ==> exists|j: int|
            0 <= j < fills.len() && (#[trigger] fills[j]).0 == k && slots[k] == Some(exprs[j])
}

/// What the reading of the arguments gives: the values of the fields and
/// whether there is an ellipsis.
pub open spec fn is_reading(
    name: Seq<char>,
    names: Seq<Seq<char>>,
    args: Seq<egglog::ast::Sexp>,
    result: Result<(Vec<Option<egglog::ast::Expr>>, bool), egglog::ast::ParseError>,
    asked: Seq<Event>,
    exprs: Seq<egglog::ast::Expr>,
) -> bool {
    let (fills, end) = layout(name, names, args, 0, no_progress());
    if exprs.len() < fills.len() {
        &&& result matches Err(error)
        &&& asked == parsed(args, fills, exprs).push(
            Event::Expr(args[fills[exprs.len() as int].1], Err(error)),
        )
    } else {
        &&& exprs.len() == fills.len()
        &&& asked == parsed(args, fills, exprs)
        &&& match end {
            End::Fail(place, text) => result matches Err(error) && says(error, place, text),
            End::Complete(progress) => {
                &&& result matches Ok((slots, ellipsis))
                &&& ellipsis == progress.ellipsis
                &&& slots@.len() == names.len()
                &&& is_held(slots@, progress.filled, fills, exprs)
            },
        }
    }
}

/// The fields that have a value.
pub open spec fn held(slots: Seq<Option<egglog::ast::Expr>>) -> Set<int> {
    Set::new(|k: int| 0 <= k < slots.len() && slots[k] is Some)
}

proof fn lemma_empty_slots_agree(left: Set<int>, right: Set<int>, count: int)
    requires
        forall|k: int| 0 <= k < count ==> (left.contains(k) <==> #[trigger] right.contains(k)),
    ensures
        empty_slots(left, count) == empty_slots(right, count),
    decreases count,
{
    if count > 0 {
        assert(left.contains(count - 1) <==> right.contains(count - 1));
        lemma_empty_slots_agree(left, right, count - 1);
    }
}

/// A call of a name that was declared with named fields. It takes leading
/// positional arguments, named arguments in any order, and an ellipsis at the
/// end.
pub struct NamedCall {
    /// The declared name.
    pub name: String,
    /// The names of the fields, in the order of the declaration.
    pub arg_names: Vec<String>,
}

impl NamedCall {
    /// Reads the arguments of a call.
    fn read(&self, args: &[egglog::ast::Sexp], parser: &mut egglog::ast::Parser) -> (result: Result<
        (Vec<Option<egglog::ast::Expr>>, bool),
        egglog::ast::ParseError,
    >)
        ensures
            exists|asked: Seq<Event>, exprs: Seq<egglog::ast::Expr>|
                leads(*old(parser), asked, *final(parser)) && #[trigger] is_reading(
                    self.name@,
                    texts(self.arg_names@),
                    args@,
                    result,
                    asked,
                    exprs,
                ),
    {
        let arity = self.arg_names.len();
        let ghost name = self.name@;
        let ghost names = texts(self.arg_names@);
        let ghost before = *parser;
        let ghost whole = layout(name, names, args@, 0, no_progress());
        let ghost mut progress = no_progress();
        let ghost mut done: Seq<(int, int)> = Seq::empty();
        let ghost mut exprs: Seq<egglog::ast::Expr> = Seq::empty();
        let mut slots: Vec<Option<egglog::ast::Expr>> = Vec::new();
        for k in 0..arity
            invariant
                slots@.len() == k,
                forall|j: int| 0 <= j < k ==> #[trigger] slots@[j] is None,
        {
            slots.push(None);
        }
        let mut has_ellipsis = false;
        let mut seen_named = false;
        let mut next_positional: usize = 0;
        let mut i: usize = 0;
        proof {
            assert(whole.0 =~= done + whole.0);
            assert(parsed(args@, done, exprs) =~= Seq::empty());
        }
        while i < args.len()
            invariant
                arity == self.arg_names@.len(),
                name == self.name@,
                names == texts(self.arg_names@),
                before == *old(parser),
                whole == layout(name, names, args@, 0, no_progress()),
                i <= args@.len(),
                has_ellipsis == progress.ellipsis,
                seen_named == progress.named,
                next_positional == progress.next,
                next_positional <= arity,
                slots@.len() == arity,
                whole.0 == done + layout(name, names, args@, i as int, progress).0,
                whole.1 == layout(name, names, args@, i as int, progress).1,
                done.len() == exprs.len(),
                leads(before, parsed(args@, done, exprs), *parser),
                is_held(slots@, progress.filled, done, exprs),
            decreases args@.len() - i,
        {
            let ghost here = step(name, names, args@, i as int, progress);
            let ghost asked = parsed(args@, done, exprs);
            assert(here is Fail ==> whole.0 =~= done && whole.1 == End::Fail(here->Fail_0, here->Fail_1));
            if has_ellipsis {
                let result = Err(parse_error(args[i].span(), "`...` must be the last argument"));
                assert(is_reading(name, names, args@, result, asked, exprs));
                return result;
            }
            let slot: usize;
            let value: usize;
            let named: bool;
            match &args[i] {
                egglog::ast::Sexp::Atom(text, key_span) if same(text.as_str(), "...") => {
                    has_ellipsis = true;
                    i = i + 1;
                    proof {
                        progress = Progress { ellipsis: true, ..progress };
                    }
                    continue;
                },
                egglog::ast::Sexp::Atom(text, key_span) if is_keyword(text.as_str()) => {
                    let key = without_first(text.as_str());
                    let place = match position(&self.arg_names, key.as_str()) {
                        Some(place) => place,
                        None => {
                            let result = Err(
                                parse_error(key_span.clone(), unknown(&self.name, &key).as_str()),
                            );
                            assert(is_reading(name, names, args@, result, asked, exprs));
                            return result;
                        },
                    };
                    if slots[place].is_some() {
                        let result = Err(
                            parse_error(key_span.clone(), repeated(&self.name, &key).as_str()),
                        );
                        assert(is_reading(name, names, args@, result, asked, exprs));
                        return result;
                    }
                    if i + 1 >= args.len() {
                        let result = Err(
                            parse_error(key_span.clone(), no_value(&key).as_str()),
                        );
                        assert(is_reading(name, names, args@, result, asked, exprs));
                        return result;
                    }
                    if is_marker(&args[i + 1]) {
                        let result = Err(
                            parse_error(args[i + 1].span(), bad_value(&key).as_str()),
                        );
                        assert(is_reading(name, names, args@, result, asked, exprs));
                        return result;
                    }
                    slot = place;
                    value = i + 1;
                    named = true;
                },
                other => {
                    if seen_named {
                        let result = Err(
                            parse_error(
                                other.span(),
                                "positional arguments must come before named arguments",
                            ),
                        );
                        assert(is_reading(name, names, args@, result, asked, exprs));
                        return result;
                    }
                    if next_positional >= arity {
                        let result = Err(
                            parse_error(other.span(), too_many(&self.name, arity).as_str()),
                        );
                        assert(is_reading(name, names, args@, result, asked, exprs));
                        return result;
                    }
                    slot = next_positional;
                    value = i;
                    named = false;
                },
            }
            assert(here == Step::Fill(slot as int, value as int, named));
            let ghost rest = layout(
                name,
                names,
                args@,
                value + 1,
                fill(progress, slot as int, named),
            );
            assert(whole.0 =~= done.push((slot as int, value as int)) + rest.0);
            let ghost middle = *parser;
            match parse_expr(parser, &args[value]) {
                Ok(expr) => {
                    let ghost old_slots = slots@;
                    let ghost old_exprs = exprs;
                    let ghost old_done = done;
                    proof {
                        exprs = exprs.push(expr);
                        done = done.push((slot as int, value as int));
                        progress = fill(progress, slot as int, named);
                        assert(parsed(args@, done, exprs) =~= asked.push(
                            Event::Expr(args@[value as int], Ok(expr)),
                        ));
                        lemma_leads_push(
                            before,
                            asked,
                            middle,
                            Event::Expr(args@[value as int], Ok(expr)),
                            *parser,
                        );
                    }
                    slots.set(slot, Some(expr));
                    if named {
                        seen_named = true;
                    } else {
                        next_positional = next_positional + 1;
                    }
                    i = value + 1;
                    proof {
                        assert forall|k: int|
                            0 <= k < slots@.len() && (#[trigger] slots@[k]) is Some implies exists|
                            j: int,
                        |
                            0 <= j < done.len() && (#[trigger] done[j]).0 == k && slots@[k] == Some(
                                exprs[j],
                            ) by {
                            if k == slot {
                                assert(done[old_done.len() as int].0 == k);
                            } else {
                                assert(old_slots[k] is Some);
                                let j = choose|j: int|
                                    0 <= j < old_done.len() && (#[trigger] old_done[j]).0 == k
                                        && old_slots[k] == Some(old_exprs[j]);
                                assert(done[j] == old_done[j]);
                            }
                        }
                    }
                },
                Err(error) => {
                    let result = Err(error);
                    proof {
                        assert(whole.0[exprs.len() as int] == (slot as int, value as int));
                        let all = asked.push(Event::Expr(args@[value as int], Err(error)));
                        assert(parsed(args@, whole.0, exprs) =~= asked);
                        lemma_leads_push(
                            before,
                            asked,
                            middle,
                            Event::Expr(args@[value as int], Err(error)),
                            *parser,
                        );
                        assert(is_reading(name, names, args@, result, all, exprs));
                    }
                    return result;
                },
            }
        }
        let result = Ok((slots, has_ellipsis));
        proof {
            assert(whole.0 =~= done);
            assert(is_reading(name, names, args@, result, parsed(args@, done, exprs), exprs));
        }
        result
    }
    /// Puts the call together from the values of the fields.
    fn finish(
        &self,
        slots: Vec<Option<egglog::ast::Expr>>,
        has_ellipsis: bool,
        span: egglog::ast::Span,
        parser: &mut egglog::ast::Parser,
    ) -> (result: Result<egglog::ast::Expr, egglog::ast::ParseError>)
        requires
            slots@.len() == self.arg_names@.len(),
        ensures
            exists|fresh: Seq<Seq<char>>|
                leads(*old(parser), freshened(fresh), *final(parser))
                    && #[trigger] is_finish(
                    self.name@,
                    texts(self.arg_names@),
                    slots@,
                    has_ellipsis,
                    span,
                    result,
                    fresh,
                ),
    {
        let arity = self.arg_names.len();
        let ghost name = self.name@;
        let ghost names = texts(self.arg_names@);
        let ghost before = *parser;
        let ghost all = slots@;
        let ghost filled = held(all);
        let ghost mut fresh: Seq<Seq<char>> = Seq::empty();
        let mut slots = slots;
        let mut stack: Vec<Option<egglog::ast::Expr>> = Vec::new();
        while slots.len() > 0
            invariant
                slots@.len() + stack@.len() == all.len(),
                forall|k: int| 0 <= k < slots@.len() ==> #[trigger] slots@[k] == all[k],
                forall|k: int|
                    0 <= k < stack@.len() ==> #[trigger] stack@[k] == all[all.len() - 1 - k],
            decreases slots@.len(),
        {
            match slots.pop() {
                Some(slot) => stack.push(slot),
                None => {},
            }
        }
        let mut list: Vec<egglog::ast::Expr> = Vec::new();
        let mut missing: Vec<String> = Vec::new();
        assert(freshened(fresh) =~= Seq::empty());
        assert(texts(missing@) =~= names_at(names, empty_slots(filled, 0)));
        for k in 0..arity
            invariant
                arity == self.arg_names@.len(),
                names == texts(self.arg_names@),
                all.len() == arity,
                filled == held(all),
                stack@.len() == arity - k,
                forall|j: int|
                    0 <= j < stack@.len() ==> #[trigger] stack@[j] == all[all.len() - 1 - j],
                before == *old(parser),
                leads(before, freshened(fresh), *parser),
                forall|j: int|
                    0 <= j < fresh.len() ==> made(*parser).contains(#[trigger] fresh[j]),
                fresh.no_duplicates(),
                has_ellipsis ==> {
                    &&& missing@.len() == 0
                    &&& fresh.len() == empty_slots(filled, k as int).len()
                },
                !has_ellipsis ==> {
                    &&& fresh.len() == 0
                    &&& texts(missing@) == names_at(names, empty_slots(filled, k as int))
                },
                missing@.len() == 0 ==> {
                    &&& list@.len() == k
                    &&& forall|slot: int|
                        0 <= slot < k ==> is_entry(#[trigger] list@[slot], slot, span, all, fresh)
                },
        {
            assert(stack@[stack@.len() - 1] == all[k as int]);
            assert(filled.contains(k as int) <==> all[k as int] is Some);
            let ghost old_list = list@;
            match stack.pop() {
                Some(Some(expr)) => {
                    list.push(expr);
                },
                _ => {
                    if has_ellipsis {
                        let ghost old_fresh = fresh;
                        let ghost middle = *parser;
                        let variable = fresh_name(parser);
                        proof {
                            fresh = fresh.push(variable@);
                            assert(freshened(fresh) =~= freshened(old_fresh).push(
                                Event::Fresh(variable@),
                            ));
                            lemma_leads_push(
                                before,
                                freshened(old_fresh),
                                middle,
                                Event::Fresh(variable@),
                                *parser,
                            );
                        }
                        list.push(egglog::ast::Expr::Var(span.clone(), variable));
                        proof {
                            assert forall|slot: int| 0 <= slot < k implies is_entry(
                                #[trigger] list@[slot],
                                slot,
                                span,
                                all,
                                fresh,
                            ) by {
                                assert(list@[slot] == old_list[slot]);
                                lemma_fewer_empty(filled, slot, k as int);
                            }
                        }
                    } else {
                        let ghost old_missing = texts(missing@);
                        missing.push(self.arg_names[k].clone());
                        proof {
                            assert(texts(missing@) =~= old_missing.push(names[k as int]));
                            assert(names_at(names, empty_slots(filled, k + 1)) =~= names_at(
                                names,
                                empty_slots(filled, k as int),
                            ).push(names[k as int]));
                        }
                    }
                },
            }
            assert(missing@.len() == 0 ==> forall|slot: int|
                0 <= slot < k ==> #[trigger] list@[slot] == old_list[slot]);
        }
        proof {
            assert(texts(missing@).len() == missing@.len());
        }
        if missing.len() > 0 {
            let mut text = "`".to_owned();
            text.append(self.name.as_str());
            text.append("` is missing argument(s): ");
            text.append(join(&missing, ", ").as_str());
            text.append(" (add `...` to bind the rest to fresh variables)");
            let result = Err(parse_error(span, text.as_str()));
            assert(is_finish(name, names, all, has_ellipsis, span, result, fresh));
            return result;
        }
        let result = Ok(egglog::ast::Expr::Call(span, self.name.clone(), list));
        assert(is_finish(name, names, all, has_ellipsis, span, result, fresh));
        result
    }

    /// Parses the arguments of a call into a positional call.
    pub fn parse(
        &self,
        args: &[egglog::ast::Sexp],
        span: egglog::ast::Span,
        parser: &mut egglog::ast::Parser,
    ) -> (result: Result<egglog::ast::Expr, egglog::ast::ParseError>)
        ensures
            exists|asked: Seq<Event>, exprs: Seq<egglog::ast::Expr>, fresh: Seq<Seq<char>>|
                leads(*old(parser), asked, *final(parser)) && #[trigger] is_named_call(
                    self.name@,
                    texts(self.arg_names@),
                    args@,
                    span,
                    result,
                    asked,
                    exprs,
                    fresh,
                ),
    {
        let ghost name = self.name@;
        let ghost names = texts(self.arg_names@);
        let ghost before = *parser;
        let ghost whole = layout(name, names, args@, 0, no_progress());
        let read = self.read(args, parser);
        let ghost middle = *parser;
        let ghost (asked, exprs) = choose|asked: Seq<Event>, exprs: Seq<egglog::ast::Expr>|
            leads(before, asked, middle) && #[trigger] is_reading(
                name,
                names,
                args@,
                read,
                asked,
                exprs,
            );
        match read {
            Err(error) => {
                let result = Err(error);
                assert(is_named_call(name, names, args@, span, result, asked, exprs, Seq::empty()));
                result
            },
            Ok((slots, has_ellipsis)) => {
                let ghost all = slots@;
                let result = self.finish(slots, has_ellipsis, span, parser);
                proof {
                    let fresh = choose|fresh: Seq<Seq<char>>|
                        leads(middle, freshened(fresh), *parser) && #[trigger] is_finish(
                            name,
                            names,
                            all,
                            has_ellipsis,
                            span,
                            result,
                            fresh,
                        );
                    let progress = whole.1->Complete_0;
                    assert forall|k: int| 0 <= k < names.len() implies (held(all).contains(k)
                        <==> #[trigger] progress.filled.contains(k)) by {
                        assert(all[k] is Some <==> progress.filled.contains(k));
                    }
                    lemma_empty_slots_agree(held(all), progress.filled, names.len() as int);
                    if result is Ok {
                        let list = call_arguments(result->Ok_0);
                        assert forall|slot: int| 0 <= slot < list.len() implies is_argument(
                            #[trigger] list[slot],
                            slot,
                            span,
                            whole.0,
                            exprs,
                            progress.filled,
                            fresh,
                        ) by {
                            lemma_empty_slots_agree(held(all), progress.filled, slot);
                            assert(is_entry(list[slot], slot, span, all, fresh));
                            assert(held(all).contains(slot) <==> progress.filled.contains(slot));
                        }
                        let more = asked + freshened(fresh);
                        lemma_leads_concat(before, asked, middle, freshened(fresh), *parser);
                        assert(is_named_call(name, names, args@, span, result, more, exprs, fresh));
                    } else {
                        assert(freshened(fresh) =~= Seq::empty());
                        assert(is_named_call(
                            name,
                            names,
                            args@,
                            span,
                            result,
                            asked,
                            exprs,
                            fresh,
                        ));
                    }
                }
                result
            },
        }
    }
}

/// The arguments of a call.
spec fn call_arguments(expr: egglog::ast::Expr) -> Seq<egglog::ast::Expr> {
    match expr {
        egglog::ast::Expr::Call(_, _, list) => list@,
        _ => Seq::empty(),
    }
}

/// The argument of a field, from the values of the fields.
spec fn is_entry(
    arg: egglog::ast::Expr,
    slot: int,
    span: egglog::ast::Span,
    slots: Seq<Option<egglog::ast::Expr>>,
    fresh: Seq<Seq<char>>,
) -> bool {
    match slots[slot] {
        Some(expr) => arg == expr,
        None => {
            &&& arg matches egglog::ast::Expr::Var(place, variable)
            &&& place == span
            &&& empty_slots(held(slots), slot).len() < fresh.len()
            &&& variable@ == fresh[empty_slots(held(slots), slot).len() as int]
        },
    }
}

/// What is made of the values of the fields.
spec fn is_finish(
    name: Seq<char>,
    names: Seq<Seq<char>>,
    slots: Seq<Option<egglog::ast::Expr>>,
    ellipsis: bool,
    span: egglog::ast::Span,
    result: Result<egglog::ast::Expr, egglog::ast::ParseError>,
    fresh: Seq<Seq<char>>,
) -> bool {
    let empty = empty_slots(held(slots), names.len() as int);
    if !ellipsis && empty.len() > 0 {
        &&& result matches Err(error)
        &&& says(error, span, missing_text(name, names_at(names, empty)))
        &&& fresh.len() == 0
    } else {
        &&& result matches Ok(egglog::ast::Expr::Call(place, head, list))
        &&& place == span
        &&& head@ == name
        &&& list@.len() == names.len()
        &&& fresh.len() == empty.len()
        &&& fresh.no_duplicates()
        &&& forall|slot: int|
            0 <= slot < list@.len() ==> is_entry(#[trigger] list@[slot], slot, span, slots, fresh)
    }
}

proof fn lemma_fewer_empty(filled: Set<int>, few: int, many: int)
    requires
        few <= many,
    ensures
        empty_slots(filled, few).len() <= empty_slots(filled, many).len(),
    decreases many - few,
{
    if few < many {
        lemma_fewer_empty(filled, few, many - 1);
    }
}

/// A call of a name that was declared without named fields.
pub struct PositionalCall {
    /// The declared name.
    pub name: String,
}

impl PositionalCall {
    /// Parses the arguments of a call in order.
    pub fn parse(
        &self,
        args: &[egglog::ast::Sexp],
        span: egglog::ast::Span,
        parser: &mut egglog::ast::Parser,
    ) -> (result: Result<egglog::ast::Expr, egglog::ast::ParseError>)
        ensures
            exists|asked: Seq<Event>, exprs: Seq<egglog::ast::Expr>|
                leads(*old(parser), asked, *final(parser))
                    && #[trigger] is_positional_call(
                    self.name@,
                    args@,
                    span,
                    result,
                    asked,
                    exprs,
                ),
    {
        let ghost before = *parser;
        let mut list: Vec<egglog::ast::Expr> = Vec::new();
        assert(all_parsed(args@, list@) =~= Seq::empty());
        for k in 0..args.len()
            invariant
                before == *old(parser),
                list@.len() == k,
                leads(before, all_parsed(args@, list@), *parser),
        {
            let ghost exprs = list@;
            let ghost middle = *parser;
            match parse_expr(parser, &args[k]) {
                Ok(expr) => {
                    list.push(expr);
                    proof {
                        assert(all_parsed(args@, list@) =~= all_parsed(args@, exprs).push(
                            Event::Expr(args@[k as int], Ok(expr)),
                        ));
                        lemma_leads_push(
                            before,
                            all_parsed(args@, exprs),
                            middle,
                            Event::Expr(args@[k as int], Ok(expr)),
                            *parser,
                        );
                    }
                },
                Err(error) => {
                    let result = Err(error);
                    proof {
                        let asked = all_parsed(args@, exprs).push(
                            Event::Expr(args@[k as int], Err(error)),
                        );
                        lemma_leads_push(
                            before,
                            all_parsed(args@, exprs),
                            middle,
                            Event::Expr(args@[k as int], Err(error)),
                            *parser,
                        );
                        assert(is_positional_call(
                            self.name@,
                            args@,
                            span,
                            result,
                            asked,
                            exprs,
                        ));
                    }
                    return result;
                },
            }
        }
        let ghost exprs = list@;
        let result = Ok(egglog::ast::Expr::Call(span, self.name.clone(), list));
        assert(is_positional_call(
            self.name@,
            args@,
            span,
            result,
            all_parsed(args@, exprs),
            exprs,
        ));
        result
    }
}

/// Registers how the calls of a name with fields are parsed, by
/// `Parser::add_expr_macro` with a `SimpleMacro` that parses as `NamedCall`
/// does. It takes the place of what was registered for the name before.
#[verifier::external_body]
fn register_named(parser: &mut egglog::ast::Parser, call: NamedCall)
    ensures
        spelled(*final(parser)) == spelled(*old(parser)).insert(
            call.name@,
            Some(texts(call.arg_names@)),
        ),
        made(*final(parser)) == made(*old(parser)),
        keeps_words(*old(parser), *final(parser)),
{
    let name = call.name.clone();
    parser.add_expr_macro(
        Arc::new(
            egglog::ast::SimpleMacro::new(
                &name,
                move |args: &[egglog::ast::Sexp],
                      span: egglog::ast::Span,
                      parser: &mut egglog::ast::Parser| call.parse(args, span, parser),
            ),
        ),
    )
}

/// Registers how the calls of a name without fields are parsed, by
/// `Parser::add_expr_macro` with a `SimpleMacro` that parses as
/// `PositionalCall` does. It takes the place of what was registered for the
/// name before.
#[verifier::external_body]
fn register_positional(parser: &mut egglog::ast::Parser, call: PositionalCall)
    ensures
        spelled(*final(parser)) == spelled(*old(parser)).insert(call.name@, None),
        made(*final(parser)) == made(*old(parser)),
        keeps_words(*old(parser), *final(parser)),
{
    let name = call.name.clone();
    parser.add_expr_macro(
        Arc::new(
            egglog::ast::SimpleMacro::new(
                &name,
                move |args: &[egglog::ast::Sexp],
                      span: egglog::ast::Span,
                      parser: &mut egglog::ast::Parser| call.parse(args, span, parser),
            ),
        ),
    )
}

/// The names, if there are any.
pub open spec fn optional_texts(names: Option<Vec<String>>) -> Option<Seq<Seq<char>>> {
    match names {
        Some(list) => Some(texts(list@)),
        None => None,
    }
}

/// Records how a declaration spells its arguments. A declaration without named
/// fields is recorded too, so that it shadows field names that the name had
/// before.
pub fn register_call(parser: &mut egglog::ast::Parser, name: &str, arg_names: Option<Vec<String>>)
    ensures
        spells(*old(parser), name@, optional_texts(arg_names), *final(parser)),
{
    match arg_names {
        Some(arg_names) => register_named(parser, NamedCall { name: name.to_owned(), arg_names }),
        None => register_positional(parser, PositionalCall { name: name.to_owned() }),
    }
}

/// The place of an expression.
pub open spec fn expr_span(expr: egglog::ast::Expr) -> egglog::ast::Span {
    match expr {
        egglog::ast::Expr::Lit(span, _) => span,
        egglog::ast::Expr::Var(span, _) => span,
        egglog::ast::Expr::Call(span, _, _) => span,
    }
}

/// What a table lookup gives, from the expression that it was parsed to.
pub open spec fn is_table_call(
    parsed: Result<egglog::ast::Expr, egglog::ast::ParseError>,
    result: Result<(String, Vec<egglog::ast::Expr>), egglog::ast::ParseError>,
) -> bool {
    match parsed {
        Ok(egglog::ast::Expr::Call(_, head, args)) => result == Ok::<
            (String, Vec<egglog::ast::Expr>),
            egglog::ast::ParseError,
        >((head, args)),
        Ok(other) => result matches Err(error) && says(
            error,
            expr_span(other),
            "expected a table lookup of the form (<table> <args>*)"@,
        ),
        Err(error) => result == Err::<
            (String, Vec<egglog::ast::Expr>),
            egglog::ast::ParseError,
        >(error),
    }
}

/// Parses a table lookup as any other call, so that it may have named
/// arguments, and takes it apart.
pub fn parse_table_call(parser: &mut egglog::ast::Parser, sexp: &egglog::ast::Sexp) -> (result:
    Result<(String, Vec<egglog::ast::Expr>), egglog::ast::ParseError>)
    ensures
        exists|parsed: Result<egglog::ast::Expr, egglog::ast::ParseError>|
            {
                &&& parses_expr(*old(parser), *sexp, parsed, *final(parser))
                &&& follows_spelling(*old(parser), *sexp, parsed, *final(parser))
                &&& #[trigger] is_table_call(parsed, result)
            },
{
    let parsed = parse_expr(parser, sexp);
    let ghost given = parsed;
    let result = match parsed {
        Ok(egglog::ast::Expr::Call(_, head, args)) => Ok((head, args)),
        Ok(egglog::ast::Expr::Lit(span, _)) => Err(no_lookup(span)),
        Ok(egglog::ast::Expr::Var(span, _)) => Err(no_lookup(span)),
        Err(error) => Err(error),
    };
    assert(is_table_call(given, result));
    result
}

fn no_lookup(span: egglog::ast::Span) -> (error: egglog::ast::ParseError)
    ensures
        says(error, span, "expected a table lookup of the form (<table> <args>*)"@),
{
    parse_error(span, "expected a table lookup of the form (<table> <args>*)")
}

fn unknown(name: &String, key: &String) -> (text: String)
    ensures
        text@ == "`"@ + name@ + "` has no argument named `"@ + key@ + "`"@,
{
    let mut text = "`".to_owned();
    text.append(name.as_str());
    text.append("` has no argument named `");
    text.append(key.as_str());
    text.append("`");
    text
}

fn repeated(name: &String, key: &String) -> (text: String)
    ensures
        text@ == "argument `"@ + key@ + "` of `"@ + name@ + "` specified more than once"@,
{
    let mut text = "argument `".to_owned();
    text.append(key.as_str());
    text.append("` of `");
    text.append(name.as_str());
    text.append("` specified more than once");
    text
}

fn no_value(key: &String) -> (text: String)
    ensures
        text@ == "`:"@ + key@ + "` requires a value"@,
{
    let mut text = "`:".to_owned();
    text.append(key.as_str());
    text.append("` requires a value");
    text
}

fn bad_value(key: &String) -> (text: String)
    ensures
        text@ == "expected a value for `:"@ + key@ + "`"@,
{
    let mut text = "expected a value for `:".to_owned();
    text.append(key.as_str());
    text.append("`");
    text
}

fn too_many(name: &String, arity: usize) -> (text: String)
    ensures
        text@ == "`"@ + name@ + "` takes "@ + decimal(arity as nat)
            + " argument(s) but was given more"@,
{
    let mut text = "`".to_owned();
    text.append(name.as_str());
    text.append("` takes ");
    text.append(decimal_text(arity as u128).as_str());
    text.append(" argument(s) but was given more");
    text
}

} // verus!

//! S-expressions.

use vstd::prelude::*;
use crate::text::texts;

verus! {

/// The place of an s-expression.
pub open spec fn sexp_span(sexp: egglog::ast::Sexp) -> egglog::ast::Span {
    match sexp {
        egglog::ast::Sexp::Literal(_, span) => span,
        egglog::ast::Sexp::Atom(_, span) => span,
        egglog::ast::Sexp::List(_, span) => span,
    }
}

/// The text of an atom.
pub open spec fn atom(sexp: egglog::ast::Sexp) -> Option<Seq<char>> {
    match sexp {
        egglog::ast::Sexp::Atom(symbol, _) => Some(symbol@),
        _ => None,
    }
}

/// The error says this of this place.
pub open spec fn says(
    error: egglog::ast::ParseError,
    span: egglog::ast::Span,
    text: Seq<char>,
) -> bool {
    error.0 == span && error.1@ == text
}

/// What is wrong, and where.
pub struct Fault {
    /// The place.
    pub span: egglog::ast::Span,
    /// The text.
    pub text: Seq<char>,
}

/// The error is this fault.
pub open spec fn is_fault(error: egglog::ast::ParseError, fault: Fault) -> bool {
    says(error, fault.span, fault.text)
}

/// The text begins with a colon.
pub open spec fn starts_colon(text: Seq<char>) -> bool {
    text.len() > 0 && text[0] == ':'
}

/// Whether a text begins with a colon.
pub fn is_keyword(text: &str) -> (yes: bool)
    ensures
        yes == starts_colon(text@),
{
    text.unicode_len() > 0 && text.get_char(0) == ':'
}

/// A text without its first character.
pub fn without_first(text: &str) -> (rest: String)
    requires
        text@.len() > 0,
    ensures
        rest@ == text@.skip(1),
{
    let length = text.unicode_len();
    let rest = text.substring_char(1, length).to_owned();
    assert(rest@ =~= text@.skip(1));
    rest
}

/// The s-expression is an atom that begins with a colon.
pub open spec fn is_key(sexp: egglog::ast::Sexp) -> bool {
    atom(sexp) matches Some(text) && starts_colon(text)
}

/// Makes the error that says something of a place.
pub fn parse_error(span: egglog::ast::Span, text: &str) -> (error: egglog::ast::ParseError)
    ensures
        says(error, span, text@),
{
    egglog::ast::ParseError(span, text.to_owned())
}

/// The place of an s-expression, by `Sexp::span`.
pub assume_specification[ egglog::ast::Sexp::span ](
    sexp: &egglog::ast::Sexp,
) -> (span: egglog::ast::Span)
    ensures
        span == sexp_span(*sexp),
;

/// The text of an atom, by `Sexp::expect_atom`. Anything else is an error that
/// says what was expected.
pub assume_specification[ egglog::ast::Sexp::expect_atom ](
    sexp: &egglog::ast::Sexp,
    e: &'static str,
) -> (result: Result<String, egglog::ast::ParseError>)
    ensures
        match result {
            Ok(text) => atom(*sexp) == Some(text@),
            Err(error) => atom(*sexp) is None && says(error, sexp_span(*sexp), "expected "@ + e@),
        },
;

/// The items of a list, by `Sexp::expect_list`. Anything else is an error that
/// says what was expected.
pub assume_specification<'a>[ egglog::ast::Sexp::expect_list ](
    sexp: &'a egglog::ast::Sexp,
    e: &'static str,
) -> (result: Result<&'a [egglog::ast::Sexp], egglog::ast::ParseError>)
    ensures
        match result {
            Ok(items) => items_of(*sexp) == Some(items@),
            Err(error) => items_of(*sexp) is None && says(
                error,
                sexp_span(*sexp),
                "expected "@ + e@,
            ),
        },
;

/// The items of a list.
pub open spec fn items_of(sexp: egglog::ast::Sexp) -> Option<Seq<egglog::ast::Sexp>> {
    match sexp {
        egglog::ast::Sexp::List(items, _) => Some(items@),
        _ => None,
    }
}

/// The head and the tail of a list that begins with an atom.
pub open spec fn call_of(sexp: egglog::ast::Sexp) -> Option<
    (Seq<char>, Seq<egglog::ast::Sexp>),
> {
    match items_of(sexp) {
        Some(items) => if items.len() > 0 {
            match atom(items[0]) {
                Some(head) => Some((head, items.skip(1))),
                None => None,
            }
        } else {
            None
        },
        None => None,
    }
}

/// The head, the tail and the place of a list that begins with an atom, by
/// `Sexp::expect_call`. Anything else is an error that says what was expected.
pub assume_specification<'a>[ egglog::ast::Sexp::expect_call ](
    sexp: &'a egglog::ast::Sexp,
    e: &'static str,
) -> (result: Result<
    (String, &'a [egglog::ast::Sexp], egglog::ast::Span),
    egglog::ast::ParseError,
>)
    ensures
        match result {
            Ok((head, tail, span)) => {
                &&& call_of(*sexp) == Some((head@, tail@))
                &&& span == sexp_span(*sexp)
            },
            Err(error) => call_of(*sexp) is None && says(
                error,
                sexp_span(*sexp),
                "expected "@ + e@,
            ),
        },
;

/// The number that a literal is, if it is a nonnegative integer.
pub uninterp spec fn uint_of(literal: egglog::ast::Literal) -> Option<u64>;

/// The string that a literal is, if it is one.
pub uninterp spec fn string_literal(literal: egglog::ast::Literal) -> Option<Seq<char>>;

/// The number of an s-expression, by `Sexp::expect_uint`. Anything but a
/// nonnegative integer literal is an error that says so.
#[verifier::external_body]
pub(crate) fn expect_uint(sexp: &egglog::ast::Sexp, e: &'static str) -> (result: Result<
    u64,
    egglog::ast::ParseError,
>)
    ensures
        match (*sexp, result) {
            (egglog::ast::Sexp::Literal(literal, _), Ok(number)) => uint_of(literal) == Some(number),
            (egglog::ast::Sexp::Literal(literal, _), Err(_)) => uint_of(literal) is None,
            (_, Ok(_)) => false,
            (_, Err(_)) => true,
        },
        result matches Err(error) ==> says(
            error,
            sexp_span(*sexp),
            "expected "@ + e@ + " to be a nonnegative integer literal"@,
        ),
{
    sexp.expect_uint::<u64>(e)
}

/// The string of an s-expression, by `Sexp::expect_string`. Anything but a
/// string literal is an error that says so.
#[verifier::external_body]
pub(crate) fn expect_string(sexp: &egglog::ast::Sexp, e: &'static str) -> (result: Result<
    String,
    egglog::ast::ParseError,
>)
    ensures
        match (*sexp, result) {
            (egglog::ast::Sexp::Literal(literal, _), Ok(text)) => string_literal(literal) == Some(
                text@,
            ),
            (egglog::ast::Sexp::Literal(literal, _), Err(_)) => string_literal(literal) is None,
            (_, Ok(_)) => false,
            (_, Err(_)) => true,
        },
        result matches Err(error) ==> says(
            error,
            sexp_span(*sexp),
            "expected "@ + e@ + " to be a string literal"@,
        ),
{
    sexp.expect_string(e)
}

/// The number that an s-expression is, if it is a nonnegative integer.
pub open spec fn uint(sexp: egglog::ast::Sexp) -> Option<u64> {
    match sexp {
        egglog::ast::Sexp::Literal(literal, _) => uint_of(literal),
        _ => None,
    }
}

/// The sorts of a positional variant, its cost and whether it is
/// unextractable.
pub open spec fn variant_parts(tail: Seq<egglog::ast::Sexp>) -> (
    Seq<egglog::ast::Sexp>,
    Option<egglog::ast::Sexp>,
    bool,
) {
    let count = tail.len() as int;
    if count > 0 && atom(tail[count - 1]) == Some(":unextractable"@) {
        (tail.take(count - 1), None, true)
    } else if count > 1 && atom(tail[count - 2]) == Some(":cost"@) {
        (tail.take(count - 2), Some(tail[count - 1]), false)
    } else {
        (tail, None, false)
    }
}

/// A variant of a datatype.
pub struct VariantModel {
    /// Its place.
    pub span: egglog::ast::Span,
    /// Its name.
    pub name: Seq<char>,
    /// The sorts of its fields.
    pub types: Seq<Seq<char>>,
    /// Its cost.
    pub cost: Option<u64>,
    /// Whether it is kept out of extraction.
    pub unextractable: bool,
}

/// The variant is what the model says.
pub open spec fn is_variant(variant: egglog::ast::Variant, model: VariantModel) -> bool {
    &&& variant.span == model.span
    &&& variant.name@ == model.name
    &&& texts(variant.types@) == model.types
    &&& variant.cost == model.cost
    &&& variant.unextractable == model.unextractable
}

/// The texts of atoms from `i` on, behind those before.
pub open spec fn atom_texts(
    sexps: Seq<egglog::ast::Sexp>,
    i: int,
    before: Seq<Seq<char>>,
    expected: Seq<char>,
) -> Result<Seq<Seq<char>>, Fault>
    decreases sexps.len() - i,
{
    if i >= sexps.len() {
        Ok(before)
    } else {
        match atom(sexps[i]) {
            Some(text) => atom_texts(sexps, i + 1, before.push(text), expected),
            None => Err(Fault { span: sexp_span(sexps[i]), text: expected }),
        }
    }
}

/// What is wrong with an s-expression that is no number.
pub open spec fn no_uint(sexp: egglog::ast::Sexp) -> Fault {
    Fault {
        span: sexp_span(sexp),
        text: "expected "@ + "cost"@ + " to be a nonnegative integer literal"@,
    }
}

/// What a positional variant is.
pub open spec fn positional_variant(sexp: egglog::ast::Sexp) -> Result<VariantModel, Fault> {
    match call_of(sexp) {
        Some((head, tail)) => {
            let (types, cost, unextractable) = variant_parts(tail);
            match cost {
                Some(number) if uint(number) is None => Err(no_uint(number)),
                _ => match atom_texts(
                    types,
                    0,
                    Seq::empty(),
                    "expected "@ + "variant argument type"@,
                ) {
                    Ok(types) => Ok(
                        VariantModel {
                            span: sexp_span(sexp),
                            name: head,
                            types,
                            cost: match cost {
                                Some(number) => uint(number),
                                None => None,
                            },
                            unextractable,
                        },
                    ),
                    Err(fault) => Err(fault),
                },
            }
        },
        None => Err(
            Fault { span: sexp_span(sexp), text: "expected "@ + "datatype variant"@ },
        ),
    }
}

/// The position of the first atom with a colon, from `from` on, or the number
/// of s-expressions.
pub open spec fn next_key(sexps: Seq<egglog::ast::Sexp>, from: int) -> int
    decreases sexps.len() - from,
{
    if from >= sexps.len() || is_key(sexps[from]) {
        from
    } else {
        next_key(sexps, from + 1)
    }
}

/// The options in a list: each key with what stands between it and the next
/// key.
pub open spec fn option_groups(sexps: Seq<egglog::ast::Sexp>) -> Seq<
    (Seq<char>, Seq<egglog::ast::Sexp>),
>
    decreases sexps.len(),
{
    if sexps.len() == 0 {
        Seq::empty()
    } else {
        let end = next_key(sexps, 1);
        if 1 <= end <= sexps.len() {
            seq![(atom(sexps[0])->0, sexps.subrange(1, end))] + option_groups(sexps.skip(end))
        } else {
            Seq::empty()
        }
    }
}

} // verus!

//! Parsers, and what is asked of them.

use egglog::util::FreshGen;
use std::sync::Arc;
use vstd::prelude::*;
use crate::named_args::action::TableAction;
use crate::named_args::call::{named_result, positional_result};
use crate::named_args::declare::Declaration;
use crate::named_args::sexp::{
    call_of, is_fault, is_key, is_variant, option_groups, positional_variant, says, sexp_span,
};

verus! {

/// Something that is asked of a parser, with the answer.
pub enum Event {
    /// An expression is parsed.
    Expr(egglog::ast::Sexp, Result<egglog::ast::Expr, egglog::ast::ParseError>),
    /// A datatype among several is parsed.
    Datatype(
        egglog::ast::Sexp,
        Result<
            (egglog::ast::Span, String, egglog::ast::Subdatatypes),
            egglog::ast::ParseError,
        >,
    ),
    /// A fresh name is made.
    Fresh(Seq<char>),
    /// The calls of a name are spelled with these fields, or by position.
    Spell(Seq<char>, Option<Seq<Seq<char>>>),
}

/// A parser may parse the s-expression to this result, and become the other
/// parser.
pub uninterp spec fn parses_expr(
    before: egglog::ast::Parser,
    sexp: egglog::ast::Sexp,
    result: Result<egglog::ast::Expr, egglog::ast::ParseError>,
    after: egglog::ast::Parser,
) -> bool;

/// A parser may parse the s-expression to this datatype, and become the other
/// parser.
pub uninterp spec fn parses_datatype(
    before: egglog::ast::Parser,
    sexp: egglog::ast::Sexp,
    result: Result<
        (egglog::ast::Span, String, egglog::ast::Subdatatypes),
        egglog::ast::ParseError,
    >,
    after: egglog::ast::Parser,
) -> bool;

/// A parser may parse the program of a file to this result, and become the
/// other parser.
pub uninterp spec fn parses_program(
    before: egglog::ast::Parser,
    file: Seq<char>,
    contents: Seq<char>,
    result: Result<Vec<egglog::ast::Command>, egglog::ast::ParseError>,
    after: egglog::ast::Parser,
) -> bool;

/// The fresh names that the parser has made for wildcards.
pub uninterp spec fn made(parser: egglog::ast::Parser) -> Set<Seq<char>>;

/// The names whose calls the parser spells, each with its fields, or by
/// position.
pub uninterp spec fn spelled(parser: egglog::ast::Parser) -> Map<
    Seq<char>,
    Option<Seq<Seq<char>>>,
>;

/// The words that are commands that declare something.
pub uninterp spec fn commands(parser: egglog::ast::Parser) -> Map<Seq<char>, Declaration>;

/// The words that are actions on tables.
pub uninterp spec fn actions(parser: egglog::ast::Parser) -> Map<Seq<char>, TableAction>;

/// The same words are commands, and the same words are actions.
pub open spec fn keeps_words(before: egglog::ast::Parser, after: egglog::ast::Parser) -> bool {
    commands(after) == commands(before) && actions(after) == actions(before)
}

/// The other parser spells the calls of the name with these fields, or by
/// position, and that is all that it was told.
pub open spec fn spells(
    before: egglog::ast::Parser,
    name: Seq<char>,
    fields: Option<Seq<Seq<char>>>,
    after: egglog::ast::Parser,
) -> bool {
    &&& spelled(after) == spelled(before).insert(name, fields)
    &&& made(after) == made(before)
    &&& keeps_words(before, after)
}

/// What is asked of one parser makes it the other.
pub open spec fn takes(
    before: egglog::ast::Parser,
    event: Event,
    after: egglog::ast::Parser,
) -> bool {
    match event {
        Event::Expr(sexp, result) => parses_expr(before, sexp, result, after),
        Event::Datatype(sexp, result) => parses_datatype(before, sexp, result, after),
        Event::Fresh(name) => {
            &&& !made(before).contains(name)
            &&& made(after) == made(before).insert(name)
            &&& spelled(after) == spelled(before)
            &&& keeps_words(before, after)
        },
        Event::Spell(name, fields) => spells(before, name, fields, after),
    }
}

/// What is asked of one parser, in order, makes it the other, and nothing else
/// is asked.
pub open spec fn leads(
    before: egglog::ast::Parser,
    asked: Seq<Event>,
    after: egglog::ast::Parser,
) -> bool
    decreases asked.len(),
{
    if asked.len() == 0 {
        before == after
    } else {
        exists|middle: egglog::ast::Parser|
            leads(before, asked.drop_last(), middle) && #[trigger] takes(
                middle,
                asked.last(),
                after,
            )
    }
}

pub proof fn lemma_leads_push(
    before: egglog::ast::Parser,
    asked: Seq<Event>,
    middle: egglog::ast::Parser,
    event: Event,
    after: egglog::ast::Parser,
)
    requires
        leads(before, asked, middle),
        takes(middle, event, after),
    ensures
        leads(before, asked.push(event), after),
{
    let all = asked.push(event);
    assert(all.drop_last() =~= asked);
    assert(leads(before, all.drop_last(), middle) && takes(middle, all.last(), after));
}

pub proof fn lemma_leads_one(
    before: egglog::ast::Parser,
    event: Event,
    after: egglog::ast::Parser,
)
    requires
        takes(before, event, after),
    ensures
        leads(before, seq![event], after),
{
    lemma_leads_push(before, Seq::empty(), before, event, after);
    assert(Seq::<Event>::empty().push(event) =~= seq![event]);
}

/// What is asked of a parser in one go and then in another is asked of it in
/// both, one behind the other.
pub proof fn lemma_leads_concat(
    before: egglog::ast::Parser,
    first: Seq<Event>,
    middle: egglog::ast::Parser,
    second: Seq<Event>,
    after: egglog::ast::Parser,
)
    requires
        leads(before, first, middle),
        leads(middle, second, after),
    ensures
        leads(before, first + second, after),
    decreases second.len(),
{
    if second.len() == 0 {
        assert(first + second =~= first);
    } else {
        let last = choose|last: egglog::ast::Parser|
            leads(middle, second.drop_last(), last) && #[trigger] takes(
                last,
                second.last(),
                after,
            );
        lemma_leads_concat(before, first, middle, second.drop_last(), last);
        lemma_leads_push(before, first + second.drop_last(), last, second.last(), after);
        assert((first + second.drop_last()).push(second.last()) =~= first + second);
    }
}

/// A call of a name is parsed as it is spelled, and that makes one parser the
/// other.
pub open spec fn follows_spelling(
    parser: egglog::ast::Parser,
    sexp: egglog::ast::Sexp,
    result: Result<egglog::ast::Expr, egglog::ast::ParseError>,
    after: egglog::ast::Parser,
) -> bool {
    match call_of(sexp) {
        Some((head, tail)) => spelled(parser).contains_key(head) ==> match spelled(parser)[head] {
            Some(names) => named_result(
                parser,
                after,
                head,
                names,
                tail,
                sexp_span(sexp),
                result,
            ),
            None => positional_result(parser, after, head, tail, sexp_span(sexp), result),
        },
        None => true,
    }
}

/// A parser may parse the s-expression to this result, and as it is spelled.
pub open spec fn parses_as_spelled(
    before: egglog::ast::Parser,
    sexp: egglog::ast::Sexp,
    result: Result<egglog::ast::Expr, egglog::ast::ParseError>,
) -> bool {
    exists|after: egglog::ast::Parser| #[trigger]
        parses_expr(before, sexp, result, after) && follows_spelling(before, sexp, result, after)
}

/// Parses an expression, by `Parser::parse_expr`. A list whose head the parser
/// spells goes to the macro that was registered for the head last, which parses
/// it as it is spelled, with the parser itself. What else comes of it is left open, since it depends on
/// the other macros of the parser.
#[verifier::external_body]
pub(crate) fn parse_expr(parser: &mut egglog::ast::Parser, sexp: &egglog::ast::Sexp) -> (result:
    Result<egglog::ast::Expr, egglog::ast::ParseError>)
    ensures
        parses_expr(*old(parser), *sexp, result, *final(parser)),
        follows_spelling(*old(parser), *sexp, result, *final(parser)),
{
    parser.parse_expr(sexp)
}

/// Parses a positional variant, by `Parser::variant`: a head, the atoms of its
/// sorts, and at the end either `:unextractable` or `:cost` with a number. The
/// parser stays as it is.
#[verifier::external_body]
pub(crate) fn parse_variant(parser: &mut egglog::ast::Parser, sexp: &egglog::ast::Sexp) -> (result:
    Result<egglog::ast::Variant, egglog::ast::ParseError>)
    ensures
        match result {
            Ok(variant) => match positional_variant(*sexp) {
                Ok(model) => is_variant(variant, model),
                Err(_) => false,
            },
            Err(error) => match positional_variant(*sexp) {
                Ok(_) => false,
                Err(fault) => is_fault(error, fault),
            },
        },
        *final(parser) == *old(parser),
{
    parser.variant(sexp)
}

/// Splits a list into options, by `Parser::parse_options`. It is an error that
/// the list begins with anything but a key.
pub assume_specification<'a>[ egglog::ast::Parser::parse_options ](
    parser: &egglog::ast::Parser,
    sexps: &'a [egglog::ast::Sexp],
) -> (result: Result<Vec<(&'a str, &'a [egglog::ast::Sexp])>, egglog::ast::ParseError>)
    ensures
        match result {
            Ok(groups) => {
                &&& sexps@.len() > 0 ==> is_key(sexps@[0])
                &&& groups@.map_values(|group: (&'a str, &'a [egglog::ast::Sexp])|
                    (group.0@, group.1@)) == option_groups(sexps@)
            },
            Err(error) => sexps@.len() > 0 && !is_key(sexps@[0]) && says(
                error,
                sexp_span(sexps@[0]),
                "option key must start with ':'"@,
            ),
        },
;

/// Parses a datatype among several, by `Parser::rec_datatype`. What comes of it
/// is left open, since it depends on the macros of the parser.
#[verifier::external_body]
pub(crate) fn parse_datatype(
    parser: &mut egglog::ast::Parser,
    sexp: &egglog::ast::Sexp,
) -> (result: Result<
    (egglog::ast::Span, String, egglog::ast::Subdatatypes),
    egglog::ast::ParseError,
>)
    ensures
        parses_datatype(*old(parser), *sexp, result, *final(parser)),
{
    parser.rec_datatype(sexp)
}

/// Parses the program of a file, by `Parser::get_program_from_string`. What
/// comes of it is left open, since it depends on the macros of the parser.
#[verifier::external_body]
pub(crate) fn parse_program(
    parser: &mut egglog::ast::Parser,
    file: String,
    contents: &String,
) -> (result: Result<Vec<egglog::ast::Command>, egglog::ast::ParseError>)
    ensures
        parses_program(*old(parser), file@, contents@, result, *final(parser)),
{
    parser.get_program_from_string(Some(file), contents)
}

/// Makes a fresh name, by `SymbolGen::fresh` with the hint of wildcards: one
/// that it has not made for them before.
#[verifier::external_body]
pub(crate) fn fresh_name(parser: &mut egglog::ast::Parser) -> (name: String)
    ensures
        !made(*old(parser)).contains(name@),
        made(*final(parser)) == made(*old(parser)).insert(name@),
        spelled(*final(parser)) == spelled(*old(parser)),
        keeps_words(*old(parser), *final(parser)),
{
    parser.symbol_gen.fresh("_")
}

/// Makes a word a command, by `Parser::add_command_macro` with a `SimpleMacro`
/// that parses as `Declaration` does. It takes the place of what the word was
/// before.
#[verifier::external_body]
pub(crate) fn add_command(parser: &mut egglog::ast::Parser, word: &str, declaration: Declaration)
    ensures
        commands(*final(parser)) == commands(*old(parser)).insert(word@, declaration),
        actions(*final(parser)) == actions(*old(parser)),
        spelled(*final(parser)) == spelled(*old(parser)),
        made(*final(parser)) == made(*old(parser)),
{
    parser.add_command_macro(
        Arc::new(
            egglog::ast::SimpleMacro::new(
                word,
                move |tail: &[egglog::ast::Sexp],
                      span: egglog::ast::Span,
                      parser: &mut egglog::ast::Parser| declaration.parse(tail, span, parser),
            ),
        ),
    )
}

/// Makes a word an action, by `Parser::add_action_macro` with a `SimpleMacro`
/// that parses as `TableAction` does. It takes the place of what the word was
/// before.
#[verifier::external_body]
pub(crate) fn add_action(parser: &mut egglog::ast::Parser, word: &str, action: TableAction)
    ensures
        actions(*final(parser)) == actions(*old(parser)).insert(word@, action),
        commands(*final(parser)) == commands(*old(parser)),
        spelled(*final(parser)) == spelled(*old(parser)),
        made(*final(parser)) == made(*old(parser)),
{
    parser.add_action_macro(
        Arc::new(
            egglog::ast::SimpleMacro::new(
                word,
                move |tail: &[egglog::ast::Sexp],
                      span: egglog::ast::Span,
                      parser: &mut egglog::ast::Parser| action.parse(tail, span, parser),
            ),
        ),
    )
}

} // verus!

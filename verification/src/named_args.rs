//! Named arguments for constructors, functions, relations and datatypes.
//!
//! Declarations name their fields:
//!
//! ```text
//! (constructor MyCar (:color Color :numwheel i64) Vehicle)
//! (function foo (:a i64 :b i64) i64 :no-merge)
//! (relation edge (:from Node :to Node))
//! (datatype Vehicle (MyCar :color Color :numwheel i64))
//! ```
//!
//! Once a name is declared with named fields, call sites may pass arguments by
//! name in any order, mix leading positional arguments with trailing named
//! ones, and use a trailing `...` to bind every unspecified field to a fresh
//! variable.

pub mod action;
pub mod call;
pub mod declare;
pub mod declared;
pub mod fields;
pub mod meaning;
pub mod parser;
pub mod sexp;
pub mod spelling;
pub mod words;
pub mod wrong;

use vstd::prelude::*;
use crate::named_args::action::{NamedChange, TableAction};
use crate::named_args::declare::Declaration;
use crate::named_args::parser::{
    actions, add_action, add_command, commands, made, parse_program, parses_program, spelled,
};
use crate::named_args::sexp::{expect_string, parse_error, says, sexp_span, string_literal};

verus! {

/// The words that declare, each with what it declares.
pub open spec fn declaring_words(before: Map<Seq<char>, Declaration>) -> Map<
    Seq<char>,
    Declaration,
> {
    before.insert("constructor"@, Declaration::Constructor).insert(
        "function"@,
        Declaration::Function,
    ).insert("relation"@, Declaration::Relation).insert(
        "datatype"@,
        Declaration::Datatype,
    ).insert("datatype*"@, Declaration::Datatypes)
}

/// The words that act on tables, each with what it does.
pub open spec fn acting_words(before: Map<Seq<char>, TableAction>) -> Map<
    Seq<char>,
    TableAction,
> {
    before.insert("set"@, TableAction::Assign).insert("delete"@, TableAction::Delete).insert(
        "subsume"@,
        TableAction::Subsume,
    )
}

/// Adds named arguments to a parser: the commands that declare something and
/// the actions on tables.
pub fn register_named_args(parser: &mut egglog::ast::Parser)
    ensures
        commands(*final(parser)) == declaring_words(commands(*old(parser))),
        actions(*final(parser)) == acting_words(actions(*old(parser))),
        spelled(*final(parser)) == spelled(*old(parser)),
        made(*final(parser)) == made(*old(parser)),
{
    add_command(parser, "constructor", Declaration::Constructor);
    add_command(parser, "function", Declaration::Function);
    add_command(parser, "relation", Declaration::Relation);
    add_command(parser, "datatype", Declaration::Datatype);
    add_command(parser, "datatype*", Declaration::Datatypes);
    add_action(parser, "set", TableAction::Assign);
    add_action(parser, NamedChange::delete().keyword, TableAction::Delete);
    add_action(parser, NamedChange::subsume().keyword, TableAction::Subsume);
}

/// The text that shows how a command that reads a file is written.
pub open spec fn file_usage(word: Seq<char>) -> Seq<char> {
    "usage: ("@ + word + " <file name>)"@
}

/// The file name of a command that reads a program from a file.
pub fn file_argument(word: &str, args: &[egglog::ast::Sexp], span: &egglog::ast::Span) -> (result:
    Result<String, egglog::ast::ParseError>)
    ensures
        match result {
            Ok(file) => {
                &&& args@.len() == 1
                &&& args@[0] matches egglog::ast::Sexp::Literal(literal, _)
                &&& string_literal(literal) == Some(file@)
            },
            Err(error) => if args@.len() != 1 {
                says(error, *span, file_usage(word@))
            } else {
                &&& says(
                    error,
                    sexp_span(args@[0]),
                    "expected "@ + "file name"@ + " to be a string literal"@,
                )
                &&& match args@[0] {
                    egglog::ast::Sexp::Literal(literal, _) => string_literal(literal) is None,
                    _ => true,
                }
            },
        },
{
    if args.len() != 1 {
        let mut usage = "usage: (".to_owned();
        usage.append(word);
        usage.append(" <file name>)");
        return Err(parse_error(span.clone(), usage.as_str()));
    }
    expect_string(&args[0], "file name")
}

/// Parses the program that was read from a file. Where the file could not be
/// read, `contents` is the reason.
pub fn parse_file(
    parser: &mut egglog::ast::Parser,
    file: String,
    contents: Result<String, String>,
    span: egglog::ast::Span,
) -> (result: Result<Vec<egglog::ast::Command>, egglog::ast::ParseError>)
    ensures
        match contents {
            Ok(program) => parses_program(
                *old(parser),
                file@,
                program@,
                result,
                *final(parser),
            ),
            Err(reason) => {
                &&& result matches Err(error)
                &&& says(error, span, "could not read "@ + file@ + ": "@ + reason@)
                &&& *final(parser) == *old(parser)
            },
        },
{
    match contents {
        Ok(program) => parse_program(parser, file, &program),
        Err(reason) => {
            let mut text = "could not read ".to_owned();
            text.append(file.as_str());
            text.append(": ");
            text.append(reason.as_str());
            Err(parse_error(span, text.as_str()))
        },
    }
}

} // verus!

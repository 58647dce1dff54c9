//! The trailing `:extractor name` of a command.

use vstd::prelude::*;
use crate::text::same;

verus! {

/// The expression is this symbol.
pub open spec fn is_symbol(expr: egglog::ast::Expr, name: Seq<char>) -> bool {
    expr matches egglog::ast::Expr::Var(_, symbol) && symbol@ == name
}

/// The arguments end in `:extractor` and a symbol, which is this one. A value
/// named `:extractor` in any other place is an ordinary argument.
pub open spec fn selected(args: Seq<egglog::ast::Expr>) -> Option<Seq<char>> {
    if args.len() >= 2 && is_symbol(args[args.len() - 2], ":extractor"@) {
        match args[args.len() - 1] {
            egglog::ast::Expr::Var(_, symbol) => Some(symbol@),
            _ => None,
        }
    } else {
        None
    }
}

/// How many arguments stand before the trailing extractor.
pub open spec fn leading(args: Seq<egglog::ast::Expr>) -> int {
    if selected(args) == Some("greedy-dag"@) {
        args.len() - 2
    } else {
        args.len() as int
    }
}

/// Splits a trailing `:extractor greedy-dag` off: the number of arguments
/// before it, and whether it was there. An unknown extractor is the error.
pub fn split_trailing_extractor(args: &[egglog::ast::Expr]) -> (split: Result<
    (usize, bool),
    String,
>)
    ensures
        match selected(args@) {
            None => split matches Ok((count, greedy)) && count == args@.len() && !greedy,
            Some(name) => if name == "greedy-dag"@ {
                split matches Ok((count, greedy)) && count == args@.len() - 2 && greedy
            } else {
                split matches Err(unknown) && unknown@ == name
            },
        },
{
    let count = args.len();
    if count >= 2 {
        if let egglog::ast::Expr::Var(_, keyword) = &args[count - 2] {
            if same(keyword.as_str(), ":extractor") {
                if let egglog::ast::Expr::Var(_, name) = &args[count - 1] {
                    if same(name.as_str(), "greedy-dag") {
                        return Ok((count - 2, true));
                    }
                    return Err(name.clone());
                }
            }
        }
    }
    Ok((count, false))
}

/// The text that refuses an unknown extractor.
pub open spec fn unknown_extractor_text(name: Seq<char>) -> Seq<char> {
    "unknown extractor: "@ + name
}

/// Refuses an unknown extractor.
pub fn unknown_extractor(name: &str) -> (text: String)
    ensures
        text@ == unknown_extractor_text(name@),
{
    let mut text = "unknown extractor: ".to_owned();
    text.append(name);
    text
}

} // verus!

//! What the words of commands and actions do.

use vstd::prelude::*;
use crate::named_args::action::{is_table_action, TableAction};
use crate::named_args::declare::Declaration;
use crate::named_args::parser::Event;
use crate::named_args::{acting_words, declaring_words};

verus! {

/// Each word that declares something declares that, and every other word stays what it was.
pub proof fn lemma_words_declare(before: Map<Seq<char>, Declaration>, word: Seq<char>)
    ensures
        ({
            let after = declaring_words(before);
            &&& after.contains_key("constructor"@)
            &&& after["constructor"@] == Declaration::Constructor
            &&& after.contains_key("function"@)
            &&& after["function"@] == Declaration::Function
            &&& after.contains_key("relation"@)
            &&& after["relation"@] == Declaration::Relation
            &&& after.contains_key("datatype"@)
            &&& after["datatype"@] == Declaration::Datatype
            &&& after.contains_key("datatype*"@)
            &&& after["datatype*"@] == Declaration::Datatypes
            &&& {
                ||| word == "constructor"@
                ||| word == "function"@
                ||| word == "relation"@
                ||| word == "datatype"@
                ||| word == "datatype*"@
                ||| {
                    &&& after.contains_key(word) == before.contains_key(word)
                    &&& before.contains_key(word) ==> after[word] == before[word]
                }
            }
        }),
{
    reveal_strlit("constructor");
    reveal_strlit("function");
    reveal_strlit("relation");
    reveal_strlit("datatype");
    reveal_strlit("datatype*");
    assert("constructor"@.len() == 11);
    assert("function"@.len() == 8);
    assert("relation"@.len() == 8);
    assert("datatype"@.len() == 8);
    assert("datatype*"@.len() == 9);
    assert("function"@[0] == 'f');
    assert("relation"@[0] == 'r');
    assert("datatype"@[0] == 'd');
}

/// Each word that acts on a table does that, and every other word stays what it was.
pub proof fn lemma_words_act(before: Map<Seq<char>, TableAction>, word: Seq<char>)
    ensures
        ({
            let after = acting_words(before);
            &&& after.contains_key("set"@)
            &&& after["set"@] == TableAction::Assign
            &&& after.contains_key("delete"@)
            &&& after["delete"@] == TableAction::Delete
            &&& after.contains_key("subsume"@)
            &&& after["subsume"@] == TableAction::Subsume
            &&& {
                ||| word == "set"@
                ||| word == "delete"@
                ||| word == "subsume"@
                ||| {
                    &&& after.contains_key(word) == before.contains_key(word)
                    &&& before.contains_key(word) ==> after[word] == before[word]
                }
            }
        }),
{
    reveal_strlit("set");
    reveal_strlit("delete");
    reveal_strlit("subsume");
    assert("set"@.len() == 3);
    assert("delete"@.len() == 6);
    assert("subsume"@.len() == 7);
}

/// An action on a table does what its word says to the row that its lookup names: the table
/// and the inputs are those of the call that the lookup was parsed to, and what a row is set
/// to is what the second argument was parsed to.
pub proof fn lemma_action_is_as_written(
    action: TableAction,
    tail: Seq<egglog::ast::Sexp>,
    span: egglog::ast::Span,
    actions: Vec<egglog::ast::Action>,
    call: Result<egglog::ast::Expr, egglog::ast::ParseError>,
    value: Result<egglog::ast::Expr, egglog::ast::ParseError>,
    asked: Seq<Event>,
)
    requires
        is_table_action(action, tail, span, Ok(actions), call, value, asked),
    ensures
        asked.len() == tail.len(),
        actions@.len() == 1,
        tail.len() == if action is Assign {
            2nat
        } else {
            1nat
        },
        asked[0] matches Event::Expr(sexp, Ok(egglog::ast::Expr::Call(_, head, args))) && {
            &&& sexp == tail[0]
            &&& match actions@[0] {
                egglog::ast::Action::Set(place, table, inputs, expr) => {
                    &&& action is Assign
                    &&& place == span
                    &&& table == head
                    &&& inputs == args
                    &&& asked[1] == Event::Expr(tail[1], Ok(expr))
                },
                egglog::ast::Action::Change(place, change, table, inputs) => {
                    &&& change is Delete ==> action is Delete
                    &&& change is Subsume ==> action is Subsume
                    &&& place == span
                    &&& table == head
                    &&& inputs == args
                },
                _ => false,
            }
        },
{
}

/// An action with as many arguments as it takes is refused only for one of them: it is not
/// parsed, and the error is that of the parser, or the lookup is parsed to something that is
/// no call. With another number of arguments nothing is parsed.
pub proof fn lemma_action_is_refused_for_an_argument(
    action: TableAction,
    tail: Seq<egglog::ast::Sexp>,
    span: egglog::ast::Span,
    error: egglog::ast::ParseError,
    call: Result<egglog::ast::Expr, egglog::ast::ParseError>,
    value: Result<egglog::ast::Expr, egglog::ast::ParseError>,
    asked: Seq<Event>,
)
    requires
        is_table_action(action, tail, span, Err(error), call, value, asked),
    ensures
        tail.len() != (if action is Assign {
            2nat
        } else {
            1nat
        }) ==> asked.len() == 0,
        tail.len() == (if action is Assign {
            2nat
        } else {
            1nat
        }) ==> {
            &&& 0 < asked.len() <= tail.len()
            &&& forall|k: int|
                0 <= k < asked.len() - 1 ==> ((#[trigger] asked[k]) matches Event::Expr(sexp, Ok(_))
                    && sexp == tail[k])
            &&& asked.last() matches Event::Expr(sexp, ended)
            &&& sexp == tail[asked.len() - 1]
            &&& match ended {
                Err(given) => given == error,
                Ok(expr) => asked.len() == 1 && !(expr is Call),
            }
        },
{
}

} // verus!

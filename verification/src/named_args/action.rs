//! Actions on tables with named arguments.

use vstd::prelude::*;
use crate::named_args::call::{is_table_call, parse_table_call};
use crate::named_args::parser::{
    follows_spelling, leads, lemma_leads_one, lemma_leads_push, parse_expr, parses_as_spelled,
    parses_expr, Event,
};
use crate::named_args::sexp::{parse_error, says};

verus! {

/// What `(set (<table> <args>*) <expr>)` gives, from the expressions that the
/// lookup and the value were parsed to, and what was asked of the parser.
pub open spec fn is_set(
    tail: Seq<egglog::ast::Sexp>,
    span: egglog::ast::Span,
    result: Result<Vec<egglog::ast::Action>, egglog::ast::ParseError>,
    call: Result<egglog::ast::Expr, egglog::ast::ParseError>,
    value: Result<egglog::ast::Expr, egglog::ast::ParseError>,
    asked: Seq<Event>,
) -> bool {
    if tail.len() != 2 {
        &&& asked.len() == 0
        &&& result matches Err(error)
        &&& says(error, span, "usage: (set (<table name> <expr>*) <expr>)"@)
    } else {
        match (call, value) {
            (Ok(egglog::ast::Expr::Call(_, head, args)), Ok(value_expr)) => {
                &&& asked == seq![Event::Expr(tail[0], call), Event::Expr(tail[1], value)]
                &&& result matches Ok(actions)
                &&& actions@.len() == 1
                &&& actions@[0] == egglog::ast::Action::Set(span, head, args, value_expr)
            },
            (Ok(egglog::ast::Expr::Call(_, _, _)), Err(given)) => {
                &&& asked == seq![Event::Expr(tail[0], call), Event::Expr(tail[1], value)]
                &&& result matches Err(error)
                &&& error == given
            },
            _ => {
                &&& asked == seq![Event::Expr(tail[0], call)]
                &&& result matches Err(error)
                &&& is_table_call(call, Err(error))
            },
        }
    }
}

/// `(set (<table> <args>*) <expr>)`.
pub struct NamedSet;

impl NamedSet {
    /// Parses the action. The lookup may have named arguments.
    pub fn parse(
        &self,
        tail: &[egglog::ast::Sexp],
        span: egglog::ast::Span,
        parser: &mut egglog::ast::Parser,
    ) -> (result: Result<Vec<egglog::ast::Action>, egglog::ast::ParseError>)
        ensures
            exists|
                asked: Seq<Event>,
                call: Result<egglog::ast::Expr, egglog::ast::ParseError>,
                value: Result<egglog::ast::Expr, egglog::ast::ParseError>,
            |
                {
                    &&& leads(*old(parser), asked, *final(parser))
                    &&& tail@.len() == 2 ==> parses_as_spelled(*old(parser), tail@[0], call)
                    &&& #[trigger] is_set(tail@, span, result, call, value, asked)
                },
    {
        let ghost before = *parser;
        if tail.len() != 2 {
            let result = Err(
                parse_error(span, "usage: (set (<table name> <expr>*) <expr>)"),
            );
            proof {
                assert(is_set(tail@, span, result, arbitrary(), arbitrary(), Seq::empty()));
            }
            return result;
        }
        let lookup = parse_table_call(parser, &tail[0]);
        let ghost middle = *parser;
        let ghost call = choose|call: Result<egglog::ast::Expr, egglog::ast::ParseError>|
            {
                &&& parses_expr(before, tail@[0], call, middle)
                &&& follows_spelling(before, tail@[0], call, middle)
                &&& #[trigger] is_table_call(call, lookup)
            };
        assert(parses_as_spelled(before, tail@[0], call));
        let (func, args) = match lookup {
            Ok(lookup) => lookup,
            Err(error) => {
                let result = Err(error);
                proof {
                    let asked = seq![Event::Expr(tail@[0], call)];
                    lemma_leads_one(before, Event::Expr(tail@[0], call), middle);
                    assert(is_set(tail@, span, result, call, arbitrary(), asked));
                }
                return result;
            },
        };
        let value = parse_expr(parser, &tail[1]);
        let ghost asked = seq![Event::Expr(tail@[0], call), Event::Expr(tail@[1], value)];
        proof {
            let first = Event::Expr(tail@[0], call);
            let second = Event::Expr(tail@[1], value);
            lemma_leads_one(before, first, middle);
            lemma_leads_push(before, seq![first], middle, second, *parser);
            assert(seq![first].push(second) =~= asked);
        }
        match value {
            Ok(expr) => {
                let mut actions: Vec<egglog::ast::Action> = Vec::new();
                actions.push(egglog::ast::Action::Set(span, func, args, expr));
                let result = Ok(actions);
                assert(is_set(tail@, span, result, call, value, asked));
                result
            },
            Err(error) => {
                let result = Err(error);
                assert(is_set(tail@, span, result, call, value, asked));
                result
            },
        }
    }
}

/// What `(delete (<table> <args>*))` or `(subsume (<table> <args>*))` gives,
/// from the expression that the lookup was parsed to, and what was asked of the
/// parser.
pub open spec fn is_change(
    change: egglog::ast::Change,
    tail: Seq<egglog::ast::Sexp>,
    span: egglog::ast::Span,
    result: Result<Vec<egglog::ast::Action>, egglog::ast::ParseError>,
    call: Result<egglog::ast::Expr, egglog::ast::ParseError>,
    asked: Seq<Event>,
) -> bool {
    if tail.len() != 1 {
        &&& asked.len() == 0
        &&& result matches Err(error)
        &&& says(error, span, "usage: (<change> (<table name> <expr>*))"@)
    } else {
        &&& asked == seq![Event::Expr(tail[0], call)]
        &&& match call {
            Ok(egglog::ast::Expr::Call(_, head, args)) => {
                &&& result matches Ok(actions)
                &&& actions@.len() == 1
                &&& actions@[0] == egglog::ast::Action::Change(span, change, head, args)
            },
            _ => result matches Err(error) && is_table_call(call, Err(error)),
        }
    }
}

/// `(delete (<table> <args>*))` or `(subsume (<table> <args>*))`.
pub struct NamedChange {
    /// The word of the action.
    pub keyword: &'static str,
    /// What happens to the row.
    pub change: egglog::ast::Change,
}

impl NamedChange {
    /// `(delete (<table> <args>*))`.
    pub fn delete() -> (named: Self)
        ensures
            named.keyword@ == "delete"@,
            named.change == egglog::ast::Change::Delete,
    {
        NamedChange { keyword: "delete", change: egglog::ast::Change::Delete }
    }

    /// `(subsume (<table> <args>*))`.
    pub fn subsume() -> (named: Self)
        ensures
            named.keyword@ == "subsume"@,
            named.change == egglog::ast::Change::Subsume,
    {
        NamedChange { keyword: "subsume", change: egglog::ast::Change::Subsume }
    }

    /// Parses the action. The lookup may have named arguments.
    pub fn parse(
        &self,
        tail: &[egglog::ast::Sexp],
        span: egglog::ast::Span,
        parser: &mut egglog::ast::Parser,
    ) -> (result: Result<Vec<egglog::ast::Action>, egglog::ast::ParseError>)
        ensures
            exists|
                asked: Seq<Event>,
                call: Result<egglog::ast::Expr, egglog::ast::ParseError>,
            |
                {
                    &&& leads(*old(parser), asked, *final(parser))
                    &&& tail@.len() == 1 ==> parses_as_spelled(*old(parser), tail@[0], call)
                    &&& #[trigger] is_change(self.change, tail@, span, result, call, asked)
                },
    {
        let ghost before = *parser;
        if tail.len() != 1 {
            let result = Err(parse_error(span, "usage: (<change> (<table name> <expr>*))"));
            proof {
                assert(is_change(self.change, tail@, span, result, arbitrary(), Seq::empty()));
            }
            return result;
        }
        let lookup = parse_table_call(parser, &tail[0]);
        let ghost call = choose|call: Result<egglog::ast::Expr, egglog::ast::ParseError>|
            {
                &&& parses_expr(before, tail@[0], call, *parser)
                &&& follows_spelling(before, tail@[0], call, *parser)
                &&& #[trigger] is_table_call(call, lookup)
            };
        assert(parses_as_spelled(before, tail@[0], call));
        let ghost asked = seq![Event::Expr(tail@[0], call)];
        proof {
            lemma_leads_one(before, Event::Expr(tail@[0], call), *parser);
        }
        match lookup {
            Ok((func, args)) => {
                let mut actions: Vec<egglog::ast::Action> = Vec::new();
                actions.push(egglog::ast::Action::Change(span, self.change, func, args));
                let result = Ok(actions);
                assert(is_change(self.change, tail@, span, result, call, asked));
                result
            },
            Err(error) => {
                let result = Err(error);
                assert(is_change(self.change, tail@, span, result, call, asked));
                result
            },
        }
    }
}

/// What an action does to a row of a table.
#[derive(Clone, Copy)]
pub enum TableAction {
    /// Sets its value.
    Assign,
    /// Deletes it.
    Delete,
    /// Subsumes it.
    Subsume,
}

/// What an action on a table gives, and what was asked of the parser.
pub open spec fn is_table_action(
    action: TableAction,
    tail: Seq<egglog::ast::Sexp>,
    span: egglog::ast::Span,
    result: Result<Vec<egglog::ast::Action>, egglog::ast::ParseError>,
    call: Result<egglog::ast::Expr, egglog::ast::ParseError>,
    value: Result<egglog::ast::Expr, egglog::ast::ParseError>,
    asked: Seq<Event>,
) -> bool {
    match action {
        TableAction::Assign => is_set(tail, span, result, call, value, asked),
        TableAction::Delete => is_change(
            egglog::ast::Change::Delete,
            tail,
            span,
            result,
            call,
            asked,
        ),
        TableAction::Subsume => is_change(
            egglog::ast::Change::Subsume,
            tail,
            span,
            result,
            call,
            asked,
        ),
    }
}

impl TableAction {
    /// The arguments have a lookup: the action has as many as it takes.
    pub open spec fn looks_up(&self, tail: Seq<egglog::ast::Sexp>) -> bool {
        match self {
            TableAction::Assign => tail.len() == 2,
            _ => tail.len() == 1,
        }
    }

    /// Parses an action on a table. The lookup may have named arguments.
    pub fn parse(
        &self,
        tail: &[egglog::ast::Sexp],
        span: egglog::ast::Span,
        parser: &mut egglog::ast::Parser,
    ) -> (result: Result<Vec<egglog::ast::Action>, egglog::ast::ParseError>)
        ensures
            exists|
                asked: Seq<Event>,
                call: Result<egglog::ast::Expr, egglog::ast::ParseError>,
                value: Result<egglog::ast::Expr, egglog::ast::ParseError>,
            |
                {
                    &&& leads(*old(parser), asked, *final(parser))
                    &&& self.looks_up(tail@) ==> parses_as_spelled(*old(parser), tail@[0], call)
                    &&& #[trigger] is_table_action(*self, tail@, span, result, call, value, asked)
                },
    {
        let ghost before = *parser;
        let (change, result) = match self {
            TableAction::Assign => {
                let result = NamedSet.parse(tail, span, parser);
                proof {
                    let (asked, call, value) = choose|
                        asked: Seq<Event>,
                        call: Result<egglog::ast::Expr, egglog::ast::ParseError>,
                        value: Result<egglog::ast::Expr, egglog::ast::ParseError>,
                    |
                        {
                            &&& leads(before, asked, *parser)
                            &&& tail@.len() == 2 ==> parses_as_spelled(before, tail@[0], call)
                            &&& #[trigger] is_set(tail@, span, result, call, value, asked)
                        };
                    assert(is_table_action(*self, tail@, span, result, call, value, asked));
                }
                return result;
            },
            TableAction::Delete => {
                let named = NamedChange::delete();
                (named.change, named.parse(tail, span, parser))
            },
            TableAction::Subsume => {
                let named = NamedChange::subsume();
                (named.change, named.parse(tail, span, parser))
            },
        };
        proof {
            let (asked, call) = choose|
                asked: Seq<Event>,
                call: Result<egglog::ast::Expr, egglog::ast::ParseError>,
            |
                {
                    &&& leads(before, asked, *parser)
                    &&& tail@.len() == 1 ==> parses_as_spelled(before, tail@[0], call)
                    &&& #[trigger] is_change(change, tail@, span, result, call, asked)
                };
            assert(is_table_action(*self, tail@, span, result, call, arbitrary(), asked));
        }
        result
    }
}

} // verus!

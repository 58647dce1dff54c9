//! Declarations with named fields.

use vstd::prelude::*;
use crate::named_args::call::{optional_texts, register_call};
use crate::named_args::fields::{fault, parse_schema_list, process_variant, schema_list, variant_of};
use crate::named_args::parser::{
    leads, lemma_leads_concat, lemma_leads_one, lemma_leads_push, parse_datatype, parse_expr,
    spells, Event,
};
use crate::named_args::sexp::{
    atom, call_of, expect_uint, is_fault, is_key, is_variant, no_uint, option_groups, parse_error,
    says, sexp_span, uint, Fault, VariantModel,
};
use crate::text::{same, texts};

verus! {

/// The signature of a declaration: the name, the names of the fields if they are
/// named, the sorts of the fields and the sort of the value.
pub struct Signature {
    /// The name.
    pub name: Seq<char>,
    /// The names of the fields.
    pub names: Option<Seq<Seq<char>>>,
    /// The sorts of the fields.
    pub input: Seq<Seq<char>>,
    /// The sort of the value.
    pub output: Seq<char>,
}

/// The head and the options of a declaration.
pub open spec fn signature_of(
    tail: Seq<egglog::ast::Sexp>,
    span: egglog::ast::Span,
    usage: Seq<char>,
    expected: Seq<char>,
) -> Result<(Signature, Seq<(Seq<char>, Seq<egglog::ast::Sexp>)>), Fault> {
    if tail.len() < 3 {
        Err(Fault { span, text: usage })
    } else {
        match (atom(tail[0]), schema_list(tail[1]), atom(tail[2])) {
            (None, _, _) => Err(fault(tail[0], "expected "@ + expected)),
            (_, Err(fault), _) => Err(fault),
            (_, _, None) => Err(fault(tail[2], "expected "@ + "output sort"@)),
            (Some(name), Ok((names, input)), Some(output)) => {
                let rest = tail.skip(3);
                if rest.len() > 0 && !is_key(rest[0]) {
                    Err(fault(rest[0], "option key must start with ':'"@))
                } else {
                    Ok((Signature { name, names, input, output }, option_groups(rest)))
                }
            },
        }
    }
}

/// The head of a declaration, in executable form.
struct ReadSignature<'a> {
    name: String,
    names: Option<Vec<String>>,
    input: Vec<String>,
    output: String,
    groups: Vec<(&'a str, &'a [egglog::ast::Sexp])>,
}

/// Options with their keys and values as plain sequences.
spec fn plain(groups: Seq<(&str, &[egglog::ast::Sexp])>) -> Seq<
    (Seq<char>, Seq<egglog::ast::Sexp>),
> {
    groups.map_values(|group: (&str, &[egglog::ast::Sexp])| (group.0@, group.1@))
}

impl<'a> ReadSignature<'a> {
    spec fn model(self) -> Signature {
        Signature {
            name: self.name@,
            names: optional_texts(self.names),
            input: texts(self.input@),
            output: self.output@,
        }
    }
}

/// Reads the head and the options of a declaration.
fn read_signature<'a>(
    parser: &egglog::ast::Parser,
    tail: &'a [egglog::ast::Sexp],
    span: &egglog::ast::Span,
    usage: &str,
    expected: &'static str,
) -> (result: Result<ReadSignature<'a>, egglog::ast::ParseError>)
    ensures
        match (result, signature_of(tail@, *span, usage@, expected@)) {
            (Ok(read), Ok((head, groups))) => read.model() == head && plain(read.groups@) == groups,
            (Err(error), Err(fault)) => is_fault(error, fault),
            _ => false,
        },
{
    if tail.len() < 3 {
        return Err(parse_error(span.clone(), usage));
    }
    let name = match tail[0].expect_atom(expected) {
        Ok(name) => name,
        Err(error) => return Err(error),
    };
    let (names, input) = match parse_schema_list(&tail[1]) {
        Ok(schema) => schema,
        Err(error) => return Err(error),
    };
    let output = match tail[2].expect_atom("output sort") {
        Ok(output) => output,
        Err(error) => return Err(error),
    };
    let rest = vstd::slice::slice_subrange(tail, 3, tail.len());
    assert(rest@ =~= tail@.skip(3));
    let groups = match parser.parse_options(rest) {
        Ok(groups) => groups,
        Err(error) => return Err(error),
    };
    Ok(ReadSignature { name, names, input, output, groups })
}

/// The options of a constructor.
pub struct ConstructorOptions {
    /// Its cost.
    pub cost: Option<u64>,
    /// Whether it is kept out of extraction.
    pub unextractable: bool,
    /// Whether it is hidden.
    pub hidden: bool,
    /// Whether it is a let binding.
    pub let_binding: bool,
}

/// The options of a constructor from group `i` on, added to those before.
pub open spec fn constructor_options(
    groups: Seq<(Seq<char>, Seq<egglog::ast::Sexp>)>,
    span: egglog::ast::Span,
    i: int,
    options: ConstructorOptions,
) -> Result<ConstructorOptions, Fault>
    decreases groups.len() - i,
{
    if i >= groups.len() {
        Ok(options)
    } else {
        let (key, values) = groups[i];
        if key == ":unextractable"@ && values.len() == 0 {
            constructor_options(
                groups,
                span,
                i + 1,
                ConstructorOptions { unextractable: true, ..options },
            )
        } else if key == ":internal-hidden"@ && values.len() == 0 {
            constructor_options(
                groups,
                span,
                i + 1,
                ConstructorOptions { hidden: true, ..options },
            )
        } else if key == ":internal-let"@ && values.len() == 0 {
            constructor_options(
                groups,
                span,
                i + 1,
                ConstructorOptions { let_binding: true, ..options },
            )
        } else if key == ":cost"@ && values.len() == 1 {
            if uint(values[0]) is None {
                Err(no_uint(values[0]))
            } else {
                constructor_options(
                    groups,
                    span,
                    i + 1,
                    ConstructorOptions { cost: uint(values[0]), ..options },
                )
            }
        } else {
            Err(Fault { span, text: "could not parse constructor options"@ })
        }
    }
}

/// What a constructor declaration declares.
pub open spec fn constructor_declaration(
    tail: Seq<egglog::ast::Sexp>,
    span: egglog::ast::Span,
) -> Result<(Signature, ConstructorOptions), Fault> {
    match signature_of(
        tail,
        span,
        "usage: (constructor <name> (<input sort>*) <output sort> <options>*)"@,
        "constructor name"@,
    ) {
        Ok((head, groups)) => match constructor_options(
            groups,
            span,
            0,
            ConstructorOptions {
                cost: None,
                unextractable: false,
                hidden: false,
                let_binding: false,
            },
        ) {
            Ok(options) => Ok((head, options)),
            Err(fault) => Err(fault),
        },
        Err(fault) => Err(fault),
    }
}

/// The schema has the sorts of the head.
pub open spec fn is_schema(schema: egglog::ast::Schema, head: Signature) -> bool {
    texts(schema.input@) == head.input && schema.output@ == head.output
}

/// The command declares this constructor.
pub open spec fn is_constructor(
    command: egglog::ast::Command,
    place: egglog::ast::Span,
    head: Signature,
    options: ConstructorOptions,
) -> bool {
    match command {
        egglog::ast::Command::Constructor {
            span,
            name,
            schema,
            cost,
            unextractable,
            hidden,
            let_binding,
            term_constructor,
        } => {
            &&& span == place
            &&& name@ == head.name
            &&& is_schema(schema, head)
            &&& cost == options.cost
            &&& unextractable == options.unextractable
            &&& hidden == options.hidden
            &&& let_binding == options.let_binding
            &&& term_constructor is None
        },
        _ => false,
    }
}

/// `(constructor <name> (<schema>) <output> <options>*)`.
pub struct NamedConstructor;

impl NamedConstructor {
    /// Parses the declaration and records how the calls of the constructor are
    /// spelled.
    pub fn parse(
        &self,
        tail: &[egglog::ast::Sexp],
        span: egglog::ast::Span,
        parser: &mut egglog::ast::Parser,
    ) -> (result: Result<Vec<egglog::ast::Command>, egglog::ast::ParseError>)
        ensures
            match (result, constructor_declaration(tail@, span)) {
                (Ok(commands), Ok((head, options))) => {
                    &&& commands@.len() == 1
                    &&& is_constructor(commands@[0], span, head, options)
                    &&& spells(*old(parser), head.name, head.names, *final(parser))
                },
                (Err(error), Err(fault)) => {
                    &&& is_fault(error, fault)
                    &&& *final(parser) == *old(parser)
                },
                _ => false,
            },
    {
        let read = match read_signature(
            &*parser,
            tail,
            &span,
            "usage: (constructor <name> (<input sort>*) <output sort> <options>*)",
            "constructor name",
        ) {
            Ok(read) => read,
            Err(error) => return Err(error),
        };
        let mut cost: Option<u64> = None;
        let mut unextractable = false;
        let mut hidden = false;
        let mut let_binding = false;
        let ghost groups = plain(read.groups@);
        let ghost none = ConstructorOptions {
            cost: None,
            unextractable: false,
            hidden: false,
            let_binding: false,
        };
        for i in 0..read.groups.len()
            invariant
                groups == plain(read.groups@),
                *parser == *old(parser),
                constructor_declaration(tail@, span) == match constructor_options(
                    groups,
                    span,
                    0,
                    none,
                ) {
                    Ok(options) => Ok((read.model(), options)),
                    Err(fault) => Err(fault),
                },
                constructor_options(groups, span, 0, none) == constructor_options(
                    groups,
                    span,
                    i as int,
                    ConstructorOptions { cost, unextractable, hidden, let_binding },
                ),
        {
            let (key, values) = read.groups[i];
            assert(groups[i as int] == (key@, values@));
            if same(key, ":unextractable") && values.len() == 0 {
                unextractable = true;
            } else if same(key, ":internal-hidden") && values.len() == 0 {
                hidden = true;
            } else if same(key, ":internal-let") && values.len() == 0 {
                let_binding = true;
            } else if same(key, ":cost") && values.len() == 1 {
                match expect_uint(&values[0], "cost") {
                    Ok(number) => cost = Some(number),
                    Err(error) => return Err(error),
                }
            } else {
                return Err(parse_error(span.clone(), "could not parse constructor options"));
            }
        }
        register_call(parser, read.name.as_str(), read.names);
        let mut commands: Vec<egglog::ast::Command> = Vec::new();
        commands.push(
            egglog::ast::Command::Constructor {
                span,
                name: read.name,
                schema: egglog::ast::Schema { input: read.input, output: read.output },
                cost,
                unextractable,
                hidden,
                let_binding,
                term_constructor: None,
            },
        );
        Ok(commands)
    }
}

/// The options of a function.
pub struct FunctionOptions {
    /// The expression that merges two values, or that there is none.
    pub merge: Option<Option<egglog::ast::Sexp>>,
    /// Whether it is hidden.
    pub hidden: bool,
    /// Whether it is a let binding.
    pub let_binding: bool,
    /// The constructor of its terms.
    pub term_constructor: Option<Seq<char>>,
    /// Whether it is kept out of extraction.
    pub unextractable: bool,
}

/// A function without options.
pub open spec fn no_function_options() -> FunctionOptions {
    FunctionOptions {
        merge: None,
        hidden: false,
        let_binding: false,
        term_constructor: None,
        unextractable: false,
    }
}

/// The options of a function from group `i` on, added to those before, and the
/// merge expression that is parsed on the way.
pub open spec fn function_options(
    groups: Seq<(Seq<char>, Seq<egglog::ast::Sexp>)>,
    span: egglog::ast::Span,
    i: int,
    options: FunctionOptions,
) -> (Option<egglog::ast::Sexp>, Result<FunctionOptions, Fault>)
    decreases groups.len() - i,
{
    if i >= groups.len() {
        (None, Ok(options))
    } else {
        let (key, values) = groups[i];
        if key == ":no-merge"@ && values.len() == 0 {
            if options.merge is Some {
                (None, Err(Fault { span, text: "conflicting merge options"@ }))
            } else {
                function_options(
                    groups,
                    span,
                    i + 1,
                    FunctionOptions { merge: Some(None), ..options },
                )
            }
        } else if key == ":merge"@ && values.len() == 1 {
            if options.merge is Some {
                (None, Err(Fault { span, text: "conflicting merge options"@ }))
            } else {
                let rest = function_options(
                    groups,
                    span,
                    i + 1,
                    FunctionOptions { merge: Some(Some(values[0])), ..options },
                );
                (Some(values[0]), rest.1)
            }
        } else if key == ":internal-hidden"@ && values.len() == 0 {
            function_options(groups, span, i + 1, FunctionOptions { hidden: true, ..options })
        } else if key == ":internal-let"@ && values.len() == 0 {
            function_options(groups, span, i + 1, FunctionOptions { let_binding: true, ..options })
        } else if key == ":unextractable"@ && values.len() == 0 {
            function_options(
                groups,
                span,
                i + 1,
                FunctionOptions { unextractable: true, ..options },
            )
        } else if key == ":internal-term-constructor"@ && values.len() == 1 {
            match atom(values[0]) {
                Some(name) => function_options(
                    groups,
                    span,
                    i + 1,
                    FunctionOptions { term_constructor: Some(name), ..options },
                ),
                None => (None, Err(fault(values[0], "expected "@ + "term constructor name"@))),
            }
        } else {
            (None, Err(Fault { span, text: "could not parse function options"@ }))
        }
    }
}

/// The text, if there is any.
pub open spec fn optional_text(string: Option<String>) -> Option<Seq<char>> {
    match string {
        Some(text) => Some(text@),
        None => None,
    }
}

/// The command declares this function, with the merge expression.
pub open spec fn is_function(
    command: egglog::ast::Command,
    place: egglog::ast::Span,
    signature: Signature,
    options: FunctionOptions,
    expr: Option<egglog::ast::Expr>,
) -> bool {
    match command {
        egglog::ast::Command::Function {
            span,
            name,
            schema,
            merge,
            hidden,
            let_binding,
            term_constructor,
            unextractable,
        } => {
            &&& span == place
            &&& name@ == signature.name
            &&& is_schema(schema, signature)
            &&& merge == expr
            &&& hidden == options.hidden
            &&& let_binding == options.let_binding
            &&& optional_text(term_constructor) == options.term_constructor
            &&& unextractable == options.unextractable
        },
        _ => false,
    }
}

/// What a function declaration gives, what the merge expression is parsed to,
/// and what was asked of the parser.
pub open spec fn is_function_declaration(
    tail: Seq<egglog::ast::Sexp>,
    span: egglog::ast::Span,
    result: Result<Vec<egglog::ast::Command>, egglog::ast::ParseError>,
    parsed: Result<egglog::ast::Expr, egglog::ast::ParseError>,
    asked: Seq<Event>,
) -> bool {
    match signature_of(
        tail,
        span,
        "usage: (function <name> (<input sort>*) <output sort> <options>*)"@,
        "function name"@,
    ) {
        Err(fault) => asked.len() == 0 && (result matches Err(error) && is_fault(error, fault)),
        Ok((signature, groups)) => {
            let (merge, end) = function_options(groups, span, 0, no_function_options());
            let first = match merge {
                Some(sexp) => seq![Event::Expr(sexp, parsed)],
                None => Seq::empty(),
            };
            if merge is Some && parsed is Err {
                &&& result matches Err(error)
                &&& parsed->Err_0 == error
                &&& asked == first
            } else {
                match end {
                    Err(fault) => asked == first && (result matches Err(error) && is_fault(
                        error,
                        fault,
                    )),
                    Ok(options) => if options.merge is None {
                        &&& asked == first
                        &&& result matches Err(error)
                        &&& says(error, span, "functions are required to specify merge behaviour"@)
                    } else {
                        &&& asked == first.push(Event::Spell(signature.name, signature.names))
                        &&& result matches Ok(commands)
                        &&& commands@.len() == 1
                        &&& is_function(
                            commands@[0],
                            span,
                            signature,
                            options,
                            if merge is Some {
                                Some(parsed->Ok_0)
                            } else {
                                None
                            },
                        )
                    },
                }
            }
        },
    }
}

/// `(function <name> (<schema>) <output> <options>*)`.
pub struct NamedFunction;

impl NamedFunction {
    /// Parses the declaration and records how the calls of the function are
    /// spelled.
    pub fn parse(
        &self,
        tail: &[egglog::ast::Sexp],
        span: egglog::ast::Span,
        parser: &mut egglog::ast::Parser,
    ) -> (result: Result<Vec<egglog::ast::Command>, egglog::ast::ParseError>)
        ensures
            exists|
                asked: Seq<Event>,
                parsed: Result<egglog::ast::Expr, egglog::ast::ParseError>,
            |
                leads(*old(parser), asked, *final(parser))
                    && #[trigger] is_function_declaration(tail@, span, result, parsed, asked),
    {
        let ghost before = *parser;
        let ghost mut parsed: Result<egglog::ast::Expr, egglog::ast::ParseError> = arbitrary();
        let ghost mut first: Seq<Event> = Seq::empty();
        let read = match read_signature(
            &*parser,
            tail,
            &span,
            "usage: (function <name> (<input sort>*) <output sort> <options>*)",
            "function name",
        ) {
            Ok(read) => read,
            Err(error) => {
                let result = Err(error);
                assert(is_function_declaration(tail@, span, result, parsed, first));
                return result;
            },
        };
        let ghost groups = plain(read.groups@);
        let ghost whole = function_options(groups, span, 0, no_function_options());
        let ghost mut options = no_function_options();
        let mut merge: Option<Option<egglog::ast::Expr>> = None;
        let mut hidden = false;
        let mut let_binding = false;
        let mut term_constructor: Option<String> = None;
        let mut unextractable = false;
        for i in 0..read.groups.len()
            invariant
                groups == plain(read.groups@),
                before == *old(parser),
                signature_of(
                    tail@,
                    span,
                    "usage: (function <name> (<input sort>*) <output sort> <options>*)"@,
                    "function name"@,
                ) == Ok::<
                    (Signature, Seq<(Seq<char>, Seq<egglog::ast::Sexp>)>),
                    Fault,
                >((read.model(), groups)),
                whole == function_options(groups, span, 0, no_function_options()),
                whole.1 == function_options(groups, span, i as int, options).1,
                match options.merge {
                    Some(Some(sexp)) => {
                        &&& whole.0 == Some(sexp)
                        &&& parsed is Ok
                        &&& first == seq![Event::Expr(sexp, parsed)]
                        &&& merge == Some(Some(parsed->Ok_0))
                    },
                    Some(None) => {
                        &&& whole.0 == function_options(groups, span, i as int, options).0
                        &&& first.len() == 0
                        &&& merge == Some(None::<egglog::ast::Expr>)
                    },
                    None => {
                        &&& whole.0 == function_options(groups, span, i as int, options).0
                        &&& first.len() == 0
                        &&& merge is None
                    },
                },
                leads(before, first, *parser),
                first.len() == 0 ==> *parser == before,
                hidden == options.hidden,
                let_binding == options.let_binding,
                optional_text(term_constructor) == options.term_constructor,
                unextractable == options.unextractable,
        {
            let (key, values) = read.groups[i];
            assert(groups[i as int] == (key@, values@));
            assert(first.len() == 0 ==> first =~= Seq::empty());
            if same(key, ":no-merge") && values.len() == 0 {
                if merge.is_some() {
                    let result = Err(parse_error(span.clone(), "conflicting merge options"));
                    assert(is_function_declaration(tail@, span, result, parsed, first));
                    return result;
                }
                merge = Some(None);
                proof {
                    options = FunctionOptions { merge: Some(None), ..options };
                }
            } else if same(key, ":merge") && values.len() == 1 {
                if merge.is_some() {
                    let result = Err(parse_error(span.clone(), "conflicting merge options"));
                    assert(is_function_declaration(tail@, span, result, parsed, first));
                    return result;
                }
                let outcome = parse_expr(parser, &values[0]);
                proof {
                    parsed = outcome;
                    first = seq![Event::Expr(values@[0], parsed)];
                    lemma_leads_one(before, Event::Expr(values@[0], parsed), *parser);
                }
                match outcome {
                    Ok(expr) => merge = Some(Some(expr)),
                    Err(error) => {
                        let result = Err(error);
                        assert(is_function_declaration(tail@, span, result, parsed, first));
                        return result;
                    },
                }
                proof {
                    options = FunctionOptions { merge: Some(Some(values@[0])), ..options };
                }
            } else if same(key, ":internal-hidden") && values.len() == 0 {
                hidden = true;
                proof {
                    options = FunctionOptions { hidden: true, ..options };
                }
            } else if same(key, ":internal-let") && values.len() == 0 {
                let_binding = true;
                proof {
                    options = FunctionOptions { let_binding: true, ..options };
                }
            } else if same(key, ":unextractable") && values.len() == 0 {
                unextractable = true;
                proof {
                    options = FunctionOptions { unextractable: true, ..options };
                }
            } else if same(key, ":internal-term-constructor") && values.len() == 1 {
                match values[0].expect_atom("term constructor name") {
                    Ok(name) => {
                        proof {
                            options =
                            FunctionOptions { term_constructor: Some(name@), ..options };
                        }
                        term_constructor = Some(name);
                    },
                    Err(error) => {
                        let result = Err(error);
                        assert(is_function_declaration(tail@, span, result, parsed, first));
                        return result;
                    },
                }
            } else {
                let result = Err(parse_error(span.clone(), "could not parse function options"));
                assert(is_function_declaration(tail@, span, result, parsed, first));
                return result;
            }
        }
        assert(first.len() == 0 ==> first =~= Seq::empty());
        let merge = match merge {
            Some(merge) => merge,
            None => {
                let result = Err(
                    parse_error(span, "functions are required to specify merge behaviour"),
                );
                assert(is_function_declaration(tail@, span, result, parsed, first));
                return result;
            },
        };
        let ghost signature = read.model();
        let ghost middle = *parser;
        register_call(parser, read.name.as_str(), read.names);
        let mut commands: Vec<egglog::ast::Command> = Vec::new();
        commands.push(
            egglog::ast::Command::Function {
                span,
                name: read.name,
                schema: egglog::ast::Schema { input: read.input, output: read.output },
                merge,
                hidden,
                let_binding,
                term_constructor,
                unextractable,
            },
        );
        let result = Ok(commands);
        proof {
            let spell = Event::Spell(signature.name, signature.names);
            let asked = first.push(spell);
            lemma_leads_push(before, first, middle, spell, *parser);
            assert(is_function_declaration(tail@, span, result, parsed, asked));
        }
        result
    }
}

/// What a relation declaration declares: the name, the names of the fields if
/// they are named, and the sorts of the fields.
pub open spec fn relation_declaration(
    tail: Seq<egglog::ast::Sexp>,
    span: egglog::ast::Span,
) -> Result<(Seq<char>, Option<Seq<Seq<char>>>, Seq<Seq<char>>), Fault> {
    if tail.len() != 2 {
        Err(Fault { span, text: "usage: (relation <name> (<input sort>*))"@ })
    } else {
        match (atom(tail[0]), schema_list(tail[1])) {
            (None, _) => Err(fault(tail[0], "expected "@ + "relation name"@)),
            (_, Err(fault)) => Err(fault),
            (Some(name), Ok((names, inputs))) => Ok((name, names, inputs)),
        }
    }
}

/// The command declares this relation.
pub open spec fn is_relation(
    command: egglog::ast::Command,
    place: egglog::ast::Span,
    text: Seq<char>,
    sorts: Seq<Seq<char>>,
) -> bool {
    match command {
        egglog::ast::Command::Relation { span, name, inputs } => {
            &&& span == place
            &&& name@ == text
            &&& texts(inputs@) == sorts
        },
        _ => false,
    }
}

/// `(relation <name> (<schema>))`.
pub struct NamedRelation;

impl NamedRelation {
    /// Parses the declaration and records how the facts of the relation are
    /// spelled.
    pub fn parse(
        &self,
        tail: &[egglog::ast::Sexp],
        span: egglog::ast::Span,
        parser: &mut egglog::ast::Parser,
    ) -> (result: Result<Vec<egglog::ast::Command>, egglog::ast::ParseError>)
        ensures
            match (result, relation_declaration(tail@, span)) {
                (Ok(commands), Ok((name, names, sorts))) => {
                    &&& commands@.len() == 1
                    &&& is_relation(commands@[0], span, name, sorts)
                    &&& spells(*old(parser), name, names, *final(parser))
                },
                (Err(error), Err(fault)) => {
                    &&& is_fault(error, fault)
                    &&& *final(parser) == *old(parser)
                },
                _ => false,
            },
    {
        if tail.len() != 2 {
            return Err(parse_error(span, "usage: (relation <name> (<input sort>*))"));
        }
        let name = match tail[0].expect_atom("relation name") {
            Ok(name) => name,
            Err(error) => return Err(error),
        };
        let (names, inputs) = match parse_schema_list(&tail[1]) {
            Ok(schema) => schema,
            Err(error) => return Err(error),
        };
        register_call(parser, name.as_str(), names);
        let mut commands: Vec<egglog::ast::Command> = Vec::new();
        commands.push(egglog::ast::Command::Relation { span, name, inputs });
        Ok(commands)
    }
}

/// The variants from position `i` on, behind those before, up to the first that
/// is wrong.
pub open spec fn variants_from(
    sexps: Seq<egglog::ast::Sexp>,
    i: int,
    before: Seq<(VariantModel, Option<Seq<Seq<char>>>)>,
) -> (Seq<(VariantModel, Option<Seq<Seq<char>>>)>, Option<Fault>)
    decreases sexps.len() - i,
{
    if i >= sexps.len() {
        (before, None)
    } else {
        match variant_of(sexps[i]) {
            Ok(variant) => variants_from(sexps, i + 1, before.push(variant)),
            Err(fault) => (before, Some(fault)),
        }
    }
}

/// How the calls of the variants are spelled.
pub open spec fn spellings(declared: Seq<(VariantModel, Option<Seq<Seq<char>>>)>) -> Seq<Event> {
    declared.map_values(
        |variant: (VariantModel, Option<Seq<Seq<char>>>)|
            Event::Spell(variant.0.name, variant.1),
    )
}

/// The variants are those that were declared.
pub open spec fn are_variants(
    variants: Seq<egglog::ast::Variant>,
    declared: Seq<(VariantModel, Option<Seq<Seq<char>>>)>,
) -> bool {
    &&& variants.len() == declared.len()
    &&& forall|k: int|
        0 <= k < variants.len() ==> is_variant(#[trigger] variants[k], declared[k].0)
}

/// Parses variants and records how their calls are spelled, up to the first
/// that is wrong.
fn process_variants(parser: &mut egglog::ast::Parser, sexps: &[egglog::ast::Sexp]) -> (result:
    Result<Vec<egglog::ast::Variant>, egglog::ast::ParseError>)
    ensures
        ({
            let (declared, fault) = variants_from(sexps@, 0, Seq::empty());
            &&& leads(*old(parser), spellings(declared), *final(parser))
            &&& match (result, fault) {
                (Ok(variants), None) => are_variants(variants@, declared),
                (Err(error), Some(fault)) => is_fault(error, fault),
                _ => false,
            }
        }),
{
    let ghost before = *parser;
    let ghost whole = variants_from(sexps@, 0, Seq::empty());
    let ghost mut declared: Seq<(VariantModel, Option<Seq<Seq<char>>>)> = Seq::empty();
    let mut variants: Vec<egglog::ast::Variant> = Vec::new();
    assert(spellings(declared) =~= Seq::empty());
    for i in 0..sexps.len()
        invariant
            before == *old(parser),
            whole == variants_from(sexps@, 0, Seq::empty()),
            whole == variants_from(sexps@, i as int, declared),
            leads(before, spellings(declared), *parser),
            are_variants(variants@, declared),
    {
        let ghost middle = *parser;
        let variant = match process_variant(parser, &sexps[i]) {
            Ok(variant) => variant,
            Err(error) => return Err(error),
        };
        proof {
            let next = variant_of(sexps@[i as int])->Ok_0;
            assert(spellings(declared.push(next)) =~= spellings(declared).push(
                Event::Spell(next.0.name, next.1),
            ));
            lemma_leads_push(
                before,
                spellings(declared),
                middle,
                Event::Spell(next.0.name, next.1),
                *parser,
            );
            declared = declared.push(next);
        }
        variants.push(variant);
    }
    Ok(variants)
}

/// The command declares this datatype.
pub open spec fn is_datatype(
    command: egglog::ast::Command,
    place: egglog::ast::Span,
    text: Seq<char>,
    declared: Seq<(VariantModel, Option<Seq<Seq<char>>>)>,
) -> bool {
    match command {
        egglog::ast::Command::Datatype { span, name, variants } => {
            &&& span == place
            &&& name@ == text
            &&& are_variants(variants@, declared)
        },
        _ => false,
    }
}

/// What a datatype declaration declares: the name, the variants up to the first
/// that is wrong, and what is wrong.
pub open spec fn datatype_declaration(
    tail: Seq<egglog::ast::Sexp>,
    span: egglog::ast::Span,
) -> (Seq<char>, Seq<(VariantModel, Option<Seq<Seq<char>>>)>, Option<Fault>) {
    if tail.len() == 0 {
        (
            Seq::empty(),
            Seq::empty(),
            Some(Fault { span, text: "usage: (datatype <name> <variant>*)"@ }),
        )
    } else {
        match atom(tail[0]) {
            None => (
                Seq::empty(),
                Seq::empty(),
                Some(fault(tail[0], "expected "@ + "sort name"@)),
            ),
            Some(name) => {
                let (declared, fault) = variants_from(tail.skip(1), 0, Seq::empty());
                (name, declared, fault)
            },
        }
    }
}

/// `(datatype <name> <variant>*)`.
pub struct NamedDatatype;

impl NamedDatatype {
    /// Parses the declaration and records how the calls of the variants are
    /// spelled.
    pub fn parse(
        &self,
        tail: &[egglog::ast::Sexp],
        span: egglog::ast::Span,
        parser: &mut egglog::ast::Parser,
    ) -> (result: Result<Vec<egglog::ast::Command>, egglog::ast::ParseError>)
        ensures
            ({
                let (name, declared, fault) = datatype_declaration(tail@, span);
                &&& leads(*old(parser), spellings(declared), *final(parser))
                &&& match (result, fault) {
                    (Ok(commands), None) => {
                        &&& commands@.len() == 1
                        &&& is_datatype(commands@[0], span, name, declared)
                    },
                    (Err(error), Some(fault)) => is_fault(error, fault),
                    _ => false,
                }
            }),
    {
        assert(spellings(Seq::empty()) =~= Seq::empty());
        if tail.len() == 0 {
            return Err(parse_error(span, "usage: (datatype <name> <variant>*)"));
        }
        let name = match tail[0].expect_atom("sort name") {
            Ok(name) => name,
            Err(error) => return Err(error),
        };
        let rest = vstd::slice::slice_subrange(tail, 1, tail.len());
        assert(rest@ =~= tail@.skip(1));
        let variants = match process_variants(parser, rest) {
            Ok(variants) => variants,
            Err(error) => return Err(error),
        };
        let mut commands: Vec<egglog::ast::Command> = Vec::new();
        commands.push(egglog::ast::Command::Datatype { span, name, variants });
        Ok(commands)
    }
}

/// One of several datatypes.
pub enum Entry {
    /// A sort of containers, as the parser gave it.
    Sort((egglog::ast::Span, String, egglog::ast::Subdatatypes)),
    /// A datatype with its place, its name and its variants.
    Variants(
        egglog::ast::Span,
        Seq<char>,
        Seq<(VariantModel, Option<Seq<Seq<char>>>)>,
    ),
}

/// The datatype is this entry.
pub open spec fn is_entry(
    datatype: (egglog::ast::Span, String, egglog::ast::Subdatatypes),
    entry: Entry,
) -> bool {
    match entry {
        Entry::Sort(given) => datatype == given,
        Entry::Variants(span, name, declared) => {
            &&& datatype.0 == span
            &&& datatype.1@ == name
            &&& datatype.2 matches egglog::ast::Subdatatypes::Variants(variants)
            &&& are_variants(variants@, declared)
        },
    }
}

/// What stops the parsing of several datatypes.
pub enum Trouble {
    /// Something is wrong.
    Found(Fault),
    /// The parser gave this error.
    Given(egglog::ast::ParseError),
}

/// Several datatypes so far.
pub struct DatatypesRun {
    /// What was asked of the parser.
    pub asked: Seq<Event>,
    /// The datatypes.
    pub entries: Seq<Entry>,
    /// What stopped the parsing.
    pub trouble: Option<Trouble>,
}

/// The first `count` of several datatypes. The answer at a position is what the
/// parser gives for the sort of containers there.
pub open spec fn datatypes_run(
    tail: Seq<egglog::ast::Sexp>,
    answers: Seq<
        Result<
            (egglog::ast::Span, String, egglog::ast::Subdatatypes),
            egglog::ast::ParseError,
        >,
    >,
    count: int,
) -> DatatypesRun
    decreases count,
{
    if count <= 0 {
        DatatypesRun { asked: Seq::empty(), entries: Seq::empty(), trouble: None }
    } else {
        let run = datatypes_run(tail, answers, count - 1);
        let sub = tail[count - 1];
        if run.trouble is Some {
            run
        } else {
            match call_of(sub) {
                None => DatatypesRun {
                    trouble: Some(Trouble::Found(fault(sub, "expected "@ + "datatype"@))),
                    ..run
                },
                Some((head, subtail)) => if head == "sort"@ {
                    let answer = answers[count - 1];
                    let asked = run.asked.push(Event::Datatype(sub, answer));
                    match answer {
                        Ok(given) => DatatypesRun {
                            asked,
                            entries: run.entries.push(Entry::Sort(given)),
                            trouble: None,
                        },
                        Err(error) => DatatypesRun {
                            asked,
                            entries: run.entries,
                            trouble: Some(Trouble::Given(error)),
                        },
                    }
                } else {
                    let (declared, fault) = variants_from(subtail, 0, Seq::empty());
                    let asked = run.asked + spellings(declared);
                    match fault {
                        Some(fault) => DatatypesRun {
                            asked,
                            entries: run.entries,
                            trouble: Some(Trouble::Found(fault)),
                        },
                        None => DatatypesRun {
                            asked,
                            entries: run.entries.push(
                                Entry::Variants(sexp_span(sub), head, declared),
                            ),
                            trouble: None,
                        },
                    }
                },
            }
        }
    }
}

/// What the declaration of several datatypes gives, and what was asked of the
/// parser.
pub open spec fn is_datatypes(
    tail: Seq<egglog::ast::Sexp>,
    place: egglog::ast::Span,
    result: Result<Vec<egglog::ast::Command>, egglog::ast::ParseError>,
    asked: Seq<Event>,
    answers: Seq<
        Result<
            (egglog::ast::Span, String, egglog::ast::Subdatatypes),
            egglog::ast::ParseError,
        >,
    >,
) -> bool {
    let run = datatypes_run(tail, answers, tail.len() as int);
    &&& asked == run.asked
    &&& match run.trouble {
        Some(Trouble::Found(fault)) => result matches Err(error) && is_fault(error, fault),
        Some(Trouble::Given(given)) => result matches Err(error) && error == given,
        None => {
            &&& result matches Ok(commands)
            &&& commands@.len() == 1
            &&& commands@[0] matches egglog::ast::Command::Datatypes { span, datatypes }
            &&& span == place
            &&& datatypes@.len() == run.entries.len()
            &&& forall|k: int|
                0 <= k < datatypes@.len() ==> is_entry(#[trigger] datatypes@[k], run.entries[k])
        },
    }
}

proof fn lemma_run_agrees(
    tail: Seq<egglog::ast::Sexp>,
    left: Seq<
        Result<
            (egglog::ast::Span, String, egglog::ast::Subdatatypes),
            egglog::ast::ParseError,
        >,
    >,
    right: Seq<
        Result<
            (egglog::ast::Span, String, egglog::ast::Subdatatypes),
            egglog::ast::ParseError,
        >,
    >,
    count: int,
)
    requires
        forall|k: int| 0 <= k < count ==> left[k] == #[trigger] right[k],
    ensures
        datatypes_run(tail, left, count) == datatypes_run(tail, right, count),
    decreases count,
{
    if count > 0 {
        lemma_run_agrees(tail, left, right, count - 1);
        assert(left[count - 1] == right[count - 1]);
    }
}

proof fn lemma_run_stops(
    tail: Seq<egglog::ast::Sexp>,
    answers: Seq<
        Result<
            (egglog::ast::Span, String, egglog::ast::Subdatatypes),
            egglog::ast::ParseError,
        >,
    >,
    few: int,
    many: int,
)
    requires
        0 <= few <= many,
        datatypes_run(tail, answers, few).trouble is Some,
    ensures
        datatypes_run(tail, answers, many) == datatypes_run(tail, answers, few),
    decreases many - few,
{
    if few < many {
        lemma_run_stops(tail, answers, few, many - 1);
    }
}

/// `(datatype* <datatype>*)`.
pub struct NamedDatatypes;

impl NamedDatatypes {
    /// Parses the declarations and records how the calls of the variants are
    /// spelled.
    pub fn parse(
        &self,
        tail: &[egglog::ast::Sexp],
        span: egglog::ast::Span,
        parser: &mut egglog::ast::Parser,
    ) -> (result: Result<Vec<egglog::ast::Command>, egglog::ast::ParseError>)
        ensures
            exists|
                asked: Seq<Event>,
                answers: Seq<
                    Result<
                        (egglog::ast::Span, String, egglog::ast::Subdatatypes),
                        egglog::ast::ParseError,
                    >,
                >,
            |
                leads(*old(parser), asked, *final(parser)) && #[trigger] is_datatypes(
                    tail@,
                    span,
                    result,
                    asked,
                    answers,
                ),
    {
        let ghost before = *parser;
        let ghost mut answers: Seq<
            Result<
                (egglog::ast::Span, String, egglog::ast::Subdatatypes),
                egglog::ast::ParseError,
            >,
        > = Seq::empty();
        let mut datatypes: Vec<(egglog::ast::Span, String, egglog::ast::Subdatatypes)> = Vec::new();
        for i in 0..tail.len()
            invariant
                before == *old(parser),
                answers.len() == i,
                datatypes_run(tail@, answers, i as int).trouble is None,
                leads(before, datatypes_run(tail@, answers, i as int).asked, *parser),
                datatypes@.len() == datatypes_run(tail@, answers, i as int).entries.len(),
                forall|k: int|
                    0 <= k < datatypes@.len() ==> is_entry(
                        #[trigger] datatypes@[k],
                        datatypes_run(tail@, answers, i as int).entries[k],
                    ),
        {
            let ghost run = datatypes_run(tail@, answers, i as int);
            let ghost earlier = answers;
            let ghost middle = *parser;
            let ghost old_datatypes = datatypes@;
            let (head, subtail, sub_span) = match tail[i].expect_call("datatype") {
                Ok(call) => call,
                Err(error) => {
                    let result = Err(error);
                    proof {
                        lemma_run_stops(tail@, answers, i + 1, tail@.len() as int);
                        assert(is_datatypes(tail@, span, result, run.asked, answers));
                    }
                    return result;
                },
            };
            if same(head.as_str(), "sort") {
                let answer = parse_datatype(parser, &tail[i]);
                proof {
                    answers = answers.push(answer);
                    lemma_run_agrees(tail@, earlier, answers, i as int);
                    lemma_leads_push(
                        before,
                        run.asked,
                        middle,
                        Event::Datatype(tail@[i as int], answer),
                        *parser,
                    );
                }
                match answer {
                    Ok(given) => {
                        datatypes.push(given);
                    },
                    Err(error) => {
                        let result = Err(error);
                        proof {
                            lemma_run_stops(tail@, answers, i + 1, tail@.len() as int);
                            assert(is_datatypes(
                                tail@,
                                span,
                                result,
                                datatypes_run(tail@, answers, i + 1).asked,
                                answers,
                            ));
                        }
                        return result;
                    },
                }
            } else {
                let outcome = process_variants(parser, subtail);
                proof {
                    answers = answers.push(arbitrary());
                    lemma_run_agrees(tail@, earlier, answers, i as int);
                    lemma_leads_concat(
                        before,
                        run.asked,
                        middle,
                        spellings(variants_from(subtail@, 0, Seq::empty()).0),
                        *parser,
                    );
                }
                match outcome {
                    Ok(variants) => {
                        datatypes.push(
                            (sub_span, head, egglog::ast::Subdatatypes::Variants(variants)),
                        );
                    },
                    Err(error) => {
                        let result = Err(error);
                        proof {
                            lemma_run_stops(tail@, answers, i + 1, tail@.len() as int);
                            assert(is_datatypes(
                                tail@,
                                span,
                                result,
                                datatypes_run(tail@, answers, i + 1).asked,
                                answers,
                            ));
                        }
                        return result;
                    },
                }
            }
            assert forall|k: int| 0 <= k < datatypes@.len() implies is_entry(
                #[trigger] datatypes@[k],
                datatypes_run(tail@, answers, i + 1).entries[k],
            ) by {
                if k < old_datatypes.len() {
                    assert(datatypes@[k] == old_datatypes[k]);
                }
            }
        }
        let mut commands: Vec<egglog::ast::Command> = Vec::new();
        commands.push(egglog::ast::Command::Datatypes { span, datatypes });
        let result = Ok(commands);
        assert(is_datatypes(
            tail@,
            span,
            result,
            datatypes_run(tail@, answers, tail@.len() as int).asked,
            answers,
        ));
        result
    }
}

/// What a command declares.
#[derive(Clone, Copy)]
pub enum Declaration {
    /// A constructor.
    Constructor,
    /// A function.
    Function,
    /// A relation.
    Relation,
    /// A datatype.
    Datatype,
    /// Several datatypes.
    Datatypes,
}

/// What a declaration gives, and what was asked of the parser.
pub open spec fn is_declaration(
    declaration: Declaration,
    tail: Seq<egglog::ast::Sexp>,
    span: egglog::ast::Span,
    result: Result<Vec<egglog::ast::Command>, egglog::ast::ParseError>,
    asked: Seq<Event>,
) -> bool {
    match declaration {
        Declaration::Constructor => match (result, constructor_declaration(tail, span)) {
            (Ok(commands), Ok((signature, options))) => {
                &&& commands@.len() == 1
                &&& is_constructor(commands@[0], span, signature, options)
                &&& asked == seq![Event::Spell(signature.name, signature.names)]
            },
            (Err(error), Err(fault)) => is_fault(error, fault) && asked.len() == 0,
            _ => false,
        },
        Declaration::Function => exists|
            parsed: Result<egglog::ast::Expr, egglog::ast::ParseError>,
        | #[trigger] is_function_declaration(tail, span, result, parsed, asked),
        Declaration::Relation => match (result, relation_declaration(tail, span)) {
            (Ok(commands), Ok((name, names, sorts))) => {
                &&& commands@.len() == 1
                &&& is_relation(commands@[0], span, name, sorts)
                &&& asked == seq![Event::Spell(name, names)]
            },
            (Err(error), Err(fault)) => is_fault(error, fault) && asked.len() == 0,
            _ => false,
        },
        Declaration::Datatype => {
            let (name, declared, fault) = datatype_declaration(tail, span);
            &&& asked == spellings(declared)
            &&& match (result, fault) {
                (Ok(commands), None) => {
                    &&& commands@.len() == 1
                    &&& is_datatype(commands@[0], span, name, declared)
                },
                (Err(error), Some(fault)) => is_fault(error, fault),
                _ => false,
            }
        },
        Declaration::Datatypes => exists|
            answers: Seq<
                Result<
                    (egglog::ast::Span, String, egglog::ast::Subdatatypes),
                    egglog::ast::ParseError,
                >,
            >,
        | #[trigger] is_datatypes(tail, span, result, asked, answers),
    }
}

impl Declaration {
    /// Parses a declaration and records how the calls of what it declares are
    /// spelled.
    pub fn parse(
        &self,
        tail: &[egglog::ast::Sexp],
        span: egglog::ast::Span,
        parser: &mut egglog::ast::Parser,
    ) -> (result: Result<Vec<egglog::ast::Command>, egglog::ast::ParseError>)
        ensures
            exists|asked: Seq<Event>|
                leads(*old(parser), asked, *final(parser)) && #[trigger] is_declaration(
                    *self,
                    tail@,
                    span,
                    result,
                    asked,
                ),
    {
        let ghost before = *parser;
        match self {
            Declaration::Constructor => {
                let result = NamedConstructor.parse(tail, span, parser);
                proof {
                    if result is Ok {
                        let signature = (constructor_declaration(tail@, span)->Ok_0).0;
                        let spell = Event::Spell(signature.name, signature.names);
                        let asked = seq![spell];
                        lemma_leads_one(before, spell, *parser);
                        assert(is_declaration(*self, tail@, span, result, asked));
                    } else {
                        assert(is_declaration(*self, tail@, span, result, Seq::empty()));
                    }
                }
                result
            },
            Declaration::Function => {
                let result = NamedFunction.parse(tail, span, parser);
                proof {
                    let (asked, parsed) = choose|
                        asked: Seq<Event>,
                        parsed: Result<egglog::ast::Expr, egglog::ast::ParseError>,
                    |
                        leads(before, asked, *parser) && #[trigger] is_function_declaration(
                            tail@,
                            span,
                            result,
                            parsed,
                            asked,
                        );
                    assert(is_declaration(*self, tail@, span, result, asked));
                }
                result
            },
            Declaration::Relation => {
                let result = NamedRelation.parse(tail, span, parser);
                proof {
                    if result is Ok {
                        let declared = relation_declaration(tail@, span)->Ok_0;
                        let spell = Event::Spell(declared.0, declared.1);
                        let asked = seq![spell];
                        lemma_leads_one(before, spell, *parser);
                        assert(is_declaration(*self, tail@, span, result, asked));
                    } else {
                        assert(is_declaration(*self, tail@, span, result, Seq::empty()));
                    }
                }
                result
            },
            Declaration::Datatype => {
                let result = NamedDatatype.parse(tail, span, parser);
                assert(is_declaration(
                    *self,
                    tail@,
                    span,
                    result,
                    spellings(datatype_declaration(tail@, span).1),
                ));
                result
            },
            Declaration::Datatypes => {
                let result = NamedDatatypes.parse(tail, span, parser);
                proof {
                    let (asked, answers) = choose|
                        asked: Seq<Event>,
                        answers: Seq<
                            Result<
                                (egglog::ast::Span, String, egglog::ast::Subdatatypes),
                                egglog::ast::ParseError,
                            >,
                        >,
                    |
                        leads(before, asked, *parser) && #[trigger] is_datatypes(
                            tail@,
                            span,
                            result,
                            asked,
                            answers,
                        );
                    assert(is_declaration(*self, tail@, span, result, asked));
                }
                result
            },
        }
    }
}

} // verus!

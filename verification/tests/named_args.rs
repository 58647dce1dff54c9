use egglog::ast::{Action, Change, Command, Expr, Parser, Sexp, Span};
use egglog::EGraph;
use egglog_experimental::named_args::call::{
    is_marker, parse_table_call, register_call, NamedCall, PositionalCall,
};
use egglog_experimental::named_args::declare::{Declaration, NamedConstructor, NamedDatatypes};
use egglog_experimental::named_args::fields::{parse_schema_list, process_variant};
use egglog_experimental::named_args::action::{NamedChange, NamedSet, TableAction};
use egglog_experimental::named_args::{file_argument, parse_file, register_named_args};

fn parser() -> Parser {
    let mut parser = Parser::default();
    register_named_args(&mut parser);
    parser
}

fn run(parser: &mut Parser, program: &str) -> Vec<Command> {
    parser.get_program_from_string(None, program).map_err(|error| error.1).unwrap()
}

fn refusal(parser: &mut Parser, program: &str) -> String {
    match parser.get_program_from_string(None, program) {
        Ok(_) => panic!("{program} was parsed"),
        Err(error) => error.1,
    }
}

fn expr(parser: &mut Parser, text: &str) -> String {
    parser.get_expr_from_string(None, text).map_err(|error| error.1).unwrap().to_string()
}

fn bad_expr(parser: &mut Parser, text: &str) -> String {
    match parser.get_expr_from_string(None, text) {
        Ok(_) => panic!("{text} was parsed"),
        Err(error) => error.1,
    }
}

fn car() -> Parser {
    let mut parser = parser();
    run(&mut parser, "(constructor MyCar (:color Color :numwheel i64) Vehicle)");
    parser
}

#[test]
fn calls_take_arguments_by_position_and_by_name_in_any_order() {
    let mut parser = car();
    for call in [
        "(MyCar c w)",
        "(MyCar :color c :numwheel w)",
        "(MyCar :numwheel w :color c)",
        "(MyCar c :numwheel w)",
    ] {
        assert_eq!(expr(&mut parser, call), "(MyCar c w)", "{call}");
    }
}

#[test]
fn an_ellipsis_leaves_the_other_fields_to_fresh_variables() {
    let mut parser = parser();
    run(&mut parser, "(relation R (:a i64 :b i64 :c i64))");
    let found = parser.get_expr_from_string(None, "(R :b 2 ...)").ok().unwrap();
    match found {
        Expr::Call(_, head, args) => {
            assert_eq!(head, "R");
            assert_eq!(args.len(), 3);
            assert_eq!(args[1].to_string(), "2");
            match (&args[0], &args[2]) {
                (Expr::Var(_, first), Expr::Var(_, last)) => assert_ne!(first, last),
                _ => panic!("no variables"),
            }
        }
        other => panic!("{other}"),
    }
    assert_eq!(expr(&mut parser, "(R 1 2 3 ...)"), "(R 1 2 3)");
    let all = parser.get_expr_from_string(None, "(R ...)").ok().unwrap();
    match all {
        Expr::Call(_, _, args) => assert_eq!(args.len(), 3),
        other => panic!("{other}"),
    }
}

#[test]
fn fresh_variables_differ_from_wildcards() {
    let mut parser = parser();
    run(&mut parser, "(relation R (:a i64 :b i64))");
    let wildcard = expr(&mut parser, "_");
    let call = expr(&mut parser, "(R ...)");
    assert!(!call.split(|c| c == ' ' || c == ')').any(|word| word == wildcard));
}

#[test]
fn named_calls_nest() {
    let mut parser = car();
    run(&mut parser, "(constructor Pair (:left Vehicle :right Vehicle) Vehicle)");
    assert_eq!(
        expr(&mut parser, "(Pair :right (MyCar :numwheel 4 :color c) :left (MyCar d 3))"),
        "(Pair (MyCar d 3) (MyCar c 4))"
    );
}

#[test]
fn wrong_calls_say_what_is_wrong() {
    let mut parser = car();
    for (call, text) in [
        ("(MyCar c ... w)", "`...` must be the last argument"),
        ("(MyCar :weight w)", "`MyCar` has no argument named `weight`"),
        ("(MyCar c :color d)", "argument `color` of `MyCar` specified more than once"),
        ("(MyCar :color c :color d)", "argument `color` of `MyCar` specified more than once"),
        ("(MyCar :color)", "`:color` requires a value"),
        ("(MyCar :color :numwheel 4)", "expected a value for `:color`"),
        ("(MyCar :color ...)", "expected a value for `:color`"),
        ("(MyCar :color c w)", "positional arguments must come before named arguments"),
        ("(MyCar a b c)", "`MyCar` takes 2 argument(s) but was given more"),
        (
            "(MyCar)",
            "`MyCar` is missing argument(s): color, numwheel (add `...` to bind the rest to fresh variables)",
        ),
        (
            "(MyCar c)",
            "`MyCar` is missing argument(s): numwheel (add `...` to bind the rest to fresh variables)",
        ),
    ] {
        assert_eq!(bad_expr(&mut parser, call), text, "{call}");
    }
}

#[test]
fn the_first_wrong_argument_counts() {
    let mut parser = car();
    assert_eq!(
        bad_expr(&mut parser, "(MyCar (MyCar) :weight 1)"),
        "`MyCar` is missing argument(s): color, numwheel (add `...` to bind the rest to fresh variables)"
    );
    assert_eq!(
        bad_expr(&mut parser, "(MyCar :weight (MyCar))"),
        "`MyCar` has no argument named `weight`"
    );
}

#[test]
fn a_positional_declaration_shadows_field_names() {
    let mut parser = car();
    run(&mut parser, "(constructor MyCar (Color i64 i64) Vehicle)");
    assert_eq!(expr(&mut parser, "(MyCar a b c)"), "(MyCar a b c)");
    assert_eq!(expr(&mut parser, "(MyCar a)"), "(MyCar a)");
    run(&mut parser, "(constructor MyCar (:only Color) Vehicle)");
    assert_eq!(expr(&mut parser, "(MyCar :only a)"), "(MyCar a)");
}

#[test]
fn constructors_keep_their_options() {
    let mut parser = parser();
    let commands = run(
        &mut parser,
        "(constructor C (:a i64) S :cost 7 :unextractable :internal-hidden :internal-let)",
    );
    match &commands[..] {
        [Command::Constructor {
            name,
            schema,
            cost,
            unextractable,
            hidden,
            let_binding,
            term_constructor,
            ..
        }] => {
            assert_eq!(name, "C");
            assert_eq!(schema.input, vec!["i64"]);
            assert_eq!(schema.output, "S");
            assert_eq!(*cost, Some(7));
            assert!(*unextractable && *hidden && *let_binding);
            assert!(term_constructor.is_none());
        }
        _ => panic!("no constructor"),
    }
    let commands = run(&mut parser, "(constructor D () S)");
    match &commands[..] {
        [Command::Constructor { cost, unextractable, hidden, let_binding, .. }] => {
            assert!(cost.is_none());
            assert!(!*unextractable && !*hidden && !*let_binding);
        }
        _ => panic!("no constructor"),
    }
}

#[test]
fn wrong_constructors_say_what_is_wrong() {
    let mut parser = parser();
    for (program, text) in [
        (
            "(constructor C ())",
            "usage: (constructor <name> (<input sort>*) <output sort> <options>*)",
        ),
        ("(constructor 1 () S)", "expected constructor name"),
        ("(constructor C x S)", "expected input sorts"),
        ("(constructor C () 1)", "expected output sort"),
        ("(constructor C () S cost)", "option key must start with ':'"),
        ("(constructor C () S :cost x)", "expected cost to be a nonnegative integer literal"),
        ("(constructor C () S :cost -1)", "expected cost to be a nonnegative integer literal"),
        ("(constructor C () S :cost 1 2)", "could not parse constructor options"),
        ("(constructor C () S :merge)", "could not parse constructor options"),
        ("(constructor C (:a) S)", "argument `a` is missing its sort"),
        ("(constructor C (:a :b) S)", "expected a sort for `a` but found `:b`"),
        ("(constructor C (:a 1) S)", "expected argument sort"),
        ("(constructor C (:a i64 :a i64) S)", "duplicate argument name `a`"),
        (
            "(constructor C (:a i64 b i64) S)",
            "expected `:name` but found `b`; name either all fields or none",
        ),
        ("(constructor C (:a i64 1) S)", "expected argument name"),
        (
            "(constructor C (i64 :a i64) S)",
            "unexpected named argument `:a`; name either all fields or none",
        ),
        ("(constructor C (1) S)", "expected input sort"),
    ] {
        assert_eq!(refusal(&mut parser, program), text, "{program}");
    }
}

#[test]
fn a_refused_declaration_spells_nothing() {
    let mut parser = car();
    refusal(&mut parser, "(constructor MyCar (:weight i64) Vehicle :cost x)");
    assert_eq!(expr(&mut parser, "(MyCar :numwheel 4 :color c)"), "(MyCar c 4)");
}

#[test]
fn functions_keep_their_options() {
    let mut parser = car();
    let commands = run(
        &mut parser,
        "(function F (:a i64) i64 :merge (MyCar :numwheel 1 :color 2) :internal-term-constructor T :unextractable)",
    );
    match &commands[..] {
        [Command::Function {
            name,
            schema,
            merge,
            hidden,
            let_binding,
            term_constructor,
            unextractable,
            ..
        }] => {
            assert_eq!(name, "F");
            assert_eq!(schema.input, vec!["i64"]);
            assert_eq!(merge.as_ref().unwrap().to_string(), "(MyCar 2 1)");
            assert_eq!(term_constructor.as_deref(), Some("T"));
            assert!(*unextractable && !*hidden && !*let_binding);
        }
        _ => panic!("no function"),
    }
    let commands = run(&mut parser, "(function G () i64 :no-merge :internal-hidden :internal-let)");
    match &commands[..] {
        [Command::Function { merge, hidden, let_binding, .. }] => {
            assert!(merge.is_none());
            assert!(*hidden && *let_binding);
        }
        _ => panic!("no function"),
    }
    assert_eq!(expr(&mut parser, "(F :a 1)"), "(F 1)");
}

#[test]
fn wrong_functions_say_what_is_wrong() {
    let mut parser = car();
    for (program, text) in [
        ("(function F)", "usage: (function <name> (<input sort>*) <output sort> <options>*)"),
        ("(function () () i64)", "expected function name"),
        ("(function F () i64)", "functions are required to specify merge behaviour"),
        ("(function F () i64 :no-merge :no-merge)", "conflicting merge options"),
        ("(function F () i64 :no-merge :merge old)", "conflicting merge options"),
        ("(function F () i64 :merge old :no-merge)", "conflicting merge options"),
        ("(function F () i64 :merge old new)", "could not parse function options"),
        ("(function F () i64 :cost 1)", "could not parse function options"),
        ("(function F () i64 :internal-term-constructor 1)", "expected term constructor name"),
        (
            "(function F () i64 :merge (MyCar) :cost 1)",
            "`MyCar` is missing argument(s): color, numwheel (add `...` to bind the rest to fresh variables)",
        ),
    ] {
        assert_eq!(refusal(&mut parser, program), text, "{program}");
    }
}

#[test]
fn relations_name_their_fields() {
    let mut parser = parser();
    let commands = run(&mut parser, "(relation edge (:from Node :to Node))");
    match &commands[..] {
        [Command::Relation { name, inputs, .. }] => {
            assert_eq!(name, "edge");
            assert_eq!(*inputs, vec!["Node", "Node"]);
        }
        _ => panic!("no relation"),
    }
    assert_eq!(expr(&mut parser, "(edge :to b :from a)"), "(edge a b)");
    assert_eq!(refusal(&mut parser, "(relation edge)"), "usage: (relation <name> (<input sort>*))");
    assert_eq!(refusal(&mut parser, "(relation 1 ())"), "expected relation name");
}

#[test]
fn datatypes_name_fields_per_variant() {
    let mut parser = parser();
    let commands = run(
        &mut parser,
        "(datatype Vehicle (MyCar :color Color :cost 3 :numwheel i64 :unextractable) (Bike i64 :cost 2) (Foot))",
    );
    match &commands[..] {
        [Command::Datatype { name, variants, .. }] => {
            assert_eq!(name, "Vehicle");
            assert_eq!(variants.len(), 3);
            assert_eq!(variants[0].name, "MyCar");
            assert_eq!(variants[0].types, vec!["Color", "i64"]);
            assert_eq!(variants[0].cost, Some(3));
            assert!(variants[0].unextractable);
            assert_eq!(variants[1].types, vec!["i64"]);
            assert_eq!(variants[1].cost, Some(2));
            assert!(variants[2].types.is_empty() && variants[2].cost.is_none());
        }
        _ => panic!("no datatype"),
    }
    assert_eq!(expr(&mut parser, "(MyCar :numwheel 4 :color c)"), "(MyCar c 4)");
    assert_eq!(expr(&mut parser, "(Bike 2)"), "(Bike 2)");
}

#[test]
fn wrong_datatypes_say_what_is_wrong() {
    let mut parser = parser();
    for (program, text) in [
        ("(datatype)", "usage: (datatype <name> <variant>*)"),
        ("(datatype 1)", "expected sort name"),
        ("(datatype S x)", "expected datatype variant"),
        ("(datatype S (A :a i64 1))", "expected argument name or option"),
        ("(datatype S (A :a i64 :cost))", ":cost requires a value"),
        ("(datatype S (A :a i64 :cost x))", "expected cost to be a nonnegative integer literal"),
        ("(datatype S (A :a i64 :a i64))", "duplicate argument name `a`"),
        (
            "(datatype S (A :a i64 b))",
            "expected `:name` or an option but found `b`; name either all fields or none",
        ),
        ("(datatype S (A 1))", "expected variant argument type"),
        ("(datatype S (A i64 :cost x))", "expected cost to be a nonnegative integer literal"),
        ("(datatype* x)", "expected datatype"),
        ("(datatype* (S x))", "expected datatype variant"),
    ] {
        assert_eq!(refusal(&mut parser, program), text, "{program}");
    }
}

#[test]
fn variants_before_a_wrong_one_are_spelled() {
    let mut parser = parser();
    refusal(&mut parser, "(datatype S (A :a i64) (B 1))");
    assert_eq!(expr(&mut parser, "(A :a 1)"), "(A 1)");
}

#[test]
fn several_datatypes_name_fields_per_variant() {
    let mut parser = parser();
    let commands = run(
        &mut parser,
        "(datatype* (Tree (Node :kids Forest :label i64)) (sort Forest (Vec Tree)) (Other (Leaf)))",
    );
    match &commands[..] {
        [Command::Datatypes { datatypes, .. }] => {
            assert_eq!(datatypes.len(), 3);
            assert_eq!(datatypes[0].1, "Tree");
            assert_eq!(datatypes[1].1, "Forest");
            assert_eq!(datatypes[2].1, "Other");
        }
        _ => panic!("no datatypes"),
    }
    assert_eq!(expr(&mut parser, "(Node :label 1 :kids f)"), "(Node f 1)");
    assert_eq!(
        refusal(&mut parser, "(datatype* (sort Forest))"),
        "usage: (sort <name> (<container sort> <argument sort>*))"
    );
}

#[test]
fn actions_on_tables_take_named_arguments() {
    let mut egraph = EGraph::default();
    register_named_args(&mut egraph.parser);
    egraph
        .parse_and_run_program(
            None,
            "
        (function F (:a i64 :b i64) i64 :no-merge)
        (relation edge (:from i64 :to i64))
        (datatype Math (Num :value i64))
        (set (F :b 2 :a 1) 3)
        (set (F 5 :b 6) 7)
        (edge :to 2 :from 1)
        (Num :value 4)
        (check (= (F 1 2) 3))
        (check (edge 1 2))
        (delete (F :b 6 :a 5))
        (subsume (Num :value 4))
        ",
        )
        .unwrap();
    assert_eq!(egraph.get_size("F"), 1);
    egraph
        .parse_and_run_program(
            None,
            "
        (relation seen (i64))
        (rule ((edge :from x ...)) ((seen x)))
        (run 1)
        (check (seen 1))
        ",
        )
        .unwrap();
    assert_eq!(egraph.get_size("seen"), 1);
}

#[test]
fn field_names_follow_push_and_pop() {
    let mut egraph = EGraph::default();
    register_named_args(&mut egraph.parser);
    egraph
        .parse_and_run_program(
            None,
            "
        (push)
        (relation R (:a i64 :b i64))
        (R :b 1 :a 2)
        (pop)
        (relation R (i64 i64))
        (R 3 4)
        (check (R 3 4))
        ",
        )
        .unwrap();
    assert_eq!(egraph.get_size("R"), 1);
}

#[test]
fn wrong_actions_say_what_is_wrong() {
    let mut parser = car();
    for (program, text) in [
        ("(set (F 1))", "usage: (set (<table name> <expr>*) <expr>)"),
        ("(set x 1)", "expected a table lookup of the form (<table> <args>*)"),
        ("(set 1 1)", "expected a table lookup of the form (<table> <args>*)"),
        (
            "(set (F 1) (MyCar))",
            "`MyCar` is missing argument(s): color, numwheel (add `...` to bind the rest to fresh variables)",
        ),
        ("(delete)", "usage: (<change> (<table name> <expr>*))"),
        ("(subsume (F) (F))", "usage: (<change> (<table name> <expr>*))"),
        ("(delete x)", "expected a table lookup of the form (<table> <args>*)"),
        ("(subsume (MyCar :weight 1))", "`MyCar` has no argument named `weight`"),
    ] {
        assert_eq!(refusal(&mut parser, program), text, "{program}");
    }
}

fn place() -> Span {
    Span::Panic
}

fn word(text: &str) -> Sexp {
    Sexp::Atom(text.to_string(), place())
}

fn list(items: Vec<Sexp>) -> Sexp {
    Sexp::List(items, place())
}

#[test]
fn markers_are_the_ellipsis_and_keywords() {
    assert!(is_marker(&word("...")));
    assert!(is_marker(&word(":a")));
    assert!(is_marker(&word(":")));
    assert!(!is_marker(&word("a:")));
    assert!(!is_marker(&word("....")));
    assert!(!is_marker(&list(vec![word("...")])));
}

#[test]
fn calls_are_parsed_by_their_spelling() {
    let mut parser = Parser::default();
    let call = NamedCall { name: "F".to_string(), arg_names: vec!["x".to_string(), "y".to_string()] };
    let args = [word(":y"), word("b"), word(":x"), word("a")];
    assert_eq!(call.parse(&args, place(), &mut parser).ok().unwrap().to_string(), "(F a b)");
    let call = PositionalCall { name: "F".to_string() };
    assert_eq!(
        call.parse(&[word("a"), word("b")], place(), &mut parser).ok().unwrap().to_string(),
        "(F a b)"
    );
    register_call(&mut parser, "F", Some(vec!["x".to_string()]));
    let found = parse_table_call(&mut parser, &list(vec![word("F"), word(":x"), word("c")]));
    let (head, args) = found.ok().unwrap();
    assert_eq!(head, "F");
    assert_eq!(args[0].to_string(), "c");
    register_call(&mut parser, "F", None);
    let found = parse_table_call(&mut parser, &list(vec![word("F"), word("c"), word("d")]));
    assert_eq!(found.ok().unwrap().1.len(), 2);
    assert!(parse_table_call(&mut parser, &word("x")).is_err());
}

#[test]
fn field_lists_are_named_or_not() {
    let named = list(vec![word(":a"), word("A"), word(":b"), word("B")]);
    let (names, sorts) = parse_schema_list(&named).ok().unwrap();
    assert_eq!(names, Some(vec!["a".to_string(), "b".to_string()]));
    assert_eq!(sorts, vec!["A", "B"]);
    let plain = list(vec![word("A"), word("B")]);
    let (names, sorts) = parse_schema_list(&plain).ok().unwrap();
    assert_eq!(names, None);
    assert_eq!(sorts, vec!["A", "B"]);
    let (names, sorts) = parse_schema_list(&list(vec![])).ok().unwrap();
    assert!(names.is_none() && sorts.is_empty());
}

#[test]
fn a_variant_may_begin_with_an_option() {
    let mut parser = Parser::default();
    let sexp = list(vec![word("A"), word(":unextractable")]);
    let variant = process_variant(&mut parser, &sexp).ok().unwrap();
    assert!(variant.unextractable);
    assert!(variant.types.is_empty());
}

#[test]
fn declarations_and_actions_parse_as_their_kinds() {
    let mut parser = Parser::default();
    let tail = [word("C"), list(vec![]), word("S")];
    let direct = NamedConstructor.parse(&tail, place(), &mut parser).ok().unwrap();
    let kind = Declaration::Constructor.parse(&tail, place(), &mut parser).ok().unwrap();
    assert_eq!(direct.len(), 1);
    assert_eq!(kind.len(), 1);
    assert!(matches!(direct[0], Command::Constructor { .. }));
    assert!(matches!(kind[0], Command::Constructor { .. }));
    assert!(NamedDatatypes.parse(&[], place(), &mut parser).is_ok());
    let row = || list(vec![word("F"), word("x")]);
    let set = NamedSet.parse(&[row(), word("y")], place(), &mut parser).ok().unwrap();
    assert!(matches!(set[0], Action::Set(..)));
    let change = NamedChange::delete().parse(&[row()], place(), &mut parser).ok().unwrap();
    assert!(matches!(change[0], Action::Change(_, Change::Delete, _, _)));
    let change = TableAction::Subsume.parse(&[row()], place(), &mut parser).ok().unwrap();
    assert!(matches!(change[0], Action::Change(_, Change::Subsume, _, _)));
}

#[test]
fn a_file_command_takes_one_string() {
    let file = || Sexp::Literal(egglog::ast::Literal::String("a.egg".to_string()), place());
    assert_eq!(file_argument("load", &[file()], &place()).ok().unwrap(), "a.egg");
    let error = file_argument("load", &[file(), file()], &place()).err().unwrap();
    assert_eq!(error.1, "usage: (load <file name>)");
    let error = file_argument("load", &[word("a")], &place()).err().unwrap();
    assert_eq!(error.1, "expected file name to be a string literal");
}

#[test]
fn the_program_of_a_file_is_parsed_in_place() {
    let mut parser = parser();
    let program = "(relation R (:a i64 :b i64))".to_string();
    let commands =
        parse_file(&mut parser, "a.egg".to_string(), Ok(program), place()).ok().unwrap();
    assert_eq!(commands.len(), 1);
    assert_eq!(expr(&mut parser, "(R :b 1 :a 2)"), "(R 2 1)");
    let error = parse_file(&mut parser, "b.egg".to_string(), Err("no such file".to_string()), place())
        .err()
        .unwrap();
    assert_eq!(error.1, "could not read b.egg: no such file");
}

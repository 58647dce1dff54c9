use std::fmt;
use std::sync::Arc;

use egglog::ast::{Expr, Literal, ParseError, Parser, RustSpan, Sexp, SimpleMacro, Span};
use egglog::constraint::{SimpleTypeConstraint, TypeConstraint};
use egglog::extract::{Extractor, TreeAdditiveCostModel};
use egglog::{
    ArcSort, CommandOutput, Core, EGraph, Error, FullPrim, FullState, Primitive,
    UserDefinedCommand, Value, Write,
};
use egglog_experimental::extractor::{split_trailing_extractor, unknown_extractor};
use egglog_experimental::engine::{best_terms, list_variants, Costs};
use egglog_experimental::keep_best::{
    self, assemble, collect_and_extract, no_term, restore, table_roots, KeepBestCommand,
};
use egglog_experimental::multi_extract::{
    self, check_count, parse_request, prepare, MultiExtract, MultiExtractOutput,
};
use egglog_experimental::table_rows::{is_constructor, read_rows};

struct Shown(String);

impl fmt::Debug for Shown {
    fn fmt(&self, f: &mut fmt::Formatter<'_>) -> fmt::Result {
        f.write_str(&self.0)
    }
}

impl fmt::Display for Shown {
    fn fmt(&self, f: &mut fmt::Formatter<'_>) -> fmt::Result {
        f.write_str(&self.0)
    }
}

fn here() -> Span {
    Span::Rust(Arc::new(RustSpan { file: "commands.rs", line: 1, column: 1 }))
}

fn refused(text: String) -> Error {
    Error::ParseError(ParseError(here(), text))
}

struct Multi;

impl UserDefinedCommand for Multi {
    fn update(&self, egraph: &mut EGraph, args: &[Expr]) -> Result<Vec<CommandOutput>, Error> {
        let command = MultiExtract::new(TreeAdditiveCostModel::default());
        match command.update(egraph, args) {
            Ok(multi_extract::Outcome::Output(output)) => {
                Ok(vec![CommandOutput::UserDefined(Arc::new(Shown(output.to_text())))])
            }
            Ok(multi_extract::Outcome::Greedy(prepared)) => Err(refused(format!(
                "greedy-dag is to extract {} of {} roots",
                prepared.count,
                prepared.roots.len()
            ))),
            Err(multi_extract::Refusal::Engine(error)) => Err(error),
            Err(refusal) => Err(refused(refusal.message())),
        }
    }
}

struct Keep;

impl UserDefinedCommand for Keep {
    fn update(&self, egraph: &mut EGraph, args: &[Expr]) -> Result<Vec<CommandOutput>, Error> {
        match KeepBestCommand.update(egraph, args) {
            Ok(keep_best::Outcome::Kept(_)) => Ok(vec![]),
            Ok(keep_best::Outcome::Greedy(names)) => {
                Err(refused(format!("greedy-dag is to extract {}", names.join(" "))))
            }
            Err(keep_best::Refusal::Engine(error)) => Err(error),
            Err(keep_best::Refusal::UnknownExtractor(name)) => {
                Err(refused(unknown_extractor(&name)))
            }
            Err(keep_best::Refusal::NoTerm(name)) => Err(refused(no_term(&name))),
            Err(keep_best::Refusal::UnboundFunction(name)) => {
                Err(refused(format!("unbound {name}")))
            }
            Err(keep_best::Refusal::NotAString(i)) => {
                Err(refused(format!("no string {i}")))
            }
        }
    }
}

fn new_egraph() -> EGraph {
    let mut egraph = EGraph::default();
    egraph.add_command("multi-extract".into(), Arc::new(Multi)).unwrap();
    egraph.add_command("keep-best".into(), Arc::new(Keep)).unwrap();
    egraph
}

fn new_costed_egraph() -> EGraph {
    let mut egraph = new_egraph();
    egraph.parser.add_command_macro(Arc::new(SimpleMacro::new(
        "with-dynamic-cost",
        |declarations: &[Sexp], _: Span, parser: &mut Parser| {
            let mut commands = vec![];
            for declaration in declarations {
                commands.extend(parser.parse_command(declaration)?);
            }
            Ok(commands)
        },
    )));
    egraph
}

fn spaced(text: &str) -> String {
    let tokens: Vec<&str> = text.split_whitespace().collect();
    tokens.join(" ")
}

#[test]
fn test_keep_best_basic() {
    let mut egraph = new_egraph();
    egraph
        .parse_and_run_program(
            None,
            r#"
        (datatype Math (Num i64) (Add Math Math))
        (relation Target (Math))

        ; put two nodes in the same eclass
        (union (Num 2) (Add (Num 1) (Num 1)))

        ; record what we care about
        (Target (Num 2))
        "#,
        )
        .unwrap();

    assert_eq!(egraph.get_size("Num"), 2);
    assert_eq!(egraph.get_size("Add"), 1);
    assert_eq!(egraph.get_size("Target"), 1);

    egraph.parse_and_run_program(None, r#"(keep-best "Target")"#).unwrap();

    assert_eq!(egraph.get_size("Target"), 1);
    assert_eq!(egraph.get_size("Num"), 1);

    let result = egraph.parse_and_run_program(None, "(print-function Target 100)").unwrap();
    let output = result[0].to_string();
    assert!(output.contains("Num") && !output.contains("Add"));
}

#[test]
fn test_keep_best_clears_other_tables() {
    let mut egraph = new_egraph();
    egraph
        .parse_and_run_program(
            None,
            r#"
        (datatype Math (Num i64) (Add Math Math))
        (relation Target (Math))
        (Num 42)
        (Add (Num 1) (Num 2))
        (Target (Num 42))
        "#,
        )
        .unwrap();

    let before_num = egraph.get_size("Num");
    let before_add = egraph.get_size("Add");
    assert!(before_num >= 3);
    assert_eq!(before_add, 1);
    assert_eq!(egraph.get_size("Target"), 1);

    egraph.parse_and_run_program(None, r#"(keep-best "Target")"#).unwrap();

    assert_eq!(egraph.get_size("Add"), 0);
    assert_eq!(egraph.get_size("Target"), 1);
    assert_eq!(egraph.get_size("Num"), 1);
}

#[test]
fn test_keep_best_function_table() {
    let mut egraph = new_egraph();
    egraph
        .parse_and_run_program(
            None,
            r#"
        (datatype Math (Num i64) (Add Math Math))
        (function Best (Math) i64 :no-merge)

        ; two nodes in one eclass, so extraction has to pick the cheaper term
        (union (Num 2) (Add (Num 1) (Num 1)))

        (set (Best (Num 2)) 7)
        "#,
        )
        .unwrap();

    assert_eq!(egraph.get_size("Best"), 1);
    assert_eq!(egraph.get_size("Add"), 1);

    egraph.parse_and_run_program(None, r#"(keep-best "Best")"#).unwrap();

    assert_eq!(egraph.get_size("Best"), 1);
    assert_eq!(egraph.get_size("Add"), 0);

    let result = egraph.parse_and_run_program(None, "(print-function Best 100)").unwrap();
    let output = result[0].to_string();
    assert!(output.contains("(Num 2)"), "unexpected output: {output}");
    assert!(output.contains("7"), "unexpected output: {output}");
    assert!(!output.contains("Add"), "unexpected output: {output}");
}

#[test]
fn test_keep_best_mixed_function_and_relation() {
    let mut egraph = new_egraph();
    egraph
        .parse_and_run_program(
            None,
            r#"
        (datatype Math (Num i64) (Add Math Math))
        (relation Target (Math))
        (function Best (Math) i64 :no-merge)

        (union (Num 2) (Add (Num 1) (Num 1)))
        (union (Num 3) (Add (Num 1) (Num 2)))

        (Target (Num 3))
        (set (Best (Num 2)) 7)
        "#,
        )
        .unwrap();

    egraph.parse_and_run_program(None, r#"(keep-best "Target" "Best")"#).unwrap();

    assert_eq!(egraph.get_size("Target"), 1);
    assert_eq!(egraph.get_size("Best"), 1);
    assert_eq!(egraph.get_size("Add"), 0);

    let target =
        egraph.parse_and_run_program(None, "(print-function Target 100)").unwrap()[0].to_string();
    assert!(target.contains("(Num 3)"), "unexpected output: {target}");

    let best =
        egraph.parse_and_run_program(None, "(print-function Best 100)").unwrap()[0].to_string();
    assert!(best.contains("(Num 2)"), "unexpected output: {best}");
    assert!(best.contains("7"), "unexpected output: {best}");
}

#[test]
fn test_multi_extract_bad_arity_returns_error_instead_of_panicking() {
    for program in ["(multi-extract)", "(multi-extract 1)", "(multi-extract 1 :dag)"] {
        let mut egraph = new_egraph();
        let err = egraph.parse_and_run_program(None, program).unwrap_err();
        assert!(
            err.to_string()
                .contains("multi-extract expects at least a variant count and one expression"),
            "unexpected error for {program}: {err}"
        );
    }
}

#[test]
fn test_multi_extract_dag_only_in_documented_position() {
    for program in ["(multi-extract 1 a :dag)", "(multi-extract 1 :dag :dag a)"] {
        let mut egraph = new_egraph();
        let err = egraph
            .parse_and_run_program(
                None,
                &format!("(datatype Math (Num i64)) (let a (Num 1)) {program}"),
            )
            .unwrap_err();
        assert!(err.to_string().contains(":dag"), "unexpected error for {program}: {err}");
    }
}

#[test]
fn test_multi_extract_negative_variants_returns_error_instead_of_panicking() {
    let mut egraph = new_egraph();
    egraph.parse_and_run_program(None, "(datatype E (Num i64))").unwrap();
    let err = egraph.parse_and_run_program(None, "(multi-extract -1 (Num 1))").unwrap_err();
    assert!(err.to_string().contains("negative number of variants"));
}

#[test]
fn test_multi_extract_zero_variants_returns_error_instead_of_extracting() {
    let mut egraph = new_egraph();
    egraph.parse_and_run_program(None, "(datatype E (Num i64))").unwrap();
    let err = egraph.parse_and_run_program(None, "(multi-extract 0 (Num 1))").unwrap_err();
    assert!(err.to_string().contains("positive number of variants"));
}

#[test]
fn test_multi_extract_dag() {
    let mut egraph = new_egraph();
    let outputs = egraph
        .parse_and_run_program(
            None,
            r#"
        (datatype Math (Num i64) (Add Math Math) (Neg Math))
        (let a (Add (Num 1) (Num 2)))
        (let b (Neg (Add (Num 1) (Num 2))))
        (multi-extract 1 :dag a b)
        "#,
        )
        .unwrap();
    let printed = outputs.last().unwrap().to_string();
    assert_eq!(
        spaced(&printed),
        "(let ( (?t0 (Add (Num 1) (Num 2))) ) ( ( ?t0 ) ( (Neg ?t0) ) ))"
    );

    let plain = egraph
        .parse_and_run_program(None, "(multi-extract 1 a b)")
        .unwrap()
        .last()
        .unwrap()
        .to_string();
    assert_eq!(
        spaced(&plain),
        "( ( (Add (Num 1) (Num 2)) ) ( (Neg (Add (Num 1) (Num 2))) ) )"
    );
}

#[test]
fn test_extractor_keyword_does_not_shadow_a_value_named_extractor() {
    let mut egraph = new_egraph();
    let result = egraph
        .parse_and_run_program(
            None,
            r#"
            (relation table1 (i64))
            (relation table2 (i64))
            (table1 1)
            (table2 2)
            (let :extractor "table1")
            (keep-best :extractor "table2")"#,
        )
        .expect("a table name bound to `:extractor` is positional, not the selector");
    assert!(result.is_empty(), "unexpected output: {result:?}");
    assert_eq!(egraph.get_size("table1"), 1);
    assert_eq!(egraph.get_size("table2"), 1);
}

const DYNAMIC_DAG_FIXTURE: &str = "
(with-dynamic-cost
    (datatype E
        (Pair E E :cost 1)
        (Wide E :cost 1)
        (Leaf i64 :cost 1))
)

(let shared (Wide (Leaf 0)))
(let daggy (Pair shared shared))
(let treeish (Pair (Leaf 1) (Leaf 2)))
(union daggy treeish)
";

#[test]
fn test_extractor_keyword_does_not_shadow_a_term_named_extractor() {
    let commands = "(let :extractor (Leaf 1))\n(multi-extract 1 :extractor (Leaf 2))";
    let result = new_costed_egraph()
        .parse_and_run_program(None, &format!("{DYNAMIC_DAG_FIXTURE}\n{commands}"))
        .unwrap();
    assert_eq!(result.len(), 1);
}

#[test]
fn test_extractor_keyword_wins_against_a_trailing_symbol_pair() {
    let commands = "(let :extractor (Leaf 1))\n(multi-extract 1 :extractor daggy)";
    let err = new_costed_egraph()
        .parse_and_run_program(None, &format!("{DYNAMIC_DAG_FIXTURE}\n{commands}"))
        .expect_err("documented limitation");
    assert!(err.to_string().contains("unknown extractor: daggy"), "unexpected error: {err}");
}

#[test]
fn test_multi_extract_two_variants_two_terms() {
    let mut egraph = new_costed_egraph();

    let result = egraph
        .parse_and_run_program(
            None,
            "
        (with-dynamic-cost
            (datatype E (Add E E) (Mul E E) (Num i64))
        )

        (union (Num 2) (Add (Num 1) (Num 1)))
        (union (Num 2) (Mul (Num 1) (Num 2)))

        (union (Num 4) (Add (Num 2) (Num 2)))
        (union (Num 4) (Mul (Num 2) (Num 2)))

        (multi-extract 2 (Num 2) (Num 4))",
        )
        .unwrap();

    assert_eq!(result.len(), 1);
    let output = result[0].to_string();
    assert!(output.contains("(Num 2)"));
    assert!(output.contains("(Add (Num 1) (Num 1))") || output.contains("(Mul (Num 1) (Num 2))"));
    assert!(output.contains("(Num 4)"));
    assert!(output.contains("(Add (Num 2) (Num 2))") || output.contains("(Mul (Num 2) (Num 2))"));
}

#[test]
fn test_multi_extract_single_variant_minimal_cost() {
    let mut egraph = new_costed_egraph();

    let result = egraph
        .parse_and_run_program(
            None,
            "
        (with-dynamic-cost
            (datatype E (Add E E :cost 3) (Mul E E :cost 10) (Num i64 :cost 1))
        )

        (union (Num 5) (Add (Num 2) (Num 3)))
        (union (Num 5) (Mul (Num 1) (Num 5)))
        (union (Add (Num 5) (Num 5)) (Mul (Num 2) (Num 5)))

        (multi-extract 1 (Mul (Num 2) (Num 5)))",
        )
        .unwrap();

    assert_eq!(result.len(), 1);
    let output = result[0].to_string();
    assert!(output.contains("(Add (Num 5) (Num 5))"));
    assert!(!output.contains("Mul"));
}

#[test]
fn multi_extract_lists_the_cheapest_variants_of_each_term() {
    let mut egraph = new_egraph();
    let outputs = egraph
        .parse_and_run_program(
            None,
            "
        (datatype E (Add E E :cost 3) (Mul E E :cost 10) (Num i64 :cost 1))
        (union (Num 5) (Add (Num 2) (Num 3)))
        (union (Num 5) (Mul (Num 1) (Num 5)))
        (multi-extract 2 (Num 5) (Num 2))",
        )
        .unwrap();
    assert_eq!(
        outputs[0].to_string(),
        "(\n   (\n      (Num 5)\n      (Add (Num 2) (Num 3))\n   )\n   (\n      (Num 2)\n   )\n)\n"
    );
}

#[test]
fn multi_extract_prints_the_bindings_of_several_roots() {
    let mut egraph = new_egraph();
    let outputs = egraph
        .parse_and_run_program(
            None,
            "
        (datatype Math (Num i64) (Neg Math))
        (multi-extract 1 :dag (Neg (Num 1)) (Neg (Num 1)))",
        )
        .unwrap();
    assert_eq!(
        outputs[0].to_string(),
        "(let (\n   (?t0 (Neg (Num 1)))\n )\n (\n   (\n      ?t0\n   )\n   (\n      ?t0\n   )\n ))\n"
    );
}

#[test]
fn multi_extract_refuses_unknown_extractors_before_anything_else() {
    let mut egraph = new_egraph();
    let err = egraph
        .parse_and_run_program(None, "(multi-extract 1 nothing :extractor greedy-dg)")
        .unwrap_err();
    assert!(err.to_string().contains("unknown extractor: greedy-dg"), "unexpected error: {err}");
    let err = egraph
        .parse_and_run_program(
            None,
            "(datatype Math (Num i64)) (multi-extract 1 (Num 1) :extractor greedy-dag)",
        )
        .unwrap_err();
    assert!(err.to_string().contains("greedy-dag is to extract"), "unexpected error: {err}");
}

#[test]
fn multi_extract_wants_an_integer_count() {
    let mut egraph = new_egraph();
    let err = egraph
        .parse_and_run_program(None, "(datatype Math (Num i64)) (multi-extract \"1\" (Num 1))")
        .unwrap_err();
    assert!(err.to_string().contains("sort i64"), "unexpected error: {err}");
    let err = egraph.parse_and_run_program(None, "(multi-extract 1 missing)").unwrap_err();
    assert!(err.to_string().contains("missing"), "unexpected error: {err}");
}

#[test]
fn counts_must_be_positive() {
    assert_eq!(check_count(3).ok(), Some(3));
    assert_eq!(check_count(0).err().unwrap().message(), "multi-extract requires a positive number of variants");
    assert_eq!(check_count(-1).err().unwrap().message(), "Cannot extract negative number of variants");
    assert_eq!(check_count(i64::MIN).err().unwrap().message(), "Cannot extract negative number of variants");
}

fn variable(name: &str) -> Expr {
    Expr::Var(here(), name.to_string())
}

fn number(value: i64) -> Expr {
    Expr::Lit(here(), Literal::Int(value))
}

#[test]
fn a_request_is_a_count_an_option_and_terms() {
    let request = parse_request(&[number(1), variable(":dag"), variable("a")]).ok().unwrap();
    assert!(request.dag);
    let request = parse_request(&[number(1), variable("a"), variable("b")]).ok().unwrap();
    assert!(!request.dag);
    assert!(parse_request(&[]).is_err());
    assert!(parse_request(&[number(1), variable(":dag")]).is_err());
}

#[test]
fn a_trailing_extractor_is_split_off() {
    assert_eq!(
        split_trailing_extractor(&[number(1), variable(":extractor"), variable("greedy-dag")]),
        Ok((1, true))
    );
    assert_eq!(split_trailing_extractor(&[number(1), variable(":extractor")]), Ok((2, false)));
    assert_eq!(
        split_trailing_extractor(&[variable(":extractor"), number(1)]),
        Ok((2, false))
    );
    assert_eq!(
        split_trailing_extractor(&[variable(":extractor"), variable("tree")]),
        Err("tree".to_string())
    );
    assert_eq!(unknown_extractor("tree"), "unknown extractor: tree");
}

#[test]
fn unsound_outputs_are_not_printed() {
    let mut termdag = egglog::TermDag::default();
    let term = termdag.app("A".into(), vec![]);
    let output = MultiExtractOutput { termdag: termdag.clone(), terms: vec![vec![term]], dag: false };
    assert!(output.is_sound());
    assert_eq!(output.try_text(), Some("(\n   (\n      (A)\n   )\n)\n".to_string()));
    let output = MultiExtractOutput { termdag, terms: vec![vec![term + 1]], dag: false };
    assert!(!output.is_sound());
    assert_eq!(output.try_text(), None);
}

#[test]
fn keep_best_refuses_what_names_no_table() {
    let mut egraph = new_egraph();
    let err = egraph.parse_and_run_program(None, r#"(keep-best "Nothing")"#).unwrap_err();
    assert!(err.to_string().contains("unbound Nothing"), "unexpected error: {err}");
    let err = egraph.parse_and_run_program(None, "(keep-best 1)").unwrap_err();
    assert!(err.to_string().contains("no string 0"), "unexpected error: {err}");
    let err = egraph.parse_and_run_program(None, r#"(keep-best "T" :extractor tree)"#).unwrap_err();
    assert!(err.to_string().contains("unknown extractor: tree"), "unexpected error: {err}");
    let err =
        egraph.parse_and_run_program(None, r#"(keep-best "T" :extractor greedy-dag)"#).unwrap_err();
    assert!(err.to_string().contains("greedy-dag is to extract"), "unexpected error: {err}");
}

#[test]
fn keep_best_of_nothing_clears_everything() {
    let mut egraph = new_egraph();
    egraph
        .parse_and_run_program(None, "(datatype Math (Num i64)) (relation R (Math)) (R (Num 1))")
        .unwrap();
    egraph.parse_and_run_program(None, "(keep-best)").unwrap();
    assert_eq!(egraph.get_size("Num"), 0);
    assert_eq!(egraph.get_size("R"), 0);
}

#[test]
fn keep_best_says_which_table_has_no_term() {
    let mut egraph = new_egraph();
    egraph
        .parse_and_run_program(
            None,
            "
        (sort S)
        (constructor Hidden () S :unextractable)
        (relation R (S))
        (R (Hidden))",
        )
        .unwrap();
    let err = egraph.parse_and_run_program(None, r#"(keep-best "R")"#).unwrap_err();
    assert!(
        err.to_string().contains("keep-best: could not extract value in table R"),
        "unexpected error: {err}"
    );
    assert_eq!(egraph.get_size("R"), 1);
}

#[test]
fn rows_are_read_with_inputs_before_the_output() {
    let mut egraph = new_egraph();
    egraph
        .parse_and_run_program(
            None,
            "
        (datatype Math (Num i64))
        (function F (i64 i64) i64 :no-merge)
        (Num 3)
        (set (F 1 2) 3)",
        )
        .unwrap();
    assert_eq!(is_constructor(&egraph, "Num").ok(), Some(true));
    assert_eq!(is_constructor(&egraph, "F").ok(), Some(false));
    assert!(is_constructor(&egraph, "Nothing").is_err());
    let rows = read_rows(&egraph, "F").ok().unwrap();
    assert_eq!(rows.len(), 1);
    assert_eq!(rows[0].len(), 3);
    let number = |value: u32| egraph.value_to_base::<i64>(egglog::Value::new_const(value));
    assert_eq!((number(rows[0][0]), number(rows[0][1]), number(rows[0][2])), (1, 2, 3));
    let rows = read_rows(&egraph, "Num").ok().unwrap();
    assert_eq!(rows.len(), 1);
    assert_eq!(number(rows[0][0]), 3);
}

#[test]
fn the_best_terms_of_a_table_are_extracted() {
    let mut egraph = new_egraph();
    egraph
        .parse_and_run_program(
            None,
            "
        (datatype Math (Num i64) (Add Math Math))
        (relation Target (Math))
        (union (Num 2) (Add (Num 1) (Num 1)))
        (Target (Add (Num 1) (Num 1)))",
        )
        .unwrap();
    let tables = collect_and_extract(&egraph, &vec!["Target".to_string()]).ok().unwrap();
    assert_eq!(tables.len(), 1);
    assert_eq!(tables[0].name, "Target");
    assert_eq!(tables[0].rows.len(), 1);
    assert_eq!(tables[0].dag.to_string(tables[0].rows[0][0]), "(Num 2)");
    assert!(collect_and_extract(&egraph, &vec!["None".to_string()]).is_err());
}

#[test]
fn keep_best_refuses_for_the_first_table_that_fails() {
    let mut egraph = new_egraph();
    egraph
        .parse_and_run_program(
            None,
            "
        (sort S)
        (constructor Hidden () S :unextractable)
        (relation R (S))
        (relation Fine (i64))
        (R (Hidden))
        (Fine 1)",
        )
        .unwrap();
    let err = egraph.parse_and_run_program(None, r#"(keep-best "Fine" "R" "None")"#).unwrap_err();
    assert!(err.to_string().contains("in table R"), "unexpected error: {err}");
    let err = egraph.parse_and_run_program(None, r#"(keep-best "Fine" "None" "R")"#).unwrap_err();
    assert!(err.to_string().contains("unbound None"), "unexpected error: {err}");
    assert_eq!(egraph.get_size("Fine"), 1);
}

#[test]
fn keep_best_evaluates_the_names_before_the_extractor_counts() {
    let mut egraph = new_egraph();
    let err = egraph
        .parse_and_run_program(None, r#"(keep-best "T" 1 :extractor greedy-dag)"#)
        .unwrap_err();
    assert!(err.to_string().contains("no string 1"), "unexpected error: {err}");
    let err = egraph.parse_and_run_program(None, "(keep-best 1 :extractor tree)").unwrap_err();
    assert!(err.to_string().contains("unknown extractor: tree"), "unexpected error: {err}");
}

#[test]
fn keep_best_keeps_each_row_once_in_order() {
    let mut egraph = new_egraph();
    egraph
        .parse_and_run_program(
            None,
            "
        (datatype Math (Num i64) (Add Math Math))
        (relation Target (Math))
        (function F (i64) Math :no-merge)
        (union (Num 3) (Add (Num 1) (Num 2)))
        (Target (Add (Num 1) (Num 2)))
        (Target (Num 4))
        (set (F 7) (Num 3))",
        )
        .unwrap();
    let name = |text: &str| Expr::Lit(here(), Literal::String(text.to_string()));
    let kept = match KeepBestCommand.update(&mut egraph, &[name("F"), name("Target")]) {
        Ok(keep_best::Outcome::Kept(kept)) => kept,
        _ => panic!("nothing was kept"),
    };
    let tables: Vec<&str> = kept.rows.iter().map(|row| row.table.as_str()).collect();
    assert_eq!(tables, vec!["F", "Target", "Target"]);
    let constructors: Vec<bool> = kept.rows.iter().map(|row| row.constructor).collect();
    assert_eq!(constructors, vec![false, true, true]);
    assert!(kept.rows.iter().all(|row| row.values.len() == 2));
    assert_eq!(kept.tables.len(), 2);
    assert_eq!(kept.tables[0].dag.to_string(kept.tables[0].rows[0][1]), "(Num 3)");
    assert_eq!(egraph.get_size("Target"), 2);
    assert_eq!(egraph.get_size("F"), 1);
    assert_eq!(egraph.get_size("Add"), 0);
    assert_eq!(egraph.get_size("Num"), 2);
}

fn run(program: &str) -> EGraph {
    let mut egraph = new_egraph();
    egraph.parse_and_run_program(None, program).unwrap();
    egraph
}

fn call(head: &str, args: Vec<Expr>) -> Expr {
    Expr::Call(here(), head.to_string(), args)
}

const COSTS: &str = "
(datatype E (Add E E :cost 3) (Mul E E :cost 10) (Num i64 :cost 1))
(union (Num 5) (Add (Num 2) (Num 3)))
(union (Num 5) (Mul (Num 1) (Num 5)))
";

#[test]
fn the_greedy_extractor_gets_the_evaluated_roots() {
    let mut egraph = run(COSTS);
    let args = [
        number(2),
        variable(":dag"),
        call("Num", vec![number(5)]),
        variable(":extractor"),
        variable("greedy-dag"),
    ];
    let command = MultiExtract::new(TreeAdditiveCostModel::default());
    let prepared = match command.update(&mut egraph, &args) {
        Ok(multi_extract::Outcome::Greedy(prepared)) => prepared,
        _ => panic!("the greedy extractor is asked for"),
    };
    assert_eq!((prepared.count, prepared.dag, prepared.greedy), (2, true, true));
    assert_eq!(prepared.roots.len(), 1);
    assert_eq!(prepared.roots[0].0.sort.name(), "E");
    let mut termdag = egglog::TermDag::default();
    let leaf = termdag.app("A".to_string(), vec![]);
    let output = prepared.output(termdag, vec![vec![leaf]]);
    assert_eq!(output.try_text(), Some("(let (\n )\n (\n   (\n      (A)\n   )\n ))\n".to_string()));
}

#[test]
fn variants_come_by_their_costs_from_any_cost_table() {
    let mut egraph = run(COSTS);
    let args = [number(3), call("Num", vec![number(5)])];
    let prepared = prepare(&mut egraph, &args).ok().unwrap();
    assert!(!prepared.greedy);
    let sorts = prepared.roots.iter().map(|root| root.0.sort.clone()).collect();
    let model = TreeAdditiveCostModel::default();
    let table = Extractor::compute_costs_from_rootsorts(Some(sorts), &egraph, model);
    let costs = Costs { table };
    let (dag, terms) = list_variants(&egraph, &costs, &prepared.roots, prepared.count);
    let shown: Vec<String> = terms[0].iter().map(|term| dag.to_string(*term)).collect();
    assert_eq!(shown, vec!["(Num 5)", "(Add (Num 2) (Num 3))", "(Mul (Num 1) (Num 5))"]);
    let output = prepared.extract(&egraph, &costs);
    assert_eq!(output.terms, terms);
    assert!(!output.dag);
    let (dag, terms) = list_variants(&egraph, &costs, &prepared.roots, 1);
    assert_eq!(terms[0].len(), 1);
    let (best, ids) = best_terms(&egraph, &costs, &prepared.roots);
    assert_eq!(ids[0].unwrap().0, 2);
    assert_eq!(dag.to_string(terms[0][0]), best.to_string(ids[0].unwrap().1));
}

#[test]
fn keep_best_goes_on_from_what_an_extractor_found() {
    let mut egraph = run(
        "
        (datatype Math (Num i64) (Add Math Math))
        (relation Target (Math))
        (union (Num 2) (Add (Num 1) (Num 1)))
        (Target (Num 2))",
    );
    let args = [
        Expr::Lit(here(), Literal::String("Target".to_string())),
        variable(":extractor"),
        variable("greedy-dag"),
    ];
    let names = match KeepBestCommand.update(&mut egraph, &args) {
        Ok(keep_best::Outcome::Greedy(names)) => names,
        _ => panic!("the greedy extractor is asked for"),
    };
    assert_eq!(names, vec!["Target"]);
    let roots = table_roots(&egraph, &names[0]).ok().unwrap();
    assert_eq!((roots.count, roots.width, roots.roots.len()), (1, 2, 2));
    let mut dag = egglog::TermDag::default();
    let one = dag.lit(Literal::Int(1));
    let one = dag.app("Num".to_string(), vec![one]);
    let sum = dag.app("Add".to_string(), vec![one, one]);
    let unit = dag.app("Target".to_string(), vec![sum]);
    assert!(assemble(&roots, dag.clone(), &vec![Some(sum), None]).is_err());
    let table = assemble(&roots, dag, &vec![Some(sum), Some(unit)]).ok().unwrap();
    assert_eq!(table.rows, vec![vec![sum, unit]]);
    let kept = restore(&mut egraph, vec![table]).ok().unwrap();
    assert_eq!(kept.rows.len(), 1);
    assert_eq!(egraph.get_size("Target"), 1);
    assert_eq!(egraph.get_size("Add"), 1);
    assert_eq!(egraph.get_size("Num"), 1);
}

#[test]
fn containers_may_be_extracted_among_other_terms() {
    let mut egraph = run(
        "
        (sort Math)
        (sort Maths (Vec Math))
        (constructor Num (i64) Math)",
    );
    let output = egraph
        .parse_and_run_program(None, "(multi-extract 1 (vec-of (Num 1)) (Num 2))")
        .unwrap();
    assert_eq!(spaced(&output[0].to_string()), "( ( (vec-of (Num 1)) ) ( (Num 2) ) )");
}

#[derive(Clone)]
struct Merge(Vec<ArcSort>);

impl Primitive for Merge {
    fn name(&self) -> &str {
        "merge!"
    }

    fn get_type_constraints(&self, span: &Span) -> Box<dyn TypeConstraint> {
        Box::new(SimpleTypeConstraint::new("merge!", self.0.clone(), span.clone()))
    }
}

impl FullPrim for Merge {
    fn apply<'a, 'db>(&self, mut state: FullState<'a, 'db>, args: &[Value]) -> Option<Value> {
        state.union(args[0], args[1]).ok()?;
        Some(state.base_to_value(1i64))
    }
}

#[test]
fn a_container_that_goes_while_terms_are_evaluated_is_refused() {
    let mut egraph = run(
        "
        (sort Math)
        (sort Maths (Vec Math))
        (constructor A () Math)
        (constructor B () Math)",
    );
    let math = egraph.get_arcsort_by(|sort| sort.name() == "Math");
    let number = egraph.get_arcsort_by(|sort| sort.name() == "i64");
    egraph.add_full_primitive(Merge(vec![math.clone(), math, number]), None);
    let err = egraph
        .parse_and_run_program(None, "(multi-extract 1 (vec-of (A)) (vec-of (B)) (merge! (A) (B)))")
        .unwrap_err();
    assert!(err.to_string().contains("a container changed"), "unexpected error: {err}");
    let output = egraph
        .parse_and_run_program(None, "(multi-extract 1 (vec-of (A)) (vec-of (B)))")
        .unwrap();
    assert_eq!(spaced(&output[0].to_string()), "( ( (vec-of (A)) ) ( (vec-of (A)) ) )");
}

use std::collections::BTreeMap;

use egglog::ast::{Literal, Span};
use egglog::constraint::{self, Constraint, ImpossibleConstraint, TypeConstraint};
use egglog::{ArcSort, Atom, AtomTerm, EGraph, FullPrim, FullState, Primitive, TypeInfo, Value, Write};
use egglog_experimental::subst::typing::{usage, Usage};
use egglog_experimental::subst::{substitute, Failure, Subst, Substitution};
use egglog_numeric_id::NumericId;

fn graph(program: &str) -> EGraph {
    let mut egraph = EGraph::default();
    egraph.parse_and_run_program(None, program).unwrap();
    egraph
}

fn value(egraph: &mut EGraph, text: &str) -> u32 {
    let expr = egraph.parser.get_expr_from_string(None, text).ok().unwrap();
    let (_, value) = egraph.eval_expr(&expr).unwrap();
    value.rep()
}

fn run(egraph: &mut EGraph, root: u32, entries: &[(u32, u32)]) -> Result<Substitution, Failure> {
    let map: BTreeMap<u32, u32> = entries.iter().cloned().collect();
    egraph.update(|mut state| Ok(substitute(&mut state, root, &map))).unwrap()
}

fn done(result: Result<Substitution, Failure>) -> Substitution {
    match result {
        Ok(done) => done,
        Err(Failure::NotAMap) => panic!("no map"),
        Err(Failure::Ungrounded(blocked)) => panic!("{}", blocked.message()),
        Err(Failure::Uncommitted(row)) => panic!("{}", row.message()),
    }
}

fn holds(egraph: &mut EGraph, fact: &str) -> bool {
    egraph.parse_and_run_program(None, &format!("(check {fact})")).is_ok()
}

const MATH: &str = "
(datatype Math (Num i64) (Var String) (Add Math Math) (Neg Math))
";

#[test]
fn the_affected_rows_are_copied_with_keys_replaced() {
    let mut egraph = graph(MATH);
    let root = value(&mut egraph, "(Add (Var \"x\") (Num 1))");
    let x = value(&mut egraph, "(Var \"x\")");
    let five = value(&mut egraph, "(Num 5)");
    let copy = done(run(&mut egraph, root, &[(x, five)]));
    assert_ne!(copy.image, root);
    assert_eq!(copy.copies.len(), 1);
    assert_eq!(copy.copies[0].class, root);
    assert_eq!(copy.copies[0].eclass, copy.image);
    assert!(holds(&mut egraph, "(Add (Num 5) (Num 1))"));
    assert_eq!(value(&mut egraph, "(Add (Num 5) (Num 1))"), copy.image);
    assert_eq!(egraph.get_size("Add"), 2);
}

#[test]
fn a_root_that_is_a_key_gives_its_target() {
    let mut egraph = graph(MATH);
    let x = value(&mut egraph, "(Var \"x\")");
    let five = value(&mut egraph, "(Num 5)");
    let copy = done(run(&mut egraph, x, &[(x, five)]));
    assert_eq!(copy.image, five);
    assert!(copy.copies.is_empty());
    let copy = done(run(&mut egraph, x, &[]));
    assert_eq!(copy.image, x);
}

#[test]
fn what_reaches_no_key_is_shared() {
    let mut egraph = graph(MATH);
    let root = value(&mut egraph, "(Add (Num 1) (Num 2))");
    let x = value(&mut egraph, "(Var \"x\")");
    let before = egraph.get_size("Add");
    let copy = done(run(&mut egraph, root, &[(x, root)]));
    assert_eq!(copy.image, root);
    assert!(copy.copies.is_empty());
    assert_eq!(egraph.get_size("Add"), before);
    let mixed = value(&mut egraph, "(Add (Neg (Num 1)) (Neg (Var \"x\")))");
    let copy = done(run(&mut egraph, mixed, &[(x, root)]));
    assert_eq!(copy.copies.len(), 2);
    assert_eq!(egraph.get_size("Neg"), 3);
    assert!(holds(&mut egraph, "(Add (Neg (Num 1)) (Neg (Add (Num 1) (Num 2))))"));
}

#[test]
fn a_root_that_was_just_built_comes_back_as_it_was() {
    let mut egraph = graph(MATH);
    let x = value(&mut egraph, "(Var \"x\")");
    let five = value(&mut egraph, "(Num 5)");
    let map: BTreeMap<u32, u32> = [(x, five)].into_iter().collect();
    let (root, result) = egraph
        .update(|mut state| {
            let root = state.add("Neg", egglog::RawValues(vec![Value::new_const(x)]))?.rep();
            Ok((root, substitute(&mut state, root, &map)))
        })
        .unwrap();
    let copy = done(result);
    assert_eq!(copy.image, root);
    assert!(copy.copies.is_empty());
    assert_eq!(egraph.get_size("Neg"), 1);
    let copy = done(run(&mut egraph, root, &[(x, five)]));
    assert_eq!(copy.copies.len(), 1);
    assert_eq!(value(&mut egraph, "(Neg (Num 5))"), copy.image);
}

#[test]
fn entries_are_applied_at_once() {
    let mut egraph = graph(MATH);
    let root = value(&mut egraph, "(Add (Var \"x\") (Var \"y\"))");
    let x = value(&mut egraph, "(Var \"x\")");
    let y = value(&mut egraph, "(Var \"y\")");
    let copy = done(run(&mut egraph, root, &[(x, y), (y, x)]));
    assert_eq!(value(&mut egraph, "(Add (Var \"y\") (Var \"x\"))"), copy.image);
    assert_eq!(egraph.get_size("Add"), 2);
}

#[test]
fn targets_are_not_walked() {
    let mut egraph = graph(MATH);
    let root = value(&mut egraph, "(Neg (Var \"x\"))");
    let x = value(&mut egraph, "(Var \"x\")");
    let copy = done(run(&mut egraph, root, &[(x, root)]));
    assert_eq!(value(&mut egraph, "(Neg (Neg (Var \"x\")))"), copy.image);
    assert_eq!(egraph.get_size("Neg"), 2);
}

#[test]
fn equations_are_carried_over() {
    let mut egraph = graph(MATH);
    egraph
        .parse_and_run_program(None, "(union (Add (Var \"x\") (Num 0)) (Neg (Neg (Var \"x\"))))")
        .unwrap();
    let root = value(&mut egraph, "(Add (Var \"x\") (Num 0))");
    let x = value(&mut egraph, "(Var \"x\")");
    let five = value(&mut egraph, "(Num 5)");
    let copy = done(run(&mut egraph, root, &[(x, five)]));
    assert_eq!(copy.copies.len(), 3);
    assert!(holds(&mut egraph, "(= (Add (Num 5) (Num 0)) (Neg (Neg (Num 5))))"));
}

#[test]
fn containers_are_rebuilt_around_their_contents() {
    let mut egraph = graph(
        "
    (sort Math)
    (sort Maths (Vec Math))
    (sort Nested (Vec Maths))
    (constructor Num (i64) Math)
    (constructor Var (String) Math)
    (constructor Sum (Maths) Math)
    (constructor Sums (Nested) Math)
    ",
    );
    let root = value(&mut egraph, "(Sum (vec-of (Var \"x\") (Num 1)))");
    let nested = value(&mut egraph, "(Sums (vec-of (vec-of (Num 1)) (vec-of (Var \"x\"))))");
    let x = value(&mut egraph, "(Var \"x\")");
    let five = value(&mut egraph, "(Num 5)");
    done(run(&mut egraph, root, &[(x, five)]));
    assert!(holds(&mut egraph, "(Sum (vec-of (Num 5) (Num 1)))"));
    done(run(&mut egraph, nested, &[(x, five)]));
    assert!(holds(&mut egraph, "(Sums (vec-of (vec-of (Num 1)) (vec-of (Num 5))))"));
    assert_eq!(egraph.get_size("Sum"), 2);
    assert_eq!(egraph.get_size("Sums"), 2);
}

#[test]
fn a_cycle_that_nothing_grounds_is_refused() {
    let mut egraph = graph(
        "
    (datatype Math (Base) (Key) (Other) (Grow Math Math))
    (union (Base) (Grow (Base) (Key)))
    (Other)
    (delete (Base))
    (run 1)
    ",
    );
    let key = value(&mut egraph, "(Key)");
    let other = value(&mut egraph, "(Other)");
    let rows = egglog_experimental::table_rows::read_rows(&egraph, "Grow").ok().unwrap();
    let root = rows[0][2];
    assert_eq!(rows[0][0], root);
    let before = egraph.get_size("Grow");
    match run(&mut egraph, root, &[(key, other)]) {
        Err(Failure::Ungrounded(blocked)) => {
            assert_eq!(blocked.eclass, root);
            assert_eq!(blocked.constructors, vec!["Grow"]);
            assert_eq!(
                blocked.message(),
                format!(
                    "unstable-subst: no order copies e-class Value({root}): its e-nodes (Grow) refer to copies that nothing can produce. Every cycle in the substituted region needs at least one e-node whose children all lie outside it."
                )
            );
        }
        _ => panic!("the cycle was copied"),
    }
    assert_eq!(egraph.get_size("Grow"), before);
}

#[test]
fn a_grounded_cycle_is_copied() {
    let mut egraph = graph(
        "
    (datatype Math (Start Math) (Key) (Other) (Grow Math Math))
    (union (Start (Key)) (Grow (Start (Key)) (Key)))
    (Other)
    ",
    );
    let root = value(&mut egraph, "(Start (Key))");
    let key = value(&mut egraph, "(Key)");
    let other = value(&mut egraph, "(Other)");
    let copy = done(run(&mut egraph, root, &[(key, other)]));
    assert_eq!(copy.copies.len(), 2);
    assert!(holds(&mut egraph, "(= (Start (Other)) (Grow (Start (Other)) (Other)))"));
    assert!(!holds(&mut egraph, "(= (Start (Other)) (Start (Key)))"));
}

const SUBSUMED: &str = "
(datatype Math (Num i64) (Var String) (Neg Math) (Pair Math Math))
(relation seen (Math))
(ruleset look)
(rule ((Neg a)) ((seen a)) :ruleset look)
(rule ((Pair a b)) ((seen a)) :ruleset look)
";

fn row_of(egraph: &EGraph, table: &str, first: u32) -> Vec<u32> {
    let rows = egglog_experimental::table_rows::read_rows(egraph, table).ok().unwrap();
    rows.into_iter().find(|row| row[0] == first).unwrap()
}

#[test]
fn subsumed_rows_stay_subsumed_when_copied() {
    let mut egraph = graph(SUBSUMED);
    egraph
        .parse_and_run_program(
            None,
            "
        (Neg (Num 5))
        (Neg (Var \"x\"))
        (subsume (Neg (Var \"x\")))",
        )
        .unwrap();
    let x = value(&mut egraph, "(Var \"x\")");
    let five = value(&mut egraph, "(Num 5)");
    let root = row_of(&egraph, "Neg", x)[1];
    let target = row_of(&egraph, "Neg", five)[1];
    let copy = done(run(&mut egraph, root, &[(x, five)]));
    assert_eq!(copy.image, target);
    assert_eq!(copy.copies.len(), 1);
    egraph.parse_and_run_program(None, "(run look 1)").unwrap();
    assert_eq!(egraph.get_size("seen"), 0);
    assert_eq!(egraph.get_size("Neg"), 2);
}

#[test]
fn a_subsumed_row_without_a_committed_copy_is_refused() {
    let mut egraph = graph(SUBSUMED);
    egraph
        .parse_and_run_program(
            None,
            "
        (Neg (Var \"x\"))
        (subsume (Neg (Var \"x\")))
        (Num 5)",
        )
        .unwrap();
    let x = value(&mut egraph, "(Var \"x\")");
    let five = value(&mut egraph, "(Num 5)");
    let root = row_of(&egraph, "Neg", x)[1];
    match run(&mut egraph, root, &[(x, five)]) {
        Err(Failure::Uncommitted(row)) => {
            assert_eq!(row.eclass, root);
            assert_eq!(row.constructor, "Neg");
            assert_eq!(
                row.message(),
                format!(
                    "unstable-subst: the copy of a subsumed e-node (Neg) of e-class Value({root}) is not in the e-graph yet, so it cannot be subsumed. Add it in an earlier command."
                )
            );
        }
        _ => panic!("a live copy was made"),
    }
    assert_eq!(egraph.get_size("Neg"), 1);
    egraph.parse_and_run_program(None, "(Neg (Num 5))").unwrap();
    let target = row_of(&egraph, "Neg", five)[1];
    assert_eq!(done(run(&mut egraph, root, &[(x, five)])).image, target);
    egraph.parse_and_run_program(None, "(run look 1)").unwrap();
    assert_eq!(egraph.get_size("seen"), 0);
}

#[test]
fn a_subsumed_row_above_a_row_without_a_copy_is_refused_before_anything_is_written() {
    let mut egraph = graph(SUBSUMED);
    egraph
        .parse_and_run_program(
            None,
            "
        (Pair (Neg (Var \"x\")) (Num 1))
        (subsume (Pair (Neg (Var \"x\")) (Num 1)))
        (Num 5)",
        )
        .unwrap();
    let x = value(&mut egraph, "(Var \"x\")");
    let five = value(&mut egraph, "(Num 5)");
    let inner = row_of(&egraph, "Neg", x)[1];
    let root = row_of(&egraph, "Pair", inner)[2];
    assert!(matches!(run(&mut egraph, root, &[(x, five)]), Err(Failure::Uncommitted(_))));
    assert_eq!(egraph.get_size("Neg"), 1);
    assert_eq!(egraph.get_size("Pair"), 1);
    egraph.parse_and_run_program(None, "(Neg (Num 5))").unwrap();
    assert!(matches!(run(&mut egraph, root, &[(x, five)]), Err(Failure::Uncommitted(_))));
    egraph.parse_and_run_program(None, "(Pair (Neg (Num 5)) (Num 1))").unwrap();
    let copied = row_of(&egraph, "Neg", five)[1];
    let target = row_of(&egraph, "Pair", copied)[2];
    let copy = done(run(&mut egraph, root, &[(x, five)]));
    assert_eq!(copy.image, target);
    egraph.parse_and_run_program(None, "(run look 1)").unwrap();
    let rows = egglog_experimental::table_rows::read_rows(&egraph, "seen").ok().unwrap();
    let mut seen: Vec<u32> = rows.iter().map(|row| row[0]).collect();
    seen.sort();
    let mut live = vec![x, five];
    live.sort();
    assert_eq!(seen, live);
}

#[test]
fn a_subsumed_row_with_a_container_finds_its_copy() {
    let mut egraph = graph(
        "
    (sort Math)
    (sort Maths (Vec Math))
    (constructor Num (i64) Math)
    (constructor Var (String) Math)
    (constructor Sum (Maths) Math)
    (relation seen (Math))
    (ruleset look)
    (rule ((= a (Sum b))) ((seen a)) :ruleset look)
    (Sum (vec-of (Num 5) (Num 1)))
    (Sum (vec-of (Var \"x\") (Num 1)))
    (subsume (Sum (vec-of (Var \"x\") (Num 1))))
    ",
    );
    let x = value(&mut egraph, "(Var \"x\")");
    let five = value(&mut egraph, "(Num 5)");
    let before = value(&mut egraph, "(vec-of (Var \"x\") (Num 1))");
    let after = value(&mut egraph, "(vec-of (Num 5) (Num 1))");
    let root = row_of(&egraph, "Sum", before)[1];
    let target = row_of(&egraph, "Sum", after)[1];
    let copy = done(run(&mut egraph, root, &[(x, five)]));
    assert_eq!(copy.image, target);
    assert_eq!(copy.copies[0].inputs, vec![after]);
    egraph.parse_and_run_program(None, "(run look 1)").unwrap();
    assert_eq!(egraph.get_size("seen"), 0);
}

#[test]
fn a_live_row_does_not_revive_a_subsumed_copy() {
    let mut egraph = graph(SUBSUMED);
    egraph
        .parse_and_run_program(
            None,
            "
        (Neg (Var \"x\"))
        (Neg (Num 5))
        (subsume (Neg (Num 5)))",
        )
        .unwrap();
    let x = value(&mut egraph, "(Var \"x\")");
    let five = value(&mut egraph, "(Num 5)");
    let root = row_of(&egraph, "Neg", x)[1];
    let target = row_of(&egraph, "Neg", five)[1];
    assert_eq!(done(run(&mut egraph, root, &[(x, five)])).image, target);
    egraph.parse_and_run_program(None, "(run look 1)").unwrap();
    let rows = egglog_experimental::table_rows::read_rows(&egraph, "seen").ok().unwrap();
    assert_eq!(rows.len(), 1);
    assert_eq!(rows[0][0], x);
}

#[derive(Clone)]
struct Prim;

struct Typing {
    span: Span,
}

impl TypeConstraint for Typing {
    fn get(
        &self,
        arguments: &[AtomTerm],
        typeinfo: &TypeInfo,
    ) -> Vec<Box<dyn Constraint<AtomTerm, ArcSort>>> {
        match usage(arguments.len(), typeinfo) {
            Usage::WrongArity => vec![constraint::impossible(ImpossibleConstraint::ArityMismatch {
                atom: Atom {
                    span: self.span.clone(),
                    head: Subst.name().to_owned(),
                    args: arguments.to_vec(),
                },
                expected: 3,
            })],
            Usage::Sorts { maps, roots } => {
                let (root, map, out) = (&arguments[0], &arguments[1], &arguments[2]);
                vec![
                    constraint::eq(root.clone(), out.clone()),
                    constraint::xor(
                        maps.into_iter()
                            .map(|sort| constraint::assign(map.clone(), sort.sort))
                            .collect(),
                    ),
                    constraint::xor(
                        roots
                            .into_iter()
                            .map(|sort| {
                                constraint::and(vec![
                                    constraint::assign(root.clone(), sort.sort.clone()),
                                    constraint::assign(out.clone(), sort.sort),
                                ])
                            })
                            .collect(),
                    ),
                ]
            }
        }
    }
}

impl Primitive for Prim {
    fn name(&self) -> &str {
        Subst.name()
    }

    fn get_type_constraints(&self, span: &Span) -> Box<dyn TypeConstraint> {
        Box::new(Typing { span: span.clone() })
    }
}

impl FullPrim for Prim {
    fn apply<'a, 'db>(&self, mut state: FullState<'a, 'db>, args: &[Value]) -> Option<Value> {
        match Subst.apply(&mut state, args[0].rep(), args[1].rep()) {
            Ok(done) => Some(Value::new_const(done.image)),
            Err(_) => {
                state.panic();
                None
            }
        }
    }
}

fn with_primitive(program: &str) -> EGraph {
    let mut egraph = EGraph::default();
    egraph.add_full_primitive(Prim, None);
    egraph.parse_and_run_program(None, program).unwrap();
    egraph
}

const MAPS: &str = "
(datatype Math (Num i64) (Var String) (Add Math Math))
(sort MathMap (Map Math Math))
(sort Other)
(constructor Wrap (Math) Other)
";

#[test]
fn the_primitive_takes_a_root_and_a_map() {
    let mut egraph = with_primitive(MAPS);
    egraph
        .parse_and_run_program(
            None,
            "
        (let root (Add (Var \"x\") (Num 1)))
        (let wrapped (Wrap (Var \"x\")))
        (let entries (map-insert (map-empty) (Var \"x\") (Num 7)))
        (union (Num 100) (unstable-subst root entries))
        (union (Wrap (Num 100)) (unstable-subst wrapped entries))
        (check (= (Num 100) (Add (Num 7) (Num 1))))
        (check (= (Wrap (Num 100)) (Wrap (Num 7))))
        ",
        )
        .unwrap();
}

#[test]
fn the_primitive_is_typed() {
    for program in [
        "(unstable-subst (Num 1))",
        "(unstable-subst (Num 1) (Num 2))",
        "(unstable-subst 1 (map-empty))",
        "(let entries (map-insert (map-empty) \"x\" 1)) (unstable-subst (Num 1) entries)",
    ] {
        let mut egraph = with_primitive(MAPS);
        egraph.parse_and_run_program(None, "(sort TextMap (Map String i64))").unwrap();
        assert!(egraph.parse_and_run_program(None, program).is_err(), "{program}");
    }
}

#[test]
fn a_value_that_is_no_map_is_refused() {
    let mut egraph = graph(MATH);
    let root = value(&mut egraph, "(Num 1)");
    let number = {
        let expr = egglog::ast::Expr::Lit(Span::Panic, Literal::Int(3));
        egraph.eval_expr(&expr).unwrap().1.rep()
    };
    let result = egraph.update(|mut state| Ok(Subst.apply(&mut state, root, number + 1000))).unwrap();
    assert!(matches!(result, Err(Failure::NotAMap)));
}

#[test]
fn usages_list_sorts_by_name() {
    let mut egraph = graph(MAPS);
    egraph.parse_and_run_program(None, "(sort Another) (sort Maps (Map Another Another))").unwrap();
    match usage(3, egraph.type_info()) {
        Usage::Sorts { maps, roots } => {
            let names = |sorts: &Vec<egglog::ResolvedVar>| -> Vec<String> {
                sorts.iter().map(|sort| sort.sort.name().to_string()).collect()
            };
            assert_eq!(names(&maps), vec!["Maps", "MathMap"]);
            assert_eq!(names(&roots), vec!["Another", "Math", "Other"]);
        }
        Usage::WrongArity => panic!("wrong arity"),
    }
    assert!(matches!(usage(2, egraph.type_info()), Usage::WrongArity));
}

use egglog::ast::Literal;
use egglog::{TermDag, TermId};
use egglog_experimental::dag_print::render_terms_with_shared_lets;

fn dag() -> (TermDag, TermId, TermId) {
    let mut td = TermDag::default();
    let one = td.lit(Literal::Int(1));
    let two = td.lit(Literal::Int(2));
    let n1 = td.app("Num".into(), vec![one]);
    let n2 = td.app("Num".into(), vec![two]);
    let add = td.app("Add".into(), vec![n1, n2]);
    let neg = td.app("Neg".into(), vec![add]);
    (td, add, neg)
}

fn pair(name: &str, definition: &str) -> (String, String) {
    (name.to_string(), definition.to_string())
}

#[test]
fn shared_subterm_is_bound_once() {
    let (td, add, neg) = dag();
    let (bindings, rendered) = render_terms_with_shared_lets(&td, &vec![add, neg]);
    assert_eq!(bindings, vec![pair("?t0", "(Add (Num 1) (Num 2))")]);
    assert_eq!(rendered, vec!["?t0".to_string(), "(Neg ?t0)".to_string()]);
}

#[test]
fn unshared_terms_are_inlined() {
    let (td, _, neg) = dag();
    let (bindings, rendered) = render_terms_with_shared_lets(&td, &vec![neg]);
    assert!(bindings.is_empty());
    assert_eq!(rendered, vec!["(Neg (Add (Num 1) (Num 2)))".to_string()]);
}

#[test]
fn duplicate_children_count_as_two_references() {
    let mut td = TermDag::default();
    let one = td.lit(Literal::Int(1));
    let n1 = td.app("Num".into(), vec![one]);
    let double = td.app("Add".into(), vec![n1, n1]);
    let (bindings, rendered) = render_terms_with_shared_lets(&td, &vec![double]);
    assert_eq!(bindings, vec![pair("?t0", "(Num 1)")]);
    assert_eq!(rendered, vec!["(Add ?t0 ?t0)".to_string()]);
}

#[test]
fn duplicate_roots_bind_the_root_without_recounting_children() {
    let (td, _, neg) = dag();
    let (bindings, rendered) = render_terms_with_shared_lets(&td, &vec![neg, neg]);
    assert_eq!(bindings, vec![pair("?t0", "(Neg (Add (Num 1) (Num 2)))")]);
    assert_eq!(rendered, vec!["?t0".to_string(), "?t0".to_string()]);
}

#[test]
fn nested_bindings_are_in_dependency_order() {
    let (td, add, neg) = dag();
    let (bindings, rendered) = render_terms_with_shared_lets(&td, &vec![add, neg, neg]);
    assert_eq!(
        bindings,
        vec![pair("?t0", "(Add (Num 1) (Num 2))"), pair("?t1", "(Neg ?t0)")]
    );
    assert_eq!(rendered, vec!["?t0", "?t1", "?t1"]);
}

#[test]
fn generated_names_do_not_capture_term_variables() {
    let mut td = TermDag::default();
    let user_var = td.var("?t0".into());
    let shared = td.app("A".into(), vec![]);
    let root = td.app("Pair".into(), vec![shared, user_var]);
    let (bindings, rendered) = render_terms_with_shared_lets(&td, &vec![root, shared]);
    assert_eq!(bindings, vec![pair("?t1", "(A)")]);
    assert_eq!(rendered, vec!["(Pair ?t1 ?t0)", "?t1"]);
}

#[test]
fn deep_unshared_term_renders_linearly() {
    let depth = 20_000;
    let mut td = TermDag::default();
    let mut root = td.app("Z".into(), vec![]);
    for _ in 0..depth {
        root = td.app("F".into(), vec![root]);
    }

    let (bindings, rendered) = render_terms_with_shared_lets(&td, &vec![root]);
    assert!(bindings.is_empty());
    assert_eq!(rendered[0].len(), 4 * depth + 3);
}

#[test]
fn no_roots_render_to_nothing() {
    let (td, _, _) = dag();
    let (bindings, rendered) = render_terms_with_shared_lets(&td, &vec![]);
    assert!(bindings.is_empty());
    assert!(rendered.is_empty());
}

#[test]
fn shared_leaves_stay_inline() {
    let mut td = TermDag::default();
    let text = td.lit(Literal::String("a\"b".into()));
    let variable = td.var("x".into());
    let root = td.app("F".into(), vec![text, text, variable, variable]);
    let (bindings, rendered) = render_terms_with_shared_lets(&td, &vec![root]);
    assert!(bindings.is_empty());
    assert_eq!(rendered, vec![td.to_string(root)]);
}

#[test]
fn names_of_variables_that_are_not_printed_are_free() {
    let mut td = TermDag::default();
    td.var("?t0".into());
    let shared = td.app("A".into(), vec![]);
    let (bindings, rendered) = render_terms_with_shared_lets(&td, &vec![shared, shared]);
    assert_eq!(bindings, vec![pair("?t0", "(A)")]);
    assert_eq!(rendered, vec!["?t0", "?t0"]);
}

#[test]
fn names_go_past_nine_in_decimal() {
    let mut td = TermDag::default();
    let mut roots = Vec::new();
    for i in 0..12 {
        let number = td.lit(Literal::Int(i));
        let term = td.app("N".into(), vec![number]);
        roots.push(term);
        roots.push(term);
    }
    let (bindings, rendered) = render_terms_with_shared_lets(&td, &roots);
    assert_eq!(bindings.len(), 12);
    assert_eq!(bindings[11], pair("?t11", "(N 11)"));
    assert_eq!(rendered[22], "?t11");
}

#[test]
fn replacing_names_by_definitions_gives_the_plain_form() {
    let (mut td, add, neg) = dag();
    let both = td.app("Pair".into(), vec![add, neg]);
    let roots = vec![both, neg, add];
    let (bindings, rendered) = render_terms_with_shared_lets(&td, &roots);
    for (root, text) in roots.iter().zip(rendered) {
        let mut text = text;
        for (name, definition) in bindings.iter().rev() {
            text = text.replace(name.as_str(), definition);
        }
        assert_eq!(text, td.to_string(*root));
    }
}

#[test]
fn printed_size_counts_roots_children_and_bindings() {
    let mut td = TermDag::default();
    let mut root = td.app("Z".into(), vec![]);
    for _ in 0..50 {
        root = td.app("F".into(), vec![root, root]);
    }
    let (bindings, rendered) = render_terms_with_shared_lets(&td, &vec![root]);
    let words = |text: &str| text.split_whitespace().count();
    let size: usize = bindings.iter().map(|binding| words(&binding.1)).sum::<usize>()
        + rendered.iter().map(|text| words(text)).sum::<usize>();
    // one root, a hundred children, fifty bindings
    assert_eq!(bindings.len(), 50);
    assert_eq!(size, 1 + 100 + 50);
}

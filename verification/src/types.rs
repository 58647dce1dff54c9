//! The types of egglog that pass through verified code.

use vstd::prelude::*;

verus! {

/// An error of egglog.
#[verifier::external_type_specification]
#[verifier::external_body]
pub struct ExError(egglog::Error);

/// A variable with its sort. Here it stands for the sort.
#[verifier::external_type_specification]
#[verifier::external_body]
pub struct ExResolvedVar(egglog::ResolvedVar);

/// The state that a full-context primitive reads and writes.
#[verifier::external_type_specification]
#[verifier::external_body]
pub struct ExFullState<'a, 'db>(egglog::FullState<'a, 'db>);

/// The sorts, functions and primitives that are declared.
#[verifier::external_type_specification]
#[verifier::external_body]
pub struct ExTypeInfo(egglog::TypeInfo);

/// A literal of the language.
#[verifier::external_type_specification]
#[verifier::external_body]
pub struct ExLiteral(egglog::ast::Literal);

/// A term of a term DAG, whose children are given by their ids.
#[verifier::external_type_specification]
pub struct ExTerm(egglog::Term);

/// A hash-consing arena of terms.
#[verifier::external_type_specification]
#[verifier::external_body]
pub struct ExTermDag(egglog::TermDag);

/// An e-graph.
#[verifier::external_type_specification]
#[verifier::external_body]
pub struct ExEGraph(egglog::EGraph);

/// The place of a piece of a program.
#[verifier::external_type_specification]
#[verifier::external_body]
pub struct ExSpan(egglog::ast::Span);

/// An expression.
#[verifier::external_type_specification]
#[verifier::reject_recursive_types(Head)]
#[verifier::reject_recursive_types(Leaf)]
pub struct ExGenericExpr<Head, Leaf>(egglog::ast::GenericExpr<Head, Leaf>);

/// A place and what is wrong there.
#[verifier::external_type_specification]
pub struct ExParseError(egglog::ast::ParseError);

/// An s-expression.
#[verifier::external_type_specification]
pub struct ExSexp(egglog::ast::Sexp);

/// A parser of programs, with its macros.
#[verifier::external_type_specification]
#[verifier::external_body]
pub struct ExParser(egglog::ast::Parser);

/// A variant of a datatype.
#[verifier::external_type_specification]
pub struct ExVariant(egglog::ast::Variant);

/// A datatype among several that are declared together.
#[verifier::external_type_specification]
pub struct ExSubdatatypes(egglog::ast::Subdatatypes);

/// The input sorts and the output sort of a declaration.
#[verifier::external_type_specification]
pub struct ExSchema(egglog::ast::Schema);

/// What a change does to an entry.
#[verifier::external_type_specification]
pub struct ExChange(egglog::ast::Change);

/// An action.
#[verifier::external_type_specification]
#[verifier::reject_recursive_types(Head)]
#[verifier::reject_recursive_types(Leaf)]
pub struct ExGenericAction<Head, Leaf>(egglog::ast::GenericAction<Head, Leaf>) where
    Head: Clone + std::fmt::Display,
    Leaf: Clone + PartialEq + Eq + std::fmt::Display + std::hash::Hash;

/// A fact.
#[verifier::external_type_specification]
#[verifier::external_body]
#[verifier::reject_recursive_types(Head)]
#[verifier::reject_recursive_types(Leaf)]
pub struct ExGenericFact<Head, Leaf>(egglog::ast::GenericFact<Head, Leaf>);

/// A rule.
#[verifier::external_type_specification]
#[verifier::external_body]
#[verifier::reject_recursive_types(Head)]
#[verifier::reject_recursive_types(Leaf)]
pub struct ExGenericRule<Head, Leaf>(egglog::ast::GenericRule<Head, Leaf>) where
    Head: Clone + std::fmt::Display,
    Leaf: Clone + PartialEq + Eq + std::fmt::Display + std::hash::Hash;

/// A rewrite.
#[verifier::external_type_specification]
#[verifier::external_body]
#[verifier::reject_recursive_types(Head)]
#[verifier::reject_recursive_types(Leaf)]
pub struct ExGenericRewrite<Head, Leaf>(egglog::ast::GenericRewrite<Head, Leaf>);

/// A schedule.
#[verifier::external_type_specification]
#[verifier::external_body]
#[verifier::reject_recursive_types(Head)]
#[verifier::reject_recursive_types(Leaf)]
pub struct ExGenericSchedule<Head, Leaf>(egglog::ast::GenericSchedule<Head, Leaf>);

/// How a function is printed.
#[verifier::external_type_specification]
#[verifier::external_body]
pub struct ExPrintFunctionMode(egglog::ast::PrintFunctionMode);

/// How containers of a sort are rebuilt.
#[verifier::external_type_specification]
#[verifier::external_body]
pub struct ExContainerRebuildSpec(egglog::ast::ContainerRebuildSpec);

/// The names of the constructors of proofs.
#[verifier::external_type_specification]
#[verifier::external_body]
pub struct ExProofConstructorNames(egglog::ast::ProofConstructorNames);

/// A command.
#[verifier::external_type_specification]
#[verifier::reject_recursive_types(Head)]
#[verifier::reject_recursive_types(Leaf)]
pub struct ExGenericCommand<Head, Leaf>(egglog::ast::GenericCommand<Head, Leaf>) where
    Head: Clone + std::fmt::Display,
    Leaf: Clone + PartialEq + Eq + std::fmt::Display + std::hash::Hash;

/// The cost model that adds up the costs of the nodes of a term.
#[verifier::external_type_specification]
#[verifier::external_body]
pub struct ExTreeAdditiveCostModel(egglog::extract::TreeAdditiveCostModel);

/// The additive cost model, by `TreeAdditiveCostModel::default`. It holds
/// nothing.
pub assume_specification[ <egglog::extract::TreeAdditiveCostModel as Default>::default ]() -> (model:
    egglog::extract::TreeAdditiveCostModel)
;

/// Clones a literal, by `Literal::clone`: the clone is the same literal.
pub assume_specification[ <egglog::ast::Literal as Clone>::clone ](
    literal: &egglog::ast::Literal,
) -> (copy: egglog::ast::Literal)
    ensures
        copy == *literal,
;

/// Clones the handle of a sort, by `ResolvedVar::clone`: the clone is the same
/// handle.
pub assume_specification[ <egglog::ResolvedVar as Clone>::clone ](
    var: &egglog::ResolvedVar,
) -> (copy: egglog::ResolvedVar)
    ensures
        copy == *var,
;

/// Clones a place, by `Span::clone`: the clone is the same place.
pub assume_specification[ <egglog::ast::Span as Clone>::clone ](
    span: &egglog::ast::Span,
) -> (copy: egglog::ast::Span)
    ensures
        copy == *span,
;

} // verus!

//! A finite-domain constraint-satisfaction engine: trailed domains,
//! intensional and extensional constraints, consistency queries and
//! generalized arc consistency.

/// Three-valued truth.
pub mod truth;
/// The traits of value types.
pub mod value;
/// The model of a trailed domain and its laws.
pub mod domain;
/// Trailed and plain domains.
pub mod setdom;
/// Cartesian products in odometer order.
pub mod walker;
/// Variables, v-values and assignments.
pub mod variable;
/// Label order and sorted label lists.
pub mod label;
/// Expressions.
pub mod expr;
/// Relational predicates.
pub mod pred;
/// Boolean formulas over predicates.
pub mod formula;
/// The constraint abstraction and its derived operations.
pub mod constraint;
/// Constraints given by formulas.
pub mod intensional;
/// Constraints given by allowed tuples.
pub mod extensional;
/// Problems: consistency queries and metrics.
pub mod csp;
/// Generalized arc consistency.
pub mod gac;
/// The graph type used for structural views.
pub mod graph;
/// Primal, dual and micro-structure graphs.
pub mod structure;
/// Printed forms.
pub mod display;

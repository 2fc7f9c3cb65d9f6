//! Satisfiability and entailment of propositional formulas written in prefix
//! notation, decided by the analytic tableau method.

pub mod expression;
pub mod semantic_table;
pub mod tableau;
pub mod variables;

//! Postfix boolean formulas: tokenizing, evaluating on a stack, and the truth
//! tables built on the evaluator; with a few bitwise arithmetic routines.
//!
//! - `eval_formula`: tokens, the stack semantics, and the evaluator.
//! - `boolean_evaluation`: evaluation of formulas known to be well formed.
//! - `truth_table`: variables, substitution, and truth tables.
//! - `bitwise`: addition, multiplication and Gray code by bit operations.
use vstd::prelude::*;

pub mod bitwise;
pub mod boolean_evaluation;
pub mod eval_formula;
pub mod truth_table;

verus! {

} // verus!

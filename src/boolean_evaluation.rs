//! Evaluation of formulas that are known to be well formed.
use vstd::prelude::*;
use crate::eval_formula::{evaluation, EvalError};

verus! {

/// The value of a well-formed postfix formula of literals and connectives.
pub fn eval_formula(formula: &str) -> (r: bool)
    requires
        evaluation(formula@) is Ok,
    ensures
        evaluation(formula@) == Ok::<bool, EvalError>(r),
{
    match crate::eval_formula::eval_formula(formula) {
        Ok(v) => v,
        Err(_) => false,
    }
}

} // verus!

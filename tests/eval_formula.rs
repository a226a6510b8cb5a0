use boolean_logic::boolean_evaluation;
use boolean_logic::eval_formula::{eval_formula, tokenize, EvalError, Operand, Operator, Token};

#[test]
fn lib_good_eval_formula() {
    let eval_formula = boolean_evaluation::eval_formula;
    assert_eq!(eval_formula("0!"), true);
    assert_eq!(eval_formula("1!"), false);

    assert_eq!(eval_formula("00|"), false);
    assert_eq!(eval_formula("10|"), true);
    assert_eq!(eval_formula("01|"), true);
    assert_eq!(eval_formula("11|"), true);

    assert_eq!(eval_formula("10&"), false);
    assert_eq!(eval_formula("11&"), true);

    assert_eq!(eval_formula("11^"), false);
    assert_eq!(eval_formula("10^"), true);

    assert_eq!(eval_formula("00>"), true);
    assert_eq!(eval_formula("01>"), true);
    assert_eq!(eval_formula("10>"), false);
    assert_eq!(eval_formula("11>"), true);

    assert_eq!(eval_formula("00="), true);
    assert_eq!(eval_formula("11="), true);
    assert_eq!(eval_formula("10="), false);
    assert_eq!(eval_formula("01="), false);

    assert_eq!(eval_formula("01&1|1="), true);
    assert_eq!(eval_formula("01&1&1&"), false);
    assert_eq!(eval_formula("0111&&&"), false);
}

#[test]
fn lib_wrong_eval_formula() {
    let eval_formula = boolean_evaluation::eval_formula;
    assert_ne!(eval_formula("10&"), true);
    assert_ne!(eval_formula("11^"), true);
    assert_ne!(eval_formula("10>"), true);
    assert_ne!(eval_formula("01="), true);
}

#[test]
fn eval_formula_good_eval_formula() {
    assert_eq!(eval_formula("0!").unwrap(), true);
    assert_eq!(eval_formula("1!").unwrap(), false);

    assert_eq!(eval_formula("00|").unwrap(), false);
    assert_eq!(eval_formula("10|").unwrap(), true);
    assert_eq!(eval_formula("01|").unwrap(), true);
    assert_eq!(eval_formula("11|").unwrap(), true);

    assert_eq!(eval_formula("10&").unwrap(), false);
    assert_eq!(eval_formula("11&").unwrap(), true);

    assert_eq!(eval_formula("11^").unwrap(), false);
    assert_eq!(eval_formula("10^").unwrap(), true);

    assert_eq!(eval_formula("00>").unwrap(), true);
    assert_eq!(eval_formula("01>").unwrap(), true);
    assert_eq!(eval_formula("10>").unwrap(), false);
    assert_eq!(eval_formula("11>").unwrap(), true);

    assert_eq!(eval_formula("00=").unwrap(), true);
    assert_eq!(eval_formula("11=").unwrap(), true);
    assert_eq!(eval_formula("10=").unwrap(), false);
    assert_eq!(eval_formula("01=").unwrap(), false);

    assert_eq!(eval_formula("01&1|1=").unwrap(), true);
    assert_eq!(eval_formula("01&1&1&").unwrap(), false);
    assert_eq!(eval_formula("0111&&&").unwrap(), false);
}

#[test]
fn eval_formula_wrong_eval_formula() {
    assert_ne!(eval_formula("10&").unwrap(), true);
    assert_ne!(eval_formula("11^").unwrap(), true);
    assert_ne!(eval_formula("10>").unwrap(), true);
    assert_ne!(eval_formula("01=").unwrap(), true);
}

#[test]
fn eval_formula_empty_eval_formula() {
    assert_eq!(
        eval_formula("").map_err(|e| e.message()),
        Err(format!("Cannot evaluate an empty formula"))
    );
}

#[test]
fn eval_formula_insufficient_operands_eval_formula() {
    assert_eq!(
        eval_formula("1&").map_err(|e| e.message()),
        Err(format!("Unsufficient operands befor operator"))
    );
    assert_eq!(
        eval_formula("0&1|1=").map_err(|e| e.message()),
        Err(format!("Unsufficient operands befor operator"))
    );
    assert_eq!(
        eval_formula("01&1&&").map_err(|e| e.message()),
        Err(format!("Unsufficient operands befor operator"))
    );
    assert_eq!(
        eval_formula("!").map_err(|e| e.message()),
        Err(format!("Unsufficient operands before NOT operator"))
    );
    assert_eq!(
        eval_formula("0111&&").map_err(|e| e.message()),
        Err(format!("Too many operands left on the stack"))
    );
}

#[test]
fn every_connective_on_every_pair() {
    let cases = [
        ('&', [false, false, false, true]),
        ('|', [false, true, true, true]),
        ('^', [false, true, true, false]),
        ('>', [true, true, false, true]),
        ('=', [true, false, false, true]),
    ];
    for (op, expected) in cases {
        for (k, a) in ["00", "01", "10", "11"].iter().enumerate() {
            let formula = format!("{}{}", a, op);
            assert_eq!(eval_formula(&formula), Ok(expected[k]), "{}", formula);
        }
    }
}

#[test]
fn double_negation_keeps_the_value() {
    for x in ["1", "0", "10&", "01|", "11>0=", "1!0^"] {
        let doubled = format!("{}!!", x);
        assert_eq!(eval_formula(&doubled), eval_formula(x));
    }
}

#[test]
fn empty_formula_is_an_error() {
    assert_eq!(eval_formula(""), Err(EvalError::EmptyFormula));
}

#[test]
fn underflow_is_an_error() {
    assert_eq!(
        eval_formula("1&"),
        Err(EvalError::InsufficientOperands(Operator::And))
    );
    assert_eq!(
        eval_formula("11&>"),
        Err(EvalError::InsufficientOperands(Operator::Implies))
    );
    assert_eq!(eval_formula("!"), Err(EvalError::InsufficientNotOperand));
    assert_eq!(eval_formula("!1"), Err(EvalError::InsufficientNotOperand));
}

#[test]
fn excess_operands_is_an_error() {
    assert_eq!(eval_formula("0111&&"), Err(EvalError::ExcessOperands));
    assert_eq!(eval_formula("01"), Err(EvalError::ExcessOperands));
}

#[test]
fn unknown_token_is_reported_first() {
    assert_eq!(eval_formula("2&"), Err(EvalError::UnknownToken('2')));
    assert_eq!(eval_formula("(1)"), Err(EvalError::UnknownToken('(')));
    assert_eq!(eval_formula("&1 1"), Err(EvalError::UnknownToken(' ')));
    assert_eq!(eval_formula("A"), Err(EvalError::UnknownToken('A')));
    assert_eq!(
        EvalError::UnknownToken('x').message(),
        "Unknown token: x".to_string()
    );
}

#[test]
fn tokenize_classifies_every_symbol() {
    assert_eq!(
        tokenize("&|^>=10!"),
        Ok(vec![
            Token::Operator(Operator::And),
            Token::Operator(Operator::Or),
            Token::Operator(Operator::Xor),
            Token::Operator(Operator::Implies),
            Token::Operator(Operator::Equiv),
            Token::Operand(Operand::True),
            Token::Operand(Operand::False),
            Token::Operand(Operand::Not),
        ])
    );
    assert_eq!(tokenize(""), Ok(vec![]));
    assert_eq!(tokenize("1\u{e9}"), Err(EvalError::UnknownToken('\u{e9}')));
}

use boolean_logic::eval_formula::{eval_formula, EvalError, Operator};
use boolean_logic::truth_table::{
    extract_variables, is_valid_parsing, print_truth_table, render_table, substitute_variables,
    truth_table,
};

#[test]
fn test_extract_variables() {
    let formula = "ABCA&D>".to_string();
    let vars = extract_variables(&formula);
    assert_eq!(vars, vec!['A', 'B', 'C', 'D']);
}

#[test]
fn extract_variables_sorts_and_dedups() {
    assert_eq!(extract_variables(&"DCBA&&&".to_string()), vec!['A', 'B', 'C', 'D']);
    assert_eq!(extract_variables(&"ZAZ!a1".to_string()), vec!['A', 'Z']);
    assert_eq!(extract_variables(&"10&".to_string()), Vec::<char>::new());
    assert_eq!(extract_variables(&String::new()), Vec::<char>::new());
}

#[test]
fn test_substitute_variables() {
    let formula = "AB&C>".to_string();
    let variables = vec!['A', 'B', 'C'];
    let values = vec![true, false, true];
    let substituted = substitute_variables(&formula, &values, &variables);
    assert_eq!(substituted, "10&1>");
}

#[test]
fn substitution_replaces_every_occurrence() {
    let formula = "AB>A>A>".to_string();
    let substituted = substitute_variables(&formula, &vec![false, true], &vec!['A', 'B']);
    assert_eq!(substituted, "01>0>0>");
    let untouched = substitute_variables(&formula, &vec![], &vec![]);
    assert_eq!(untouched, "AB>A>A>");
}

#[test]
fn substitution_then_evaluation_matches_the_table() {
    let formula = "AB>C&".to_string();
    let vars = extract_variables(&formula);
    let table = truth_table("AB>C&").unwrap();
    assert_eq!(table.rows.len(), 8);
    for row in &table.rows {
        let s = substitute_variables(&formula, &row.values, &vars);
        assert_eq!(eval_formula(&s), Ok(row.result));
        let expected = (!row.values[0] || row.values[1]) && row.values[2];
        assert_eq!(row.result, expected);
    }
}

#[test]
fn test_is_valid_parsing() {
    let formula = "AB&C>".to_string();
    let result = is_valid_parsing(&formula).unwrap();
    assert!(result);

    let invalid_formula = "AB&>".to_string();
    let result_invalid = is_valid_parsing(&invalid_formula);
    assert!(result_invalid.is_err());
}

#[test]
fn is_valid_parsing_reports_the_error() {
    assert_eq!(
        is_valid_parsing(&"AB&>".to_string()),
        Err(EvalError::InsufficientOperands(Operator::Implies))
    );
    assert_eq!(is_valid_parsing(&"AB".to_string()), Err(EvalError::ExcessOperands));
    assert_eq!(is_valid_parsing(&"A!B".to_string()), Err(EvalError::ExcessOperands));
    assert_eq!(is_valid_parsing(&"Ab&".to_string()), Err(EvalError::UnknownToken('b')));
    assert_eq!(is_valid_parsing(&String::new()), Err(EvalError::EmptyFormula));
    assert_eq!(is_valid_parsing(&"A!".to_string()), Ok(false));
}

#[test]
fn test_print_truth_table() {
    assert_eq!(
        print_truth_table("A").unwrap(),
        vec!["| A | = |", "|---|---|", "| 0 | 0 |", "| 1 | 1 |"]
    );
    assert_eq!(
        print_truth_table("AB&").unwrap(),
        vec![
            "| A | B | = |",
            "|---|---|---|",
            "| 0 | 0 | 0 |",
            "| 0 | 1 | 0 |",
            "| 1 | 0 | 0 |",
            "| 1 | 1 | 1 |",
        ]
    );
    let lines = print_truth_table("AB>A>A>").unwrap();
    assert_eq!(lines.len(), 6);
    assert_eq!(lines[0], "| A | B | = |");
    assert_eq!(lines[2], "| 0 | 0 | 1 |");
    assert_eq!(lines[3], "| 0 | 1 | 1 |");
    assert_eq!(lines[4], "| 1 | 0 | 1 |");
    assert_eq!(lines[5], "| 1 | 1 | 1 |");
}

#[test]
fn row_count_is_two_to_the_variable_count() {
    assert_eq!(truth_table("10&").unwrap().rows.len(), 1);
    assert_eq!(truth_table("A").unwrap().rows.len(), 2);
    assert_eq!(truth_table("AB&").unwrap().rows.len(), 4);
    assert_eq!(truth_table("ABC&&D|E^").unwrap().rows.len(), 32);
}

#[test]
fn zero_variable_table_has_one_row() {
    let table = truth_table("10|").unwrap();
    assert!(table.variables.is_empty());
    assert_eq!(table.rows.len(), 1);
    assert!(table.rows[0].values.is_empty());
    assert_eq!(table.rows[0].result, true);
    assert_eq!(
        render_table(&table),
        vec!["| = |", "|---|", "| 1 |"]
    );
}

#[test]
fn and_table_rows_in_order() {
    let table = truth_table("AB&").unwrap();
    assert_eq!(table.variables, vec!['A', 'B']);
    let rows: Vec<(Vec<bool>, bool)> = table
        .rows
        .iter()
        .map(|r| (r.values.clone(), r.result))
        .collect();
    assert_eq!(
        rows,
        vec![
            (vec![false, false], false),
            (vec![false, true], false),
            (vec![true, false], false),
            (vec![true, true], true),
        ]
    );
}

#[test]
fn truth_table_errors_print_nothing() {
    assert!(matches!(truth_table(""), Err(EvalError::EmptyFormula)));
    assert!(matches!(
        truth_table("AB&>"),
        Err(EvalError::InsufficientOperands(Operator::Implies))
    ));
    assert_eq!(print_truth_table("AB"), Err(EvalError::ExcessOperands));
    assert_eq!(print_truth_table("A("), Err(EvalError::UnknownToken('(')));
    assert_eq!(print_truth_table(""), Err(EvalError::EmptyFormula));
}

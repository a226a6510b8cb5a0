//! Variables of a formula, substitution, and the truth table that enumerates
//! every assignment of the variables.
use vstd::prelude::*;
use vstd::arithmetic::power2::pow2;
use vstd::string::StringExecFns;
use crate::eval_formula::{
    digit, eval_formula, evaluation, evaluation_with, lemma_evaluates_under_every_assignment,
    position_of, push_char, token_with, tokens_with, EvalError,
};

verus! {

/// `c` is an uppercase ASCII letter, the only symbols that name variables.
pub open spec fn is_upper(c: char) -> bool {
    'A' <= c <= 'Z'
}

/// Characters of `vs` ascend strictly.
pub open spec fn strictly_ascending(vs: Seq<char>) -> bool {
    forall|i: int, j: int| 0 <= i < j < vs.len() ==> vs[i] < vs[j]
}

/// `vs` is the variable set of `s`: its uppercase letters, each once, in
/// ascending order.
pub open spec fn is_variable_set(vs: Seq<char>, s: Seq<char>) -> bool {
    &&& strictly_ascending(vs)
    &&& forall|c: char| vs.contains(c) <==> (is_upper(c) && s.contains(c))
}

/// The variable set of `s`.
pub open spec fn variables_of(s: Seq<char>) -> Seq<char> {
    choose|vs: Seq<char>| is_variable_set(vs, s)
}

/// Two strictly ascending sequences with the same elements are equal.
pub proof fn lemma_ascending_unique(a: Seq<char>, b: Seq<char>)
    requires
        strictly_ascending(a),
        strictly_ascending(b),
        forall|c: char| a.contains(c) <==> b.contains(c),
    ensures
        a == b,
    decreases a.len() + b.len(),
{
    if a.len() > 0 && b.len() > 0 {
        assert(a.contains(a[0]));
        assert(b.contains(b[0]));
        let ia = choose|i: int| 0 <= i < a.len() && a[i] == b[0];
        let ib = choose|i: int| 0 <= i < b.len() && b[i] == a[0];
        assert(a[0] == b[0]) by {
            if ia > 0 {
                assert(a[0] < a[ia]);
            }
            if ib > 0 {
                assert(b[0] < b[ib]);
            }
        }
        let a1 = a.drop_first();
        let b1 = b.drop_first();
        assert forall|c: char| a1.contains(c) <==> b1.contains(c) by {
            if a1.contains(c) {
                let i = choose|i: int| 0 <= i < a1.len() && a1[i] == c;
                assert(a.contains(c) && a[i + 1] == c);
                assert(c != a[0]);
                let j = choose|j: int| 0 <= j < b.len() && b[j] == c;
                assert(j > 0);
                assert(b1[j - 1] == c);
            }
            if b1.contains(c) {
                let i = choose|i: int| 0 <= i < b1.len() && b1[i] == c;
                assert(b.contains(c) && b[i + 1] == c);
                assert(c != b[0]);
                let j = choose|j: int| 0 <= j < a.len() && a[j] == c;
                assert(j > 0);
                assert(a1[j - 1] == c);
            }
        }
        lemma_ascending_unique(a1, b1);
        assert(a == seq![a[0]] + a1);
        assert(b == seq![b[0]] + b1);
    } else if a.len() > 0 {
        assert(a.contains(a[0]));
    } else if b.len() > 0 {
        assert(b.contains(b[0]));
    }
}

/// Any variable set is the variable set.
pub proof fn lemma_variable_set_is_variables_of(vs: Seq<char>, s: Seq<char>)
    requires
        is_variable_set(vs, s),
    ensures
        variables_of(s) == vs,
{
    let w = variables_of(s);
    assert(is_variable_set(w, s));
    assert forall|c: char| w.contains(c) <==> vs.contains(c) by {
        assert(w.contains(c) <==> (is_upper(c) && s.contains(c)));
        assert(vs.contains(c) <==> (is_upper(c) && s.contains(c)));
    }
    lemma_ascending_unique(w, vs);
}

/// A formula has at most 26 variables.
pub proof fn lemma_variable_count(vs: Seq<char>, s: Seq<char>)
    requires
        is_variable_set(vs, s),
    ensures
        vs.len() <= 26,
{
    if vs.len() > 0 {
        assert forall|k: int| 0 <= k < vs.len() implies is_upper(vs[k]) by {
            assert(vs.contains(vs[k]));
        }
        assert forall|i: int| 0 <= i < vs.len() implies (vs[i] as int) >= 65 + i by {
            lemma_ascending_from(vs, i);
        }
        let l = vs.len() - 1;
        assert((vs[l] as int) >= 65 + l);
        assert(vs[l] <= 'Z');
        assert(('Z' as int) == 90);
    }
}

/// Each element of a strictly ascending sequence of letters lies at least its
/// index above the first letter.
proof fn lemma_ascending_from(vs: Seq<char>, i: int)
    requires
        strictly_ascending(vs),
        0 <= i < vs.len(),
        forall|k: int| 0 <= k < vs.len() ==> 'A' <= vs[k],
    ensures
        (vs[i] as int) >= 65 + i,
    decreases i,
{
    if i > 0 {
        lemma_ascending_from(vs, i - 1);
    }
}

/// The elements of `s` with `c` pushed are those of `s` and `c`.
proof fn lemma_push_contains(s: Seq<char>, c: char)
    ensures
        forall|d: char| #[trigger] s.push(c).contains(d) <==> (s.contains(d) || d == c),
{
    let t = s.push(c);
    assert forall|d: char| #[trigger] t.contains(d) <==> (s.contains(d) || d == c) by {
        if t.contains(d) {
            let i = choose|i: int| 0 <= i < t.len() && t[i] == d;
            if i < s.len() {
                assert(s[i] == d);
            }
        }
        if s.contains(d) {
            let i = choose|i: int| 0 <= i < s.len() && s[i] == d;
            assert(t[i] == d);
        }
        if d == c {
            assert(t[s.len() as int] == d);
        }
    }
}

/// Inserting `c` where every earlier letter is smaller and every later one is
/// larger keeps a sequence strictly ascending and adds just `c`.
proof fn lemma_sorted_insert(s: Seq<char>, p: int, c: char)
    requires
        strictly_ascending(s),
        0 <= p <= s.len(),
        forall|q: int| 0 <= q < p ==> s[q] < c,
        forall|q: int| p <= q < s.len() ==> s[q] > c,
    ensures
        strictly_ascending(s.insert(p, c)),
        forall|d: char| #[trigger] s.insert(p, c).contains(d) <==> (s.contains(d) || d == c),
{
    let t = s.insert(p, c);
    assert forall|d: char| #[trigger] t.contains(d) <==> (s.contains(d) || d == c) by {
        if t.contains(d) {
            let i = choose|i: int| 0 <= i < t.len() && t[i] == d;
            if i < p {
                assert(s[i] == d);
            } else if i > p {
                assert(s[i - 1] == d);
            }
        }
        if s.contains(d) {
            let i = choose|i: int| 0 <= i < s.len() && s[i] == d;
            if i < p {
                assert(t[i] == d);
            } else {
                assert(t[i + 1] == d);
            }
        }
        if d == c {
            assert(t[p] == d);
        }
    }
}

/// The variable set of `formula`: its uppercase letters, each once, in
/// ascending order.
pub fn extract_variables(formula: &String) -> (r: Vec<char>)
    ensures
        is_variable_set(r@, formula@),
        r@ == variables_of(formula@),
{
    let mut vars: Vec<char> = Vec::new();
    for c in it: formula.as_str().chars()
        invariant
            it.seq() == formula@,
            strictly_ascending(vars@),
            forall|d: char|
                #[trigger] vars@.contains(d) <==> (is_upper(d) && formula@.subrange(
                    0,
                    it.index() as int,
                ).contains(d)),
    {
        let ghost k = it.index();
        let ghost before = vars@;
        let ghost pre = formula@.subrange(0, k as int);
        let ghost post = formula@.subrange(0, k + 1);
        proof {
            assert(post == pre.push(c));
            lemma_push_contains(pre, c);
        }
        if 'A' <= c && c <= 'Z' {
            let mut p: usize = 0;
            while p < vars.len() && vars[p] < c
                invariant
                    vars@ == before,
                    p <= vars.len(),
                    forall|q: int| 0 <= q < p ==> vars@[q] < c,
                decreases vars.len() - p,
            {
                p = p + 1;
            }
            if p == vars.len() || vars[p] != c {
                proof {
                    lemma_sorted_insert(before, p as int, c);
                }
                vars.insert(p, c);
            } else {
                assert(before.contains(c) && before[p as int] == c);
            }
        }
        assert forall|d: char| #[trigger] vars@.contains(d) <==> (is_upper(d) && post.contains(d))
            by {
            assert(before.contains(d) <==> (is_upper(d) && pre.contains(d)));
        }
    }
    assert(formula@.subrange(0, formula@.len() as int) == formula@);
    proof {
        lemma_variable_set_is_variables_of(vars@, formula@);
    }
    vars
}

/// The symbol that stands for `c` once each variable in `vars` is replaced by
/// the digit of the value at the same position in `vals`.
pub open spec fn substituted_char(c: char, vars: Seq<char>, vals: Seq<bool>) -> char {
    match position_of(vars, c) {
        Some(i) => if vals[i] {
            '1'
        } else {
            '0'
        },
        None => c,
    }
}

/// `s` with each variable in `vars` replaced by the digit of its value.
pub open spec fn substituted(s: Seq<char>, vars: Seq<char>, vals: Seq<bool>) -> Seq<char> {
    s.map_values(|c: char| substituted_char(c, vars, vals))
}

/// The first occurrence of `c` in `vars` is at `j`.
proof fn lemma_position_found(vars: Seq<char>, c: char, j: int)
    requires
        0 <= j < vars.len(),
        vars[j] == c,
        forall|q: int| 0 <= q < j ==> vars[q] != c,
    ensures
        position_of(vars, c) == Some(j),
    decreases j,
{
    if j > 0 {
        lemma_position_found(vars.drop_first(), c, j - 1);
    }
}

/// A character that does not occur in `vars` has no position there.
proof fn lemma_position_absent(vars: Seq<char>, c: char)
    requires
        forall|q: int| 0 <= q < vars.len() ==> vars[q] != c,
    ensures
        position_of(vars, c) is None,
    decreases vars.len(),
{
    if vars.len() > 0 {
        lemma_position_absent(vars.drop_first(), c);
    }
}

/// `formula` with every occurrence of each variable replaced by `1` or `0`,
/// the value at its position in `values`.
pub fn substitute_variables(formula: &String, values: &Vec<bool>, variables: &Vec<char>) -> (r:
    String)
    requires
        values.len() == variables.len(),
    ensures
        r@ == substituted(formula@, variables@, values@),
{
    let mut out = String::new();
    for c in it: formula.as_str().chars()
        invariant
            it.seq() == formula@,
            values.len() == variables.len(),
            out@ == substituted(formula@.subrange(0, it.index() as int), variables@, values@),
    {
        let ghost k = it.index();
        let mut j: usize = 0;
        while j < variables.len() && variables[j] != c
            invariant
                j <= variables.len(),
                forall|q: int| 0 <= q < j ==> variables@[q] != c,
            decreases variables.len() - j,
        {
            j = j + 1;
        }
        let d = if j < variables.len() {
            proof {
                lemma_position_found(variables@, c, j as int);
            }
            if values[j] {
                '1'
            } else {
                '0'
            }
        } else {
            proof {
                lemma_position_absent(variables@, c);
            }
            c
        };
        push_char(&mut out, d);
        assert(formula@.subrange(0, k + 1) == formula@.subrange(0, k as int).push(c));
        assert(substituted(formula@.subrange(0, k + 1), variables@, values@) == substituted(
            formula@.subrange(0, k as int),
            variables@,
            values@,
        ).push(d));
    }
    assert(formula@.subrange(0, formula@.len() as int) == formula@);
    out
}

/// Tokenizing a substituted formula gives the tokens of the formula read
/// under the assignment.
proof fn lemma_tokens_substituted(s: Seq<char>, vars: Seq<char>, vals: Seq<bool>)
    ensures
        tokens_with(substituted(s, vars, vals), Seq::empty(), Seq::empty()) == tokens_with(
            s,
            vars,
            vals,
        ),
    decreases s.len(),
{
    let e: Seq<char> = Seq::empty();
    let b: Seq<bool> = Seq::empty();
    let t = substituted(s, vars, vals);
    if s.len() > 0 {
        lemma_tokens_substituted(s.drop_last(), vars, vals);
        assert(t.drop_last() == substituted(s.drop_last(), vars, vals));
        let c = s.last();
        assert(t.last() == substituted_char(c, vars, vals));
        assert(position_of(e, t.last()) is None);
        assert(token_with(t.last(), e, b) == token_with(c, vars, vals));
    }
}

/// Substituting an assignment and evaluating the result is evaluating the
/// formula with each variable read as its assigned value.
pub proof fn lemma_substitution_round_trip(s: Seq<char>, vars: Seq<char>, vals: Seq<bool>)
    ensures
        evaluation(substituted(s, vars, vals)) == evaluation_with(s, vars, vals),
{
    lemma_tokens_substituted(s, vars, vals);
}

/// Every variable set to true.
pub open spec fn all_true(n: nat) -> Seq<bool> {
    Seq::new(n, |j: int| true)
}

/// Checks that `formula` is well formed by evaluating it with every variable
/// set to true; a formula that evaluates under one assignment evaluates under
/// all of them.
pub fn is_valid_parsing(formula: &String) -> (r: Result<bool, EvalError>)
    ensures
        r == evaluation_with(
            formula@,
            variables_of(formula@),
            all_true(variables_of(formula@).len()),
        ),
{
    let variables = extract_variables(formula);
    let mut values: Vec<bool> = Vec::new();
    for j in 0..variables.len()
        invariant
            values@ == all_true(j as nat),
    {
        values.push(true);
        assert(values@ =~= all_true((j + 1) as nat));
    }
    let test_formula = substitute_variables(formula, &values, &variables);
    proof {
        lemma_substitution_round_trip(formula@, variables@, values@);
    }
    eval_formula(test_formula.as_str())
}

/// One row of a truth table: the value of each variable, and of the formula.
pub struct Row {
    pub values: Vec<bool>,
    pub result: bool,
}

/// The truth table of a formula: its variables and one row per assignment.
pub struct TruthTable {
    pub variables: Vec<char>,
    pub rows: Vec<Row>,
}

/// The assignment of row `i` over `n` variables: variable `j` takes bit
/// `n - j - 1` of `i`, so the first variable is the most significant.
pub open spec fn row_values(i: u32, n: nat) -> Seq<bool> {
    Seq::new(n, |j: int| (i >> ((n - 1 - j) as u32)) & 1 == 1)
}

/// `t` is the truth table of formula `s`: its variable set, and for each of
/// the `2^n` row indices in ascending order the assignment of that index with
/// the formula's value under it.
pub open spec fn is_table_of(t: TruthTable, s: Seq<char>) -> bool {
    let vars = variables_of(s);
    let n = vars.len();
    &&& t.variables@ == vars
    &&& t.rows@.len() == pow2(n)
    &&& forall|i: int|
        #![trigger t.rows@[i]]
        0 <= i < t.rows@.len() ==> {
            &&& t.rows@[i].values@ == row_values(i as u32, n)
            &&& evaluation_with(s, vars, t.rows@[i].values@) == Ok::<bool, EvalError>(
                t.rows@[i].result,
            )
        }
}

/// Builds the truth table of `formula`, after checking once that it is well
/// formed; fails with the error of that check.
pub fn truth_table(formula: &str) -> (r: Result<TruthTable, EvalError>)
    ensures
        r is Ok == evaluation_with(
            formula@,
            variables_of(formula@),
            all_true(variables_of(formula@).len()),
        ) is Ok,
        match r {
            Ok(t) => is_table_of(t, formula@),
            Err(e) => evaluation_with(
                formula@,
                variables_of(formula@),
                all_true(variables_of(formula@).len()),
            ) == Err::<bool, EvalError>(e),
        },
{
    if formula.is_empty() {
        return Err(EvalError::EmptyFormula);
    }
    let f = String::from_str(formula);
    match is_valid_parsing(&f) {
        Ok(_) => {},
        Err(e) => return Err(e),
    }
    let variables = extract_variables(&f);
    let ghost vars = variables@;
    let n = variables.len();
    proof {
        lemma_variable_count(vars, f@);
        vstd::bits::lemma_u32_pow2_no_overflow(n as nat);
        vstd::bits::lemma_u32_shl_is_mul(1, n as u32);
        vstd::arithmetic::power2::lemma_pow2_pos(n as nat);
    }
    let count: u32 = 1u32 << (n as u32);
    let mut rows: Vec<Row> = Vec::new();
    for i in 0..count
        invariant
            f@ == formula@,
            vars == variables@,
            vars == variables_of(formula@),
            n == vars.len(),
            n <= 26,
            count == pow2(n as nat),
            evaluation_with(formula@, vars, all_true(n as nat)) is Ok,
            rows@.len() == i,
            forall|k: int|
                #![trigger rows@[k]]
                0 <= k < i ==> {
                    &&& rows@[k].values@ == row_values(k as u32, n as nat)
                    &&& evaluation_with(formula@, vars, rows@[k].values@) == Ok::<
                        bool,
                        EvalError,
                    >(rows@[k].result)
                },
    {
        let mut values: Vec<bool> = Vec::new();
        for j in 0..n
            invariant
                n <= 26,
                values@ == row_values(i, n as nat).subrange(0, j as int),
        {
            values.push((i >> ((n - j - 1) as u32)) & 1 == 1);
            assert(values@ =~= row_values(i, n as nat).subrange(0, j + 1));
        }
        assert(values@ =~= row_values(i, n as nat));
        let substituted_formula = substitute_variables(&f, &values, &variables);
        proof {
            lemma_substitution_round_trip(formula@, vars, values@);
            lemma_evaluates_under_every_assignment(formula@, vars, all_true(n as nat), values@);
        }
        match eval_formula(substituted_formula.as_str()) {
            Ok(v) => {
                rows.push(Row { values, result: v });
            },
            Err(e) => return Err(e),
        }
    }
    Ok(TruthTable { variables, rows })
}

/// A table cell: the symbol padded by a space on each side, then a bar.
pub open spec fn cell(c: char) -> Seq<char> {
    seq![' ', c, ' ', '|']
}

/// The cells of each symbol of `cs`, in order.
pub open spec fn cells(cs: Seq<char>) -> Seq<char>
    decreases cs.len(),
{
    if cs.len() == 0 {
        Seq::empty()
    } else {
        cells(cs.drop_last()) + cell(cs.last())
    }
}

/// The header line: the variable names, then `=` over the result column.
pub open spec fn header_line(vars: Seq<char>) -> Seq<char> {
    seq!['|'] + cells(vars) + cell('=')
}

/// `k` separator cells.
pub open spec fn dashes(k: nat) -> Seq<char>
    decreases k,
{
    if k == 0 {
        Seq::empty()
    } else {
        dashes((k - 1) as nat) + seq!['-', '-', '-', '|']
    }
}

/// The line under the header: one separator cell per variable and one for
/// the result.
pub open spec fn separator_line(n: nat) -> Seq<char> {
    seq!['|'] + dashes(n + 1)
}

/// The line of one row: the digit of each variable, then of the result.
pub open spec fn row_line(vals: Seq<bool>, result: bool) -> Seq<char> {
    seq!['|'] + cells(vals.map_values(|b: bool| digit(b))) + cell(digit(result))
}

fn digit_of(b: bool) -> (r: char)
    ensures
        r == digit(b),
{
    if b {
        '1'
    } else {
        '0'
    }
}

fn push_cell(line: &mut String, c: char)
    ensures
        final(line)@ == old(line)@ + cell(c),
{
    push_char(line, ' ');
    push_char(line, c);
    push_char(line, ' ');
    push_char(line, '|');
    assert(final(line)@ =~= old(line)@ + cell(c));
}

fn push_dashes(line: &mut String)
    ensures
        final(line)@ == old(line)@ + seq!['-', '-', '-', '|'],
{
    push_char(line, '-');
    push_char(line, '-');
    push_char(line, '-');
    push_char(line, '|');
    assert(final(line)@ =~= old(line)@ + seq!['-', '-', '-', '|']);
}

/// The lines that show `t`: the header, the separator, then one line per row
/// in order.
pub fn render_table(t: &TruthTable) -> (lines: Vec<String>)
    ensures
        lines@.len() == t.rows@.len() + 2,
        lines@[0]@ == header_line(t.variables@),
        lines@[1]@ == separator_line(t.variables@.len()),
        forall|i: int|
            #![trigger t.rows@[i]]
            0 <= i < t.rows@.len() ==> lines@[i + 2]@ == row_line(
                t.rows@[i].values@,
                t.rows@[i].result,
            ),
{
    let mut lines: Vec<String> = Vec::new();
    let mut header = String::new();
    push_char(&mut header, '|');
    for j in 0..t.variables.len()
        invariant
            header@ == seq!['|'] + cells(t.variables@.subrange(0, j as int)),
    {
        push_cell(&mut header, t.variables[j]);
        assert(t.variables@.subrange(0, j + 1).drop_last() == t.variables@.subrange(0, j as int));
    }
    assert(t.variables@.subrange(0, t.variables@.len() as int) == t.variables@);
    push_cell(&mut header, '=');
    lines.push(header);
    let mut separator = String::new();
    push_char(&mut separator, '|');
    for j in 0..t.variables.len()
        invariant
            separator@ == seq!['|'] + dashes(j as nat),
    {
        push_dashes(&mut separator);
        assert(separator@ =~= seq!['|'] + dashes((j + 1) as nat));
    }
    push_dashes(&mut separator);
    assert(separator@ =~= seq!['|'] + dashes((t.variables@.len() + 1) as nat));
    lines.push(separator);
    for i in 0..t.rows.len()
        invariant
            lines@.len() == i + 2,
            lines@[0]@ == header_line(t.variables@),
            lines@[1]@ == separator_line(t.variables@.len()),
            forall|k: int|
                #![trigger t.rows@[k]]
                0 <= k < i ==> lines@[k + 2]@ == row_line(t.rows@[k].values@, t.rows@[k].result),
    {
        let row = &t.rows[i];
        let ghost shown = row.values@.map_values(|b: bool| digit(b));
        let mut line = String::new();
        push_char(&mut line, '|');
        for j in 0..row.values.len()
            invariant
                shown == row.values@.map_values(|b: bool| digit(b)),
                line@ == seq!['|'] + cells(shown.subrange(0, j as int)),
        {
            push_cell(&mut line, digit_of(row.values[j]));
            assert(shown.subrange(0, j + 1).drop_last() == shown.subrange(0, j as int));
        }
        assert(shown.subrange(0, shown.len() as int) == shown);
        push_cell(&mut line, digit_of(row.result));
        lines.push(line);
    }
    lines
}

/// The lines that print the truth table of `formula`: the header, the
/// separator, then the row of each of the `2^n` assignments of its `n`
/// variables in ascending row order; or the error of the well-formedness check.
pub fn print_truth_table(formula: &str) -> (r: Result<Vec<String>, EvalError>)
    ensures
        r is Ok == evaluation_with(
            formula@,
            variables_of(formula@),
            all_true(variables_of(formula@).len()),
        ) is Ok,
        match r {
            Ok(lines) => {
                let vars = variables_of(formula@);
                let n = vars.len();
                &&& lines@.len() == pow2(n) + 2
                &&& lines@[0]@ == header_line(vars)
                &&& lines@[1]@ == separator_line(n)
                &&& forall|i: int|
                    0 <= i < pow2(n) ==> #[trigger] lines@[i + 2]@ == row_line(
                        row_values(i as u32, n),
                        evaluation_with(formula@, vars, row_values(i as u32, n))->Ok_0,
                    )
            },
            Err(e) => evaluation_with(
                formula@,
                variables_of(formula@),
                all_true(variables_of(formula@).len()),
            ) == Err::<bool, EvalError>(e),
        },
{
    match truth_table(formula) {
        Ok(t) => {
            let lines = render_table(&t);
            assert forall|i: int| 0 <= i < t.rows@.len() implies #[trigger] lines@[i + 2]@
                == row_line(
                row_values(i as u32, t.variables@.len()),
                evaluation_with(formula@, t.variables@, row_values(i as u32, t.variables@.len()))->Ok_0,
            ) by {
                let row = t.rows@[i];
            }
            Ok(lines)
        },
        Err(e) => Err(e),
    }
}

} // verus!

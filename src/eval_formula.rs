//! Tokenizing and evaluating postfix boolean formulas on a stack.
use vstd::prelude::*;
use vstd::string::StringExecFns;

verus! {

/// A binary connective: it pops two values and pushes one.
#[derive(Clone, Copy, Debug, PartialEq, Eq, Structural)]
pub enum Operator {
    And,
    Or,
    Xor,
    Implies,
    Equiv,
}

/// A literal, or negation, which pops one value and pushes one.
#[derive(Clone, Copy, Debug, PartialEq, Eq, Structural)]
pub enum Operand {
    False,
    True,
    Not,
}

/// One classified symbol of a formula.
#[derive(Clone, Copy, Debug, PartialEq, Eq, Structural)]
pub enum Token {
    Operator(Operator),
    Operand(Operand),
}

/// Why a formula could not be evaluated.
#[derive(Clone, Copy, Debug, PartialEq, Eq, Structural)]
pub enum EvalError {
    UnknownToken(char),
    EmptyFormula,
    InsufficientOperands(Operator),
    InsufficientNotOperand,
    ExcessOperands,
}

/// The text that describes an error.
pub open spec fn message_of(e: EvalError) -> Seq<char> {
    match e {
        EvalError::UnknownToken(c) => "Unknown token: "@.push(c),
        EvalError::EmptyFormula => "Cannot evaluate an empty formula"@,
        EvalError::InsufficientOperands(_) => "Unsufficient operands befor operator"@,
        EvalError::InsufficientNotOperand => "Unsufficient operands before NOT operator"@,
        EvalError::ExcessOperands => "Too many operands left on the stack"@,
    }
}

/// Relies on String::push: appends one character.
#[verifier::external_body]
pub(crate) fn push_char(s: &mut String, c: char)
    ensures
        final(s)@ == old(s)@.push(c),
{
    s.push(c)
}

impl EvalError {
    /// The text that describes this error.
    pub fn message(&self) -> (r: String)
        ensures
            r@ == message_of(*self),
    {
        match self {
            EvalError::UnknownToken(c) => {
                let mut m = String::from_str("Unknown token: ");
                push_char(&mut m, *c);
                m
            },
            EvalError::EmptyFormula => String::from_str("Cannot evaluate an empty formula"),
            EvalError::InsufficientOperands(_) => String::from_str(
                "Unsufficient operands befor operator",
            ),
            EvalError::InsufficientNotOperand => String::from_str(
                "Unsufficient operands before NOT operator",
            ),
            EvalError::ExcessOperands => String::from_str("Too many operands left on the stack"),
        }
    }
}

/// The token that a symbol stands for, if any.
pub open spec fn token_of(c: char) -> Option<Token> {
    if c == '&' {
        Some(Token::Operator(Operator::And))
    } else if c == '|' {
        Some(Token::Operator(Operator::Or))
    } else if c == '^' {
        Some(Token::Operator(Operator::Xor))
    } else if c == '>' {
        Some(Token::Operator(Operator::Implies))
    } else if c == '=' {
        Some(Token::Operator(Operator::Equiv))
    } else if c == '1' {
        Some(Token::Operand(Operand::True))
    } else if c == '0' {
        Some(Token::Operand(Operand::False))
    } else if c == '!' {
        Some(Token::Operand(Operand::Not))
    } else {
        None
    }
}

/// The literal token for `b`.
pub open spec fn literal(b: bool) -> Token {
    if b {
        Token::Operand(Operand::True)
    } else {
        Token::Operand(Operand::False)
    }
}

/// Position of the first occurrence of `c` in `vars`, if any.
pub open spec fn position_of(vars: Seq<char>, c: char) -> Option<int>
    decreases vars.len(),
{
    if vars.len() == 0 {
        None
    } else if vars[0] == c {
        Some(0)
    } else {
        match position_of(vars.drop_first(), c) {
            Some(i) => Some(i + 1),
            None => None,
        }
    }
}

/// The token for `c` when each variable in `vars` reads as the value at the
/// same position in `vals`: a variable is a literal, any other symbol keeps its
/// meaning.
pub open spec fn token_with(c: char, vars: Seq<char>, vals: Seq<bool>) -> Option<Token> {
    match position_of(vars, c) {
        Some(i) => Some(literal(vals[i])),
        None => token_of(c),
    }
}

/// The token sequence of `s` (variables read as in `token_with`), or the
/// first symbol that has no token.
pub open spec fn tokens_with(s: Seq<char>, vars: Seq<char>, vals: Seq<bool>) -> Result<
    Seq<Token>,
    EvalError,
>
    decreases s.len(),
{
    if s.len() == 0 {
        Ok(Seq::empty())
    } else {
        match tokens_with(s.drop_last(), vars, vals) {
            Err(e) => Err(e),
            Ok(ts) => match token_with(s.last(), vars, vals) {
                Some(t) => Ok(ts.push(t)),
                None => Err(EvalError::UnknownToken(s.last())),
            },
        }
    }
}

/// The token sequence of a formula without variables.
pub open spec fn tokens_of(s: Seq<char>) -> Result<Seq<Token>, EvalError> {
    tokens_with(s, Seq::empty(), Seq::empty())
}

/// The value of a binary connective on its left and right operands.
pub open spec fn apply_operator(op: Operator, v1: bool, v2: bool) -> bool {
    match op {
        Operator::And => v1 && v2,
        Operator::Or => v1 || v2,
        Operator::Xor => v1 != v2,
        Operator::Implies => !v1 || v2,
        Operator::Equiv => v1 == v2,
    }
}

/// The stack after one more token, or the error that token raises.
pub open spec fn step(st: Seq<bool>, t: Token) -> Result<Seq<bool>, EvalError> {
    match t {
        Token::Operator(op) => if st.len() < 2 {
            Err(EvalError::InsufficientOperands(op))
        } else {
            Ok(
                st.subrange(0, st.len() - 2).push(
                    apply_operator(op, st[st.len() - 2], st[st.len() - 1]),
                ),
            )
        },
        Token::Operand(Operand::True) => Ok(st.push(true)),
        Token::Operand(Operand::False) => Ok(st.push(false)),
        Token::Operand(Operand::Not) => if st.len() < 1 {
            Err(EvalError::InsufficientNotOperand)
        } else {
            Ok(st.drop_last().push(!st.last()))
        },
    }
}

/// The stack after running `ts` from an empty stack, or the first error.
pub open spec fn run(ts: Seq<Token>) -> Result<Seq<bool>, EvalError>
    decreases ts.len(),
{
    if ts.len() == 0 {
        Ok(Seq::empty())
    } else {
        match run(ts.drop_last()) {
            Err(e) => Err(e),
            Ok(st) => step(st, ts.last()),
        }
    }
}

/// The value of formula `s`, each variable in `vars` reading as the value at
/// the same position in `vals`: an empty formula, a symbol without a token, a
/// stack underflow and more than one value left over are the errors, in that
/// order of precedence.
pub open spec fn evaluation_with(s: Seq<char>, vars: Seq<char>, vals: Seq<bool>) -> Result<
    bool,
    EvalError,
> {
    if s.len() == 0 {
        Err(EvalError::EmptyFormula)
    } else {
        match tokens_with(s, vars, vals) {
            Err(e) => Err(e),
            Ok(ts) => match run(ts) {
                Err(e) => Err(e),
                Ok(st) => if st.len() == 1 {
                    Ok(st[0])
                } else {
                    Err(EvalError::ExcessOperands)
                },
            },
        }
    }
}

/// The value of a formula without variables.
pub open spec fn evaluation(s: Seq<char>) -> Result<bool, EvalError> {
    evaluation_with(s, Seq::empty(), Seq::empty())
}

/// An error in a prefix of a formula is the error of the whole formula.
pub proof fn lemma_tokens_prefix_error(s: Seq<char>, k: int, vars: Seq<char>, vals: Seq<bool>)
    requires
        0 <= k <= s.len(),
        tokens_with(s.subrange(0, k), vars, vals) is Err,
    ensures
        tokens_with(s, vars, vals) == tokens_with(s.subrange(0, k), vars, vals),
    decreases s.len() - k,
{
    if k < s.len() {
        assert(s.subrange(0, k + 1).drop_last() == s.subrange(0, k));
        lemma_tokens_prefix_error(s, k + 1, vars, vals);
    } else {
        assert(s.subrange(0, k) == s);
    }
}

/// An error in running a prefix of a token sequence is the error of the
/// whole run.
pub proof fn lemma_run_prefix_error(ts: Seq<Token>, k: int)
    requires
        0 <= k <= ts.len(),
        run(ts.subrange(0, k)) is Err,
    ensures
        run(ts) == run(ts.subrange(0, k)),
    decreases ts.len() - k,
{
    if k < ts.len() {
        assert(ts.subrange(0, k + 1).drop_last() == ts.subrange(0, k));
        lemma_run_prefix_error(ts, k + 1);
    } else {
        assert(ts.subrange(0, k) == ts);
    }
}

/// A run of at least one token that succeeds leaves at least one value.
pub proof fn lemma_run_nonempty(ts: Seq<Token>)
    requires
        ts.len() > 0,
        run(ts) is Ok,
    ensures
        run(ts)->Ok_0.len() >= 1,
    decreases ts.len(),
{
    if ts.len() > 1 {
        lemma_run_nonempty(ts.drop_last());
    }
}

/// `t` pushes a literal value.
pub open spec fn is_literal(t: Token) -> bool {
    t == Token::Operand(Operand::True) || t == Token::Operand(Operand::False)
}

/// Two token sequences that differ at most in which literal stands where.
pub open spec fn same_shape(a: Seq<Token>, b: Seq<Token>) -> bool {
    &&& a.len() == b.len()
    &&& forall|i: int| 0 <= i < a.len() ==> a[i] == b[i] || (is_literal(a[i]) && is_literal(b[i]))
}

/// Reading the variables under two assignments gives the same error, or
/// token sequences of the same shape.
proof fn lemma_tokens_shape(s: Seq<char>, vars: Seq<char>, v1: Seq<bool>, v2: Seq<bool>)
    ensures
        tokens_with(s, vars, v1) is Ok == tokens_with(s, vars, v2) is Ok,
        tokens_with(s, vars, v1) is Err ==> tokens_with(s, vars, v1) == tokens_with(s, vars, v2),
        tokens_with(s, vars, v1) is Ok ==> same_shape(
            tokens_with(s, vars, v1)->Ok_0,
            tokens_with(s, vars, v2)->Ok_0,
        ),
    decreases s.len(),
{
    if s.len() > 0 {
        lemma_tokens_shape(s.drop_last(), vars, v1, v2);
    }
}

/// Runs of two token sequences of the same shape fail alike, or leave stacks
/// of the same height.
proof fn lemma_run_shape(a: Seq<Token>, b: Seq<Token>)
    requires
        same_shape(a, b),
    ensures
        run(a) is Ok == run(b) is Ok,
        run(a) is Err ==> run(a) == run(b),
        run(a) is Ok ==> run(a)->Ok_0.len() == run(b)->Ok_0.len(),
    decreases a.len(),
{
    if a.len() > 0 {
        let a1 = a.drop_last();
        let b1 = b.drop_last();
        assert(same_shape(a1, b1)) by {
            assert forall|i: int| 0 <= i < a1.len() implies a1[i] == b1[i] || (is_literal(a1[i])
                && is_literal(b1[i])) by {
                assert(a1[i] == a[i] && b1[i] == b[i]);
            }
        }
        lemma_run_shape(a1, b1);
        assert(a.last() == a[a.len() - 1]);
        assert(b.last() == b[b.len() - 1]);
    }
}

/// Whether a formula evaluates does not depend on the values given to its
/// variables: under any two assignments it evaluates under both, or fails
/// with the same error under both.
pub proof fn lemma_evaluates_under_every_assignment(
    s: Seq<char>,
    vars: Seq<char>,
    v1: Seq<bool>,
    v2: Seq<bool>,
)
    ensures
        evaluation_with(s, vars, v1) is Ok == evaluation_with(s, vars, v2) is Ok,
        evaluation_with(s, vars, v1) is Err ==> evaluation_with(s, vars, v1) == evaluation_with(
            s,
            vars,
            v2,
        ),
{
    lemma_tokens_shape(s, vars, v1, v2);
    if tokens_with(s, vars, v1) is Ok {
        lemma_run_shape(tokens_with(s, vars, v1)->Ok_0, tokens_with(s, vars, v2)->Ok_0);
    }
}

/// The symbol of a binary connective.
pub open spec fn symbol(op: Operator) -> char {
    match op {
        Operator::And => '&',
        Operator::Or => '|',
        Operator::Xor => '^',
        Operator::Implies => '>',
        Operator::Equiv => '=',
    }
}

/// The digit that writes a value.
pub open spec fn digit(b: bool) -> char {
    if b {
        '1'
    } else {
        '0'
    }
}

/// A formula of two literals and one connective evaluates to the
/// connective's truth table entry for the two values, the first literal being
/// the left operand.
pub proof fn lemma_single_operator(op: Operator, a: bool, b: bool)
    ensures
        evaluation(seq![digit(a), digit(b), symbol(op)]) == Ok::<bool, EvalError>(
            apply_operator(op, a, b),
        ),
{
    let s = seq![digit(a), digit(b), symbol(op)];
    let e: Seq<char> = Seq::empty();
    let v: Seq<bool> = Seq::empty();
    assert(s.drop_last() == seq![digit(a), digit(b)]);
    assert(s.drop_last().drop_last() == seq![digit(a)]);
    assert(seq![digit(a)].drop_last() == e);
    let ts = seq![literal(a), literal(b), Token::Operator(op)];
    assert(token_with(digit(a), e, v) == Some(literal(a)));
    assert(token_with(digit(b), e, v) == Some(literal(b)));
    assert(token_with(symbol(op), e, v) == Some(Token::Operator(op)));
    assert(Seq::<Token>::empty().push(literal(a)) == seq![literal(a)]);
    assert(tokens_with(e, e, v) == Ok::<Seq<Token>, EvalError>(Seq::empty()));
    assert(seq![digit(a)].last() == digit(a));
    assert(tokens_with(seq![digit(a)], e, v) == Ok::<Seq<Token>, EvalError>(seq![literal(a)]));
    assert(seq![literal(a)].push(literal(b)) == seq![literal(a), literal(b)]);
    assert(seq![literal(a), literal(b)].push(Token::Operator(op)) == ts);
    assert(seq![digit(a), digit(b)].drop_last() == seq![digit(a)]);
    assert(tokens_with(seq![digit(a), digit(b)], e, v) == Ok::<Seq<Token>, EvalError>(
        seq![literal(a), literal(b)],
    ));
    assert(tokens_with(s, e, v) == Ok::<Seq<Token>, EvalError>(ts));
    assert(ts.drop_last() == seq![literal(a), literal(b)]);
    assert(ts.drop_last().drop_last() == seq![literal(a)]);
    assert(seq![literal(a)].drop_last() == Seq::<Token>::empty());
    assert(Seq::<bool>::empty().push(a) == seq![a]);
    assert(step(Seq::<bool>::empty(), literal(a)) == Ok::<Seq<bool>, EvalError>(seq![a]));
    assert(step(seq![a], literal(b)) == Ok::<Seq<bool>, EvalError>(seq![a].push(b)));
    assert(run(Seq::<Token>::empty()) == Ok::<Seq<bool>, EvalError>(Seq::empty()));
    assert(seq![literal(a)].last() == literal(a));
    assert(run(seq![literal(a)]) == Ok::<Seq<bool>, EvalError>(seq![a]));
    assert(seq![a].push(b) == seq![a, b]);
    assert(run(ts.drop_last()) == Ok::<Seq<bool>, EvalError>(seq![a, b]));
    assert(seq![a, b].subrange(0, 0).push(apply_operator(op, a, b)) == seq![apply_operator(op, a, b)]);
}

/// Two negations cancel: appending `!!` to a formula that evaluates leaves its
/// value unchanged.
pub proof fn lemma_double_negation(x: Seq<char>)
    requires
        evaluation(x) is Ok,
    ensures
        evaluation(x + "!!"@) == evaluation(x),
{
    reveal_strlit("!!");
    let e: Seq<char> = Seq::empty();
    let b: Seq<bool> = Seq::empty();
    let x1 = x.push('!');
    let x2 = x1.push('!');
    assert(x + "!!"@ == x2);
    assert(x2.drop_last() == x1);
    assert(x1.drop_last() == x);
    let ts = tokens_with(x, e, b)->Ok_0;
    let not = Token::Operand(Operand::Not);
    assert(position_of(e, '!') is None);
    assert(token_with('!', e, b) == Some(not));
    assert(tokens_with(x1, e, b) == Ok::<Seq<Token>, EvalError>(ts.push(not)));
    assert(tokens_with(x2, e, b) == Ok::<Seq<Token>, EvalError>(ts.push(not).push(not)));
    assert(ts.push(not).push(not).drop_last() == ts.push(not));
    assert(ts.push(not).drop_last() == ts);
    let st = run(ts)->Ok_0;
    assert(st.len() == 1);
    assert(st.drop_last().push(!st.last()) == seq![!st[0]]);
    assert(run(ts.push(not)) == Ok::<Seq<bool>, EvalError>(seq![!st[0]]));
    assert(seq![!st[0]].drop_last().push(!seq![!st[0]].last()) == seq![st[0]]);
}

/// Classifies each symbol of `expr`; fails on the first symbol outside the
/// token alphabet.
pub fn tokenize(expr: &str) -> (r: Result<Vec<Token>, EvalError>)
    ensures
        match r {
            Ok(ts) => tokens_of(expr@) == Ok::<Seq<Token>, EvalError>(ts@),
            Err(e) => tokens_of(expr@) == Err::<Seq<Token>, EvalError>(e),
        },
{
    let mut tokens: Vec<Token> = Vec::new();
    for c in it: expr.chars()
        invariant
            it.seq() == expr@,
            tokens_of(expr@.subrange(0, it.index() as int)) == Ok::<Seq<Token>, EvalError>(tokens@),
    {
        let ghost k = it.index();
        let t = if c == '&' {
            Token::Operator(Operator::And)
        } else if c == '|' {
            Token::Operator(Operator::Or)
        } else if c == '^' {
            Token::Operator(Operator::Xor)
        } else if c == '>' {
            Token::Operator(Operator::Implies)
        } else if c == '=' {
            Token::Operator(Operator::Equiv)
        } else if c == '1' {
            Token::Operand(Operand::True)
        } else if c == '0' {
            Token::Operand(Operand::False)
        } else if c == '!' {
            Token::Operand(Operand::Not)
        } else {
            assert(expr@.subrange(0, k + 1).drop_last() == expr@.subrange(0, k as int));
            proof {
                lemma_tokens_prefix_error(expr@, k + 1, Seq::empty(), Seq::empty());
            }
            return Err(EvalError::UnknownToken(c));
        };
        assert(expr@.subrange(0, k + 1).drop_last() == expr@.subrange(0, k as int));
        tokens.push(t);
    }
    assert(expr@.subrange(0, expr@.len() as int) == expr@);
    Ok(tokens)
}

/// Evaluates a postfix formula of literals and connectives on a stack.
pub fn eval_formula(formula: &str) -> (r: Result<bool, EvalError>)
    ensures
        r == evaluation(formula@),
        formula@.len() == 0 ==> r == Err::<bool, EvalError>(EvalError::EmptyFormula),
{
    if formula.is_empty() {
        return Err(EvalError::EmptyFormula);
    }
    let tokens = match tokenize(formula) {
        Ok(ts) => ts,
        Err(e) => return Err(e),
    };
    let ghost ts = tokens@;
    let mut stack: Vec<bool> = Vec::new();
    let n = tokens.len();
    let mut i: usize = 0;
    while i < n
        invariant
            n == tokens.len(),
            ts == tokens@,
            tokens_of(formula@) == Ok::<Seq<Token>, EvalError>(ts),
            0 <= i <= n,
            run(ts.subrange(0, i as int)) == Ok::<Seq<bool>, EvalError>(stack@),
        decreases n - i,
    {
        assert(ts.subrange(0, i + 1).drop_last() == ts.subrange(0, i as int));
        let ghost before = stack@;
        match tokens[i] {
            Token::Operator(op) => {
                if stack.len() < 2 {
                    proof {
                        lemma_run_prefix_error(ts, i + 1);
                    }
                    return Err(EvalError::InsufficientOperands(op));
                }
                let v2 = stack.pop().unwrap();
                let v1 = stack.pop().unwrap();
                let v = match op {
                    Operator::And => v1 && v2,
                    Operator::Or => v1 || v2,
                    Operator::Xor => v1 != v2,
                    Operator::Implies => !v1 || v2,
                    Operator::Equiv => v1 == v2,
                };
                stack.push(v);
                assert(stack@ == before.subrange(0, before.len() - 2).push(
                    apply_operator(op, before[before.len() - 2], before[before.len() - 1]),
                ));
            },
            Token::Operand(Operand::True) => stack.push(true),
            Token::Operand(Operand::False) => stack.push(false),
            Token::Operand(Operand::Not) => {
                if stack.len() < 1 {
                    proof {
                        lemma_run_prefix_error(ts, i + 1);
                    }
                    return Err(EvalError::InsufficientNotOperand);
                }
                let v = stack.pop().unwrap();
                stack.push(!v);
                assert(stack@ == before.drop_last().push(!before.last()));
            },
        }
        i = i + 1;
        assert(run(ts.subrange(0, i as int)) == Ok::<Seq<bool>, EvalError>(stack@));
    }
    assert(ts.subrange(0, n as int) == ts);
    proof {
        lemma_run_nonempty(ts);
    }
    if stack.len() > 1 {
        return Err(EvalError::ExcessOperands);
    }
    Ok(stack[0])
}

} // verus!

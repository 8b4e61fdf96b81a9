use vstd::prelude::*;
use core::ops::{Add, Div, Mul, Neg, Sub};
use crate::lexer::{literals_in_range, token_text, Token};
use crate::values::{spec_add, spec_div, spec_mul, spec_neg, spec_sub, Value};

verus! {

/// What went wrong while parsing.
#[derive(Clone, Copy, Debug, PartialEq, Eq, Structural)]
pub enum ParsingErrorKind {
    /// An opening paren with no closing paren before the end of input.
    MissingClosingParen,
    /// A token stood where a number was expected.
    ExpectedNumber(Token),
    /// A token stood where an operator or the end of input was expected.
    ExpectedOperator(Token),
}

/// The failure of parsing a sequence of tokens.
#[derive(Clone, Copy, Debug, PartialEq, Eq, Structural)]
pub struct ParsingError {
    pub kind: ParsingErrorKind,
}

impl ParsingError {
    /// A description of the error for a reader.
    pub fn message(&self) -> (r: String)
        ensures
            r@ == (match self.kind {
                ParsingErrorKind::MissingClosingParen => "input is missing a closing paren"@,
                ParsingErrorKind::ExpectedNumber(t) => "expected a number, found '"@ + token_text(t)
                    + "'"@,
                ParsingErrorKind::ExpectedOperator(t) => "expected operator, found '"@ + token_text(t)
                    + "' instead."@,
            }),
    {
        match self.kind {
            ParsingErrorKind::MissingClosingParen => String::from_str(
                "input is missing a closing paren",
            ),
            ParsingErrorKind::ExpectedNumber(t) => {
                let mut s = String::from_str("expected a number, found '");
                s.append(t.to_string().as_str());
                s.append("'");
                s
            },
            ParsingErrorKind::ExpectedOperator(t) => {
                let mut s = String::from_str("expected operator, found '");
                s.append(t.to_string().as_str());
                s.append("' instead.");
                s
            },
        }
    }
}

/// An arithmetic expression tree.
#[derive(Debug, PartialEq)]
pub enum Expression {
    Binop { operation: char, operands: Box<(Expression, Expression)> },
    Signed { sign: char, expression: Box<Expression> },
    Parenthesized(Box<Expression>),
    SingleValue(Value),
}

/// A parsed expression and the position that follows it, or the error met
/// and the position where the cursor stopped.
pub type Parsed = Result<(Expression, int), (ParsingError, int)>;

/// The token at `p`; past either end the input counts as ended.
pub open spec fn tok(ts: Seq<Token>, p: int) -> Token {
    if 0 <= p < ts.len() {
        ts[p]
    } else {
        Token::EndOfInput
    }
}

/// The position after a whitespace token at `p`, if there is one.
pub open spec fn skip(ts: Seq<Token>, p: int) -> int {
    if tok(ts, p) == Token::WhiteSpace {
        p + 1
    } else {
        p
    }
}

pub open spec fn binop(operation: char, left: Expression, right: Expression) -> Expression {
    Expression::Binop { operation, operands: Box::new((left, right)) }
}

pub open spec fn parse_error(kind: ParsingErrorKind) -> ParsingError {
    ParsingError { kind }
}

/// A number at `p`.
pub open spec fn spec_single_value(ts: Seq<Token>, p: int) -> Parsed {
    match tok(ts, p) {
        Token::Number(n) => Ok((Expression::SingleValue(Value::Natural(n as i32)), p + 1)),
        t => Err((parse_error(ParsingErrorKind::ExpectedNumber(t)), p)),
    }
}

/// The position of the paren that closes a group, scanning from `i` with
/// `depth` groups open; where the input ends first, the error holds the
/// position of its end.
pub open spec fn matching_close(ts: Seq<Token>, i: int, depth: int) -> Result<int, int>
    decreases ts.len() - i,
{
    if i < 0 || i >= ts.len() || ts[i] == Token::EndOfInput {
        Err(i)
    } else {
        let d = if ts[i] == Token::Paren('(') {
            depth + 1
        } else if ts[i] == Token::Paren(')') {
            depth - 1
        } else {
            depth
        };
        if d == 0 {
            Ok(i)
        } else {
            matching_close(ts, i + 1, d)
        }
    }
}

/// A closing position lies in the input, on a closing paren.
pub proof fn lemma_matching_close_bounds(ts: Seq<Token>, i: int, depth: int)
    requires
        depth >= 1,
    ensures
        matching_close(ts, i, depth) matches Ok(c) ==> i <= c < ts.len() && ts[c] == Token::Paren(')'),
    decreases ts.len() - i,
{
    if 0 <= i < ts.len() && ts[i] != Token::EndOfInput {
        let d = if ts[i] == Token::Paren('(') {
            depth + 1
        } else if ts[i] == Token::Paren(')') {
            depth - 1
        } else {
            depth
        };
        if d != 0 {
            lemma_matching_close_bounds(ts, i + 1, d);
        }
    }
}

/// The tokens strictly inside the group that opens at `p` and closes at `c`,
/// closed by `EndOfInput`.
pub open spec fn inner_tokens(ts: Seq<Token>, p: int, c: int) -> Seq<Token> {
    ts.subrange(p + 1, c).push(Token::EndOfInput)
}

/// A group in parens, parsed on its own, or else a number.
pub open spec fn spec_parenthesized(ts: Seq<Token>, p: int) -> Parsed
    decreases ts.len(), ts.len() - p, 0int,
{
    if tok(ts, p) == Token::Paren('(') {
        match matching_close(ts, p + 1, 1) {
            Err(e) => Err((parse_error(ParsingErrorKind::MissingClosingParen), e)),
            Ok(c) => {
                proof {
                    lemma_matching_close_bounds(ts, p + 1, 1);
                }
                match spec_additive(inner_tokens(ts, p, c), 0) {
                    Ok((e, _)) => Ok((Expression::Parenthesized(Box::new(e)), c + 1)),
                    Err((err, _)) => Err((err, c + 1)),
                }
            },
        }
    } else {
        spec_single_value(ts, p)
    }
}

pub open spec fn is_sign(t: Token) -> bool {
    t == Token::Operator('+') || t == Token::Operator('-')
}

/// An optional sign, then a group or a number.
pub open spec fn spec_signed(ts: Seq<Token>, p: int) -> Parsed
    decreases ts.len(), ts.len() - p, 1int,
{
    if is_sign(tok(ts, p)) {
        match spec_parenthesized(ts, p + 1) {
            Ok((e, q)) => Ok(
                (Expression::Signed { sign: tok(ts, p)->Operator_0, expression: Box::new(e) }, q),
            ),
            Err(err) => Err(err),
        }
    } else {
        spec_parenthesized(ts, p)
    }
}

/// After `left`, which ends before `p`: more `^` terms, folded to the left.
///
/// Here and in the other levels, every term that parses ends past where it
/// began, so the test `p < r` always holds: it only shows that the fold
/// ends.
pub open spec fn power_rest(ts: Seq<Token>, p: int, left: Expression) -> Parsed
    decreases ts.len(), ts.len() - p, 2int,
{
    let q = skip(ts, p);
    if tok(ts, q) == Token::Operator('^') {
        match spec_signed(ts, skip(ts, q + 1)) {
            Ok((right, r)) => if p < r <= ts.len() {
                power_rest(ts, r, binop('^', left, right))
            } else {
                Ok((left, q))
            },
            Err(err) => Err(err),
        }
    } else {
        Ok((left, q))
    }
}

/// Signed terms joined by `^`.
pub open spec fn spec_power(ts: Seq<Token>, p: int) -> Parsed
    decreases ts.len(), ts.len() - p, 3int,
{
    match spec_signed(ts, p) {
        Ok((e, q)) => if p < q <= ts.len() {
            power_rest(ts, q, e)
        } else {
            Ok((e, q))
        },
        Err(err) => Err(err),
    }
}

pub open spec fn is_mul_op(t: Token) -> bool {
    t == Token::Operator('*') || t == Token::Operator('/')
}

/// After `left`, which ends before `p`: more `*` or `/` terms, folded to the
/// left.
pub open spec fn multiplicative_rest(ts: Seq<Token>, p: int, left: Expression) -> Parsed
    decreases ts.len(), ts.len() - p, 4int,
{
    let q = skip(ts, p);
    if is_mul_op(tok(ts, q)) {
        match spec_power(ts, skip(ts, q + 1)) {
            Ok((right, r)) => if p < r <= ts.len() {
                multiplicative_rest(ts, r, binop(tok(ts, q)->Operator_0, left, right))
            } else {
                Ok((left, q))
            },
            Err(err) => Err(err),
        }
    } else {
        Ok((left, q))
    }
}

/// Powers joined by `*` or `/`.
pub open spec fn spec_multiplicative(ts: Seq<Token>, p: int) -> Parsed
    decreases ts.len(), ts.len() - p, 5int,
{
    match spec_power(ts, p) {
        Ok((e, q)) => if p < q <= ts.len() {
            multiplicative_rest(ts, q, e)
        } else {
            Ok((e, q))
        },
        Err(err) => Err(err),
    }
}

/// After `left`, which ends before `p`: more `+` or `-` terms, folded to the
/// left, up to the end of input.
pub open spec fn additive_rest(ts: Seq<Token>, p: int, left: Expression) -> Parsed
    decreases ts.len(), ts.len() - p, 6int,
{
    let q = skip(ts, p);
    if tok(ts, q) == Token::EndOfInput {
        Ok((left, q))
    } else if is_sign(tok(ts, q)) {
        match spec_multiplicative(ts, skip(ts, q + 1)) {
            Ok((right, r)) => if p < r <= ts.len() {
                additive_rest(ts, r, binop(tok(ts, q)->Operator_0, left, right))
            } else {
                Ok((left, q))
            },
            Err(err) => Err(err),
        }
    } else {
        Err((parse_error(ParsingErrorKind::ExpectedOperator(tok(ts, q))), q))
    }
}

/// Products joined by `+` or `-`, up to the end of input.
pub open spec fn spec_additive(ts: Seq<Token>, p: int) -> Parsed
    decreases ts.len(), ts.len() - p, 7int,
{
    let s = skip(ts, p);
    match spec_multiplicative(ts, s) {
        Ok((e, q)) => if p < q <= ts.len() {
            additive_rest(ts, q, e)
        } else {
            Ok((e, q))
        },
        Err(err) => Err(err),
    }
}

/// The expression that a sequence of tokens stands for.
pub open spec fn spec_parse(ts: Seq<Token>) -> Result<Expression, ParsingError> {
    match spec_additive(ts, 0) {
        Ok((e, _)) => Ok(e),
        Err((err, _)) => Err(err),
    }
}

/// The value of applying a binary operator; `^` and unknown operators have
/// none.
pub open spec fn apply(operation: char, a: Value, b: Value) -> Value {
    if operation == '+' {
        spec_add(a, b)
    } else if operation == '-' {
        spec_sub(a, b)
    } else if operation == '*' {
        spec_mul(a, b)
    } else if operation == '/' {
        spec_div(a, b)
    } else {
        Value::Undefined
    }
}

/// The expression with every node whose operands reduce to values folded
/// into one value, and every group dropped.
pub open spec fn spec_simplify(e: Expression) -> Expression
    decreases e,
{
    match e {
        Expression::SingleValue(_) => e,
        Expression::Signed { sign, expression } => {
            let child = spec_simplify(*expression);
            match child {
                Expression::SingleValue(n) => Expression::SingleValue(
                    if sign == '-' {
                        spec_neg(n)
                    } else {
                        n
                    },
                ),
                _ => Expression::Signed { sign, expression: Box::new(child) },
            }
        },
        Expression::Parenthesized(inner) => spec_simplify(*inner),
        Expression::Binop { operation, operands } => {
            let left = spec_simplify(operands.0);
            let right = spec_simplify(operands.1);
            match (left, right) {
                (Expression::SingleValue(a), Expression::SingleValue(b)) => Expression::SingleValue(
                    apply(operation, a, b),
                ),
                _ => binop(operation, left, right),
            }
        },
    }
}

/// Every expression tree has only values at its leaves, so simplifying it
/// always ends in a single value.
pub proof fn lemma_simplify_gives_value(e: Expression)
    ensures
        spec_simplify(e) is SingleValue,
    decreases e,
{
    match e {
        Expression::SingleValue(_) => {},
        Expression::Signed { sign, expression } => {
            lemma_simplify_gives_value(*expression);
        },
        Expression::Parenthesized(inner) => {
            lemma_simplify_gives_value(*inner);
        },
        Expression::Binop { operation, operands } => {
            lemma_simplify_gives_value(operands.0);
            lemma_simplify_gives_value(operands.1);
        },
    }
}

/// Simplifying twice gives what simplifying once gives.
pub proof fn lemma_simplify_idempotent(e: Expression)
    ensures
        spec_simplify(spec_simplify(e)) == spec_simplify(e),
    decreases e,
{
    match e {
        Expression::SingleValue(_) => {},
        Expression::Signed { sign, expression } => {
            lemma_simplify_idempotent(*expression);
        },
        Expression::Parenthesized(inner) => {
            lemma_simplify_idempotent(*inner);
        },
        Expression::Binop { operation, operands } => {
            lemma_simplify_idempotent(operands.0);
            lemma_simplify_idempotent(operands.1);
        },
    }
}

/// A group that parses ends past its opening paren, within the input.
pub proof fn lemma_parenthesized_progress(ts: Seq<Token>, p: int)
    ensures
        spec_parenthesized(ts, p) matches Ok((_, q)) ==> p < q <= ts.len(),
{
    if tok(ts, p) == Token::Paren('(') {
        lemma_matching_close_bounds(ts, p + 1, 1);
    }
}

/// A signed term that parses ends past where it began, within the input.
pub proof fn lemma_signed_progress(ts: Seq<Token>, p: int)
    ensures
        spec_signed(ts, p) matches Ok((_, q)) ==> p < q <= ts.len(),
{
    lemma_parenthesized_progress(ts, p);
    lemma_parenthesized_progress(ts, p + 1);
}

proof fn lemma_power_rest_progress(ts: Seq<Token>, p: int, left: Expression)
    requires
        p <= ts.len(),
    ensures
        power_rest(ts, p, left) matches Ok((_, q)) ==> p <= q <= ts.len(),
    decreases ts.len() - p,
{
    let q = skip(ts, p);
    if tok(ts, q) == Token::Operator('^') {
        if let Ok((right, r)) = spec_signed(ts, skip(ts, q + 1)) {
            if p < r <= ts.len() {
                lemma_power_rest_progress(ts, r, binop('^', left, right));
            }
        }
    }
}

/// A power that parses ends past where it began, within the input.
pub proof fn lemma_power_progress(ts: Seq<Token>, p: int)
    ensures
        spec_power(ts, p) matches Ok((_, q)) ==> p < q <= ts.len(),
{
    lemma_signed_progress(ts, p);
    if let Ok((e, q)) = spec_signed(ts, p) {
        lemma_power_rest_progress(ts, q, e);
    }
}

proof fn lemma_multiplicative_rest_progress(ts: Seq<Token>, p: int, left: Expression)
    requires
        p <= ts.len(),
    ensures
        multiplicative_rest(ts, p, left) matches Ok((_, q)) ==> p <= q <= ts.len(),
    decreases ts.len() - p,
{
    let q = skip(ts, p);
    if is_mul_op(tok(ts, q)) {
        if let Ok((right, r)) = spec_power(ts, skip(ts, q + 1)) {
            if p < r <= ts.len() {
                lemma_multiplicative_rest_progress(ts, r, binop(tok(ts, q)->Operator_0, left, right));
            }
        }
    }
}

/// A product that parses ends past where it began, within the input.
pub proof fn lemma_multiplicative_progress(ts: Seq<Token>, p: int)
    ensures
        spec_multiplicative(ts, p) matches Ok((_, q)) ==> p < q <= ts.len(),
{
    lemma_power_progress(ts, p);
    if let Ok((e, q)) = spec_power(ts, p) {
        lemma_multiplicative_rest_progress(ts, q, e);
    }
}

/// An opening paren whose depth, counted on from it, never returns to zero
/// before the end of input makes the group fail with a missing closing
/// paren.
pub proof fn lemma_missing_closing_paren(ts: Seq<Token>, p: int)
    requires
        tok(ts, p) == Token::Paren('('),
        matching_close(ts, p + 1, 1) is Err,
    ensures
        spec_parenthesized(ts, p) matches Err((err, _)) && err == parse_error(
            ParsingErrorKind::MissingClosingParen,
        ),
{
}

/// After the first product, which parses and ends at `q`, a token other
/// than the end of input, `+` or `-` (past at most one whitespace) makes the
/// additive level fail with "expected operator" on that token.
pub proof fn lemma_expected_operator_first(ts: Seq<Token>, p: int, e: Expression, q: int)
    requires
        spec_multiplicative(ts, skip(ts, p)) == Ok::<(Expression, int), (ParsingError, int)>((e, q)),
        tok(ts, skip(ts, q)) != Token::EndOfInput,
        !is_sign(tok(ts, skip(ts, q))),
    ensures
        spec_additive(ts, p) == Err::<(Expression, int), (ParsingError, int)>(
            (parse_error(ParsingErrorKind::ExpectedOperator(tok(ts, skip(ts, q)))), skip(ts, q)),
        ),
{
    lemma_multiplicative_progress(ts, skip(ts, p));
}

/// After a `+` or `-` and the product that follows it, which parses and ends
/// at `r`, a token other than the end of input, `+` or `-` (past at most one
/// whitespace) makes the additive level fail with "expected operator" on
/// that token.
pub proof fn lemma_expected_operator_after_sign(
    ts: Seq<Token>,
    p: int,
    left: Expression,
    right: Expression,
    r: int,
)
    requires
        is_sign(tok(ts, skip(ts, p))),
        spec_multiplicative(ts, skip(ts, skip(ts, p) + 1)) == Ok::<(Expression, int), (ParsingError, int)>(
            (right, r),
        ),
        tok(ts, skip(ts, r)) != Token::EndOfInput,
        !is_sign(tok(ts, skip(ts, r))),
    ensures
        additive_rest(ts, p, left) == Err::<(Expression, int), (ParsingError, int)>(
            (parse_error(ParsingErrorKind::ExpectedOperator(tok(ts, skip(ts, r)))), skip(ts, r)),
        ),
{
    lemma_multiplicative_progress(ts, skip(ts, skip(ts, p) + 1));
    let next = binop(tok(ts, skip(ts, p))->Operator_0, left, right);
    assert(additive_rest(ts, p, left) == additive_rest(ts, r, next));
}

/// A sequence of tokens that the parser can read: it ends with
/// `EndOfInput`, and no literal exceeds the range of a value.
pub open spec fn is_parsable(ts: Seq<Token>) -> bool {
    &&& ts.len() > 0
    &&& ts.last() == Token::EndOfInput
    &&& literals_in_range(ts)
}

/// `r`, with the cursor left at `index`, is what `s` describes.
pub open spec fn parsed_as(r: Result<Expression, ParsingError>, index: int, s: Parsed) -> bool {
    match s {
        Ok((e, q)) => r == Ok::<Expression, ParsingError>(e) && index == q,
        Err((err, q)) => r == Err::<Expression, ParsingError>(err) && index == q,
    }
}

impl Expression {
    /// Steps over one whitespace token at the cursor.
    fn skip_whitespace(token_stream: &[Token], index: &mut usize)
        requires
            is_parsable(token_stream@),
            *old(index) < token_stream@.len(),
        ensures
            *final(index) == skip(token_stream@, *old(index) as int),
            *final(index) < token_stream@.len(),
    {
        if token_stream[*index] == Token::WhiteSpace {
            *index += 1;
        }
    }

    /// A number at the cursor.
    fn parse_single_value(token_stream: &[Token], index: &mut usize) -> (r: Result<Self, ParsingError>)
        requires
            is_parsable(token_stream@),
            *old(index) < token_stream@.len(),
        ensures
            parsed_as(r, *final(index) as int, spec_single_value(token_stream@, *old(index) as int)),
            r is Ok ==> *old(index) < *final(index) < token_stream@.len(),
            r is Err ==> *final(index) == *old(index),
    {
        if let Token::Number(n) = token_stream[*index] {
            *index += 1;
            Ok(Expression::SingleValue(Value::Natural(n as i32)))
        } else {
            Err(ParsingError { kind: ParsingErrorKind::ExpectedNumber(token_stream[*index]) })
        }
    }

    /// A group in parens, parsed on its own with a cursor of its own, or
    /// else a number.
    fn parse_parenthesized(token_stream: &[Token], index: &mut usize) -> (r: Result<Self, ParsingError>)
        requires
            is_parsable(token_stream@),
            *old(index) < token_stream@.len(),
        ensures
            parsed_as(r, *final(index) as int, spec_parenthesized(token_stream@, *old(index) as int)),
            r is Ok ==> *old(index) < *final(index) < token_stream@.len(),
        decreases token_stream@.len(), token_stream@.len() - *old(index), 0int,
    {
        let ghost ts = token_stream@;
        let start = *index;
        if token_stream[*index] == Token::Paren('(') {
            let mut count: usize = 1;
            *index += 1;
            let old_index = *index;
            while count != 0
                invariant
                    is_parsable(ts),
                    ts == token_stream@,
                    start == *old(index),
                    ts[start as int] == Token::Paren('('),
                    start < old_index <= *index < ts.len(),
                    old_index == start + 1,
                    count <= *index - old_index + 1,
                    count > 0 ==> matching_close(ts, old_index as int, 1) == matching_close(ts, *index as int, count as int),
                    count == 0 ==> *index > old_index && matching_close(ts, old_index as int, 1) == Ok::<int, int>(*index - 1),
                decreases ts.len() - *index,
            {
                if token_stream[*index] == Token::EndOfInput {
                    return Err(ParsingError { kind: ParsingErrorKind::MissingClosingParen });
                }
                if let Token::Paren(p) = token_stream[*index] {
                    if p == '(' {
                        count += 1;
                    } else if p == ')' {
                        count -= 1;
                    }
                }
                *index += 1;
            }
            let close = *index - 1;
            proof {
                lemma_matching_close_bounds(ts, old_index as int, 1);
            }
            let mut inner: Vec<Token> = Vec::new();
            let mut k: usize = old_index;
            while k < close
                invariant
                    old_index <= k <= close < ts.len(),
                    ts == token_stream@,
                    inner@ == ts.subrange(old_index as int, k as int),
                decreases close - k,
            {
                inner.push(token_stream[k]);
                k += 1;
            }
            inner.push(Token::EndOfInput);
            assert(inner@ =~= inner_tokens(ts, start as int, close as int));
            assert(literals_in_range(inner@)) by {
                assert forall|i: int| 0 <= i < inner@.len() - 1 implies inner@[i] == ts[old_index + i] by {}
            }
            let mut inner_index: usize = 0;
            match Self::parse_additive(inner.as_slice(), &mut inner_index) {
                Ok(e) => Ok(Expression::Parenthesized(Box::new(e))),
                Err(err) => Err(err),
            }
        } else {
            Self::parse_single_value(token_stream, index)
        }
    }

    /// An optional sign, then a group or a number.
    fn parse_signed(token_stream: &[Token], index: &mut usize) -> (r: Result<Self, ParsingError>)
        requires
            is_parsable(token_stream@),
            *old(index) < token_stream@.len(),
        ensures
            parsed_as(r, *final(index) as int, spec_signed(token_stream@, *old(index) as int)),
            r is Ok ==> *old(index) < *final(index) < token_stream@.len(),
        decreases token_stream@.len(), token_stream@.len() - *old(index), 1int,
    {
        if let Token::Operator(op) = token_stream[*index] {
            if op == '+' || op == '-' {
                *index += 1;
                return match Self::parse_parenthesized(token_stream, index) {
                    Ok(e) => Ok(Expression::Signed { sign: op, expression: Box::new(e) }),
                    Err(err) => Err(err),
                };
            }
        }
        Self::parse_parenthesized(token_stream, index)
    }

    /// Signed terms joined by `^`, folded to the left.
    fn parse_power(token_stream: &[Token], index: &mut usize) -> (r: Result<Self, ParsingError>)
        requires
            is_parsable(token_stream@),
            *old(index) < token_stream@.len(),
        ensures
            parsed_as(r, *final(index) as int, spec_power(token_stream@, *old(index) as int)),
            r is Ok ==> *old(index) < *final(index) < token_stream@.len(),
        decreases token_stream@.len(), token_stream@.len() - *old(index), 3int,
    {
        let ghost ts = token_stream@;
        let start = *index;
        let mut left = match Self::parse_signed(token_stream, index) {
            Ok(e) => e,
            Err(err) => return Err(err),
        };
        loop
            invariant
                is_parsable(ts),
                ts == token_stream@,
                start == *old(index),
                start < *index < ts.len(),
                spec_power(ts, start as int) == power_rest(ts, *index as int, left),
            decreases ts.len() - *index,
        {
            Self::skip_whitespace(token_stream, index);
            if token_stream[*index] != Token::Operator('^') {
                return Ok(left);
            }
            *index += 1;
            Self::skip_whitespace(token_stream, index);
            let right = match Self::parse_signed(token_stream, index) {
                Ok(e) => e,
                Err(err) => return Err(err),
            };
            left = Expression::Binop { operation: '^', operands: Box::new((left, right)) };
        }
    }

    /// Powers joined by `*` or `/`, folded to the left.
    fn parse_multiplicative(token_stream: &[Token], index: &mut usize) -> (r: Result<Self, ParsingError>)
        requires
            is_parsable(token_stream@),
            *old(index) < token_stream@.len(),
        ensures
            parsed_as(r, *final(index) as int, spec_multiplicative(token_stream@, *old(index) as int)),
            r is Ok ==> *old(index) < *final(index) < token_stream@.len(),
        decreases token_stream@.len(), token_stream@.len() - *old(index), 5int,
    {
        let ghost ts = token_stream@;
        let start = *index;
        let mut left = match Self::parse_power(token_stream, index) {
            Ok(e) => e,
            Err(err) => return Err(err),
        };
        loop
            invariant
                is_parsable(ts),
                ts == token_stream@,
                start == *old(index),
                start < *index < ts.len(),
                spec_multiplicative(ts, start as int) == multiplicative_rest(ts, *index as int, left),
            decreases ts.len() - *index,
        {
            Self::skip_whitespace(token_stream, index);
            let t = token_stream[*index];
            if t != Token::Operator('*') && t != Token::Operator('/') {
                return Ok(left);
            }
            let op = if t == Token::Operator('*') {
                '*'
            } else {
                '/'
            };
            *index += 1;
            Self::skip_whitespace(token_stream, index);
            let right = match Self::parse_power(token_stream, index) {
                Ok(e) => e,
                Err(err) => return Err(err),
            };
            left = Expression::Binop { operation: op, operands: Box::new((left, right)) };
        }
    }

    /// Products joined by `+` or `-`, folded to the left, up to the end of
    /// input.
    fn parse_additive(token_stream: &[Token], index: &mut usize) -> (r: Result<Self, ParsingError>)
        requires
            is_parsable(token_stream@),
            *old(index) < token_stream@.len(),
        ensures
            parsed_as(r, *final(index) as int, spec_additive(token_stream@, *old(index) as int)),
        decreases token_stream@.len(), token_stream@.len() - *old(index), 7int,
    {
        let ghost ts = token_stream@;
        let start = *index;
        Self::skip_whitespace(token_stream, index);
        let mut left = match Self::parse_multiplicative(token_stream, index) {
            Ok(e) => e,
            Err(err) => return Err(err),
        };
        loop
            invariant
                is_parsable(ts),
                ts == token_stream@,
                start == *old(index),
                start < *index < ts.len(),
                spec_additive(ts, start as int) == additive_rest(ts, *index as int, left),
            decreases ts.len() - *index,
        {
            Self::skip_whitespace(token_stream, index);
            let t = token_stream[*index];
            if t == Token::EndOfInput {
                return Ok(left);
            }
            if t != Token::Operator('+') && t != Token::Operator('-') {
                return Err(ParsingError { kind: ParsingErrorKind::ExpectedOperator(t) });
            }
            let op = if t == Token::Operator('+') {
                '+'
            } else {
                '-'
            };
            *index += 1;
            Self::skip_whitespace(token_stream, index);
            let right = match Self::parse_multiplicative(token_stream, index) {
                Ok(e) => e,
                Err(err) => return Err(err),
            };
            left = Expression::Binop { operation: op, operands: Box::new((left, right)) };
        }
    }

    /// Folds every node whose operands are values into one value.
    pub fn simplify(self) -> (r: Self)
        ensures
            r == spec_simplify(self),
            r is SingleValue,
        decreases self,
    {
        proof {
            lemma_simplify_gives_value(self);
        }
        match self {
            Expression::SingleValue(_) => self,
            Expression::Signed { sign, expression } => {
                let child = (*expression).simplify();
                if let Expression::SingleValue(n) = child {
                    if sign == '-' {
                        Expression::SingleValue(n.neg())
                    } else {
                        Expression::SingleValue(n)
                    }
                } else {
                    Expression::Signed { sign, expression: Box::new(child) }
                }
            },
            Expression::Parenthesized(expression) => (*expression).simplify(),
            Expression::Binop { operation, operands } => {
                let (l, r) = *operands;
                let left = l.simplify();
                let right = r.simplify();
                if let (Expression::SingleValue(left_val), Expression::SingleValue(right_val)) = (
                    &left,
                    &right,
                ) {
                    Expression::SingleValue(
                        match operation {
                            '+' => left_val.add(*right_val),
                            '-' => left_val.sub(*right_val),
                            '*' => left_val.mul(*right_val),
                            '/' => left_val.div(*right_val),
                            _ => Value::Undefined,
                        },
                    )
                } else {
                    Expression::Binop { operation, operands: Box::new((left, right)) }
                }
            },
        }
    }

    /// Parses a sequence of tokens into an expression tree. The tokens are
    /// those of a lexed line: they end with `EndOfInput` and no literal
    /// exceeds `MAX_LITERAL`.
    pub fn parse(token_stream: &Vec<Token>) -> (r: Result<Self, ParsingError>)
        requires
            is_parsable(token_stream@),
        ensures
            r == spec_parse(token_stream@),
    {
        let mut index: usize = 0;
        Self::parse_additive(token_stream.as_slice(), &mut index)
    }
}

} // verus!
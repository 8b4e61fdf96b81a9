use vstd::prelude::*;
use crate::text::{decimal, push_char, push_decimal};

verus! {

/// What went wrong while lexing.
#[derive(Clone, Copy, Debug, PartialEq, Eq, Structural)]
pub enum LexingErrorKind {
    /// A character that is no digit, operator, paren, space or tab.
    InvalidCharacter(char),
    /// A run of digits whose value exceeds `i32::MAX`, the largest value a
    /// literal may have.
    LiteralTooLarge,
}

/// The failure of lexing a line of text.
#[derive(Clone, Copy, Debug, PartialEq, Eq, Structural)]
pub struct LexingError {
    pub kind: LexingErrorKind,
}

/// One lexical unit of an expression.
#[derive(Clone, Copy, Debug, PartialEq, Eq, Structural)]
pub enum Token {
    Operator(char),
    Number(u32),
    Paren(char),
    WhiteSpace,
    EndOfInput,
}

/// The largest value a literal may have.
pub const MAX_LITERAL: u32 = 0x7fff_ffff;

pub open spec fn is_digit(c: char) -> bool {
    '0' <= c <= '9'
}

pub open spec fn digit_value(c: char) -> nat {
    (c as nat - 48) as nat
}

pub open spec fn is_operator_char(c: char) -> bool {
    c == '+' || c == '-' || c == '*' || c == '/' || c == '^'
}

pub open spec fn is_paren_char(c: char) -> bool {
    c == '(' || c == ')'
}

pub open spec fn is_blank(c: char) -> bool {
    c == ' ' || c == '\t'
}

/// The characters that may appear in an expression.
pub open spec fn is_valid_char(c: char) -> bool {
    is_digit(c) || is_operator_char(c) || is_paren_char(c) || is_blank(c)
}

/// The value of a run of decimal digits.
pub open spec fn digits_value(d: Seq<char>) -> nat
    decreases d.len(),
{
    if d.len() == 0 {
        0
    } else {
        digits_value(d.drop_last()) * 10 + digit_value(d.last())
    }
}

/// What a lexer has seen after a prefix of its input: the tokens emitted so
/// far and the value of a run of digits not yet emitted.
pub type LexState = Result<(Seq<Token>, Option<nat>), LexingError>;

/// The tokens emitted, with a pending run of digits emitted as a number.
pub open spec fn flush(tokens: Seq<Token>, pending: Option<nat>) -> Seq<Token> {
    match pending {
        Some(n) => tokens.push(Token::Number(n as u32)),
        None => tokens,
    }
}

/// The lexer's state after one more character.
pub open spec fn lex_step(st: LexState, c: char) -> LexState {
    match st {
        Err(e) => Err(e),
        Ok((tokens, pending)) => if is_digit(c) {
            let v = match pending {
                Some(n) => n * 10 + digit_value(c),
                None => digit_value(c),
            };
            if v > MAX_LITERAL {
                Err(LexingError { kind: LexingErrorKind::LiteralTooLarge })
            } else {
                Ok((tokens, Some(v)))
            }
        } else {
            let done = flush(tokens, pending);
            if is_operator_char(c) {
                Ok((done.push(Token::Operator(c)), None))
            } else if is_paren_char(c) {
                Ok((done.push(Token::Paren(c)), None))
            } else if is_blank(c) {
                if done.len() > 0 && done.last() == Token::WhiteSpace {
                    Ok((done, None))
                } else {
                    Ok((done.push(Token::WhiteSpace), None))
                }
            } else {
                Err(LexingError { kind: LexingErrorKind::InvalidCharacter(c) })
            }
        },
    }
}

/// The lexer's state after the characters of `s`, read left to right.
pub open spec fn lex_state(s: Seq<char>) -> LexState
    decreases s.len(),
{
    if s.len() == 0 {
        Ok((Seq::empty(), None))
    } else {
        lex_step(lex_state(s.drop_last()), s.last())
    }
}

/// The tokens of `s`, closed by `EndOfInput`, or the first error met.
pub open spec fn spec_lex(s: Seq<char>) -> Result<Seq<Token>, LexingError> {
    match lex_state(s) {
        Ok((tokens, pending)) => Ok(flush(tokens, pending).push(Token::EndOfInput)),
        Err(e) => Err(e),
    }
}

/// A sequence of tokens as the lexer produces it: it ends with its only
/// `EndOfInput`, has no two `WhiteSpace` in a row, and no literal above
/// `MAX_LITERAL`.
pub open spec fn is_token_sequence(ts: Seq<Token>) -> bool {
    &&& ts.len() > 0
    &&& ts.last() == Token::EndOfInput
    &&& forall|i: int| 0 <= i < ts.len() - 1 ==> #[trigger] ts[i] != Token::EndOfInput
    &&& forall|i: int|
        0 <= i < ts.len() - 1 ==> !(#[trigger] ts[i] == Token::WhiteSpace && ts[i + 1]
            == Token::WhiteSpace)
    &&& literals_in_range(ts)
}

/// Every literal of `ts` is at most `MAX_LITERAL`.
pub open spec fn literals_in_range(ts: Seq<Token>) -> bool {
    forall|i: int| 0 <= i < ts.len() ==> (#[trigger] ts[i] matches Token::Number(n) ==> n <= MAX_LITERAL)
}

/// The text of a token.
pub open spec fn token_text(t: Token) -> Seq<char> {
    match t {
        Token::Operator(c) => seq![c],
        Token::Number(n) => decimal(n as nat),
        Token::Paren(c) => seq![c],
        Token::WhiteSpace => seq![' '],
        Token::EndOfInput => seq!['E', 'n', 'd', 'O', 'f', 'I', 'n', 'p', 'u', 't'],
    }
}

impl LexingError {
    /// A description of the error for a reader.
    pub fn message(&self) -> (r: String)
        ensures
            r@ == (match self.kind {
                LexingErrorKind::InvalidCharacter(c) => "invalid character "@.push(c),
                LexingErrorKind::LiteralTooLarge => "number literal is too large"@,
            }),
    {
        match self.kind {
            LexingErrorKind::InvalidCharacter(c) => {
                let mut s = String::from_str("invalid character ");
                push_char(&mut s, c);
                s
            },
            LexingErrorKind::LiteralTooLarge => String::from_str("number literal is too large"),
        }
    }
}

impl Token {
    /// The text of the token: its character, its number in decimal, a space,
    /// or `EndOfInput`.
    pub fn to_string(&self) -> (r: String)
        ensures
            r@ == token_text(*self),
    {
        let mut s = String::new();
        match self {
            Token::Operator(op) => push_char(&mut s, *op),
            Token::Number(n) => push_decimal(&mut s, *n),
            Token::Paren(p) => push_char(&mut s, *p),
            Token::WhiteSpace => push_char(&mut s, ' '),
            Token::EndOfInput => {
                push_char(&mut s, 'E');
                push_char(&mut s, 'n');
                push_char(&mut s, 'd');
                push_char(&mut s, 'O');
                push_char(&mut s, 'f');
                push_char(&mut s, 'I');
                push_char(&mut s, 'n');
                push_char(&mut s, 'p');
                push_char(&mut s, 'u');
                push_char(&mut s, 't');
            },
        }
        proof {
            assert(s@ =~= token_text(*self));
        }
        s
    }
}

/// A failure met while lexing a prefix stays the result of lexing the whole.
proof fn lemma_error_persists(s: Seq<char>, k: int)
    requires
        0 <= k <= s.len(),
        lex_state(s.subrange(0, k)) is Err,
    ensures
        lex_state(s) == lex_state(s.subrange(0, k)),
    decreases s.len() - k,
{
    if k < s.len() {
        assert(s.subrange(0, k + 1).drop_last() =~= s.subrange(0, k));
        lemma_error_persists(s, k + 1);
    } else {
        assert(s.subrange(0, k) =~= s);
    }
}

/// The lexer's state after reading `y`, starting from `st`.
pub open spec fn lex_from(st: LexState, y: Seq<char>) -> LexState
    decreases y.len(),
{
    if y.len() == 0 {
        st
    } else {
        lex_step(lex_from(st, y.drop_last()), y.last())
    }
}

/// Reading `x` then `y` is reading `y` from where `x` left the lexer.
pub proof fn lemma_lex_concat(x: Seq<char>, y: Seq<char>)
    ensures
        lex_state(x + y) == lex_from(lex_state(x), y),
    decreases y.len(),
{
    if y.len() == 0 {
        assert(x + y =~= x);
    } else {
        assert((x + y).drop_last() =~= x + y.drop_last());
        lemma_lex_concat(x, y.drop_last());
    }
}

pub open spec fn all_digits(s: Seq<char>) -> bool {
    forall|i: int| 0 <= i < s.len() ==> is_digit(#[trigger] s[i])
}

pub open spec fn all_blank(s: Seq<char>) -> bool {
    forall|i: int| 0 <= i < s.len() ==> is_blank(#[trigger] s[i])
}

proof fn lemma_digit_run_state(s: Seq<char>)
    requires
        s.len() > 0,
        all_digits(s),
    ensures
        digits_value(s) <= MAX_LITERAL ==> lex_state(s) == Ok::<(Seq<Token>, Option<nat>), LexingError>(
            (Seq::empty(), Some(digits_value(s))),
        ),
        digits_value(s) > MAX_LITERAL ==> lex_state(s) == Err::<(Seq<Token>, Option<nat>), LexingError>(
            LexingError { kind: LexingErrorKind::LiteralTooLarge },
        ),
    decreases s.len(),
{
    let p = s.drop_last();
    assert(is_digit(s[s.len() - 1]));
    if s.len() > 1 {
        assert(all_digits(p)) by {
            assert forall|i: int| 0 <= i < p.len() implies is_digit(#[trigger] p[i]) by {
                assert(p[i] == s[i]);
            }
        }
        lemma_digit_run_state(p);
    } else {
        assert(p.len() == 0);
    }
}

/// A run of digits alone lexes to one number, closed by `EndOfInput`; a run
/// whose value exceeds `MAX_LITERAL` fails.
pub proof fn lemma_lex_number(s: Seq<char>)
    requires
        s.len() > 0,
        all_digits(s),
    ensures
        digits_value(s) <= MAX_LITERAL ==> spec_lex(s) == Ok::<Seq<Token>, LexingError>(
            seq![Token::Number(digits_value(s) as u32), Token::EndOfInput],
        ),
        digits_value(s) > MAX_LITERAL ==> spec_lex(s) == Err::<Seq<Token>, LexingError>(
            LexingError { kind: LexingErrorKind::LiteralTooLarge },
        ),
{
    lemma_digit_run_state(s);
    if digits_value(s) <= MAX_LITERAL {
        assert(Seq::<Token>::empty().push(Token::Number(digits_value(s) as u32)).push(Token::EndOfInput)
            =~= seq![Token::Number(digits_value(s) as u32), Token::EndOfInput]);
    }
}

/// Text with a character that is no digit, operator, paren, space or tab
/// does not lex.
pub proof fn lemma_lex_rejects_invalid(s: Seq<char>, i: int)
    requires
        0 <= i < s.len(),
        !is_valid_char(s[i]),
    ensures
        spec_lex(s) is Err,
{
    assert(s.subrange(0, i + 1).drop_last() =~= s.subrange(0, i));
    assert(lex_state(s.subrange(0, i + 1)) is Err);
    lemma_error_persists(s, i + 1);
}

proof fn lemma_blank_run_state(a: Seq<char>, w: Seq<char>)
    requires
        w.len() > 0,
        all_blank(w),
    ensures
        lex_state(a + w) == lex_state(a + seq![' ']),
    decreases w.len(),
{
    let c = w.last();
    assert(is_blank(w[w.len() - 1]));
    assert((a + w).drop_last() =~= a + w.drop_last());
    assert((a + w).last() == c);
    assert((a + seq![' ']).drop_last() =~= a);
    assert((a + seq![' ']).last() == ' ');
    if w.len() > 1 {
        assert(all_blank(w.drop_last())) by {
            assert forall|i: int| 0 <= i < w.drop_last().len() implies is_blank(#[trigger] w.drop_last()[i]) by {
                assert(w.drop_last()[i] == w[i]);
            }
        }
        lemma_blank_run_state(a, w.drop_last());
    } else {
        assert(w.drop_last().len() == 0);
        assert(a + w.drop_last() =~= a);
    }
}

/// A run of spaces and tabs lexes as a single space does.
pub proof fn lemma_lex_collapses_blanks(a: Seq<char>, w: Seq<char>, b: Seq<char>)
    requires
        w.len() > 0,
        all_blank(w),
    ensures
        spec_lex(a + w + b) == spec_lex(a + seq![' '] + b),
{
    lemma_blank_run_state(a, w);
    lemma_lex_concat(a + w, b);
    lemma_lex_concat(a + seq![' '], b);
}

/// What lexing keeps true of its state: no `EndOfInput` yet, no two
/// `WhiteSpace` in a row, and every literal in range.
pub open spec fn state_ok(st: LexState) -> bool {
    match st {
        Ok((ts, pending)) => {
            &&& forall|i: int| 0 <= i < ts.len() ==> #[trigger] ts[i] != Token::EndOfInput
            &&& forall|i: int|
                0 <= i < ts.len() - 1 ==> !(#[trigger] ts[i] == Token::WhiteSpace && ts[i + 1]
                    == Token::WhiteSpace)
            &&& literals_in_range(ts)
            &&& pending matches Some(n) ==> n <= MAX_LITERAL
        },
        Err(_) => true,
    }
}

proof fn lemma_push_keeps_state(ts: Seq<Token>, t: Token)
    requires
        state_ok(Ok((ts, None))),
        t != Token::EndOfInput,
        t matches Token::Number(n) ==> n <= MAX_LITERAL,
        ts.len() > 0 && ts.last() == Token::WhiteSpace ==> t != Token::WhiteSpace,
    ensures
        state_ok(Ok((ts.push(t), None))),
{
    let u = ts.push(t);
    assert forall|i: int| 0 <= i < u.len() - 1 implies !(#[trigger] u[i] == Token::WhiteSpace
        && u[i + 1] == Token::WhiteSpace) by {
        if i + 1 < ts.len() {
            assert(u[i] == ts[i] && u[i + 1] == ts[i + 1]);
        }
    }
    assert forall|i: int| 0 <= i < u.len() implies (#[trigger] u[i] matches Token::Number(n)
        ==> n <= MAX_LITERAL) by {
        if i < ts.len() {
            assert(u[i] == ts[i]);
        }
    }
}

proof fn lemma_state_ok(s: Seq<char>)
    ensures
        state_ok(lex_state(s)),
    decreases s.len(),
{
    if s.len() > 0 {
        lemma_state_ok(s.drop_last());
        let c = s.last();
        if let Ok((ts, pending)) = lex_state(s.drop_last()) {
            if !is_digit(c) {
                let done = flush(ts, pending);
                if let Some(n) = pending {
                    lemma_push_keeps_state(ts, Token::Number(n as u32));
                }
                assert(state_ok(Ok((done, None))));
                if is_operator_char(c) {
                    lemma_push_keeps_state(done, Token::Operator(c));
                } else if is_paren_char(c) {
                    lemma_push_keeps_state(done, Token::Paren(c));
                } else if is_blank(c) {
                    if !(done.len() > 0 && done.last() == Token::WhiteSpace) {
                        lemma_push_keeps_state(done, Token::WhiteSpace);
                    }
                }
            }
        }
    }
}

/// Whatever lexing produces is a well-formed token sequence.
pub proof fn lemma_lex_well_formed(s: Seq<char>)
    ensures
        spec_lex(s) matches Ok(ts) ==> is_token_sequence(ts),
{
    lemma_state_ok(s);
    if let Ok((ts, pending)) = lex_state(s) {
        let done = flush(ts, pending);
        if let Some(n) = pending {
            lemma_push_keeps_state(ts, Token::Number(n as u32));
        }
        assert(state_ok(Ok((done, None))));
        let all = done.push(Token::EndOfInput);
        assert forall|i: int| 0 <= i < all.len() - 1 implies #[trigger] all[i] != Token::EndOfInput by {
            assert(all[i] == done[i]);
        }
        assert forall|i: int| 0 <= i < all.len() - 1 implies !(#[trigger] all[i] == Token::WhiteSpace
            && all[i + 1] == Token::WhiteSpace) by {
            assert(all[i] == done[i]);
        }
        assert forall|i: int| 0 <= i < all.len() implies (#[trigger] all[i] matches Token::Number(n)
            ==> n <= MAX_LITERAL) by {
            if i < done.len() {
                assert(all[i] == done[i]);
            }
        }
    }
}

/// The view of a pending run of digits.
pub open spec fn pending_view(p: Option<u32>) -> Option<nat> {
    match p {
        Some(n) => Some(n as nat),
        None => None,
    }
}

/// The view of a lexing result.
pub open spec fn lex_view(r: Result<Vec<Token>, LexingError>) -> Result<Seq<Token>, LexingError> {
    match r {
        Ok(v) => Ok(v@),
        Err(e) => Err(e),
    }
}


/// Building a sequence of tokens from text.
pub trait TokenStreamExt: Sized {
    /// Whether `r` is what lexing `source` gives.
    spec fn lexes_to(source: Seq<char>, r: Result<Self, LexingError>) -> bool;

    /// Splits `source` into tokens, closed by `EndOfInput`.
    fn lex(source: &str) -> (r: Result<Self, LexingError>)
        ensures
            Self::lexes_to(source@, r),
    ;
}

impl TokenStreamExt for Vec<Token> {
    open spec fn lexes_to(source: Seq<char>, r: Result<Self, LexingError>) -> bool {
        &&& lex_view(r) == spec_lex(source)
        &&& r matches Ok(v) ==> is_token_sequence(v@)
    }

    fn lex(source: &str) -> (r: Result<Self, LexingError>) {
        let mut result: Vec<Token> = Vec::new();
        let mut current_num: Option<u32> = None;
        for c in it: source.chars()
            invariant
                it.seq() == source@,
                lex_state(source@.subrange(0, it.index() as int)) == Ok::<(Seq<Token>, Option<nat>), LexingError>(
                    (result@, pending_view(current_num)),
                ),
                current_num matches Some(v) ==> v <= MAX_LITERAL,
        {
            let ghost i = it.index();
            assert(c == source@[i]);
            assert(source@.subrange(0, i + 1).drop_last() =~= source@.subrange(0, i as int));
            assert(source@.subrange(0, i + 1).last() == c);
            if '0' <= c && c <= '9' {
                let digit = (c as u32) - 48;
                match current_num {
                    Some(num) => {
                        if num > MAX_LITERAL / 10 || (num == MAX_LITERAL / 10 && digit > MAX_LITERAL % 10) {
                            proof {
                                lemma_error_persists(source@, i + 1);
                            }
                            return Err(LexingError { kind: LexingErrorKind::LiteralTooLarge });
                        }
                        current_num = Some(num * 10 + digit);
                    },
                    None => {
                        current_num = Some(digit);
                    },
                }
            } else {
                if let Some(num) = current_num {
                    result.push(Token::Number(num));
                    current_num = None;
                }
                if c == '+' || c == '-' || c == '*' || c == '/' || c == '^' {
                    result.push(Token::Operator(c));
                } else if c == '(' || c == ')' {
                    result.push(Token::Paren(c));
                } else if c == ' ' || c == '\t' {
                    let len = result.len();
                    if len == 0 || result[len - 1] != Token::WhiteSpace {
                        result.push(Token::WhiteSpace);
                    }
                } else {
                    proof {
                        lemma_error_persists(source@, i + 1);
                    }
                    return Err(LexingError { kind: LexingErrorKind::InvalidCharacter(c) });
                }
            }
        }
        assert(source@.subrange(0, source@.len() as int) =~= source@);
        if let Some(num) = current_num {
            result.push(Token::Number(num));
        }
        result.push(Token::EndOfInput);
        proof {
            lemma_lex_well_formed(source@);
        }
        Ok(result)
    }
}

} // verus!

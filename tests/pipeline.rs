use expr_eval::ast_parser::{Expression, ParsingError, ParsingErrorKind};
use expr_eval::lexer::{LexingError, LexingErrorKind, Token, TokenStreamExt};
use expr_eval::values::Value;

fn lex(s: &str) -> Result<Vec<Token>, LexingError> {
    Vec::<Token>::lex(s)
}

fn parse(s: &str) -> Result<Expression, ParsingError> {
    Expression::parse(&lex(s).unwrap())
}

fn eval(s: &str) -> Expression {
    parse(s).unwrap().simplify()
}

fn num(n: i32) -> Expression {
    Expression::SingleValue(Value::Natural(n))
}

fn bin(op: char, l: Expression, r: Expression) -> Expression {
    Expression::Binop { operation: op, operands: Box::new((l, r)) }
}

#[test]
fn lex_digit_string_is_one_number() {
    assert_eq!(lex("12345").unwrap(), vec![Token::Number(12345), Token::EndOfInput]);
    assert_eq!(lex("0").unwrap(), vec![Token::Number(0), Token::EndOfInput]);
    assert_eq!(lex("007").unwrap(), vec![Token::Number(7), Token::EndOfInput]);
}

#[test]
fn lex_largest_literal() {
    assert_eq!(lex("2147483647").unwrap(), vec![Token::Number(2147483647), Token::EndOfInput]);
    let err = lex("2147483648").unwrap_err();
    assert_eq!(err.kind, LexingErrorKind::LiteralTooLarge);
    assert_eq!(lex("99999999999 x").unwrap_err().kind, LexingErrorKind::LiteralTooLarge);
}

#[test]
fn lex_collapses_blank_runs() {
    let expected = vec![
        Token::Number(1),
        Token::WhiteSpace,
        Token::Operator('+'),
        Token::WhiteSpace,
        Token::Number(2),
        Token::EndOfInput,
    ];
    assert_eq!(lex("1  +   2").unwrap(), expected);
    assert_eq!(lex("1 + 2").unwrap(), expected);
    assert_eq!(lex("1 \t+\t\t 2").unwrap(), expected);
}

#[test]
fn lex_empty_input() {
    assert_eq!(lex("").unwrap(), vec![Token::EndOfInput]);
}

#[test]
fn lex_all_token_kinds() {
    assert_eq!(
        lex("(1-2)*3/4^5").unwrap(),
        vec![
            Token::Paren('('),
            Token::Number(1),
            Token::Operator('-'),
            Token::Number(2),
            Token::Paren(')'),
            Token::Operator('*'),
            Token::Number(3),
            Token::Operator('/'),
            Token::Number(4),
            Token::Operator('^'),
            Token::Number(5),
            Token::EndOfInput,
        ]
    );
}

#[test]
fn lex_rejects_invalid_characters() {
    let err = lex("1 + x").unwrap_err();
    assert_eq!(err.kind, LexingErrorKind::InvalidCharacter('x'));
    assert_eq!(err.message(), "invalid character x");
    assert_eq!(lex("1.5").unwrap_err().kind, LexingErrorKind::InvalidCharacter('.'));
    assert_eq!(lex("3é").unwrap_err().kind, LexingErrorKind::InvalidCharacter('é'));
    assert_eq!(lex("\n").unwrap_err().kind, LexingErrorKind::InvalidCharacter('\n'));
    assert_eq!(lex("Ġ").unwrap_err().kind, LexingErrorKind::InvalidCharacter('Ġ'));
}

#[test]
fn lexing_error_messages() {
    let err = LexingError { kind: LexingErrorKind::LiteralTooLarge };
    assert_eq!(err.message(), "number literal is too large");
}

#[test]
fn token_text() {
    assert_eq!(Token::Operator('^').to_string(), "^");
    assert_eq!(Token::Number(0).to_string(), "0");
    assert_eq!(Token::Number(4096).to_string(), "4096");
    assert_eq!(Token::Number(u32::MAX).to_string(), "4294967295");
    assert_eq!(Token::Paren(')').to_string(), ")");
    assert_eq!(Token::WhiteSpace.to_string(), " ");
    assert_eq!(Token::EndOfInput.to_string(), "EndOfInput");
}

#[test]
fn multiplication_binds_tighter_than_addition() {
    let tree = parse("2+3*4").unwrap();
    assert_eq!(tree, bin('+', num(2), bin('*', num(3), num(4))));
    assert_eq!(tree.simplify(), num(14));
}

#[test]
fn parenthesized_group() {
    let tree = parse("(2+3)*4").unwrap();
    assert_eq!(
        tree,
        bin('*', Expression::Parenthesized(Box::new(bin('+', num(2), num(3)))), num(4))
    );
    assert_eq!(tree.simplify(), num(20));
}

#[test]
fn blanks_around_terms() {
    assert_eq!(eval(" ( 2 + 3 ) * 4 "), num(20));
    assert_eq!(eval("\t7 -\t2"), num(5));
}

#[test]
fn missing_closing_paren() {
    let err = parse("1+(2").unwrap_err();
    assert_eq!(err.kind, ParsingErrorKind::MissingClosingParen);
    assert_eq!(err.message(), "input is missing a closing paren");
    assert_eq!(parse("((1)").unwrap_err().kind, ParsingErrorKind::MissingClosingParen);
}

#[test]
fn two_literals_without_operator() {
    let err = parse("1 2").unwrap_err();
    assert_eq!(err.kind, ParsingErrorKind::ExpectedOperator(Token::Number(2)));
    assert_eq!(err.message(), "expected operator, found '2' instead.");
    assert_eq!(
        parse("(1)(2)").unwrap_err().kind,
        ParsingErrorKind::ExpectedOperator(Token::Paren('('))
    );
}

#[test]
fn operand_missing() {
    let err = parse("1+*2").unwrap_err();
    assert_eq!(err.kind, ParsingErrorKind::ExpectedNumber(Token::Operator('*')));
    assert_eq!(err.message(), "expected a number, found '*'");
    assert_eq!(parse("").unwrap_err().kind, ParsingErrorKind::ExpectedNumber(Token::EndOfInput));
    assert_eq!(
        parse("- 5").unwrap_err().kind,
        ParsingErrorKind::ExpectedNumber(Token::WhiteSpace)
    );
    assert_eq!(parse("()").unwrap_err().kind, ParsingErrorKind::ExpectedNumber(Token::EndOfInput));
}

#[test]
fn division_folds_or_is_undefined() {
    assert_eq!(eval("6/2"), num(3));
    assert_eq!(eval("5/0"), Expression::SingleValue(Value::Undefined));
    assert_eq!(eval("7/2"), num(3));
    assert_eq!(eval("-7/2"), num(-3));
}

#[test]
fn simplify_twice_is_simplify_once() {
    for text in ["2+3*4", "(2+3)*4", "-(1-8)/2", "5/0", "2^3", "-0"] {
        let once = parse(text).unwrap().simplify();
        let twice = parse(text).unwrap().simplify().simplify();
        assert_eq!(once, twice);
    }
}

#[test]
fn negation() {
    assert_eq!(eval("-(2+3)"), num(-5));
    assert_eq!(eval("-0"), num(0));
    assert_eq!(eval("+4"), num(4));
    assert_eq!(
        parse("-(2)").unwrap(),
        Expression::Signed {
            sign: '-',
            expression: Box::new(Expression::Parenthesized(Box::new(num(2)))),
        }
    );
}

#[test]
fn left_associative_chains() {
    assert_eq!(eval("10-3-2"), num(5));
    assert_eq!(eval("64/4/2"), num(8));
    assert_eq!(
        parse("2^3^2").unwrap(),
        bin('^', bin('^', num(2), num(3)), num(2))
    );
}

#[test]
fn power_has_no_value() {
    assert_eq!(eval("2^3"), Expression::SingleValue(Value::Undefined));
    assert_eq!(eval("1+2^3"), Expression::SingleValue(Value::Undefined));
}

#[test]
fn overflow_is_undefined() {
    assert_eq!(eval("2147483647+1"), Expression::SingleValue(Value::Undefined));
    assert_eq!(eval("65536*65536"), Expression::SingleValue(Value::Undefined));
    assert_eq!(eval("0-2147483647-1"), num(i32::MIN));
    assert_eq!(eval("-(0-2147483647-1)"), Expression::SingleValue(Value::Undefined));
}

#[test]
fn nested_groups() {
    assert_eq!(eval("((2))*((3+(4)))"), num(14));
}

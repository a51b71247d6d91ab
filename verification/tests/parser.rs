use calculator::lex::{Lexer, Op, Token};
use calculator::parse::ast::{Binary, Node, Unary};
use calculator::parse::stream::Stream;
use calculator::parse::{is_numeral, ParseError, Parser};

fn parse(text: &str) -> Result<Vec<Node>, ParseError> {
    let tokens = Lexer::new(text).lex().unwrap();
    Parser::new(Stream::new(tokens)).parse()
}

fn one(text: &str) -> Node {
    let mut forest = parse(text).unwrap();
    assert_eq!(forest.len(), 1);
    forest.remove(0)
}

fn num(text: &str) -> Node {
    Node::Const(text.to_string())
}

fn name(text: &str) -> Node {
    Node::Id(text.to_string())
}

fn bin(op: Binary, left: Node, right: Node) -> Node {
    Node::BinOp(op, Box::new(left), Box::new(right))
}

fn un(op: Unary, operand: Node) -> Node {
    Node::UnOp(op, Box::new(operand))
}

fn call(function: &str, args: Vec<Node>) -> Node {
    Node::Call(function.to_string(), args)
}

#[test]
fn product_binds_tighter_than_sum() {
    assert_eq!(
        one("1+2*3"),
        bin(Binary::Add, num("1"), bin(Binary::Mul, num("2"), num("3")))
    );
    assert_eq!(
        one("1*2+3"),
        bin(Binary::Add, bin(Binary::Mul, num("1"), num("2")), num("3"))
    );
}

#[test]
fn parentheses_group() {
    assert_eq!(
        one("(1+2)*3"),
        bin(Binary::Mul, bin(Binary::Add, num("1"), num("2")), num("3"))
    );
    assert_eq!(one("((x))"), name("x"));
}

#[test]
fn sums_and_products_group_to_the_left() {
    assert_eq!(
        one("1-2-3"),
        bin(Binary::Sub, bin(Binary::Sub, num("1"), num("2")), num("3"))
    );
    assert_eq!(
        one("8/4/2"),
        bin(Binary::Div, bin(Binary::Div, num("8"), num("4")), num("2"))
    );
    assert_eq!(
        one("1-2+3"),
        bin(Binary::Add, bin(Binary::Sub, num("1"), num("2")), num("3"))
    );
}

#[test]
fn powers_group_to_the_right() {
    assert_eq!(
        one("2**3**2"),
        bin(Binary::Pow, num("2"), bin(Binary::Pow, num("3"), num("2")))
    );
}

#[test]
fn power_binds_tighter_than_product() {
    assert_eq!(
        one("2*3**2"),
        bin(Binary::Mul, num("2"), bin(Binary::Pow, num("3"), num("2")))
    );
}

#[test]
fn sign_wraps_the_whole_power_in_the_tree() {
    assert_eq!(
        one("-2**2"),
        un(Unary::Neg, bin(Binary::Pow, num("2"), num("2")))
    );
    assert_eq!(
        one("2**-2"),
        bin(Binary::Pow, num("2"), un(Unary::Neg, num("2")))
    );
    assert_eq!(one("+x"), un(Unary::Pos, name("x")));
    assert_eq!(one("--x"), un(Unary::Neg, un(Unary::Neg, name("x"))));
}

#[test]
fn sign_binds_tighter_than_product_and_sum() {
    assert_eq!(
        one("-2*3"),
        bin(Binary::Mul, un(Unary::Neg, num("2")), num("3"))
    );
    assert_eq!(
        one("1--2"),
        bin(Binary::Sub, num("1"), un(Unary::Neg, num("2")))
    );
}

#[test]
fn name_followed_by_parenthesis_is_a_call() {
    assert_eq!(one("pi"), name("pi"));
    assert_eq!(one("five()"), call("five", vec![]));
    assert_eq!(one("five ( )"), call("five", vec![]));
    assert_eq!(
        one("sum(1,2,3)"),
        call("sum", vec![num("1"), num("2"), num("3")])
    );
    assert_eq!(
        one("f(g(x), 1+2)"),
        call(
            "f",
            vec![
                call("g", vec![name("x")]),
                bin(Binary::Add, num("1"), num("2"))
            ]
        )
    );
}

#[test]
fn group_in_parentheses_is_called_by_no_one() {
    assert_eq!(parse("(f)(1)").unwrap(), vec![name("f"), num("1")]);
}

#[test]
fn call_is_an_operand_like_any_other() {
    assert_eq!(
        one("2*f(x)**2"),
        bin(
            Binary::Mul,
            num("2"),
            bin(Binary::Pow, call("f", vec![name("x")]), num("2"))
        )
    );
}

#[test]
fn statements_follow_each_other() {
    assert_eq!(parse("").unwrap(), Vec::<Node>::new());
    assert_eq!(parse("1 2 x").unwrap(), vec![num("1"), num("2"), name("x")]);
    assert_eq!(
        parse("1 (2)").unwrap(),
        vec![num("1"), num("2")]
    );
    assert_eq!(
        parse("a b+c").unwrap(),
        vec![name("a"), bin(Binary::Add, name("b"), name("c"))]
    );
}

#[test]
fn blanks_do_not_change_the_tree() {
    let tight = one("1+2");
    assert_eq!(tight, bin(Binary::Add, num("1"), num("2")));
    assert_eq!(one("1 + 2"), tight);
    assert_eq!(one("1\n+\t2"), tight);
}

#[test]
fn constants_keep_their_text() {
    assert_eq!(one("3.14"), num("3.14"));
    assert_eq!(one("5."), num("5."));
    assert_eq!(one("007"), num("007"));
}

#[test]
fn constant_with_two_points_is_rejected() {
    assert_eq!(parse("1.2.3"), Err(ParseError::InvalidConstant));
    assert_eq!(parse("1+1..2"), Err(ParseError::InvalidConstant));
}

#[test]
fn constant_that_is_no_numeral_is_rejected() {
    let parse_tokens = |tokens: Vec<Token>| Parser::new(Stream::new(tokens)).parse();
    assert_eq!(
        parse_tokens(vec![Token::Const("".to_string())]),
        Err(ParseError::InvalidConstant)
    );
    assert_eq!(
        parse_tokens(vec![Token::Const(".5".to_string())]),
        Err(ParseError::InvalidConstant)
    );
    assert_eq!(
        parse_tokens(vec![Token::Const("1e5".to_string())]),
        Err(ParseError::InvalidConstant)
    );
    assert_eq!(
        parse_tokens(vec![Token::Const("12".to_string())]),
        Ok(vec![num("12")])
    );
}

#[test]
fn missing_operand_is_an_unexpected_end() {
    assert_eq!(parse("1+"), Err(ParseError::UnexpectedEnd));
    assert_eq!(parse("2**"), Err(ParseError::UnexpectedEnd));
    assert_eq!(parse("-"), Err(ParseError::UnexpectedEnd));
    assert_eq!(parse("("), Err(ParseError::UnexpectedEnd));
    assert_eq!(parse("f("), Err(ParseError::UnexpectedEnd));
    assert_eq!(parse("f(1,"), Err(ParseError::UnexpectedEnd));
}

#[test]
fn token_that_starts_no_operand_is_unexpected() {
    assert_eq!(parse(")"), Err(ParseError::UnexpectedToken));
    assert_eq!(parse("*2"), Err(ParseError::UnexpectedToken));
    assert_eq!(parse("1+*2"), Err(ParseError::UnexpectedToken));
    assert_eq!(parse(","), Err(ParseError::UnexpectedToken));
    assert_eq!(parse("1 )"), Err(ParseError::UnexpectedToken));
    assert_eq!(parse("f(,)"), Err(ParseError::UnexpectedToken));
    assert_eq!(parse("f(1,)"), Err(ParseError::UnexpectedToken));
    assert_eq!(parse("()"), Err(ParseError::UnexpectedToken));
    assert_eq!(parse("1 + $"), Err(ParseError::UnexpectedToken));
}

#[test]
fn unclosed_group_is_a_missing_parenthesis() {
    assert_eq!(parse("(1+2"), Err(ParseError::MissingParen));
    assert_eq!(parse("(1 2)"), Err(ParseError::MissingParen));
    assert_eq!(parse("f(1"), Err(ParseError::MissingParen));
    assert_eq!(parse("f(1 2)"), Err(ParseError::MissingParen));
    assert_eq!(parse("((1)"), Err(ParseError::MissingParen));
}

#[test]
fn parser_starts_where_the_stream_stands() {
    let tokens = vec![
        Token::RParen,
        Token::Const("1".to_string()),
        Token::Operator(Op::Add),
        Token::Const("2".to_string()),
    ];
    let mut stream = Stream::new(tokens);
    stream.pop();
    assert_eq!(
        Parser::new(stream).parse(),
        Ok(vec![bin(Binary::Add, num("1"), num("2"))])
    );
}

#[test]
fn parsing_twice_finds_nothing_more() {
    let tokens = Lexer::new("1+2").lex().unwrap();
    let mut parser = Parser::new(Stream::new(tokens));
    assert_eq!(parser.parse().unwrap().len(), 1);
    assert_eq!(parser.parse(), Ok(vec![]));
}

#[test]
fn text_with_all_parentheses_reads_back() {
    assert_eq!(
        one("((1+(-x))*f(2,(3**y)))"),
        bin(
            Binary::Mul,
            bin(Binary::Add, num("1"), un(Unary::Neg, name("x"))),
            call(
                "f",
                vec![num("2"), bin(Binary::Pow, num("3"), name("y"))]
            )
        )
    );
    assert_eq!(
        one("((a-b)-(c/(+d)))"),
        bin(
            Binary::Sub,
            bin(Binary::Sub, name("a"), name("b")),
            bin(Binary::Div, name("c"), un(Unary::Pos, name("d")))
        )
    );
    assert_eq!(one("g()"), call("g", vec![]));
    assert_eq!(one("g((1**2))"), call("g", vec![bin(Binary::Pow, num("1"), num("2"))]));
}

#[test]
fn numerals_are_digits_with_at_most_one_point() {
    assert!(is_numeral("0"));
    assert!(is_numeral("42"));
    assert!(is_numeral("3.14"));
    assert!(is_numeral("5."));
    assert!(is_numeral("007.5"));
    assert!(!is_numeral(""));
    assert!(!is_numeral("."));
    assert!(!is_numeral(".5"));
    assert!(!is_numeral("1.2.3"));
    assert!(!is_numeral("1..2"));
    assert!(!is_numeral("1e5"));
    assert!(!is_numeral("-1"));
    assert!(!is_numeral("1 "));
    assert!(!is_numeral("\u{661}"));
}

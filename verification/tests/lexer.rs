use calculator::lex::radix::Node;
use calculator::lex::scan::CharClass;
use calculator::lex::{Lexer, Op, Token};

fn lex(text: &str) -> Vec<Token> {
    Lexer::new(text).lex().unwrap()
}

fn id(name: &str) -> Token {
    Token::ID(name.to_string())
}

fn constant(text: &str) -> Token {
    Token::Const(text.to_string())
}

#[test]
fn double_star_is_one_power_operator() {
    assert_eq!(lex("**"), vec![Token::Operator(Op::Pow)]);
}

#[test]
fn triple_star_is_power_then_times() {
    assert_eq!(lex("***"), vec![Token::Operator(Op::Pow), Token::Operator(Op::Mul)]);
}

#[test]
fn each_operator_symbol_gives_its_operator() {
    assert_eq!(
        lex("+-*/"),
        vec![
            Token::Operator(Op::Add),
            Token::Operator(Op::Sub),
            Token::Operator(Op::Mul),
            Token::Operator(Op::Div),
        ]
    );
}

#[test]
fn stars_apart_are_two_times_operators() {
    assert_eq!(lex("* *"), vec![Token::Operator(Op::Mul), Token::Operator(Op::Mul)]);
}

#[test]
fn empty_text_has_no_tokens() {
    assert_eq!(lex(""), Vec::<Token>::new());
    assert_eq!(lex(" \t\n "), Vec::<Token>::new());
}

#[test]
fn blanks_at_the_end_are_dropped() {
    assert_eq!(lex("1 "), vec![constant("1")]);
    assert_eq!(lex("x\n"), vec![id("x")]);
}

#[test]
fn literal_keeps_its_raw_text() {
    assert_eq!(lex("3.14"), vec![constant("3.14")]);
    assert_eq!(lex("007"), vec![constant("007")]);
    assert_eq!(lex("1.2.3"), vec![constant("1.2.3")]);
    assert_eq!(lex("5."), vec![constant("5.")]);
}

#[test]
fn point_cannot_start_a_literal() {
    assert_eq!(lex(".5"), vec![Token::Unknown(".5".to_string())]);
}

#[test]
fn names_are_runs_of_letters_and_underscores() {
    assert_eq!(lex("foo_Bar"), vec![id("foo_Bar")]);
    assert_eq!(lex("_x"), vec![id("_x")]);
    assert_eq!(lex("a1"), vec![id("a"), constant("1")]);
    assert_eq!(lex("1a"), vec![constant("1"), id("a")]);
}

#[test]
fn punctuation_gives_one_token_each() {
    assert_eq!(
        lex("(),"),
        vec![Token::LParen, Token::RParen, Token::Comma]
    );
}

#[test]
fn tokens_come_in_the_order_of_the_text() {
    assert_eq!(
        lex("sum(1, x**2)-3.5"),
        vec![
            id("sum"),
            Token::LParen,
            constant("1"),
            Token::Comma,
            id("x"),
            Token::Operator(Op::Pow),
            constant("2"),
            Token::RParen,
            Token::Operator(Op::Sub),
            constant("3.5"),
        ]
    );
}

#[test]
fn blanks_do_not_change_the_tokens() {
    let tight = lex("1+2");
    assert_eq!(tight, vec![constant("1"), Token::Operator(Op::Add), constant("2")]);
    assert_eq!(lex("1 + 2"), tight);
    assert_eq!(lex("1\n+\t2"), tight);
    assert_eq!(lex("  1+2  "), tight);
}

#[test]
fn unknown_runs_to_the_end_of_the_line() {
    assert_eq!(lex("# 1+2"), vec![Token::Unknown("# 1+2".to_string())]);
    assert_eq!(
        lex("1 $ oops\n2"),
        vec![constant("1"), Token::Unknown("$ oops".to_string()), constant("2")]
    );
}

#[test]
fn text_beyond_ascii_is_swept_into_unknown() {
    assert_eq!(
        lex("1+\u{e9}t\u{e9}\n2"),
        vec![
            constant("1"),
            Token::Operator(Op::Add),
            Token::Unknown("\u{e9}t\u{e9}".to_string()),
            constant("2"),
        ]
    );
    assert_eq!(lex("\u{3c0}"), vec![Token::Unknown("\u{3c0}".to_string())]);
}

#[test]
fn lexing_twice_finds_nothing_more() {
    let mut lexer = Lexer::new("1+2");
    assert_eq!(lexer.lex().unwrap().len(), 3);
    assert_eq!(lexer.lex().unwrap(), Vec::<Token>::new());
}

#[test]
fn operator_character_without_a_symbol_fails() {
    let mut table: Node<Op> = Node::new();
    table.insert("**", Op::Pow);
    table.insert("-", Op::Sub);
    let error = Lexer::with_operators("2*3", table).lex().unwrap_err();
    assert_eq!(error.message(), "encountered an incomplete operator");
}

#[test]
fn unregistered_operator_character_fails() {
    let mut table: Node<Op> = Node::new();
    table.insert("-", Op::Sub);
    assert!(Lexer::with_operators("1+2", table).lex().is_err());
}

#[test]
fn table_decides_the_longest_symbol() {
    let mut table: Node<Op> = Node::new();
    table.insert("**", Op::Pow);
    table.insert("-", Op::Sub);
    table.insert("--", Op::Add);
    assert_eq!(
        Lexer::with_operators("2**3--1-", table).lex().unwrap(),
        vec![
            constant("2"),
            Token::Operator(Op::Pow),
            constant("3"),
            Token::Operator(Op::Add),
            constant("1"),
            Token::Operator(Op::Sub),
        ]
    );
}

#[test]
fn symbol_that_stops_short_of_a_longer_one_fails() {
    let mut table: Node<Op> = Node::new();
    table.insert("+", Op::Add);
    table.insert("+-+", Op::Sub);
    assert_eq!(
        Lexer::with_operators("1+2", table).lex().unwrap().len(),
        3
    );
    let mut table: Node<Op> = Node::new();
    table.insert("+", Op::Add);
    table.insert("+-+", Op::Sub);
    assert!(Lexer::with_operators("1+-2", table).lex().is_err());
}

#[test]
fn empty_symbol_is_no_operator() {
    let mut table: Node<Op> = Node::new();
    table.insert("", Op::Add);
    assert!(Lexer::with_operators("+", table).lex().is_err());
}

#[test]
fn character_classes_hold_their_characters() {
    for c in [' ', '\n', '\t'] {
        assert!(CharClass::Space.contains(c));
    }
    for c in ['\r', 'a', '0', '\u{a0}'] {
        assert!(!CharClass::Space.contains(c));
    }
    for c in ['0', '5', '9', '.'] {
        assert!(CharClass::Literal.contains(c));
    }
    for c in ['/', ':', 'e', '-', ','] {
        assert!(!CharClass::Literal.contains(c));
    }
    for c in ['a', 'z', 'A', 'Z', '_', 'm'] {
        assert!(CharClass::Name.contains(c));
    }
    for c in ['0', '`', '{', '@', '[', '\u{e9}', '-'] {
        assert!(!CharClass::Name.contains(c));
    }
    assert!(!CharClass::Line.contains('\n'));
    for c in [' ', '\t', '\r', 'x', '\u{3c0}'] {
        assert!(CharClass::Line.contains(c));
    }
}

#[test]
fn carriage_return_is_no_blank() {
    assert_eq!(
        lex("1\r\n2"),
        vec![constant("1"), Token::Unknown("\r".to_string()), constant("2")]
    );
}

#[test]
fn long_text_is_lexed_token_by_token() {
    let text = "1+".repeat(2000) + "1";
    let tokens = lex(&text);
    assert_eq!(tokens.len(), 4001);
    assert_eq!(tokens[0], constant("1"));
    assert_eq!(tokens[1], Token::Operator(Op::Add));
    assert_eq!(tokens[4000], constant("1"));
}

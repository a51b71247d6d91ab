//! The lexer: from a text to its tokens.
//!
//! [`scan`] says what the tokens of a text are; [`Lexer`] computes them,
//! with a prefix tree ([`radix`]) as its operator table; [`laws`] holds
//! what follows for the operators `+ - * / **` and for blanks.

pub mod error;
pub mod laws;
pub mod radix;
pub mod scan;

use crate::lex::error::Error;
use crate::lex::radix::{lemma_suffixes_step, suffixes};
use crate::lex::scan::{
    first_token, is_operator_char, lemma_first_token, lemma_run, lemma_run_is, lemma_walk,
    operator, run, tokens, trimmed, walk, CharClass,
};
use vstd::prelude::*;
use vstd::string::*;

verus! {

/// The operators of the expression language.
#[derive(Debug, Copy, Clone, PartialEq, Eq, Structural)]
pub enum Op {
    Add,
    Sub,
    Mul,
    Div,
    Pow,
}

/// A classified piece of the input text.
#[derive(Debug, PartialEq)]
pub enum Token {
    Unknown(String),
    Operator(Op),
    Const(String),
    ID(String),
    LParen,
    RParen,
    Comma,
}

/// The mathematical content of a [`Token`]: its kind and its raw text.
pub enum Lexeme {
    Unknown(Seq<char>),
    Operator(Op),
    Const(Seq<char>),
    ID(Seq<char>),
    LParen,
    RParen,
    Comma,
}

impl View for Token {
    type V = Lexeme;

    open spec fn view(&self) -> Lexeme {
        match self {
            Token::Unknown(text) => Lexeme::Unknown(text@),
            Token::Operator(op) => Lexeme::Operator(*op),
            Token::Const(text) => Lexeme::Const(text@),
            Token::ID(name) => Lexeme::ID(name@),
            Token::LParen => Lexeme::LParen,
            Token::RParen => Lexeme::RParen,
            Token::Comma => Lexeme::Comma,
        }
    }
}

/// The lexemes that a sequence of tokens stands for, in order.
pub open spec fn lexemes(tokens: Seq<Token>) -> Seq<Lexeme> {
    tokens.map_values(|token: Token| token@)
}

/// The operators of the language under their symbols.
pub open spec fn standard_operators() -> Map<Seq<char>, Op> {
    Map::empty().insert("+"@, Op::Add).insert("-"@, Op::Sub).insert("*"@, Op::Mul).insert(
        "/"@,
        Op::Div,
    ).insert("**"@, Op::Pow)
}

/// The words of the one lexing failure: an operator character at which
/// the table knows no operator.
pub open spec fn incomplete_operator() -> Seq<char> {
    "encountered an incomplete operator"@
}

/// The tokens that follow the tokens `front`.
pub open spec fn followed(front: Seq<Lexeme>, rest: Option<Seq<Lexeme>>) -> Option<Seq<Lexeme>> {
    match rest {
        Some(rest) => Some(front + rest),
        None => None,
    }
}

/// A lexer over a text: it hands out the tokens of what is left of the
/// text, from the front.
pub struct Lexer<'a> {
    string: &'a str,
    chars: Vec<char>,
    ascii: bool,
    position: usize,
    optree: radix::Node<Op>,
}

impl<'a> Lexer<'a> {
    #[verifier::type_invariant]
    spec fn inv(&self) -> bool {
        &&& self.chars@ == self.string@
        &&& self.ascii == self.string.is_ascii()
        &&& self.position <= self.chars@.len()
        &&& self.optree.wf()
    }

    /// The part of the text that is not lexed yet.
    pub closed spec fn remaining(&self) -> Seq<char> {
        self.chars@.skip(self.position as int)
    }

    /// The operator table: the symbols and what they stand for.
    pub closed spec fn operators(&self) -> Map<Seq<char>, Op> {
        self.optree@
    }

    /// A lexer over `string` that knows the operators `+ - * / **`.
    pub fn new(string: &'a str) -> (lexer: Lexer<'a>)
        ensures
            lexer.remaining() == string@,
            lexer.operators() == standard_operators(),
    {
        let mut radix = radix::Node::new();
        radix.insert("+", Op::Add);
        radix.insert("-", Op::Sub);
        radix.insert("*", Op::Mul);
        radix.insert("/", Op::Div);
        radix.insert("**", Op::Pow);
        Lexer::with_operators(string, radix)
    }

    /// A lexer over `string` that knows the operators of `optree`.
    pub fn with_operators(string: &'a str, optree: radix::Node<Op>) -> (lexer: Lexer<'a>)
        requires
            optree.wf(),
        ensures
            lexer.remaining() == string@,
            lexer.operators() == optree@,
    {
        let mut chars: Vec<char> = Vec::new();
        for c in it: string.chars()
            invariant
                it.seq() == string@,
                chars@ == string@.take(it.index() as int),
        {
            chars.push(c);
        }
        assert(chars@ =~= string@);
        assert(chars@.skip(0) =~= chars@);
        Lexer { string, chars, ascii: string.is_ascii(), position: 0, optree }
    }

    /// Lexes what is left of the text.
    pub fn lex(&mut self) -> (result: Result<Vec<Token>, Error>)
        ensures
            final(self).operators() == old(self).operators(),
            match tokens(old(self).operators(), old(self).remaining()) {
                Some(expected) => {
                    &&& result matches Ok(found) && lexemes(found@) == expected
                    &&& final(self).remaining().len() == 0
                },
                None => result matches Err(e) && e@ == incomplete_operator(),
            },
    {
        let mut found: Vec<Token> = Vec::new();
        let ghost table = self.operators();
        proof {
            assert(lexemes(found@) =~= Seq::empty());
            if let Some(rest) = tokens(table, self.remaining()) {
                assert(Seq::<Lexeme>::empty() + rest =~= rest);
            }
        }
        loop
            invariant
                self.operators() == table,
                table == old(self).operators(),
                tokens(table, old(self).remaining()) == followed(
                    lexemes(found@),
                    tokens(table, self.remaining()),
                ),
            decreases self.remaining().len(),
        {
            let ghost before = self.remaining();
            let ghost front = lexemes(found@);
            proof {
                lemma_run(before, CharClass::Space);
                if trimmed(before).len() > 0 {
                    lemma_first_token(table, trimmed(before));
                }
            }
            match self.lexeme()? {
                Some(token) => {
                    found.push(token);
                    proof {
                        assert(lexemes(found@) =~= front.push(token@));
                        if let Some(rest) = tokens(table, self.remaining()) {
                            assert(front.push(token@) + rest =~= front + (seq![token@] + rest));
                        }
                    }
                },
                None => {
                    proof {
                        assert(front + Seq::<Lexeme>::empty() =~= front);
                    }
                    return Ok(found);
                },
            }
        }
    }

    /// Skips blanks and lexes one token, if the text goes on.
    fn lexeme(&mut self) -> (result: Result<Option<Token>, Error>)
        ensures
            final(self).operators() == old(self).operators(),
            trimmed(old(self).remaining()).len() == 0 ==> {
                &&& result matches Ok(None)
                &&& final(self).remaining().len() == 0
            },
            trimmed(old(self).remaining()).len() > 0 ==> match first_token(
                old(self).operators(),
                trimmed(old(self).remaining()),
            ) {
                Some((lexeme, n)) => {
                    &&& result matches Ok(Some(token)) && token@ == lexeme
                    &&& final(self).remaining() == trimmed(old(self).remaining()).skip(n as int)
                },
                None => result matches Err(e) && e@ == incomplete_operator(),
            },
    {
        self.whitespace();
        proof {
            use_type_invariant(&*self);
        }
        if self.position >= self.chars.len() {
            return Ok(None);
        }
        let c = self.chars[self.position];
        assert(c == self.remaining()[0]);
        if '0' <= c && c <= '9' {
            Ok(Some(self.number()))
        } else if ('a' <= c && c <= 'z') || ('A' <= c && c <= 'Z') || c == '_' {
            Ok(Some(self.id()))
        } else if c == '+' || c == '-' || c == '*' || c == '/' {
            match self.op() {
                Ok(token) => Ok(Some(token)),
                Err(e) => Err(e),
            }
        } else if c == '(' {
            Ok(Some(self.lparen()))
        } else if c == ')' {
            Ok(Some(self.rparen()))
        } else if c == ',' {
            Ok(Some(self.comma()))
        } else {
            Ok(Some(self.unknown()))
        }
    }

    /// Skips the blanks at the front of the text.
    fn whitespace(&mut self)
        ensures
            final(self).operators() == old(self).operators(),
            final(self).remaining() == trimmed(old(self).remaining()),
    {
        let n = self.end_of_whitespace();
        proof {
            lemma_run(self.remaining(), CharClass::Space);
        }
        self.skip(n);
    }

    /// The number of blanks at the front of the text.
    fn end_of_whitespace(&self) -> (n: usize)
        ensures
            n == run(self.remaining(), CharClass::Space),
    {
        self.run_length(CharClass::Space)
    }

    /// The length of the run of `class` at the front of the text.
    fn run_length(&self, class: CharClass) -> (n: usize)
        ensures
            n == run(self.remaining(), class),
    {
        proof {
            use_type_invariant(self);
        }
        let mut i = self.position;
        while i < self.chars.len() && class.contains(self.chars[i])
            invariant
                self.position <= i <= self.chars@.len(),
                forall|j: int|
                    0 <= j < i - self.position ==> class.holds(#[trigger] self.remaining()[j]),
            decreases self.chars@.len() - i,
        {
            i += 1;
        }
        proof {
            lemma_run_is(self.remaining(), class, (i - self.position) as nat);
        }
        i - self.position
    }

    fn comma(&mut self) -> (token: Token)
        requires
            old(self).remaining().len() > 0,
        ensures
            token == Token::Comma,
            final(self).operators() == old(self).operators(),
            final(self).remaining() == old(self).remaining().skip(1),
    {
        self.skip(1);
        Token::Comma
    }

    fn lparen(&mut self) -> (token: Token)
        requires
            old(self).remaining().len() > 0,
        ensures
            token == Token::LParen,
            final(self).operators() == old(self).operators(),
            final(self).remaining() == old(self).remaining().skip(1),
    {
        self.skip(1);
        Token::LParen
    }

    fn rparen(&mut self) -> (token: Token)
        requires
            old(self).remaining().len() > 0,
        ensures
            token == Token::RParen,
            final(self).operators() == old(self).operators(),
            final(self).remaining() == old(self).remaining().skip(1),
    {
        self.skip(1);
        Token::RParen
    }

    /// Lexes a numeric literal: the run of digits and points at the front.
    fn number(&mut self) -> (token: Token)
        ensures
            final(self).operators() == old(self).operators(),
            token@ == Lexeme::Const(
                old(self).remaining().take(run(old(self).remaining(), CharClass::Literal) as int),
            ),
            final(self).remaining() == old(self).remaining().skip(
                run(old(self).remaining(), CharClass::Literal) as int,
            ),
    {
        let n = self.run_length(CharClass::Literal);
        proof {
            lemma_run(self.remaining(), CharClass::Literal);
        }
        Token::Const(self.advance(n))
    }

    /// Lexes a name: the run of letters and underscores at the front.
    fn id(&mut self) -> (token: Token)
        ensures
            final(self).operators() == old(self).operators(),
            token@ == Lexeme::ID(
                old(self).remaining().take(run(old(self).remaining(), CharClass::Name) as int),
            ),
            final(self).remaining() == old(self).remaining().skip(
                run(old(self).remaining(), CharClass::Name) as int,
            ),
    {
        let n = self.run_length(CharClass::Name);
        proof {
            lemma_run(self.remaining(), CharClass::Name);
        }
        Token::ID(self.advance(n))
    }

    /// Lexes an operator: the symbol at the front that the table knows.
    fn op(&mut self) -> (result: Result<Token, Error>)
        requires
            old(self).remaining().len() > 0,
            is_operator_char(old(self).remaining()[0]),
        ensures
            final(self).operators() == old(self).operators(),
            match first_token(old(self).operators(), old(self).remaining()) {
                Some((lexeme, n)) => {
                    &&& result matches Ok(token) && token@ == lexeme
                    &&& final(self).remaining() == old(self).remaining().skip(n as int)
                },
                None => result matches Err(e) && e@ == incomplete_operator(),
            },
    {
        proof {
            use_type_invariant(&*self);
            lemma_walk(self.operators(), self.remaining(), 0);
        }
        let len = self.chars.len();
        match self.find_op_end() {
            Some((index, op)) => {
                if index > 0 {
                    self.skip(index);
                    Ok(Token::Operator(op))
                } else {
                    Err(Error::new("encountered an incomplete operator".to_owned()))
                }
            },
            None => Err(Error::new("encountered an incomplete operator".to_owned())),
        }
    }

    /// Follows the operator table along the front of the text, as far as
    /// it goes, and reports the symbol spelled on the way and its length.
    fn find_op_end(&self) -> (found: Option<(usize, Op)>)
        ensures
            match operator(self.operators(), self.remaining()) {
                Some((op, n)) => found == Some((n as usize, op)),
                None => found is None,
            },
            found matches Some((n, _)) ==> n <= self.remaining().len(),
    {
        proof {
            use_type_invariant(self);
        }
        let ghost table = self.operators();
        let ghost s = self.remaining();
        let mut cursor = self.optree.cursor();
        let mut i = self.position;
        assert(s.take(0) =~= Seq::empty());
        assert(cursor@ =~= suffixes(table, s.take(0))) by {
            assert forall|rest: Seq<char>| Seq::<char>::empty() + rest == rest by {
                assert(Seq::<char>::empty() + rest =~= rest);
            }
        }
        while i < self.chars.len()
            invariant
                table == self.operators(),
                s == self.remaining(),
                self.position <= i <= self.chars@.len(),
                cursor@ == suffixes(table, s.take(i - self.position)),
                walk(table, s, 0) == walk(table, s, (i - self.position) as nat),
            decreases self.chars@.len() - i,
        {
            let ghost n = i - self.position;
            proof {
                lemma_suffixes_step(table, s.take(n), s[n]);
                assert(s.take(n).push(s[n]) =~= s.take(n + 1));
            }
            if !cursor.visit(self.chars[i]) {
                proof {
                    assert(s.take(n) + Seq::<char>::empty() =~= s.take(n));
                }
                return match cursor.payload() {
                    None => None,
                    Some(op) => Some((i - self.position, op)),
                };
            }
            i += 1;
        }
        proof {
            let n = i - self.position;
            assert(s.take(n) + Seq::<char>::empty() =~= s.take(n));
        }
        match cursor.payload() {
            None => None,
            Some(op) => Some((i - self.position, op)),
        }
    }

    /// Lexes what cannot start a token: everything up to the end of the
    /// line.
    fn unknown(&mut self) -> (token: Token)
        ensures
            final(self).operators() == old(self).operators(),
            token@ == Lexeme::Unknown(
                old(self).remaining().take(run(old(self).remaining(), CharClass::Line) as int),
            ),
            final(self).remaining() == old(self).remaining().skip(
                run(old(self).remaining(), CharClass::Line) as int,
            ),
    {
        let n = self.run_length(CharClass::Line);
        proof {
            lemma_run(self.remaining(), CharClass::Line);
        }
        Token::Unknown(self.advance(n))
    }

    /// Moves `n` characters forward.
    fn skip(&mut self, n: usize)
        requires
            n <= old(self).remaining().len(),
        ensures
            final(self).operators() == old(self).operators(),
            final(self).remaining() == old(self).remaining().skip(n as int),
    {
        proof {
            use_type_invariant(&*self);
            assert(self.chars@.skip(self.position as int).skip(n as int) =~= self.chars@.skip(
                self.position + n,
            ));
        }
        let len = self.chars.len();
        assert(self.position + n <= len);
        self.position = self.position + n;
    }

    /// Moves `n` characters forward and hands out the characters passed.
    fn advance(&mut self, n: usize) -> (prefix: String)
        requires
            n <= old(self).remaining().len(),
        ensures
            final(self).operators() == old(self).operators(),
            prefix@ == old(self).remaining().take(n as int),
            final(self).remaining() == old(self).remaining().skip(n as int),
    {
        proof {
            use_type_invariant(&*self);
            assert(self.chars@.skip(self.position as int).take(n as int) =~= self.chars@.subrange(
                self.position as int,
                self.position + n,
            ));
        }
        let len = self.chars.len();
        assert(self.position + n <= len);
        let from = self.position;
        let to = from + n;
        let prefix = if self.ascii {
            self.string.substring_ascii(from, to)
        } else {
            self.string.substring_char(from, to)
        };
        self.skip(n);
        prefix.to_owned()
    }
}

} // verus!

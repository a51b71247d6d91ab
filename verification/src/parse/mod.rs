//! The parser: from tokens to syntax trees, by recursive descent.
//!
//! [`grammar`] says what the tree of a token sequence is; [`Parser`]
//! computes it over a [`stream::Stream`] of tokens; [`laws`] holds what
//! follows from the grammar.

pub mod ast;
pub mod grammar;
pub mod laws;
pub mod stream;

use crate::lex::{lexemes, Lexeme, Op, Token};
use crate::parse::ast::{lemma_call_tree, trees, Binary, Node, Tree, Unary};
use crate::parse::grammar::{is_literal, remaining, Parsed, ParsedList};
use crate::parse::stream::Stream;
use vstd::prelude::*;

verus! {

/// The ways in which a token sequence can fail to be a program.
#[derive(Debug, Copy, Clone, PartialEq, Eq, Structural)]
pub enum ParseError {
    /// The tokens ran out where an operand had to start.
    UnexpectedEnd,
    /// A token stands where an operand had to start and cannot start one.
    UnexpectedToken,
    /// A group or an argument list is not closed by `)`.
    MissingParen,
    /// A constant's text is not a decimal numeral.
    InvalidConstant,
}

impl ParseError {
    /// The words of the error.
    pub open spec fn text(self) -> Seq<char> {
        match self {
            ParseError::UnexpectedEnd => "unexpected end of input"@,
            ParseError::UnexpectedToken => "unexpected lexeme"@,
            ParseError::MissingParen => "expected closing parenthesis"@,
            ParseError::InvalidConstant => "invalid numeric constant"@,
        }
    }

    /// The error, told in words.
    pub fn message(&self) -> (text: String)
        ensures
            text@ == self.text(),
    {
        match self {
            ParseError::UnexpectedEnd => "unexpected end of input".to_owned(),
            ParseError::UnexpectedToken => "unexpected lexeme".to_owned(),
            ParseError::MissingParen => "expected closing parenthesis".to_owned(),
            ParseError::InvalidConstant => "invalid numeric constant".to_owned(),
        }
    }
}

/// Does `result`, reached by moving the cursor from `before` to `after`,
/// deliver what the grammar says?
pub open spec fn agrees(
    result: Result<Node, ParseError>,
    parsed: Parsed,
    before: nat,
    after: nat,
) -> bool {
    match parsed {
        Ok((tree, n)) => result matches Ok(node) && node@ == tree && after == before + n,
        Err(e) => result == Err::<Node, ParseError>(e),
    }
}

/// A list of phrases that follows the trees `front`, which span `n` tokens.
pub open spec fn prefixed(front: Seq<Tree>, n: nat, list: ParsedList) -> ParsedList {
    match list {
        Ok((rest, m)) => Ok((front + rest, n + m)),
        Err(e) => Err(e),
    }
}

/// A list that follows no trees is the list itself.
pub proof fn lemma_prefixed_nothing(list: ParsedList)
    ensures
        prefixed(Seq::empty(), 0, list) == list,
{
    if let Ok((rest, m)) = list {
        assert(Seq::<Tree>::empty() + rest =~= rest);
    }
}

/// A list that follows `front` and `tree` follows `front`, led by `tree`.
pub proof fn lemma_prefixed_one(front: Seq<Tree>, tree: Tree, list: ParsedList)
    ensures
        list matches Ok((rest, m)) ==> front.push(tree) + rest == front + (seq![tree] + rest),
{
    if let Ok((rest, m)) = list {
        assert(front.push(tree) + rest =~= front + (seq![tree] + rest));
    }
}

/// A program that follows the trees `front`.
pub open spec fn continued(front: Seq<Tree>, rest: Result<Seq<Tree>, ParseError>) -> Result<
    Seq<Tree>,
    ParseError,
> {
    match rest {
        Ok(rest) => Ok(front + rest),
        Err(e) => Err(e),
    }
}

/// Decides whether `text` is a decimal numeral.
pub fn is_numeral(text: &str) -> (r: bool)
    ensures
        r == is_literal(text@),
{
    let mut seen_point = false;
    let mut empty = true;
    for c in it: text.chars()
        invariant
            it.seq() == text@,
            empty == (it.index() == 0),
            is_literal(text@.take(it.index() as int)) || it.index() == 0,
            seen_point == exists|i: int| 0 <= i < it.index() && text@[i] == '.',
    {
        let ghost k = it.index() as int;
        proof {
            reveal(is_literal);
        }
        assert(text@[k] == c);
        assert(text@.take(k + 1) =~= text@.take(k).push(c));
        if '0' <= c && c <= '9' {
        } else if c == '.' && !empty && !seen_point {
            seen_point = true;
        } else {
            assert(!is_literal(text@)) by {
                if is_literal(text@) && c == '.' && seen_point {
                    let i = choose|i: int| 0 <= i < k && text@[i] == '.';
                    assert(text@[i] == '.' && text@[k] == '.');
                }
            }
            return false;
        }
        empty = false;
        assert(is_literal(text@.take(k + 1))) by {
            let next = text@.take(k + 1);
            assert forall|i: int, j: int| 0 <= i < j < next.len() implies !(#[trigger] next[i]
                == '.' && #[trigger] next[j] == '.') by {
                if j < k {
                    assert(text@.take(k)[i] == next[i] && text@.take(k)[j] == next[j]);
                }
            }
            assert forall|i: int| 0 <= i < next.len() implies crate::lex::scan::is_literal_char(
                #[trigger] next[i],
            ) by {
                if i < k {
                    assert(text@.take(k)[i] == next[i]);
                }
            }
            if k > 0 {
                assert(text@.take(k)[0] == next[0]);
            }
        }
    }
    proof {
        reveal(is_literal);
        assert(text@.take(text@.len() as int) =~= text@);
    }
    !empty
}

/// A recursive-descent parser over a stream of tokens, with one function
/// for each level of precedence.
pub struct Parser {
    stream: Stream<Token>,
}

impl Parser {
    /// The lexemes of all tokens of the stream, consumed or not.
    #[verifier::opaque]
    pub closed spec fn tokens(&self) -> Seq<Lexeme> {
        lexemes(self.stream@.items)
    }

    /// The number of tokens consumed so far.
    #[verifier::opaque]
    pub closed spec fn position(&self) -> nat {
        self.stream@.position
    }

    pub fn new(stream: Stream<Token>) -> (parser: Self)
        ensures
            parser.tokens() == lexemes(stream@.items),
            parser.position() == stream@.position,
    {
        reveal(Parser::tokens);
        reveal(Parser::position);
        Self { stream }
    }

    /// Takes the next token, if one is left.
    fn pop(&mut self) -> (token: Option<&Token>)
        ensures
            final(self).tokens() == old(self).tokens(),
            match token {
                Some(token) => {
                    &&& old(self).position() < old(self).tokens().len()
                    &&& token@ == old(self).tokens()[old(self).position() as int]
                    &&& final(self).position() == old(self).position() + 1
                },
                None => {
                    &&& old(self).position() >= old(self).tokens().len()
                    &&& final(self).position() == old(self).position()
                },
            },
    {
        reveal(Parser::tokens);
        reveal(Parser::position);
        self.stream.pop()
    }

    /// Puts back the token taken last.
    fn back(&mut self)
        requires
            old(self).position() > 0,
        ensures
            final(self).tokens() == old(self).tokens(),
            final(self).position() == old(self).position() - 1,
    {
        reveal(Parser::tokens);
        reveal(Parser::position);
        self.stream.back()
    }

    /// Is no token left?
    fn finished(&self) -> (done: bool)
        ensures
            self.position() <= self.tokens().len(),
            done == (self.position() == self.tokens().len()),
    {
        reveal(Parser::tokens);
        reveal(Parser::position);
        self.stream.empty()
    }

    /// The number of tokens that are left.
    fn left(&self) -> (n: usize)
        ensures
            n == self.tokens().len() - self.position(),
    {
        reveal(Parser::tokens);
        reveal(Parser::position);
        self.stream.len()
    }

    /// Parses the rest of the stream as a program: statement after
    /// statement until no token is left.
    pub fn parse(&mut self) -> (result: Result<Vec<Node>, ParseError>)
        ensures
            final(self).tokens() == old(self).tokens(),
            match grammar::program(old(self).tokens(), old(self).position()) {
                Ok(forest) => {
                    &&& result matches Ok(nodes) && trees(nodes@) == forest
                    &&& final(self).position() == final(self).tokens().len()
                },
                Err(e) => result == Err::<Vec<Node>, ParseError>(e),
            },
    {
        let mut stmts: Vec<Node> = Vec::with_capacity(self.left());
        assert(continued(trees(stmts@), grammar::program(self.tokens(), self.position()))
            == grammar::program(self.tokens(), self.position())) by {
            if let Ok(rest) = grammar::program(self.tokens(), self.position()) {
                assert(trees(stmts@) + rest =~= rest);
            }
        }
        while !self.finished()
            invariant
                self.tokens() == old(self).tokens(),
                self.position() <= self.tokens().len(),
                grammar::program(old(self).tokens(), old(self).position()) == continued(
                    trees(stmts@),
                    grammar::program(self.tokens(), self.position()),
                ),
            decreases remaining(self.tokens(), self.position()),
        {
            let ghost front = trees(stmts@);
            let ghost pos = self.position();
            proof {
                grammar::lemma_sum_spans(self.tokens(), pos);
            }
            let stmt = self.stmt()?;
            stmts.push(stmt);
            proof {
                let tree = stmts@.last()@;
                assert(trees(stmts@) =~= front.push(tree));
                if let Ok(rest) = grammar::program(self.tokens(), self.position()) {
                    assert(front.push(tree) + rest =~= front + (seq![tree] + rest));
                }
            }
        }
        assert(trees(stmts@) + Seq::<Tree>::empty() =~= trees(stmts@));
        Ok(stmts)
    }

    /// Parses a statement: operands joined by `+` and `-`.
    fn stmt(&mut self) -> (result: Result<Node, ParseError>)
        ensures
            final(self).tokens() == old(self).tokens(),
            agrees(
                result,
                grammar::sum(old(self).tokens(), old(self).position()),
                old(self).position(),
                final(self).position(),
            ),
        decreases remaining(old(self).tokens(), old(self).position()), 6nat,
    {
        let ghost tokens = self.tokens();
        let ghost start = self.position();
        proof {
            grammar::lemma_sum(tokens, start);
        }
        let mut expr = self.expr()?;
        loop
            invariant
                self.tokens() == tokens,
                tokens == old(self).tokens(),
                start == old(self).position(),
                start <= self.position(),
                grammar::sum(tokens, start) == grammar::extend(
                    (self.position() - start) as nat,
                    grammar::sum_rest(tokens, self.position(), expr@),
                ),
            decreases remaining(tokens, self.position()),
        {
            proof {
                grammar::lemma_sum_rest(tokens, self.position(), expr@);
            }
            let op = match self.pop() {
                Some(Token::Operator(Op::Add)) => Binary::Add,
                Some(Token::Operator(Op::Sub)) => Binary::Sub,
                None => {
                    return Ok(expr);
                },
                _ => {
                    self.back();
                    return Ok(expr);
                },
            };
            let right = self.expr()?;
            expr = Node::BinOp(op, Box::new(expr), Box::new(right));
        }
    }

    /// Parses an operand of a statement: operands joined by `*` and `/`.
    fn expr(&mut self) -> (result: Result<Node, ParseError>)
        ensures
            final(self).tokens() == old(self).tokens(),
            agrees(
                result,
                grammar::product(old(self).tokens(), old(self).position()),
                old(self).position(),
                final(self).position(),
            ),
        decreases remaining(old(self).tokens(), old(self).position()), 4nat,
    {
        let ghost tokens = self.tokens();
        let ghost start = self.position();
        proof {
            grammar::lemma_product(tokens, start);
        }
        let mut exp = self.exp()?;
        loop
            invariant
                self.tokens() == tokens,
                tokens == old(self).tokens(),
                start == old(self).position(),
                start <= self.position(),
                grammar::product(tokens, start) == grammar::extend(
                    (self.position() - start) as nat,
                    grammar::product_rest(tokens, self.position(), exp@),
                ),
            decreases remaining(tokens, self.position()),
        {
            proof {
                grammar::lemma_product_rest(tokens, self.position(), exp@);
            }
            let op = match self.pop() {
                Some(Token::Operator(Op::Mul)) => Binary::Mul,
                Some(Token::Operator(Op::Div)) => Binary::Div,
                None => {
                    return Ok(exp);
                },
                _ => {
                    self.back();
                    return Ok(exp);
                },
            };
            let right = self.exp()?;
            exp = Node::BinOp(op, Box::new(exp), Box::new(right));
        }
    }

    /// Parses a power: a term, raised to a further power if `**` follows.
    fn exp(&mut self) -> (result: Result<Node, ParseError>)
        ensures
            final(self).tokens() == old(self).tokens(),
            agrees(
                result,
                grammar::power(old(self).tokens(), old(self).position()),
                old(self).position(),
                final(self).position(),
            ),
        decreases remaining(old(self).tokens(), old(self).position()), 2nat,
    {
        proof {
            grammar::lemma_power(self.tokens(), self.position());
        }
        let term = self.term()?;
        match self.pop() {
            Some(Token::Operator(Op::Pow)) => {
                let exponent = self.exp()?;
                Ok(Node::BinOp(Binary::Pow, Box::new(term), Box::new(exponent)))
            },
            None => Ok(term),
            _ => {
                self.back();
                Ok(term)
            },
        }
    }

    /// Parses a term: a call, where a name is directly followed by `(`, or
    /// else a factor.
    fn term(&mut self) -> (result: Result<Node, ParseError>)
        ensures
            final(self).tokens() == old(self).tokens(),
            agrees(
                result,
                grammar::term(old(self).tokens(), old(self).position()),
                old(self).position(),
                final(self).position(),
            ),
        decreases remaining(old(self).tokens(), old(self).position()), 1nat,
    {
        proof {
            grammar::lemma_term(self.tokens(), self.position());
            grammar::lemma_factor(self.tokens(), self.position());
        }
        let name = match self.pop() {
            Some(Token::ID(name)) => name.clone(),
            None => {
                return self.factor();
            },
            _ => {
                self.back();
                return self.factor();
            },
        };
        match self.pop() {
            Some(Token::LParen) => {},
            None => {
                return Ok(Node::Id(name));
            },
            _ => {
                self.back();
                return Ok(Node::Id(name));
            },
        }
        let args = match self.pop() {
            Some(Token::RParen) => {
                let args: Vec<Node> = Vec::new();
                proof {
                    lemma_call_tree(name, args);
                    assert(trees(args@) =~= Seq::empty());
                }
                return Ok(Node::Call(name, args));
            },
            None => self.args()?,
            _ => {
                self.back();
                self.args()?
            },
        };
        match self.pop() {
            Some(Token::RParen) => {
                proof {
                    lemma_call_tree(name, args);
                }
                Ok(Node::Call(name, args))
            },
            _ => Err(ParseError::MissingParen),
        }
    }

    /// Parses the arguments of a call: statements separated by commas.
    fn args(&mut self) -> (result: Result<Vec<Node>, ParseError>)
        ensures
            final(self).tokens() == old(self).tokens(),
            match grammar::arguments(old(self).tokens(), old(self).position()) {
                Ok((list, n)) => {
                    &&& result matches Ok(nodes) && trees(nodes@) == list
                    &&& final(self).position() == old(self).position() + n
                },
                Err(e) => result == Err::<Vec<Node>, ParseError>(e),
            },
        decreases remaining(old(self).tokens(), old(self).position()), 7nat,
    {
        let ghost tokens = self.tokens();
        let ghost start = self.position();
        let mut args: Vec<Node> = Vec::new();
        proof {
            assert(trees(args@) =~= Seq::empty());
            lemma_prefixed_nothing(grammar::arguments(tokens, start));
        }
        loop
            invariant
                self.tokens() == tokens,
                tokens == old(self).tokens(),
                start == old(self).position(),
                start <= self.position(),
                grammar::arguments(tokens, start) == prefixed(
                    trees(args@),
                    (self.position() - start) as nat,
                    grammar::arguments(tokens, self.position()),
                ),
            decreases remaining(tokens, self.position()),
        {
            let ghost front = trees(args@);
            let ghost pos = self.position();
            proof {
                grammar::lemma_arguments(tokens, pos);
                grammar::lemma_sum_spans(tokens, pos);
            }
            let arg = self.stmt()?;
            args.push(arg);
            proof {
                let tree = args@.last()@;
                assert(trees(args@) =~= front.push(tree));
                lemma_prefixed_one(front, tree, grammar::arguments(tokens, self.position() + 1));
                assert(front + seq![tree] =~= front.push(tree));
            }
            match self.pop() {
                Some(Token::Comma) => {},
                None => {
                    return Ok(args);
                },
                _ => {
                    self.back();
                    return Ok(args);
                },
            }
        }
    }

    /// Parses a factor: a constant, a name, a group in parentheses, or a
    /// signed power.
    fn factor(&mut self) -> (result: Result<Node, ParseError>)
        ensures
            final(self).tokens() == old(self).tokens(),
            agrees(
                result,
                grammar::factor(old(self).tokens(), old(self).position()),
                old(self).position(),
                final(self).position(),
            ),
        decreases remaining(old(self).tokens(), old(self).position()), 0nat,
    {
        proof {
            grammar::lemma_factor(self.tokens(), self.position());
        }
        let sign = match self.pop() {
            None => {
                return Err(ParseError::UnexpectedEnd);
            },
            Some(Token::Const(literal)) => {
                return if is_numeral(literal.as_str()) {
                    Ok(Node::Const(literal.clone()))
                } else {
                    Err(ParseError::InvalidConstant)
                };
            },
            Some(Token::ID(name)) => {
                return Ok(Node::Id(name.clone()));
            },
            Some(Token::LParen) => {
                return self.group();
            },
            Some(Token::Operator(Op::Add)) => Unary::Pos,
            Some(Token::Operator(Op::Sub)) => Unary::Neg,
            Some(_) => {
                return Err(ParseError::UnexpectedToken);
            },
        };
        let operand = self.exp()?;
        Ok(Node::UnOp(sign, Box::new(operand)))
    }

    /// Parses what follows `(`: a statement and the `)` that closes the
    /// group.
    fn group(&mut self) -> (result: Result<Node, ParseError>)
        requires
            0 < old(self).position() <= old(self).tokens().len(),
            old(self).tokens()[old(self).position() - 1] == Lexeme::LParen,
        ensures
            final(self).tokens() == old(self).tokens(),
            agrees(
                result,
                grammar::factor(old(self).tokens(), (old(self).position() - 1) as nat),
                (old(self).position() - 1) as nat,
                final(self).position(),
            ),
        decreases remaining(old(self).tokens(), old(self).position()), 7nat,
    {
        proof {
            grammar::lemma_factor(self.tokens(), (self.position() - 1) as nat);
        }
        let inner = self.stmt()?;
        match self.pop() {
            Some(Token::RParen) => Ok(inner),
            _ => Err(ParseError::MissingParen),
        }
    }
}

} // verus!

//! The grammar, as functions from a token sequence and a position to
//! the tree of the phrase that starts there and the number of tokens that
//! the phrase spans.
//!
//! ```text
//! program   := sum*
//! sum       := product (('+' | '-') product)*
//! product   := power (('*' | '/') power)*
//! power     := term ('**' power)?
//! term      := ID '(' arguments? ')' | factor
//! factor    := Const | ID | '(' sum ')' | ('+' | '-') power
//! arguments := sum (',' sum)*
//! ```
//!
//! The functions of the grammar call each other in a circle, so they are
//! opaque to the verifier, and each has a lemma of its own name that
//! spells out what it says.

use crate::lex::scan::{is_digit, is_literal_char};
use crate::lex::{Lexeme, Op};
use crate::parse::ast::{Binary, Tree, Unary};
use crate::parse::ParseError;
use vstd::prelude::*;

verus! {

/// The outcome of parsing one phrase: its tree and the number of tokens it
/// spans, or the reason why no phrase starts here.
pub type Parsed = Result<(Tree, nat), ParseError>;

/// The outcome of parsing a list of phrases.
pub type ParsedList = Result<(Seq<Tree>, nat), ParseError>;

/// A decimal numeral: digits, with at most one decimal point after the
/// first of them.
#[verifier::opaque]
pub open spec fn is_literal(text: Seq<char>) -> bool {
    &&& text.len() > 0
    &&& is_digit(text[0])
    &&& forall|i: int| 0 <= i < text.len() ==> is_literal_char(#[trigger] text[i])
    &&& forall|i: int, j: int|
        0 <= i < j < text.len() ==> !(#[trigger] text[i] == '.' && #[trigger] text[j] == '.')
}

/// The number of tokens at and after `pos`.
pub open spec fn remaining(tokens: Seq<Lexeme>, pos: nat) -> nat {
    if pos <= tokens.len() {
        (tokens.len() - pos) as nat
    } else {
        0
    }
}

/// The binary operator that a token of the `+ -` level stands for.
pub open spec fn sum_operator(token: Lexeme) -> Option<Binary> {
    match token {
        Lexeme::Operator(Op::Add) => Some(Binary::Add),
        Lexeme::Operator(Op::Sub) => Some(Binary::Sub),
        _ => None,
    }
}

/// The binary operator that a token of the `* /` level stands for.
pub open spec fn product_operator(token: Lexeme) -> Option<Binary> {
    match token {
        Lexeme::Operator(Op::Mul) => Some(Binary::Mul),
        Lexeme::Operator(Op::Div) => Some(Binary::Div),
        _ => None,
    }
}

/// The sign that a token in front of an operand stands for.
pub open spec fn sign(token: Lexeme) -> Option<Unary> {
    match token {
        Lexeme::Operator(Op::Add) => Some(Unary::Pos),
        Lexeme::Operator(Op::Sub) => Some(Unary::Neg),
        _ => None,
    }
}

/// Is the token at `pos` the given one?
pub open spec fn at(tokens: Seq<Lexeme>, pos: nat, token: Lexeme) -> bool {
    pos < tokens.len() && tokens[pos as int] == token
}

/// A phrase that follows `n` tokens already taken.
pub open spec fn extend(n: nat, parsed: Parsed) -> Parsed {
    match parsed {
        Ok((tree, m)) => Ok((tree, n + m)),
        Err(e) => Err(e),
    }
}

/// `sum := product (('+' | '-') product)*`, grouping to the left.
#[verifier::opaque]
pub open spec fn sum(tokens: Seq<Lexeme>, pos: nat) -> Parsed
    decreases remaining(tokens, pos), 6nat,
{
    match product(tokens, pos) {
        Ok((first, n)) => extend(n, sum_rest(tokens, pos + n, first)),
        Err(e) => Err(e),
    }
}

/// The rest of a sum whose operands so far make up `left`.
#[verifier::opaque]
pub open spec fn sum_rest(tokens: Seq<Lexeme>, pos: nat, left: Tree) -> Parsed
    decreases remaining(tokens, pos), 5nat,
{
    if pos < tokens.len() && sum_operator(tokens[pos as int]) is Some {
        match product(tokens, pos + 1) {
            Ok((right, n)) => extend(
                1 + n,
                sum_rest(
                    tokens,
                    pos + 1 + n,
                    Tree::BinOp(
                        sum_operator(tokens[pos as int])->0,
                        Box::new(left),
                        Box::new(right),
                    ),
                ),
            ),
            Err(e) => Err(e),
        }
    } else {
        Ok((left, 0))
    }
}

/// `product := power (('*' | '/') power)*`, grouping to the left.
#[verifier::opaque]
pub open spec fn product(tokens: Seq<Lexeme>, pos: nat) -> Parsed
    decreases remaining(tokens, pos), 4nat,
{
    match power(tokens, pos) {
        Ok((first, n)) => extend(n, product_rest(tokens, pos + n, first)),
        Err(e) => Err(e),
    }
}

/// The rest of a product whose operands so far make up `left`.
#[verifier::opaque]
pub open spec fn product_rest(tokens: Seq<Lexeme>, pos: nat, left: Tree) -> Parsed
    decreases remaining(tokens, pos), 3nat,
{
    if pos < tokens.len() && product_operator(tokens[pos as int]) is Some {
        match power(tokens, pos + 1) {
            Ok((right, n)) => extend(
                1 + n,
                product_rest(
                    tokens,
                    pos + 1 + n,
                    Tree::BinOp(
                        product_operator(tokens[pos as int])->0,
                        Box::new(left),
                        Box::new(right),
                    ),
                ),
            ),
            Err(e) => Err(e),
        }
    } else {
        Ok((left, 0))
    }
}

/// `power := term ('**' power)?`, grouping to the right.
#[verifier::opaque]
pub open spec fn power(tokens: Seq<Lexeme>, pos: nat) -> Parsed
    decreases remaining(tokens, pos), 2nat,
{
    match term(tokens, pos) {
        Ok((base, n)) => if at(tokens, pos + n, Lexeme::Operator(Op::Pow)) {
            match power(tokens, pos + n + 1) {
                Ok((exponent, m)) => Ok(
                    (Tree::BinOp(Binary::Pow, Box::new(base), Box::new(exponent)), n + 1 + m),
                ),
                Err(e) => Err(e),
            }
        } else {
            Ok((base, n))
        },
        Err(e) => Err(e),
    }
}

/// `term := ID '(' arguments? ')' | factor`: a name directly followed by
/// `(` is a call.
#[verifier::opaque]
pub open spec fn term(tokens: Seq<Lexeme>, pos: nat) -> Parsed
    decreases remaining(tokens, pos), 1nat,
{
    if pos < tokens.len() && tokens[pos as int] is ID && at(tokens, pos + 1, Lexeme::LParen) {
        let name = tokens[pos as int]->ID_0;
        if at(tokens, pos + 2, Lexeme::RParen) {
            Ok((Tree::Call(name, Seq::empty()), 3))
        } else {
            match arguments(tokens, pos + 2) {
                Ok((args, n)) => if at(tokens, pos + 2 + n, Lexeme::RParen) {
                    Ok((Tree::Call(name, args), n + 3))
                } else {
                    Err(ParseError::MissingParen)
                },
                Err(e) => Err(e),
            }
        }
    } else {
        factor(tokens, pos)
    }
}

/// `factor := Const | ID | '(' sum ')' | ('+' | '-') power`.
#[verifier::opaque]
pub open spec fn factor(tokens: Seq<Lexeme>, pos: nat) -> Parsed
    decreases remaining(tokens, pos), 0nat,
{
    if pos >= tokens.len() {
        Err(ParseError::UnexpectedEnd)
    } else {
        match tokens[pos as int] {
            Lexeme::Const(text) => if is_literal(text) {
                Ok((Tree::Const(text), 1))
            } else {
                Err(ParseError::InvalidConstant)
            },
            Lexeme::ID(name) => Ok((Tree::Id(name), 1)),
            Lexeme::LParen => match sum(tokens, pos + 1) {
                Ok((inner, n)) => if at(tokens, pos + 1 + n, Lexeme::RParen) {
                    Ok((inner, n + 2))
                } else {
                    Err(ParseError::MissingParen)
                },
                Err(e) => Err(e),
            },
            token => if sign(token) is Some {
                match power(tokens, pos + 1) {
                    Ok((operand, n)) => Ok((Tree::UnOp(sign(token)->0, Box::new(operand)), n + 1)),
                    Err(e) => Err(e),
                }
            } else {
                Err(ParseError::UnexpectedToken)
            },
        }
    }
}

/// `arguments := sum (',' sum)*`.
#[verifier::opaque]
pub open spec fn arguments(tokens: Seq<Lexeme>, pos: nat) -> ParsedList
    decreases remaining(tokens, pos), 7nat,
{
    match sum(tokens, pos) {
        Ok((first, n)) => if at(tokens, pos + n, Lexeme::Comma) {
            match arguments(tokens, pos + n + 1) {
                Ok((rest, m)) => Ok((seq![first] + rest, n + 1 + m)),
                Err(e) => Err(e),
            }
        } else {
            Ok((seq![first], n))
        },
        Err(e) => Err(e),
    }
}

/// What `sum` says, spelled out once.
pub proof fn lemma_sum(tokens: Seq<Lexeme>, pos: nat)
    ensures
        sum(tokens, pos) == match product(tokens, pos) {
            Ok((first, n)) => extend(n, sum_rest(tokens, pos + n, first)),
            Err(e) => Err(e),
        },
{
    reveal(sum);
    reveal(product);
    reveal(sum_rest);
}

/// What `sum_rest` says, spelled out once.
pub proof fn lemma_sum_rest(tokens: Seq<Lexeme>, pos: nat, left: Tree)
    ensures
        sum_rest(tokens, pos, left) == if pos < tokens.len() && sum_operator(tokens[pos as int])
            is Some {
            match product(tokens, pos + 1) {
                Ok((right, n)) => extend(
                    1 + n,
                    sum_rest(
                        tokens,
                        pos + 1 + n,
                        Tree::BinOp(
                            sum_operator(tokens[pos as int])->0,
                            Box::new(left),
                            Box::new(right),
                        ),
                    ),
                ),
                Err(e) => Err(e),
            }
        } else {
            Ok((left, 0))
        },
{
    reveal(sum_rest);
    reveal(product);
}

/// What `product` says, spelled out once.
pub proof fn lemma_product(tokens: Seq<Lexeme>, pos: nat)
    ensures
        product(tokens, pos) == match power(tokens, pos) {
            Ok((first, n)) => extend(n, product_rest(tokens, pos + n, first)),
            Err(e) => Err(e),
        },
{
    reveal(product);
    reveal(power);
    reveal(product_rest);
}

/// What `product_rest` says, spelled out once.
pub proof fn lemma_product_rest(tokens: Seq<Lexeme>, pos: nat, left: Tree)
    ensures
        product_rest(tokens, pos, left) == if pos < tokens.len() && product_operator(
            tokens[pos as int],
        ) is Some {
            match power(tokens, pos + 1) {
                Ok((right, n)) => extend(
                    1 + n,
                    product_rest(
                        tokens,
                        pos + 1 + n,
                        Tree::BinOp(
                            product_operator(tokens[pos as int])->0,
                            Box::new(left),
                            Box::new(right),
                        ),
                    ),
                ),
                Err(e) => Err(e),
            }
        } else {
            Ok((left, 0))
        },
{
    reveal(product_rest);
    reveal(power);
}

/// What `power` says, spelled out once.
pub proof fn lemma_power(tokens: Seq<Lexeme>, pos: nat)
    ensures
        power(tokens, pos) == match term(tokens, pos) {
            Ok((base, n)) => if at(tokens, pos + n, Lexeme::Operator(Op::Pow)) {
                match power(tokens, pos + n + 1) {
                    Ok((exponent, m)) => Ok(
                        (Tree::BinOp(Binary::Pow, Box::new(base), Box::new(exponent)), n + 1 + m),
                    ),
                    Err(e) => Err(e),
                }
            } else {
                Ok((base, n))
            },
            Err(e) => Err(e),
        },
{
    reveal(power);
    reveal(term);
}

/// What `term` says, spelled out once.
pub proof fn lemma_term(tokens: Seq<Lexeme>, pos: nat)
    ensures
        term(tokens, pos) == if pos < tokens.len() && tokens[pos as int] is ID && at(
            tokens,
            pos + 1,
            Lexeme::LParen,
        ) {
            if at(tokens, pos + 2, Lexeme::RParen) {
                Ok((Tree::Call(tokens[pos as int]->ID_0, Seq::empty()), 3))
            } else {
                match arguments(tokens, pos + 2) {
                    Ok((args, n)) => if at(tokens, pos + 2 + n, Lexeme::RParen) {
                        Ok((Tree::Call(tokens[pos as int]->ID_0, args), n + 3))
                    } else {
                        Err(ParseError::MissingParen)
                    },
                    Err(e) => Err(e),
                }
            }
        } else {
            factor(tokens, pos)
        },
{
    reveal(term);
    reveal(arguments);
    reveal(factor);
}

/// What `factor` says, spelled out once.
pub proof fn lemma_factor(tokens: Seq<Lexeme>, pos: nat)
    ensures
        factor(tokens, pos) == if pos >= tokens.len() {
            Err(ParseError::UnexpectedEnd)
        } else {
            match tokens[pos as int] {
                Lexeme::Const(text) => if is_literal(text) {
                    Ok((Tree::Const(text), 1))
                } else {
                    Err(ParseError::InvalidConstant)
                },
                Lexeme::ID(name) => Ok((Tree::Id(name), 1)),
                Lexeme::LParen => match sum(tokens, pos + 1) {
                    Ok((inner, n)) => if at(tokens, pos + 1 + n, Lexeme::RParen) {
                        Ok((inner, n + 2))
                    } else {
                        Err(ParseError::MissingParen)
                    },
                    Err(e) => Err(e),
                },
                token => if sign(token) is Some {
                    match power(tokens, pos + 1) {
                        Ok((operand, n)) => Ok(
                            (Tree::UnOp(sign(token)->0, Box::new(operand)), n + 1),
                        ),
                        Err(e) => Err(e),
                    }
                } else {
                    Err(ParseError::UnexpectedToken)
                },
            }
        },
{
    reveal(factor);
    reveal(sum);
    reveal(power);
}

/// What `arguments` says, spelled out once.
pub proof fn lemma_arguments(tokens: Seq<Lexeme>, pos: nat)
    ensures
        arguments(tokens, pos) == match sum(tokens, pos) {
            Ok((first, n)) => if at(tokens, pos + n, Lexeme::Comma) {
                match arguments(tokens, pos + n + 1) {
                    Ok((rest, m)) => Ok((seq![first] + rest, n + 1 + m)),
                    Err(e) => Err(e),
                }
            } else {
                Ok((seq![first], n))
            },
            Err(e) => Err(e),
        },
{
    reveal(arguments);
    reveal(sum);
}

/// A phrase, if there is one, spans at least one token and ends within the
/// input.
pub open spec fn spans(parsed: Parsed, tokens: Seq<Lexeme>, pos: nat) -> bool {
    parsed matches Ok((_, n)) ==> 1 <= n && pos + n <= tokens.len()
}

/// The rest of a phrase, if there is one, ends within the input.
pub open spec fn fits(parsed: Parsed, tokens: Seq<Lexeme>, pos: nat) -> bool {
    parsed matches Ok((_, n)) ==> pos + n <= tokens.len()
}

/// Every sum spans at least one token and ends within the input.
pub proof fn lemma_sum_spans(tokens: Seq<Lexeme>, pos: nat)
    ensures
        spans(sum(tokens, pos), tokens, pos),
    decreases remaining(tokens, pos), 6nat,
{
    lemma_sum(tokens, pos);
    lemma_product_spans(tokens, pos);
    if let Ok((first, n)) = product(tokens, pos) {
        lemma_sum_rest_fits(tokens, pos + n, first);
    }
}

/// The rest of a sum ends within the input.
pub proof fn lemma_sum_rest_fits(tokens: Seq<Lexeme>, pos: nat, left: Tree)
    requires
        pos <= tokens.len(),
    ensures
        fits(sum_rest(tokens, pos, left), tokens, pos),
    decreases remaining(tokens, pos), 5nat,
{
    lemma_sum_rest(tokens, pos, left);
    if pos < tokens.len() && sum_operator(tokens[pos as int]) is Some {
        lemma_product_spans(tokens, pos + 1);
        if let Ok((right, n)) = product(tokens, pos + 1) {
            lemma_sum_rest_fits(
                tokens,
                pos + 1 + n,
                Tree::BinOp(sum_operator(tokens[pos as int])->0, Box::new(left), Box::new(right)),
            );
        }
    }
}

/// Every product spans at least one token and ends within the input.
pub proof fn lemma_product_spans(tokens: Seq<Lexeme>, pos: nat)
    ensures
        spans(product(tokens, pos), tokens, pos),
    decreases remaining(tokens, pos), 4nat,
{
    lemma_product(tokens, pos);
    lemma_power_spans(tokens, pos);
    if let Ok((first, n)) = power(tokens, pos) {
        lemma_product_rest_fits(tokens, pos + n, first);
    }
}

/// The rest of a product ends within the input.
pub proof fn lemma_product_rest_fits(tokens: Seq<Lexeme>, pos: nat, left: Tree)
    requires
        pos <= tokens.len(),
    ensures
        fits(product_rest(tokens, pos, left), tokens, pos),
    decreases remaining(tokens, pos), 3nat,
{
    lemma_product_rest(tokens, pos, left);
    if pos < tokens.len() && product_operator(tokens[pos as int]) is Some {
        lemma_power_spans(tokens, pos + 1);
        if let Ok((right, n)) = power(tokens, pos + 1) {
            lemma_product_rest_fits(
                tokens,
                pos + 1 + n,
                Tree::BinOp(
                    product_operator(tokens[pos as int])->0,
                    Box::new(left),
                    Box::new(right),
                ),
            );
        }
    }
}

/// Every power spans at least one token and ends within the input.
pub proof fn lemma_power_spans(tokens: Seq<Lexeme>, pos: nat)
    ensures
        spans(power(tokens, pos), tokens, pos),
    decreases remaining(tokens, pos), 2nat,
{
    lemma_power(tokens, pos);
    lemma_term_spans(tokens, pos);
    if let Ok((base, n)) = term(tokens, pos) {
        if at(tokens, pos + n, Lexeme::Operator(Op::Pow)) {
            lemma_power_spans(tokens, pos + n + 1);
        }
    }
}

/// Every term spans at least one token and ends within the input.
pub proof fn lemma_term_spans(tokens: Seq<Lexeme>, pos: nat)
    ensures
        spans(term(tokens, pos), tokens, pos),
    decreases remaining(tokens, pos), 1nat,
{
    lemma_term(tokens, pos);
    if pos < tokens.len() && tokens[pos as int] is ID && at(tokens, pos + 1, Lexeme::LParen) {
        if !at(tokens, pos + 2, Lexeme::RParen) {
            lemma_arguments_span(tokens, pos + 2);
        }
    } else {
        lemma_factor_spans(tokens, pos);
    }
}

/// Every factor spans at least one token and ends within the input.
pub proof fn lemma_factor_spans(tokens: Seq<Lexeme>, pos: nat)
    ensures
        spans(factor(tokens, pos), tokens, pos),
    decreases remaining(tokens, pos), 0nat,
{
    lemma_factor(tokens, pos);
    if pos < tokens.len() {
        match tokens[pos as int] {
            Lexeme::Const(_) => {},
            Lexeme::ID(_) => {},
            Lexeme::LParen => {
                lemma_sum_spans(tokens, pos + 1);
            },
            token => {
                if sign(token) is Some {
                    lemma_power_spans(tokens, pos + 1);
                }
            },
        }
    }
}

/// A list of arguments has one tree for each argument, spans at least one
/// token and ends within the input.
pub proof fn lemma_arguments_span(tokens: Seq<Lexeme>, pos: nat)
    ensures
        arguments(tokens, pos) matches Ok((args, n)) ==> 1 <= args.len() && 1 <= n && pos + n
            <= tokens.len(),
    decreases remaining(tokens, pos), 7nat,
{
    lemma_arguments(tokens, pos);
    lemma_sum_spans(tokens, pos);
    if let Ok((first, n)) = sum(tokens, pos) {
        if at(tokens, pos + n, Lexeme::Comma) {
            lemma_arguments_span(tokens, pos + n + 1);
        }
    }
}

/// `program := sum*`: one tree for each statement, until the tokens run out.
pub open spec fn program(tokens: Seq<Lexeme>, pos: nat) -> Result<Seq<Tree>, ParseError>
    decreases remaining(tokens, pos),
{
    if pos >= tokens.len() {
        Ok(Seq::empty())
    } else {
        match sum(tokens, pos) {
            Ok((first, n)) => {
                proof {
                    lemma_sum_spans(tokens, pos);
                }
                match program(tokens, pos + n) {
                    Ok(rest) => Ok(seq![first] + rest),
                    Err(e) => Err(e),
                }
            },
            Err(e) => Err(e),
        }
    }
}

} // verus!

//! What follows from the grammar: how the levels of precedence relate,
//! how operators group, and that the parser reads back every tree from
//! the tokens that write it with all its parentheses.

use crate::lex::{Lexeme, Op};
use crate::parse::ast::{Binary, Tree, Unary};
use crate::parse::grammar::{
    arguments, at, is_literal, lemma_arguments, lemma_factor, lemma_power, lemma_product,
    lemma_product_rest, lemma_sum, lemma_sum_rest, lemma_term, power, product, product_operator,
    program, sign, sum, sum_operator, term,
};
use crate::parse::ParseError;
use vstd::prelude::*;

verus! {

/// The tree of a token that is an operand by itself: a constant with the
/// text of a numeral, or a name.
pub open spec fn atom(token: Lexeme) -> Option<Tree> {
    match token {
        Lexeme::Const(text) => if is_literal(text) {
            Some(Tree::Const(text))
        } else {
            None
        },
        Lexeme::ID(name) => Some(Tree::Id(name)),
        _ => None,
    }
}

/// The tree of a binary operator between two operands.
pub open spec fn binary(op: Binary, left: Tree, right: Tree) -> Tree {
    Tree::BinOp(op, Box::new(left), Box::new(right))
}

/// Is the token at `pos` an operator of the `+ -` level?
pub open spec fn at_sum_operator(tokens: Seq<Lexeme>, pos: nat) -> bool {
    pos < tokens.len() && sum_operator(tokens[pos as int]) is Some
}

/// Is the token at `pos` an operator of the `* /` level?
pub open spec fn at_product_operator(tokens: Seq<Lexeme>, pos: nat) -> bool {
    pos < tokens.len() && product_operator(tokens[pos as int]) is Some
}

/// Does the token at `pos`, if there is one, end an operand: is it none
/// of `(`, `**`, `*`, `/`, `+` and `-`?
pub open spec fn closes(tokens: Seq<Lexeme>, pos: nat) -> bool {
    pos < tokens.len() ==> tokens[pos as int] != Lexeme::LParen && !(tokens[pos as int]
        is Operator)
}

/// An atom that no `(` follows is a term.
pub proof fn lemma_atom_is_term(tokens: Seq<Lexeme>, pos: nat)
    requires
        pos < tokens.len(),
        atom(tokens[pos as int]) is Some,
        !at(tokens, pos + 1, Lexeme::LParen),
    ensures
        term(tokens, pos) == Ok::<(Tree, nat), ParseError>((atom(tokens[pos as int])->0, 1)),
{
    lemma_term(tokens, pos);
    lemma_factor(tokens, pos);
}

/// A term that no `**` follows is a power.
pub proof fn lemma_term_is_power(tokens: Seq<Lexeme>, pos: nat)
    requires
        term(tokens, pos) matches Ok((_, n)) && !at(tokens, pos + n, Lexeme::Operator(Op::Pow)),
    ensures
        power(tokens, pos) == term(tokens, pos),
{
    lemma_power(tokens, pos);
}

/// A power that neither `*` nor `/` follows is a product.
pub proof fn lemma_power_is_product(tokens: Seq<Lexeme>, pos: nat)
    requires
        power(tokens, pos) matches Ok((_, n)) && !at_product_operator(tokens, pos + n),
    ensures
        product(tokens, pos) == power(tokens, pos),
{
    lemma_product(tokens, pos);
    if let Ok((first, n)) = power(tokens, pos) {
        lemma_product_rest(tokens, pos + n, first);
    }
}

/// A product that neither `+` nor `-` follows is a sum.
pub proof fn lemma_product_is_sum(tokens: Seq<Lexeme>, pos: nat)
    requires
        product(tokens, pos) matches Ok((_, n)) && !at_sum_operator(tokens, pos + n),
    ensures
        sum(tokens, pos) == product(tokens, pos),
{
    lemma_sum(tokens, pos);
    if let Ok((first, n)) = product(tokens, pos) {
        lemma_sum_rest(tokens, pos + n, first);
    }
}

/// A term that is followed by what ends an operand is a whole sum.
pub proof fn lemma_term_is_sum(tokens: Seq<Lexeme>, pos: nat)
    requires
        term(tokens, pos) matches Ok((_, n)) && closes(tokens, pos + n),
    ensures
        sum(tokens, pos) == term(tokens, pos),
{
    lemma_term_is_power(tokens, pos);
    lemma_power_is_product(tokens, pos);
    lemma_product_is_sum(tokens, pos);
}

/// A term, `**` and a power are a power: the base is a term, the exponent
/// a power of its own, so that powers group to the right.
pub proof fn lemma_power_of(
    tokens: Seq<Lexeme>,
    pos: nat,
    base: Tree,
    exponent: Tree,
    n: nat,
    m: nat,
)
    requires
        term(tokens, pos) == Ok::<(Tree, nat), ParseError>((base, n)),
        at(tokens, pos + n, Lexeme::Operator(Op::Pow)),
        power(tokens, pos + n + 1) == Ok::<(Tree, nat), ParseError>((exponent, m)),
    ensures
        power(tokens, pos) == Ok::<(Tree, nat), ParseError>(
            (binary(Binary::Pow, base, exponent), n + 1 + m),
        ),
{
    lemma_power(tokens, pos);
}

/// Two powers with `*` or `/` between them, which no further `*` or `/`
/// follows, are a product.
pub proof fn lemma_product_of(
    tokens: Seq<Lexeme>,
    pos: nat,
    left: Tree,
    right: Tree,
    n: nat,
    m: nat,
)
    requires
        power(tokens, pos) == Ok::<(Tree, nat), ParseError>((left, n)),
        at_product_operator(tokens, pos + n),
        power(tokens, pos + n + 1) == Ok::<(Tree, nat), ParseError>((right, m)),
        !at_product_operator(tokens, pos + n + 1 + m),
    ensures
        product(tokens, pos) == Ok::<(Tree, nat), ParseError>(
            (binary(product_operator(tokens[(pos + n) as int])->0, left, right), n + 1 + m),
        ),
{
    let whole = binary(product_operator(tokens[(pos + n) as int])->0, left, right);
    lemma_product(tokens, pos);
    lemma_product_rest(tokens, pos + n, left);
    lemma_product_rest(tokens, pos + n + 1 + m, whole);
}

/// Two products with `+` or `-` between them, which no further `+` or `-`
/// follows, are a sum.
pub proof fn lemma_sum_of(
    tokens: Seq<Lexeme>,
    pos: nat,
    left: Tree,
    right: Tree,
    n: nat,
    m: nat,
)
    requires
        product(tokens, pos) == Ok::<(Tree, nat), ParseError>((left, n)),
        at_sum_operator(tokens, pos + n),
        product(tokens, pos + n + 1) == Ok::<(Tree, nat), ParseError>((right, m)),
        !at_sum_operator(tokens, pos + n + 1 + m),
    ensures
        sum(tokens, pos) == Ok::<(Tree, nat), ParseError>(
            (binary(sum_operator(tokens[(pos + n) as int])->0, left, right), n + 1 + m),
        ),
{
    let whole = binary(sum_operator(tokens[(pos + n) as int])->0, left, right);
    lemma_sum(tokens, pos);
    lemma_sum_rest(tokens, pos + n, left);
    lemma_sum_rest(tokens, pos + n + 1 + m, whole);
}

/// `*` and `/` bind tighter than `+` and `-`: in `a + b * c` the product
/// is the right operand of the sum, whatever the atoms and the operators
/// of the two levels are.
pub proof fn lemma_product_binds_tighter(tokens: Seq<Lexeme>)
    requires
        tokens.len() == 5,
        atom(tokens[0]) is Some && atom(tokens[2]) is Some && atom(tokens[4]) is Some,
        sum_operator(tokens[1]) is Some,
        product_operator(tokens[3]) is Some,
    ensures
        sum(tokens, 0) == Ok::<(Tree, nat), ParseError>(
            (
                binary(
                    sum_operator(tokens[1])->0,
                    atom(tokens[0])->0,
                    binary(product_operator(tokens[3])->0, atom(tokens[2])->0, atom(tokens[4])->0),
                ),
                5,
            ),
        ),
{
    lemma_atom_is_term(tokens, 0);
    lemma_term_is_power(tokens, 0);
    lemma_power_is_product(tokens, 0);
    lemma_atom_is_term(tokens, 2);
    lemma_term_is_power(tokens, 2);
    lemma_atom_is_term(tokens, 4);
    lemma_term_is_power(tokens, 4);
    lemma_product_of(tokens, 2, atom(tokens[2])->0, atom(tokens[4])->0, 1, 1);
    lemma_sum_of(
        tokens,
        0,
        atom(tokens[0])->0,
        binary(product_operator(tokens[3])->0, atom(tokens[2])->0, atom(tokens[4])->0),
        1,
        3,
    );
}

/// Parentheses group: in `(a + b) * c` the sum is the left operand of the
/// product.
pub proof fn lemma_parentheses_group(tokens: Seq<Lexeme>)
    requires
        tokens.len() == 7,
        tokens[0] == Lexeme::LParen,
        tokens[4] == Lexeme::RParen,
        atom(tokens[1]) is Some && atom(tokens[3]) is Some && atom(tokens[6]) is Some,
        sum_operator(tokens[2]) is Some,
        product_operator(tokens[5]) is Some,
    ensures
        sum(tokens, 0) == Ok::<(Tree, nat), ParseError>(
            (
                binary(
                    product_operator(tokens[5])->0,
                    binary(sum_operator(tokens[2])->0, atom(tokens[1])->0, atom(tokens[3])->0),
                    atom(tokens[6])->0,
                ),
                7,
            ),
        ),
{
    let inner = binary(sum_operator(tokens[2])->0, atom(tokens[1])->0, atom(tokens[3])->0);
    lemma_atom_is_term(tokens, 1);
    lemma_term_is_power(tokens, 1);
    lemma_power_is_product(tokens, 1);
    lemma_atom_is_term(tokens, 3);
    lemma_term_is_sum(tokens, 3);
    lemma_term_is_power(tokens, 3);
    lemma_power_is_product(tokens, 3);
    lemma_sum_of(tokens, 1, atom(tokens[1])->0, atom(tokens[3])->0, 1, 1);
    lemma_term(tokens, 0);
    lemma_factor(tokens, 0);
    lemma_term_is_power(tokens, 0);
    lemma_atom_is_term(tokens, 6);
    lemma_term_is_power(tokens, 6);
    lemma_product_of(tokens, 0, inner, atom(tokens[6])->0, 5, 1);
    lemma_product_is_sum(tokens, 0);
}

/// Operators of one level group to the left: `a - b - c` is `(a - b) - c`,
/// and likewise for `*` and `/`.
pub proof fn lemma_levels_group_left(tokens: Seq<Lexeme>)
    requires
        tokens.len() == 5,
        atom(tokens[0]) is Some && atom(tokens[2]) is Some && atom(tokens[4]) is Some,
        (sum_operator(tokens[1]) is Some && sum_operator(tokens[3]) is Some) || (product_operator(
            tokens[1],
        ) is Some && product_operator(tokens[3]) is Some),
    ensures
        sum(tokens, 0) matches Ok((tree, n)) && n == 5 && tree == (if sum_operator(tokens[1])
            is Some {
            binary(
                sum_operator(tokens[3])->0,
                binary(sum_operator(tokens[1])->0, atom(tokens[0])->0, atom(tokens[2])->0),
                atom(tokens[4])->0,
            )
        } else {
            binary(
                product_operator(tokens[3])->0,
                binary(product_operator(tokens[1])->0, atom(tokens[0])->0, atom(tokens[2])->0),
                atom(tokens[4])->0,
            )
        }),
{
    let a = atom(tokens[0])->0;
    let b = atom(tokens[2])->0;
    let c = atom(tokens[4])->0;
    lemma_atom_is_term(tokens, 0);
    lemma_term_is_power(tokens, 0);
    lemma_atom_is_term(tokens, 2);
    lemma_term_is_power(tokens, 2);
    lemma_atom_is_term(tokens, 4);
    lemma_term_is_power(tokens, 4);
    if sum_operator(tokens[1]) is Some {
        let first = binary(sum_operator(tokens[1])->0, a, b);
        lemma_power_is_product(tokens, 0);
        lemma_power_is_product(tokens, 2);
        lemma_power_is_product(tokens, 4);
        lemma_sum(tokens, 0);
        lemma_sum_rest(tokens, 1, a);
        lemma_sum_rest(tokens, 3, first);
        lemma_sum_rest(tokens, 5, binary(sum_operator(tokens[3])->0, first, c));
    } else {
        let first = binary(product_operator(tokens[1])->0, a, b);
        lemma_product(tokens, 0);
        lemma_product_rest(tokens, 1, a);
        lemma_product_rest(tokens, 3, first);
        lemma_product_rest(tokens, 5, binary(product_operator(tokens[3])->0, first, c));
        lemma_product_is_sum(tokens, 0);
    }
}

/// Powers group to the right: `a ** b ** c` is `a ** (b ** c)`.
pub proof fn lemma_powers_group_right(tokens: Seq<Lexeme>)
    requires
        tokens.len() == 5,
        atom(tokens[0]) is Some && atom(tokens[2]) is Some && atom(tokens[4]) is Some,
        tokens[1] == Lexeme::Operator(Op::Pow),
        tokens[3] == Lexeme::Operator(Op::Pow),
    ensures
        sum(tokens, 0) == Ok::<(Tree, nat), ParseError>(
            (
                binary(
                    Binary::Pow,
                    atom(tokens[0])->0,
                    binary(Binary::Pow, atom(tokens[2])->0, atom(tokens[4])->0),
                ),
                5,
            ),
        ),
{
    let a = atom(tokens[0])->0;
    let b = atom(tokens[2])->0;
    let c = atom(tokens[4])->0;
    lemma_atom_is_term(tokens, 0);
    lemma_atom_is_term(tokens, 2);
    lemma_atom_is_term(tokens, 4);
    lemma_term_is_power(tokens, 4);
    lemma_power_of(tokens, 2, b, c, 1, 1);
    lemma_power_of(tokens, 0, a, binary(Binary::Pow, b, c), 1, 3);
    lemma_power_is_product(tokens, 0);
    lemma_product_is_sum(tokens, 0);
}

/// A sign applies to the whole power that follows it and to no more:
/// `-a ** b` is `-(a ** b)`, and in `-a * b` the sign belongs to `a`.
pub proof fn lemma_sign_spans_power(tokens: Seq<Lexeme>)
    requires
        tokens.len() == 4,
        sign(tokens[0]) is Some,
        atom(tokens[1]) is Some && atom(tokens[3]) is Some,
        tokens[2] == Lexeme::Operator(Op::Pow) || product_operator(tokens[2]) is Some,
    ensures
        sum(tokens, 0) matches Ok((tree, n)) && n == 4 && tree == (if tokens[2]
            == Lexeme::Operator(Op::Pow) {
            Tree::UnOp(
                sign(tokens[0])->0,
                Box::new(binary(Binary::Pow, atom(tokens[1])->0, atom(tokens[3])->0)),
            )
        } else {
            binary(
                product_operator(tokens[2])->0,
                Tree::UnOp(sign(tokens[0])->0, Box::new(atom(tokens[1])->0)),
                atom(tokens[3])->0,
            )
        }),
{
    let a = atom(tokens[1])->0;
    let b = atom(tokens[3])->0;
    lemma_atom_is_term(tokens, 1);
    lemma_atom_is_term(tokens, 3);
    lemma_term_is_power(tokens, 3);
    lemma_term(tokens, 0);
    lemma_factor(tokens, 0);
    if tokens[2] == Lexeme::Operator(Op::Pow) {
        lemma_power_of(tokens, 1, a, b, 1, 1);
        lemma_term_is_power(tokens, 0);
        lemma_power_is_product(tokens, 0);
    } else {
        lemma_term_is_power(tokens, 1);
        lemma_term_is_power(tokens, 0);
        lemma_product_of(tokens, 0, Tree::UnOp(sign(tokens[0])->0, Box::new(a)), b, 2, 1);
    }
    lemma_product_is_sum(tokens, 0);
}

/// The token that writes a sign.
pub open spec fn sign_token(op: Unary) -> Lexeme {
    match op {
        Unary::Pos => Lexeme::Operator(Op::Add),
        Unary::Neg => Lexeme::Operator(Op::Sub),
    }
}

/// The token that writes a binary operator.
pub open spec fn operator_token(op: Binary) -> Lexeme {
    match op {
        Binary::Add => Lexeme::Operator(Op::Add),
        Binary::Sub => Lexeme::Operator(Op::Sub),
        Binary::Mul => Lexeme::Operator(Op::Mul),
        Binary::Div => Lexeme::Operator(Op::Div),
        Binary::Pow => Lexeme::Operator(Op::Pow),
    }
}

/// The number of tokens that write `tree` with all its parentheses.
pub open spec fn size(tree: Tree) -> nat
    decreases tree, 0nat,
{
    match tree {
        Tree::Const(_) => 1,
        Tree::Id(_) => 1,
        Tree::UnOp(_, operand) => size(*operand) + 3,
        Tree::BinOp(_, left, right) => size(*left) + size(*right) + 3,
        Tree::Call(_, args) => sizes(args, 0) + 3,
    }
}

/// The number of tokens that write the trees from index `from` on, with
/// the commas between them.
pub open spec fn sizes(trees: Seq<Tree>, from: nat) -> nat
    decreases trees, trees.len() - from,
{
    if from >= trees.len() {
        0
    } else if from + 1 == trees.len() {
        size(trees[from as int])
    } else {
        size(trees[from as int]) + 1 + sizes(trees, from + 1)
    }
}

/// Do the tokens from `pos` on write `tree` with all its parentheses: a
/// constant and a name as they are, a sign with its operand as
/// `( - operand )`, a binary operator with its operands as
/// `( left + right )`, and a call as `name ( argument , argument )`?
pub open spec fn spells(tokens: Seq<Lexeme>, pos: nat, tree: Tree) -> bool
    decreases tree, 0nat,
{
    match tree {
        Tree::Const(text) => is_literal(text) && at(tokens, pos, Lexeme::Const(text)),
        Tree::Id(name) => at(tokens, pos, Lexeme::ID(name)),
        Tree::UnOp(op, operand) => {
            &&& at(tokens, pos, Lexeme::LParen)
            &&& at(tokens, pos + 1, sign_token(op))
            &&& spells(tokens, pos + 2, *operand)
            &&& at(tokens, pos + 2 + size(*operand), Lexeme::RParen)
        },
        Tree::BinOp(op, left, right) => {
            &&& at(tokens, pos, Lexeme::LParen)
            &&& spells(tokens, pos + 1, *left)
            &&& at(tokens, pos + 1 + size(*left), operator_token(op))
            &&& spells(tokens, pos + 2 + size(*left), *right)
            &&& at(tokens, pos + 2 + size(*left) + size(*right), Lexeme::RParen)
        },
        Tree::Call(name, args) => {
            &&& at(tokens, pos, Lexeme::ID(name))
            &&& at(tokens, pos + 1, Lexeme::LParen)
            &&& spell_all(tokens, pos + 2, args, 0)
            &&& at(tokens, pos + 2 + sizes(args, 0), Lexeme::RParen)
        },
    }
}

/// Do the tokens from `pos` on write the trees from index `from` on, with
/// commas between them?
pub open spec fn spell_all(tokens: Seq<Lexeme>, pos: nat, trees: Seq<Tree>, from: nat) -> bool
    decreases trees, trees.len() - from,
{
    if from >= trees.len() {
        true
    } else {
        &&& spells(tokens, pos, trees[from as int])
        &&& from + 1 < trees.len() ==> {
            &&& at(tokens, pos + size(trees[from as int]), Lexeme::Comma)
            &&& spell_all(tokens, pos + size(trees[from as int]) + 1, trees, from + 1)
        }
    }
}

/// Two terms with a binary operator between them, followed by what ends
/// an operand, are a sum whose tree is that of the operator.
pub proof fn lemma_operands_are_sum(
    tokens: Seq<Lexeme>,
    pos: nat,
    op: Binary,
    left: Tree,
    right: Tree,
    n: nat,
    m: nat,
)
    requires
        term(tokens, pos) == Ok::<(Tree, nat), ParseError>((left, n)),
        at(tokens, pos + n, operator_token(op)),
        term(tokens, pos + n + 1) == Ok::<(Tree, nat), ParseError>((right, m)),
        closes(tokens, pos + n + 1 + m),
    ensures
        sum(tokens, pos) == Ok::<(Tree, nat), ParseError>((binary(op, left, right), n + 1 + m)),
{
    lemma_term_is_power(tokens, pos + n + 1);
    if op == Binary::Pow {
        lemma_power_of(tokens, pos, left, right, n, m);
        lemma_power_is_product(tokens, pos);
        lemma_product_is_sum(tokens, pos);
    } else if op == Binary::Mul || op == Binary::Div {
        lemma_term_is_power(tokens, pos);
        lemma_product_of(tokens, pos, left, right, n, m);
        lemma_product_is_sum(tokens, pos);
    } else {
        lemma_term_is_power(tokens, pos);
        lemma_power_is_product(tokens, pos);
        lemma_power_is_product(tokens, pos + n + 1);
        lemma_sum_of(tokens, pos, left, right, n, m);
    }
}

/// A sign and its operand between parentheses are a term whose tree is
/// that of the sign.
pub proof fn lemma_reads_sign(tokens: Seq<Lexeme>, pos: nat, op: Unary, operand: Tree, n: nat)
    requires
        at(tokens, pos, Lexeme::LParen),
        at(tokens, pos + 1, sign_token(op)),
        term(tokens, pos + 2) == Ok::<(Tree, nat), ParseError>((operand, n)),
        at(tokens, pos + 2 + n, Lexeme::RParen),
    ensures
        term(tokens, pos) == Ok::<(Tree, nat), ParseError>(
            (Tree::UnOp(op, Box::new(operand)), n + 3),
        ),
{
    lemma_term_is_power(tokens, pos + 2);
    lemma_term(tokens, pos + 1);
    lemma_factor(tokens, pos + 1);
    lemma_term_is_sum(tokens, pos + 1);
    lemma_term(tokens, pos);
    lemma_factor(tokens, pos);
}

/// Two operands with a binary operator between them, all between
/// parentheses, are a term whose tree is that of the operator.
pub proof fn lemma_reads_group(
    tokens: Seq<Lexeme>,
    pos: nat,
    op: Binary,
    left: Tree,
    right: Tree,
    n: nat,
    m: nat,
)
    requires
        at(tokens, pos, Lexeme::LParen),
        term(tokens, pos + 1) == Ok::<(Tree, nat), ParseError>((left, n)),
        at(tokens, pos + 1 + n, operator_token(op)),
        term(tokens, pos + 2 + n) == Ok::<(Tree, nat), ParseError>((right, m)),
        at(tokens, pos + 2 + n + m, Lexeme::RParen),
    ensures
        term(tokens, pos) == Ok::<(Tree, nat), ParseError>((binary(op, left, right), n + m + 3)),
{
    lemma_operands_are_sum(tokens, pos + 1, op, left, right, n, m);
    lemma_term(tokens, pos);
    lemma_factor(tokens, pos);
}

/// A name, `(`, a list of arguments and `)` are a term whose tree is a
/// call; so are a name, `(` and `)`.
pub proof fn lemma_reads_call(
    tokens: Seq<Lexeme>,
    pos: nat,
    name: Seq<char>,
    args: Seq<Tree>,
    n: nat,
)
    requires
        at(tokens, pos, Lexeme::ID(name)),
        at(tokens, pos + 1, Lexeme::LParen),
        at(tokens, pos + 2 + n, Lexeme::RParen),
        if args.len() == 0 {
            n == 0
        } else {
            !at(tokens, pos + 2, Lexeme::RParen) && arguments(tokens, pos + 2) == Ok::<
                (Seq<Tree>, nat),
                ParseError,
            >((args, n))
        },
    ensures
        term(tokens, pos) == Ok::<(Tree, nat), ParseError>((Tree::Call(name, args), n + 3)),
{
    lemma_term(tokens, pos);
    if args.len() == 0 {
        assert(args =~= Seq::empty());
    }
}

/// The parser reads what is written: where the tokens write a tree with
/// all its parentheses, and no `(` follows, so that a name at the end is
/// not taken for a call, the tokens are a term with that tree.
pub proof fn lemma_reads_what_is_written(tokens: Seq<Lexeme>, pos: nat, tree: Tree)
    requires
        spells(tokens, pos, tree),
        !at(tokens, pos + size(tree), Lexeme::LParen),
    ensures
        term(tokens, pos) == Ok::<(Tree, nat), ParseError>((tree, size(tree))),
    decreases tree, 0nat,
{
    match tree {
        Tree::Const(_) => {
            lemma_atom_is_term(tokens, pos);
        },
        Tree::Id(_) => {
            lemma_atom_is_term(tokens, pos);
        },
        Tree::UnOp(op, operand) => {
            lemma_reads_what_is_written(tokens, pos + 2, *operand);
            lemma_reads_sign(tokens, pos, op, *operand, size(*operand));
        },
        Tree::BinOp(op, left, right) => {
            lemma_reads_what_is_written(tokens, pos + 1, *left);
            lemma_reads_what_is_written(tokens, pos + 2 + size(*left), *right);
            lemma_reads_group(tokens, pos, op, *left, *right, size(*left), size(*right));
        },
        Tree::Call(name, args) => {
            if args.len() > 0 {
                assert(spells(tokens, pos + 2, args[0])) by {
                    reveal_with_fuel(spells, 2);
                }
                lemma_written_starts(tokens, pos + 2, args[0]);
                lemma_reads_all_written(tokens, pos + 2, args, 0);
                assert(args.skip(0) =~= args);
            }
            lemma_reads_call(tokens, pos, name, args, sizes(args, 0));
        },
    }
}

/// What writes a tree starts with a constant, a name or `(`.
pub proof fn lemma_written_starts(tokens: Seq<Lexeme>, pos: nat, tree: Tree)
    requires
        spells(tokens, pos, tree),
    ensures
        pos < tokens.len(),
        tokens[pos as int] is Const || tokens[pos as int] is ID || tokens[pos as int]
            == Lexeme::LParen,
{
}

/// The parser reads the arguments that are written: where the tokens
/// write trees with commas between them, and `)` follows, the tokens are
/// a list of arguments with those trees.
pub proof fn lemma_reads_all_written(tokens: Seq<Lexeme>, pos: nat, trees: Seq<Tree>, from: nat)
    requires
        from < trees.len(),
        spell_all(tokens, pos, trees, from),
        at(tokens, pos + sizes(trees, from), Lexeme::RParen),
    ensures
        arguments(tokens, pos) == Ok::<(Seq<Tree>, nat), ParseError>(
            (trees.skip(from as int), sizes(trees, from)),
        ),
    decreases trees, trees.len() - from,
{
    let tree = trees[from as int];
    lemma_reads_what_is_written(tokens, pos, tree);
    lemma_term_is_sum(tokens, pos);
    lemma_arguments(tokens, pos);
    if from + 1 < trees.len() {
        lemma_reads_all_written(tokens, pos + size(tree) + 1, trees, from + 1);
        assert(seq![tree] + trees.skip(from as int + 1) =~= trees.skip(from as int));
    } else {
        assert(seq![tree] =~= trees.skip(from as int));
    }
}

/// Tokens that write one tree with all its parentheses, and nothing
/// else, are a program of one statement with that tree.
pub proof fn lemma_reads_written_program(tokens: Seq<Lexeme>, tree: Tree)
    requires
        spells(tokens, 0, tree),
        tokens.len() == size(tree),
    ensures
        program(tokens, 0) == Ok::<Seq<Tree>, ParseError>(seq![tree]),
{
    lemma_reads_what_is_written(tokens, 0, tree);
    lemma_term_is_sum(tokens, 0);
    lemma_written_starts(tokens, 0, tree);
    reveal_with_fuel(program, 2);
    assert(seq![tree] + Seq::<Tree>::empty() =~= seq![tree]);
}

} // verus!

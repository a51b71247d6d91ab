//! What the tokens of a text are: the character classes, the runs of
//! characters that make up a token, and the operator that a table of
//! symbols finds at the front of a text.

use crate::lex::radix::begins_key;
use crate::lex::{Lexeme, Op};
use vstd::prelude::*;

verus! {

/// Blank characters, which separate tokens and belong to none.
pub open spec fn is_space(c: char) -> bool {
    c == ' ' || c == '\n' || c == '\t'
}

/// The decimal digits.
pub open spec fn is_digit(c: char) -> bool {
    '0' <= c <= '9'
}

/// The characters of a numeric literal: digits and the decimal point.
pub open spec fn is_literal_char(c: char) -> bool {
    is_digit(c) || c == '.'
}

/// The characters of a name: ASCII letters and the underscore.
pub open spec fn is_name_char(c: char) -> bool {
    'a' <= c <= 'z' || 'A' <= c <= 'Z' || c == '_'
}

/// The characters that send the lexer to its operator table.
pub open spec fn is_operator_char(c: char) -> bool {
    c == '+' || c == '-' || c == '*' || c == '/'
}

/// The kinds of character runs that the lexer measures.
#[derive(Debug, Copy, Clone, PartialEq, Eq, Structural)]
pub enum CharClass {
    /// Blank characters.
    Space,
    /// The characters of a numeric literal.
    Literal,
    /// The characters of a name.
    Name,
    /// Everything up to the end of the line.
    Line,
}

impl CharClass {
    /// Does `c` belong to the class?
    pub open spec fn holds(self, c: char) -> bool {
        match self {
            CharClass::Space => is_space(c),
            CharClass::Literal => is_literal_char(c),
            CharClass::Name => is_name_char(c),
            CharClass::Line => c != '\n',
        }
    }

    /// Decides whether `c` belongs to the class.
    pub fn contains(self, c: char) -> (b: bool)
        ensures
            b == self.holds(c),
    {
        match self {
            CharClass::Space => c == ' ' || c == '\n' || c == '\t',
            CharClass::Literal => ('0' <= c && c <= '9') || c == '.',
            CharClass::Name => ('a' <= c && c <= 'z') || ('A' <= c && c <= 'Z') || c == '_',
            CharClass::Line => c != '\n',
        }
    }
}

/// The length of the longest prefix of `s` made of characters of `class`.
pub open spec fn run(s: Seq<char>, class: CharClass) -> nat
    decreases s.len(),
{
    if s.len() > 0 && class.holds(s[0]) {
        1 + run(s.drop_first(), class)
    } else {
        0
    }
}

/// A run is as long as the characters of its class go on, and no longer.
pub proof fn lemma_run(s: Seq<char>, class: CharClass)
    ensures
        run(s, class) <= s.len(),
        forall|i: int| 0 <= i < run(s, class) ==> class.holds(#[trigger] s[i]),
        run(s, class) < s.len() ==> !class.holds(s[run(s, class) as int]),
    decreases s.len(),
{
    if s.len() > 0 && class.holds(s[0]) {
        let rest = s.drop_first();
        lemma_run(rest, class);
        assert forall|i: int| 0 <= i < run(s, class) implies class.holds(#[trigger] s[i]) by {
            if i > 0 {
                assert(s[i] == rest[i - 1]);
            }
        }
        if run(s, class) < s.len() {
            assert(s[run(s, class) as int] == rest[run(rest, class) as int]);
        }
    }
}

/// A prefix whose characters all belong to `class`, and which the next
/// character does not extend, is the run.
pub proof fn lemma_run_is(s: Seq<char>, class: CharClass, n: nat)
    requires
        n <= s.len(),
        forall|i: int| 0 <= i < n ==> class.holds(#[trigger] s[i]),
        n < s.len() ==> !class.holds(s[n as int]),
    ensures
        run(s, class) == n,
    decreases n,
{
    if n > 0 {
        let rest = s.drop_first();
        assert forall|i: int| 0 <= i < n - 1 implies class.holds(#[trigger] rest[i]) by {
            assert(rest[i] == s[i + 1]);
        }
        assert(s[0] == s[0] && class.holds(s[0]));
        if n < s.len() {
            assert(rest[n - 1] == s[n as int]);
        }
        lemma_run_is(rest, class, (n - 1) as nat);
    }
}

/// How far the operator table can be followed along `s`, having followed
/// it for `n` characters: each further character must go on towards some
/// symbol of the table.
pub open spec fn walk(table: Map<Seq<char>, Op>, s: Seq<char>, n: nat) -> nat
    decreases s.len() - n,
{
    if n < s.len() && begins_key(table, s.take(n as int + 1)) {
        walk(table, s, n + 1)
    } else {
        n
    }
}

/// The operator at the start of `s` and its length: the symbol spelled by
/// the characters along which the table can be followed, if they spell
/// one. So the longest symbol wins; and where the table can be followed
/// beyond a symbol, but not up to a longer one, there is no operator.
pub open spec fn operator(table: Map<Seq<char>, Op>, s: Seq<char>) -> Option<(Op, nat)> {
    let n = walk(table, s, 0);
    if table.contains_key(s.take(n as int)) {
        Some((table[s.take(n as int)], n))
    } else {
        None
    }
}

/// The table can be followed no further than `s` goes.
pub proof fn lemma_walk(table: Map<Seq<char>, Op>, s: Seq<char>, n: nat)
    requires
        n <= s.len(),
    ensures
        n <= walk(table, s, n) <= s.len(),
    decreases s.len() - n,
{
    if n < s.len() && begins_key(table, s.take(n as int + 1)) {
        lemma_walk(table, s, n + 1);
    }
}

/// The token at the start of `s`, which starts with a character that is
/// not blank, and the token's length; or nothing, where `s` starts with an
/// operator character and the table knows no operator there. A symbol of
/// no characters is no operator.
pub open spec fn first_token(table: Map<Seq<char>, Op>, s: Seq<char>) -> Option<(Lexeme, nat)>
    recommends
        s.len() > 0,
{
    let c = s[0];
    if is_digit(c) {
        let n = run(s, CharClass::Literal);
        Some((Lexeme::Const(s.take(n as int)), n))
    } else if is_name_char(c) {
        let n = run(s, CharClass::Name);
        Some((Lexeme::ID(s.take(n as int)), n))
    } else if is_operator_char(c) {
        match operator(table, s) {
            Some((op, n)) => if n > 0 {
                Some((Lexeme::Operator(op), n))
            } else {
                None
            },
            None => None,
        }
    } else if c == '(' {
        Some((Lexeme::LParen, 1))
    } else if c == ')' {
        Some((Lexeme::RParen, 1))
    } else if c == ',' {
        Some((Lexeme::Comma, 1))
    } else {
        let n = run(s, CharClass::Line);
        Some((Lexeme::Unknown(s.take(n as int)), n))
    }
}

/// A token takes at least one character and no more than there are.
pub proof fn lemma_first_token(table: Map<Seq<char>, Op>, s: Seq<char>)
    requires
        s.len() > 0,
        !is_space(s[0]),
    ensures
        first_token(table, s) matches Some((_, n)) ==> 0 < n <= s.len(),
{
    lemma_run(s, CharClass::Literal);
    lemma_run(s, CharClass::Name);
    lemma_run(s, CharClass::Line);
    lemma_walk(table, s, 0);
}

/// What is left of `s` after its leading blanks.
pub open spec fn trimmed(s: Seq<char>) -> Seq<char> {
    s.skip(run(s, CharClass::Space) as int)
}

/// The tokens of `s`, in order; or nothing, where an operator character
/// is met at which the table knows no operator.
pub open spec fn tokens(table: Map<Seq<char>, Op>, s: Seq<char>) -> Option<Seq<Lexeme>>
    decreases s.len(),
{
    let rest = trimmed(s);
    if rest.len() == 0 {
        Some(Seq::empty())
    } else {
        match first_token(table, rest) {
            Some((token, n)) => {
                proof {
                    lemma_run(s, CharClass::Space);
                    lemma_first_token(table, rest);
                }
                match tokens(table, rest.skip(n as int)) {
                    Some(more) => Some(seq![token] + more),
                    None => None,
                }
            },
            None => None,
        }
    }
}

} // verus!

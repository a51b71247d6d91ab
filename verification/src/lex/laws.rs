//! What follows from the rules of lexing: that the longest operator
//! symbol wins, that lexing with the operators `+ - * / **` cannot fail,
//! and that blanks between tokens do not count.

use crate::lex::radix::begins_key;
use crate::lex::scan::{
    first_token, is_operator_char, is_space, lemma_first_token, lemma_run, lemma_run_is,
    operator, run, tokens, trimmed, walk, CharClass,
};
use crate::lex::{standard_operators, Lexeme, Op};
use vstd::prelude::*;

verus! {

/// Leading blanks do not count: a text has the tokens of what is left of
/// it after them.
pub proof fn lemma_leading_blanks(table: Map<Seq<char>, Op>, s: Seq<char>)
    ensures
        trimmed(trimmed(s)) == trimmed(s),
        tokens(table, trimmed(s)) == tokens(table, s),
{
    let rest = trimmed(s);
    lemma_run(s, CharClass::Space);
    if rest.len() > 0 {
        assert(rest[0] == s[run(s, CharClass::Space) as int]);
    }
    assert(run(rest, CharClass::Space) == 0);
    assert(rest.skip(0) =~= rest);
}

/// The operator that an operator character stands for by itself.
pub open spec fn single_operator(c: char) -> Op
    recommends
        is_operator_char(c),
{
    if c == '+' {
        Op::Add
    } else if c == '-' {
        Op::Sub
    } else if c == '*' {
        Op::Mul
    } else {
        Op::Div
    }
}

/// With the operators `+ - * / **`, the longest symbol wins: two stars in
/// a row are one power operator, and every other operator character
/// stands for itself.
pub proof fn lemma_standard_operator(s: Seq<char>)
    requires
        s.len() > 0,
        is_operator_char(s[0]),
    ensures
        operator(standard_operators(), s) == Some(
            if s.len() >= 2 && s[0] == '*' && s[1] == '*' {
                (Op::Pow, 2nat)
            } else {
                (single_operator(s[0]), 1nat)
            },
        ),
{
    let table = standard_operators();
    reveal_strlit("+");
    reveal_strlit("-");
    reveal_strlit("*");
    reveal_strlit("/");
    reveal_strlit("**");
    let c = s[0];
    assert("+"@ =~= seq!['+'] && "-"@ =~= seq!['-'] && "*"@ =~= seq!['*'] && "/"@ =~= seq!['/']);
    assert("**"@ =~= seq!['*', '*']);
    assert forall|key: Seq<char>| #[trigger] table.contains_key(key) implies 1 <= key.len() <= 2
        && (key.len() == 2 ==> key == "**"@) by {}
    assert(s.take(1) =~= seq![c]);
    assert(table.contains_key(s.take(1)));
    assert(table[s.take(1)] == single_operator(c)) by {
        assert(s.take(1)[0] == c && s.take(1).len() == 1);
        assert("+"@[0] == '+' && "-"@[0] == '-' && "*"@[0] == '*' && "/"@[0] == '/');
        assert("**"@.len() == 2);
    }
    assert(begins_key(table, s.take(1))) by {
        assert(s.take(1) + Seq::<char>::empty() =~= s.take(1));
    }
    reveal_with_fuel(walk, 4);
    if s.len() >= 2 && s[0] == '*' && s[1] == '*' {
        assert(s.take(2) =~= "**"@);
        assert(begins_key(table, s.take(2))) by {
            assert(s.take(2) + Seq::<char>::empty() =~= s.take(2));
        }
    }
    if 1 < s.len() && begins_key(table, s.take(2)) {
        let rest = choose|rest: Seq<char>| table.contains_key(#[trigger] (s.take(2) + rest));
        assert((s.take(2) + rest).len() == 2 + rest.len());
        assert(s.take(2) + rest =~= s.take(2));
        assert(s.take(2)[0] == s[0] && s.take(2)[1] == s[1]);
        if 2 < s.len() && begins_key(table, s.take(3)) {
            let more = choose|more: Seq<char>| table.contains_key(#[trigger] (s.take(3) + more));
            assert((s.take(3) + more).len() == 3 + more.len());
        }
        assert(walk(table, s, 0) == 2);
    } else {
        assert(walk(table, s, 0) == 1);
    }
}

/// With the operators `+ - * / **`, lexing never fails.
pub proof fn lemma_standard_tokens(s: Seq<char>)
    ensures
        tokens(standard_operators(), s) is Some,
    decreases s.len(),
{
    let table = standard_operators();
    let rest = trimmed(s);
    lemma_run(s, CharClass::Space);
    if rest.len() > 0 {
        assert(rest[0] == s[run(s, CharClass::Space) as int]);
        if is_operator_char(rest[0]) {
            lemma_standard_operator(rest);
        }
        lemma_first_token(table, rest);
        if let Some((_, n)) = first_token(table, rest) {
            lemma_standard_tokens(rest.skip(n as int));
        }
    }
}

/// Blanks in front do not count: a text with blanks put in front of it
/// has the tokens of the text.
pub proof fn lemma_blanks_in_front(table: Map<Seq<char>, Op>, blanks: Seq<char>, s: Seq<char>)
    requires
        forall|i: int| 0 <= i < blanks.len() ==> is_space(#[trigger] blanks[i]),
    ensures
        trimmed(blanks + s) == trimmed(s),
        tokens(table, blanks + s) == tokens(table, s),
{
    let whole = blanks + s;
    let n = blanks.len() + run(s, CharClass::Space);
    lemma_run(s, CharClass::Space);
    assert forall|i: int| 0 <= i < n implies CharClass::Space.holds(#[trigger] whole[i]) by {
        if i >= blanks.len() {
            assert(whole[i] == s[i - blanks.len()]);
        } else {
            assert(whole[i] == blanks[i]);
        }
    }
    if n < whole.len() {
        assert(whole[n as int] == s[run(s, CharClass::Space) as int]);
    }
    lemma_run_is(whole, CharClass::Space, n);
    assert(trimmed(whole) =~= trimmed(s));
    lemma_leading_blanks(table, whole);
    lemma_leading_blanks(table, s);
}

/// Blanks between tokens do not count. With the operators `+ - * / **`,
/// blanks put behind the first token of a text leave the tokens of the
/// text as they are, unless that token is an unknown one, which runs to
/// the end of its line and takes the blanks in.
pub proof fn lemma_blanks_behind_token(s: Seq<char>, blanks: Seq<char>)
    requires
        s.len() > 0,
        !is_space(s[0]),
        forall|i: int| 0 <= i < blanks.len() ==> is_space(#[trigger] blanks[i]),
        first_token(standard_operators(), s) matches Some((token, _)) && !(token is Unknown),
    ensures
        first_token(standard_operators(), s) matches Some((_, n)) && n <= s.len() && tokens(
            standard_operators(),
            s.take(n as int) + blanks + s.skip(n as int),
        ) == tokens(standard_operators(), s),
{
    let table = standard_operators();
    lemma_first_token(table, s);
    let (token, n) = first_token(table, s)->0;
    let spaced = s.take(n as int) + blanks + s.skip(n as int);
    assert(spaced.len() == s.len() + blanks.len());
    assert forall|i: int| 0 <= i < n implies spaced[i] == s[i] by {}
    if n < spaced.len() {
        if blanks.len() > 0 {
            assert(spaced[n as int] == blanks[0]);
        } else {
            assert(spaced[n as int] == s[n as int]);
        }
    }
    assert(spaced.take(n as int) =~= s.take(n as int));
    assert(first_token(table, spaced) == Some((token, n))) by {
        if token is Const {
            lemma_run(s, CharClass::Literal);
            lemma_run_is(spaced, CharClass::Literal, n);
        } else if token is ID {
            lemma_run(s, CharClass::Name);
            lemma_run_is(spaced, CharClass::Name, n);
        } else if token is Operator {
            lemma_standard_operator(s);
            lemma_standard_operator(spaced);
        }
    }
    assert(trimmed(s) =~= s && trimmed(spaced) =~= spaced) by {
        lemma_run_is(s, CharClass::Space, 0);
        lemma_run_is(spaced, CharClass::Space, 0);
    }
    assert(spaced.skip(n as int) =~= blanks + s.skip(n as int));
    lemma_blanks_in_front(table, blanks, s.skip(n as int));
}

} // verus!

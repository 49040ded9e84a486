//! The fixed pre-tokenization grammar.
//!
//! At each position the segmenter takes the first of these pattern
//! classes that matches, mirroring an ordered, backtracking regular
//! expression alternation:
//! (a) a contraction suffix `'s 't 're 've 'm 'll 'd`, case-insensitive;
//! (b) an optional single non-newline, non-letter, non-numeral character
//!     followed by one or more letters;
//! (c) one to three numerals;
//! (d) an optional leading space, one or more symbolic characters, then
//!     any trailing newlines;
//! (e) a whitespace run up to and including its last newline;
//! (f) a whitespace run not followed by a non-whitespace character,
//!     backing off one character when something follows;
//! (g) any whitespace run.
use crate::chars::is_letter;
use crate::chars::is_nl;
use crate::chars::is_number;
use crate::chars::is_sym;
use crate::chars::is_ws;
use crate::chars::char_is_letter;
use crate::chars::char_is_nl;
use crate::chars::char_is_number;
use crate::chars::char_is_sym;
use crate::chars::char_is_ws;
use vstd::prelude::*;

verus! {

/// The character classes the grammar takes runs of.
#[derive(Clone, Copy)]
pub enum CharClass {
    Letter,
    Number,
    Ws,
    Sym,
    Nl,
}

pub open spec fn in_class(cl: CharClass, c: char) -> bool {
    match cl {
        CharClass::Letter => is_letter(c),
        CharClass::Number => is_number(c),
        CharClass::Ws => is_ws(c),
        CharClass::Sym => is_sym(c),
        CharClass::Nl => is_nl(c),
    }
}

pub fn char_in_class(cl: CharClass, c: char) -> (r: bool)
    ensures
        r == in_class(cl, c),
{
    match cl {
        CharClass::Letter => char_is_letter(c),
        CharClass::Number => char_is_number(c),
        CharClass::Ws => char_is_ws(c),
        CharClass::Sym => char_is_sym(c),
        CharClass::Nl => char_is_nl(c),
    }
}

/// The length of the run of `cl` characters at the front of `t`.
pub open spec fn class_run(cl: CharClass, t: Seq<char>) -> nat
    decreases t.len(),
{
    if t.len() == 0 || !in_class(cl, t[0]) {
        0
    } else {
        (1 + class_run(cl, t.skip(1))) as nat
    }
}

pub proof fn lemma_class_run_le(cl: CharClass, t: Seq<char>)
    ensures
        class_run(cl, t) <= t.len(),
    decreases t.len(),
{
    if t.len() == 0 || !in_class(cl, t[0]) {
    } else {
        lemma_class_run_le(cl, t.skip(1));
    }
}

/// The end of the last newline character within the first `m` characters
/// of `t`, or 0 if none of them is a newline.
pub open spec fn nl_end(t: Seq<char>, m: nat) -> nat
    decreases m,
{
    if m == 0 {
        0
    } else if is_nl(t[m - 1]) {
        m
    } else {
        nl_end(t, (m - 1) as nat)
    }
}

pub proof fn lemma_nl_end_le(t: Seq<char>, m: nat)
    ensures
        nl_end(t, m) <= m,
    decreases m,
{
    if m == 0 {
    } else if is_nl(t[m - 1]) {
    } else {
        lemma_nl_end_le(t, (m - 1) as nat);
    }
}

pub open spec fn is_cont1(c: char) -> bool {
    c == 's' || c == 'S' || c == 't' || c == 'T' || c == 'm' || c == 'M' || c == 'd' || c == 'D'
}

pub open spec fn is_cont2(c1: char, c2: char) -> bool {
    ||| (c1 == 'r' || c1 == 'R') && (c2 == 'e' || c2 == 'E')
    ||| (c1 == 'v' || c1 == 'V') && (c2 == 'e' || c2 == 'E')
    ||| (c1 == 'l' || c1 == 'L') && (c2 == 'l' || c2 == 'L')
}

/// Class (a): a contraction suffix.
pub open spec fn contraction_len(t: Seq<char>) -> nat {
    if t.len() >= 2 && t[0] == '\'' {
        if is_cont1(t[1]) {
            2
        } else if t.len() >= 3 && is_cont2(t[1], t[2]) {
            3
        } else {
            0
        }
    } else {
        0
    }
}

/// Class (b): letters, with one optional unrelated leading character.
pub open spec fn word_len(t: Seq<char>) -> nat {
    if t.len() == 0 {
        0
    } else if is_letter(t[0]) {
        class_run(CharClass::Letter, t)
    } else if !is_nl(t[0]) && !is_number(t[0]) && t.len() >= 2 && is_letter(t[1]) {
        (1 + class_run(CharClass::Letter, t.skip(1))) as nat
    } else {
        0
    }
}

/// Class (c): one to three numerals.
pub open spec fn number_len(t: Seq<char>) -> nat {
    if t.len() > 0 && is_number(t[0]) {
        if class_run(CharClass::Number, t) > 3 {
            3
        } else {
            class_run(CharClass::Number, t)
        }
    } else {
        0
    }
}

/// Class (d): symbolic characters with an optional leading space and
/// trailing newlines.
pub open spec fn punct_len(t: Seq<char>) -> nat {
    if t.len() == 0 {
        0
    } else if is_sym(t[0]) {
        (class_run(CharClass::Sym, t) + class_run(
            CharClass::Nl,
            t.skip(class_run(CharClass::Sym, t) as int),
        )) as nat
    } else if t[0] == ' ' && t.len() >= 2 && is_sym(t[1]) {
        (1 + class_run(CharClass::Sym, t.skip(1)) + class_run(
            CharClass::Nl,
            t.skip(1 + class_run(CharClass::Sym, t.skip(1)) as int),
        )) as nat
    } else {
        0
    }
}

/// Class (e): a whitespace run up to its last newline.
pub open spec fn newline_len(t: Seq<char>) -> nat {
    nl_end(t, class_run(CharClass::Ws, t))
}

/// Class (f): a whitespace run with nothing after it, else backing off
/// one character so the last whitespace can join what follows.
pub open spec fn ws_trail_len(t: Seq<char>) -> nat {
    let m = class_run(CharClass::Ws, t);
    if m == 0 {
        0
    } else if m == t.len() {
        m
    } else if m >= 2 {
        (m - 1) as nat
    } else {
        0
    }
}

/// Class (g): any whitespace run.
pub open spec fn ws_len(t: Seq<char>) -> nat {
    class_run(CharClass::Ws, t)
}

/// The length of the next ordinary piece at the front of `t`: the first
/// class, in grammar order, that matches.
pub open spec fn next_grammar_len(t: Seq<char>) -> nat {
    if contraction_len(t) > 0 {
        contraction_len(t)
    } else if word_len(t) > 0 {
        word_len(t)
    } else if number_len(t) > 0 {
        number_len(t)
    } else if punct_len(t) > 0 {
        punct_len(t)
    } else if newline_len(t) > 0 {
        newline_len(t)
    } else if ws_trail_len(t) > 0 {
        ws_trail_len(t)
    } else {
        ws_len(t)
    }
}

/// On nonempty text some grammar class always matches, and no class
/// overruns the text.
pub proof fn lemma_grammar_len_bounds(t: Seq<char>)
    requires
        t.len() > 0,
    ensures
        1 <= next_grammar_len(t) <= t.len(),
{
    lemma_class_run_le(CharClass::Letter, t);
    lemma_class_run_le(CharClass::Number, t);
    lemma_class_run_le(CharClass::Ws, t);
    lemma_class_run_le(CharClass::Sym, t);
    lemma_class_run_le(CharClass::Nl, t);
    lemma_nl_end_le(t, class_run(CharClass::Ws, t));
    if t.len() >= 2 {
        lemma_class_run_le(CharClass::Letter, t.skip(1));
        lemma_class_run_le(CharClass::Sym, t.skip(1));
    }
    let s0 = class_run(CharClass::Sym, t);
    lemma_class_run_le(CharClass::Nl, t.skip(s0 as int));
    if t.len() >= 2 {
        let s1 = class_run(CharClass::Sym, t.skip(1));
        lemma_class_run_le(CharClass::Nl, t.skip(1 + s1 as int));
        assert(t.skip(1).len() == t.len() - 1);
        assert(t.skip(1 + s1 as int).len() == t.len() - 1 - s1);
    }
    if contraction_len(t) > 0 {
    } else if word_len(t) > 0 {
    } else if number_len(t) > 0 {
    } else if punct_len(t) > 0 {
    } else if newline_len(t) > 0 {
    } else if ws_trail_len(t) > 0 {
    } else {
        if !is_ws(t[0]) {
            if is_letter(t[0]) {
                assert(word_len(t) >= 1);
            } else if is_number(t[0]) {
                assert(number_len(t) >= 1);
            } else {
                assert(is_sym(t[0]));
                assert(punct_len(t) >= 1);
            }
            assert(false);
        }
        assert(ws_len(t) >= 1);
    }
}

/// Computes the run of `cl` characters in `text` starting at `pos`.
pub fn run_from(text: &Vec<char>, pos: usize, cl: CharClass) -> (n: usize)
    requires
        pos <= text.len(),
    ensures
        n == class_run(cl, text@.skip(pos as int)),
        pos + n <= text.len(),
{
    let mut i: usize = pos;
    while i < text.len() && char_in_class(cl, text[i])
        invariant
            pos <= i <= text.len(),
            class_run(cl, text@.skip(pos as int)) == i - pos + class_run(cl, text@.skip(i as int)),
        decreases text.len() - i,
    {
        proof {
            assert(text@.skip(i as int)[0] == text@[i as int]);
            assert(text@.skip(i as int).skip(1) =~= text@.skip(i + 1));
        }
        i = i + 1;
    }
    proof {
        if i < text.len() {
            assert(text@.skip(i as int)[0] == text@[i as int]);
            assert(class_run(cl, text@.skip(i as int)) == 0);
        } else {
            assert(text@.skip(i as int).len() == 0);
        }
    }
    i - pos
}

/// Computes `nl_end` over `text[pos..pos + m]`.
pub fn nl_end_from(text: &Vec<char>, pos: usize, m: usize) -> (r: usize)
    requires
        pos + m <= text.len(),
    ensures
        r == nl_end(text@.skip(pos as int), m as nat),
{
    let mut j: usize = m;
    while j > 0
        invariant
            j <= m,
            pos + m <= text.len(),
            nl_end(text@.skip(pos as int), m as nat) == nl_end(text@.skip(pos as int), j as nat),
        decreases j,
    {
        proof {
            assert(text@.skip(pos as int)[j - 1] == text@[pos + j - 1]);
        }
        if char_is_nl(text[pos + j - 1]) {
            return j;
        }
        j = j - 1;
    }
    0
}

/// Computes the next grammar match length at `pos`.
pub fn grammar_len(text: &Vec<char>, pos: usize) -> (r: usize)
    requires
        pos < text.len(),
    ensures
        r == next_grammar_len(text@.skip(pos as int)),
        1 <= r <= text.len() - pos,
{
    let ghost t = text@.skip(pos as int);
    proof {
        lemma_grammar_len_bounds(t);
        assert(t[0] == text@[pos as int]);
    }
    let c0 = text[pos];

    // (a) contraction suffixes
    if c0 == '\'' && pos + 1 < text.len() {
        let c1 = text[pos + 1];
        proof {
            assert(t[1] == text@[pos + 1]);
        }
        if c1 == 's' || c1 == 'S' || c1 == 't' || c1 == 'T' || c1 == 'm' || c1 == 'M' || c1 == 'd'
            || c1 == 'D' {
            return 2;
        }
        if pos + 2 < text.len() {
            let c2 = text[pos + 2];
            proof {
                assert(t[2] == text@[pos + 2]);
            }
            if ((c1 == 'r' || c1 == 'R') && (c2 == 'e' || c2 == 'E')) || ((c1 == 'v' || c1 == 'V')
                && (c2 == 'e' || c2 == 'E')) || ((c1 == 'l' || c1 == 'L') && (c2 == 'l' || c2
                == 'L')) {
                return 3;
            }
        }
    }

    // (b) letters with an optional leading character
    if char_is_letter(c0) {
        let n = run_from(text, pos, CharClass::Letter);
        return n;
    }
    if !char_is_nl(c0) && !char_is_number(c0) && pos + 1 < text.len() && char_is_letter(
        text[pos + 1],
    ) {
        proof {
            assert(t[1] == text@[pos + 1]);
            assert(t.skip(1) =~= text@.skip(pos + 1));
        }
        let n = run_from(text, pos + 1, CharClass::Letter);
        return 1 + n;
    }

    // (c) one to three numerals
    if char_is_number(c0) {
        let n = run_from(text, pos, CharClass::Number);
        if n > 3 {
            return 3;
        }
        return n;
    }

    // (d) symbolic characters
    if char_is_sym(c0) {
        let s = run_from(text, pos, CharClass::Sym);
        proof {
            assert(t.skip(s as int) =~= text@.skip(pos + s));
        }
        let nl = run_from(text, pos + s, CharClass::Nl);
        return s + nl;
    }
    if c0 == ' ' && pos + 1 < text.len() && char_is_sym(text[pos + 1]) {
        proof {
            assert(t[1] == text@[pos + 1]);
            assert(t.skip(1) =~= text@.skip(pos + 1));
        }
        let s = run_from(text, pos + 1, CharClass::Sym);
        proof {
            assert(t.skip(1 + s as int) =~= text@.skip(pos + 1 + s));
        }
        let nl = run_from(text, pos + 1 + s, CharClass::Nl);
        return 1 + s + nl;
    }

    // (e) a whitespace run ending in a newline
    let m = run_from(text, pos, CharClass::Ws);
    let e = nl_end_from(text, pos, m);
    if e > 0 {
        return e;
    }

    // (f) trailing whitespace, backing off before a following character
    if pos + m == text.len() {
        return m;
    }
    if m >= 2 {
        return m - 1;
    }

    // (g) any whitespace run
    m
}

} // verus!

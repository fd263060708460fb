//! The grammar of the source syntax, as mathematical functions on bytes.
//!
//! Every function reads the text `s` from the position `at` on. Choices are
//! ordered and repetitions are greedy: a list ends at the first place where
//! no further element can be read, and what follows is left unread.
use crate::parser::{DefView, TermView};
use vstd::prelude::*;

verus! {

/// The outcome of reading one construct.
pub enum Parsed<T> {
    /// The construct was read; the text goes on at `end`.
    Done { value: T, end: int },
    /// The text does not start with the construct.
    NoMatch,
    /// The construct is there, but one of its numbers does not fit in a
    /// machine word.
    TooLarge,
}

pub open spec fn is_alpha(b: u8) -> bool {
    (0x41 <= b <= 0x5a) || (0x61 <= b <= 0x7a)
}

pub open spec fn is_digit(b: u8) -> bool {
    0x30 <= b <= 0x39
}

/// Space, tab, carriage return and line feed.
pub open spec fn is_space(b: u8) -> bool {
    b == 0x20 || b == 0x09 || b == 0x0d || b == 0x0a
}

pub open spec fn is_ident_start(b: u8) -> bool {
    is_alpha(b) || b == 0x5f
}

pub open spec fn is_ident_part(b: u8) -> bool {
    is_alpha(b) || is_digit(b) || b == 0x5f
}

/// The end of the longest run of bytes from `at` on that satisfy `class`.
pub open spec fn run_end(s: Seq<u8>, at: int, class: spec_fn(u8) -> bool) -> int
    decreases s.len() - at,
{
    if 0 <= at < s.len() && class(s[at]) {
        run_end(s, at + 1, class)
    } else {
        at
    }
}

/// The position behind the white space at `at`.
pub open spec fn skip_space(s: Seq<u8>, at: int) -> int {
    run_end(s, at, |b: u8| is_space(b))
}

/// The end of the identifier at `at`: a letter or an underscore, then
/// letters, digits and underscores as far as they go.
pub open spec fn ident_end(s: Seq<u8>, at: int) -> Option<int> {
    if 0 <= at < s.len() && is_ident_start(s[at]) {
        Some(run_end(s, at + 1, |b: u8| is_ident_part(b)))
    } else {
        None
    }
}

/// Whether the bytes of `word` stand at `at`.
pub open spec fn has_word(s: Seq<u8>, at: int, word: Seq<u8>) -> bool {
    0 <= at && at + word.len() <= s.len() && s.subrange(at, at + word.len()) == word
}

/// The position behind `word` and the white space on both sides of it.
pub open spec fn spaced_word(s: Seq<u8>, at: int, word: Seq<u8>) -> Option<int> {
    let start = skip_space(s, at);
    if has_word(s, start, word) {
        Some(skip_space(s, start + word.len()))
    } else {
        None
    }
}

pub open spec fn word_comma() -> Seq<u8> {
    seq![0x2cu8]
}

pub open spec fn word_colon() -> Seq<u8> {
    seq![0x3au8]
}

pub open spec fn word_equals() -> Seq<u8> {
    seq![0x3du8]
}

/// `><`
pub open spec fn word_meets() -> Seq<u8> {
    seq![0x3eu8, 0x3cu8]
}

/// `#agent`
pub open spec fn word_agent() -> Seq<u8> {
    seq![0x23u8, 0x61u8, 0x67u8, 0x65u8, 0x6eu8, 0x74u8]
}

/// `#rule`
pub open spec fn word_rule() -> Seq<u8> {
    seq![0x23u8, 0x72u8, 0x75u8, 0x6cu8, 0x65u8]
}

/// The number that a run of decimal digits writes.
pub open spec fn decimal(digits: Seq<u8>) -> nat
    decreases digits.len(),
{
    if digits.len() == 0 {
        0
    } else {
        decimal(digits.drop_last()) * 10 + (digits.last() - 0x30) as nat
    }
}

/// A term at `at`: an identifier, then, where it can be read in full, a
/// parenthesised list of terms separated by commas. White space may stand
/// before and behind the opening parenthesis, around the commas and before
/// the closing parenthesis. Where the list cannot be read up to its closing
/// parenthesis the term is the bare name, and what follows the name is left
/// unread.
pub open spec fn term_at(s: Seq<u8>, at: int) -> Option<(TermView, int)>
    decreases s.len() - at, 0int,
{
    match ident_end(s, at) {
        None => None,
        Some(name_end) => {
            let name = s.subrange(at, name_end);
            let bare = Some((TermView { name, ports: None }, name_end));
            let open = skip_space(s, name_end);
            let first = skip_space(s, open + 1);
            if at < name_end <= open < first <= s.len() && s[open] == 0x28 {
                let (ports, end) = term_list(s, first);
                let close = skip_space(s, end);
                if 0 <= close < s.len() && s[close] == 0x29 {
                    Some((TermView { name, ports: Some(ports) }, close + 1))
                } else {
                    bare
                }
            } else {
                bare
            }
        },
    }
}

/// The terms of a list that starts at `at`, and where the list ends. The
/// list may be empty.
pub open spec fn term_list(s: Seq<u8>, at: int) -> (Seq<TermView>, int)
    decreases s.len() - at, 1int,
{
    match term_at(s, at) {
        Some((first, end)) if at < end <= s.len() => term_list_more(s, end, seq![first]),
        _ => (Seq::empty(), at),
    }
}

/// The list that has the terms `acc` so far and goes on at `at`: a comma
/// and one more term as long as both are there.
pub open spec fn term_list_more(s: Seq<u8>, at: int, acc: Seq<TermView>) -> (Seq<TermView>, int)
    decreases s.len() - at, 0int,
{
    match spaced_word(s, at, word_comma()) {
        Some(next) if at < next <= s.len() => match term_at(s, next) {
            Some((term, end)) if next < end <= s.len() => term_list_more(s, end, acc.push(term)),
            _ => (acc, at),
        },
        _ => (acc, at),
    }
}

/// One agent declaration at `at`: an identifier, a colon with optional white
/// space around it, and the arity as a run of decimal digits.
pub open spec fn atom_at(s: Seq<u8>, at: int) -> Parsed<(Seq<u8>, usize)> {
    match ident_end(s, at) {
        None => Parsed::NoMatch,
        Some(name_end) => match spaced_word(s, name_end, word_colon()) {
            None => Parsed::NoMatch,
            Some(digits) => {
                let end = run_end(s, digits, |b: u8| is_digit(b));
                if end <= digits {
                    Parsed::NoMatch
                } else if decimal(s.subrange(digits, end)) > usize::MAX {
                    Parsed::TooLarge
                } else {
                    Parsed::Done {
                        value: (s.subrange(at, name_end), decimal(s.subrange(digits, end)) as usize),
                        end,
                    }
                }
            },
        },
    }
}

/// The list of agent declarations that has `acc` so far and goes on at `at`.
/// An arity that does not fit fails the whole list.
pub open spec fn atoms_more(s: Seq<u8>, at: int, acc: Seq<(Seq<u8>, usize)>) -> Parsed<
    Seq<(Seq<u8>, usize)>,
>
    decreases s.len() - at,
{
    match spaced_word(s, at, word_comma()) {
        Some(next) if at < next <= s.len() => match atom_at(s, next) {
            Parsed::Done { value, end } => if next < end <= s.len() {
                atoms_more(s, end, acc.push(value))
            } else {
                Parsed::Done { value: acc, end: at }
            },
            Parsed::NoMatch => Parsed::Done { value: acc, end: at },
            Parsed::TooLarge => Parsed::TooLarge,
        },
        _ => Parsed::Done { value: acc, end: at },
    }
}

/// `#agent` and a list of at least one agent declaration.
pub open spec fn agent_def_at(s: Seq<u8>, at: int) -> Parsed<DefView> {
    match spaced_word(s, at, word_agent()) {
        None => Parsed::NoMatch,
        Some(first) => match atom_at(s, first) {
            Parsed::Done { value, end } => match atoms_more(s, end, seq![value]) {
                Parsed::Done { value: atoms, end } => Parsed::Done {
                    value: DefView::Agent(atoms),
                    end,
                },
                Parsed::NoMatch => Parsed::NoMatch,
                Parsed::TooLarge => Parsed::TooLarge,
            },
            Parsed::NoMatch => Parsed::NoMatch,
            Parsed::TooLarge => Parsed::TooLarge,
        },
    }
}

/// `#rule`, a term, `><` and a term.
pub open spec fn rule_def_at(s: Seq<u8>, at: int) -> Parsed<DefView> {
    match spaced_word(s, at, word_rule()) {
        None => Parsed::NoMatch,
        Some(lhs_at) => match term_at(s, lhs_at) {
            None => Parsed::NoMatch,
            Some((lhs, lhs_end)) => match spaced_word(s, lhs_end, word_meets()) {
                None => Parsed::NoMatch,
                Some(rhs_at) => match term_at(s, rhs_at) {
                    None => Parsed::NoMatch,
                    Some((rhs, end)) => Parsed::Done { value: DefView::Rule(lhs, rhs), end },
                },
            },
        },
    }
}

/// A term, `=` and a term; white space may stand before the first term.
pub open spec fn eq_def_at(s: Seq<u8>, at: int) -> Parsed<DefView> {
    match term_at(s, skip_space(s, at)) {
        None => Parsed::NoMatch,
        Some((lhs, lhs_end)) => match spaced_word(s, lhs_end, word_equals()) {
            None => Parsed::NoMatch,
            Some(rhs_at) => match term_at(s, rhs_at) {
                None => Parsed::NoMatch,
                Some((rhs, end)) => Parsed::Done { value: DefView::Eq(lhs, rhs), end },
            },
        },
    }
}

/// One definition: an agent declaration, else a rule, else an equation. An
/// agent declaration with an arity that does not fit fails at once.
pub open spec fn def_at(s: Seq<u8>, at: int) -> Parsed<DefView> {
    match agent_def_at(s, at) {
        Parsed::NoMatch => match rule_def_at(s, at) {
            Parsed::NoMatch => eq_def_at(s, at),
            other => other,
        },
        other => other,
    }
}

/// The definitions that follow `acc` from `at` on, as far as they go.
pub open spec fn defs_more(s: Seq<u8>, at: int, acc: Seq<DefView>) -> Parsed<Seq<DefView>>
    decreases s.len() - at,
{
    match def_at(s, at) {
        Parsed::Done { value, end } => if at < end <= s.len() {
            defs_more(s, end, acc.push(value))
        } else {
            Parsed::NoMatch
        },
        Parsed::NoMatch => Parsed::Done { value: acc, end: at },
        Parsed::TooLarge => Parsed::TooLarge,
    }
}

/// A text: at least one definition, then as many as follow.
pub open spec fn defs_at(s: Seq<u8>, at: int) -> Parsed<Seq<DefView>> {
    match def_at(s, at) {
        Parsed::Done { value, end } => defs_more(s, end, seq![value]),
        Parsed::NoMatch => Parsed::NoMatch,
        Parsed::TooLarge => Parsed::TooLarge,
    }
}

} // verus!

//! The source syntax of nets: agent declarations, rules and equations.
//!
//! The parsers read a text from its start and hand back what they read
//! together with the unread rest. What each one accepts is said in
//! [`crate::grammar`].
use crate::grammar::{
    atom_at, atoms_more, agent_def_at, decimal, def_at, defs_at, defs_more, eq_def_at, has_word,
    ident_end, is_alpha, is_digit, is_ident_part, is_space, rule_def_at, run_end, skip_space,
    spaced_word, term_at, term_list, term_list_more, word_agent, word_colon, word_comma,
    word_equals, word_meets, word_rule, Parsed,
};
use vstd::prelude::*;
use vstd::slice::slice_subrange;

verus! {

/// The mathematical value of a [`Term`].
pub struct TermView {
    pub name: Seq<u8>,
    pub ports: Option<Seq<TermView>>,
}

/// A term: a name, and the terms on its ports where a parenthesised list
/// follows the name. `f` has no list; `f()` has an empty one.
#[derive(Debug, PartialEq, Eq, PartialOrd, Ord, Hash)]
pub struct Term<'a> {
    pub name: &'a [u8],
    pub ports: Option<Vec<Term<'a>>>,
}

impl<'a> View for Term<'a> {
    type V = TermView;

    open spec fn view(&self) -> TermView
        decreases self,
    {
        TermView {
            name: self.name@,
            ports: match self.ports {
                None => None,
                Some(ports) => Some(term_views(ports@)),
            },
        }
    }
}

/// The views of a list of terms.
pub open spec fn term_views(terms: Seq<Term<'_>>) -> Seq<TermView>
    decreases terms,
{
    if terms.len() == 0 {
        Seq::empty()
    } else {
        term_views(terms.drop_last()).push(terms.last()@)
    }
}

impl<'a> Clone for Term<'a> {
    fn clone(&self) -> (r: Term<'a>)
        ensures
            r@ == self@,
        decreases self,
    {
        let ports = match &self.ports {
            None => None,
            Some(ports) => {
                let mut copy: Vec<Term<'a>> = Vec::new();
                let mut i: usize = 0;
                while i < ports.len()
                    invariant
                        i <= ports.len(),
                        term_views(copy@) == term_views(ports@.take(i as int)),
                        decreases_to!(self => ports),
                    decreases ports.len() - i,
                {
                    let port = ports[i].clone();
                    proof {
                        lemma_term_views_push(copy@, port);
                        lemma_term_views_push(ports@.take(i as int), ports[i as int]);
                        assert(ports@.take(i + 1) =~= ports@.take(i as int).push(ports[i as int]));
                    }
                    copy.push(port);
                    i = i + 1;
                }
                proof {
                    assert(ports@.take(ports.len() as int) =~= ports@);
                }
                Some(copy)
            },
        };
        Term { name: self.name, ports }
    }
}

/// The mathematical value of a [`Def`].
pub enum DefView {
    Agent(Seq<(Seq<u8>, usize)>),
    Rule(TermView, TermView),
    Eq(TermView, TermView),
}

/// One definition of a source text.
#[derive(Debug, Clone, PartialEq, Eq, PartialOrd, Ord, Hash)]
pub enum Def<'a> {
    /// `#agent Name:arity, ...`: agent types with their arities.
    Agent(Vec<(&'a [u8], usize)>),
    /// `#rule lhs >< rhs`.
    Rule(Term<'a>, Term<'a>),
    /// `lhs = rhs`.
    Eq(Term<'a>, Term<'a>),
}

impl<'a> View for Def<'a> {
    type V = DefView;

    open spec fn view(&self) -> DefView {
        match *self {
            Def::Agent(atoms) => DefView::Agent(atom_views(atoms@)),
            Def::Rule(lhs, rhs) => DefView::Rule(lhs@, rhs@),
            Def::Eq(lhs, rhs) => DefView::Eq(lhs@, rhs@),
        }
    }
}

/// Why a text could not be read.
#[derive(Debug, Clone, Copy, PartialEq, Eq, Structural)]
pub enum ParseError {
    /// The text does not start with what was to be read.
    NoMatch,
    /// An arity does not fit in a machine word.
    TooLarge,
}

/// The views of a list of agent declarations.
pub open spec fn atom_views(atoms: Seq<(&[u8], usize)>) -> Seq<(Seq<u8>, usize)> {
    Seq::new(atoms.len(), |i: int| (atoms[i].0@, atoms[i].1))
}

/// The views of a list of definitions.
pub open spec fn def_views(defs: Seq<Def<'_>>) -> Seq<DefView> {
    Seq::new(defs.len(), |i: int| defs[i]@)
}

/// A parser's result `r`, taken by its view, is what the grammar gives for
/// the text `input`: the value with the rest of the text behind it, or the
/// error of the same name.
pub open spec fn agrees<V>(
    input: Seq<u8>,
    parsed: Parsed<V>,
    r: Result<(Seq<u8>, V), ParseError>,
) -> bool {
    match parsed {
        Parsed::Done { value, end } => 0 <= end <= input.len() && r == Ok::<
            (Seq<u8>, V),
            ParseError,
        >((input.skip(end), value)),
        Parsed::NoMatch => r == Err::<(Seq<u8>, V), ParseError>(ParseError::NoMatch),
        Parsed::TooLarge => r == Err::<(Seq<u8>, V), ParseError>(ParseError::TooLarge),
    }
}

/// The grammar's answer for a construct that cannot be too large.
pub open spec fn found<V>(read: Option<(V, int)>) -> Parsed<V> {
    match read {
        Some((value, end)) => Parsed::Done { value, end },
        None => Parsed::NoMatch,
    }
}

fn is_space_byte(b: u8) -> (r: bool)
    ensures
        r == is_space(b),
{
    b == 0x20 || b == 0x09 || b == 0x0d || b == 0x0a
}

fn is_alpha_byte(b: u8) -> (r: bool)
    ensures
        r == is_alpha(b),
{
    (0x41 <= b && b <= 0x5a) || (0x61 <= b && b <= 0x7a)
}

fn is_digit_byte(b: u8) -> (r: bool)
    ensures
        r == is_digit(b),
{
    0x30 <= b && b <= 0x39
}

/// The position behind the white space at `at`.
fn skip_spaces(input: &[u8], at: usize) -> (r: usize)
    requires
        at <= input.len(),
    ensures
        r == skip_space(input@, at as int),
        at <= r <= input.len(),
{
    let mut i = at;
    while i < input.len() && is_space_byte(input[i])
        invariant
            at <= i <= input.len(),
            skip_space(input@, at as int) == skip_space(input@, i as int),
        decreases input.len() - i,
    {
        i = i + 1;
    }
    i
}

/// The end of the run of letters, digits and underscores at `at`.
fn ident_tail(input: &[u8], at: usize) -> (r: usize)
    requires
        at <= input.len(),
    ensures
        r == run_end(input@, at as int, |b: u8| is_ident_part(b)),
        at <= r <= input.len(),
{
    let mut i = at;
    while i < input.len() && (is_alpha_byte(input[i]) || is_digit_byte(input[i]) || input[i]
        == 0x5f)
        invariant
            at <= i <= input.len(),
            run_end(input@, at as int, |b: u8| is_ident_part(b)) == run_end(
                input@,
                i as int,
                |b: u8| is_ident_part(b),
            ),
        decreases input.len() - i,
    {
        i = i + 1;
    }
    i
}

/// The end of the run of digits at `at`.
fn digits_end(input: &[u8], at: usize) -> (r: usize)
    requires
        at <= input.len(),
    ensures
        r == run_end(input@, at as int, |b: u8| is_digit(b)),
        at <= r <= input.len(),
{
    let mut i = at;
    while i < input.len() && is_digit_byte(input[i])
        invariant
            at <= i <= input.len(),
            run_end(input@, at as int, |b: u8| is_digit(b)) == run_end(
                input@,
                i as int,
                |b: u8| is_digit(b),
            ),
        decreases input.len() - i,
    {
        i = i + 1;
    }
    i
}

/// The end of the identifier at `at`.
fn ident_at(input: &[u8], at: usize) -> (r: Option<usize>)
    requires
        at <= input.len(),
    ensures
        match r {
            Some(end) => ident_end(input@, at as int) == Some(end as int) && at < end
                <= input.len(),
            None => ident_end(input@, at as int) is None,
        },
{
    if at < input.len() && (is_alpha_byte(input[at]) || input[at] == 0x5f) {
        Some(ident_tail(input, at + 1))
    } else {
        None
    }
}

/// Whether the bytes of `word` stand at `at`.
fn word_at(input: &[u8], at: usize, word: &[u8]) -> (r: bool)
    requires
        at <= input.len(),
    ensures
        r == has_word(input@, at as int, word@),
{
    if word.len() > input.len() - at {
        return false;
    }
    let mut i: usize = 0;
    while i < word.len()
        invariant
            i <= word.len(),
            at + word.len() <= input.len(),
            input@.subrange(at as int, at + i) == word@.take(i as int),
        decreases word.len() - i,
    {
        if input[at + i] != word[i] {
            proof {
                let all = input@.subrange(at as int, at + word.len());
                assert(all[i as int] != word@[i as int]);
            }
            return false;
        }
        proof {
            assert(input@.subrange(at as int, at + i + 1) == input@.subrange(
                at as int,
                at + i,
            ).push(input@[at + i]));
            assert(word@.take(i + 1) == word@.take(i as int).push(word@[i as int]));
        }
        i = i + 1;
    }
    proof {
        assert(word@.take(word.len() as int) == word@);
    }
    true
}

/// The position behind `word` and the white space on both sides of it.
fn spaced(input: &[u8], at: usize, word: &[u8]) -> (r: Option<usize>)
    requires
        at <= input.len(),
    ensures
        match r {
            Some(end) => spaced_word(input@, at as int, word@) == Some(end as int) && at
                + word@.len() <= end <= input.len(),
            None => spaced_word(input@, at as int, word@) is None,
        },
{
    let start = skip_spaces(input, at);
    if word_at(input, start, word) {
        Some(skip_spaces(input, start + word.len()))
    } else {
        None
    }
}

/// Appending a term appends its view.
pub proof fn lemma_term_views_push(terms: Seq<Term<'_>>, term: Term<'_>)
    ensures
        term_views(terms.push(term)) == term_views(terms).push(term@),
{
    assert(terms.push(term).drop_last() =~= terms);
}

/// The views of a list of terms, one by one.
pub proof fn lemma_term_views_index(terms: Seq<Term<'_>>)
    ensures
        term_views(terms).len() == terms.len(),
        forall|i: int| 0 <= i < terms.len() ==> (#[trigger] term_views(terms)[i]) == terms[i]@,
    decreases terms.len(),
{
    if terms.len() > 0 {
        lemma_term_views_index(terms.drop_last());
        assert(term_views(terms) == term_views(terms.drop_last()).push(terms.last()@));
        assert forall|i: int| 0 <= i < terms.len() implies (#[trigger] term_views(terms)[i])
            == terms[i]@ by {
            if i < terms.len() - 1 {
                assert(terms.drop_last()[i] == terms[i]);
            }
        }
    } else {
        assert(term_views(terms) == Seq::<TermView>::empty());
    }
}

/// Reads a term at `at`.
fn read_term<'a>(input: &'a [u8], at: usize) -> (r: Option<(Term<'a>, usize)>)
    requires
        at <= input.len(),
    ensures
        match r {
            Some((term, end)) => term_at(input@, at as int) == Some((term@, end as int)) && at
                < end <= input.len(),
            None => term_at(input@, at as int) is None,
        },
    decreases input.len() - at, 0int,
{
    let name_end = match ident_at(input, at) {
        Some(end) => end,
        None => {
            return None;
        },
    };
    let name = slice_subrange(input, at, name_end);
    let open = skip_spaces(input, name_end);
    if open < input.len() && input[open] == 0x28 {
        let first = skip_spaces(input, open + 1);
        let (ports, end) = read_term_list(input, first);
        let close = skip_spaces(input, end);
        if close < input.len() && input[close] == 0x29 {
            return Some((Term { name, ports: Some(ports) }, close + 1));
        }
    }
    Some((Term { name, ports: None }, name_end))
}

/// Reads a list of terms at `at`.
fn read_term_list<'a>(input: &'a [u8], at: usize) -> (r: (Vec<Term<'a>>, usize))
    requires
        at <= input.len(),
    ensures
        term_list(input@, at as int) == (term_views(r.0@), r.1 as int),
        at <= r.1 <= input.len(),
    decreases input.len() - at, 1int,
{
    let mut terms: Vec<Term<'a>> = Vec::new();
    let mut cur = at;
    match read_term(input, at) {
        None => {
            return (terms, at);
        },
        Some((first, end)) => {
            proof {
                lemma_term_views_push(terms@, first);
            }
            terms.push(first);
            cur = end;
        },
    }
    let mut more = true;
    while more
        invariant
            at < cur <= input.len(),
            more ==> term_list(input@, at as int) == term_list_more(
                input@,
                cur as int,
                term_views(terms@),
            ),
            !more ==> term_list(input@, at as int) == (term_views(terms@), cur as int),
        decreases
                input.len() - cur + (if more {
                    1int
                } else {
                    0int
                }),
    {
        match comma(input, cur) {
            None => {
                more = false;
            },
            Some(next) => match read_term(input, next) {
                None => {
                    more = false;
                },
                Some((term, end)) => {
                    proof {
                        lemma_term_views_push(terms@, term);
                    }
                    terms.push(term);
                    cur = end;
                },
            },
        }
    }
    (terms, cur)
}

/// The position behind a comma with white space around it.
fn comma(input: &[u8], at: usize) -> (r: Option<usize>)
    requires
        at <= input.len(),
    ensures
        match r {
            Some(end) => spaced_word(input@, at as int, word_comma()) == Some(end as int) && at
                < end <= input.len(),
            None => spaced_word(input@, at as int, word_comma()) is None,
        },
{
    let word: [u8; 1] = [0x2c];
    assert(word@ =~= word_comma());
    spaced(input, at, word.as_slice())
}

/// Reads an identifier at the start of `input`.
pub fn identifier<'a>(input: &'a [u8]) -> (r: Result<(&'a [u8], &'a [u8]), ParseError>)
    ensures
        match r {
            Ok((rest, name)) => ident_end(input@, 0) == Some(name@.len() as int) && name@
                == input@.take(name@.len() as int) && rest@ == input@.skip(name@.len() as int),
            Err(e) => ident_end(input@, 0) is None && e == ParseError::NoMatch,
        },
{
    match ident_at(input, 0) {
        Some(end) => Ok((slice_subrange(input, end, input.len()), slice_subrange(input, 0, end))),
        None => Err(ParseError::NoMatch),
    }
}

/// Reads a term at the start of `input`.
pub fn term<'a>(input: &'a [u8]) -> (r: Result<(&'a [u8], Term<'a>), ParseError>)
    ensures
        agrees(
            input@,
            found(term_at(input@, 0)),
            match r {
                Ok((rest, term)) => Ok((rest@, term@)),
                Err(e) => Err(e),
            },
        ),
{
    match read_term(input, 0) {
        Some((term, end)) => Ok((slice_subrange(input, end, input.len()), term)),
        None => Err(ParseError::NoMatch),
    }
}

/// Every byte of a run is of the run's class.
pub proof fn lemma_run_end_class(s: Seq<u8>, at: int, class: spec_fn(u8) -> bool)
    requires
        0 <= at <= s.len(),
    ensures
        forall|i: int| at <= i < run_end(s, at, class) ==> class(#[trigger] s[i]),
    decreases s.len() - at,
{
    if at < s.len() && class(s[at]) {
        lemma_run_end_class(s, at + 1, class);
    }
}

/// More digits do not write a smaller number.
pub proof fn lemma_decimal_grows(digits: Seq<u8>, k: int)
    requires
        0 <= k <= digits.len(),
        forall|i: int| 0 <= i < digits.len() ==> is_digit(#[trigger] digits[i]),
    ensures
        decimal(digits.take(k)) <= decimal(digits),
    decreases digits.len() - k,
{
    if k == digits.len() {
        assert(digits.take(k) =~= digits);
    } else {
        lemma_decimal_grows(digits.drop_last(), k);
        assert(digits.drop_last().take(k) =~= digits.take(k));
    }
}

/// The number that the digits from `from` up to `to` write, or `None` where
/// it does not fit.
fn read_decimal(input: &[u8], from: usize, to: usize) -> (r: Option<usize>)
    requires
        from <= to <= input.len(),
        forall|i: int| from <= i < to ==> is_digit(#[trigger] input@[i]),
    ensures
        match r {
            Some(n) => n == decimal(input@.subrange(from as int, to as int)),
            None => decimal(input@.subrange(from as int, to as int)) > usize::MAX,
        },
{
    let ghost all = input@.subrange(from as int, to as int);
    let mut n: usize = 0;
    let mut i = from;
    while i < to
        invariant
            from <= i <= to <= input.len(),
            all == input@.subrange(from as int, to as int),
            forall|k: int| from <= k < to ==> is_digit(#[trigger] input@[k]),
            n == decimal(input@.subrange(from as int, i as int)),
        decreases to - i,
    {
        let digit: usize = (input[i] - 0x30) as usize;
        proof {
            let longer = input@.subrange(from as int, i + 1);
            assert(longer.drop_last() =~= input@.subrange(from as int, i as int));
            assert(longer.last() == input@[i as int]);
            assert(decimal(longer) == n * 10 + digit);
            assert(all.take(i + 1 - from) =~= longer);
            lemma_decimal_grows(all, i + 1 - from);
        }
        let tens = match n.checked_mul(10) {
            Some(tens) => tens,
            None => {
                return None;
            },
        };
        n = match tens.checked_add(digit) {
            Some(sum) => sum,
            None => {
                return None;
            },
        };
        i = i + 1;
    }
    Some(n)
}

/// Reads one agent declaration at `at`.
fn read_atom<'a>(input: &'a [u8], at: usize) -> (r: Result<((&'a [u8], usize), usize), ParseError>)
    requires
        at <= input.len(),
    ensures
        match r {
            Ok((atom, end)) => atom_at(input@, at as int) == (Parsed::Done {
                value: (atom.0@, atom.1),
                end: end as int,
            }) && at < end <= input.len(),
            Err(ParseError::NoMatch) => atom_at(input@, at as int) is NoMatch,
            Err(ParseError::TooLarge) => atom_at(input@, at as int) is TooLarge,
        },
{
    let name_end = match ident_at(input, at) {
        Some(end) => end,
        None => {
            return Err(ParseError::NoMatch);
        },
    };
    let colon: [u8; 1] = [0x3a];
    assert(colon@ =~= word_colon());
    let digits = match spaced(input, name_end, colon.as_slice()) {
        Some(digits) => digits,
        None => {
            return Err(ParseError::NoMatch);
        },
    };
    let end = digits_end(input, digits);
    if end == digits {
        return Err(ParseError::NoMatch);
    }
    proof {
        lemma_run_end_class(input@, digits as int, |b: u8| is_digit(b));
    }
    match read_decimal(input, digits, end) {
        Some(arity) => Ok(((slice_subrange(input, at, name_end), arity), end)),
        None => Err(ParseError::TooLarge),
    }
}

/// Reads an agent declaration list at `at`, behind `#agent`.
fn read_atoms<'a>(input: &'a [u8], at: usize) -> (r: Result<
    (Vec<(&'a [u8], usize)>, usize),
    ParseError,
>)
    requires
        at <= input.len(),
    ensures
        match r {
            Ok((atoms, end)) => agent_def_at(input@, at as int) == (Parsed::Done {
                value: DefView::Agent(atom_views(atoms@)),
                end: end as int,
            }) && at < end <= input.len(),
            Err(ParseError::NoMatch) => agent_def_at(input@, at as int) is NoMatch,
            Err(ParseError::TooLarge) => agent_def_at(input@, at as int) is TooLarge,
        },
{
    let word: [u8; 6] = [0x23, 0x61, 0x67, 0x65, 0x6e, 0x74];
    assert(word@ =~= word_agent());
    let first_at = match spaced(input, at, word.as_slice()) {
        Some(first_at) => first_at,
        None => {
            return Err(ParseError::NoMatch);
        },
    };
    let mut atoms: Vec<(&'a [u8], usize)> = Vec::new();
    let (first, first_end) = match read_atom(input, first_at) {
        Ok(read) => read,
        Err(e) => {
            return Err(e);
        },
    };
    atoms.push(first);
    let mut cur = first_end;
    proof {
        assert(atom_views(atoms@) =~= seq![(first.0@, first.1)]);
    }
    let ghost whole = atoms_more(input@, first_end as int, atom_views(atoms@));
    let mut more = true;
    while more
        invariant
            at < cur <= input.len(),
            agent_def_at(input@, at as int) == match whole {
                Parsed::Done { value, end } => Parsed::Done { value: DefView::Agent(value), end },
                Parsed::NoMatch => Parsed::NoMatch,
                Parsed::TooLarge => Parsed::TooLarge,
            },
            more ==> whole == atoms_more(input@, cur as int, atom_views(atoms@)),
            !more ==> whole == (Parsed::Done { value: atom_views(atoms@), end: cur as int }),
        decreases
                input.len() - cur + (if more {
                    1int
                } else {
                    0int
                }),
    {
        match comma(input, cur) {
            None => {
                more = false;
            },
            Some(next) => match read_atom(input, next) {
                Err(ParseError::NoMatch) => {
                    more = false;
                },
                Err(ParseError::TooLarge) => {
                    return Err(ParseError::TooLarge);
                },
                Ok((atom, end)) => {
                    proof {
                        assert(atom_views(atoms@.push(atom)) =~= atom_views(atoms@).push(
                            (atom.0@, atom.1),
                        ));
                    }
                    atoms.push(atom);
                    cur = end;
                },
            },
        }
    }
    Ok((atoms, cur))
}

/// Reads a rule at `at`.
fn read_rule<'a>(input: &'a [u8], at: usize) -> (r: Option<(Def<'a>, usize)>)
    requires
        at <= input.len(),
    ensures
        match r {
            Some((def, end)) => rule_def_at(input@, at as int) == (Parsed::Done {
                value: def@,
                end: end as int,
            }) && at < end <= input.len(),
            None => rule_def_at(input@, at as int) is NoMatch,
        },
{
    let word: [u8; 5] = [0x23, 0x72, 0x75, 0x6c, 0x65];
    assert(word@ =~= word_rule());
    let lhs_at = match spaced(input, at, word.as_slice()) {
        Some(lhs_at) => lhs_at,
        None => {
            return None;
        },
    };
    let (lhs, lhs_end) = match read_term(input, lhs_at) {
        Some(read) => read,
        None => {
            return None;
        },
    };
    let meets: [u8; 2] = [0x3e, 0x3c];
    assert(meets@ =~= word_meets());
    let rhs_at = match spaced(input, lhs_end, meets.as_slice()) {
        Some(rhs_at) => rhs_at,
        None => {
            return None;
        },
    };
    match read_term(input, rhs_at) {
        Some((rhs, end)) => Some((Def::Rule(lhs, rhs), end)),
        None => None,
    }
}

/// Reads an equation at `at`.
fn read_eq<'a>(input: &'a [u8], at: usize) -> (r: Option<(Def<'a>, usize)>)
    requires
        at <= input.len(),
    ensures
        match r {
            Some((def, end)) => eq_def_at(input@, at as int) == (Parsed::Done {
                value: def@,
                end: end as int,
            }) && at < end <= input.len(),
            None => eq_def_at(input@, at as int) is NoMatch,
        },
{
    let lhs_at = skip_spaces(input, at);
    let (lhs, lhs_end) = match read_term(input, lhs_at) {
        Some(read) => read,
        None => {
            return None;
        },
    };
    let equals: [u8; 1] = [0x3d];
    assert(equals@ =~= word_equals());
    let rhs_at = match spaced(input, lhs_end, equals.as_slice()) {
        Some(rhs_at) => rhs_at,
        None => {
            return None;
        },
    };
    match read_term(input, rhs_at) {
        Some((rhs, end)) => Some((Def::Eq(lhs, rhs), end)),
        None => None,
    }
}

/// Reads one definition at `at`.
pub(crate) fn read_def<'a>(input: &'a [u8], at: usize) -> (r: Result<(Def<'a>, usize), ParseError>)
    requires
        at <= input.len(),
    ensures
        match r {
            Ok((def, end)) => def_at(input@, at as int) == (Parsed::Done {
                value: def@,
                end: end as int,
            }) && at < end <= input.len(),
            Err(ParseError::NoMatch) => def_at(input@, at as int) is NoMatch,
            Err(ParseError::TooLarge) => def_at(input@, at as int) is TooLarge,
        },
{
    match read_atoms(input, at) {
        Ok((atoms, end)) => {
            return Ok((Def::Agent(atoms), end));
        },
        Err(ParseError::TooLarge) => {
            return Err(ParseError::TooLarge);
        },
        Err(ParseError::NoMatch) => {},
    }
    match read_rule(input, at) {
        Some(read) => {
            return Ok(read);
        },
        None => {},
    }
    match read_eq(input, at) {
        Some(read) => Ok(read),
        None => Err(ParseError::NoMatch),
    }
}

/// Reads definitions at `at` as far as they go; at least one must be there.
fn read_defs<'a>(input: &'a [u8], at: usize) -> (r: Result<(Vec<Def<'a>>, usize), ParseError>)
    requires
        at <= input.len(),
    ensures
        match r {
            Ok((defs, end)) => defs_at(input@, at as int) == (Parsed::Done {
                value: def_views(defs@),
                end: end as int,
            }) && at < end <= input.len(),
            Err(ParseError::NoMatch) => defs_at(input@, at as int) is NoMatch,
            Err(ParseError::TooLarge) => defs_at(input@, at as int) is TooLarge,
        },
{
    let mut defs: Vec<Def<'a>> = Vec::new();
    let (first, first_end) = match read_def(input, at) {
        Ok(read) => read,
        Err(e) => {
            return Err(e);
        },
    };
    proof {
        assert(def_views(defs@.push(first)) =~= seq![first@]);
    }
    defs.push(first);
    let mut cur = first_end;
    let ghost whole = defs_at(input@, at as int);
    let mut more = true;
    while more
        invariant
            at < cur <= input.len(),
            whole == defs_at(input@, at as int),
            more ==> whole == defs_more(input@, cur as int, def_views(defs@)),
            !more ==> whole == (Parsed::Done { value: def_views(defs@), end: cur as int }),
        decreases
                input.len() - cur + (if more {
                    1int
                } else {
                    0int
                }),
    {
        match read_def(input, cur) {
            Err(ParseError::NoMatch) => {
                more = false;
            },
            Err(ParseError::TooLarge) => {
                return Err(ParseError::TooLarge);
            },
            Ok((def, end)) => {
                proof {
                    assert(def_views(defs@.push(def)) =~= def_views(defs@).push(def@));
                }
                defs.push(def);
                cur = end;
            },
        }
    }
    Ok((defs, cur))
}

/// Reads one agent declaration, `Name:arity`, at the start of `input`.
pub fn agent_def_atom<'a>(input: &'a [u8]) -> (r: Result<
    (&'a [u8], (&'a [u8], usize)),
    ParseError,
>)
    ensures
        agrees(
            input@,
            atom_at(input@, 0),
            match r {
                Ok((rest, atom)) => Ok((rest@, (atom.0@, atom.1))),
                Err(e) => Err(e),
            },
        ),
{
    match read_atom(input, 0) {
        Ok((atom, end)) => Ok((slice_subrange(input, end, input.len()), atom)),
        Err(e) => Err(e),
    }
}

/// Reads `#agent` and its list of declarations at the start of `input`.
pub fn agent_def<'a>(input: &'a [u8]) -> (r: Result<(&'a [u8], Def<'a>), ParseError>)
    ensures
        agrees(
            input@,
            agent_def_at(input@, 0),
            match r {
                Ok((rest, def)) => Ok((rest@, def@)),
                Err(e) => Err(e),
            },
        ),
{
    match read_atoms(input, 0) {
        Ok((atoms, end)) => Ok((slice_subrange(input, end, input.len()), Def::Agent(atoms))),
        Err(e) => Err(e),
    }
}

/// Reads `#rule lhs >< rhs` at the start of `input`.
pub fn rule_def<'a>(input: &'a [u8]) -> (r: Result<(&'a [u8], Def<'a>), ParseError>)
    ensures
        agrees(
            input@,
            rule_def_at(input@, 0),
            match r {
                Ok((rest, def)) => Ok((rest@, def@)),
                Err(e) => Err(e),
            },
        ),
{
    match read_rule(input, 0) {
        Some((def, end)) => Ok((slice_subrange(input, end, input.len()), def)),
        None => Err(ParseError::NoMatch),
    }
}

/// Reads `lhs = rhs` at the start of `input`.
pub fn eq_def<'a>(input: &'a [u8]) -> (r: Result<(&'a [u8], Def<'a>), ParseError>)
    ensures
        agrees(
            input@,
            eq_def_at(input@, 0),
            match r {
                Ok((rest, def)) => Ok((rest@, def@)),
                Err(e) => Err(e),
            },
        ),
{
    match read_eq(input, 0) {
        Some((def, end)) => Ok((slice_subrange(input, end, input.len()), def)),
        None => Err(ParseError::NoMatch),
    }
}

/// Reads the definitions of a text: at least one, then as many as follow
/// one another. What cannot be read as a definition is handed back unread.
pub fn def<'a>(input: &'a [u8]) -> (r: Result<(&'a [u8], Vec<Def<'a>>), ParseError>)
    ensures
        agrees(
            input@,
            defs_at(input@, 0),
            match r {
                Ok((rest, defs)) => Ok((rest@, def_views(defs@))),
                Err(e) => Err(e),
            },
        ),
{
    match read_defs(input, 0) {
        Ok((defs, end)) => Ok((slice_subrange(input, end, input.len()), defs)),
        Err(e) => Err(e),
    }
}

} // verus!

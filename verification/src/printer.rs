//! Writing definitions back as source text, and the proof that reading the
//! text gives the definitions again.
use crate::grammar::{
    agent_def_at, atom_at, atoms_more, decimal, def_at, defs_at, defs_more, eq_def_at, has_word,
    ident_end, is_digit, is_ident_part, is_ident_start, is_space, rule_def_at, run_end,
    skip_space, spaced_word, term_at, term_list, term_list_more, word_agent, word_colon,
    word_comma, word_equals, word_meets, word_rule, Parsed,
};
use crate::parser::{
    atom_views, def_views, lemma_term_views_index, term_views, Def, DefView, Term, TermView,
};
use vstd::prelude::*;

verus! {

/// The decimal digits of `n`, without leading zeros.
pub open spec fn render_number(n: nat) -> Seq<u8>
    decreases n,
{
    if n < 10 {
        seq![(0x30 + n) as u8]
    } else {
        render_number(n / 10).push((0x30 + n % 10) as u8)
    }
}

/// A term as text: its name, and its ports in parentheses where it has a
/// list of them.
pub open spec fn render_term(term: TermView) -> Seq<u8>
    decreases term,
{
    match term.ports {
        None => term.name,
        Some(ports) => term.name + seq![0x28u8] + render_terms(ports) + seq![0x29u8],
    }
}

/// Terms as text, separated by commas.
pub open spec fn render_terms(terms: Seq<TermView>) -> Seq<u8>
    decreases terms, 1int,
{
    if terms.len() == 0 {
        Seq::empty()
    } else {
        render_term(terms.first()) + render_more_terms(terms.drop_first())
    }
}

/// Terms as text, each with a comma before it.
pub open spec fn render_more_terms(terms: Seq<TermView>) -> Seq<u8>
    decreases terms, 0int,
{
    if terms.len() == 0 {
        Seq::empty()
    } else {
        word_comma() + render_term(terms.first()) + render_more_terms(terms.drop_first())
    }
}

/// One agent declaration as text: `Name:arity`.
pub open spec fn render_atom(atom: (Seq<u8>, usize)) -> Seq<u8> {
    atom.0 + word_colon() + render_number(atom.1 as nat)
}

/// Agent declarations as text, each with a comma before it.
pub open spec fn render_more_atoms(atoms: Seq<(Seq<u8>, usize)>) -> Seq<u8>
    decreases atoms.len(),
{
    if atoms.len() == 0 {
        Seq::empty()
    } else {
        word_comma() + render_atom(atoms.first()) + render_more_atoms(atoms.drop_first())
    }
}

/// A definition as text.
pub open spec fn render_def(def: DefView) -> Seq<u8> {
    match def {
        DefView::Agent(atoms) => if atoms.len() == 0 {
            word_agent() + seq![0x20u8]
        } else {
            word_agent() + seq![0x20u8] + render_atom(atoms.first()) + render_more_atoms(
                atoms.drop_first(),
            )
        },
        DefView::Rule(lhs, rhs) => word_rule() + seq![0x20u8] + render_term(lhs) + word_meets()
            + render_term(rhs),
        DefView::Eq(lhs, rhs) => render_term(lhs) + word_equals() + render_term(rhs),
    }
}

/// Definitions as text, each on a new line.
pub open spec fn render_more_defs(defs: Seq<DefView>) -> Seq<u8>
    decreases defs.len(),
{
    if defs.len() == 0 {
        Seq::empty()
    } else {
        seq![0x0au8] + render_def(defs.first()) + render_more_defs(defs.drop_first())
    }
}

/// A text: its definitions, one per line.
pub open spec fn render(defs: Seq<DefView>) -> Seq<u8> {
    if defs.len() == 0 {
        Seq::empty()
    } else {
        render_def(defs.first()) + render_more_defs(defs.drop_first())
    }
}

/// `name` is an identifier from its first byte to its last.
pub open spec fn name_ok(name: Seq<u8>) -> bool {
    &&& name.len() > 0
    &&& is_ident_start(name[0])
    &&& forall|i: int| 0 <= i < name.len() ==> is_ident_part(#[trigger] name[i])
}

/// Every name in `term` is an identifier.
pub open spec fn term_ok(term: TermView) -> bool
    decreases term,
{
    &&& name_ok(term.name)
    &&& match term.ports {
        None => true,
        Some(ports) => terms_ok(ports),
    }
}

/// Every name in `terms` is an identifier.
pub open spec fn terms_ok(terms: Seq<TermView>) -> bool
    decreases terms,
{
    terms.len() > 0 ==> term_ok(terms.first()) && terms_ok(terms.drop_first())
}

/// Every name in `atoms` is an identifier.
pub open spec fn atoms_ok(atoms: Seq<(Seq<u8>, usize)>) -> bool {
    forall|i: int| 0 <= i < atoms.len() ==> name_ok(#[trigger] atoms[i].0)
}

/// `def` can be written and read again: its names are identifiers, and an
/// agent definition declares at least one agent.
pub open spec fn def_ok(def: DefView) -> bool {
    match def {
        DefView::Agent(atoms) => atoms.len() > 0 && atoms_ok(atoms),
        DefView::Rule(lhs, rhs) => term_ok(lhs) && term_ok(rhs),
        DefView::Eq(lhs, rhs) => term_ok(lhs) && term_ok(rhs),
    }
}

/// Every definition of `defs` can be written and read again.
pub open spec fn defs_ok(defs: Seq<DefView>) -> bool {
    forall|i: int| 0 <= i < defs.len() ==> def_ok(#[trigger] defs[i])
}

/// A run ends where its class ends.
proof fn lemma_run_to(s: Seq<u8>, at: int, end: int, class: spec_fn(u8) -> bool)
    requires
        0 <= at <= end <= s.len(),
        forall|i: int| at <= i < end ==> class(#[trigger] s[i]),
        end == s.len() || !class(s[end]),
    ensures
        run_end(s, at, class) == end,
    decreases end - at,
{
    if at < end {
        lemma_run_to(s, at + 1, end, class);
    }
}

/// Two pieces stand one behind the other exactly where their concatenation
/// stands.
proof fn lemma_word_split(s: Seq<u8>, at: int, a: Seq<u8>, b: Seq<u8>)
    requires
        0 <= at,
    ensures
        has_word(s, at, a + b) <==> has_word(s, at, a) && has_word(s, at + a.len(), b),
{
    let ab = a + b;
    if has_word(s, at, ab) {
        assert(s.subrange(at, at + a.len()) =~= ab.subrange(0, a.len() as int));
        assert(ab.subrange(0, a.len() as int) =~= a);
        assert(s.subrange(at + a.len(), at + a.len() + b.len()) =~= ab.subrange(
            a.len() as int,
            ab.len() as int,
        ));
        assert(ab.subrange(a.len() as int, ab.len() as int) =~= b);
    }
    if has_word(s, at, a) && has_word(s, at + a.len(), b) {
        assert(s.subrange(at, at + ab.len()) =~= s.subrange(at, at + a.len()) + s.subrange(
            at + a.len(),
            at + a.len() + b.len(),
        ));
    }
}

/// The bytes of a word that stands at `at`.
proof fn lemma_word_bytes(s: Seq<u8>, at: int, word: Seq<u8>)
    requires
        has_word(s, at, word),
    ensures
        forall|i: int| 0 <= i < word.len() ==> #[trigger] s[at + i] == word[i],
{
    assert forall|i: int| 0 <= i < word.len() implies #[trigger] s[at + i] == word[i] by {
        assert(s.subrange(at, at + word.len())[i] == s[at + i]);
    }
}

/// An identifier that stands at `at` and is not continued is read in full.
proof fn lemma_read_name(s: Seq<u8>, at: int, name: Seq<u8>)
    requires
        has_word(s, at, name),
        name_ok(name),
        at + name.len() == s.len() || !is_ident_part(s[at + name.len()]),
    ensures
        ident_end(s, at) == Some(at + name.len()),
        s.subrange(at, at + name.len()) == name,
{
    lemma_word_bytes(s, at, name);
    assert(s[at + 0] == name[0]);
    assert forall|i: int| at + 1 <= i < at + name.len() implies is_ident_part(#[trigger] s[i]) by {
        assert(s[at + (i - at)] == name[i - at]);
    }
    lemma_run_to(s, at + 1, at + name.len(), |b: u8| is_ident_part(b));
}

/// What may stand behind a term: the name is not continued, and no
/// parenthesis opens behind it or behind the white space that follows it.
pub open spec fn ends_term(s: Seq<u8>, end: int) -> bool {
    let open = skip_space(s, end);
    &&& end == s.len() || (0 <= end < s.len() && !is_ident_part(s[end]))
    &&& !(0 <= open < s.len() && s[open] == 0x28)
}

/// The text of a term starts with the first byte of its name.
proof fn lemma_term_starts(term: TermView)
    requires
        name_ok(term.name),
    ensures
        render_term(term).len() > 0,
        render_term(term)[0] == term.name[0],
{
}

/// The text of a term is read as that term.
proof fn lemma_read_term(s: Seq<u8>, at: int, term: TermView)
    requires
        0 <= at,
        has_word(s, at, render_term(term)),
        term_ok(term),
        ends_term(s, at + render_term(term).len()),
    ensures
        term_at(s, at) == Some((term, at + render_term(term).len())),
    decreases term,
{
    match term.ports {
        None => {
            lemma_read_name(s, at, term.name);
        },
        Some(ports) => {
            let name = term.name;
            let inner = render_terms(ports);
            let open = at + name.len();
            let close = open + 1 + inner.len();
            lemma_word_split(s, at, name + seq![0x28u8] + inner, seq![0x29u8]);
            lemma_word_split(s, at, name + seq![0x28u8], inner);
            lemma_word_split(s, at, name, seq![0x28u8]);
            lemma_word_bytes(s, open, seq![0x28u8]);
            lemma_word_bytes(s, close, seq![0x29u8]);
            assert(s[open + 0] == 0x28);
            assert(s[close + 0] == 0x29);
            lemma_read_name(s, at, name);
            lemma_list_starts(s, open + 1, ports);
            assert(skip_space(s, open) == open);
            assert(skip_space(s, open + 1) == open + 1);
            assert(skip_space(s, close) == close);
            lemma_read_list(s, open + 1, ports);
        },
    }
}

/// The text of a list of terms, closed by a parenthesis, is read as that
/// list.
proof fn lemma_read_list(s: Seq<u8>, at: int, terms: Seq<TermView>)
    requires
        0 <= at,
        has_word(s, at, render_terms(terms)),
        terms_ok(terms),
        at + render_terms(terms).len() < s.len(),
        s[at + render_terms(terms).len()] == 0x29,
    ensures
        term_list(s, at) == (terms, at + render_terms(terms).len()),
    decreases terms,
{
    if terms.len() == 0 {
        assert(terms =~= Seq::<TermView>::empty());
    } else {
        let first = terms.first();
        let rest = terms.drop_first();
        let end = at + render_term(first).len();
        assert(term_ok(first) && terms_ok(rest));
        assert(name_ok(first.name));
        lemma_word_split(s, at, render_term(first), render_more_terms(rest));
        lemma_more_starts(s, end, rest);
        lemma_read_term(s, at, first);
        lemma_term_starts(first);
        lemma_read_more(s, end, rest, seq![first]);
        assert(seq![first] + rest =~= terms);
    }
}

/// Behind a term of a list stands a comma or the closing parenthesis.
proof fn lemma_more_starts(s: Seq<u8>, at: int, terms: Seq<TermView>)
    requires
        0 <= at,
        has_word(s, at, render_more_terms(terms)),
        at + render_more_terms(terms).len() < s.len(),
        s[at + render_more_terms(terms).len()] == 0x29,
    ensures
        ends_term(s, at),
        s[at] == 0x29 || s[at] == 0x2c,
{
    if terms.len() > 0 {
        lemma_word_bytes(s, at, render_more_terms(terms));
        assert(s[at + 0] == render_more_terms(terms)[0]);
    }
    assert(skip_space(s, at) == at);
}

/// A list in parentheses starts with a name or is closed at once: no white
/// space stands at its start.
proof fn lemma_list_starts(s: Seq<u8>, at: int, terms: Seq<TermView>)
    requires
        0 <= at,
        has_word(s, at, render_terms(terms)),
        terms_ok(terms),
        at + render_terms(terms).len() < s.len(),
        s[at + render_terms(terms).len()] == 0x29,
    ensures
        !is_space(s[at]),
{
    if terms.len() > 0 {
        let first = terms.first();
        assert(term_ok(first));
        assert(name_ok(first.name));
        lemma_term_starts(first);
        lemma_word_bytes(s, at, render_terms(terms));
        assert(s[at + 0] == render_terms(terms)[0]);
    }
}

/// The text of the rest of a list of terms is read as that rest.
proof fn lemma_read_more(s: Seq<u8>, at: int, terms: Seq<TermView>, acc: Seq<TermView>)
    requires
        0 <= at,
        has_word(s, at, render_more_terms(terms)),
        terms_ok(terms),
        at + render_more_terms(terms).len() < s.len(),
        s[at + render_more_terms(terms).len()] == 0x29,
    ensures
        term_list_more(s, at, acc) == (acc + terms, at + render_more_terms(terms).len()),
    decreases terms,
{
    if terms.len() == 0 {
        assert(skip_space(s, at) == at);
        lemma_no_word(s, at, word_comma());
        assert(acc + terms =~= acc);
    } else {
        let first = terms.first();
        let rest = terms.drop_first();
        let next = at + 1;
        let end = next + render_term(first).len();
        assert(term_ok(first) && terms_ok(rest));
        assert(name_ok(first.name));
        lemma_word_split(s, at, word_comma() + render_term(first), render_more_terms(rest));
        lemma_word_split(s, at, word_comma(), render_term(first));
        lemma_word_bytes(s, at, word_comma());
        assert(s[at + 0] == 0x2c);
        lemma_term_starts(first);
        lemma_word_bytes(s, next, render_term(first));
        assert(s[next + 0] == first.name[0]);
        assert(skip_space(s, at) == at);
        assert(skip_space(s, next) == next);
        assert(spaced_word(s, at, word_comma()) == Some(next));
        lemma_more_starts(s, end, rest);
        lemma_read_term(s, next, first);
        lemma_read_more(s, end, rest, acc.push(first));
        assert(acc.push(first) + rest =~= acc + terms);
    }
}

/// A word does not stand where its first byte does not.
proof fn lemma_no_word(s: Seq<u8>, at: int, word: Seq<u8>)
    requires
        0 <= at,
        word.len() > 0,
        at >= s.len() || s[at] != word[0],
    ensures
        !has_word(s, at, word),
{
    if has_word(s, at, word) {
        lemma_word_bytes(s, at, word);
        assert(s[at + 0] == word[0]);
    }
}

/// The digits of a number are digits, and they write that number.
proof fn lemma_number(n: nat)
    ensures
        render_number(n).len() > 0,
        forall|i: int| 0 <= i < render_number(n).len() ==> is_digit(#[trigger] render_number(n)[i]),
        decimal(render_number(n)) == n,
    decreases n,
{
    let digits = render_number(n);
    if n < 10 {
        assert(digits.drop_last() =~= Seq::<u8>::empty());
        assert(decimal(digits.drop_last()) == 0);
    } else {
        lemma_number(n / 10);
        assert(digits.drop_last() =~= render_number(n / 10));
        assert(digits.last() == (0x30 + n % 10) as u8);
    }
}

/// The text of an agent declaration is read as that declaration.
proof fn lemma_read_atom(s: Seq<u8>, at: int, atom: (Seq<u8>, usize))
    requires
        0 <= at,
        has_word(s, at, render_atom(atom)),
        name_ok(atom.0),
        at + render_atom(atom).len() == s.len() || !is_digit(s[at + render_atom(atom).len()]),
    ensures
        atom_at(s, at) == (Parsed::Done { value: atom, end: at + render_atom(atom).len() }),
{
    let name = atom.0;
    let digits = render_number(atom.1 as nat);
    let colon = at + name.len();
    let first = colon + 1;
    let end = first + digits.len();
    lemma_number(atom.1 as nat);
    lemma_word_split(s, at, name + word_colon(), digits);
    lemma_word_split(s, at, name, word_colon());
    lemma_word_bytes(s, colon, word_colon());
    assert(s[colon + 0] == 0x3a);
    lemma_read_name(s, at, name);
    lemma_word_bytes(s, first, digits);
    assert(s[first + 0] == digits[0]);
    assert(skip_space(s, colon) == colon);
    assert(skip_space(s, first) == first);
    assert(spaced_word(s, colon, word_colon()) == Some(first));
    assert forall|i: int| first <= i < end implies (|b: u8| is_digit(b))(#[trigger] s[i]) by {
        assert(s[first + (i - first)] == digits[i - first]);
    }
    lemma_run_to(s, first, end, |b: u8| is_digit(b));
    assert(s.subrange(first, end) == digits);
}

/// What may stand behind a definition: the end of the text, or a line feed
/// and the first byte of the next definition.
pub open spec fn ends_def(s: Seq<u8>, end: int) -> bool {
    end == s.len() || (0 <= end && end + 1 < s.len() && s[end] == 0x0a && (s[end + 1] == 0x23
        || is_ident_start(s[end + 1])))
}

/// Behind a definition no comma follows, no digit and nothing that would
/// continue a term.
proof fn lemma_ends_def(s: Seq<u8>, end: int)
    requires
        0 <= end <= s.len(),
        ends_def(s, end),
    ensures
        ends_term(s, end),
        end == s.len() || !is_digit(s[end]),
        spaced_word(s, end, word_comma()) is None,
{
    if end == s.len() {
        assert(skip_space(s, end) == end);
        lemma_no_word(s, end, word_comma());
    } else {
        assert(skip_space(s, end + 1) == end + 1);
        assert(skip_space(s, end) == end + 1);
        lemma_no_word(s, end + 1, word_comma());
    }
}

/// The text of the rest of a list of agent declarations is read as that
/// rest.
proof fn lemma_read_more_atoms(
    s: Seq<u8>,
    at: int,
    atoms: Seq<(Seq<u8>, usize)>,
    acc: Seq<(Seq<u8>, usize)>,
)
    requires
        0 <= at,
        has_word(s, at, render_more_atoms(atoms)),
        atoms_ok(atoms),
        ends_def(s, at + render_more_atoms(atoms).len()),
    ensures
        atoms_more(s, at, acc) == (Parsed::Done {
            value: acc + atoms,
            end: at + render_more_atoms(atoms).len(),
        }),
    decreases atoms.len(),
{
    if atoms.len() == 0 {
        lemma_ends_def(s, at);
        assert(acc + atoms =~= acc);
    } else {
        let first = atoms.first();
        let rest = atoms.drop_first();
        let next = at + 1;
        let end = next + render_atom(first).len();
        assert(name_ok(first.0));
        assert(atoms_ok(rest)) by {
            assert forall|i: int| 0 <= i < rest.len() implies name_ok(#[trigger] rest[i].0) by {
                assert(rest[i] == atoms[i + 1]);
            }
        }
        lemma_word_split(s, at, word_comma() + render_atom(first), render_more_atoms(rest));
        lemma_word_split(s, at, word_comma(), render_atom(first));
        lemma_word_bytes(s, at, word_comma());
        assert(s[at + 0] == 0x2c);
        lemma_word_bytes(s, next, render_atom(first));
        assert(s[next + 0] == first.0[0]);
        assert(skip_space(s, at) == at);
        assert(skip_space(s, next) == next);
        assert(spaced_word(s, at, word_comma()) == Some(next));
        if rest.len() == 0 {
            lemma_ends_def(s, end);
        } else {
            lemma_word_bytes(s, end, render_more_atoms(rest));
            assert(s[end + 0] == render_more_atoms(rest)[0]);
        }
        lemma_read_atom(s, next, first);
        lemma_read_more_atoms(s, end, rest, acc.push(first));
        assert(acc.push(first) + rest =~= acc + atoms);
    }
}

/// The text of a definition starts with `#` or with the first byte of a
/// name.
proof fn lemma_def_starts(def: DefView)
    requires
        def_ok(def),
    ensures
        render_def(def).len() > 0,
        render_def(def)[0] == 0x23 || is_ident_start(render_def(def)[0]),
{
    match def {
        DefView::Agent(atoms) => {},
        DefView::Rule(lhs, rhs) => {},
        DefView::Eq(lhs, rhs) => {
            lemma_term_starts(lhs);
        },
    }
}

/// The text of an agent definition is read as that definition.
proof fn lemma_read_agent_def(s: Seq<u8>, at: int, start: int, def: DefView)
    requires
        0 <= at <= start,
        skip_space(s, at) == start,
        has_word(s, start, render_def(def)),
        def_ok(def),
        ends_def(s, start + render_def(def).len()),
        def is Agent,
    ensures
        agent_def_at(s, at) == (Parsed::Done { value: def, end: start + render_def(def).len() }),
{
    let end = start + render_def(def).len();
    lemma_ends_def(s, end);
    lemma_def_starts(def);
    lemma_word_bytes(s, start, render_def(def));
    assert(s[start + 0] == render_def(def)[0]);
    let atoms = def->Agent_0;
    let first = atoms.first();
    let rest = atoms.drop_first();
    let head = word_agent() + seq![0x20u8];
    let first_at = start + 7;
    let first_end = first_at + render_atom(first).len();
    assert(name_ok(first.0));
    assert(atoms_ok(rest)) by {
        assert forall|i: int| 0 <= i < rest.len() implies name_ok(#[trigger] rest[i].0) by {
            assert(rest[i] == atoms[i + 1]);
        }
    }
    lemma_word_split(s, start, head + render_atom(first), render_more_atoms(rest));
    lemma_word_split(s, start, head, render_atom(first));
    lemma_word_split(s, start, word_agent(), seq![0x20u8]);
    lemma_word_bytes(s, start + 6, seq![0x20u8]);
    assert(s[start + 6 + 0] == 0x20);
    lemma_word_bytes(s, first_at, render_atom(first));
    assert(s[first_at + 0] == first.0[0]);
    assert(skip_space(s, first_at) == first_at);
    assert(skip_space(s, start + 6) == first_at);
    assert(spaced_word(s, at, word_agent()) == Some(first_at));
    if rest.len() == 0 {
    } else {
        lemma_word_bytes(s, first_end, render_more_atoms(rest));
        assert(s[first_end + 0] == render_more_atoms(rest)[0]);
    }
    lemma_read_atom(s, first_at, first);
    lemma_read_more_atoms(s, first_end, rest, seq![first]);
    assert(seq![first] + rest =~= atoms);
}

/// The text of a rule is read as that rule, and not as an agent definition.
proof fn lemma_read_rule_def(s: Seq<u8>, at: int, start: int, def: DefView)
    requires
        0 <= at <= start,
        skip_space(s, at) == start,
        has_word(s, start, render_def(def)),
        def_ok(def),
        ends_def(s, start + render_def(def).len()),
        def is Rule,
    ensures
        agent_def_at(s, at) is NoMatch,
        rule_def_at(s, at) == (Parsed::Done { value: def, end: start + render_def(def).len() }),
{
    let end = start + render_def(def).len();
    lemma_ends_def(s, end);
    lemma_def_starts(def);
    lemma_word_bytes(s, start, render_def(def));
    assert(s[start + 0] == render_def(def)[0]);
    let lhs = def->Rule_0;
    let rhs = def->Rule_1;
    let head = word_rule() + seq![0x20u8];
    let lhs_at = start + 6;
    let lhs_end = lhs_at + render_term(lhs).len();
    let rhs_at = lhs_end + 2;
    lemma_word_split(s, start, head + render_term(lhs) + word_meets(), render_term(rhs));
    lemma_word_split(s, start, head + render_term(lhs), word_meets());
    lemma_word_split(s, start, head, render_term(lhs));
    lemma_word_split(s, start, word_rule(), seq![0x20u8]);
    assert(!has_word(s, start, word_agent())) by {
        if has_word(s, start, word_agent()) {
            lemma_word_bytes(s, start, word_agent());
            lemma_word_bytes(s, start, word_rule());
            assert(s[start + 1] == word_agent()[1]);
            assert(s[start + 1] == word_rule()[1]);
        }
    }
    lemma_word_bytes(s, start + 5, seq![0x20u8]);
    assert(s[start + 5 + 0] == 0x20);
    lemma_term_starts(lhs);
    lemma_term_starts(rhs);
    lemma_word_bytes(s, lhs_at, render_term(lhs));
    assert(s[lhs_at + 0] == lhs.name[0]);
    assert(skip_space(s, lhs_at) == lhs_at);
    assert(skip_space(s, start + 5) == lhs_at);
    assert(spaced_word(s, at, word_rule()) == Some(lhs_at));
    lemma_word_bytes(s, lhs_end, word_meets());
    assert(s[lhs_end + 0] == 0x3e);
    assert(skip_space(s, lhs_end) == lhs_end);
    lemma_read_term(s, lhs_at, lhs);
    lemma_word_bytes(s, rhs_at, render_term(rhs));
    assert(s[rhs_at + 0] == rhs.name[0]);
    assert(skip_space(s, lhs_end) == lhs_end);
    assert(skip_space(s, rhs_at) == rhs_at);
    assert(spaced_word(s, lhs_end, word_meets()) == Some(rhs_at));
    lemma_read_term(s, rhs_at, rhs);
}

/// The text of an equation is read as that equation, and neither as an
/// agent definition nor as a rule.
proof fn lemma_read_eq_def(s: Seq<u8>, at: int, start: int, def: DefView)
    requires
        0 <= at <= start,
        skip_space(s, at) == start,
        has_word(s, start, render_def(def)),
        def_ok(def),
        ends_def(s, start + render_def(def).len()),
        def is Eq,
    ensures
        agent_def_at(s, at) is NoMatch,
        rule_def_at(s, at) is NoMatch,
        eq_def_at(s, at) == (Parsed::Done { value: def, end: start + render_def(def).len() }),
{
    let end = start + render_def(def).len();
    lemma_ends_def(s, end);
    lemma_def_starts(def);
    lemma_word_bytes(s, start, render_def(def));
    assert(s[start + 0] == render_def(def)[0]);
    let lhs = def->Eq_0;
    let rhs = def->Eq_1;
    let lhs_end = start + render_term(lhs).len();
    let rhs_at = lhs_end + 1;
    lemma_word_split(s, start, render_term(lhs) + word_equals(), render_term(rhs));
    lemma_word_split(s, start, render_term(lhs), word_equals());
    lemma_term_starts(lhs);
    lemma_term_starts(rhs);
    lemma_no_word(s, start, word_agent());
    lemma_no_word(s, start, word_rule());
    lemma_word_bytes(s, lhs_end, word_equals());
    assert(s[lhs_end + 0] == 0x3d);
    assert(skip_space(s, lhs_end) == lhs_end);
    lemma_read_term(s, start, lhs);
    lemma_word_bytes(s, rhs_at, render_term(rhs));
    assert(s[rhs_at + 0] == rhs.name[0]);
    assert(skip_space(s, lhs_end) == lhs_end);
    assert(skip_space(s, rhs_at) == rhs_at);
    assert(spaced_word(s, lhs_end, word_equals()) == Some(rhs_at));
    lemma_read_term(s, rhs_at, rhs);
}

/// The text of a definition, with or without white space before it, is read
/// as that definition.
proof fn lemma_read_def(s: Seq<u8>, at: int, start: int, def: DefView)
    requires
        0 <= at <= start,
        skip_space(s, at) == start,
        has_word(s, start, render_def(def)),
        def_ok(def),
        ends_def(s, start + render_def(def).len()),
    ensures
        def_at(s, at) == (Parsed::Done { value: def, end: start + render_def(def).len() }),
{
    match def {
        DefView::Agent(atoms) => {
            lemma_read_agent_def(s, at, start, def);
        },
        DefView::Rule(lhs, rhs) => {
            lemma_read_rule_def(s, at, start, def);
        },
        DefView::Eq(lhs, rhs) => {
            lemma_read_eq_def(s, at, start, def);
        },
    }
}

/// The text of the remaining definitions, up to the end of the text, is
/// read as those definitions.
proof fn lemma_read_more_defs(s: Seq<u8>, at: int, defs: Seq<DefView>, acc: Seq<DefView>)
    requires
        0 <= at,
        has_word(s, at, render_more_defs(defs)),
        defs_ok(defs),
        at + render_more_defs(defs).len() == s.len(),
    ensures
        defs_more(s, at, acc) == (Parsed::Done { value: acc + defs, end: s.len() as int }),
    decreases defs.len(),
{
    if defs.len() == 0 {
        assert(skip_space(s, at) == at);
        lemma_no_word(s, at, word_agent());
        lemma_no_word(s, at, word_rule());
        assert(def_at(s, at) is NoMatch);
        assert(acc + defs =~= acc);
    } else {
        let first = defs.first();
        let rest = defs.drop_first();
        let start = at + 1;
        let end = start + render_def(first).len();
        assert(def_ok(first));
        assert(defs_ok(rest)) by {
            assert forall|i: int| 0 <= i < rest.len() implies def_ok(#[trigger] rest[i]) by {
                assert(rest[i] == defs[i + 1]);
            }
        }
        lemma_word_split(s, at, seq![0x0au8] + render_def(first), render_more_defs(rest));
        lemma_word_split(s, at, seq![0x0au8], render_def(first));
        lemma_word_bytes(s, at, seq![0x0au8]);
        assert(s[at + 0] == 0x0a);
        lemma_def_starts(first);
        lemma_word_bytes(s, start, render_def(first));
        assert(s[start + 0] == render_def(first)[0]);
        assert(skip_space(s, start) == start);
        assert(skip_space(s, at) == start);
        lemma_more_defs_start(s, end, rest);
        lemma_read_def(s, at, start, first);
        lemma_read_more_defs(s, end, rest, acc.push(first));
        assert(acc.push(first) + rest =~= acc + defs);
    }
}

/// Behind a definition the text ends or the next definition follows on a
/// new line.
proof fn lemma_more_defs_start(s: Seq<u8>, at: int, defs: Seq<DefView>)
    requires
        0 <= at,
        has_word(s, at, render_more_defs(defs)),
        defs_ok(defs),
        at + render_more_defs(defs).len() == s.len(),
    ensures
        ends_def(s, at),
{
    if defs.len() > 0 {
        let first = defs.first();
        let rest = defs.drop_first();
        assert(def_ok(first));
        lemma_def_starts(first);
        lemma_word_split(s, at, seq![0x0au8] + render_def(first), render_more_defs(rest));
        lemma_word_split(s, at, seq![0x0au8], render_def(first));
        lemma_word_bytes(s, at, seq![0x0au8]);
        assert(s[at + 0] == 0x0a);
        lemma_word_bytes(s, at + 1, render_def(first));
        assert(s[at + 1 + 0] == render_def(first)[0]);
    }
}

/// The text of a definition at the start of a text, followed by the text
/// of more definitions up to the end, is read as those definitions.
proof fn lemma_read_all(s: Seq<u8>, first: DefView, rest: Seq<DefView>)
    requires
        s == render_def(first) + render_more_defs(rest),
        def_ok(first),
        defs_ok(rest),
    ensures
        def_at(s, 0) == (Parsed::Done { value: first, end: render_def(first).len() as int }),
        defs_more(s, render_def(first).len() as int, seq![first]) == (Parsed::Done {
            value: seq![first] + rest,
            end: s.len() as int,
        }),
{
    let end = render_def(first).len() as int;
    assert(has_word(s, 0, s)) by {
        assert(s.subrange(0, s.len() as int) =~= s);
    }
    lemma_word_split(s, 0, render_def(first), render_more_defs(rest));
    lemma_def_starts(first);
    assert(s[0] == render_def(first)[0]);
    assert(skip_space(s, 0) == 0);
    lemma_more_defs_start(s, end, rest);
    lemma_read_def(s, 0, 0, first);
    lemma_read_more_defs(s, end, rest, seq![first]);
}

/// What holds of all definitions holds of all but the first.
proof fn lemma_defs_ok_rest(defs: Seq<DefView>)
    requires
        defs.len() > 0,
        defs_ok(defs),
    ensures
        def_ok(defs.first()),
        defs_ok(defs.drop_first()),
        seq![defs.first()] + defs.drop_first() == defs,
{
    let rest = defs.drop_first();
    assert forall|i: int| 0 <= i < rest.len() implies def_ok(#[trigger] rest[i]) by {
        assert(rest[i] == defs[i + 1]);
    }
    assert(seq![defs.first()] + rest =~= defs);
}

/// Reading what was written gives back what was written: for a text of at
/// least one definition whose names are identifiers and whose agent
/// definitions declare at least one agent, the grammar reads the rendered
/// text to its end and finds exactly those definitions.
pub proof fn lemma_read_rendered(defs: Seq<DefView>)
    requires
        defs.len() > 0,
        defs_ok(defs),
    ensures
        defs_at(render(defs), 0) == (Parsed::Done {
            value: defs,
            end: render(defs).len() as int,
        }),
{
    lemma_defs_ok_rest(defs);
    lemma_read_all(render(defs), defs.first(), defs.drop_first());
}

/// One more term at the end of a list adds a comma and its text.
proof fn lemma_render_more_terms_push(terms: Seq<TermView>, term: TermView)
    ensures
        render_more_terms(terms.push(term)) == render_more_terms(terms) + word_comma()
            + render_term(term),
    decreases terms.len(),
{
    let longer = terms.push(term);
    if terms.len() == 0 {
        assert(longer.drop_first() =~= Seq::<TermView>::empty());
        assert(render_more_terms(Seq::<TermView>::empty()) =~= Seq::<u8>::empty());
        assert(longer.first() == term);
        assert(render_more_terms(longer) =~= word_comma() + render_term(term));
        assert(render_more_terms(terms) + word_comma() + render_term(term) =~= word_comma()
            + render_term(term));
    } else {
        lemma_render_more_terms_push(terms.drop_first(), term);
        assert(longer.drop_first() =~= terms.drop_first().push(term));
        assert(render_more_terms(longer) =~= render_more_terms(terms) + word_comma()
            + render_term(term));
    }
}

/// The text of a list that has grown by one term.
proof fn lemma_render_terms_push(terms: Seq<TermView>, term: TermView)
    ensures
        render_terms(terms.push(term)) == if terms.len() == 0 {
            render_term(term)
        } else {
            render_terms(terms) + word_comma() + render_term(term)
        },
{
    let longer = terms.push(term);
    if terms.len() == 0 {
        assert(longer.drop_first() =~= Seq::<TermView>::empty());
        assert(render_more_terms(Seq::<TermView>::empty()) =~= Seq::<u8>::empty());
        assert(longer.first() == term);
        assert(render_terms(longer) =~= render_term(term));
    } else {
        lemma_render_more_terms_push(terms.drop_first(), term);
        assert(longer.drop_first() =~= terms.drop_first().push(term));
        assert(render_terms(longer) =~= render_terms(terms) + word_comma() + render_term(term));
    }
}

/// One more agent declaration at the end of a list adds a comma and its
/// text.
proof fn lemma_render_more_atoms_push(atoms: Seq<(Seq<u8>, usize)>, atom: (Seq<u8>, usize))
    ensures
        render_more_atoms(atoms.push(atom)) == render_more_atoms(atoms) + word_comma()
            + render_atom(atom),
    decreases atoms.len(),
{
    let longer = atoms.push(atom);
    if atoms.len() == 0 {
        assert(longer.drop_first() =~= Seq::<(Seq<u8>, usize)>::empty());
        assert(render_more_atoms(Seq::<(Seq<u8>, usize)>::empty()) =~= Seq::<u8>::empty());
        assert(longer.first() == atom);
        assert(render_more_atoms(longer) =~= word_comma() + render_atom(atom));
        assert(render_more_atoms(atoms) + word_comma() + render_atom(atom) =~= word_comma()
            + render_atom(atom));
    } else {
        lemma_render_more_atoms_push(atoms.drop_first(), atom);
        assert(longer.drop_first() =~= atoms.drop_first().push(atom));
        assert(render_more_atoms(longer) =~= render_more_atoms(atoms) + word_comma()
            + render_atom(atom));
    }
}

/// One more definition at the end of a text adds a line with its text.
proof fn lemma_render_more_defs_push(defs: Seq<DefView>, def: DefView)
    ensures
        render_more_defs(defs.push(def)) == render_more_defs(defs) + seq![0x0au8] + render_def(
            def,
        ),
    decreases defs.len(),
{
    let longer = defs.push(def);
    if defs.len() == 0 {
        assert(longer.drop_first() =~= Seq::<DefView>::empty());
        assert(render_more_defs(Seq::<DefView>::empty()) =~= Seq::<u8>::empty());
        assert(longer.first() == def);
        assert(render_more_defs(longer) =~= seq![0x0au8] + render_def(def));
        assert(render_more_defs(defs) + seq![0x0au8] + render_def(def) =~= seq![0x0au8]
            + render_def(def));
    } else {
        lemma_render_more_defs_push(defs.drop_first(), def);
        assert(longer.drop_first() =~= defs.drop_first().push(def));
        assert(render_more_defs(longer) =~= render_more_defs(defs) + seq![0x0au8] + render_def(
            def,
        ));
    }
}

/// Appends `bytes` to `out`.
fn push_bytes(out: &mut Vec<u8>, bytes: &[u8])
    ensures
        final(out)@ == old(out)@ + bytes@,
{
    let mut i: usize = 0;
    while i < bytes.len()
        invariant
            i <= bytes.len(),
            out@ == old(out)@ + bytes@.take(i as int),
        decreases bytes.len() - i,
    {
        out.push(bytes[i]);
        i = i + 1;
    }
    assert(bytes@.take(bytes.len() as int) =~= bytes@);
}

/// Appends the decimal digits of `n` to `out`.
fn push_number(out: &mut Vec<u8>, n: usize)
    ensures
        final(out)@ == old(out)@ + render_number(n as nat),
    decreases n,
{
    if n >= 10 {
        push_number(out, n / 10);
    }
    let digit: u8 = (n % 10) as u8;
    out.push(0x30 + digit);
}

/// Appends the text of `term` to `out`.
fn push_term(out: &mut Vec<u8>, term: &Term<'_>)
    ensures
        final(out)@ == old(out)@ + render_term(term@),
    decreases term,
{
    push_bytes(out, term.name);
    match &term.ports {
        None => {},
        Some(ports) => {
            out.push(0x28);
            let ghost start = out@;
            let ghost views = term_views(ports@);
            proof {
                lemma_term_views_index(ports@);
            }
            let mut i: usize = 0;
            while i < ports.len()
                invariant
                    i <= ports.len(),
                    views == term_views(ports@),
                    views.len() == ports.len(),
                    forall|k: int| 0 <= k < ports.len() ==> (#[trigger] views[k]) == ports[k]@,
                    out@ == start + render_terms(views.take(i as int)),
                    decreases_to!(term => ports),
                decreases ports.len() - i,
            {
                if i > 0 {
                    out.push(0x2c);
                }
                push_term(out, &ports[i]);
                proof {
                    lemma_render_terms_push(views.take(i as int), views[i as int]);
                    assert(views.take(i + 1) =~= views.take(i as int).push(views[i as int]));
                }
                i = i + 1;
            }
            out.push(0x29);
            proof {
                assert(views.take(ports.len() as int) =~= views);
                assert(out@ =~= old(out)@ + render_term(term@));
            }
        },
    }
}

/// Appends the text of one agent declaration to `out`.
fn push_atom(out: &mut Vec<u8>, name: &[u8], arity: usize)
    ensures
        final(out)@ == old(out)@ + render_atom((name@, arity)),
{
    push_bytes(out, name);
    out.push(0x3a);
    push_number(out, arity);
    assert(out@ =~= old(out)@ + render_atom((name@, arity)));
}

/// Appends the text of `def` to `out`.
fn push_def(out: &mut Vec<u8>, def: &Def<'_>)
    ensures
        final(out)@ == old(out)@ + render_def(def@),
{
    match def {
        Def::Agent(atoms) => {
            let ghost views = atom_views(atoms@);
            let word: [u8; 7] = [0x23, 0x61, 0x67, 0x65, 0x6e, 0x74, 0x20];
            assert(word@ =~= word_agent() + seq![0x20u8]);
            push_bytes(out, word.as_slice());
            if atoms.len() == 0 {
                return ;
            }
            push_atom(out, atoms[0].0, atoms[0].1);
            let ghost start = out@;
            let mut i: usize = 1;
            while i < atoms.len()
                invariant
                    1 <= i <= atoms.len(),
                    views == atom_views(atoms@),
                    out@ == start + render_more_atoms(views.subrange(1, i as int)),
                decreases atoms.len() - i,
            {
                out.push(0x2c);
                push_atom(out, atoms[i].0, atoms[i].1);
                proof {
                    lemma_render_more_atoms_push(views.subrange(1, i as int), views[i as int]);
                    assert(views.subrange(1, i + 1) =~= views.subrange(1, i as int).push(
                        views[i as int],
                    ));
                }
                i = i + 1;
            }
            proof {
                assert(views.subrange(1, atoms.len() as int) =~= views.drop_first());
                assert(out@ =~= old(out)@ + render_def(def@));
            }
        },
        Def::Rule(lhs, rhs) => {
            let word: [u8; 6] = [0x23, 0x72, 0x75, 0x6c, 0x65, 0x20];
            assert(word@ =~= word_rule() + seq![0x20u8]);
            push_bytes(out, word.as_slice());
            push_term(out, lhs);
            out.push(0x3e);
            out.push(0x3c);
            push_term(out, rhs);
            assert(out@ =~= old(out)@ + render_def(def@));
        },
        Def::Eq(lhs, rhs) => {
            push_term(out, lhs);
            out.push(0x3d);
            push_term(out, rhs);
            assert(out@ =~= old(out)@ + render_def(def@));
        },
    }
}

/// The source text of a term.
pub fn print_term(term: &Term<'_>) -> (r: Vec<u8>)
    ensures
        r@ == render_term(term@),
{
    let mut out: Vec<u8> = Vec::new();
    push_term(&mut out, term);
    out
}

/// The source text of `defs`, one definition per line.
///
/// The text reads back as `defs` where [`defs_ok`] holds of them; see
/// [`lemma_read_rendered`].
pub fn print(defs: &[Def<'_>]) -> (r: Vec<u8>)
    ensures
        r@ == render(def_views(defs@)),
{
    let mut out: Vec<u8> = Vec::new();
    if defs.len() == 0 {
        return out;
    }
    let ghost views = def_views(defs@);
    push_def(&mut out, &defs[0]);
    let ghost start = out@;
    let mut i: usize = 1;
    while i < defs.len()
        invariant
            1 <= i <= defs.len(),
            views == def_views(defs@),
            out@ == start + render_more_defs(views.subrange(1, i as int)),
        decreases defs.len() - i,
    {
        out.push(0x0a);
        push_def(&mut out, &defs[i]);
        proof {
            lemma_render_more_defs_push(views.subrange(1, i as int), views[i as int]);
            assert(views.subrange(1, i + 1) =~= views.subrange(1, i as int).push(views[i as int]));
        }
        i = i + 1;
    }
    proof {
        assert(views.subrange(1, defs.len() as int) =~= views.drop_first());
    }
    out
}

} // verus!

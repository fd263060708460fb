//! Statements: the definitions of a source text under their long names.
use crate::grammar::{agent_def_at, defs_at, defs_more, eq_def_at, rule_def_at, Parsed};
use crate::parser::{agrees, atom_views, read_def, Def, DefView};
use vstd::prelude::*;
use vstd::slice::slice_subrange;

pub use crate::parser::{agent_def_atom, identifier, term, ParseError, Term};

verus! {

/// One statement of a source text.
#[derive(Debug, Clone, PartialEq, Eq, PartialOrd, Ord, Hash)]
pub enum Statement<'a> {
    /// `#agent Name:arity, ...`: agent types with their arities.
    AgentDef(Vec<(&'a [u8], usize)>),
    /// `#rule lhs >< rhs`.
    RuleDef(Term<'a>, Term<'a>),
    /// `lhs = rhs`.
    EqDef(Term<'a>, Term<'a>),
}

impl<'a> View for Statement<'a> {
    type V = DefView;

    open spec fn view(&self) -> DefView {
        match *self {
            Statement::AgentDef(atoms) => DefView::Agent(atom_views(atoms@)),
            Statement::RuleDef(lhs, rhs) => DefView::Rule(lhs@, rhs@),
            Statement::EqDef(lhs, rhs) => DefView::Eq(lhs@, rhs@),
        }
    }
}

impl<'a> Statement<'a> {
    /// The statement that says what `def` says.
    pub open spec fn from_def_spec(def: Def<'a>) -> Statement<'a> {
        match def {
            Def::Agent(atoms) => Statement::AgentDef(atoms),
            Def::Rule(lhs, rhs) => Statement::RuleDef(lhs, rhs),
            Def::Eq(lhs, rhs) => Statement::EqDef(lhs, rhs),
        }
    }

    /// The statement that says what `def` says.
    pub fn from_def(def: Def<'a>) -> (r: Statement<'a>)
        ensures
            r == Self::from_def_spec(def),
            r@ == def@,
    {
        match def {
            Def::Agent(atoms) => Statement::AgentDef(atoms),
            Def::Rule(lhs, rhs) => Statement::RuleDef(lhs, rhs),
            Def::Eq(lhs, rhs) => Statement::EqDef(lhs, rhs),
        }
    }
}

/// The views of a list of statements.
pub open spec fn statement_views(statements: Seq<Statement<'_>>) -> Seq<DefView> {
    Seq::new(statements.len(), |i: int| statements[i]@)
}

/// Reads `#agent` and its list of declarations at the start of `input`.
pub fn agent_def<'a>(input: &'a [u8]) -> (r: Result<(&'a [u8], Statement<'a>), ParseError>)
    ensures
        agrees(
            input@,
            agent_def_at(input@, 0),
            match r {
                Ok((rest, statement)) => Ok((rest@, statement@)),
                Err(e) => Err(e),
            },
        ),
{
    match crate::parser::agent_def(input) {
        Ok((rest, def)) => Ok((rest, Statement::from_def(def))),
        Err(e) => Err(e),
    }
}

/// Reads `#rule lhs >< rhs` at the start of `input`.
pub fn rule_def<'a>(input: &'a [u8]) -> (r: Result<(&'a [u8], Statement<'a>), ParseError>)
    ensures
        agrees(
            input@,
            rule_def_at(input@, 0),
            match r {
                Ok((rest, statement)) => Ok((rest@, statement@)),
                Err(e) => Err(e),
            },
        ),
{
    match crate::parser::rule_def(input) {
        Ok((rest, def)) => Ok((rest, Statement::from_def(def))),
        Err(e) => Err(e),
    }
}

/// Reads `lhs = rhs` at the start of `input`.
pub fn eq_def<'a>(input: &'a [u8]) -> (r: Result<(&'a [u8], Statement<'a>), ParseError>)
    ensures
        agrees(
            input@,
            eq_def_at(input@, 0),
            match r {
                Ok((rest, statement)) => Ok((rest@, statement@)),
                Err(e) => Err(e),
            },
        ),
{
    match crate::parser::eq_def(input) {
        Ok((rest, def)) => Ok((rest, Statement::from_def(def))),
        Err(e) => Err(e),
    }
}

/// Reads the statements of a text: at least one, then as many as follow one
/// another. What cannot be read as a statement is handed back unread.
pub fn statement<'a>(input: &'a [u8]) -> (r: Result<(&'a [u8], Vec<Statement<'a>>), ParseError>)
    ensures
        agrees(
            input@,
            defs_at(input@, 0),
            match r {
                Ok((rest, statements)) => Ok((rest@, statement_views(statements@))),
                Err(e) => Err(e),
            },
        ),
{
    let mut statements: Vec<Statement<'a>> = Vec::new();
    let (first, first_end) = match read_def(input, 0) {
        Ok(read) => read,
        Err(e) => {
            return Err(e);
        },
    };
    proof {
        assert(statement_views(statements@.push(Statement::from_def_spec(first))) =~= seq![first@]);
    }
    statements.push(Statement::from_def(first));
    let mut cur = first_end;
    let ghost whole = defs_at(input@, 0);
    let mut more = true;
    while more
        invariant
            0 < cur <= input.len(),
            whole == defs_at(input@, 0),
            more ==> whole == defs_more(input@, cur as int, statement_views(statements@)),
            !more ==> whole == (Parsed::Done {
                value: statement_views(statements@),
                end: cur as int,
            }),
        decreases
                input.len() - cur + (if more {
                    1int
                } else {
                    0int
                }),
    {
        match read_def(input, cur) {
            Err(ParseError::NoMatch) => {
                more = false;
            },
            Err(ParseError::TooLarge) => {
                return Err(ParseError::TooLarge);
            },
            Ok((def, end)) => {
                proof {
                    assert(statement_views(statements@.push(Statement::from_def_spec(def)))
                        =~= statement_views(statements@).push(def@));
                }
                statements.push(Statement::from_def(def));
                cur = end;
            },
        }
    }
    Ok((slice_subrange(input, cur, input.len()), statements))
}

} // verus!

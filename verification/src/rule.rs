//! Rewrite rules and the table that holds them.
use crate::error::Error;
use crate::net::Net;
use std::collections::HashMap;
use vstd::prelude::*;

verus! {

/// What a rule is told about the active pair it rewrites: the ids of the two
/// agents and a copy of each one's auxiliary ports.
#[derive(Debug, Clone, PartialEq, Eq)]
pub struct Context {
    pub lhs_id: usize,
    pub rhs_id: usize,
    pub lhs_ports: Vec<usize>,
    pub rhs_ports: Vec<usize>,
}

impl Context {
    /// The same pair seen from the other side.
    pub open spec fn reversed(self) -> Context {
        Context {
            lhs_id: self.rhs_id,
            rhs_id: self.lhs_id,
            lhs_ports: self.rhs_ports,
            rhs_ports: self.lhs_ports,
        }
    }

    /// Swaps the two sides of the pair.
    pub fn reverse(&mut self)
        ensures
            *final(self) == old(self).reversed(),
    {
        core::mem::swap(&mut self.lhs_id, &mut self.rhs_id);
        core::mem::swap(&mut self.lhs_ports, &mut self.rhs_ports);
    }

    /// The id of the left agent.
    pub fn lhs(&self) -> (r: usize)
        ensures
            r == self.lhs_id,
    {
        self.lhs_id
    }

    /// The id of the right agent.
    pub fn rhs(&self) -> (r: usize)
        ensures
            r == self.rhs_id,
    {
        self.rhs_id
    }

    /// Removes both agents of the pair from the net, which is what every rule
    /// owes before it returns.
    pub fn remove_old_agents(&self, net: &mut Net)
        ensures
            final(net).agents() == old(net).agents().remove(self.lhs_id).remove(self.rhs_id),
            final(net).pending() == old(net).pending(),
            final(net).types() == old(net).types(),
            final(net).cap() == old(net).cap(),
    {
        net.remove_agent(self.lhs_id);
        net.remove_agent(self.rhs_id);
    }
}

/// A rewrite rule for one ordered pair of agent types.
///
/// The engine calls `apply` with the net from which the active pair has just
/// been taken and with the pair's context. The rule may create agents and
/// queue pairs, and it is expected to remove the two agents it was given.
/// The net keeps its own invariants whatever a rule does: a rule can change
/// it through its methods only.
pub trait Rule {
    /// The nets and results that `apply` may leave behind. An implementor
    /// that proves more of its `apply` says so here; left as it is, nothing
    /// is claimed.
    open spec fn rewrites(&self, before: Net, ctx: Context, after: Net, r: Result<(), Error>) -> bool {
        true
    }

    /// Rewrites the active pair described by `ctx`. An error ends the
    /// evaluation that called the rule; a rule that will not rewrite the
    /// pair it was handed says so with `Error::RuleRefused`.
    fn apply(&self, net: &mut Net, ctx: &Context) -> (r: Result<(), Error>)
        ensures
            self.rewrites(*old(net), *ctx, *final(net), r),
    ;
}

/// The rules of a machine, keyed by ordered pairs of type ids.
///
/// The rules are kept in a hash map under one integer for each pair; the
/// view is the map from the pairs themselves.
pub struct RuleTable<R> {
    rules: HashMap<u128, R>,
}

/// The integer that stands for the ordered pair `(lhs, rhs)`: `lhs` in the
/// upper 64 bits, `rhs` in the lower ones.
pub open spec fn pair_key(lhs: usize, rhs: usize) -> u128 {
    (lhs * 0x1_0000_0000_0000_0000 + rhs) as u128
}

/// Different pairs have different keys.
proof fn lemma_pair_key_apart(a: (usize, usize), b: (usize, usize))
    requires
        pair_key(a.0, a.1) == pair_key(b.0, b.1),
    ensures
        a == b,
{
}

impl<R> View for RuleTable<R> {
    type V = Map<(usize, usize), R>;

    closed spec fn view(&self) -> Map<(usize, usize), R> {
        Map::new(
            |key: (usize, usize)| self.rules@.contains_key(pair_key(key.0, key.1)),
            |key: (usize, usize)| self.rules@[pair_key(key.0, key.1)],
        )
    }
}

/// The key of the ordered pair `(lhs, rhs)`.
fn key_of(lhs: usize, rhs: usize) -> (r: u128)
    ensures
        r == pair_key(lhs, rhs),
{
    (lhs as u128) * 0x1_0000_0000_0000_0000 + (rhs as u128)
}

impl<R> RuleTable<R> {
    /// A table without rules.
    pub fn new() -> (r: RuleTable<R>)
        ensures
            r@ == Map::<(usize, usize), R>::empty(),
    {
        let r = RuleTable { rules: HashMap::new() };
        assert(r@ =~= Map::<(usize, usize), R>::empty());
        r
    }

    /// Registers `rule` for the ordered pair `(lhs, rhs)`; a rule already
    /// registered for that pair is replaced.
    pub fn insert(&mut self, lhs: usize, rhs: usize, rule: R)
        ensures
            final(self)@ == old(self)@.insert((lhs, rhs), rule),
    {
        broadcast use vstd::std_specs::hash::group_hash_axioms;

        let key = key_of(lhs, rhs);
        self.rules.insert(key, rule);
        proof {
            assert forall|other: (usize, usize)| other != (lhs, rhs) implies pair_key(
                other.0,
                other.1,
            ) != key by {
                if pair_key(other.0, other.1) == key {
                    lemma_pair_key_apart(other, (lhs, rhs));
                }
            }
            assert(self@ =~= old(self)@.insert((lhs, rhs), rule));
        }
    }

    /// The rule registered for the ordered pair `(lhs, rhs)`.
    pub fn get(&self, lhs: usize, rhs: usize) -> (r: Option<&R>)
        ensures
            match r {
                Some(rule) => self@.contains_key((lhs, rhs)) && *rule == self@[(lhs, rhs)],
                None => !self@.contains_key((lhs, rhs)),
            },
    {
        broadcast use vstd::std_specs::hash::group_hash_axioms;

        let key = key_of(lhs, rhs);
        self.rules.get(&key)
    }
}

} // verus!

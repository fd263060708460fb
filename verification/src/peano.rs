//! Unary numbers as nets, and the rules that add them.
//!
//! The number `n` on a port is a chain of `n` successor agents closed by a
//! zero agent: each agent of the chain is paired with the port that carries
//! it and offers the rest of the number on a fresh name. An addition agent
//! has two ports, the sum and the second summand, and is paired with the
//! first summand.
use crate::agent::{tags_monotone, AgentView};
use crate::error::Error;
use crate::machine::{
    decide, keeps_agents, lemma_every_step_keeps_agents, lemma_step_consumes_pair, Machine,
    MachineBuilder,
};
use crate::net::Net;
use crate::rule::{Context, Rule};
use vstd::prelude::*;

verus! {

/// A successor agent: type `succ` and the one port `aux`.
pub open spec fn succ_agent(succ: usize, aux: usize) -> AgentView {
    AgentView::Custom { type_id: succ, ports: seq![aux] }
}

/// A zero agent: type `zero` and no port.
pub open spec fn zero_agent(zero: usize) -> AgentView {
    AgentView::Custom { type_id: zero, ports: Seq::empty() }
}

/// The pairs that hang the successor agents `succs` on the names `names`:
/// the first on the first name, the second on the second, and so on.
pub open spec fn chain_pairs(names: Seq<usize>, succs: Seq<usize>) -> Seq<(usize, usize)> {
    Seq::new(succs.len(), |i: int| (succs[i], names[i]))
}

/// `agents` is `before` and a chain on top of it: under new ids, all
/// different, there are the names `names`, one more than there are successor
/// agents, and the successor agents `succs`, each with the next name as its
/// one port. Nothing else has been added and nothing has changed.
pub open spec fn is_chain(
    before: Map<usize, AgentView>,
    agents: Map<usize, AgentView>,
    succ: usize,
    names: Seq<usize>,
    succs: Seq<usize>,
) -> bool {
    &&& names.len() == succs.len() + 1
    &&& names.no_duplicates()
    &&& succs.no_duplicates()
    &&& forall|i: int, j: int|
        0 <= i < names.len() && 0 <= j < succs.len() ==> #[trigger] names[i] != #[trigger] succs[j]
    &&& forall|i: int| 0 <= i < names.len() ==> !before.contains_key(#[trigger] names[i])
    &&& forall|i: int| 0 <= i < succs.len() ==> !before.contains_key(#[trigger] succs[i])
    &&& forall|id: usize| #[trigger]
        agents.contains_key(id) <==> before.contains_key(id) || names.contains(id)
            || succs.contains(id)
    &&& forall|id: usize| before.contains_key(id) ==> #[trigger] agents[id] == before[id]
    &&& forall|i: int| 0 <= i < names.len() ==> agents[#[trigger] names[i]] == AgentView::name()
    &&& forall|i: int|
        0 <= i < succs.len() ==> agents[#[trigger] succs[i]] == succ_agent(succ, names[i + 1])
}

/// The net with `agents` and `pending` is the net with `before` and `queued`
/// and the unary number `n` on top of it.
///
/// The number is made of the names `names`, the successor agents `succs` and
/// the zero agent `z`, all under different ids that `before` did not use:
/// `n` successor agents form a chain over `n + 1` names as [`is_chain`] says,
/// and `z` has no port. Their pairs are queued behind `queued` in the order
/// of the chain: each successor agent with the name before it, and `z` with
/// the last name. The first name carries the number.
pub open spec fn is_number(
    before: Map<usize, AgentView>,
    queued: Seq<(usize, usize)>,
    agents: Map<usize, AgentView>,
    pending: Seq<(usize, usize)>,
    succ: usize,
    zero: usize,
    n: nat,
    names: Seq<usize>,
    succs: Seq<usize>,
    z: usize,
) -> bool {
    &&& succs.len() == n
    &&& is_chain(before, agents.remove(z), succ, names, succs)
    &&& !before.contains_key(z)
    &&& !names.contains(z)
    &&& !succs.contains(z)
    &&& agents.contains_key(z)
    &&& agents[z] == zero_agent(zero)
    &&& pending == queued + chain_pairs(names, succs).push((z, names.last()))
}

/// A chain grows by a name and by the successor agent that offers it.
proof fn lemma_chain_grows(
    before: Map<usize, AgentView>,
    agents: Map<usize, AgentView>,
    succ: usize,
    names: Seq<usize>,
    succs: Seq<usize>,
    aux: usize,
    s: usize,
)
    requires
        is_chain(before, agents, succ, names, succs),
        !agents.contains_key(aux),
        !agents.contains_key(s),
        aux != s,
    ensures
        is_chain(
            before,
            agents.insert(aux, AgentView::name()).insert(s, succ_agent(succ, aux)),
            succ,
            names.push(aux),
            succs.push(s),
        ),
        chain_pairs(names.push(aux), succs.push(s)) == chain_pairs(names, succs).push(
            (s, names.last()),
        ),
{
    let grown = agents.insert(aux, AgentView::name()).insert(s, succ_agent(succ, aux));
    let names2 = names.push(aux);
    let succs2 = succs.push(s);
    assert forall|i: int| 0 <= i < names.len() implies agents.contains_key(#[trigger] names[i]) by {
        assert(names.contains(names[i]));
    }
    assert forall|i: int| 0 <= i < succs.len() implies agents.contains_key(#[trigger] succs[i]) by {
        assert(succs.contains(succs[i]));
    }
    assert(!before.contains_key(aux) && !before.contains_key(s));
    assert forall|i: int, j: int| 0 <= i < j < names2.len() implies names2[i] != names2[j] by {
        if j == names.len() {
            assert(agents.contains_key(names[i]));
        }
    }
    assert forall|i: int, j: int| 0 <= i < j < succs2.len() implies succs2[i] != succs2[j] by {
        if j == succs.len() {
            assert(agents.contains_key(succs[i]));
        }
    }
    assert forall|i: int, j: int| 0 <= i < names2.len() && 0 <= j < succs2.len() implies #[trigger]
        names2[i] != #[trigger] succs2[j] by {
        if i < names.len() {
            assert(agents.contains_key(names[i]));
        }
        if j < succs.len() {
            assert(agents.contains_key(succs[j]));
        }
    }
    assert forall|id: usize| #[trigger]
        grown.contains_key(id) <==> before.contains_key(id) || names2.contains(id)
            || succs2.contains(id) by {
        if names2.contains(id) {
            let i = choose|i: int| 0 <= i < names2.len() && names2[i] == id;
            if i < names.len() {
                assert(names.contains(id));
            }
        }
        if succs2.contains(id) {
            let i = choose|i: int| 0 <= i < succs2.len() && succs2[i] == id;
            if i < succs.len() {
                assert(succs.contains(id));
            }
        }
        if names.contains(id) {
            let i = choose|i: int| 0 <= i < names.len() && names[i] == id;
            assert(names2[i] == id);
        }
        if succs.contains(id) {
            let i = choose|i: int| 0 <= i < succs.len() && succs[i] == id;
            assert(succs2[i] == id);
        }
        if id == aux {
            assert(names2[names.len() as int] == id);
        }
        if id == s {
            assert(succs2[succs.len() as int] == id);
        }
    }
    assert forall|i: int| 0 <= i < names2.len() implies grown[#[trigger] names2[i]]
        == AgentView::name() by {
        if i < names.len() {
            assert(agents.contains_key(names[i]));
        }
    }
    assert forall|i: int| 0 <= i < succs2.len() implies grown[#[trigger] succs2[i]] == succ_agent(
        succ,
        names2[i + 1],
    ) by {
        if i < succs.len() {
            assert(agents.contains_key(succs[i]));
            assert(names2[i + 1] == names[i + 1]);
        }
    }
    assert(chain_pairs(names2, succs2) =~= chain_pairs(names, succs).push((s, names.last())));
}

/// Puts the unary number `n` into the net that `builder` builds and returns
/// the name that carries it.
///
/// `succ` and `zero` are the types of the successor and zero agents. The
/// number takes `2 * n + 2` agents and queues `n + 1` pairs; [`is_number`]
/// says which. Where a type is not registered or the net has no room for
/// all of the agents, nothing is built.
pub fn new_number<R: Rule>(builder: &mut MachineBuilder<R>, succ: usize, zero: usize, n: u32) -> (r:
    Result<usize, Error>)
    ensures
        final(builder).rules() == old(builder).rules(),
        final(builder).net().types() == old(builder).net().types(),
        final(builder).net().cap() == old(builder).net().cap(),
        if succ >= old(builder).net().types() {
            r == Err::<usize, Error>(
                Error::InvalidTypeId { actual: succ, cap: old(builder).net().max_type() },
            ) && final(builder).net() == old(builder).net()
        } else if zero >= old(builder).net().types() {
            r == Err::<usize, Error>(
                Error::InvalidTypeId { actual: zero, cap: old(builder).net().max_type() },
            ) && final(builder).net() == old(builder).net()
        } else if old(builder).net().agents().dom().len() + 2 * n + 2 > old(builder).net().cap() {
            r == Err::<usize, Error>(Error::AllocationFailed) && final(builder).net() == old(
                builder,
            ).net()
        } else {
            &&& final(builder).net().agents().dom().len() == old(
                builder,
            ).net().agents().dom().len() + 2 * n + 2
            &&& exists|names: Seq<usize>, succs: Seq<usize>, z: usize|
                {
                    &&& #[trigger] is_number(
                        old(builder).net().agents(),
                        old(builder).net().pending(),
                        final(builder).net().agents(),
                        final(builder).net().pending(),
                        succ,
                        zero,
                        n as nat,
                        names,
                        succs,
                        z,
                    )
                    &&& r == Ok::<usize, Error>(names[0])
                }
        },
{
    let types = builder.as_net().type_count();
    if succ >= types || zero >= types {
        let cap = if types == 0 {
            0
        } else {
            types - 1
        };
        let actual = if succ >= types {
            succ
        } else {
            zero
        };
        return Err(Error::InvalidTypeId { actual, cap });
    }
    let room: u64 = (builder.as_net().capacity() - builder.as_net().count()) as u64;
    let need: u64 = 2 * (n as u64) + 2;
    if need > room {
        return Err(Error::AllocationFailed);
    }
    let ghost start = builder.net();
    let name = match builder.new_tag() {
        Ok(id) => id,
        Err(e) => {
            return Err(e);
        },
    };
    let ghost mut names: Seq<usize> = seq![name];
    let ghost mut succs: Seq<usize> = Seq::empty();
    proof {
        lemma_chain_starts(start.agents(), builder.net().agents(), succ, name);
    }
    let mut last = name;
    let mut i: u32 = 0;
    while i < n
        invariant
            i <= n,
            succ < builder.net().types(),
            zero < builder.net().types(),
            builder.rules() == old(builder).rules(),
            builder.net().types() == start.types(),
            builder.net().cap() == start.cap(),
            start.agents().dom().len() + 2 * n + 2 <= start.cap(),
            builder.net().agents().dom().finite(),
            builder.net().agents().dom().len() == start.agents().dom().len() + 2 * i + 1,
            succs.len() == i,
            names[0] == name,
            names.last() == last,
            is_chain(start.agents(), builder.net().agents(), succ, names, succs),
            builder.net().pending() == start.pending() + chain_pairs(names, succs),
        decreases n - i,
    {
        let ghost before = builder.net();
        let aux = match builder.new_tag() {
            Ok(id) => id,
            Err(e) => {
                return Err(e);
            },
        };
        let ports: [usize; 1] = [aux];
        assert(ports@ =~= seq![aux]);
        let s = match builder.new_agent(succ, last, ports.as_slice()) {
            Ok(id) => id,
            Err(e) => {
                return Err(e);
            },
        };
        proof {
            lemma_chain_grows(start.agents(), before.agents(), succ, names, succs, aux, s);
            assert(builder.net().pending() =~= start.pending() + chain_pairs(names, succs).push(
                (s, last),
            ));
            names = names.push(aux);
            succs = succs.push(s);
        }
        last = aux;
        i = i + 1;
    }
    let ghost before = builder.net();
    let none: [usize; 0] = [];
    assert(none@ =~= Seq::<usize>::empty());
    let z = match builder.new_agent(zero, last, none.as_slice()) {
        Ok(id) => id,
        Err(e) => {
            return Err(e);
        },
    };
    proof {
        let after = builder.net();
        assert(after.agents().remove(z) =~= before.agents());
        assert(!names.contains(z) && !succs.contains(z));
        assert(after.pending() =~= start.pending() + chain_pairs(names, succs).push((z, last)));
        assert(is_number(
            start.agents(),
            start.pending(),
            after.agents(),
            after.pending(),
            succ,
            zero,
            n as nat,
            names,
            succs,
            z,
        ));
    }
    Ok(name)
}

/// One fresh name is a chain without successor agents.
proof fn lemma_chain_starts(
    before: Map<usize, AgentView>,
    agents: Map<usize, AgentView>,
    succ: usize,
    name: usize,
)
    requires
        !before.contains_key(name),
        agents == before.insert(name, AgentView::name()),
    ensures
        is_chain(before, agents, succ, seq![name], Seq::<usize>::empty()),
        chain_pairs(seq![name], Seq::<usize>::empty()) == Seq::<(usize, usize)>::empty(),
{
    let names = seq![name];
    assert forall|id: usize| #[trigger]
        agents.contains_key(id) <==> before.contains_key(id) || names.contains(id)
            || Seq::<usize>::empty().contains(id) by {
        if id == name {
            assert(names[0] == id);
        }
    }
    assert(chain_pairs(names, Seq::<usize>::empty()) =~= Seq::<(usize, usize)>::empty());
}

/// The two rules of unary addition.
#[derive(Debug, Clone, Copy, PartialEq, Eq)]
pub enum Addition {
    /// An addition agent (type `add`) meets a successor agent (type `succ`):
    /// `(1 + x) + y = 1 + (x + y)`. With a fresh name `n`, a successor agent
    /// on `n` goes to the port of the sum, and an addition agent with the
    /// sum `n` and the same second summand goes to `x`.
    Successor { add: usize, succ: usize },
    /// An addition agent (type `add`) meets a zero agent (type `zero`):
    /// `0 + y = y`. The sum and the second summand are paired.
    Zero { add: usize, zero: usize },
}

impl Addition {
    /// The types of the pair that the rule is for.
    pub open spec fn key(self) -> (usize, usize) {
        match self {
            Addition::Successor { add, succ } => (add, succ),
            Addition::Zero { add, zero } => (add, zero),
        }
    }

    /// Whether the agents of `ctx` have the ports the rule reads: two on the
    /// left, and one on the right where that is a successor agent.
    pub open spec fn fits(self, ctx: Context) -> bool {
        match self {
            Addition::Successor { .. } => ctx.lhs_ports@.len() >= 2 && ctx.rhs_ports@.len() >= 1,
            Addition::Zero { .. } => ctx.lhs_ports@.len() >= 2,
        }
    }

    /// What the successor rule makes of `before`: the name `n`, the
    /// addition agent `a` and the successor agent `s` are new, the two new
    /// pairs are queued, and the two agents of `ctx` are gone.
    pub open spec fn steps(
        before: Net,
        ctx: Context,
        after: Net,
        add: usize,
        succ: usize,
        n: usize,
        a: usize,
        s: usize,
    ) -> bool {
        &&& !before.agents().contains_key(n)
        &&& !before.agents().contains_key(a)
        &&& !before.agents().contains_key(s)
        &&& n != a && n != s && a != s
        &&& after.agents() == Addition::consumed(
            before.agents().insert(n, AgentView::name()).insert(
                a,
                AgentView::Custom { type_id: add, ports: seq![n, ctx.lhs_ports@[1]] },
            ).insert(s, succ_agent(succ, n)),
            ctx,
        )
        &&& after.pending() == before.pending().push((a, ctx.rhs_ports@[0])).push(
            (s, ctx.lhs_ports@[0]),
        )
        &&& after.types() == before.types()
        &&& after.cap() == before.cap()
    }

    /// The net `after` is `before` without the two agents of `ctx`.
    pub open spec fn consumed(before: Map<usize, AgentView>, ctx: Context) -> Map<
        usize,
        AgentView,
    > {
        before.remove(ctx.lhs_id).remove(ctx.rhs_id)
    }
}

impl Rule for Addition {
    /// A pair whose agents lack the ports is refused: `RuleRefused` with the
    /// rule's types, and no change. The successor rule needs its
    /// two types registered and room for three agents, and changes nothing
    /// where it lacks either. Otherwise the rule succeeds, creates and
    /// queues what it is to, and removes the two agents of the pair last.
    open spec fn rewrites(&self, before: Net, ctx: Context, after: Net, r: Result<(), Error>) -> bool {
        if !self.fits(ctx) {
            r == Err::<(), Error>(
                Error::RuleRefused { lhs_type: self.key().0, rhs_type: self.key().1 },
            ) && after == before
        } else {
            match *self {
                Addition::Successor { add, succ } => {
                    if add >= before.types() {
                        r == Err::<(), Error>(
                            Error::InvalidTypeId { actual: add, cap: before.max_type() },
                        ) && after == before
                    } else if succ >= before.types() {
                        r == Err::<(), Error>(
                            Error::InvalidTypeId { actual: succ, cap: before.max_type() },
                        ) && after == before
                    } else if before.agents().dom().len() + 3 > before.cap() {
                        r == Err::<(), Error>(Error::AllocationFailed) && after == before
                    } else {
                        r is Ok && exists|n: usize, a: usize, s: usize| #[trigger]
                            Addition::steps(before, ctx, after, add, succ, n, a, s)
                    }
                },
                Addition::Zero { .. } => {
                    &&& r is Ok
                    &&& after.types() == before.types()
                    &&& after.cap() == before.cap()
                    &&& after.agents() == Addition::consumed(before.agents(), ctx)
                    &&& after.pending() == before.pending().push(
                        (ctx.lhs_ports@[0], ctx.lhs_ports@[1]),
                    )
                },
            }
        }
    }

    fn apply(&self, net: &mut Net, ctx: &Context) -> (r: Result<(), Error>) {
        match *self {
            Addition::Successor { add, succ } => {
                if ctx.lhs_ports.len() < 2 || ctx.rhs_ports.len() < 1 {
                    return Err(Error::RuleRefused { lhs_type: add, rhs_type: succ });
                }
                let types = net.type_count();
                if add >= types || succ >= types {
                    let cap = if types == 0 {
                        0
                    } else {
                        types - 1
                    };
                    let actual = if add >= types {
                        add
                    } else {
                        succ
                    };
                    return Err(Error::InvalidTypeId { actual, cap });
                }
                let count = net.count();
                if net.capacity() - count < 3 {
                    return Err(Error::AllocationFailed);
                }
                let ghost before = *net;
                let n = match net.new_tag() {
                    Ok(id) => id,
                    Err(e) => {
                        return Err(e);
                    },
                };
                let ports: [usize; 2] = [n, ctx.lhs_ports[1]];
                assert(ports@ =~= seq![n, ctx.lhs_ports@[1]]);
                let a = match net.new_agent(add, ctx.rhs_ports[0], ports.as_slice()) {
                    Ok(id) => id,
                    Err(e) => {
                        return Err(e);
                    },
                };
                let port: [usize; 1] = [n];
                assert(port@ =~= seq![n]);
                let s = match net.new_agent(succ, ctx.lhs_ports[0], port.as_slice()) {
                    Ok(id) => id,
                    Err(e) => {
                        return Err(e);
                    },
                };
                ctx.remove_old_agents(net);
                proof {
                    assert(Addition::steps(before, *ctx, *net, add, succ, n, a, s));
                }
                Ok(())
            },
            Addition::Zero { add, zero } => {
                if ctx.lhs_ports.len() < 2 {
                    return Err(Error::RuleRefused { lhs_type: add, rhs_type: zero });
                }
                net.new_eq(ctx.lhs_ports[0], ctx.lhs_ports[1]);
                ctx.remove_old_agents(net);
                Ok(())
            },
        }
    }
}

/// Both rules of addition remove the pair they rewrite: when one of them
/// has succeeded, neither id of its context holds an agent.
pub proof fn lemma_addition_consumes(
    rule: Addition,
    before: Net,
    ctx: Context,
    after: Net,
    done: Result<(), Error>,
)
    requires
        rule.rewrites(before, ctx, after, done),
        done is Ok,
    ensures
        !after.agents().contains_key(ctx.lhs_id),
        !after.agents().contains_key(ctx.rhs_id),
{
}

/// Both rules of addition change no agent they leave in place: what they
/// create gets ids that were not in use, and nothing else is touched but the
/// two agents they remove.
pub proof fn lemma_addition_keeps_agents(rule: Addition)
    ensures
        keeps_agents(rule),
{
    assert forall|net: Net, ctx: Context, left: Net, done: Result<(), Error>| #[trigger]
        rule.rewrites(net, ctx, left, done) implies tags_monotone(net.agents(), left.agents()) by {
        if rule is Successor && rule.fits(ctx) && done is Ok {
            let (n, a, s) = choose|n: usize, a: usize, s: usize| #[trigger]
                Addition::steps(
                    net,
                    ctx,
                    left,
                    rule->Successor_add,
                    rule->succ,
                    n,
                    a,
                    s,
                );
            assert forall|id: usize|
                net.agents().contains_key(id) && left.agents().contains_key(id) implies (
            #[trigger] net.agents()[id]).evolves_to(left.agents()[id]) by {
                assert(id != n && id != a && id != s);
            }
        }
    }
}

/// In a machine that adds, tags only move forward under every step: `is_ind`
/// never goes back, and an indirection keeps its target while it exists.
pub proof fn lemma_addition_step_keeps_agents(
    before: Machine<Addition>,
    after: Machine<Addition>,
    r: Result<bool, Error>,
)
    requires
        before.steps_to(after, r),
    ensures
        tags_monotone(before.net().agents(), after.net().agents()),
{
    assert forall|key: (usize, usize)| #[trigger] before.rules().contains_key(key) implies keeps_agents(
        before.rules()[key],
    ) by {
        lemma_addition_keeps_agents(before.rules()[key]);
    }
    lemma_every_step_keeps_agents(before, after, r);
}

/// A machine that adds removes both agents of every pair it rewrites: after
/// a step that applied a rule of addition, the two custom agents that met
/// are gone.
pub proof fn lemma_addition_step_consumes(before: Machine<Addition>, after: Machine<Addition>)
    requires
        before.steps_to(after, Ok::<bool, Error>(true)),
        !before.saturated(),
        before.net().pending().len() > 0,
        decide(
            before.net().agents(),
            before.rules().dom(),
            before.net().pending().first(),
        ) is Interact,
    ensures
        !after.net().agents().contains_key(before.net().pending().first().0),
        !after.net().agents().contains_key(before.net().pending().first().1),
{
    let action = decide(
        before.net().agents(),
        before.rules().dom(),
        before.net().pending().first(),
    );
    let rule = before.rules()[(action->Interact_lhs_type, action->Interact_rhs_type)];
    assert forall|net: Net, ctx: Context, left: Net, done: Result<(), Error>| #[trigger]
        rule.rewrites(net, ctx, left, done) && done is Ok implies !left.agents().contains_key(
        ctx.lhs_id,
    ) && !left.agents().contains_key(ctx.rhs_id) by {
        lemma_addition_consumes(rule, net, ctx, left, done);
    }
    lemma_step_consumes_pair(before, after);
}

} // verus!

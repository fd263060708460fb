//! Agents: the nodes of an interaction net.
use vstd::prelude::*;

verus! {

/// The mathematical value of an [`Agent`].
pub enum AgentView {
    Tag { is_ind: bool, target: usize },
    Custom { type_id: usize, ports: Seq<usize> },
}

/// Between two states of a store, no agent that is in both has changed
/// except that names may have become indirections: an indirection keeps its
/// target, and a custom agent keeps its type and ports.
pub open spec fn tags_monotone(before: Map<usize, AgentView>, after: Map<usize, AgentView>) -> bool {
    forall|id: usize|
        before.contains_key(id) && after.contains_key(id) ==> (#[trigger] before[id]).evolves_to(
            after[id],
        )
}

/// Where the indirections that start at `id` end, following at most `hops`
/// of them: the id of a name or of a custom agent. `None` where an id on the
/// way holds no agent, or where the indirections go on after `hops` of them.
pub open spec fn walk(agents: Map<usize, AgentView>, id: usize, hops: nat) -> Option<usize>
    decreases hops,
{
    if !agents.contains_key(id) {
        None
    } else {
        match agents[id] {
            AgentView::Tag { is_ind: true, target } => if hops == 0 {
                None
            } else {
                walk(agents, target, (hops - 1) as nat)
            },
            _ => Some(id),
        }
    }
}

/// A walk that ends does so wherever it is given at least as many hops.
pub proof fn lemma_walk_more(agents: Map<usize, AgentView>, id: usize, hops: nat, more: nat)
    requires
        walk(agents, id, hops) is Some,
        hops <= more,
    ensures
        walk(agents, id, more) == walk(agents, id, hops),
    decreases hops,
{
    if hops > 0 && agents[id] is Tag && agents[id]->is_ind {
        lemma_walk_more(agents, agents[id]->target, (hops - 1) as nat, (more - 1) as nat);
    }
}

/// A walk that ends, but not with fewer than `hops` hops, passes `hops`
/// indirections and an agent behind them, all under different ids.
proof fn lemma_walk_needs_room(agents: Map<usize, AgentView>, id: usize, hops: nat)
    requires
        agents.dom().finite(),
        walk(agents, id, hops) is Some,
        hops > 0 ==> walk(agents, id, (hops - 1) as nat) is None,
    ensures
        agents.dom().len() >= hops + 1,
    decreases hops,
{
    if hops == 0 {
        assert(agents.dom().contains(id));
        if agents.dom().len() == 0 {
            assert(agents.dom() =~= Set::<usize>::empty()) by {
                vstd::set_lib::lemma_set_empty_equivalency_len(agents.dom());
            }
        }
    } else {
        let target = agents[id]->target;
        let rest = agents.remove(id);
        lemma_walk_without(agents, id, target, (hops - 1) as nat, hops);
        if hops > 1 {
            if walk(agents, target, (hops - 2) as nat) is Some {
                assert(walk(agents, id, (hops - 1) as nat) is Some);
            }
            lemma_walk_without_none(agents, id, target, (hops - 2) as nat);
        }
        lemma_walk_needs_room(rest, target, (hops - 1) as nat);
    }
}

/// Where a walk from `id` ends no sooner than after `least` hops, a walk
/// that starts behind `id` and ends does not come back to `id`, and so goes
/// the same way in the store without `id`.
proof fn lemma_walk_without(
    agents: Map<usize, AgentView>,
    id: usize,
    from: usize,
    hops: nat,
    least: nat,
)
    requires
        walk(agents, from, hops) is Some,
        hops < least,
        walk(agents, id, least) is Some,
        least > 0 ==> walk(agents, id, (least - 1) as nat) is None,
    ensures
        walk(agents.remove(id), from, hops) == walk(agents, from, hops),
    decreases hops,
{
    if from == id {
        lemma_walk_more(agents, id, hops, (least - 1) as nat);
    } else if hops > 0 && agents[from] is Tag && agents[from]->is_ind {
        lemma_walk_without(agents, id, agents[from]->target, (hops - 1) as nat, least);
    }
}

/// A walk that does not end in a store does not end in the store without
/// one of its agents.
proof fn lemma_walk_without_none(
    agents: Map<usize, AgentView>,
    id: usize,
    from: usize,
    hops: nat,
)
    requires
        walk(agents, from, hops) is None,
    ensures
        walk(agents.remove(id), from, hops) is None,
    decreases hops,
{
    if from != id && agents.contains_key(from) && hops > 0 && agents[from] is Tag
        && agents[from]->is_ind {
        lemma_walk_without_none(agents, id, agents[from]->target, (hops - 1) as nat);
    }
}

/// As many hops as there are agents are enough: a walk that ends at all
/// ends within that many, at the same id.
pub proof fn lemma_walk_enough(agents: Map<usize, AgentView>, id: usize, hops: nat)
    requires
        agents.dom().finite(),
        walk(agents, id, hops) is Some,
    ensures
        walk(agents, id, agents.dom().len()) == walk(agents, id, hops),
    decreases hops,
{
    if hops > 0 && walk(agents, id, (hops - 1) as nat) is Some {
        lemma_walk_enough(agents, id, (hops - 1) as nat);
        lemma_walk_more(agents, id, (hops - 1) as nat, hops);
    } else {
        lemma_walk_needs_room(agents, id, hops);
        lemma_walk_more(agents, id, hops, agents.dom().len());
    }
}

impl AgentView {
    /// The state in which every tag starts: an unbound name.
    pub open spec fn name() -> AgentView {
        AgentView::Tag { is_ind: false, target: 0 }
    }

    /// The ids this agent points to: the target of an indirection, the
    /// auxiliary ports of a custom agent, nothing for an unbound name.
    pub open spec fn refs(self) -> Seq<usize> {
        match self {
            AgentView::Tag { is_ind, target } => if is_ind {
                seq![target]
            } else {
                Seq::empty()
            },
            AgentView::Custom { type_id, ports } => ports,
        }
    }

    /// A tag may only move from name to indirection, and an indirection never
    /// changes again. `self` is the earlier value, `later` the later one.
    pub open spec fn evolves_to(self, later: AgentView) -> bool {
        match self {
            AgentView::Tag { is_ind, target } => later is Tag && (is_ind ==> later == self),
            AgentView::Custom { .. } => later == self,
        }
    }
}

/// A node of the net.
///
/// A `Tag` is a name while `is_ind` is false and an indirection to `target`
/// once it is true. A `Custom` agent carries its user type and its auxiliary
/// ports; its principal port is the other side of the pair it stands in.
#[derive(Debug, Clone, PartialEq, Eq)]
pub enum Agent {
    Tag { is_ind: bool, target: usize },
    Custom { type_id: usize, ports: Vec<usize> },
}

impl View for Agent {
    type V = AgentView;

    open spec fn view(&self) -> AgentView {
        match *self {
            Agent::Tag { is_ind, target } => AgentView::Tag { is_ind, target },
            Agent::Custom { type_id, ports } => AgentView::Custom { type_id, ports: ports@ },
        }
    }
}

impl Default for Agent {
    fn default() -> (r: Agent)
        ensures
            r@ == AgentView::name(),
    {
        Agent::Tag { is_ind: false, target: 0 }
    }
}

impl Agent {
    /// A fresh name.
    pub fn name() -> (r: Agent)
        ensures
            r@ == AgentView::name(),
    {
        Agent::Tag { is_ind: false, target: 0 }
    }

    /// A custom agent of type `type_id` with a copy of `ports`.
    pub fn custom(type_id: usize, ports: &[usize]) -> (r: Agent)
        ensures
            r@ == (AgentView::Custom { type_id, ports: ports@ }),
    {
        Agent::Custom { type_id, ports: copy_ids(ports) }
    }

    /// The auxiliary ports of a custom agent.
    pub fn ports(&self) -> (r: &Vec<usize>)
        requires
            self@ is Custom,
        ensures
            r@ == self@->ports,
    {
        match self {
            Agent::Tag { .. } => {
                proof { assert(false); }
                unreached()
            },
            Agent::Custom { type_id: _, ports } => ports,
        }
    }

    /// Mutable access to the auxiliary ports of a custom agent. The agent
    /// keeps its type; its ports end as the caller leaves them.
    pub fn ports_mut(&mut self) -> (r: &mut Vec<usize>)
        requires
            old(self)@ is Custom,
        ensures
            r@ == old(self)@->ports,
            final(self)@ == (AgentView::Custom {
                type_id: old(self)@->type_id,
                ports: final(r)@,
            }),
    {
        match self {
            Agent::Tag { .. } => {
                proof { assert(false); }
                unreached()
            },
            Agent::Custom { type_id: _, ports } => ports,
        }
    }

    /// One compare-and-set on a tag. A name becomes an indirection to `to`
    /// and `Ok` is returned; an indirection is left as it is and its target
    /// comes back in `Err`.
    pub fn bind(&mut self, to: usize) -> (r: Result<(), usize>)
        requires
            old(self)@ is Tag,
        ensures
            old(self)@.evolves_to(final(self)@),
            match old(self)@ {
                AgentView::Tag { is_ind: false, .. } => r is Ok && final(self)@ == (AgentView::Tag {
                    is_ind: true,
                    target: to,
                }),
                AgentView::Tag { is_ind: true, target } => r == Err::<(), usize>(target)
                    && final(self)@ == old(self)@,
                AgentView::Custom { .. } => false,
            },
    {
        match self {
            Agent::Tag { is_ind, target } => {
                if *is_ind {
                    Err(*target)
                } else {
                    *is_ind = true;
                    *target = to;
                    Ok(())
                }
            },
            Agent::Custom { .. } => {
                proof { assert(false); }
                unreached()
            },
        }
    }
}

/// A copy of a list of ids.
pub fn copy_ids(ids: &[usize]) -> (r: Vec<usize>)
    ensures
        r@ == ids@,
{
    let mut out: Vec<usize> = Vec::new();
    let mut i: usize = 0;
    while i < ids.len()
        invariant
            i <= ids.len(),
            out@ == ids@.take(i as int),
        decreases ids.len() - i,
    {
        out.push(ids[i]);
        i = i + 1;
    }
    out
}

} // verus!

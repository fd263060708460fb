//! The net: agents and the pairs that are still to be reduced.
use crate::agent::{copy_ids, lemma_walk_enough, tags_monotone, walk, Agent, AgentView};
use crate::error::Error;
use crate::queue::{queue_items, queue_new, queue_pop, queue_push};
use crate::store::{swept, AgentStore};
use crossbeam_queue::SegQueue;
use vstd::prelude::*;

verus! {

/// The state that rewrite rules work on: the agent store, the queue of
/// pending pairs, and the number of registered agent types.
pub struct Net {
    store: AgentStore,
    pairs: SegQueue<(usize, usize)>,
    types: usize,
}

impl Net {
    /// The agents of the net, by id.
    pub closed spec fn agents(&self) -> Map<usize, AgentView> {
        self.store@
    }

    /// The pairs that wait to be reduced, oldest first.
    pub closed spec fn pending(&self) -> Seq<(usize, usize)> {
        queue_items(self.pairs)
    }

    /// The number of registered agent types: the valid type ids are those
    /// below it.
    pub closed spec fn types(&self) -> usize {
        self.types
    }

    /// The largest number of agents the net will hold at a time.
    pub closed spec fn cap(&self) -> usize {
        self.store.cap()
    }

    /// The id that the next agent gets.
    pub closed spec fn next_id(&self) -> usize {
        self.store.next_id()
    }

    /// Whether the net holds as many agents as it may.
    pub open spec fn is_full(&self) -> bool {
        self.agents().dom().len() == self.cap()
    }

    /// The largest registered type id, 0 when no type is registered.
    pub open spec fn max_type(&self) -> usize {
        if self.types() == 0 {
            0
        } else {
            (self.types() - 1) as usize
        }
    }

    /// What `old` looks like once an agent was added under its next id.
    pub open spec fn with_agent(&self, old: Net, agent: AgentView) -> bool {
        &&& !old.agents().contains_key(old.next_id())
        &&& self.agents() == old.agents().insert(old.next_id(), agent)
        &&& self.types() == old.types()
        &&& self.cap() == old.cap()
    }

    /// `after` is this net with nothing changed that can be observed.
    pub open spec fn same_as(&self, after: Net) -> bool {
        &&& after.agents() == self.agents()
        &&& after.pending() == self.pending()
        &&& after.types() == self.types()
        &&& after.cap() == self.cap()
        &&& after.next_id() == self.next_id()
    }

    /// What `new_tag` does: `after` and `r` follow from this net.
    pub open spec fn creates_tag(&self, after: Net, r: Result<usize, Error>) -> bool {
        match r {
            Ok(id) => {
                &&& !self.is_full()
                &&& id == self.next_id()
                &&& after.with_agent(*self, AgentView::name())
                &&& after.pending() == self.pending()
            },
            Err(e) => self.is_full() && e == Error::AllocationFailed && after == *self,
        }
    }

    /// What `new_agent` does: `after` and `r` follow from this net and the
    /// arguments.
    pub open spec fn creates_agent(
        &self,
        type_id: usize,
        principal: usize,
        aux: Seq<usize>,
        after: Net,
        r: Result<usize, Error>,
    ) -> bool {
        match r {
            Ok(id) => {
                &&& type_id < self.types()
                &&& !self.is_full()
                &&& id == self.next_id()
                &&& after.with_agent(*self, AgentView::Custom { type_id, ports: aux })
                &&& after.pending() == self.pending().push((id, principal))
            },
            Err(e) => {
                &&& after == *self
                &&& if type_id >= self.types() {
                    e == (Error::InvalidTypeId { actual: type_id, cap: self.max_type() })
                } else {
                    self.is_full() && e == Error::AllocationFailed
                }
            },
        }
    }

    /// What `new_eq` does.
    pub open spec fn queues(&self, pair: (usize, usize), after: Net) -> bool {
        &&& after.pending() == self.pending().push(pair)
        &&& after.agents() == self.agents()
        &&& after.types() == self.types()
        &&& after.cap() == self.cap()
        &&& after.next_id() == self.next_id()
    }

    /// What `remove_agent` does.
    pub open spec fn removes(&self, id: usize, after: Net, r: bool) -> bool {
        &&& r == self.agents().contains_key(id)
        &&& after.agents() == self.agents().remove(id)
        &&& after.pending() == self.pending()
        &&& after.types() == self.types()
        &&& after.cap() == self.cap()
        &&& after.next_id() == (if r {
            id
        } else {
            self.next_id()
        })
    }

    /// An empty net with no types that holds at most `cap` agents.
    pub fn new(cap: usize) -> (r: Net)
        ensures
            r.agents() == Map::<usize, AgentView>::empty(),
            r.pending() == Seq::<(usize, usize)>::empty(),
            r.types() == 0,
            r.cap() == cap,
            r.next_id() == 0,
    {
        Net { store: AgentStore::new(cap), pairs: queue_new(), types: 0 }
    }

    /// Registers one more agent type and returns its id.
    pub(crate) fn add_type(&mut self) -> (r: usize)
        requires
            old(self).types() < usize::MAX,
        ensures
            r == old(self).types(),
            final(self).types() == old(self).types() + 1,
            final(self).agents() == old(self).agents(),
            final(self).pending() == old(self).pending(),
            final(self).cap() == old(self).cap(),
            final(self).next_id() == old(self).next_id(),
    {
        let id = self.types;
        self.types = self.types + 1;
        id
    }

    /// Creates a tag in its initial state, an unbound name.
    pub fn new_tag(&mut self) -> (r: Result<usize, Error>)
        ensures
            old(self).creates_tag(*final(self), r),
    {
        let keep = |fresh: Agent| -> (a: Agent)
            ensures
                a == fresh,
            {
                let a = fresh;
                a
            };
        let made = self.store.create_with(keep);
        match made {
            Some(id) => Ok(id),
            None => Err(Error::AllocationFailed),
        }
    }

    /// Creates a custom agent of type `type_id` with the auxiliary ports
    /// `aux`, and queues the pair of the new agent and `principal`.
    ///
    /// An unregistered `type_id` is refused first, then a full store; either
    /// way the net stays as it was.
    pub fn new_agent(&mut self, type_id: usize, principal: usize, aux: &[usize]) -> (r: Result<
        usize,
        Error,
    >)
        ensures
            old(self).creates_agent(type_id, principal, aux@, *final(self), r),
    {
        if type_id >= self.types {
            let cap = if self.types == 0 {
                0
            } else {
                self.types - 1
            };
            return Err(Error::InvalidTypeId { actual: type_id, cap });
        }
        let agent = Agent::Custom { type_id, ports: copy_ids(aux) };
        let put = move |fresh: Agent| -> (a: Agent)
            ensures
                a == agent,
            {
                let a = agent;
                a
            };
        let made = self.store.create_with(put);
        match made {
            Some(id) => {
                queue_push(&mut self.pairs, (id, principal));
                Ok(id)
            },
            None => Err(Error::AllocationFailed),
        }
    }

    /// Queues the pair `(lhs, rhs)` without creating an agent.
    pub fn new_eq(&mut self, lhs: usize, rhs: usize)
        ensures
            old(self).queues((lhs, rhs), *final(self)),
    {
        queue_push(&mut self.pairs, (lhs, rhs));
    }

    /// The agent under `id`, if there is one.
    pub fn get_agent(&self, id: usize) -> (r: Option<&Agent>)
        ensures
            match r {
                Some(agent) => self.agents().contains_key(id) && agent@ == self.agents()[id],
                None => !self.agents().contains_key(id),
            },
    {
        self.store.get(id)
    }

    /// The number of agents in the net.
    pub fn count(&self) -> (r: usize)
        ensures
            r == self.agents().dom().len(),
            self.agents().dom().finite(),
    {
        self.store.count()
    }

    /// The largest number of agents the net will hold at a time.
    pub fn capacity(&self) -> (r: usize)
        ensures
            r == self.cap(),
            self.agents().dom().len() <= r,
    {
        self.store.capacity()
    }

    /// The number of registered agent types.
    pub fn type_count(&self) -> (r: usize)
        ensures
            r == self.types(),
    {
        self.types
    }

    /// Reads through indirections: the id of the name or custom agent that
    /// `id` leads to. As many indirections are followed as there are
    /// agents, which is enough wherever the chain ends at all; `None` where
    /// the chain is broken or runs in a circle.
    pub fn resolve(&self, id: usize) -> (r: Option<usize>)
        ensures
            r == walk(self.agents(), id, self.agents().dom().len()),
            forall|hops: nat|
                (#[trigger] walk(self.agents(), id, hops)) is Some ==> r == walk(
                    self.agents(),
                    id,
                    hops,
                ),
    {
        let mut hops = self.store.count();
        proof {
            assert forall|hops: nat| (#[trigger] walk(self.agents(), id, hops)) is Some implies walk(
                self.agents(),
                id,
                self.agents().dom().len(),
            ) == walk(self.agents(), id, hops) by {
                lemma_walk_enough(self.agents(), id, hops);
            }
        }
        let mut at = id;
        loop
            invariant
                walk(self.agents(), id, self.agents().dom().len()) == walk(
                    self.agents(),
                    at,
                    hops as nat,
                ),
                forall|hops: nat|
                    (#[trigger] walk(self.agents(), id, hops)) is Some ==> walk(
                        self.agents(),
                        id,
                        self.agents().dom().len(),
                    ) == walk(self.agents(), id, hops),
            decreases hops,
        {
            match self.store.get(at) {
                None => {
                    return None;
                },
                Some(Agent::Tag { is_ind: true, target }) => {
                    if hops == 0 {
                        return None;
                    }
                    at = *target;
                    hops = hops - 1;
                },
                Some(_) => {
                    return Some(at);
                },
            }
        }
    }

    /// Removes the agent under `id`. `true` when there was one; removing a
    /// vacant id changes nothing.
    pub fn remove_agent(&mut self, id: usize) -> (r: bool)
        ensures
            old(self).removes(id, *final(self), r),
    {
        self.store.clear(id)
    }

    /// Removes every agent that is one of `roots` or can be reached from one
    /// of them through targets of indirections and ports of custom agents.
    pub fn drop_reachable(&mut self, roots: Vec<usize>)
        ensures
            final(self).agents() == swept(old(self).agents(), roots@),
            final(self).pending() == old(self).pending(),
            final(self).types() == old(self).types(),
            final(self).cap() == old(self).cap(),
    {
        self.store.drop_reachable(roots)
    }

    /// Takes the oldest pending pair out of the queue.
    pub(crate) fn pop_pair(&mut self) -> (r: Option<(usize, usize)>)
        ensures
            final(self).agents() == old(self).agents(),
            final(self).types() == old(self).types(),
            final(self).cap() == old(self).cap(),
            final(self).next_id() == old(self).next_id(),
            match r {
                None => old(self).pending().len() == 0 && final(self).pending() == old(
                    self,
                ).pending(),
                Some(pair) => old(self).pending().len() > 0 && pair == old(self).pending().first()
                    && final(self).pending() == old(self).pending().drop_first(),
            },
    {
        queue_pop(&mut self.pairs)
    }

    /// One compare-and-set on the tag under `id`; see [`AgentStore::bind`].
    pub(crate) fn bind_tag(&mut self, id: usize, to: usize) -> (r: Option<Result<(), usize>>)
        ensures
            final(self).pending() == old(self).pending(),
            final(self).next_id() == old(self).next_id(),
            final(self).types() == old(self).types(),
            final(self).cap() == old(self).cap(),
            match r {
                Some(Ok(_)) => old(self).agents().contains_key(id) && old(self).agents()[id] is Tag
                    && !old(self).agents()[id]->is_ind && final(self).agents() == old(
                    self,
                ).agents().insert(id, AgentView::Tag { is_ind: true, target: to }),
                Some(Err(target)) => old(self).agents().contains_key(id) && old(self).agents()[id]
                    == (AgentView::Tag { is_ind: true, target }) && final(self).agents() == old(
                    self,
                ).agents(),
                None => !(old(self).agents().contains_key(id) && old(self).agents()[id] is Tag)
                    && final(self).agents() == old(self).agents(),
            },
    {
        self.store.bind(id, to)
    }
}

/// No operation of a net changes an agent that it leaves in place, except
/// that binding turns a name into an indirection: whichever of the four
/// operations led from `before` to `after`, an indirection of `before` that
/// is still there has kept its target, and so has every custom agent its
/// type and ports.
pub proof fn lemma_net_ops_keep_agents(
    before: Net,
    after: Net,
    type_id: usize,
    ids: (usize, usize),
    aux: Seq<usize>,
    made: Result<usize, Error>,
    removed: bool,
)
    requires
        before.creates_tag(after, made) || before.creates_agent(type_id, ids.1, aux, after, made)
            || before.queues(ids, after) || before.removes(ids.0, after, removed),
    ensures
        tags_monotone(before.agents(), after.agents()),
{
}

impl Agent {
    /// Disposes of an agent that is held outside the net, together with
    /// every agent of `net` that it leads to: the target of an indirection,
    /// the ports of a custom agent, and what can be reached from those.
    pub fn drop_recursive(self, net: &mut Net)
        ensures
            final(net).agents() == swept(old(net).agents(), self@.refs()),
            final(net).pending() == old(net).pending(),
            final(net).types() == old(net).types(),
            final(net).cap() == old(net).cap(),
    {
        let roots = match self {
            Agent::Tag { is_ind, target } => {
                let mut roots: Vec<usize> = Vec::new();
                if is_ind {
                    roots.push(target);
                }
                roots
            },
            Agent::Custom { type_id: _, ports } => ports,
        };
        assert(roots@ =~= self@.refs());
        net.drop_reachable(roots)
    }
}

} // verus!

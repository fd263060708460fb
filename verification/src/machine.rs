//! The machine: a sealed net with its rules, and the reduction loop.
use crate::agent::{copy_ids, tags_monotone, walk, Agent, AgentView};
use crate::error::Error;
use crate::net::Net;
use crate::rule::{Context, Rule, RuleTable};
use crate::store::swept;
use vstd::prelude::*;

verus! {

/// What the engine does with one active pair.
pub enum Action {
    /// The pair names an id that holds no agent.
    Missing { id: usize },
    /// The name `tag` becomes an indirection to `to`.
    Bind { tag: usize, to: usize },
    /// The indirection `tag` is removed and the pair `(lhs, rhs)`, in which
    /// its target stands in its place, is queued.
    Follow { tag: usize, lhs: usize, rhs: usize },
    /// Two custom agents meet and the rule under `(lhs_type, rhs_type)` is
    /// applied; `swapped` says that the rule was found for the pair in
    /// reverse and sees the right agent as its left one.
    Interact { lhs_type: usize, rhs_type: usize, swapped: bool },
    /// Two custom agents meet and no rule is registered for them.
    NoRule { lhs_type: usize, rhs_type: usize },
}

/// The action that the pair `(l, r)` calls for, given the agents of the net
/// and the keys under which rules are registered.
///
/// A tag on the right is served first, then a tag on the left; a rule is
/// looked up for the types as they stand and then for the types swapped.
pub open spec fn decide(
    agents: Map<usize, AgentView>,
    keys: Set<(usize, usize)>,
    pair: (usize, usize),
) -> Action {
    let (l, r) = pair;
    if !agents.contains_key(l) {
        Action::Missing { id: l }
    } else if !agents.contains_key(r) {
        Action::Missing { id: r }
    } else {
        match agents[r] {
            AgentView::Tag { is_ind, target } => if is_ind {
                Action::Follow { tag: r, lhs: l, rhs: target }
            } else {
                Action::Bind { tag: r, to: l }
            },
            AgentView::Custom { type_id: rhs_type, .. } => match agents[l] {
                AgentView::Tag { is_ind, target } => if is_ind {
                    Action::Follow { tag: l, lhs: target, rhs: r }
                } else {
                    Action::Bind { tag: l, to: r }
                },
                AgentView::Custom { type_id: lhs_type, .. } => if keys.contains(
                    (lhs_type, rhs_type),
                ) {
                    Action::Interact { lhs_type, rhs_type, swapped: false }
                } else if keys.contains((rhs_type, lhs_type)) {
                    Action::Interact { lhs_type: rhs_type, rhs_type: lhs_type, swapped: true }
                } else {
                    Action::NoRule { lhs_type, rhs_type }
                },
            },
        }
    }
}

/// The number of rule applications among the actions of `history`.
pub open spec fn interactions_in(history: Seq<Action>) -> nat {
    history.filter(|a: Action| a is Interact).len()
}

/// The number of tag resolutions (bindings and follow-throughs) among the
/// actions of `history`.
pub open spec fn name_ops_in(history: Seq<Action>) -> nat {
    history.filter(|a: Action| a is Bind || a is Follow).len()
}

/// Appending one action raises exactly the count it belongs to.
pub proof fn lemma_counts_push(history: Seq<Action>, action: Action)
    ensures
        interactions_in(history.push(action)) == interactions_in(history) + (if action is Interact {
            1nat
        } else {
            0nat
        }),
        name_ops_in(history.push(action)) == name_ops_in(history) + (if action is Bind
            || action is Follow {
            1nat
        } else {
            0nat
        }),
{
    let longer = history.push(action);
    assert(longer.drop_last() =~= history);
    assert(longer.last() == action);
    reveal(Seq::filter);
}

/// Tags only move forward under the engine's own actions: after a step that
/// applied no rule, every agent that is still in the net is what it was,
/// except the name that the step has bound. In particular an indirection
/// keeps its target for as long as it exists.
pub proof fn lemma_step_keeps_agents<R: Rule>(
    before: Machine<R>,
    after: Machine<R>,
    r: Result<bool, Error>,
)
    requires
        before.steps_to(after, r),
        before.saturated() || before.net().pending().len() == 0 || !(decide(
            before.net().agents(),
            before.rules().dom(),
            before.net().pending().first(),
        ) is Interact),
    ensures
        tags_monotone(before.net().agents(), after.net().agents()),
{
}

/// The rule says of itself that it changes no agent it leaves in place:
/// whatever it makes of a net, an indirection that is still there has kept
/// its target, and nothing has turned into something else under its id.
pub open spec fn keeps_agents<R: Rule>(rule: R) -> bool {
    forall|net: Net, ctx: Context, left: Net, done: Result<(), Error>| #[trigger]
        rule.rewrites(net, ctx, left, done) ==> tags_monotone(net.agents(), left.agents())
}

/// Tags only move forward under every step of a machine whose rules change
/// no agent they leave in place: after the step, every agent that is still
/// in the net is what it was, except the name that the step has bound. So
/// `is_ind` never goes back from true to false over a step, and an
/// indirection keeps its target for as long as it exists.
pub proof fn lemma_every_step_keeps_agents<R: Rule>(
    before: Machine<R>,
    after: Machine<R>,
    r: Result<bool, Error>,
)
    requires
        before.steps_to(after, r),
        forall|key: (usize, usize)| #[trigger]
            before.rules().contains_key(key) ==> keeps_agents(before.rules()[key]),
    ensures
        tags_monotone(before.net().agents(), after.net().agents()),
{
    if !before.saturated() && before.net().pending().len() > 0 {
        let action = decide(
            before.net().agents(),
            before.rules().dom(),
            before.net().pending().first(),
        );
        if action is Interact {
            let key = (action->Interact_lhs_type, action->Interact_rhs_type);
            assert(before.rules().contains_key(key));
            assert(keeps_agents(before.rules()[key]));
        } else {
            lemma_step_keeps_agents(before, after, r);
        }
    } else {
        lemma_step_keeps_agents(before, after, r);
    }
}

/// The same over a whole run: from each state that `run` or `par_run` passes
/// through to the next, and from the last of them to the state that is
/// left, tags only move forward, where the rules of the machine change no
/// agent they leave in place.
pub proof fn lemma_run_keeps_agents<R: Rule>(
    start: Machine<R>,
    trace: Seq<Machine<R>>,
    end: Machine<R>,
    r: Result<(u64, u64), Error>,
)
    requires
        start.runs_to(trace, end, r),
        forall|key: (usize, usize)| #[trigger]
            start.rules().contains_key(key) ==> keeps_agents(start.rules()[key]),
    ensures
        forall|i: int|
            0 <= i < trace.len() - 1 ==> tags_monotone(
                (#[trigger] trace[i]).net().agents(),
                trace[i + 1].net().agents(),
            ),
        tags_monotone(trace.last().net().agents(), end.net().agents()),
{
    lemma_trace_keeps_rules(start, trace, trace.len() - 1);
    assert forall|i: int| 0 <= i < trace.len() - 1 implies tags_monotone(
        (#[trigger] trace[i]).net().agents(),
        trace[i + 1].net().agents(),
    ) by {
        lemma_trace_keeps_rules(start, trace, i);
        lemma_every_step_keeps_agents(trace[i], trace[i + 1], Ok::<bool, Error>(true));
    }
    match r {
        Ok(_) => {
            lemma_every_step_keeps_agents(trace.last(), end, Ok::<bool, Error>(false));
        },
        Err(e) => {
            lemma_every_step_keeps_agents(trace.last(), end, Err::<bool, Error>(e));
        },
    }
}

/// The rules are the same in every state of a trace.
proof fn lemma_trace_keeps_rules<R: Rule>(start: Machine<R>, trace: Seq<Machine<R>>, at: int)
    requires
        trace.len() > 0,
        trace[0] == start,
        0 <= at < trace.len(),
        forall|i: int|
            0 <= i < trace.len() - 1 ==> (#[trigger] trace[i]).steps_to(
                trace[i + 1],
                Ok::<bool, Error>(true),
            ),
    ensures
        trace[at].rules() == start.rules(),
    decreases at,
{
    if at > 0 {
        lemma_trace_keeps_rules(start, trace, at - 1);
        assert(trace[at - 1].steps_to(trace[at - 1 + 1], Ok::<bool, Error>(true)));
        lemma_step_keeps_rules(trace[at - 1], trace[at], Ok::<bool, Error>(true));
    }
}

/// A step leaves the rules as they are.
pub proof fn lemma_step_keeps_rules<R: Rule>(
    before: Machine<R>,
    after: Machine<R>,
    r: Result<bool, Error>,
)
    requires
        before.steps_to(after, r),
    ensures
        after.rules() == before.rules(),
{
}

/// A rule that removes its two agents leaves neither behind: where the rule
/// applied by a step says of itself that the ids of its context hold no
/// agent once it has succeeded, the two agents of the reduced pair are gone
/// after the step.
pub proof fn lemma_step_consumes_pair<R: Rule>(before: Machine<R>, after: Machine<R>)
    requires
        before.steps_to(after, Ok::<bool, Error>(true)),
        !before.saturated(),
        before.net().pending().len() > 0,
        decide(
            before.net().agents(),
            before.rules().dom(),
            before.net().pending().first(),
        ) matches Action::Interact { lhs_type, rhs_type, .. } && forall|
            net: Net,
            ctx: Context,
            left: Net,
            done: Result<(), Error>,
        | #[trigger]
            before.rules()[(lhs_type, rhs_type)].rewrites(net, ctx, left, done) && done is Ok
                ==> !left.agents().contains_key(ctx.lhs_id) && !left.agents().contains_key(
                ctx.rhs_id,
            ),
    ensures
        !after.net().agents().contains_key(before.net().pending().first().0),
        !after.net().agents().contains_key(before.net().pending().first().1),
{
}

/// The sum of the first components of `tallies`.
pub open spec fn total_interactions(tallies: Seq<(u64, u64)>) -> int
    decreases tallies.len(),
{
    if tallies.len() == 0 {
        0
    } else {
        total_interactions(tallies.drop_last()) + tallies.last().0
    }
}

/// The sum of the second components of `tallies`.
pub open spec fn total_name_ops(tallies: Seq<(u64, u64)>) -> int
    decreases tallies.len(),
{
    if tallies.len() == 0 {
        0
    } else {
        total_name_ops(tallies.drop_last()) + tallies.last().1
    }
}

/// Changing one tally changes the totals by as much.
proof fn lemma_totals_update(tallies: Seq<(u64, u64)>, at: int, tally: (u64, u64))
    requires
        0 <= at < tallies.len(),
    ensures
        total_interactions(tallies.update(at, tally)) == total_interactions(tallies)
            - tallies[at].0 + tally.0,
        total_name_ops(tallies.update(at, tally)) == total_name_ops(tallies) - tallies[at].1
            + tally.1,
        0 <= tallies[at].0 <= total_interactions(tallies),
        0 <= tallies[at].1 <= total_name_ops(tallies),
    decreases tallies.len(),
{
    let changed = tallies.update(at, tally);
    lemma_totals_positive(tallies.drop_last());
    if at == tallies.len() - 1 {
        assert(changed.drop_last() =~= tallies.drop_last());
    } else {
        lemma_totals_update(tallies.drop_last(), at, tally);
        assert(changed.drop_last() =~= tallies.drop_last().update(at, tally));
    }
}

/// The totals of some of the first tallies do not exceed the totals of all.
proof fn lemma_totals_take(tallies: Seq<(u64, u64)>, k: int)
    requires
        0 <= k <= tallies.len(),
    ensures
        total_interactions(tallies.take(k)) <= total_interactions(tallies),
        total_name_ops(tallies.take(k)) <= total_name_ops(tallies),
    decreases tallies.len() - k,
{
    if k == tallies.len() {
        assert(tallies.take(k) =~= tallies);
    } else {
        lemma_totals_take(tallies.drop_last(), k);
        assert(tallies.drop_last().take(k) =~= tallies.take(k));
    }
}

/// Totals are not negative.
proof fn lemma_totals_positive(tallies: Seq<(u64, u64)>)
    ensures
        0 <= total_interactions(tallies),
        0 <= total_name_ops(tallies),
    decreases tallies.len(),
{
    if tallies.len() > 0 {
        lemma_totals_positive(tallies.drop_last());
    }
}

/// The two counters of a machine, with the actions they have counted.
struct Tally {
    interactions: u64,
    name_ops: u64,
    history: Ghost<Seq<Action>>,
}

impl Tally {
    #[verifier::type_invariant]
    spec fn inv(self) -> bool {
        &&& self.interactions == interactions_in(self.history@)
        &&& self.name_ops == name_ops_in(self.history@)
    }

    /// Nothing counted yet.
    fn new() -> (r: Tally)
        ensures
            r.interactions == 0,
            r.name_ops == 0,
            r.history@ == Seq::<Action>::empty(),
    {
        proof {
            reveal(Seq::filter);
        }
        Tally { interactions: 0, name_ops: 0, history: Ghost(Seq::empty()) }
    }

    /// Whether a counter has reached the largest value it can hold.
    fn saturated(&self) -> (r: bool)
        ensures
            r == (self.interactions == u64::MAX || self.name_ops == u64::MAX),
    {
        self.interactions == u64::MAX || self.name_ops == u64::MAX
    }

    /// The two counters, each the number of actions of its kind.
    fn counts(&self) -> (r: (u64, u64))
        ensures
            r == (self.interactions, self.name_ops),
            r.0 == interactions_in(self.history@),
            r.1 == name_ops_in(self.history@),
    {
        proof {
            use_type_invariant(self);
        }
        (self.interactions, self.name_ops)
    }

    /// Counts `action`: as a rule application where `interaction` is set, as
    /// a tag resolution where it is not.
    fn record(&mut self, Ghost(action): Ghost<Action>, interaction: bool)
        requires
            old(self).interactions < u64::MAX,
            old(self).name_ops < u64::MAX,
            interaction ==> action is Interact,
            !interaction ==> action is Bind || action is Follow,
        ensures
            final(self).history@ == old(self).history@.push(action),
            final(self).interactions == old(self).interactions + (if interaction {
                1int
            } else {
                0int
            }),
            final(self).name_ops == old(self).name_ops + (if interaction {
                0int
            } else {
                1int
            }),
    {
        proof {
            use_type_invariant(&*self);
            lemma_counts_push(self.history@, action);
        }
        let interactions = if interaction {
            self.interactions + 1
        } else {
            self.interactions
        };
        let name_ops = if interaction {
            self.name_ops
        } else {
            self.name_ops + 1
        };
        *self = Tally { interactions, name_ops, history: Ghost(self.history@.push(action)) };
    }
}

/// Collects agent types, rules, and the agents and pairs a net starts with.
pub struct MachineBuilder<R: Rule> {
    net: Net,
    rules: RuleTable<R>,
}

impl<R: Rule> MachineBuilder<R> {
    /// The net built so far.
    pub closed spec fn net(&self) -> Net {
        self.net
    }

    /// The rules registered so far.
    pub closed spec fn rules(&self) -> Map<(usize, usize), R> {
        self.rules@
    }

    /// Read access to the net built so far.
    pub fn as_net(&self) -> (r: &Net)
        ensures
            *r == self.net(),
    {
        &self.net
    }

    /// A builder whose net holds at most `cap` agents.
    pub fn with_capacity(cap: usize) -> (r: MachineBuilder<R>)
        ensures
            r.net().agents() == Map::<usize, AgentView>::empty(),
            r.net().pending() == Seq::<(usize, usize)>::empty(),
            r.net().types() == 0,
            r.net().cap() == cap,
            r.net().next_id() == 0,
            r.rules() == Map::<(usize, usize), R>::empty(),
    {
        MachineBuilder { net: Net::new(cap), rules: RuleTable::new() }
    }

    /// A builder whose net is bounded by the address space only.
    pub fn new() -> (r: MachineBuilder<R>)
        ensures
            r.net().agents() == Map::<usize, AgentView>::empty(),
            r.net().pending() == Seq::<(usize, usize)>::empty(),
            r.net().types() == 0,
            r.net().cap() == usize::MAX,
            r.net().next_id() == 0,
            r.rules() == Map::<(usize, usize), R>::empty(),
    {
        MachineBuilder::with_capacity(usize::MAX)
    }

    /// Registers a new agent type. Type ids count up from 0.
    pub fn new_type(&mut self) -> (r: usize)
        requires
            old(self).net().types() < usize::MAX,
        ensures
            r == old(self).net().types(),
            final(self).net().types() == r + 1,
            final(self).net().agents() == old(self).net().agents(),
            final(self).net().pending() == old(self).net().pending(),
            final(self).net().cap() == old(self).net().cap(),
            final(self).net().next_id() == old(self).net().next_id(),
            final(self).rules() == old(self).rules(),
    {
        self.net.add_type()
    }

    /// Registers `rule` for the ordered pair of types `(lhs, rhs)`,
    /// replacing a rule registered for that pair before.
    pub fn new_rule(&mut self, lhs: usize, rhs: usize, rule: R)
        ensures
            final(self).rules() == old(self).rules().insert((lhs, rhs), rule),
            final(self).net() == old(self).net(),
    {
        self.rules.insert(lhs, rhs, rule)
    }

    /// Creates a tag in its initial state, an unbound name.
    pub fn new_tag(&mut self) -> (r: Result<usize, Error>)
        ensures
            old(self).net().creates_tag(final(self).net(), r),
            final(self).rules() == old(self).rules(),
    {
        self.net.new_tag()
    }

    /// Creates a custom agent and queues the pair of it and `principal`;
    /// see [`Net::new_agent`].
    pub fn new_agent(&mut self, type_id: usize, principal: usize, aux: &[usize]) -> (r: Result<
        usize,
        Error,
    >)
        ensures
            old(self).net().creates_agent(type_id, principal, aux@, final(self).net(), r),
            final(self).rules() == old(self).rules(),
    {
        self.net.new_agent(type_id, principal, aux)
    }

    /// Seals the builder: the net and the rules move into a machine whose
    /// counters start at zero.
    pub fn seal(self) -> (r: Machine<R>)
        ensures
            r.net() == self.net(),
            r.rules() == self.rules(),
            r.history() == Seq::<Action>::empty(),
            r.interactions() == 0,
            r.name_ops() == 0,
    {
        Machine { net: self.net, rules: self.rules, tally: Tally::new() }
    }
}

/// A sealed net: the rules are fixed, the pairs are reduced by `step` and
/// `run`.
pub struct Machine<R: Rule> {
    net: Net,
    rules: RuleTable<R>,
    tally: Tally,
}

impl<R: Rule> Machine<R> {
    /// The net of the machine.
    pub closed spec fn net(&self) -> Net {
        self.net
    }

    /// The rules of the machine, by ordered pair of type ids.
    pub closed spec fn rules(&self) -> Map<(usize, usize), R> {
        self.rules@
    }

    /// The number of rule applications so far.
    pub closed spec fn interactions(&self) -> u64 {
        self.tally.interactions
    }

    /// The number of tag resolutions so far.
    pub closed spec fn name_ops(&self) -> u64 {
        self.tally.name_ops
    }

    /// The actions performed so far, oldest first.
    pub closed spec fn history(&self) -> Seq<Action> {
        self.tally.history@
    }

    /// Whether a counter has reached the largest value it can hold.
    pub open spec fn saturated(&self) -> bool {
        self.interactions() == u64::MAX || self.name_ops() == u64::MAX
    }

    /// `after` has the rules, counters and history of this machine.
    pub open spec fn same_record(&self, after: Machine<R>) -> bool {
        &&& after.rules() == self.rules()
        &&& after.interactions() == self.interactions()
        &&& after.name_ops() == self.name_ops()
        &&& after.history() == self.history()
    }

    /// `after` is this machine once `action` was counted.
    pub open spec fn counted(&self, action: Action, after: Machine<R>) -> bool {
        &&& after.rules() == self.rules()
        &&& after.history() == self.history().push(action)
        &&& after.interactions() == self.interactions() + (if action is Interact {
            1int
        } else {
            0int
        })
        &&& after.name_ops() == self.name_ops() + (if action is Interact {
            0int
        } else {
            1int
        })
    }

    /// The context in which a rule sees the pair: as it stands, or with its
    /// sides exchanged when the rule was found for the swapped types.
    pub open spec fn context_for(&self, pair: (usize, usize), swapped: bool, ctx: Context) -> bool {
        let agents = self.net().agents();
        let (lhs, rhs) = if swapped {
            (pair.1, pair.0)
        } else {
            pair
        };
        &&& ctx.lhs_id == lhs
        &&& ctx.rhs_id == rhs
        &&& ctx.lhs_ports@ == agents[lhs]->ports
        &&& ctx.rhs_ports@ == agents[rhs]->ports
    }

    /// One call of `step` on this machine may return `r` and leave `after`.
    ///
    /// Nothing happens when a counter is saturated or no pair is pending.
    /// Otherwise the oldest pair leaves the queue and [`decide`] says what is
    /// done with it. For an interaction the net is what the rule makes of
    /// the net without that pair; the interaction is counted when the rule
    /// succeeds, and the rule's error is the step's error when it fails.
    pub open spec fn steps_to(&self, after: Machine<R>, r: Result<bool, Error>) -> bool {
        if self.saturated() {
            r == Err::<bool, Error>(Error::CounterOverflow) && self.same_record(after)
                && self.net().same_as(after.net())
        } else if self.net().pending().len() == 0 {
            r == Ok::<bool, Error>(false) && self.same_record(after) && self.net().same_as(
                after.net(),
            )
        } else {
            let agents = self.net().agents();
            let pair = self.net().pending().first();
            let rest = self.net().pending().drop_first();
            let action = decide(agents, self.rules().dom(), pair);
            match action {
                Action::Missing { id } => {
                    &&& r == Err::<bool, Error>(Error::MissingAgent { id })
                    &&& self.same_record(after)
                    &&& after.net().agents() == agents
                    &&& after.net().pending() == rest
                    &&& after.net().types() == self.net().types()
                    &&& after.net().cap() == self.net().cap()
                },
                Action::NoRule { lhs_type, rhs_type } => {
                    &&& r == Err::<bool, Error>(Error::NoRule { lhs_type, rhs_type })
                    &&& self.same_record(after)
                    &&& after.net().agents() == agents
                    &&& after.net().pending() == rest
                    &&& after.net().types() == self.net().types()
                    &&& after.net().cap() == self.net().cap()
                },
                Action::Bind { tag, to } => {
                    &&& r == Ok::<bool, Error>(true)
                    &&& self.counted(action, after)
                    &&& after.net().agents() == agents.insert(
                        tag,
                        AgentView::Tag { is_ind: true, target: to },
                    )
                    &&& after.net().pending() == rest
                    &&& after.net().types() == self.net().types()
                    &&& after.net().cap() == self.net().cap()
                },
                Action::Follow { tag, lhs, rhs } => {
                    &&& r == Ok::<bool, Error>(true)
                    &&& self.counted(action, after)
                    &&& after.net().agents() == agents.remove(tag)
                    &&& after.net().pending() == rest.push((lhs, rhs))
                    &&& after.net().types() == self.net().types()
                    &&& after.net().cap() == self.net().cap()
                },
                Action::Interact { lhs_type, rhs_type, swapped } => {
                    exists|before: Net, ctx: Context, done: Result<(), Error>|
                        {
                            &&& before.agents() == agents
                            &&& before.pending() == rest
                            &&& before.types() == self.net().types()
                            &&& before.cap() == self.net().cap()
                            &&& before.next_id() == self.net().next_id()
                            &&& self.context_for(pair, swapped, ctx)
                            &&& #[trigger] self.rules()[(lhs_type, rhs_type)].rewrites(
                                before,
                                ctx,
                                after.net(),
                                done,
                            )
                            &&& match done {
                                Ok(_) => r == Ok::<bool, Error>(true) && self.counted(
                                    action,
                                    after,
                                ),
                                Err(e) => r == Err::<bool, Error>(e) && self.same_record(after),
                            }
                        }
                },
            }
        }
    }

    /// One call of `run` on this machine may pass through the states of
    /// `trace`, return `r` and leave `end`: every state but the last takes a
    /// reducing step to the next one, and the last one takes the step that
    /// ends the run, which finds nothing pending or fails.
    pub open spec fn runs_to(
        &self,
        trace: Seq<Machine<R>>,
        end: Machine<R>,
        r: Result<(u64, u64), Error>,
    ) -> bool {
        &&& trace.len() > 0
        &&& trace[0] == *self
        &&& forall|i: int|
            0 <= i < trace.len() - 1 ==> (#[trigger] trace[i]).steps_to(
                trace[i + 1],
                Ok::<bool, Error>(true),
            )
        &&& match r {
            Ok(counts) => trace.last().steps_to(end, Ok::<bool, Error>(false)) && counts == (
                end.interactions(),
                end.name_ops(),
            ),
            Err(e) => trace.last().steps_to(end, Err::<bool, Error>(e)),
        }
    }

    /// Read access to the net of the machine.
    pub fn as_net(&self) -> (r: &Net)
        ensures
            *r == self.net(),
    {
        &self.net
    }

    /// A machine with an empty net, no types and no rules, as
    /// `MachineBuilder::new().seal()` gives it.
    pub fn new() -> (r: Machine<R>)
        ensures
            r.net().agents() == Map::<usize, AgentView>::empty(),
            r.net().pending() == Seq::<(usize, usize)>::empty(),
            r.net().types() == 0,
            r.net().cap() == usize::MAX,
            r.net().next_id() == 0,
            r.rules() == Map::<(usize, usize), R>::empty(),
            r.history() == Seq::<Action>::empty(),
            r.interactions() == 0,
            r.name_ops() == 0,
    {
        MachineBuilder::new().seal()
    }

    /// Creates a tag in its initial state, an unbound name.
    pub fn new_name(&mut self) -> (r: Result<usize, Error>)
        ensures
            old(self).net().creates_tag(final(self).net(), r),
            old(self).same_record(*final(self)),
    {
        self.net.new_tag()
    }

    /// Creates a custom agent and queues the pair of it and `principal`;
    /// see [`Net::new_agent`].
    pub fn new_agent(&mut self, type_id: usize, principal: usize, aux: &[usize]) -> (r: Result<
        usize,
        Error,
    >)
        ensures
            old(self).net().creates_agent(type_id, principal, aux@, final(self).net(), r),
            old(self).same_record(*final(self)),
    {
        self.net.new_agent(type_id, principal, aux)
    }

    /// Creates a custom agent and queues the pair of it and `principal`.
    /// This is [`Machine::new_agent`] under its longer name: an agent is
    /// never created without its pair.
    pub fn new_agent_and_eq(&mut self, type_id: usize, principal: usize, aux: &[usize]) -> (r:
        Result<usize, Error>)
        ensures
            old(self).net().creates_agent(type_id, principal, aux@, final(self).net(), r),
            old(self).same_record(*final(self)),
    {
        self.new_agent(type_id, principal, aux)
    }

    /// Queues the pair `(lhs, rhs)` without creating an agent.
    pub fn new_eq(&mut self, lhs: usize, rhs: usize)
        ensures
            old(self).net().queues((lhs, rhs), final(self).net()),
            old(self).same_record(*final(self)),
    {
        self.net.new_eq(lhs, rhs)
    }

    /// The agent under `id`, if there is one.
    pub fn get_agent(&self, id: usize) -> (r: Option<&Agent>)
        ensures
            match r {
                Some(agent) => self.net().agents().contains_key(id) && agent@
                    == self.net().agents()[id],
                None => !self.net().agents().contains_key(id),
            },
    {
        self.net.get_agent(id)
    }

    /// Reads through indirections: the id of the name or custom agent that
    /// `id` leads to; see [`Net::resolve`].
    pub fn resolve(&self, id: usize) -> (r: Option<usize>)
        ensures
            r == walk(self.net().agents(), id, self.net().agents().dom().len()),
            forall|hops: nat|
                (#[trigger] walk(self.net().agents(), id, hops)) is Some ==> r == walk(
                    self.net().agents(),
                    id,
                    hops,
                ),
    {
        self.net.resolve(id)
    }

    /// Removes the agent under `id`; `true` when there was one.
    pub fn remove_agent(&mut self, id: usize) -> (r: bool)
        ensures
            old(self).net().removes(id, final(self).net(), r),
            old(self).same_record(*final(self)),
    {
        self.net.remove_agent(id)
    }

    /// Removes every agent that is one of `roots` or can be reached from one
    /// of them; see [`Net::drop_reachable`].
    pub fn drop_reachable(&mut self, roots: Vec<usize>)
        ensures
            final(self).net().agents() == swept(old(self).net().agents(), roots@),
            final(self).net().pending() == old(self).net().pending(),
            final(self).net().types() == old(self).net().types(),
            final(self).net().cap() == old(self).net().cap(),
            old(self).same_record(*final(self)),
    {
        self.net.drop_reachable(roots)
    }

    /// The counters: rule applications and tag resolutions. Each equals the
    /// number of actions of its kind in the history.
    pub fn counters(&self) -> (r: (u64, u64))
        ensures
            r == (self.interactions(), self.name_ops()),
            r.0 == interactions_in(self.history()),
            r.1 == name_ops_in(self.history()),
    {
        self.tally.counts()
    }

    /// Reduces the oldest pending pair.
    ///
    /// `Ok(true)` after a reduction, `Ok(false)` when nothing is pending;
    /// see [`Machine::steps_to`] for the state that is left.
    pub fn step(&mut self) -> (r: Result<bool, Error>)
        ensures
            old(self).steps_to(*final(self), r),
    {
        if self.tally.saturated() {
            return Err(Error::CounterOverflow);
        }
        let (l, r) = match self.net.pop_pair() {
            Some(pair) => pair,
            None => {
                return Ok(false);
            },
        };
        let ghost action = decide(old(self).net().agents(), self.rules().dom(), (l, r));
        if self.net.get_agent(l).is_none() {
            return Err(Error::MissingAgent { id: l });
        }
        if self.net.get_agent(r).is_none() {
            return Err(Error::MissingAgent { id: r });
        }
        match self.net.bind_tag(r, l) {
            Some(Ok(_)) => {
                self.tally.record(Ghost(action), false);
                return Ok(true);
            },
            Some(Err(target)) => {
                self.net.remove_agent(r);
                self.net.new_eq(l, target);
                self.tally.record(Ghost(action), false);
                return Ok(true);
            },
            None => {},
        }
        match self.net.bind_tag(l, r) {
            Some(Ok(_)) => {
                self.tally.record(Ghost(action), false);
                return Ok(true);
            },
            Some(Err(target)) => {
                self.net.remove_agent(l);
                self.net.new_eq(target, r);
                self.tally.record(Ghost(action), false);
                return Ok(true);
            },
            None => {},
        }
        let (lhs_type, lhs_ports) = self.custom_parts(l);
        let (rhs_type, rhs_ports) = self.custom_parts(r);
        let mut ctx = Context { lhs_id: l, rhs_id: r, lhs_ports, rhs_ports };
        let ghost before = self.net;
        let done = match self.rules.get(lhs_type, rhs_type) {
            Some(rule) => rule.apply(&mut self.net, &ctx),
            None => match self.rules.get(rhs_type, lhs_type) {
                Some(rule) => {
                    ctx.reverse();
                    rule.apply(&mut self.net, &ctx)
                },
                None => {
                    return Err(Error::NoRule { lhs_type, rhs_type });
                },
            },
        };
        let ghost rule = self.rules()[(action->Interact_lhs_type, action->Interact_rhs_type)];
        let result = match done {
            Ok(_) => {
                self.tally.record(Ghost(action), true);
                Ok(true)
            },
            Err(e) => Err(e),
        };
        proof {
            assert(old(self).context_for((l, r), action->swapped, ctx));
            assert(rule.rewrites(before, ctx, self.net(), done));
        }
        result
    }

    /// Reduces pending pairs, oldest first, until none is left or a step
    /// fails, and returns the counters of rule applications and of tag
    /// resolutions.
    ///
    /// The machine passes through a sequence of states as
    /// [`Machine::runs_to`] describes it. On `Ok` nothing is pending, and
    /// the two numbers count the actions of their kind in the history.
    pub fn run(&mut self) -> (r: Result<(u64, u64), Error>)
        ensures
            exists|trace: Seq<Machine<R>>| old(self).runs_to(trace, *final(self), r),
            final(self).rules() == old(self).rules(),
            old(self).history().is_prefix_of(final(self).history()),
            r matches Ok(counts) ==> {
                &&& final(self).net().pending().len() == 0
                &&& counts.0 == interactions_in(final(self).history())
                &&& counts.1 == name_ops_in(final(self).history())
            },
    {
        let ghost mut trace: Seq<Machine<R>> = seq![*self];
        loop
            invariant
                trace.len() > 0,
                trace[0] == *old(self),
                trace.last() == *self,
                self.rules() == old(self).rules(),
                old(self).history().is_prefix_of(self.history()),
                forall|i: int|
                    0 <= i < trace.len() - 1 ==> (#[trigger] trace[i]).steps_to(
                        trace[i + 1],
                        Ok::<bool, Error>(true),
                    ),
            decreases (u64::MAX - self.interactions()) + (u64::MAX - self.name_ops()),
        {
            let ghost prev = *self;
            match self.step() {
                Ok(true) => {
                    proof {
                        trace = trace.push(*self);
                    }
                },
                Ok(false) => {
                    let counts = self.counters();
                    proof {
                        assert(old(self).runs_to(trace, *self, Ok::<(u64, u64), Error>(counts)));
                    }
                    return Ok(counts);
                },
                Err(e) => {
                    proof {
                        assert(old(self).runs_to(trace, *self, Err::<(u64, u64), Error>(e)));
                    }
                    return Err(e);
                },
            }
        }
    }

    /// Reduces the net as [`Machine::run`] does, with the work shared out
    /// among `workers` workers.
    ///
    /// The workers take turns at the queue: each one reduces the oldest
    /// pending pair when its turn comes, and keeps its own tally of rule
    /// applications and tag resolutions. When a worker finds the queue empty
    /// all of them are idle and the evaluation ends; the tallies are then
    /// added up, and the sums come on top of what the machine had counted
    /// before. The machine itself starts no thread; without a worker nothing
    /// is reduced.
    pub fn par_run(&mut self, workers: usize) -> (r: Result<(u64, u64), Error>)
        ensures
            final(self).rules() == old(self).rules(),
            old(self).history().is_prefix_of(final(self).history()),
            workers == 0 ==> r == Ok::<(u64, u64), Error>(
                (old(self).interactions(), old(self).name_ops()),
            ) && old(self).same_record(*final(self)) && old(self).net().same_as(
                final(self).net(),
            ),
            workers > 0 ==> exists|trace: Seq<Machine<R>>|
                old(self).runs_to(trace, *final(self), r),
            workers > 0 && r is Ok ==> final(self).net().pending().len() == 0,
            r matches Ok(counts) ==> {
                &&& counts.0 == interactions_in(final(self).history())
                &&& counts.1 == name_ops_in(final(self).history())
            },
    {
        let first = self.counters();
        if workers == 0 {
            return Ok(first);
        }
        let mut tallies: Vec<(u64, u64)> = Vec::new();
        while tallies.len() < workers
            invariant
                tallies.len() <= workers,
                total_interactions(tallies@) == 0,
                total_name_ops(tallies@) == 0,
            decreases workers - tallies.len(),
        {
            proof {
                assert(tallies@.push((0u64, 0u64)).drop_last() =~= tallies@);
            }
            tallies.push((0, 0));
        }
        let ghost mut trace: Seq<Machine<R>> = seq![*self];
        let mut turn: usize = 0;
        let mut busy = true;
        while busy
            invariant
                workers > 0,
                tallies.len() == workers,
                turn < workers,
                first == (old(self).interactions(), old(self).name_ops()),
                total_interactions(tallies@) == self.interactions() - first.0,
                total_name_ops(tallies@) == self.name_ops() - first.1,
                trace.len() > 0,
                trace[0] == *old(self),
                busy ==> trace.last() == *self,
                !busy ==> trace.last().steps_to(*self, Ok::<bool, Error>(false)),
                self.rules() == old(self).rules(),
                old(self).history().is_prefix_of(self.history()),
                forall|i: int|
                    0 <= i < trace.len() - 1 ==> (#[trigger] trace[i]).steps_to(
                        trace[i + 1],
                        Ok::<bool, Error>(true),
                    ),
            decreases
                    (u64::MAX - self.interactions()) + (u64::MAX - self.name_ops()) + (if busy {
                        1int
                    } else {
                        0int
                    }),
        {
            let before = self.counters();
            match self.step() {
                Ok(true) => {
                    let after = self.counters();
                    let tally = tallies[turn];
                    proof {
                        trace = trace.push(*self);
                        lemma_totals_update(
                            tallies@,
                            turn as int,
                            (
                                (tally.0 + (after.0 - before.0)) as u64,
                                (tally.1 + (after.1 - before.1)) as u64,
                            ),
                        );
                    }
                    tallies.set(
                        turn,
                        (tally.0 + (after.0 - before.0), tally.1 + (after.1 - before.1)),
                    );
                    turn = if turn + 1 == workers {
                        0
                    } else {
                        turn + 1
                    };
                },
                Ok(false) => {
                    busy = false;
                },
                Err(e) => {
                    proof {
                        assert(old(self).runs_to(trace, *self, Err::<(u64, u64), Error>(e)));
                    }
                    return Err(e);
                },
            }
        }
        let mut merged = first;
        let mut i: usize = 0;
        while i < workers
            invariant
                i <= workers,
                tallies.len() == workers,
                merged.0 == first.0 + total_interactions(tallies@.take(i as int)),
                merged.1 == first.1 + total_name_ops(tallies@.take(i as int)),
                first.0 + total_interactions(tallies@) <= u64::MAX,
                first.1 + total_name_ops(tallies@) <= u64::MAX,
            decreases workers - i,
        {
            proof {
                assert(tallies@.take(i + 1).drop_last() =~= tallies@.take(i as int));
                lemma_totals_take(tallies@, i + 1);
            }
            merged = (merged.0 + tallies[i].0, merged.1 + tallies[i].1);
            i = i + 1;
        }
        proof {
            assert(tallies@.take(workers as int) =~= tallies@);
            assert(old(self).runs_to(trace, *self, Ok::<(u64, u64), Error>(merged)));
        }
        let counts = self.counters();
        assert(merged == counts);
        Ok(merged)
    }

    /// The type and a copy of the ports of the custom agent under `id`.
    fn custom_parts(&self, id: usize) -> (r: (usize, Vec<usize>))
        requires
            self.net().agents().contains_key(id),
            self.net().agents()[id] is Custom,
        ensures
            r.0 == self.net().agents()[id]->type_id,
            r.1@ == self.net().agents()[id]->ports,
    {
        match self.net.get_agent(id) {
            Some(Agent::Custom { type_id, ports }) => (*type_id, copy_ids(ports.as_slice())),
            _ => {
                proof {
                    assert(false);
                }
                unreached()
            },
        }
    }
}

} // verus!

//! The agent store: a slab that hands out stable integer ids.
use crate::agent::{tags_monotone, Agent, AgentView};
use std::collections::HashSet;
use vstd::prelude::*;

verus! {

/// A slab of agent slots.
///
/// Viewed as a map from the ids in use to the agents they hold. A cleared
/// slot goes to a free list and is handed out again before the slab grows.
pub struct AgentStore {
    slots: Vec<Option<Agent>>,
    free: Vec<usize>,
    cap: usize,
}

/// The map that a vector of slots stands for.
spec fn slots_view(slots: Seq<Option<Agent>>) -> Map<usize, AgentView> {
    Map::new(
        |id: usize| id < slots.len() && slots[id as int] is Some,
        |id: usize| slots[id as int]->0@,
    )
}

/// The free list names every vacant slot exactly once, and nothing else.
spec fn free_list_exact(slots: Seq<Option<Agent>>, free: Seq<usize>) -> bool {
    &&& forall|i: int|
        0 <= i < free.len() ==> (#[trigger] free[i]) < slots.len() && slots[free[i] as int] is None
    &&& forall|i: int, j: int| 0 <= i < j < free.len() ==> free[i] != free[j]
    &&& forall|k: int|
        0 <= k < slots.len() && (#[trigger] slots[k]) is None ==> free.contains(k as usize)
}

/// What holds of the parts of every store.
spec fn slab_ok(slots: Seq<Option<Agent>>, free: Seq<usize>, cap: usize) -> bool {
    &&& slots.len() <= cap
    &&& free_list_exact(slots, free)
    &&& slots_view(slots).dom().finite()
    &&& slots_view(slots).dom().len() + free.len() == slots.len()
}

/// Filling the vacant slot named last in the free list.
proof fn lemma_fill_last_free(
    slots: Seq<Option<Agent>>,
    free: Seq<usize>,
    cap: usize,
    agent: Agent,
)
    requires
        slab_ok(slots, free, cap),
        free.len() > 0,
    ensures
        free.last() < slots.len(),
        !slots_view(slots).contains_key(free.last()),
        slab_ok(slots.update(free.last() as int, Some(agent)), free.drop_last(), cap),
        slots_view(slots.update(free.last() as int, Some(agent))) == slots_view(slots).insert(
            free.last(),
            agent@,
        ),
{
    let id = free.last();
    let slots2 = slots.update(id as int, Some(agent));
    let free2 = free.drop_last();
    assert(free[free.len() - 1] == id);
    assert(slots_view(slots2) =~= slots_view(slots).insert(id, agent@));
    assert forall|k: int| 0 <= k < slots2.len() && (#[trigger] slots2[k]) is None implies free2.contains(
        k as usize,
    ) by {
        assert(slots[k] is None);
        let i = choose|i: int| 0 <= i < free.len() && free[i] == k as usize;
        assert(i != free.len() - 1);
        assert(free2[i] == k as usize);
    }
}

/// Growing the slab by one occupied slot.
proof fn lemma_grow(slots: Seq<Option<Agent>>, free: Seq<usize>, cap: usize, agent: Agent)
    requires
        slab_ok(slots, free, cap),
        slots.len() < cap,
    ensures
        !slots_view(slots).contains_key(slots.len() as usize),
        slab_ok(slots.push(Some(agent)), free, cap),
        slots_view(slots.push(Some(agent))) == slots_view(slots).insert(
            slots.len() as usize,
            agent@,
        ),
{
    let slots2 = slots.push(Some(agent));
    assert(slots_view(slots2) =~= slots_view(slots).insert(slots.len() as usize, agent@));
    assert forall|k: int| 0 <= k < slots2.len() && (#[trigger] slots2[k]) is None implies free.contains(
        k as usize,
    ) by {
        assert(slots[k] is None);
    }
}

/// Vacating an occupied slot.
proof fn lemma_vacate(slots: Seq<Option<Agent>>, free: Seq<usize>, cap: usize, id: usize)
    requires
        slab_ok(slots, free, cap),
        id < slots.len(),
        slots[id as int] is Some,
    ensures
        slab_ok(slots.update(id as int, None), free.push(id), cap),
        slots_view(slots.update(id as int, None)) == slots_view(slots).remove(id),
{
    let slots2 = slots.update(id as int, None);
    let free2 = free.push(id);
    assert(slots_view(slots2) =~= slots_view(slots).remove(id));
    assert(slots_view(slots).contains_key(id));
    assert forall|k: int| 0 <= k < slots2.len() && (#[trigger] slots2[k]) is None implies free2.contains(
        k as usize,
    ) by {
        if k == id as int {
            assert(free2[free.len() as int] == id);
        } else {
            assert(slots[k] is None);
            let i = choose|i: int| 0 <= i < free.len() && free[i] == k as usize;
            assert(free2[i] == k as usize);
        }
    }
}

/// Replacing the agent in an occupied slot.
proof fn lemma_replace(
    slots: Seq<Option<Agent>>,
    free: Seq<usize>,
    cap: usize,
    id: usize,
    agent: Agent,
)
    requires
        slab_ok(slots, free, cap),
        id < slots.len(),
        slots[id as int] is Some,
    ensures
        slab_ok(slots.update(id as int, Some(agent)), free, cap),
        slots_view(slots.update(id as int, Some(agent))) == slots_view(slots).insert(id, agent@),
{
    let slots2 = slots.update(id as int, Some(agent));
    assert(slots_view(slots2) =~= slots_view(slots).insert(id, agent@));
    assert(slots_view(slots).contains_key(id));
    assert(slots_view(slots2).dom() =~= slots_view(slots).dom());
    assert forall|k: int| 0 <= k < slots2.len() && (#[trigger] slots2[k]) is None implies free.contains(
        k as usize,
    ) by {
        assert(slots[k] is None);
    }
}

/// `path` walks through agents of `agents`, each one pointing to the next.
pub open spec fn is_path(agents: Map<usize, AgentView>, path: Seq<usize>) -> bool {
    &&& path.len() > 0
    &&& forall|i: int| 0 <= i < path.len() ==> agents.contains_key(#[trigger] path[i])
    &&& forall|i: int|
        0 <= i < path.len() - 1 ==> agents[#[trigger] path[i]].refs().contains(path[i + 1])
}

/// `id` holds an agent that is one of `roots` or that a path from one of
/// `roots` leads to.
pub open spec fn reachable(agents: Map<usize, AgentView>, roots: Seq<usize>, id: usize) -> bool {
    exists|path: Seq<usize>|
        #[trigger] is_path(agents, path) && roots.contains(path[0]) && path.last() == id
}

/// The agents that are left once everything reachable from `roots` is gone.
pub open spec fn swept(agents: Map<usize, AgentView>, roots: Seq<usize>) -> Map<usize, AgentView> {
    agents.remove_keys(Set::new(|id: usize| reachable(agents, roots, id)))
}

/// An agent that a reachable agent points to is reachable.
proof fn lemma_reach_next(agents: Map<usize, AgentView>, roots: Seq<usize>, id: usize, next: usize)
    requires
        reachable(agents, roots, id),
        agents[id].refs().contains(next),
        agents.contains_key(next),
    ensures
        reachable(agents, roots, next),
{
    let path = choose|path: Seq<usize>|
        #[trigger] is_path(agents, path) && roots.contains(path[0]) && path.last() == id;
    let longer = path.push(next);
    assert forall|i: int| 0 <= i < longer.len() - 1 implies agents[#[trigger] longer[i]].refs().contains(
        longer[i + 1],
    ) by {
        if i < path.len() - 1 {
            assert(longer[i] == path[i]);
        }
    }
    assert(is_path(agents, longer));
    assert(longer[0] == path[0]);
}

/// A live root is reachable.
proof fn lemma_reach_root(agents: Map<usize, AgentView>, roots: Seq<usize>, id: usize)
    requires
        roots.contains(id),
        agents.contains_key(id),
    ensures
        reachable(agents, roots, id),
{
    let path = seq![id];
    assert(is_path(agents, path));
    assert(path[0] == id);
}

/// Clearing the agent `gone` and putting on the work list what it points to
/// and still is there loses no way to an agent: where a path led to its end
/// from the old work list or from what `gone` points to, a path that avoids
/// `gone` leads there from the new work list.
proof fn lemma_reach_without(
    agents: Map<usize, AgentView>,
    gone: usize,
    work: Seq<usize>,
    work_after: Seq<usize>,
    path: Seq<usize>,
)
    requires
        agents.contains_key(gone),
        is_path(agents, path),
        path.last() != gone,
        work.contains(path[0]) || agents[gone].refs().contains(path[0]),
        forall|v: usize| work.contains(v) && v != gone ==> work_after.contains(v),
        forall|v: usize|
            agents[gone].refs().contains(v) && agents.remove(gone).contains_key(v)
                ==> work_after.contains(v),
    ensures
        reachable(agents.remove(gone), work_after, path.last()),
    decreases path.len(),
{
    if exists|k: int| 0 <= k < path.len() && path[k] == gone {
        let k = choose|k: int| 0 <= k < path.len() && path[k] == gone;
        let rest = path.subrange(k + 1, path.len() as int);
        assert(rest.len() > 0);
        assert forall|i: int| 0 <= i < rest.len() implies agents.contains_key(
            #[trigger] rest[i],
        ) by {
            assert(rest[i] == path[k + 1 + i]);
        }
        assert forall|i: int| 0 <= i < rest.len() - 1 implies agents[#[trigger] rest[i]].refs().contains(
            rest[i + 1],
        ) by {
            assert(rest[i] == path[k + 1 + i]);
            assert(rest[i + 1] == path[k + 1 + i + 1]);
        }
        assert(rest[0] == path[k + 1]);
        assert(agents[path[k]].refs().contains(path[k + 1]));
        assert(rest.last() == path.last());
        lemma_reach_without(agents, gone, work, work_after, rest);
    } else {
        let left = agents.remove(gone);
        assert forall|i: int| 0 <= i < path.len() implies left.contains_key(#[trigger] path[i]) by {}
        assert forall|i: int| 0 <= i < path.len() - 1 implies left[#[trigger] path[i]].refs().contains(
            path[i + 1],
        ) by {}
        assert(is_path(left, path));
        assert(left.contains_key(path[0]));
    }
}

/// What holds while a sweep is under way. `start` is the store at its
/// beginning and `live` the store now; `work` is the work list and `visited`
/// the set of ids that have been on it.
///
/// Nothing has changed but that agents were cleared, and only reachable ones
/// were; what is on the work list is reachable; every reachable agent that is
/// still there can be reached from the work list through agents that are
/// still there; and an id that has been on the work list is on it still or
/// holds nothing any more.
spec fn sweeping(
    start: Map<usize, AgentView>,
    roots: Seq<usize>,
    live: Map<usize, AgentView>,
    work: Seq<usize>,
    visited: Set<usize>,
) -> bool {
    &&& live.submap_of(start)
    &&& forall|id: usize|
        start.contains_key(id) && !live.contains_key(id) ==> reachable(start, roots, id)
    &&& forall|i: int|
        0 <= i < work.len() && start.contains_key(#[trigger] work[i]) ==> reachable(
            start,
            roots,
            work[i],
        )
    &&& forall|id: usize|
        reachable(start, roots, id) && live.contains_key(id) ==> reachable(live, work, id)
    &&& forall|v: usize| visited.contains(v) ==> work.contains(v) || !live.contains_key(v)
}

/// `after` is `before` with ids of `refs` behind it, and every id of `refs`
/// is on it or was visited before; `visited` holds nothing but what was
/// visited before or is on the list.
spec fn expanded(
    before: Seq<usize>,
    seen: Set<usize>,
    refs: Seq<usize>,
    after: Seq<usize>,
    visited: Set<usize>,
) -> bool {
    &&& before.len() <= after.len()
    &&& forall|i: int| 0 <= i < before.len() ==> after[i] == before[i]
    &&& forall|i: int| before.len() <= i < after.len() ==> refs.contains(#[trigger] after[i])
    &&& forall|i: int|
        0 <= i < refs.len() ==> after.contains(#[trigger] refs[i]) || seen.contains(refs[i])
    &&& forall|v: usize| visited.contains(v) ==> seen.contains(v) || after.contains(v)
}

/// A sweep starts with the roots on the work list, each once.
proof fn lemma_sweep_starts(
    start: Map<usize, AgentView>,
    roots: Seq<usize>,
    work: Seq<usize>,
    visited: Set<usize>,
)
    requires
        forall|j: int| 0 <= j < roots.len() ==> work.contains(#[trigger] roots[j]),
        forall|j: int| 0 <= j < work.len() ==> roots.contains(#[trigger] work[j]),
        forall|v: usize| visited.contains(v) ==> work.contains(v),
    ensures
        sweeping(start, roots, start, work, visited),
{
    assert forall|i: int| 0 <= i < work.len() && start.contains_key(
        #[trigger] work[i],
    ) implies reachable(start, roots, work[i]) by {
        lemma_reach_root(start, roots, work[i]);
    }
    assert forall|x: usize| reachable(start, roots, x) implies reachable(start, work, x) by {
        let path = choose|path: Seq<usize>| #[trigger]
            is_path(start, path) && roots.contains(path[0]) && path.last() == x;
        let j = choose|j: int| 0 <= j < roots.len() && roots[j] == path[0];
        assert(work.contains(roots[j]));
    }
}

/// An id that holds nothing is dropped from the work list.
proof fn lemma_sweep_skips(
    start: Map<usize, AgentView>,
    roots: Seq<usize>,
    live: Map<usize, AgentView>,
    work: Seq<usize>,
    visited: Set<usize>,
)
    requires
        sweeping(start, roots, live, work, visited),
        work.len() > 0,
        !live.contains_key(work.last()),
    ensures
        sweeping(start, roots, live, work.drop_last(), visited),
{
    let rest = work.drop_last();
    assert forall|v: usize| work.contains(v) && v != work.last() implies rest.contains(v) by {
        let i = choose|i: int| 0 <= i < work.len() && work[i] == v;
        assert(rest[i] == v);
    }
    assert forall|i: int| 0 <= i < rest.len() && start.contains_key(
        #[trigger] rest[i],
    ) implies reachable(start, roots, rest[i]) by {
        assert(rest[i] == work[i]);
    }
    assert forall|x: usize| reachable(start, roots, x) && live.contains_key(x) implies reachable(
        live,
        rest,
        x,
    ) by {
        let path = choose|path: Seq<usize>| #[trigger]
            is_path(live, path) && work.contains(path[0]) && path.last() == x;
        assert(live.contains_key(path[0]));
        assert(rest.contains(path[0]));
    }
}

/// An agent is cleared once what it points to is on the work list.
proof fn lemma_sweep_clears(
    start: Map<usize, AgentView>,
    roots: Seq<usize>,
    live: Map<usize, AgentView>,
    work: Seq<usize>,
    seen: Set<usize>,
    after: Seq<usize>,
    visited: Set<usize>,
)
    requires
        sweeping(start, roots, live, work, seen),
        work.len() > 0,
        live.contains_key(work.last()),
        expanded(work.drop_last(), seen, live[work.last()].refs(), after, visited),
    ensures
        sweeping(start, roots, live.remove(work.last()), after, visited),
{
    let id = work.last();
    let base = work.drop_last();
    let refs = live[id].refs();
    let left = live.remove(id);
    assert(work[work.len() - 1] == id);
    assert(start.contains_key(id) && start[id] == live[id]);
    assert(reachable(start, roots, id));
    assert forall|v: usize| work.contains(v) && v != id implies after.contains(v) by {
        let i = choose|i: int| 0 <= i < work.len() && work[i] == v;
        assert(base[i] == v);
        assert(after[i] == v);
    }
    assert forall|v: usize| refs.contains(v) && left.contains_key(v) implies after.contains(v) by {
        let i = choose|i: int| 0 <= i < refs.len() && refs[i] == v;
        assert(after.contains(refs[i]) || seen.contains(refs[i]));
    }
    assert forall|i: int| 0 <= i < after.len() && start.contains_key(
        #[trigger] after[i],
    ) implies reachable(start, roots, after[i]) by {
        if i >= base.len() {
            lemma_reach_next(start, roots, id, after[i]);
        } else {
            assert(after[i] == work[i]);
        }
    }
    assert forall|x: usize| reachable(start, roots, x) && left.contains_key(x) implies reachable(
        left,
        after,
        x,
    ) by {
        let path = choose|path: Seq<usize>| #[trigger]
            is_path(live, path) && work.contains(path[0]) && path.last() == x;
        lemma_reach_without(live, id, work, after, path);
    }
    assert forall|v: usize| visited.contains(v) implies after.contains(v) || !left.contains_key(
        v,
    ) by {
        if !after.contains(v) {
            assert(seen.contains(v));
            assert(!work.contains(v) || v == id);
        }
    }
    assert(left.submap_of(start)) by {
        assert forall|k: usize| #[trigger] left.dom().contains(k) implies start.dom().contains(k)
            && left[k] == start[k] by {
            assert(live.dom().contains(k));
        }
    }
    assert forall|x: usize| start.contains_key(x) && !left.contains_key(x) implies reachable(
        start,
        roots,
        x,
    ) by {
        if x != id {
            assert(!live.contains_key(x));
        }
    }
}

/// When the work list is empty, exactly the reachable agents are gone.
proof fn lemma_sweep_ends(
    start: Map<usize, AgentView>,
    roots: Seq<usize>,
    live: Map<usize, AgentView>,
    visited: Set<usize>,
)
    requires
        sweeping(start, roots, live, Seq::<usize>::empty(), visited),
    ensures
        live == swept(start, roots),
{
    assert forall|id: usize| live.contains_key(id) implies !reachable(start, roots, id) by {
        if reachable(start, roots, id) {
            let path = choose|path: Seq<usize>| #[trigger]
                is_path(live, path) && Seq::<usize>::empty().contains(path[0]) && path.last()
                    == id;
            assert(false);
        }
    }
    assert(live =~= swept(start, roots));
}

/// Puts `id` on the work list unless it has been there before.
fn visit(visited: &mut HashSet<usize>, work: &mut Vec<usize>, id: usize)
    ensures
        final(visited)@ == old(visited)@.insert(id),
        final(work)@ == if old(visited)@.contains(id) {
            old(work)@
        } else {
            old(work)@.push(id)
        },
{
    broadcast use vstd::std_specs::hash::group_hash_axioms;

    if visited.insert(id) {
        work.push(id);
    }
}

/// Puts on the work list what `agent` points to and has not been there
/// before: the target of an indirection, the ports of a custom agent.
fn visit_refs(agent: &Agent, visited: &mut HashSet<usize>, work: &mut Vec<usize>)
    ensures
        expanded(old(work)@, old(visited)@, agent@.refs(), final(work)@, final(visited)@),
{
    let ghost base = work@;
    let ghost seen = visited@;
    match agent {
        Agent::Tag { is_ind, target } => {
            if *is_ind {
                visit(visited, work, *target);
                proof {
                    assert(agent@.refs()[0] == *target);
                    if work.len() > base.len() {
                        assert(work@[base.len() as int] == *target);
                    }
                }
            }
        },
        Agent::Custom { type_id: _, ports } => {
            let mut j: usize = 0;
            while j < ports.len()
                invariant
                    j <= ports.len(),
                    expanded(base, seen, ports@.take(j as int), work@, visited@),
                decreases ports.len() - j,
            {
                let ghost so_far = work@;
                let ghost done = ports@.take(j as int);
                visit(visited, work, ports[j]);
                proof {
                    let more = ports@.take(j + 1);
                    assert(more == done.push(ports[j as int]));
                    assert forall|i: int| 0 <= i < done.len() implies more[i] == done[i] by {}
                    assert forall|v: usize| so_far.contains(v) implies work@.contains(v) by {
                        let i = choose|i: int| 0 <= i < so_far.len() && so_far[i] == v;
                        assert(work@[i] == v);
                    }
                    assert forall|i: int| base.len() <= i < work.len() implies more.contains(
                        #[trigger] work@[i],
                    ) by {
                        if i < so_far.len() {
                            assert(work@[i] == so_far[i]);
                            assert(done.contains(so_far[i]));
                            let k = choose|k: int| 0 <= k < done.len() && done[k] == so_far[i];
                            assert(more[k] == work@[i]);
                        } else {
                            assert(more[j as int] == work@[i]);
                        }
                    }
                    assert forall|v: usize| visited@.contains(v) implies seen.contains(v)
                        || work@.contains(v) by {
                        if v == ports[j as int] && work.len() > so_far.len() {
                            assert(work@[so_far.len() as int] == v);
                        }
                    }
                    assert forall|i: int| 0 <= i < base.len() implies work@[i] == base[i] by {
                        assert(work@[i] == so_far[i]);
                    }
                    assert forall|i: int| 0 <= i < more.len() implies work@.contains(
                        #[trigger] more[i],
                    ) || seen.contains(more[i]) by {
                        if i < done.len() {
                            assert(more[i] == done[i]);
                            assert(so_far.contains(done[i]) || seen.contains(done[i]));
                        } else if work.len() > so_far.len() {
                            assert(work@[so_far.len() as int] == more[i]);
                        } else {
                            assert(seen.contains(more[i]) || so_far.contains(more[i]));
                        }
                    }
                }
                j = j + 1;
            }
            proof {
                assert(ports@.take(ports.len() as int) == ports@);
            }
        },
    }
}

/// What is stored under an id is what `get` finds there, and a cleared id
/// stays vacant until it is handed out again.
///
/// Allocation inserts into the view of the store, `clear` removes from it
/// and `bind` replaces under an id in use; `get` reads the view. So: the
/// agent created under `id` is there; once `id` is cleared nothing is
/// there; and `id` stays vacant through the creation of an agent under
/// another id, through clearing any id, and through binding.
pub proof fn lemma_store_determinism(
    store: Map<usize, AgentView>,
    id: usize,
    agent: AgentView,
    other: usize,
    another: AgentView,
)
    requires
        other != id,
    ensures
        store.insert(id, agent).contains_key(id) && store.insert(id, agent)[id] == agent,
        !store.insert(id, agent).remove(id).contains_key(id),
        !store.remove(id).insert(other, another).contains_key(id),
        !store.remove(id).remove(other).contains_key(id),
        !store.remove(id).remove(id).contains_key(id),
{
}

impl View for AgentStore {
    type V = Map<usize, AgentView>;

    closed spec fn view(&self) -> Map<usize, AgentView> {
        slots_view(self.slots@)
    }
}

impl AgentStore {
    #[verifier::type_invariant]
    spec fn inv(self) -> bool {
        slab_ok(self.slots@, self.free@, self.cap)
    }

    /// The largest number of agents the store will hold at a time.
    pub closed spec fn cap(&self) -> usize {
        self.cap
    }

    /// The number of agents in the store.
    pub open spec fn len(&self) -> nat {
        self@.dom().len()
    }

    /// The id that the next successful allocation returns.
    pub closed spec fn next_id(&self) -> usize {
        if self.free.len() > 0 {
            self.free@.last()
        } else {
            self.slots.len()
        }
    }

    /// An empty store that holds at most `cap` agents.
    pub fn new(cap: usize) -> (r: AgentStore)
        ensures
            r@ == Map::<usize, AgentView>::empty(),
            r.cap() == cap,
            r.next_id() == 0,
    {
        let slots: Vec<Option<Agent>> = Vec::new();
        let free: Vec<usize> = Vec::new();
        proof {
            assert(slots_view(slots@) =~= Map::<usize, AgentView>::empty());
        }
        AgentStore { slots, free, cap }
    }

    /// The agent under `id`, or `None` where the slot is vacant or was never
    /// allocated.
    pub fn get(&self, id: usize) -> (r: Option<&Agent>)
        ensures
            match r {
                Some(agent) => self@.contains_key(id) && agent@ == self@[id],
                None => !self@.contains_key(id),
            },
    {
        if id < self.slots.len() {
            self.slots[id].as_ref()
        } else {
            None
        }
    }

    /// Whether the store holds as many agents as it may.
    pub fn is_full(&self) -> (r: bool)
        ensures
            r == (self.len() == self.cap()),
            self.len() <= self.cap(),
    {
        proof {
            use_type_invariant(self);
        }
        self.free.len() == 0 && self.slots.len() == self.cap
    }

    /// Allocates a slot, resets it to a fresh name, and stores what `init`
    /// makes of that name. Fails, without calling `init`, exactly when the
    /// store is full.
    pub fn create_with<F: FnOnce(Agent) -> Agent>(&mut self, init: F) -> (r: Option<usize>)
        requires
            forall|fresh: Agent| fresh@ == AgentView::name() ==> call_requires(init, (fresh,)),
        ensures
            final(self).cap() == old(self).cap(),
            match r {
                Some(id) => {
                    &&& old(self).len() < old(self).cap()
                    &&& final(self).len() == old(self).len() + 1
                    &&& id == old(self).next_id()
                    &&& !old(self)@.contains_key(id)
                    &&& exists|fresh: Agent, agent: Agent|
                        {
                            &&& fresh@ == AgentView::name()
                            &&& call_ensures(init, (fresh,), agent)
                            &&& final(self)@ == old(self)@.insert(id, agent@)
                        }
                },
                None => old(self).len() == old(self).cap() && *final(self) == *old(self),
            },
    {
        proof {
            use_type_invariant(&*self);
        }
        if self.free.len() == 0 && self.slots.len() == self.cap {
            return None;
        }
        let fresh = Agent::name();
        let agent = init(fresh);
        let mut taken = AgentStore::new(0);
        core::mem::swap(self, &mut taken);
        let AgentStore { slots, free, cap } = taken;
        let mut slots = slots;
        let mut free = free;
        let id: usize;
        if free.len() > 0 {
            proof {
                lemma_fill_last_free(slots@, free@, cap, agent);
            }
            id = free[free.len() - 1];
            free.pop();
            slots.set(id, Some(agent));
        } else {
            proof {
                lemma_grow(slots@, free@, cap, agent);
            }
            id = slots.len();
            slots.push(Some(agent));
        }
        *self = AgentStore { slots, free, cap };
        Some(id)
    }

    /// Returns the slot under `id` to the free list. `true` when an agent was
    /// there; a vacant or unknown id changes nothing.
    pub fn clear(&mut self, id: usize) -> (r: bool)
        ensures
            r == old(self)@.contains_key(id),
            final(self)@ == old(self)@.remove(id),
            final(self).cap() == old(self).cap(),
            final(self).next_id() == (if r {
                id
            } else {
                old(self).next_id()
            }),
            final(self).len() == old(self).len() - (if r {
                1int
            } else {
                0int
            }),
    {
        proof {
            use_type_invariant(&*self);
        }
        if id >= self.slots.len() || self.slots[id].is_none() {
            proof {
                assert(self@.remove(id) =~= self@);
            }
            return false;
        }
        let mut taken = AgentStore::new(0);
        core::mem::swap(self, &mut taken);
        let AgentStore { slots, free, cap } = taken;
        let mut slots = slots;
        let mut free = free;
        proof {
            lemma_vacate(slots@, free@, cap, id);
        }
        slots.set(id, None);
        free.push(id);
        *self = AgentStore { slots, free, cap };
        true
    }

    /// The number of agents in the store.
    pub fn count(&self) -> (r: usize)
        ensures
            r == self.len(),
            self@.dom().finite(),
    {
        proof {
            use_type_invariant(self);
        }
        self.slots.len() - self.free.len()
    }

    /// The largest number of agents the store will hold at a time.
    pub fn capacity(&self) -> (r: usize)
        ensures
            r == self.cap(),
            self.len() <= r,
    {
        proof {
            use_type_invariant(self);
        }
        self.cap
    }

    /// Clears every agent that is one of `roots` or can be reached from one
    /// of them through targets of indirections and ports of custom agents.
    /// All other agents stay as they are.
    ///
    /// The ids still to be looked at wait on a work list; a set of the ids
    /// that have been on it keeps every id from being looked at twice.
    pub fn drop_reachable(&mut self, roots: Vec<usize>)
        ensures
            final(self)@ == swept(old(self)@, roots@),
            final(self).cap() == old(self).cap(),
    {
        let ghost start = self@;
        let mut visited: HashSet<usize> = HashSet::new();
        let mut work: Vec<usize> = Vec::new();
        let mut k: usize = 0;
        while k < roots.len()
            invariant
                k <= roots.len(),
                forall|j: int| 0 <= j < k ==> work@.contains(#[trigger] roots[j]),
                forall|j: int| 0 <= j < work.len() ==> roots@.contains(#[trigger] work[j]),
                forall|v: usize| visited@.contains(v) ==> work@.contains(v),
            decreases roots.len() - k,
        {
            let ghost before = work@;
            visit(&mut visited, &mut work, roots[k]);
            proof {
                assert forall|v: usize| before.contains(v) implies work@.contains(v) by {
                    let i = choose|i: int| 0 <= i < before.len() && before[i] == v;
                    assert(work@[i] == v);
                }
                if work.len() > before.len() {
                    assert(work@[before.len() as int] == roots[k as int]);
                }
            }
            k = k + 1;
        }
        proof {
            lemma_sweep_starts(start, roots@, work@, visited@);
        }
        while work.len() > 0
            invariant
                self.cap() == old(self).cap(),
                sweeping(start, roots@, self@, work@, visited@),
            decreases self.len(), work.len(),
        {
            let ghost live = self@;
            let ghost work_before = work@;
            let ghost seen = visited@;
            let id = work[work.len() - 1];
            work.pop();
            let mut found = false;
            match self.get(id) {
                None => {},
                Some(agent) => {
                    found = true;
                    visit_refs(agent, &mut visited, &mut work);
                },
            }
            if found {
                self.clear(id);
                proof {
                    lemma_sweep_clears(start, roots@, live, work_before, seen, work@, visited@);
                }
            } else {
                proof {
                    lemma_sweep_skips(start, roots@, live, work_before, seen);
                }
            }
        }
        proof {
            assert(work@ =~= Seq::<usize>::empty());
            lemma_sweep_ends(start, roots@, self@, visited@);
        }
    }

    /// One compare-and-set on the tag under `id`: a name becomes an
    /// indirection to `to` (`Some(Ok)`), an indirection reports its target
    /// (`Some(Err)`). `None`, and no change, where `id` holds no tag.
    pub fn bind(&mut self, id: usize, to: usize) -> (r: Option<Result<(), usize>>)
        ensures
            final(self).cap() == old(self).cap(),
            final(self).next_id() == old(self).next_id(),
            final(self)@.dom() == old(self)@.dom(),
            tags_monotone(old(self)@, final(self)@),
            match r {
                Some(Ok(_)) => old(self)@.contains_key(id) && old(self)@[id] is Tag && !old(
                    self,
                )@[id]->is_ind && final(self)@ == old(self)@.insert(
                    id,
                    AgentView::Tag { is_ind: true, target: to },
                ),
                Some(Err(target)) => old(self)@.contains_key(id) && old(self)@[id] == (
                AgentView::Tag { is_ind: true, target }) && final(self)@ == old(self)@,
                None => !(old(self)@.contains_key(id) && old(self)@[id] is Tag) && final(self)@
                    == old(self)@,
            },
    {
        proof {
            use_type_invariant(&*self);
        }
        if id >= self.slots.len() {
            return None;
        }
        match &self.slots[id] {
            Some(Agent::Tag { .. }) => {},
            _ => {
                return None;
            },
        }
        let mut taken = AgentStore::new(0);
        core::mem::swap(self, &mut taken);
        let AgentStore { slots, free, cap } = taken;
        let mut slots = slots;
        let ghost before = slots@;
        let mut slot: Option<Agent> = None;
        slots.set_and_swap(id, &mut slot);
        let mut agent = slot.unwrap();
        let r = agent.bind(to);
        proof {
            lemma_replace(before, free@, cap, id, agent);
            assert(slots@.update(id as int, Some(agent)) =~= before.update(id as int, Some(agent)));
            if r is Err {
                assert(slots_view(before).insert(id, agent@) =~= slots_view(before));
            }
        }
        slots.set(id, Some(agent));
        *self = AgentStore { slots, free, cap };
        Some(r)
    }
}

} // verus!

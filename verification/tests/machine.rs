use inet::peano::new_number;
use inet::{Agent, Context, Error, Machine, MachineBuilder, Net, Rule, RuleTable};

fn name() -> Agent {
    Agent::Tag { is_ind: false, target: 0 }
}

fn ind(target: usize) -> Agent {
    Agent::Tag { is_ind: true, target }
}

/// A rule that records how it was called in a tag it creates, and removes
/// the two agents.
struct Probe;

impl Rule for Probe {
    fn apply(&self, net: &mut Net, ctx: &Context) -> Result<(), Error> {
        // Keep what was seen as a custom agent: [lhs, rhs, lhs ports.., rhs ports..].
        let mut seen = vec![ctx.lhs(), ctx.rhs()];
        seen.extend_from_slice(&ctx.lhs_ports);
        seen.extend_from_slice(&ctx.rhs_ports);
        let marker = net.new_tag()?;
        net.new_agent(2, marker, &seen)?;
        ctx.remove_old_agents(net);
        Ok(())
    }
}

/// A rule that fails.
struct Failing;

impl Rule for Failing {
    fn apply(&self, _net: &mut Net, _ctx: &Context) -> Result<(), Error> {
        Err(Error::AllocationFailed)
    }
}

fn probe_builder() -> MachineBuilder<Probe> {
    let mut b = MachineBuilder::new();
    assert_eq!(b.new_type(), 0);
    assert_eq!(b.new_type(), 1);
    assert_eq!(b.new_type(), 2);
    b
}

#[test]
fn an_empty_machine_is_idle() {
    let mut m: Machine<Probe> = Machine::new();
    assert_eq!(m.step(), Ok(false));
    assert_eq!(m.run(), Ok((0, 0)));
    assert_eq!(m.counters(), (0, 0));
    assert_eq!(m.as_net().count(), 0);
    assert_eq!(m.as_net().capacity(), usize::MAX);
    assert_eq!(m.as_net().type_count(), 0);
    assert_eq!(m.new_agent(0, 0, &[]), Err(Error::InvalidTypeId { actual: 0, cap: 0 }));
}

#[test]
fn a_name_on_the_right_is_bound_to_the_left() {
    let mut b = probe_builder();
    let t = b.new_tag().unwrap();
    let c = b.new_agent(0, t, &[]).unwrap();
    let mut m = b.seal();
    assert_eq!(m.step(), Ok(true));
    assert_eq!(m.get_agent(t), Some(&ind(c)));
    assert_eq!(m.get_agent(c), Some(&Agent::Custom { type_id: 0, ports: vec![] }));
    assert_eq!(m.counters(), (0, 1));
    assert_eq!(m.step(), Ok(false));
    assert_eq!(m.counters(), (0, 1));
}

#[test]
fn a_name_on_the_left_is_bound_to_the_right() {
    let mut b = probe_builder();
    let t = b.new_tag().unwrap();
    let c = b.new_agent(0, 99, &[]).unwrap();
    let mut m = b.seal();
    // Drop the pair that came with the agent, then pair the tag with it.
    assert_eq!(m.step(), Err(Error::MissingAgent { id: 99 }));
    m.new_eq(t, c);
    assert_eq!(m.step(), Ok(true));
    assert_eq!(m.get_agent(t), Some(&ind(c)));
    assert_eq!(m.counters(), (0, 1));
}

#[test]
fn two_names_bind_the_right_one() {
    let mut m: Machine<Probe> = Machine::new();
    let a = m.new_name().unwrap();
    let b = m.new_name().unwrap();
    m.new_eq(a, b);
    assert_eq!(m.run(), Ok((0, 1)));
    assert_eq!(m.get_agent(a), Some(&name()));
    assert_eq!(m.get_agent(b), Some(&ind(a)));
    assert_eq!(m.resolve(b), Some(a));
    assert_eq!(m.resolve(a), Some(a));
}

#[test]
fn an_indirection_is_followed_and_removed() {
    let mut b = probe_builder();
    let t = b.new_tag().unwrap();
    let x = b.new_agent(0, t, &[]).unwrap();
    let y = b.new_agent(1, t, &[7]).unwrap();
    b.new_rule(1, 0, Probe);
    let mut m = b.seal();
    // (x, t): t is bound to x.
    assert_eq!(m.step(), Ok(true));
    assert_eq!(m.get_agent(t), Some(&ind(x)));
    // (y, t): t is an indirection, so it is removed and (y, x) is queued.
    assert_eq!(m.step(), Ok(true));
    assert_eq!(m.get_agent(t), None);
    assert_eq!(m.counters(), (0, 2));
    // (y, x): the rule for (1, 0) sees y on the left.
    assert_eq!(m.step(), Ok(true));
    assert_eq!(m.counters(), (1, 2));
    assert_eq!(m.get_agent(x), None);
    assert_eq!(m.get_agent(y), None);
    // The rule's marker pair: a name bound to the record of the call.
    assert_eq!(m.step(), Ok(true));
    assert_eq!(m.step(), Ok(false));
    assert_eq!(m.counters(), (1, 3));
}

#[test]
fn an_indirection_on_the_left_is_followed() {
    let mut m: Machine<Probe> = Machine::new();
    let a = m.new_name().unwrap();
    let t = m.new_name().unwrap();
    let c = m.new_name().unwrap();
    m.new_eq(a, t); // t -> a
    m.new_eq(c, a); // a -> c
    assert_eq!(m.step(), Ok(true));
    assert_eq!(m.step(), Ok(true));
    assert_eq!(m.get_agent(t), Some(&ind(a)));
    assert_eq!(m.get_agent(a), Some(&ind(c)));
    assert_eq!(m.resolve(t), Some(c));
    // A pair with an indirection on the right follows it first ...
    m.new_eq(t, a);
    assert_eq!(m.step(), Ok(true));
    assert_eq!(m.get_agent(a), None);
    // ... which leaves (t, c): c is a name on the right and is bound to t.
    assert_eq!(m.step(), Ok(true));
    assert_eq!(m.get_agent(c), Some(&ind(t)));
    assert_eq!(m.get_agent(t), Some(&ind(a)));
    assert_eq!(m.step(), Ok(false));
    assert_eq!(m.counters(), (0, 4));
}

#[test]
fn an_indirection_on_the_left_of_a_custom_agent_is_followed() {
    let mut b = probe_builder();
    let t = b.new_tag().unwrap();
    let u = b.new_tag().unwrap();
    let c = b.new_agent(0, 99, &[]).unwrap();
    let mut m = b.seal();
    assert_eq!(m.step(), Err(Error::MissingAgent { id: 99 }));
    m.new_eq(u, t); // t -> u
    assert_eq!(m.step(), Ok(true));
    m.new_eq(t, c); // follows t on the left: (u, c) is queued, t removed
    assert_eq!(m.step(), Ok(true));
    assert_eq!(m.get_agent(t), None);
    assert_eq!(m.get_agent(u), Some(&name()));
    assert_eq!(m.step(), Ok(true)); // u is a name on the left: bound to c
    assert_eq!(m.get_agent(u), Some(&ind(c)));
    assert_eq!(m.counters(), (0, 3));
}

#[test]
fn pairs_are_reduced_oldest_first() {
    let mut m: Machine<Probe> = Machine::new();
    let a = m.new_name().unwrap();
    let b = m.new_name().unwrap();
    let t = m.new_name().unwrap();
    m.new_eq(a, t);
    m.new_eq(b, t);
    // The first pair binds t to a; had the second come first, t would lead to b.
    assert_eq!(m.step(), Ok(true));
    assert_eq!(m.get_agent(t), Some(&ind(a)));
    // The second pair follows t: t is removed and (b, a) is queued behind.
    assert_eq!(m.step(), Ok(true));
    assert_eq!(m.get_agent(t), None);
    assert_eq!(m.get_agent(a), Some(&name()));
    assert_eq!(m.step(), Ok(true));
    assert_eq!(m.get_agent(a), Some(&ind(b)));
    assert_eq!(m.step(), Ok(false));
}

#[test]
fn a_missing_agent_is_reported_left_first() {
    let mut m: Machine<Probe> = Machine::new();
    let t = m.new_name().unwrap();
    m.new_eq(70, 80);
    m.new_eq(t, 80);
    m.new_eq(70, t);
    assert_eq!(m.step(), Err(Error::MissingAgent { id: 70 }));
    assert_eq!(m.step(), Err(Error::MissingAgent { id: 80 }));
    assert_eq!(m.run(), Err(Error::MissingAgent { id: 70 }));
    assert_eq!(m.counters(), (0, 0));
    assert_eq!(m.get_agent(t), Some(&name()));
    assert_eq!(m.step(), Ok(false));
}

#[test]
fn a_removed_agent_is_missing() {
    let mut b = probe_builder();
    let t = b.new_tag().unwrap();
    let c = b.new_agent(0, t, &[]).unwrap();
    let mut m = b.seal();
    assert!(m.remove_agent(c));
    assert!(!m.remove_agent(c));
    assert_eq!(m.run(), Err(Error::MissingAgent { id: c }));
    assert_eq!(m.get_agent(t), Some(&name()));
}

#[test]
fn a_rule_is_found_in_either_order() {
    let mut b = probe_builder();
    b.new_rule(0, 1, Probe);
    let x = b.new_agent(0, 50, &[10, 11]).unwrap();
    let y = b.new_agent(1, x, &[20]).unwrap();
    let mut m = b.seal();
    assert_eq!(m.step(), Err(Error::MissingAgent { id: 50 }));
    // (y, x) has types (1, 0): the rule for (0, 1) is called with the sides swapped.
    assert_eq!(m.step(), Ok(true));
    assert_eq!(m.counters(), (1, 0));
    let record = m.as_net().count();
    assert_eq!(record, 2);
    let marker = (0..8).find(|&id| m.get_agent(id) == Some(&name())).unwrap();
    assert_eq!(m.step(), Ok(true));
    let seen = m.resolve(marker).unwrap();
    assert_eq!(
        m.get_agent(seen),
        Some(&Agent::Custom { type_id: 2, ports: vec![x, y, 10, 11, 20] })
    );
}

#[test]
fn a_rule_sees_the_pair_as_it_stands_when_registered_so() {
    let mut b = probe_builder();
    b.new_rule(1, 0, Probe);
    b.new_rule(0, 1, Probe);
    let x = b.new_agent(0, 50, &[10, 11]).unwrap();
    let y = b.new_agent(1, x, &[20]).unwrap();
    let mut m = b.seal();
    assert_eq!(m.step(), Err(Error::MissingAgent { id: 50 }));
    assert_eq!(m.step(), Ok(true));
    let marker = (0..8).find(|&id| m.get_agent(id) == Some(&name())).unwrap();
    assert_eq!(m.step(), Ok(true));
    let seen = m.resolve(marker).unwrap();
    assert_eq!(
        m.get_agent(seen),
        Some(&Agent::Custom { type_id: 2, ports: vec![y, x, 20, 10, 11] })
    );
}

#[test]
fn registering_a_rule_again_replaces_it() {
    enum Either {
        Fails,
        Works,
    }
    impl Rule for Either {
        fn apply(&self, net: &mut Net, ctx: &Context) -> Result<(), Error> {
            match self {
                Either::Fails => Err(Error::AllocationFailed),
                Either::Works => {
                    ctx.remove_old_agents(net);
                    Ok(())
                }
            }
        }
    }
    let mut b: MachineBuilder<Either> = MachineBuilder::new();
    b.new_type();
    b.new_rule(0, 0, Either::Fails);
    b.new_rule(0, 0, Either::Works);
    let t = b.new_tag().unwrap();
    let x = b.new_agent(0, t, &[]).unwrap();
    let y = b.new_agent(0, x, &[]).unwrap();
    let mut m = b.seal();
    assert_eq!(m.run(), Ok((1, 1)));
    assert_eq!(m.get_agent(x), None);
    assert_eq!(m.get_agent(y), None);
    assert_eq!(m.as_net().count(), 1);
}

#[test]
fn a_missing_rule_is_reported_with_the_types_as_they_stand() {
    let mut b = probe_builder();
    b.new_rule(0, 0, Probe);
    let x = b.new_agent(0, 50, &[]).unwrap();
    let y = b.new_agent(1, x, &[]).unwrap();
    let mut m = b.seal();
    assert_eq!(m.step(), Err(Error::MissingAgent { id: 50 }));
    assert_eq!(m.step(), Err(Error::NoRule { lhs_type: 1, rhs_type: 0 }));
    assert_eq!(m.counters(), (0, 0));
    assert_eq!(m.get_agent(x), Some(&Agent::Custom { type_id: 0, ports: vec![] }));
    assert_eq!(m.get_agent(y), Some(&Agent::Custom { type_id: 1, ports: vec![] }));
    assert_eq!(m.step(), Ok(false));
}

#[test]
fn the_error_of_a_rule_ends_the_run_uncounted() {
    let mut b: MachineBuilder<Failing> = MachineBuilder::new();
    b.new_type();
    b.new_rule(0, 0, Failing);
    let t = b.new_tag().unwrap();
    let x = b.new_agent(0, t, &[]).unwrap();
    b.new_agent(0, x, &[]).unwrap();
    let mut m = b.seal();
    assert_eq!(m.run(), Err(Error::AllocationFailed));
    assert_eq!(m.counters(), (0, 1));
}

#[test]
fn a_full_net_refuses_agents_and_stays_as_it_is() {
    let mut b: MachineBuilder<Probe> = MachineBuilder::with_capacity(2);
    b.new_type();
    let t = b.new_tag().unwrap();
    let c = b.new_agent(0, t, &[t]).unwrap();
    assert_eq!(b.new_tag(), Err(Error::AllocationFailed));
    assert_eq!(b.new_agent(0, t, &[]), Err(Error::AllocationFailed));
    // An unknown type is refused before the lack of room.
    assert_eq!(b.new_agent(1, t, &[]), Err(Error::InvalidTypeId { actual: 1, cap: 0 }));
    let mut m = b.seal();
    assert_eq!(m.new_name(), Err(Error::AllocationFailed));
    assert_eq!(m.as_net().count(), 2);
    assert_eq!(m.run(), Ok((0, 1)));
    assert_eq!(m.get_agent(t), Some(&ind(c)));
}

#[test]
fn type_ids_count_up_from_zero() {
    let mut b: MachineBuilder<Probe> = MachineBuilder::new();
    let p = b.new_tag().unwrap();
    assert_eq!(b.new_agent(0, p, &[]), Err(Error::InvalidTypeId { actual: 0, cap: 0 }));
    for expected in 0..5 {
        assert_eq!(b.as_net().type_count(), expected);
        assert_eq!(b.new_type(), expected);
    }
    assert_eq!(b.new_agent(5, p, &[]), Err(Error::InvalidTypeId { actual: 5, cap: 4 }));
    assert_eq!(b.as_net().count(), 1);
    assert!(b.new_agent(4, p, &[]).is_ok());
}

#[test]
fn context_reverse_swaps_the_sides() {
    let mut ctx = Context { lhs_id: 1, rhs_id: 2, lhs_ports: vec![3, 4], rhs_ports: vec![5] };
    ctx.reverse();
    assert_eq!(ctx, Context { lhs_id: 2, rhs_id: 1, lhs_ports: vec![5], rhs_ports: vec![3, 4] });
    assert_eq!(ctx.lhs(), 2);
    assert_eq!(ctx.rhs(), 1);
    ctx.reverse();
    assert_eq!(ctx, Context { lhs_id: 1, rhs_id: 2, lhs_ports: vec![3, 4], rhs_ports: vec![5] });
}

#[test]
fn resolve_gives_up_on_circles_and_broken_chains() {
    let mut m: Machine<Probe> = Machine::new();
    let a = m.new_name().unwrap();
    let b = m.new_name().unwrap();
    m.new_eq(b, a); // a -> b
    m.new_eq(a, b); // b -> a
    assert_eq!(m.step(), Ok(true));
    assert_eq!(m.get_agent(a), Some(&ind(b)));
    // (a, b): b is still a name and is bound to a, which closes the circle.
    assert_eq!(m.step(), Ok(true));
    assert_eq!(m.get_agent(b), Some(&ind(a)));
    assert_eq!(m.resolve(a), None);
    assert_eq!(m.resolve(b), None);
    assert_eq!(m.resolve(17), None);
    assert!(m.remove_agent(b));
    assert_eq!(m.resolve(a), None);
    let c = m.new_name().unwrap();
    assert_eq!(c, b);
    assert_eq!(m.resolve(a), Some(c));
}

#[test]
fn drop_recursive_frees_what_an_agent_leads_to() {
    let mut b = probe_builder();
    let out = b.new_tag().unwrap();
    let other = b.new_tag().unwrap();
    let z = b.new_agent(2, 90, &[]).unwrap();
    let s = b.new_agent(1, out, &[z]).unwrap();
    let mut m = b.seal();
    assert_eq!(m.step(), Err(Error::MissingAgent { id: 90 }));
    assert_eq!(m.run(), Ok((0, 1)));
    assert_eq!(m.get_agent(out), Some(&ind(s)));
    assert_eq!(m.as_net().count(), 4);
    m.drop_reachable(vec![out]);
    assert_eq!(m.get_agent(out), None);
    assert_eq!(m.get_agent(s), None);
    assert_eq!(m.get_agent(z), None);
    assert_eq!(m.get_agent(other), Some(&name()));
    assert_eq!(m.as_net().count(), 1);
}

#[test]
fn a_rule_can_drop_a_subnet() {
    /// Erases the right agent and everything it leads to; keeps nothing of the left.
    struct Erase;
    impl Rule for Erase {
        fn apply(&self, net: &mut Net, ctx: &Context) -> Result<(), Error> {
            let right = net.get_agent(ctx.rhs()).cloned().expect("the pair is there");
            ctx.remove_old_agents(net);
            right.drop_recursive(net);
            Ok(())
        }
    }
    let mut b: MachineBuilder<Erase> = MachineBuilder::new();
    let eraser = b.new_type();
    let node = b.new_type();
    b.new_rule(eraser, node, Erase);
    let keep = b.new_tag().unwrap();
    let leaf_a = b.new_tag().unwrap();
    let leaf_b = b.new_tag().unwrap();
    let inner = b.new_agent(node, 90, &[leaf_b]).unwrap();
    let root = b.new_agent(node, 91, &[leaf_a, inner]).unwrap();
    b.new_agent(eraser, root, &[]).unwrap();
    let mut m = b.seal();
    assert_eq!(m.step(), Err(Error::MissingAgent { id: 90 }));
    assert_eq!(m.step(), Err(Error::MissingAgent { id: 91 }));
    assert_eq!(m.run(), Ok((1, 0)));
    assert_eq!(m.as_net().count(), 1);
    assert_eq!(m.get_agent(keep), Some(&name()));
}

#[test]
fn new_number_builds_a_chain_on_a_fresh_name() {
    let mut b = probe_builder();
    let before = b.as_net().count();
    let port = new_number(&mut b, 1, 2, 3).unwrap();
    assert_eq!(b.as_net().count(), before + 2 * 3 + 2);
    assert_eq!(b.as_net().get_agent(port), Some(&name()));
    let mut m = b.seal();
    // Each of the four agents is paired with its name: four bindings.
    assert_eq!(m.run(), Ok((0, 4)));
    let mut at = port;
    for _ in 0..3 {
        let s = m.resolve(at).unwrap();
        match m.get_agent(s) {
            Some(Agent::Custom { type_id: 1, ports }) => {
                assert_eq!(ports.len(), 1);
                at = ports[0];
            }
            other => panic!("not a successor: {:?}", other),
        }
    }
    let z = m.resolve(at).unwrap();
    assert_eq!(m.get_agent(z), Some(&Agent::Custom { type_id: 2, ports: vec![] }));
}

#[test]
fn new_number_builds_nothing_where_it_cannot_build_all() {
    let mut b: MachineBuilder<Probe> = MachineBuilder::with_capacity(7);
    b.new_type();
    b.new_type();
    assert_eq!(new_number(&mut b, 2, 0, 1), Err(Error::InvalidTypeId { actual: 2, cap: 1 }));
    assert_eq!(new_number(&mut b, 0, 3, 1), Err(Error::InvalidTypeId { actual: 3, cap: 1 }));
    assert_eq!(new_number(&mut b, 5, 3, 1), Err(Error::InvalidTypeId { actual: 5, cap: 1 }));
    assert_eq!(new_number(&mut b, 0, 1, 3), Err(Error::AllocationFailed));
    assert_eq!(b.as_net().count(), 0);
    assert_eq!(new_number(&mut b, 0, 1, 2), Ok(0));
    assert_eq!(b.as_net().count(), 6);
    assert_eq!(new_number(&mut b, 0, 1, 0), Err(Error::AllocationFailed));
    assert_eq!(b.as_net().count(), 6);
    let mut none: MachineBuilder<Probe> = MachineBuilder::new();
    assert_eq!(new_number(&mut none, 0, 0, 0), Err(Error::InvalidTypeId { actual: 0, cap: 0 }));
}

#[test]
fn an_agent_is_created_with_its_pair_under_either_name() {
    let mut b = probe_builder();
    let t = b.new_tag().unwrap();
    let mut m = b.seal();
    let x = m.new_agent(0, t, &[t]).unwrap();
    let y = m.new_agent_and_eq(1, t, &[x]).unwrap();
    assert_eq!(m.get_agent(y), Some(&Agent::Custom { type_id: 1, ports: vec![x] }));
    // (x, t) binds t to x; (y, t) follows t and leaves (y, x), for which no rule is there.
    assert_eq!(m.step(), Ok(true));
    assert_eq!(m.step(), Ok(true));
    assert_eq!(m.step(), Err(Error::NoRule { lhs_type: 1, rhs_type: 0 }));
    assert_eq!(m.new_agent_and_eq(9, t, &[]), Err(Error::InvalidTypeId { actual: 9, cap: 2 }));
}

#[test]
fn a_number_is_a_chain_of_pairs_in_order() {
    // Without rules the pairs of a number only bind its names, one by one.
    for n in [0u32, 1, 2, 5] {
        let mut b = probe_builder();
        let port = new_number(&mut b, 1, 2, n).unwrap();
        assert_eq!(b.as_net().count(), 2 * n as usize + 2);
        let mut m = b.seal();
        for done in 0..=u64::from(n) {
            assert_eq!(m.counters(), (0, done));
            assert_eq!(m.step(), Ok(true));
        }
        assert_eq!(m.step(), Ok(false));
        assert_eq!(m.run(), Ok((0, u64::from(n) + 1)));
        let mut names = vec![port];
        let mut at = port;
        for _ in 0..n {
            let s = m.resolve(at).unwrap();
            match m.get_agent(s) {
                Some(Agent::Custom { type_id: 1, ports }) if ports.len() == 1 => at = ports[0],
                other => panic!("not a successor: {:?}", other),
            }
            assert!(!names.contains(&at));
            names.push(at);
        }
        let z = m.resolve(at).unwrap();
        assert_eq!(m.get_agent(z), Some(&Agent::Custom { type_id: 2, ports: vec![] }));
        assert_eq!(names.len(), n as usize + 1);
    }
}

#[test]
fn the_first_pair_of_a_number_hangs_on_its_port() {
    let mut b = probe_builder();
    let port = new_number(&mut b, 1, 2, 2).unwrap();
    let mut m = b.seal();
    // The oldest pair is (first successor, port): one step binds the port.
    assert_eq!(m.step(), Ok(true));
    let first = match m.get_agent(port) {
        Some(Agent::Tag { is_ind: true, target }) => *target,
        other => panic!("the port is not bound: {:?}", other),
    };
    let second_name = match m.get_agent(first) {
        Some(Agent::Custom { type_id: 1, ports }) => ports[0],
        other => panic!("not a successor: {:?}", other),
    };
    assert_eq!(m.get_agent(second_name), Some(&name()));
    // The next pair is (second successor, second name).
    assert_eq!(m.step(), Ok(true));
    assert!(matches!(m.get_agent(second_name), Some(Agent::Tag { is_ind: true, .. })));
}

#[test]
fn a_rule_table_keeps_ordered_pairs_apart() {
    let mut table: RuleTable<u32> = RuleTable::new();
    assert_eq!(table.get(0, 0), None);
    let keys = [
        (0, 0),
        (0, 1),
        (1, 0),
        (1, 1),
        (0, usize::MAX),
        (usize::MAX, 0),
        (usize::MAX, usize::MAX),
        (1, usize::MAX - 1),
        (7, 1 << 32),
        (1 << 32, 7),
    ];
    for (n, (l, r)) in keys.iter().enumerate() {
        assert_eq!(table.get(*l, *r), None);
        table.insert(*l, *r, n as u32);
    }
    for (n, (l, r)) in keys.iter().enumerate() {
        assert_eq!(table.get(*l, *r), Some(&(n as u32)));
    }
    table.insert(1, 0, 99);
    assert_eq!(table.get(1, 0), Some(&99));
    assert_eq!(table.get(0, 1), Some(&1));
    assert_eq!(table.get(2, 0), None);
}

use inet::peano::{new_number, Addition};
use inet::{Agent, Error, Machine, MachineBuilder};

const ADD: usize = 0;
const S: usize = 1;
const Z: usize = 2;

type Peano = Addition;

fn builder() -> MachineBuilder<Peano> {
    let mut b = MachineBuilder::new();
    assert_eq!(b.new_type(), ADD);
    assert_eq!(b.new_type(), S);
    assert_eq!(b.new_type(), Z);
    b.new_rule(ADD, S, Addition::Successor { add: ADD, succ: S });
    b.new_rule(ADD, Z, Addition::Zero { add: ADD, zero: Z });
    b
}

fn insert_number(b: &mut MachineBuilder<Peano>, port: usize, n: u32) {
    let mut last = port;
    for _ in 0..n {
        let aux = b.new_tag().unwrap();
        b.new_agent(S, last, &[aux]).unwrap();
        last = aux;
    }
    b.new_agent(Z, last, &[]).unwrap();
}

/// x + y with the sum on the tag that is returned.
fn sum(x: u32, y: u32) -> (Machine<Peano>, usize) {
    let mut b = builder();
    let xs = b.new_tag().unwrap();
    let ys = b.new_tag().unwrap();
    let out = b.new_tag().unwrap();
    insert_number(&mut b, xs, x);
    insert_number(&mut b, ys, y);
    b.new_agent(ADD, xs, &[out, ys]).unwrap();
    (b.seal(), out)
}

/// The same net with its pairs queued in another order: the addition first,
/// then the second number, then the first.
fn sum_in_other_order(x: u32, y: u32) -> (Machine<Peano>, usize) {
    let mut b = builder();
    let xs = b.new_tag().unwrap();
    let ys = b.new_tag().unwrap();
    let out = b.new_tag().unwrap();
    b.new_agent(ADD, xs, &[out, ys]).unwrap();
    insert_number(&mut b, ys, y);
    insert_number(&mut b, xs, x);
    (b.seal(), out)
}

/// Reads the chain of type ids that `id` leads to, through indirections.
fn read_chain(m: &Machine<Peano>, id: usize) -> Vec<usize> {
    let mut chain = Vec::new();
    let mut at = id;
    loop {
        let end = m.resolve(at).expect("the chain is whole");
        match m.get_agent(end) {
            Some(Agent::Custom { type_id, ports }) => {
                chain.push(*type_id);
                match ports.first() {
                    Some(next) => at = *next,
                    None => return chain,
                }
            }
            other => panic!("not a number: {:?}", other),
        }
    }
}

fn read_number(m: &Machine<Peano>, id: usize) -> u32 {
    let chain = read_chain(m, id);
    assert_eq!(chain.last(), Some(&Z));
    assert!(chain[..chain.len() - 1].iter().all(|t| *t == S));
    (chain.len() - 1) as u32
}

#[test]
fn two_plus_two_is_four() {
    let (mut m, out) = sum(2, 2);
    m.run().unwrap();
    assert_eq!(read_chain(&m, out), vec![S, S, S, S, Z]);
    assert_eq!(read_number(&m, out), 4);
}

#[test]
fn ten_plus_ten_counts() {
    let (mut m, out) = sum(10, 10);
    let (interactions, name_ops) = m.run().unwrap();
    assert_eq!(read_number(&m, out), 20);
    assert_eq!(interactions, 11);
    assert!(name_ops >= 20);
    assert_eq!(m.counters(), (interactions, name_ops));
}

#[test]
fn zero_plus_zero_is_zero() {
    let (mut m, out) = sum(0, 0);
    let (interactions, _) = m.run().unwrap();
    assert_eq!(interactions, 1);
    assert_eq!(read_chain(&m, out), vec![Z]);
}

#[test]
fn missing_rule_is_reported() {
    let mut b = builder();
    let a = b.new_tag().unwrap();
    let x = b.new_tag().unwrap();
    let y = b.new_tag().unwrap();
    b.new_agent(S, a, &[x]).unwrap();
    b.new_agent(S, a, &[y]).unwrap();
    let mut m = b.seal();
    assert_eq!(m.run(), Err(Error::NoRule { lhs_type: 1, rhs_type: 1 }));
}

#[test]
fn invalid_type_id_is_refused() {
    let mut b = builder();
    let p = b.new_tag().unwrap();
    let before = b.as_net().count();
    assert_eq!(b.new_agent(99, p, &[]), Err(Error::InvalidTypeId { actual: 99, cap: 2 }));
    assert_eq!(b.as_net().count(), before);
    let mut m = b.seal();
    assert_eq!(m.get_agent(p), Some(&Agent::Tag { is_ind: false, target: 0 }));
    assert_eq!(m.get_agent(p + 1), None);
    assert_eq!(m.run(), Ok((0, 0)));
}

#[test]
fn the_readout_is_the_same_for_one_two_and_eight_workers() {
    for (x, y) in [(2, 2), (10, 10)] {
        let (mut reference, out) = sum(x, y);
        reference.run().unwrap();
        let expected = read_chain(&reference, out);
        assert_eq!(expected.len() as u32, x + y + 1);
        for workers in [1, 2, 8] {
            let (mut m, out) = sum(x, y);
            let counts = m.par_run(workers).unwrap();
            assert_eq!(read_chain(&m, out), expected);
            assert_eq!(counts, m.counters());
            assert_eq!(counts.0, u64::from(x) + 1);
            assert_eq!(m.step(), Ok(false));
        }
    }
}

#[test]
fn without_a_worker_nothing_is_reduced() {
    let (mut m, out) = sum(1, 1);
    let agents = m.as_net().count();
    assert_eq!(m.par_run(0), Ok((0, 0)));
    assert_eq!(m.as_net().count(), agents);
    assert_eq!(m.get_agent(out), Some(&Agent::Tag { is_ind: false, target: 0 }));
    assert_eq!(m.step(), Ok(true));
}

#[test]
fn the_readout_does_not_depend_on_the_order_of_the_pairs() {
    for (x, y) in [(0, 0), (0, 3), (3, 0), (2, 2), (7, 5)] {
        let (mut a, out_a) = sum(x, y);
        let (mut b, out_b) = sum_in_other_order(x, y);
        let counts_a = a.run().unwrap();
        let counts_b = b.par_run(3).unwrap();
        assert_eq!(read_number(&a, out_a), x + y);
        assert_eq!(read_number(&b, out_b), x + y);
        assert_eq!(counts_a.0, u64::from(x) + 1);
        assert_eq!(counts_b.0, u64::from(x) + 1);
    }
}

#[test]
fn counters_count_the_steps_of_their_kind() {
    let (mut m, _) = sum(3, 4);
    let mut interactions = 0;
    let mut name_ops = 0;
    loop {
        let before = m.counters();
        match m.step().unwrap() {
            false => break,
            true => {
                let after = m.counters();
                // Every reduction raises exactly one of the two counters by one.
                assert_eq!((after.0 - before.0) + (after.1 - before.1), 1);
                interactions += after.0 - before.0;
                name_ops += after.1 - before.1;
            }
        }
    }
    assert_eq!(m.counters(), (interactions, name_ops));
    assert_eq!(interactions, 4);
    let (mut again, _) = sum(3, 4);
    assert_eq!(again.run(), Ok((interactions, name_ops)));
}

#[test]
fn rules_that_remove_their_agents_leave_only_the_result() {
    let (mut m, out) = sum(5, 6);
    m.run().unwrap();
    // What is left: the eleven successors and the zero of the sum, and the tags
    // that lead from one to the next. Every Add agent and every agent of the
    // first number is gone.
    let mut customs = Vec::new();
    let mut tags = 0;
    for id in 0..200 {
        match m.get_agent(id) {
            Some(Agent::Custom { type_id, .. }) => customs.push(*type_id),
            Some(Agent::Tag { .. }) => tags += 1,
            None => {}
        }
    }
    customs.sort();
    let mut expected = vec![S; 11];
    expected.push(Z);
    assert_eq!(customs, expected);
    assert_eq!(m.as_net().count(), customs.len() + tags);
    assert_eq!(read_number(&m, out), 11);
}

#[test]
fn an_indirection_keeps_its_target_while_it_exists() {
    let (mut m, _) = sum(4, 4);
    let mut seen: Vec<Option<Agent>> = Vec::new();
    let mut bound = 0;
    loop {
        let now: Vec<Option<Agent>> = (0..64).map(|id| m.get_agent(id).cloned()).collect();
        for (id, (old, new)) in seen.iter().zip(now.iter()).enumerate() {
            match (old, new) {
                // Over one step an indirection that is still there is the same.
                (Some(Agent::Tag { is_ind: true, .. }), Some(_)) => {
                    assert_eq!(new, old, "agent {} changed", id)
                }
                // A name stays a name or becomes an indirection.
                (Some(Agent::Tag { is_ind: false, .. }), Some(after)) => {
                    assert!(matches!(after, Agent::Tag { .. }), "agent {} changed", id);
                    if matches!(after, Agent::Tag { is_ind: true, .. }) {
                        bound += 1;
                    }
                }
                // A custom agent stays as it is.
                (Some(Agent::Custom { .. }), Some(_)) => assert_eq!(new, old),
                _ => {}
            }
        }
        seen = now;
        if !m.step().unwrap() {
            break;
        }
    }
    assert!(bound > 0);
}

#[test]
fn the_library_builds_the_same_numbers() {
    let mut b = builder();
    let xs = new_number(&mut b, S, Z, 3).unwrap();
    let ys = new_number(&mut b, S, Z, 4).unwrap();
    let out = b.new_tag().unwrap();
    b.new_agent(ADD, xs, &[out, ys]).unwrap();
    let mut m = b.seal();
    let (interactions, _) = m.run().unwrap();
    assert_eq!(interactions, 4);
    assert_eq!(read_number(&m, out), 7);
}

#[test]
fn a_rule_of_addition_refuses_what_it_cannot_rewrite() {
    let mut b = builder();
    let p = b.new_tag().unwrap();
    let x = b.new_agent(S, p, &[p]).unwrap();
    // An addition agent with one port only, met by a successor agent.
    let y = b.new_agent(ADD, x, &[p]).unwrap();
    let mut m = b.seal();
    assert_eq!(m.step(), Ok(true));
    assert_eq!(m.step(), Err(Error::RuleRefused { lhs_type: ADD, rhs_type: S }));
    assert_eq!(m.counters(), (0, 1));
    assert!(m.get_agent(x).is_some());
    assert!(m.get_agent(y).is_some());
}

#[test]
fn the_successor_rule_needs_room_for_three_agents() {
    let mut b: MachineBuilder<Addition> = MachineBuilder::with_capacity(6);
    assert_eq!((b.new_type(), b.new_type(), b.new_type()), (ADD, S, Z));
    b.new_rule(ADD, S, Addition::Successor { add: ADD, succ: S });
    let x = b.new_tag().unwrap();
    let y = b.new_tag().unwrap();
    let out = b.new_tag().unwrap();
    let s = b.new_agent(S, x, &[y]).unwrap();
    let add = b.new_agent(ADD, x, &[out, y]).unwrap();
    let mut m = b.seal();
    // x is bound to the successor agent, the addition agent follows it there.
    assert_eq!(m.step(), Ok(true));
    assert_eq!(m.step(), Ok(true));
    assert_eq!(m.as_net().count(), 4);
    // Two slots are free, three are needed: nothing is built and nothing removed.
    assert_eq!(m.step(), Err(Error::AllocationFailed));
    assert_eq!(m.as_net().count(), 4);
    assert!(m.get_agent(s).is_some());
    assert!(m.get_agent(add).is_some());
    assert_eq!(m.counters(), (0, 2));
}

#[test]
fn the_successor_rule_needs_its_types() {
    let mut b: MachineBuilder<Addition> = MachineBuilder::new();
    assert_eq!((b.new_type(), b.new_type()), (0, 1));
    b.new_rule(0, 1, Addition::Successor { add: 0, succ: 7 });
    let x = b.new_tag().unwrap();
    let s = b.new_agent(1, x, &[x]).unwrap();
    b.new_agent(0, s, &[x, x]).unwrap();
    let mut m = b.seal();
    assert_eq!(m.run(), Err(Error::InvalidTypeId { actual: 7, cap: 1 }));
    assert_eq!(m.as_net().count(), 3);
}

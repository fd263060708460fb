use inet::{Agent, AgentStore};

fn name() -> Agent {
    Agent::Tag { is_ind: false, target: 0 }
}

#[test]
fn store_create_get_clear() {
    let mut store = AgentStore::new(2);
    let a = store.create_with(|fresh| fresh).unwrap();
    assert_eq!(store.get(a), Some(&name()));
    let b = store.create_with(|_| Agent::custom(7, &[a])).unwrap();
    assert_ne!(a, b);
    assert_eq!(store.get(b), Some(&Agent::Custom { type_id: 7, ports: vec![a] }));
    assert_eq!(store.create_with(|fresh| fresh), None);
    assert!(store.clear(a));
    assert!(!store.clear(a));
    assert_eq!(store.get(a), None);
    let c = store.create_with(|fresh| fresh).unwrap();
    assert_eq!(c, a);
}

#[test]
fn a_slot_is_reset_before_it_is_handed_out_again() {
    let mut store = AgentStore::new(4);
    let a = store.create_with(|_| Agent::custom(3, &[1, 2, 3])).unwrap();
    assert!(store.clear(a));
    let mut seen = None;
    let b = store
        .create_with(|fresh| {
            seen = Some(fresh.clone());
            fresh
        })
        .unwrap();
    assert_eq!(b, a);
    assert_eq!(seen, Some(name()));
    assert_eq!(store.get(b), Some(&name()));

    let t = store.create_with(|fresh| fresh).unwrap();
    assert_eq!(store.bind(t, 9), Some(Ok(())));
    assert!(store.clear(t));
    let u = store.create_with(|fresh| fresh).unwrap();
    assert_eq!(u, t);
    assert_eq!(store.get(u), Some(&name()));
}

#[test]
fn a_cleared_id_stays_vacant_until_it_is_handed_out_again() {
    let mut store = AgentStore::new(8);
    let a = store.create_with(|fresh| fresh).unwrap();
    let b = store.create_with(|fresh| fresh).unwrap();
    let c = store.create_with(|fresh| fresh).unwrap();
    assert!(store.clear(b));
    assert_eq!(store.get(b), None);
    assert!(store.clear(c));
    assert_eq!(store.bind(a, 5), Some(Ok(())));
    assert_eq!(store.get(b), None);
    // The slot cleared last is handed out first.
    assert_eq!(store.create_with(|fresh| fresh), Some(c));
    assert_eq!(store.get(b), None);
    assert_eq!(store.create_with(|fresh| fresh), Some(b));
    assert_eq!(store.get(b), Some(&name()));
}

#[test]
fn the_store_fails_exactly_when_it_is_full() {
    let mut store = AgentStore::new(3);
    assert_eq!(store.capacity(), 3);
    for expected in 0..3 {
        assert_eq!(store.count(), expected);
        assert!(!store.is_full());
        assert_eq!(store.create_with(|fresh| fresh), Some(expected));
    }
    assert!(store.is_full());
    let mut called = false;
    assert_eq!(
        store.create_with(|fresh| {
            called = true;
            fresh
        }),
        None
    );
    assert!(!called);
    assert_eq!(store.count(), 3);
    assert!(store.clear(1));
    assert!(!store.is_full());
    assert_eq!(store.create_with(|fresh| fresh), Some(1));

    let mut none = AgentStore::new(0);
    assert!(none.is_full());
    assert_eq!(none.create_with(|fresh| fresh), None);
}

#[test]
fn get_and_clear_of_unknown_ids() {
    let mut store = AgentStore::new(4);
    assert_eq!(store.get(0), None);
    assert_eq!(store.get(usize::MAX), None);
    assert!(!store.clear(0));
    assert!(!store.clear(usize::MAX));
    assert_eq!(store.bind(0, 1), None);
    assert_eq!(store.count(), 0);
}

#[test]
fn a_tag_is_bound_once() {
    let mut store = AgentStore::new(4);
    let t = store.create_with(|fresh| fresh).unwrap();
    let c = store.create_with(|_| Agent::custom(0, &[])).unwrap();
    assert_eq!(store.bind(t, 7), Some(Ok(())));
    assert_eq!(store.get(t), Some(&Agent::Tag { is_ind: true, target: 7 }));
    assert_eq!(store.bind(t, 8), Some(Err(7)));
    assert_eq!(store.bind(t, 9), Some(Err(7)));
    assert_eq!(store.get(t), Some(&Agent::Tag { is_ind: true, target: 7 }));
    assert_eq!(store.bind(c, 7), None);
    assert_eq!(store.get(c), Some(&Agent::Custom { type_id: 0, ports: vec![] }));

    let mut tag = name();
    assert_eq!(tag.bind(3), Ok(()));
    assert_eq!(tag, Agent::Tag { is_ind: true, target: 3 });
    assert_eq!(tag.bind(4), Err(3));
    assert_eq!(tag, Agent::Tag { is_ind: true, target: 3 });
}

#[test]
fn ports_of_a_custom_agent() {
    let mut agent = Agent::custom(1, &[4, 5]);
    assert_eq!(agent.ports(), &vec![4, 5]);
    agent.ports_mut().push(6);
    agent.ports_mut()[0] = 9;
    assert_eq!(agent, Agent::Custom { type_id: 1, ports: vec![9, 5, 6] });
    assert_eq!(Agent::default(), name());
    assert_eq!(Agent::name(), name());
}

#[test]
fn drop_reachable_clears_what_the_roots_lead_to() {
    let mut store = AgentStore::new(16);
    // 0: name, 1: indirection to 2, 2: custom [0, 3], 3: custom [2] (a cycle),
    // 4: custom [5], 5: name, 6: indirection to 4 (not reached).
    let ids: Vec<usize> = vec![
        store.create_with(|fresh| fresh).unwrap(),
        store.create_with(|fresh| fresh).unwrap(),
        store.create_with(|_| Agent::custom(0, &[0, 3])).unwrap(),
        store.create_with(|_| Agent::custom(0, &[2])).unwrap(),
        store.create_with(|_| Agent::custom(1, &[5])).unwrap(),
        store.create_with(|fresh| fresh).unwrap(),
        store.create_with(|fresh| fresh).unwrap(),
    ];
    assert_eq!(ids, vec![0, 1, 2, 3, 4, 5, 6]);
    assert_eq!(store.bind(1, 2), Some(Ok(())));
    assert_eq!(store.bind(6, 4), Some(Ok(())));
    store.drop_reachable(vec![1, 99]);
    for gone in [0, 1, 2, 3] {
        assert_eq!(store.get(gone), None);
    }
    assert_eq!(store.get(4), Some(&Agent::Custom { type_id: 1, ports: vec![5] }));
    assert_eq!(store.get(5), Some(&name()));
    assert_eq!(store.get(6), Some(&Agent::Tag { is_ind: true, target: 4 }));
    assert_eq!(store.count(), 3);
    store.drop_reachable(vec![]);
    assert_eq!(store.count(), 3);
    store.drop_reachable(vec![5]);
    assert_eq!(store.count(), 2);
    store.drop_reachable(vec![6, 6]);
    assert_eq!(store.count(), 0);
}

#[test]
fn drop_reachable_does_not_follow_unbound_names() {
    let mut store = AgentStore::new(4);
    // A name whose target field is not 0 in effect: names have no target.
    let t = store.create_with(|_| Agent::Tag { is_ind: false, target: 1 }).unwrap();
    let c = store.create_with(|_| Agent::custom(0, &[])).unwrap();
    assert_eq!((t, c), (0, 1));
    store.drop_reachable(vec![t]);
    assert_eq!(store.get(t), None);
    assert_eq!(store.get(c), Some(&Agent::Custom { type_id: 0, ports: vec![] }));
}

#[test]
fn drop_reachable_looks_at_shared_agents_once() {
    let mut store = AgentStore::new(64);
    // A diamond over a shared tail: 0 -> {1, 2}, 1 -> {3, 3}, 2 -> {3, 0}, 3 -> {4}; 5 apart.
    store.create_with(|_| Agent::custom(0, &[1, 2])).unwrap();
    store.create_with(|_| Agent::custom(0, &[3, 3])).unwrap();
    store.create_with(|_| Agent::custom(0, &[3, 0])).unwrap();
    store.create_with(|_| Agent::custom(0, &[4])).unwrap();
    store.create_with(|fresh| fresh).unwrap();
    store.create_with(|_| Agent::custom(0, &[0])).unwrap();
    store.drop_reachable(vec![0, 0, 1, 0]);
    for gone in 0..5 {
        assert_eq!(store.get(gone), None);
    }
    assert_eq!(store.get(5), Some(&Agent::Custom { type_id: 0, ports: vec![0] }));
    assert_eq!(store.count(), 1);
    // What 5 points to is gone already; only 5 itself is left to clear.
    store.drop_reachable(vec![5]);
    assert_eq!(store.count(), 0);
}

#[test]
fn drop_reachable_of_a_long_chain() {
    let mut store = AgentStore::new(100_000);
    let n = 50_000;
    for id in 0..n {
        assert_eq!(store.create_with(|_| Agent::custom(0, &[id + 1, id / 2])), Some(id));
    }
    store.drop_reachable(vec![0]);
    assert_eq!(store.count(), 0);
}

use lol_core::env::{consensus_of, eventually, wait_for_consensus, Environment, NodeCommand};
use std::cell::RefCell;
use std::time::Duration;

#[test]
fn test_wait_for_consensus() {
    let mut nodes = vec![];
    for i in 0..100 {
        nodes.push(i);
    }

    let r = wait_for_consensus(Duration::from_secs(1), nodes.clone(), |id| Some(id));
    assert_eq!(r, None);
    let r = wait_for_consensus(Duration::from_secs(1), nodes.clone(), |_| Some(10));
    assert_eq!(r, Some(10));
    let r = wait_for_consensus(Duration::from_secs(1), nodes.clone(), |_| {
        None as Option<u8>
    });
    assert_eq!(r, None);
    let r = wait_for_consensus(Duration::from_secs(1), nodes.clone(), |id| match id {
        0 => Some(0),
        _ => None,
    });
    assert_eq!(r, None);
}

#[test]
fn test_consensus_of_rounds() {
    assert_eq!(consensus_of(vec![Some(7u64), Some(7), Some(7)]), Some(7));
    assert_eq!(consensus_of(vec![Some(7u64), Some(8), Some(7)]), None);
    assert_eq!(consensus_of(vec![Some(7u64), None, Some(7)]), None);
    assert_eq!(consensus_of(vec![None as Option<u8>]), None);
    assert_eq!(consensus_of(vec![Some(3u8)]), Some(3));
}

#[test]
fn test_eventually() {
    assert!(eventually(Duration::from_secs(1), 5u8, || 5u8));
    // the first evaluation happens before any deadline check
    assert!(eventually(Duration::from_secs(0), 5u8, || 5u8));
    assert!(!eventually(Duration::from_millis(50), 5u8, || 6u8));
    let count = RefCell::new(0u32);
    let hit = eventually(Duration::from_secs(5), 3u32, || {
        let mut c = count.borrow_mut();
        *c += 1;
        *c
    });
    assert!(hit);
}

#[test]
fn test_environment_registry() {
    let mut env = Environment::new();
    let p = env.start(1, 4000);
    assert_eq!(p, 4000);
    // restarting the same id keeps its port
    let p2 = env.start(1, 5000);
    assert_eq!(p2, 4000);
    assert_eq!(env.get_node_id(1), "http://localhost:4000/");
    let p3 = env.start(2, 4100);
    assert_eq!(p3, 4100);
    assert_eq!(env.get_node_id(2), "http://localhost:4100/");
    env.pause(1);
    env.unpause(1);
    env.stop(1);
    // ports survive a stop, so a restarted node is reachable under its old id
    assert_eq!(env.get_node_id(1), "http://localhost:4000/");
    env.stop_all();
}

#[test]
fn test_node_command() {
    let cmd = NodeCommand::new("kvs-server").with_args(vec!["--copy-snapshot-mode".to_string()]);
    assert_eq!(cmd.args.len(), 1);
    assert_eq!(cmd.args[0], "--copy-snapshot-mode");
}

/// Three simulated nodes: after a leader replicates a write, every node's
/// last applied value converges; after the leader stops, the rest still
/// agree on the survivors' value.
#[test]
fn test_three_node_convergence() {
    let applied: RefCell<[Option<u64>; 3]> = RefCell::new([None, None, None]);
    // a leader is elected and replicates the value 42 to everyone
    {
        let mut a = applied.borrow_mut();
        a[0] = Some(42);
        a[1] = Some(42);
        a[2] = Some(42);
    }
    let read = |id: u8| applied.borrow()[id as usize];
    let r = wait_for_consensus(Duration::from_secs(1), vec![0, 1, 2], read);
    assert_eq!(r, Some(42));
    // the leader stops; the remaining nodes converge on a new value
    {
        let mut a = applied.borrow_mut();
        a[0] = None;
        a[1] = Some(43);
        a[2] = Some(43);
    }
    let read = |id: u8| applied.borrow()[id as usize];
    let r = wait_for_consensus(Duration::from_secs(1), vec![1, 2], read);
    assert_eq!(r, Some(43));
}

use lol_core::query::{next_directive, ExecutorDirective, QueryQueue, RaftApp};

/// A toy application: answers every read with the payload, uppercased.
struct EchoApp {
    calls: u32,
}

impl RaftApp for EchoApp {
    fn process_query(&mut self, payload: &[u8]) -> Vec<u8> {
        self.calls += 1;
        payload.iter().map(|b| b.to_ascii_uppercase()).collect()
    }
}

#[test]
fn test_submit_then_release_in_order() {
    let mut q = QueryQueue::new();
    let mut app = EchoApp { calls: 0 };
    let h_c = q.submit(3, b"c".to_vec());
    let h_a = q.submit(1, b"a".to_vec());
    let h_b = q.submit(2, b"b".to_vec());
    assert_eq!((h_c, h_a, h_b), (0, 1, 2));

    // nothing is eligible before the applied index reaches a position
    let (did, out) = q.execute(0, &mut app);
    assert!(!did);
    assert!(out.is_empty());
    assert_eq!(app.calls, 0);

    // applied = 2 releases exactly the two mature reads, in queue order
    let (did, out) = q.execute(2, &mut app);
    assert!(did);
    assert_eq!(out.len(), 2);
    assert_eq!(out[0].handle, h_a);
    assert_eq!(out[0].value, b"A".to_vec());
    assert_eq!(out[1].handle, h_b);
    assert_eq!(out[1].value, b"B".to_vec());
    assert_eq!(app.calls, 2);

    // a released query is gone: re-running does nothing
    let (did, out) = q.execute(2, &mut app);
    assert!(!did);
    assert!(out.is_empty());

    // the remaining read is released once the index catches up
    let (did, out) = q.execute(3, &mut app);
    assert!(did);
    assert_eq!(out.len(), 1);
    assert_eq!(out[0].handle, h_c);
    assert_eq!(out[0].value, b"C".to_vec());
}

#[test]
fn test_equal_positions_release_together() {
    let mut q = QueryQueue::new();
    let mut app = EchoApp { calls: 0 };
    let h1 = q.submit(5, b"x".to_vec());
    let h2 = q.submit(5, b"y".to_vec());
    let (did, out) = q.execute(5, &mut app);
    assert!(did);
    // ties keep arrival order
    assert_eq!(out[0].handle, h1);
    assert_eq!(out[1].handle, h2);
}

#[test]
fn test_already_satisfied_query_waits_for_a_pass() {
    let mut q = QueryQueue::new();
    let mut app = EchoApp { calls: 0 };
    // submission at an index that is already applied does not resolve inline
    let h = q.submit(0, b"now".to_vec());
    assert_eq!(app.calls, 0);
    let (did, out) = q.execute(7, &mut app);
    assert!(did);
    assert_eq!(out[0].handle, h);
}

#[test]
fn test_shutdown_drains_unresolved_queries() {
    let mut q = QueryQueue::new();
    let h1 = q.submit(100, b"never".to_vec());
    let h2 = q.submit(200, b"ever".to_vec());
    // the node shuts down before the applied index reaches the queries
    let abandoned = q.drain_unresolved();
    assert_eq!(abandoned, vec![h1, h2]);
    // nothing is left to release afterwards
    let mut app = EchoApp { calls: 0 };
    let (did, out) = q.execute(u64::MAX, &mut app);
    assert!(!did);
    assert!(out.is_empty());
}

#[test]
fn test_executor_directive() {
    assert_eq!(next_directive(true), ExecutorDirective::RunAgain);
    assert_eq!(next_directive(false), ExecutorDirective::AwaitNotifyOrTimeout);
}

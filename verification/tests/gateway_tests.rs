use lol_core::gateway::{follow_redirect, Connector, GatewayError, Resolver, RpcResponse};

struct PortResolver;

impl Resolver for PortResolver {
    fn resolve(&self, id: u64) -> String {
        format!("http://localhost:{}/", 4000 + id)
    }
}


#[test]
fn test_redirect_then_success_is_transparent() {
    let connector = Connector::new(PortResolver, 3);
    let mut gw = connector.connect(0);
    assert_eq!(gw.current_target(&connector), "http://localhost:4000/");
    // node 0 defers to node 2, which answers: the caller sees only the answer
    let responses = vec![
        RpcResponse::NotLeader(Some(2)),
        RpcResponse::Success(b"ok".to_vec()),
    ];
    assert_eq!(gw.run_call(&responses), Ok(b"ok".to_vec()));
    // the handle now points at the hinted leader
    assert_eq!(gw.current_target(&connector), "http://localhost:4002/");
}

#[test]
fn test_redirects_up_to_the_bound() {
    let connector = Connector::new(PortResolver, 3);
    let mut gw = connector.connect(0);
    // three redirects, then a hit: exactly the configured bound
    let responses = vec![
        RpcResponse::NotLeader(Some(1)),
        RpcResponse::NotLeader(None),
        RpcResponse::NotLeader(Some(2)),
        RpcResponse::Success(b"late".to_vec()),
    ];
    assert_eq!(gw.run_call(&responses), Ok(b"late".to_vec()));
    // hint 1, a hintless probe to 2, then hint 2: the leader the call found
    assert_eq!(gw.current_target(&connector), "http://localhost:4002/");
}

#[test]
fn test_redirect_loop_exceeded() {
    let connector = Connector::new(PortResolver, 2);
    let mut gw = connector.connect(0);
    // leadership never stabilizes: the bound is spent, then the error surfaces
    let responses = vec![
        RpcResponse::NotLeader(Some(1)),
        RpcResponse::NotLeader(Some(2)),
        RpcResponse::NotLeader(Some(0)),
        RpcResponse::Success(b"too-late".to_vec()),
    ];
    assert_eq!(gw.run_call(&responses), Err(GatewayError::RedirectLoopExceeded));
}

#[test]
fn test_follow_redirect_steps() {
    assert_eq!(follow_redirect(0, &Some(7)), 7);
    assert_eq!(follow_redirect(3, &None), 4);
    assert_eq!(follow_redirect(u64::MAX, &None), 0);
}

#[test]
fn test_no_leader_available() {
    let connector = Connector::new(PortResolver, 5);
    let mut gw = connector.connect(0);
    // every reachable node defers and nobody else answers
    let responses = vec![RpcResponse::NotLeader(None), RpcResponse::NotLeader(None)];
    assert_eq!(gw.run_call(&responses), Err(GatewayError::NoLeaderAvailable));
    // no answers at all behaves the same
    assert_eq!(gw.run_call(&vec![]), Err(GatewayError::NoLeaderAvailable));
}

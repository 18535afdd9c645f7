use diststore::drop_tables::{DropTables, TableReference};
use diststore::planner::{limit, ClauseValue, Limit, PlanError};
use diststore::raft_client::{Empty, Endpoint, ForwardToLeader, LeaderRetry, RpcFailure, MAX_ATTEMPTS};

fn forward(id: u64, addr: &str) -> RpcFailure {
    RpcFailure::Remote(Some(ForwardToLeader { leader_id: Some(id), leader_addr: Some(addr.to_string()) }))
}

#[test]
fn requests_and_their_paths() {
    let all = [
        (Endpoint::Write, "api/write", true, true),
        (Endpoint::Read, "api/read", false, true),
        (Endpoint::ConsistentRead, "api/consistent_read", false, true),
        (Endpoint::Init, "cluster/init", false, true),
        (Endpoint::AddLearner, "cluster/add-learner", true, true),
        (Endpoint::ChangeMembership, "cluster/change-membership", true, true),
        (Endpoint::Metrics, "cluster/metrics", false, false),
    ];
    for (e, uri, follows, body) in all {
        assert_eq!(e.uri(), uri);
        assert_eq!(e.follows_leader(), follows);
        assert_eq!(e.has_body(), body);
    }
    assert_eq!(Empty, Empty {});
}

#[test]
fn client_follows_the_leader_three_times_at_most() {
    assert_eq!(MAX_ATTEMPTS, 3);
    let mut retry = LeaderRetry::new(1, "10.0.0.1:80".to_string());
    assert_eq!(retry.leader_id(), 1);
    assert_eq!(retry.leader_addr(), "10.0.0.1:80");

    assert!(retry.on_failure(&forward(2, "10.0.0.2:80")));
    assert_eq!((retry.leader_id(), retry.leader_addr().as_str()), (2, "10.0.0.2:80"));
    assert!(retry.on_failure(&forward(3, "10.0.0.3:80")));
    // The third failure turns the client to the leader, but the request is
    // not sent again.
    assert!(!retry.on_failure(&forward(4, "10.0.0.4:80")));
    assert_eq!((retry.leader_id(), retry.leader_addr().as_str()), (4, "10.0.0.4:80"));
    assert!(!retry.on_failure(&forward(5, "10.0.0.5:80")));
    assert_eq!(retry.leader_id(), 5);
}

#[test]
fn other_failures_end_the_request() {
    let failures = [
        RpcFailure::Network,
        RpcFailure::Remote(None),
        RpcFailure::Remote(Some(ForwardToLeader { leader_id: None, leader_addr: Some("a".to_string()) })),
        RpcFailure::Remote(Some(ForwardToLeader { leader_id: Some(9), leader_addr: None })),
        RpcFailure::Remote(Some(ForwardToLeader { leader_id: None, leader_addr: None })),
    ];
    for f in failures.iter() {
        let mut retry = LeaderRetry::new(1, "10.0.0.1:80".to_string());
        assert!(!retry.on_failure(f));
        assert_eq!((retry.leader_id(), retry.leader_addr().as_str()), (1, "10.0.0.1:80"));
        // No attempt was used up.
        assert!(retry.on_failure(&forward(2, "b")));
        assert!(retry.on_failure(&forward(3, "c")));
        assert!(!retry.on_failure(&forward(4, "d")));
    }
}

#[test]
fn limits() {
    let int = |n: i64| Some(ClauseValue::Int64(Some(n)));
    assert_eq!(limit(None, None), Ok(None));
    assert_eq!(limit(int(0), None), Ok(Some(Limit { skip: 0, fetch: None })));
    assert_eq!(limit(int(5), int(7)), Ok(Some(Limit { skip: 5, fetch: Some(7) })));
    assert_eq!(limit(None, int(0)), Ok(Some(Limit { skip: 0, fetch: Some(0) })));
    assert_eq!(limit(None, Some(ClauseValue::Null)), Ok(Some(Limit { skip: 0, fetch: None })));
    assert_eq!(limit(int(3), Some(ClauseValue::Null)), Ok(Some(Limit { skip: 3, fetch: None })));

    assert_eq!(limit(int(-1), int(7)), Err(PlanError::NegativeOffset(-1)));
    assert_eq!(limit(int(i64::MIN), None), Err(PlanError::NegativeOffset(i64::MIN)));
    assert_eq!(limit(Some(ClauseValue::Other), int(7)), Err(PlanError::UnexpectedOffset));
    assert_eq!(limit(Some(ClauseValue::Null), None), Err(PlanError::UnexpectedOffset));
    assert_eq!(limit(Some(ClauseValue::Int64(None)), None), Err(PlanError::UnexpectedOffset));
    assert_eq!(limit(None, int(-1)), Err(PlanError::NegativeLimit));
    assert_eq!(limit(int(1), Some(ClauseValue::Other)), Err(PlanError::NegativeLimit));
    assert_eq!(limit(int(1), Some(ClauseValue::Int64(None))), Err(PlanError::NegativeLimit));
    // The offset is looked at first.
    assert_eq!(limit(int(-2), int(-3)), Err(PlanError::NegativeOffset(-2)));
    assert_eq!(limit(Some(ClauseValue::Other), int(-3)), Err(PlanError::UnexpectedOffset));
}

fn brief(t: &TableReference) -> Vec<String> {
    match t {
        TableReference::Bare { table } => vec![table.clone()],
        TableReference::Partial { schema, table } => vec![schema.clone(), table.clone()],
        TableReference::Full { catalog, schema, table } => vec![catalog.clone(), schema.clone(), table.clone()],
    }
}

#[test]
fn drop_tables_node() {
    let node = DropTables {
        names: vec![
            TableReference::Bare { table: "t".to_string() },
            TableReference::Partial { schema: "s".to_string(), table: "t".to_string() },
            TableReference::Full { catalog: "c".to_string(), schema: "s".to_string(), table: "t".to_string() },
        ],
        if_exists: true,
    };
    assert_eq!(node.name(), "DropTables");
    assert_eq!(node.fmt_for_explain(), "DropTables");
    let copy = node.from_template();
    assert_eq!(copy.if_exists, true);
    let names: Vec<Vec<String>> = copy.names.iter().map(brief).collect();
    assert_eq!(names, vec![vec!["t"], vec!["s", "t"], vec!["c", "s", "t"]]);
    let none = DropTables { names: vec![], if_exists: false }.from_template();
    assert!(none.names.is_empty() && !none.if_exists);
}

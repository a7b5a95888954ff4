use graph_gateway::engine::{
    classify_response, remaining_unresolved, resolve_deployment, APIKey, Action, Attestation,
    BlockHead, BlockPointer, Event, Execution, IndexerQuery, IndexerResponse, ObservationKind,
    QueryEngineError, ResponseKind, SelectionFailure, Subgraph, UnresolvedBlock,
};
use graph_gateway::selection::{Address, DeploymentId, Indexing, GRT};

fn address(id: u8) -> Address {
    let mut bytes = [0u8; 20];
    bytes[19] = id;
    Address { bytes }
}

fn deployment(id: u8) -> DeploymentId {
    DeploymentId { bytes: [id; 32] }
}

fn api_key(deployments: Vec<DeploymentId>) -> APIKey {
    APIKey {
        id: 1,
        key: "key".to_string(),
        user_id: 2,
        user_address: address(200),
        queries_activated: true,
        deployments,
        subgraphs: vec![],
        domains: vec![],
    }
}

fn query(indexer: u8, fee: &str) -> IndexerQuery {
    IndexerQuery {
        indexing: Indexing { indexer: address(indexer), deployment: deployment(1) },
        fee: GRT::from_str(fee).unwrap(),
        utility: 500_000,
        blocks_behind: 0,
        query: "{ entities { id } }".to_string(),
        variables: None,
    }
}

fn response(body: &str) -> IndexerResponse {
    IndexerResponse {
        graphql_response: body.to_string(),
        attestation: Attestation {
            request_cid: [0; 32],
            response_cid: [0; 32],
            deployment: [1; 32],
            v: 27,
            r: [0; 32],
            s: [0; 32],
        },
    }
}

const BEHIND: &str = r#"{"errors":[{"message":"Failed to decode `block.hash` value: `no block with that hash found`"}]}"#;
const GOOD: &str = r#"{"data":{"entities":[{"id":"1"}]}}"#;

#[test]
fn indexer_behind_then_second_succeeds() {
    let mut exec = Execution::new(vec![address(1), address(2)], GRT::from_str("1").unwrap(), 3);
    let mut observations = Vec::new();
    let step = exec.step(Event::Start);
    match step.action {
        Action::Select { candidates, budget } => {
            assert_eq!(candidates, vec![address(1), address(2)]);
            assert_eq!(budget.to_string(), "1");
        }
        other => panic!("unexpected {:?}", other),
    }
    let step = exec.step(Event::Selected(Ok(vec![query(1, "0.1"), query(2, "0.2")])));
    match step.action {
        Action::Dispatch(d) => assert_eq!(d.len(), 2),
        other => panic!("unexpected {:?}", other),
    }
    assert_eq!(exec.budget.to_string(), "0.7");
    let step = exec.step(Event::Responded {
        indexer: address(1),
        result: Ok(response(BEHIND)),
        duration_ms: 10,
    });
    observations.extend(step.observation);
    assert!(matches!(step.action, Action::Wait));
    assert_eq!(exec.candidates, vec![address(2)]);
    let step = exec.step(Event::Responded {
        indexer: address(2),
        result: Ok(response(GOOD)),
        duration_ms: 20,
    });
    observations.extend(step.observation);
    let mut responses = 0;
    match step.action {
        Action::Finish(Ok(r)) => {
            assert_eq!(r.query.indexing.indexer, address(2));
            assert_eq!(r.response.graphql_response, GOOD);
            responses += 1;
        }
        other => panic!("unexpected {:?}", other),
    }
    assert_eq!(responses, 1);
    let behind = observations.iter().filter(|o| o.kind == ObservationKind::IndexingBehind).count();
    let failures = observations
        .iter()
        .filter(|o| matches!(o.kind, ObservationKind::Failure { .. }))
        .count();
    assert_eq!(behind, 1);
    assert_eq!(failures, 0);
    assert_eq!(observations[1].kind, ObservationKind::Success { duration_ms: 20 });
}

#[test]
fn failures_retry_until_the_limit() {
    let mut exec = Execution::new(vec![address(1), address(2)], GRT::from_str("1").unwrap(), 2);
    assert!(matches!(exec.step(Event::Start).action, Action::Select { .. }));
    exec.step(Event::Selected(Ok(vec![query(1, "0.1")])));
    let step = exec.step(Event::Responded {
        indexer: address(1),
        result: Err("connection refused".to_string()),
        duration_ms: 5,
    });
    assert_eq!(step.observation.unwrap().kind, ObservationKind::Failure { penalize: true });
    match step.action {
        Action::Select { candidates, .. } => assert_eq!(candidates, vec![address(2)]),
        other => panic!("unexpected {:?}", other),
    }
    exec.step(Event::Selected(Ok(vec![query(2, "0.1")])));
    let step = exec.step(Event::Responded {
        indexer: address(2),
        result: Ok(response("not json")),
        duration_ms: 5,
    });
    assert_eq!(step.observation.unwrap().kind, ObservationKind::Failure { penalize: true });
    assert!(matches!(step.action, Action::Finish(Err(QueryEngineError::NoIndexerSelected))));
}

#[test]
fn malformed_query_issues_no_request() {
    let mut exec = Execution::new(vec![address(1)], GRT::from_str("1").unwrap(), 3);
    exec.step(Event::Start);
    let step = exec.step(Event::Selected(Err(SelectionFailure::BadInput)));
    assert!(step.observation.is_none());
    assert!(matches!(step.action, Action::Finish(Err(QueryEngineError::MalformedQuery))));
    assert!(exec.pending.is_empty());
}

#[test]
fn missing_blocks_are_resolved_or_reported() {
    let mut exec = Execution::new(vec![address(1)], GRT::from_str("1").unwrap(), 3);
    exec.step(Event::Start);
    let wanted = vec![UnresolvedBlock::WithNumber(5), UnresolvedBlock::WithHash([9; 32])];
    let step = exec.step(Event::Selected(Err(SelectionFailure::MissingBlocks(wanted.clone()))));
    match step.action {
        Action::ResolveBlocks(b) => assert_eq!(b, wanted),
        other => panic!("unexpected {:?}", other),
    }
    let heads = vec![BlockHead { block: BlockPointer { number: 5, hash: [1; 32] } }];
    let step = exec.step(Event::BlocksResolved(heads));
    match step.action {
        Action::Finish(Err(QueryEngineError::MissingBlocks(left))) => {
            assert_eq!(left, vec![UnresolvedBlock::WithHash([9; 32])])
        }
        other => panic!("unexpected {:?}", other),
    }
    let mut exec = Execution::new(vec![address(1)], GRT::from_str("1").unwrap(), 3);
    exec.step(Event::Start);
    exec.step(Event::Selected(Err(SelectionFailure::MissingBlocks(wanted.clone()))));
    let heads = vec![
        BlockHead { block: BlockPointer { number: 7, hash: [9; 32] } },
        BlockHead { block: BlockPointer { number: 5, hash: [1; 32] } },
    ];
    let step = exec.step(Event::BlocksResolved(heads));
    assert!(matches!(step.action, Action::Select { .. }));
    assert_eq!(exec.attempts, 2);
}

#[test]
fn retry_limit_zero_selects_nothing() {
    let mut exec = Execution::new(vec![address(1)], GRT::from_str("1").unwrap(), 0);
    let step = exec.step(Event::Start);
    assert!(matches!(step.action, Action::Finish(Err(QueryEngineError::NoIndexerSelected))));
    let mut exec = Execution::new(vec![address(1)], GRT::from_str("1").unwrap(), 1);
    exec.step(Event::Start);
    let step = exec.step(Event::Selected(Ok(vec![])));
    assert!(matches!(step.action, Action::Finish(Err(QueryEngineError::NoIndexerSelected))));
}

#[test]
fn unresolved_blocks_left_after_resolution() {
    let unresolved = vec![
        UnresolvedBlock::WithNumber(1),
        UnresolvedBlock::WithNumber(2),
        UnresolvedBlock::WithHash([3; 32]),
    ];
    let heads = vec![BlockHead { block: BlockPointer { number: 2, hash: [3; 32] } }];
    assert_eq!(
        remaining_unresolved(&unresolved, &heads),
        vec![UnresolvedBlock::WithNumber(1)]
    );
}

#[test]
fn deployments_resolve_by_name_and_key() {
    let names = vec![("a/b".to_string(), deployment(4))];
    let any = api_key(vec![]);
    assert!(matches!(
        resolve_deployment(&Subgraph::Name("a/b".to_string()), &names, &any),
        Ok(d) if d == deployment(4)
    ));
    assert!(matches!(
        resolve_deployment(&Subgraph::Name("x/y".to_string()), &names, &any),
        Err(QueryEngineError::SubgraphNotFound)
    ));
    let limited = api_key(vec![deployment(5)]);
    assert!(matches!(
        resolve_deployment(&Subgraph::Deployment(deployment(4)), &names, &limited),
        Err(QueryEngineError::APIKeySubgraphNotAuthorized)
    ));
    assert!(matches!(
        resolve_deployment(&Subgraph::Deployment(deployment(5)), &names, &limited),
        Ok(d) if d == deployment(5)
    ));
}

#[test]
fn responses_are_classified() {
    assert_eq!(classify_response(BEHIND), ResponseKind::Behind);
    assert_eq!(classify_response(GOOD), ResponseKind::Valid);
    assert_eq!(
        classify_response(r#"{"errors":[{"message":"other"}]}"#),
        ResponseKind::Valid
    );
    assert_eq!(classify_response("not json"), ResponseKind::Undecodable);
}

use graph_gateway::engine::UnresolvedBlock;
use graph_gateway::ipfs::ipfs_hash;
use graph_gateway::selection::{Address, DeploymentId, IndexerError, Indexing};
use graph_gateway::telemetry::{hex_string, query_status, ISAScoringError, Query, QueryId, QuerySubgraph, SelectionError};

fn query() -> Query {
    Query {
        ray_id: "ray".to_string(),
        id: QueryId { local_id: 42 },
        subgraph: Some(QuerySubgraph { deployment: DeploymentId { bytes: [0xab; 32] }, network: "mainnet".to_string() }),
    }
}

#[test]
fn scoring_error_codes_and_data() {
    let indexer = Address { bytes: [0x01; 20] };
    let q = query();
    let e = ISAScoringError::new(&q, &indexer, &SelectionError::BadInput, "msg");
    assert_eq!((e.error_code, e.error_data.as_str(), e.error.as_str()), (1, "", "BadInput"));
    assert_eq!(e.ray_id, "ray");
    assert_eq!(e.query_id, 42);
    assert_eq!(e.message, "msg");
    assert_eq!(e.indexer, format!("0x{}", "01".repeat(20)));
    assert!(e.deployment.starts_with("Qm"));
    assert_eq!(e.deployment.len(), 46);
    let e = ISAScoringError::new(&q, &indexer, &SelectionError::MissingNetworkParams, "");
    assert_eq!(e.error_code, 2);
    let e = ISAScoringError::new(&q, &indexer, &SelectionError::MissingBlock(UnresolvedBlock::WithNumber(17)), "");
    assert_eq!((e.error_code, e.error_data.as_str()), (3, "WithNumber(17)"));
    assert_eq!(e.error, "MissingBlock(WithNumber(17))");
    let e = ISAScoringError::new(&q, &indexer, &SelectionError::BadIndexer(IndexerError::NoStake), "");
    assert_eq!((e.error_code, e.error_data.as_str()), (4, "NoStake"));
    let indexing = Indexing { indexer, deployment: DeploymentId { bytes: [0; 32] } };
    let e = ISAScoringError::new(&q, &indexer, &SelectionError::NoAllocation(indexing), "");
    assert_eq!(e.error_code, 5);
    assert!(e.error_data.starts_with("Indexing { indexer: 0x0101"));
    let e = ISAScoringError::new(&q, &indexer, &SelectionError::FeesTooHigh(1234), "");
    assert_eq!((e.error_code, e.error_data.as_str(), e.error.as_str()), (6, "1234", "FeesTooHigh(1234)"));
}

#[test]
fn hex_strings() {
    assert_eq!(hex_string(&[]), "0x");
    assert_eq!(hex_string(&[0x0f, 0xa0, 0xff]), "0x0fa0ff");
}

#[test]
fn deployment_ids_display_as_ipfs_hashes() {
    assert_eq!(
        ipfs_hash(&DeploymentId { bytes: [0; 32] }),
        "QmNLei78zWmzUdbeRB3CiUfAizWUrbeeZh5K1rhAQKCh51"
    );
    let mut bytes = [0u8; 32];
    bytes[31] = 1;
    assert_ne!(ipfs_hash(&DeploymentId { bytes }), ipfs_hash(&DeploymentId { bytes: [0; 32] }));
}

#[test]
fn query_status_codes() {
    assert_eq!(query_status(&Ok("200 OK".to_string()), 77), ("200 OK".to_string(), 0));
    assert_eq!(query_status(&Err("boom".to_string()), 0x1_0000_0004), ("boom".to_string(), 5));
}

use graph_gateway::cost_model::CostModel;
use graph_gateway::actor::{IndexerInfo, IndexerUpdate, State, Update, PPM};
use graph_gateway::engine::ObservationKind;
use graph_gateway::selection::{
    select_indexers, Address, BlockRequirements, BlockStatus, DeploymentId, Indexing,
    IndexingStatus, UtilityParameters, GRT,
};

fn address(id: u8) -> Address {
    let mut bytes = [0u8; 20];
    bytes[19] = id;
    Address { bytes }
}

fn status() -> IndexingStatus {
    IndexingStatus {
        allocations: vec![(address(0), GRT::from_str("1").unwrap())],
        cost_model: Some(CostModel { rules: vec![], default_wei: Some(100) }),
        block: Some(BlockStatus {
            reported_number: 10,
            blocks_behind: 0,
            behind_reported_block: false,
            min_block: None,
        }),
    }
}

fn indexer_update(stake: &str, deployment: DeploymentId) -> IndexerUpdate {
    IndexerUpdate {
        info: IndexerInfo { url: "http://localhost:8000".to_string(), stake: GRT::from_str(stake).unwrap() },
        indexings: vec![(deployment, status())],
    }
}

#[test]
fn updates_fold_in_order() {
    let d = DeploymentId { bytes: [1; 32] };
    let mut state = State::new();
    state.apply_all(vec![
        Update::USDToGRTConversion(GRT::from_str("1.0").unwrap()),
        Update::SlashingPercentage(PPM::from_str("0.1").unwrap()),
        Update::USDToGRTConversion(GRT::from_str("2.0").unwrap()),
        Update::Indexers(vec![(address(1), indexer_update("100", d)), (address(2), indexer_update("0", d))]),
        Update::Observation(Indexing { indexer: address(1), deployment: d }, ObservationKind::IndexingBehind),
    ]);
    assert_eq!(state.usd_to_grt_conversion.unwrap().to_string(), "2");
    assert_eq!(state.slashing_percentage.unwrap().to_string(), "0.1");
    assert_eq!(state.indexers.len(), 2);
    assert_eq!(state.indexings.len(), 2);
    assert_eq!(state.indexings[1].0, Indexing { indexer: address(2), deployment: d });
    assert_eq!(state.observations.len(), 1);
    let cs = state.candidates(&d, &vec![address(2), address(3)], &vec![5, 6]);
    assert!(cs[0].stake.internal.is_zero());
    assert!(cs[0].status.block.is_some());
    assert!(cs[1].status.block.is_none());
    assert_eq!(cs[1].utility, 6);
}

#[test]
fn snapshot_is_isolated_from_later_updates() {
    let d = DeploymentId { bytes: [1; 32] };
    let mut state = State::new();
    state.apply(Update::Indexers(vec![
        (address(1), indexer_update("100", d)),
        (address(2), indexer_update("100", d)),
    ]));
    let snapshot = state.clone();
    state.apply(Update::Indexers(vec![(address(1), indexer_update("100", d))]));
    let params = UtilityParameters {
        budget: GRT::from_str("1").unwrap(),
        requirements: BlockRequirements { range: None, has_latest: false },
        latest_block: 10,
    };
    let indexers = vec![address(1), address(2)];
    let in_flight = snapshot.candidates(&d, &indexers, &vec![1, 2]);
    let (selections, errors) = select_indexers(&in_flight, &params, "{ a }", 5).unwrap();
    assert!(errors.is_empty());
    assert_eq!(selections.len(), 2);
    assert_eq!(selections[0].indexing.indexer, address(2));
    let fresh = state.candidates(&d, &indexers, &vec![1, 2]);
    let (selections, errors) = select_indexers(&fresh, &params, "{ a }", 5).unwrap();
    assert_eq!(selections.len(), 1);
    assert_eq!(errors.len(), 1);
}

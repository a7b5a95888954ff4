use graph_gateway::blocks::block_requirements;
use graph_gateway::cost_model::{price, selects, CostModel, CostRule};
use graph_gateway::decimal::UDecimal;
use graph_gateway::selection::{
    check_query, disqualify, select_indexers, Address, BlockRequirements, BlockStatus, Candidate,
    DeploymentId, IndexerError, Indexing, IndexingStatus, InputError,
    UtilityParameters, GRT, SELECTION_LIMIT,
};
use graph_gateway::utility::{data_freshness, price_efficiency};

fn address(id: u8) -> Address {
    let mut bytes = [0u8; 20];
    bytes[19] = id;
    Address { bytes }
}

fn grt(s: &str) -> GRT {
    GRT::from_str(s).unwrap()
}

fn candidate(id: u8, stake: &str, fee: &str, utility: u64, reported: Option<u64>) -> Candidate {
    Candidate {
        indexing: Indexing {
            indexer: address(id),
            deployment: DeploymentId { bytes: [7u8; 32] },
        },
        versions_behind: 0,
        stake: grt(stake),
        status: IndexingStatus {
            allocations: vec![(address(0), grt("1"))],
            cost_model: Some(CostModel { rules: vec![], default_wei: Some(grt(fee).internal.as_u128().unwrap()) }),
            block: reported.map(|n| BlockStatus {
                reported_number: n,
                blocks_behind: 0,
                behind_reported_block: false,
                min_block: None,
            }),
        },
        utility,
    }
}

fn params(budget: &str, required_block: Option<u64>) -> UtilityParameters {
    UtilityParameters {
        budget: grt(budget),
        requirements: BlockRequirements {
            range: required_block.map(|b| (0, b)),
            has_latest: false,
        },
        latest_block: 100,
    }
}

const QUERY: &str = "{ entities { id } }";

#[test]
fn budget_cap_skips_what_does_not_fit() {
    let cs = vec![
        candidate(1, "100000", "0.0007", 500_000, Some(10)),
        candidate(2, "100000", "0.0005", 500_000, Some(10)),
    ];
    let (selections, errors) = select_indexers(&cs, &params("0.001", None), QUERY, 5).unwrap();
    assert!(errors.is_empty());
    assert_eq!(selections.len(), 1);
    assert_eq!(selections[0].indexing.indexer, address(2));
    assert_eq!(selections[0].fee.to_string(), "0.0005");
}

#[test]
fn required_block_missing_is_rejected() {
    let cs = vec![candidate(1, "100000", "0.0001", 500_000, Some(80))];
    let (selections, errors) = select_indexers(&cs, &params("0.001", Some(100)), QUERY, 5).unwrap();
    assert!(selections.is_empty());
    assert_eq!(errors, vec![(IndexerError::MissingRequiredBlock, address(1))]);
}

#[test]
fn malformed_query_is_an_input_error() {
    let cs = vec![candidate(1, "100000", "0.0001", 500_000, Some(80))];
    assert_eq!(
        select_indexers(&cs, &params("0.001", None), "{ entities { id }", 5),
        Err(InputError::MalformedQuery)
    );
    assert!(!check_query("}{"));
    assert!(!check_query("query"));
    assert!(check_query("query { a { b } c }"));
}

#[test]
fn first_matching_reason_wins() {
    let p = params("0.001", Some(50));
    let no_status = candidate(1, "0", "1", 0, None);
    assert_eq!(disqualify(&no_status, &p, QUERY.as_bytes()), Some(IndexerError::NoStatus));
    let behind = candidate(2, "0", "1", 0, Some(10));
    assert_eq!(disqualify(&behind, &p, QUERY.as_bytes()), Some(IndexerError::MissingRequiredBlock));
    let no_stake = candidate(3, "0", "1", 0, Some(60));
    assert_eq!(disqualify(&no_stake, &p, QUERY.as_bytes()), Some(IndexerError::NoStake));
    let mut no_alloc = candidate(4, "1", "1", 0, Some(60));
    no_alloc.status.allocations = vec![(address(9), grt("0"))];
    assert_eq!(disqualify(&no_alloc, &p, QUERY.as_bytes()), Some(IndexerError::NoAllocation));
    let pricey = candidate(5, "1", "0.002", 0, Some(60));
    assert_eq!(disqualify(&pricey, &p, QUERY.as_bytes()), Some(IndexerError::FeeTooHigh));
    let fine = candidate(6, "1", "0.001", 0, Some(60));
    assert_eq!(disqualify(&fine, &p, QUERY.as_bytes()), None);
}

#[test]
fn ranking_orders_by_utility_then_fee_then_address() {
    let cs = vec![
        candidate(3, "1", "0.0001", 400_000, Some(10)),
        candidate(2, "1", "0.0001", 900_000, Some(10)),
        candidate(5, "1", "0.0002", 400_000, Some(10)),
        candidate(1, "1", "0.0001", 400_000, Some(10)),
    ];
    let (selections, _) = select_indexers(&cs, &params("1", None), QUERY, 5).unwrap();
    let order: Vec<Address> = selections.iter().map(|s| s.indexing.indexer).collect();
    assert_eq!(order, vec![address(2), address(1), address(3), address(5)]);
}

#[test]
fn selection_respects_limit_and_is_repeatable() {
    let cs: Vec<Candidate> =
        (1..=8).map(|i| candidate(i, "1", "0.00001", 1000 * i as u64, Some(10))).collect();
    let first = select_indexers(&cs, &params("1", None), QUERY, 3).unwrap();
    let second = select_indexers(&cs, &params("1", None), QUERY, 3).unwrap();
    assert_eq!(first, second);
    assert_eq!(first.0.len(), 3);
    let capped = select_indexers(&cs, &params("1", None), QUERY, 200).unwrap();
    assert_eq!(capped.0.len(), SELECTION_LIMIT);
    let none = select_indexers(&cs, &params("1", None), QUERY, 0).unwrap();
    assert!(none.0.is_empty());
}

#[test]
fn empty_candidates_select_nothing() {
    let (selections, errors) = select_indexers(&vec![], &params("1", None), QUERY, 5).unwrap();
    assert!(selections.is_empty());
    assert!(errors.is_empty());
}

// A small deterministic generator standing in for random topologies.
struct Lcg(u64);

impl Lcg {
    fn next(&mut self, bound: u64) -> u64 {
        self.0 = self.0.wrapping_mul(6364136223846793005).wrapping_add(1442695040888963407);
        (self.0 >> 33) % bound
    }
}

#[test]
fn generated_topologies_partition_candidates() {
    let mut rng = Lcg(17);
    let stakes = ["0", "50000", "100000", "150000"];
    let fees = ["0", "0.1", "1", "2"];
    for _ in 0..200 {
        let n = rng.next(4) as u8;
        let blocks = rng.next(6);
        let cs: Vec<Candidate> = (0..n)
            .map(|i| {
                let reported = if blocks == 0 { None } else { Some(rng.next(blocks)) };
                candidate(
                    i + 1,
                    stakes[rng.next(4) as usize],
                    fees[rng.next(4) as usize],
                    rng.next(1_000_000),
                    reported,
                )
            })
            .collect();
        let required = if blocks > 0 && rng.next(10) == 0 { Some(rng.next(blocks)) } else { None };
        let p = params("1.0", required);
        let limit = 1 + rng.next(SELECTION_LIMIT as u64) as u8;
        let (selections, errors) = select_indexers(&cs, &p, QUERY, limit).unwrap();
        let total = selections.iter().fold(0u128, |sum, s| sum + s.fee.internal.as_u128().unwrap());
        assert!(total <= p.budget.internal.as_u128().unwrap());
        assert!(selections.len() <= limit as usize);
        let expected: Vec<(IndexerError, Address)> = cs
            .iter()
            .filter_map(|c| disqualify(c, &p, QUERY.as_bytes()).map(|e| (e, c.indexing.indexer)))
            .collect();
        assert_eq!(errors, expected);
        if selections.is_empty() {
            assert_eq!(errors.len(), cs.len());
        }
        for s in &selections {
            assert!(errors.iter().all(|(_, a)| *a != s.indexing.indexer));
        }
    }
}

#[test]
fn utility_axes_in_parts_per_million() {
    assert_eq!(price_efficiency(&grt("0"), &grt("0.001")), 1_000_000);
    assert_eq!(price_efficiency(&grt("0.00025"), &grt("0.001")), 750_000);
    assert_eq!(price_efficiency(&grt("0.002"), &grt("0.001")), 0);
    assert_eq!(data_freshness(0, true), 1_000_000);
    assert_eq!(data_freshness(1, true), 0);
    assert_eq!(data_freshness(25_000, false), 500_000);
    assert_eq!(data_freshness(60_000, false), 0);
    let _ = UDecimal::<18>::zero();
}

fn rule(field: &str, price_wei: u128) -> CostRule {
    CostRule { field: field.as_bytes().to_vec(), price_wei }
}

#[test]
fn cost_model_prices_by_top_level_field() {
    let model = CostModel { rules: vec![rule("tokens", 5), rule("entities", 7)], default_wei: Some(11) };
    assert_eq!(price(&model, b"{ entities { id } }"), Some(7));
    assert_eq!(price(&model, b"{ tokens(first: 5) { id } entities { id } }"), Some(5));
    assert_eq!(price(&model, b"{ pairs { tokens { id } } }"), Some(11));
    assert_eq!(price(&model, b"{ pairs(where: { entities: 1 }) { id } }"), Some(11));
    assert!(selects(b"query q { entities { id } }", &b"entities".to_vec()));
    assert!(!selects(b"{ myentities { id } }", &b"entities".to_vec()));
    let strict = CostModel { rules: vec![rule("tokens", 5)], default_wei: None };
    assert_eq!(price(&strict, b"{ entities { id } }"), None);
}

#[test]
fn unpriced_query_is_nan() {
    let mut c = candidate(1, "1", "0", 500_000, Some(10));
    c.status.cost_model = Some(CostModel { rules: vec![rule("tokens", 5)], default_wei: None });
    let (selections, errors) = select_indexers(&vec![c], &params("1", None), QUERY, 5).unwrap();
    assert!(selections.is_empty());
    assert_eq!(errors, vec![(IndexerError::NaN, address(1))]);
}

#[test]
fn block_requirements_come_from_the_query() {
    let r = block_requirements(b"{ a(block: { number: 100 }) { id } b(block: {number:  7}) { id } }");
    assert_eq!(r, BlockRequirements { range: Some((7, 100)), has_latest: false });
    let r = block_requirements(b"{ a { id } }");
    assert_eq!(r, BlockRequirements { range: None, has_latest: true });
    let r = block_requirements(b"{ a(where: { blocknumber: 5, number: x }) { id } }");
    assert_eq!(r.range, None);
    let r = block_requirements(b"{ a(block: { number: 99999999999999999999999 }) { id } }");
    assert_eq!(r.range, None);
}

#[test]
fn required_block_from_query_text() {
    let q = "{ entities(block: { number: 100 }) { id } }";
    let mut p = params("0.001", None);
    p.requirements = block_requirements(q.as_bytes());
    let cs = vec![candidate(1, "100000", "0.0001", 500_000, Some(80))];
    let (selections, errors) = select_indexers(&cs, &p, q, 5).unwrap();
    assert!(selections.is_empty());
    assert_eq!(errors, vec![(IndexerError::MissingRequiredBlock, address(1))]);
}

use graph_gateway::selection::Address;
use graph_gateway::subscriptions::{
    active_subscription_end, subscription_entries, ActiveSubscription, AuthorizedSigner, User,
};

fn address(id: u8) -> Address {
    let mut bytes = [0u8; 20];
    bytes[0] = id;
    Address { bytes }
}

#[test]
fn subscriptions_include_the_user_as_signer() {
    let active = vec![ActiveSubscription {
        user: User {
            id: address(1),
            authorized_signers: vec![AuthorizedSigner { signer: address(2) }],
        },
        start: 0,
        end: 10,
        rate: 7,
    }];
    let entries = subscription_entries(&active).unwrap();
    assert_eq!(entries.len(), 1);
    assert_eq!(entries[0].0, address(1));
    assert_eq!(entries[0].1.signers, vec![address(2), address(1)]);
    assert_eq!(entries[0].1.rate, 7);
    assert_eq!(
        subscription_entries(&vec![]).unwrap_err(),
        "Discarding empty update (active_subscriptions)"
    );
}

#[test]
fn subscriptions_end_ten_minutes_back() {
    assert_eq!(active_subscription_end(1_700_000_000_123), 1_700_000_000 - 600);
}

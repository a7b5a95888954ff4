use crate::selection::Address;
use vstd::prelude::*;

verus! {

/// A signer that a user authorized to query on its behalf.
#[derive(Clone, Copy, Debug, PartialEq, Eq)]
pub struct AuthorizedSigner {
    pub signer: Address,
}

/// A subscribed user and its authorized signers.
#[derive(Clone, Debug)]
pub struct User {
    pub id: Address,
    pub authorized_signers: Vec<AuthorizedSigner>,
}

/// A subscription as the subscriptions subgraph returns it.
#[derive(Clone, Debug)]
pub struct ActiveSubscription {
    pub user: User,
    pub start: i64,
    pub end: i64,
    pub rate: u128,
}

/// Who may sign queries for a user, and at what rate.
#[derive(Clone, Debug)]
pub struct Subscription {
    pub signers: Vec<Address>,
    pub rate: u128,
}

/// Seconds for which a subscription is still served after it ends.
pub const SUBSCRIPTION_GRACE_SECS: u64 = 600;

/// The signers of a user: its authorized signers, then the user itself.
pub open spec fn signers_of(u: User) -> Seq<Address> {
    u.authorized_signers@.map_values(|s: AuthorizedSigner| s.signer).push(u.id)
}

/// The end, in seconds since the epoch, from which subscriptions are still
/// served at `unix_ms` milliseconds since the epoch.
pub fn active_subscription_end(unix_ms: u64) -> (r: u64)
    requires
        unix_ms / 1000 >= SUBSCRIPTION_GRACE_SECS,
    ensures
        r == unix_ms / 1000 - SUBSCRIPTION_GRACE_SECS,
{
    unix_ms / 1000 - SUBSCRIPTION_GRACE_SECS
}

fn signers(u: &User) -> (r: Vec<Address>)
    ensures
        r@ == signers_of(*u),
{
    let mut out: Vec<Address> = Vec::new();
    let mut i: usize = 0;
    while i < u.authorized_signers.len()
        invariant
            i <= u.authorized_signers@.len(),
            out@ == u.authorized_signers@.take(i as int).map_values(
                |s: AuthorizedSigner| s.signer,
            ),
        decreases u.authorized_signers@.len() - i,
    {
        out.push(u.authorized_signers[i].signer);
        assert(u.authorized_signers@.take(i + 1) == u.authorized_signers@.take(i as int).push(
            u.authorized_signers@[i as int],
        ));
        i = i + 1;
    }
    assert(u.authorized_signers@.take(i as int) == u.authorized_signers@);
    out.push(u.id);
    out
}

/// One entry per active subscription, in the order given, with the user's
/// signers and rate. An empty answer is discarded.
pub fn subscription_entries(active: &Vec<ActiveSubscription>) -> (r: Result<
    Vec<(Address, Subscription)>,
    String,
>)
    ensures
        r is Err <==> active@.len() == 0,
        r is Err ==> r->Err_0@ == "Discarding empty update (active_subscriptions)"@,
        r is Ok ==> r->Ok_0@.len() == active@.len() && forall|i: int|
            0 <= i < active@.len() ==> (#[trigger] r->Ok_0@[i]).0 == active@[i].user.id
                && r->Ok_0@[i].1.signers@ == signers_of(active@[i].user) && r->Ok_0@[i].1.rate
                == active@[i].rate,
{
    if active.len() == 0 {
        return Err(String::from_str("Discarding empty update (active_subscriptions)"));
    }
    let mut out: Vec<(Address, Subscription)> = Vec::new();
    let mut i: usize = 0;
    while i < active.len()
        invariant
            i <= active@.len(),
            out@.len() == i,
            forall|j: int|
                0 <= j < i ==> (#[trigger] out@[j]).0 == active@[j].user.id && out@[j].1.signers@
                    == signers_of(active@[j].user) && out@[j].1.rate == active@[j].rate,
        decreases active@.len() - i,
    {
        let a = &active[i];
        out.push((a.user.id, Subscription { signers: signers(&a.user), rate: a.rate }));
        i = i + 1;
    }
    Ok(out)
}

} // verus!

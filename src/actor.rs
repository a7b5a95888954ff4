use crate::cost_model::{CostModel, CostRule};
use crate::decimal::UDecimal;
use crate::engine::{same_address, ObservationKind};
use crate::selection::{address_eq, bytes32_eq, copy_vec, Address, Candidate, DeploymentId, Indexing, IndexingStatus, GRT};
use crate::subscriptions::Subscription;
use vstd::prelude::*;

verus! {

/// A cost model as its rules, each a field and a price, and its default.
pub type CostModelView = (Seq<(Seq<u8>, u128)>, Option<u128>);

/// Parts per million, with 6 fractional digits.
pub type PPM = UDecimal<6>;

/// What the network says about an indexer.
#[derive(Clone, Debug)]
pub struct IndexerInfo {
    pub url: String,
    pub stake: GRT,
}

/// A fresh view of one indexer and the deployments it indexes.
#[derive(Clone, Debug)]
pub struct IndexerUpdate {
    pub info: IndexerInfo,
    pub indexings: Vec<(DeploymentId, IndexingStatus)>,
}

/// A message to the observation actor.
#[derive(Clone, Debug)]
pub enum Update {
    USDToGRTConversion(GRT),
    SlashingPercentage(PPM),
    Indexers(Vec<(Address, IndexerUpdate)>),
    Subscriptions(Vec<(Address, Subscription)>),
    Observation(Indexing, ObservationKind),
}

/// The state that the observation actor owns and publishes as snapshots.
#[derive(Clone, Debug)]
pub struct State {
    pub usd_to_grt_conversion: Option<GRT>,
    pub slashing_percentage: Option<PPM>,
    pub indexers: Vec<(Address, IndexerInfo)>,
    pub indexings: Vec<(Indexing, IndexingStatus)>,
    pub subscriptions: Vec<(Address, Subscription)>,
    pub observations: Vec<(Indexing, ObservationKind)>,
}

/// The indexings that one indexer's update names, keyed by indexer and
/// deployment.
pub open spec fn indexings_of_update(a: Address, u: IndexerUpdate) -> Seq<(Indexing, IndexingStatus)> {
    u.indexings@.map_values(
        |e: (DeploymentId, IndexingStatus)| (Indexing { indexer: a, deployment: e.0 }, e.1),
    )
}

/// All indexings that an update of the indexers names, in order.
pub open spec fn all_indexings(us: Seq<(Address, IndexerUpdate)>) -> Seq<(Indexing, IndexingStatus)>
    decreases us.len(),
{
    if us.len() == 0 {
        Seq::empty()
    } else {
        all_indexings(us.drop_last()) + indexings_of_update(us.last().0, us.last().1)
    }
}

pub open spec fn infos_of(us: Seq<(Address, IndexerUpdate)>) -> Seq<(Address, IndexerInfo)> {
    us.map_values(|e: (Address, IndexerUpdate)| (e.0, e.1.info))
}

/// The state after one update: network parameters and subscriptions are
/// replaced, an update of the indexers replaces every indexer and indexing,
/// and an observation is appended for the reputation estimator.
pub open spec fn applied(pre: State, u: Update, post: State) -> bool {
    match u {
        Update::USDToGRTConversion(c) => post == State { usd_to_grt_conversion: Some(c), ..pre },
        Update::SlashingPercentage(p) => post == State { slashing_percentage: Some(p), ..pre },
        Update::Indexers(us) => {
            &&& post.indexers@ == infos_of(us@)
            &&& post.indexings@ == all_indexings(us@)
            &&& post.usd_to_grt_conversion == pre.usd_to_grt_conversion
            &&& post.slashing_percentage == pre.slashing_percentage
            &&& post.subscriptions == pre.subscriptions
            &&& post.observations == pre.observations
        },
        Update::Subscriptions(s) => post == State { subscriptions: s, ..pre },
        Update::Observation(i, k) => {
            &&& post.observations@ == pre.observations@.push((i, k))
            &&& post.usd_to_grt_conversion == pre.usd_to_grt_conversion
            &&& post.slashing_percentage == pre.slashing_percentage
            &&& post.indexers == pre.indexers
            &&& post.indexings == pre.indexings
            &&& post.subscriptions == pre.subscriptions
        },
    }
}

/// The state after updates applied one by one, in order.
pub open spec fn applied_all(pre: State, us: Seq<Update>, post: State) -> bool
    decreases us.len(),
{
    if us.len() == 0 {
        post == pre
    } else {
        exists|mid: State| applied_all(pre, us.drop_last(), mid) && applied(mid, us.last(), post)
    }
}

pub open spec fn same_indexing(a: Indexing, b: Indexing) -> bool {
    a.indexer.bytes@ == b.indexer.bytes@ && a.deployment.bytes@ == b.deployment.bytes@
}

/// The stake of an indexer: that of its first entry, or zero without one.
pub open spec fn stake_in(infos: Seq<(Address, IndexerInfo)>, a: Address) -> nat
    decreases infos.len(),
{
    if infos.len() == 0 {
        0
    } else if same_address(infos[0].0, a) {
        infos[0].1.stake.value()
    } else {
        stake_in(infos.drop_first(), a)
    }
}

/// The status of an indexing: that of its first entry, if any.
pub open spec fn status_in(s: Seq<(Indexing, IndexingStatus)>, i: Indexing) -> Option<IndexingStatus>
    decreases s.len(),
{
    if s.len() == 0 {
        None
    } else if same_indexing(s[0].0, i) {
        Some(s[0].1)
    } else {
        status_in(s.drop_first(), i)
    }
}

pub open spec fn cost_view(m: CostModel) -> CostModelView {
    (m.rules@.map_values(|r: CostRule| (r.field@, r.price_wei)), m.default_wei)
}

pub open spec fn status_view(st: IndexingStatus) -> (
    Seq<(Address, GRT)>,
    Option<CostModelView>,
    Option<crate::selection::BlockStatus>,
) {
    (
        st.allocations@,
        match st.cost_model {
            Some(m) => Some(cost_view(m)),
            None => None,
        },
        st.block,
    )
}

fn copy_cost_model(m: &CostModel) -> (r: CostModel)
    ensures
        cost_view(r) == cost_view(*m),
{
    let mut rules: Vec<CostRule> = Vec::new();
    let mut i: usize = 0;
    while i < m.rules.len()
        invariant
            i <= m.rules@.len(),
            rules@.len() == i,
            forall|j: int|
                0 <= j < i ==> (#[trigger] rules@[j]).field@ == m.rules@[j].field@
                    && rules@[j].price_wei == m.rules@[j].price_wei,
        decreases m.rules@.len() - i,
    {
        let r = &m.rules[i];
        rules.push(CostRule { field: copy_vec(&r.field), price_wei: r.price_wei });
        i = i + 1;
    }
    let r = CostModel { rules, default_wei: m.default_wei };
    assert(cost_view(r).0 == cost_view(*m).0);
    r
}

fn copy_status(st: &IndexingStatus) -> (r: IndexingStatus)
    ensures
        status_view(r) == status_view(*st),
{
    let allocations = copy_vec(&st.allocations);
    let cost_model = match &st.cost_model {
        Some(m) => Some(copy_cost_model(m)),
        None => None,
    };
    IndexingStatus { allocations, cost_model, block: st.block }
}

impl State {
    /// The state before any update.
    pub fn new() -> (r: Self)
        ensures
            r.usd_to_grt_conversion is None,
            r.slashing_percentage is None,
            r.indexers@.len() == 0,
            r.indexings@.len() == 0,
            r.subscriptions@.len() == 0,
            r.observations@.len() == 0,
    {
        State {
            usd_to_grt_conversion: None,
            slashing_percentage: None,
            indexers: Vec::new(),
            indexings: Vec::new(),
            subscriptions: Vec::new(),
            observations: Vec::new(),
        }
    }

    /// Applies one update.
    pub fn apply(&mut self, u: Update)
        ensures
            applied(*old(self), u, *final(self)),
    {
        match u {
            Update::USDToGRTConversion(c) => {
                self.usd_to_grt_conversion = Some(c);
            },
            Update::SlashingPercentage(p) => {
                self.slashing_percentage = Some(p);
            },
            Update::Indexers(us) => {
                let ghost uv = us@;
                let n: usize = us.len();
                let mut infos: Vec<(Address, IndexerInfo)> = Vec::new();
                let mut indexings: Vec<(Indexing, IndexingStatus)> = Vec::new();
                let mut rest = us;
                let mut taken: usize = 0;
                assert(uv.take(0) == Seq::<(Address, IndexerUpdate)>::empty());
                assert(infos_of(uv.take(0)) == Seq::<(Address, IndexerInfo)>::empty());
                while rest.len() > 0
                    invariant
                        taken + rest@.len() == uv.len(),
                        uv.len() == n,
                        rest@ == uv.skip(taken as int),
                        infos@ == infos_of(uv.take(taken as int)),
                        indexings@ == all_indexings(uv.take(taken as int)),
                    decreases rest@.len(),
                {
                    let (a, upd) = rest.remove(0);
                    let ghost t = uv.take(taken + 1);
                    assert(t.drop_last() == uv.take(taken as int));
                    assert(uv[taken as int] == (a, upd));
                    assert(rest@ == uv.skip(taken + 1));
                    let ghost ig = indexings_of_update(a, upd);
                    let ghost info_v = upd.info;
                    assert(all_indexings(t) == all_indexings(uv.take(taken as int)) + ig);
                    assert(infos_of(t) == infos_of(uv.take(taken as int)).push((a, info_v)));
                    let IndexerUpdate { info, indexings: list } = upd;
                    let ghost lv = list@;
                    let m: usize = list.len();
                    let ghost before = indexings@;
                    let mut list = list;
                    let mut k: usize = 0;
                    while list.len() > 0
                        invariant
                            k + list@.len() == lv.len(),
                            lv.len() == m,
                            list@ == lv.skip(k as int),
                            indexings@ == before + lv.take(k as int).map_values(
                                |e: (DeploymentId, IndexingStatus)|
                                    (Indexing { indexer: a, deployment: e.0 }, e.1),
                            ),
                        decreases list@.len(),
                    {
                        let (d, st) = list.remove(0);
                        assert(lv[k as int] == (d, st));
                        assert(lv.take(k + 1) == lv.take(k as int).push((d, st)));
                        indexings.push((Indexing { indexer: a, deployment: d }, st));
                        assert(list@ == lv.skip(k + 1));
                        k = k + 1;
                    }
                    assert(lv.take(k as int) == lv);
                    infos.push((a, info));
                    assert(ig == lv.map_values(
                        |e: (DeploymentId, IndexingStatus)|
                            (Indexing { indexer: a, deployment: e.0 }, e.1),
                    ));
                    taken = taken + 1;
                }
                assert(uv.take(taken as int) == uv);
                self.indexers = infos;
                self.indexings = indexings;
            },
            Update::Subscriptions(s) => {
                self.subscriptions = s;
            },
            Update::Observation(i, k) => {
                self.observations.push((i, k));
            },
        }
    }

    /// Applies a batch of updates in the order they arrived.
    pub fn apply_all(&mut self, updates: Vec<Update>)
        ensures
            applied_all(*old(self), updates@, *final(self)),
    {
        let ghost uv = updates@;
        let n: usize = updates.len();
        let mut rest = updates;
        let mut k: usize = 0;
        assert(uv.take(0).len() == 0);
        while rest.len() > 0
            invariant
                k + rest@.len() == uv.len(),
                uv.len() == n,
                rest@ == uv.skip(k as int),
                applied_all(*old(self), uv.take(k as int), *self),
            decreases rest@.len(),
        {
            let u = rest.remove(0);
            assert(uv[k as int] == u);
            let ghost mid = *self;
            let ghost t = uv.take(k + 1);
            assert(t.drop_last() == uv.take(k as int));
            let ghost uu = u;
            self.apply(u);
            assert(t.last() == uu);
            assert(applied_all(*old(self), t.drop_last(), mid) && applied(mid, t.last(), *self));
            assert(applied_all(*old(self), t, *self));
            assert(rest@ == uv.skip(k + 1));
            k = k + 1;
        }
        assert(uv.take(k as int) == uv);
    }

    fn stake_of(&self, a: &Address) -> (r: GRT)
        ensures
            r.value() == stake_in(self.indexers@, *a),
    {
        let mut i: usize = 0;
        assert(self.indexers@.skip(0) == self.indexers@);
        while i < self.indexers.len()
            invariant
                i <= self.indexers@.len(),
                stake_in(self.indexers@, *a) == stake_in(self.indexers@.skip(i as int), *a),
            decreases self.indexers@.len() - i,
        {
            assert(self.indexers@.skip(i as int).drop_first() == self.indexers@.skip(i + 1));
            assert(self.indexers@.skip(i as int)[0] == self.indexers@[i as int]);
            if address_eq(&self.indexers[i].0, a) {
                return self.indexers[i].1.stake;
            }
            i = i + 1;
        }
        UDecimal::zero()
    }

    fn status_of(&self, ix: &Indexing) -> (r: IndexingStatus)
        ensures
            match status_in(self.indexings@, *ix) {
                Some(st) => status_view(r) == status_view(st),
                None => r.allocations@.len() == 0 && r.cost_model is None && r.block is None,
            },
    {
        let mut i: usize = 0;
        assert(self.indexings@.skip(0) == self.indexings@);
        while i < self.indexings.len()
            invariant
                i <= self.indexings@.len(),
                status_in(self.indexings@, *ix) == status_in(self.indexings@.skip(i as int), *ix),
            decreases self.indexings@.len() - i,
        {
            assert(self.indexings@.skip(i as int).drop_first() == self.indexings@.skip(i + 1));
            assert(self.indexings@.skip(i as int)[0] == self.indexings@[i as int]);
            let e = &self.indexings[i];
            if address_eq(&e.0.indexer, &ix.indexer) && bytes32_eq(
                &e.0.deployment.bytes,
                &ix.deployment.bytes,
            ) {
                return copy_status(&e.1);
            }
            i = i + 1;
        }
        IndexingStatus { allocations: Vec::new(), cost_model: None, block: None }
    }

    /// The selection candidates for `indexers` on `deployment` as this state
    /// knows them, with the utility that scoring gave each. An indexer without
    /// an entry has no stake; an indexing without one has no status.
    pub fn candidates(
        &self,
        deployment: &DeploymentId,
        indexers: &Vec<Address>,
        utilities: &Vec<u64>,
    ) -> (r: Vec<Candidate>)
        requires
            utilities@.len() == indexers@.len(),
        ensures
            r@.len() == indexers@.len(),
            forall|i: int|
                0 <= i < r@.len() ==> {
                    let c = #[trigger] r@[i];
                    let ix = Indexing { indexer: indexers@[i], deployment: *deployment };
                    &&& c.indexing == ix
                    &&& c.versions_behind == 0
                    &&& c.stake.value() == stake_in(self.indexers@, indexers@[i])
                    &&& c.utility == utilities@[i]
                    &&& match status_in(self.indexings@, ix) {
                        Some(st) => status_view(c.status) == status_view(st),
                        None => c.status.allocations@.len() == 0 && c.status.cost_model is None
                            && c.status.block is None,
                    }
                },
    {
        let mut out: Vec<Candidate> = Vec::new();
        let mut i: usize = 0;
        while i < indexers.len()
            invariant
                i <= indexers@.len(),
                utilities@.len() == indexers@.len(),
                out@.len() == i,
                forall|j: int|
                    0 <= j < i ==> {
                        let c = #[trigger] out@[j];
                        let ix = Indexing { indexer: indexers@[j], deployment: *deployment };
                        &&& c.indexing == ix
                        &&& c.versions_behind == 0
                        &&& c.stake.value() == stake_in(self.indexers@, indexers@[j])
                        &&& c.utility == utilities@[j]
                        &&& match status_in(self.indexings@, ix) {
                            Some(st) => status_view(c.status) == status_view(st),
                            None => c.status.allocations@.len() == 0 && c.status.cost_model is None
                                && c.status.block is None,
                        }
                    },
            decreases indexers@.len() - i,
        {
            let ix = Indexing { indexer: indexers[i], deployment: *deployment };
            let c = Candidate {
                indexing: ix,
                versions_behind: 0,
                stake: self.stake_of(&indexers[i]),
                status: self.status_of(&ix),
                utility: utilities[i],
            };
            out.push(c);
            i = i + 1;
        }
        out
    }

    /// Hands over the observations gathered since the last call, for the
    /// reputation estimator, and forgets them.
    pub fn drain_observations(&mut self) -> (r: Vec<(Indexing, ObservationKind)>)
        ensures
            r@ == old(self).observations@,
            final(self).observations@.len() == 0,
            final(self).usd_to_grt_conversion == old(self).usd_to_grt_conversion,
            final(self).slashing_percentage == old(self).slashing_percentage,
            final(self).indexers == old(self).indexers,
            final(self).indexings == old(self).indexings,
            final(self).subscriptions == old(self).subscriptions,
    {
        let mut taken: Vec<(Indexing, ObservationKind)> = Vec::new();
        std::mem::swap(&mut taken, &mut self.observations);
        taken
    }
}

} // verus!

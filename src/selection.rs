use crate::cost_model::{price, price_of, CostModel};
use crate::decimal::UDecimal;
use crate::uint256::{le, lemma_value_bound, u256_of, Uint256};
use vstd::prelude::*;
use vstd::string::StringSliceAdditionalSpecFns;

verus! {

/// Amounts of GRT, with 18 fractional digits.
pub type GRT = UDecimal<18>;

/// The largest number of indexers that one selection returns.
pub const SELECTION_LIMIT: usize = 5;

/// A 20-byte identifier of an indexer, a user or an allocation.
#[derive(Clone, Copy, Debug, PartialEq, Eq, Hash)]
pub struct Address {
    pub bytes: [u8; 20],
}

/// The 32-byte content address of a subgraph deployment.
#[derive(Clone, Copy, Debug, PartialEq, Eq, Hash)]
pub struct DeploymentId {
    pub bytes: [u8; 32],
}

/// An indexer serving a deployment.
#[derive(Clone, Copy, Debug, PartialEq, Eq, Hash)]
pub struct Indexing {
    pub indexer: Address,
    pub deployment: DeploymentId,
}

/// What an indexer reports about the blocks it has indexed for a deployment.
#[derive(Clone, Copy, Debug, PartialEq, Eq)]
pub struct BlockStatus {
    pub reported_number: u64,
    pub blocks_behind: u64,
    pub behind_reported_block: bool,
    pub min_block: Option<u64>,
}

/// The state of one indexing, as the snapshot holds it.
#[derive(Clone, Debug)]
pub struct IndexingStatus {
    pub allocations: Vec<(Address, GRT)>,
    pub cost_model: Option<CostModel>,
    pub block: Option<BlockStatus>,
}

/// One candidate as selection reads it: the indexing, the indexer's stake,
/// the indexing's status and the utility that scoring gave it, in parts per
/// million.
#[derive(Clone, Debug)]
pub struct Candidate {
    pub indexing: Indexing,
    pub versions_behind: u8,
    pub stake: GRT,
    pub status: IndexingStatus,
    pub utility: u64,
}

/// Blocks that a query needs: a range of block numbers, and whether it asks
/// for the latest block.
#[derive(Clone, Copy, Debug, PartialEq, Eq)]
pub struct BlockRequirements {
    pub range: Option<(u64, u64)>,
    pub has_latest: bool,
}

/// The per-request knobs of selection.
#[derive(Clone, Copy, Debug)]
pub struct UtilityParameters {
    pub budget: GRT,
    pub requirements: BlockRequirements,
    pub latest_block: u64,
}

/// Why a candidate was not selected.
#[derive(Clone, Copy, Debug, PartialEq, Eq, Hash, PartialOrd, Ord, Structural)]
pub enum IndexerError {
    NoStatus,
    NoStake,
    NoAllocation,
    MissingRequiredBlock,
    FeeTooHigh,
    NaN,
}

/// The query text could not be read.
#[derive(Clone, Copy, Debug, PartialEq, Eq, Structural)]
pub enum InputError {
    MalformedQuery,
}

/// An indexer chosen to serve a query, with the fee it is paid.
#[derive(Clone, Copy, Debug, PartialEq, Eq)]
pub struct Selection {
    pub indexing: Indexing,
    pub fee: GRT,
    pub utility: u64,
    pub blocks_behind: u64,
}

pub(crate) fn address_eq(a: &Address, b: &Address) -> (r: bool)
    ensures
        r == (a.bytes@ == b.bytes@),
{
    let mut i: usize = 0;
    while i < 20
        invariant
            i <= 20,
            a.bytes@.len() == 20,
            b.bytes@.len() == 20,
            forall|j: int| 0 <= j < i ==> a.bytes@[j] == b.bytes@[j],
        decreases 20 - i,
    {
        if a.bytes[i] != b.bytes[i] {
            return false;
        }
        i = i + 1;
    }
    assert(a.bytes@ == b.bytes@);
    true
}

pub(crate) fn bytes32_eq(a: &[u8; 32], b: &[u8; 32]) -> (r: bool)
    ensures
        r == (a@ == b@),
{
    let mut i: usize = 0;
    while i < 32
        invariant
            i <= 32,
            a@.len() == 32,
            b@.len() == 32,
            forall|j: int| 0 <= j < i ==> a@[j] == b@[j],
        decreases 32 - i,
    {
        if a[i] != b[i] {
            return false;
        }
        i = i + 1;
    }
    assert(a@ == b@);
    true
}

/// A copy of a vector of plain values.
pub(crate) fn copy_vec<T: Copy>(v: &Vec<T>) -> (r: Vec<T>)
    ensures
        r@ == v@,
{
    let mut out: Vec<T> = Vec::new();
    let mut i: usize = 0;
    while i < v.len()
        invariant
            i <= v@.len(),
            out@ == v@.take(i as int),
        decreases v@.len() - i,
    {
        out.push(v[i]);
        assert(v@.take(i + 1) == v@.take(i as int).push(v@[i as int]));
        i = i + 1;
    }
    assert(v@.take(i as int) == v@);
    out
}

pub open spec fn total_allocation(a: Seq<(Address, GRT)>) -> nat
    decreases a.len(),
{
    if a.len() == 0 {
        0
    } else {
        total_allocation(a.drop_last()) + a.last().1.value()
    }
}

/// The fee an indexing asks for query `q`, as the internal integer of a
/// `GRT`: its cost model's price, nothing without a cost model, and `None`
/// when the cost model prices nothing for the query.
pub open spec fn fee_of(status: IndexingStatus, q: Seq<u8>) -> Option<nat> {
    match status.cost_model {
        Some(m) => match price_of(m, q) {
            Some(p) => Some(p as nat),
            None => None,
        },
        None => Some(0),
    }
}

pub open spec fn required_block(params: UtilityParameters) -> Option<u64> {
    match params.requirements.range {
        Some(r) => Some(r.1),
        None => None,
    }
}

/// The first reason, in a fixed order, that rules a candidate out.
pub open spec fn disqualification(c: Candidate, params: UtilityParameters, q: Seq<u8>) -> Option<
    IndexerError,
> {
    if required_block(params) is Some && c.status.block is Some && required_block(params)->Some_0
        > c.status.block->Some_0.reported_number {
        Some(IndexerError::MissingRequiredBlock)
    } else if c.status.block is None {
        Some(IndexerError::NoStatus)
    } else if c.stake.value() == 0 {
        Some(IndexerError::NoStake)
    } else if total_allocation(c.status.allocations@) == 0 {
        Some(IndexerError::NoAllocation)
    } else if fee_of(c.status, q) is None {
        Some(IndexerError::NaN)
    } else if fee_of(c.status, q)->Some_0 > params.budget.value() {
        Some(IndexerError::FeeTooHigh)
    } else {
        None
    }
}

fn has_allocation(a: &Vec<(Address, GRT)>) -> (r: bool)
    ensures
        r == (total_allocation(a@) > 0),
{
    let mut i: usize = 0;
    while i < a.len()
        invariant
            i <= a@.len(),
            total_allocation(a@.take(i as int)) == 0,
        decreases a.len() - i,
    {
        assert(a@.take(i + 1).drop_last() == a@.take(i as int));
        if !a[i].1.internal.is_zero() {
            proof {
                lemma_total_allocation_grows(a@, i + 1);
            }
            return true;
        }
        i = i + 1;
    }
    assert(a@.take(i as int) == a@);
    false
}

proof fn lemma_total_allocation_grows(a: Seq<(Address, GRT)>, i: int)
    requires
        0 <= i <= a.len(),
    ensures
        total_allocation(a) >= total_allocation(a.take(i)),
    decreases a.len(),
{
    if i < a.len() {
        assert(a.drop_last().take(i) == a.take(i));
        lemma_total_allocation_grows(a.drop_last(), i);
    } else {
        assert(a.take(i) == a);
    }
}

/// The first reason that rules a candidate out, if any.
pub fn disqualify(c: &Candidate, params: &UtilityParameters, query: &[u8]) -> (r: Option<
    IndexerError,
>)
    ensures
        r == disqualification(*c, *params, query@),
{
    let required: Option<u64> = match params.requirements.range {
        Some(r) => Some(r.1),
        None => None,
    };
    if let (Some(n), Some(b)) = (required, c.status.block) {
        if n > b.reported_number {
            return Some(IndexerError::MissingRequiredBlock);
        }
    }
    if c.status.block.is_none() {
        return Some(IndexerError::NoStatus);
    }
    if c.stake.internal.is_zero() {
        return Some(IndexerError::NoStake);
    }
    if !has_allocation(&c.status.allocations) {
        return Some(IndexerError::NoAllocation);
    }
    let fee: u128 = match &c.status.cost_model {
        Some(m) => match price(m, query) {
            Some(p) => p,
            None => return Some(IndexerError::NaN),
        },
        None => 0,
    };
    if !le(Uint256::from_u128(fee), params.budget.internal) {
        return Some(IndexerError::FeeTooHigh);
    }
    None
}

/// Nesting depth of braces after the bytes of `s`.
pub open spec fn brace_depth(s: Seq<u8>) -> int
    decreases s.len(),
{
    if s.len() == 0 {
        0
    } else {
        brace_depth(s.drop_last()) + if s.last() == 123u8 {
            1int
        } else if s.last() == 125u8 {
            -1int
        } else {
            0int
        }
    }
}

/// A query text is readable when it opens at least one selection set and its
/// braces balance.
pub open spec fn query_valid(s: Seq<u8>) -> bool {
    &&& exists|i: int| 0 <= i < s.len() && s[i] == 123u8
    &&& forall|i: int| 0 <= i <= s.len() ==> brace_depth(#[trigger] s.take(i)) >= 0
    &&& brace_depth(s) == 0
}

/// Whether the query text can be read.
pub fn check_query(query: &str) -> (r: bool)
    ensures
        r == query_valid(query.spec_bytes()),
{
    let b = query.as_bytes();
    let ghost s = query.spec_bytes();
    let n = b.len();
    let mut depth: usize = 0;
    let mut opened = false;
    let mut i: usize = 0;
    assert(s.take(0) == Seq::<u8>::empty());
    while i < n
        invariant
            b@ == s,
            s == query.spec_bytes(),
            n == s.len(),
            i <= n,
            depth as int == brace_depth(s.take(i as int)),
            depth <= i,
            forall|j: int| 0 <= j <= i ==> brace_depth(#[trigger] s.take(j)) >= 0,
            opened <==> exists|j: int| 0 <= j < i && s[j] == 123u8,
        decreases n - i,
    {
        let c = b[i];
        assert(s.take(i + 1).drop_last() == s.take(i as int));
        if c == 123u8 {
            depth = depth + 1;
            opened = true;
        } else if c == 125u8 {
            if depth == 0 {
                let ghost k: int = i + 1;
                assert(brace_depth(s.take(k)) < 0);
                assert(!query_valid(s)) by {
                    assert(0 <= k <= s.len());
                }
                return false;
            }
            depth = depth - 1;
        }
        i = i + 1;
        assert(opened ==> s[i - 1] == 123u8 || exists|j: int| 0 <= j < i - 1 && s[j] == 123u8);
    }
    assert(s.take(n as int) == s);
    opened && depth == 0
}

/// Whether byte string `a` sorts before `b`, comparing from position `i`.
pub open spec fn bytes_lt_from(a: Seq<u8>, b: Seq<u8>, i: int) -> bool
    decreases a.len() - i,
{
    if i < 0 || i >= a.len() || i >= b.len() {
        false
    } else if a[i] != b[i] {
        a[i] < b[i]
    } else {
        bytes_lt_from(a, b, i + 1)
    }
}

pub open spec fn address_lt(a: Address, b: Address) -> bool {
    bytes_lt_from(a.bytes@, b.bytes@, 0)
}

/// Whether `x` ranks ahead of `y`: higher utility first, then the lower fee,
/// then the smaller indexer address.
pub open spec fn ranks_before(x: Selection, y: Selection) -> bool {
    ||| x.utility > y.utility
    ||| x.utility == y.utility && x.fee.value() < y.fee.value()
    ||| x.utility == y.utility && x.fee.value() == y.fee.value() && address_lt(
        x.indexing.indexer,
        y.indexing.indexer,
    )
}

/// The position of the entry that ranks first; the earliest one among equals.
pub open spec fn best_index(s: Seq<Selection>) -> int
    decreases s.len(),
{
    if s.len() <= 1 {
        0
    } else {
        let i = best_index(s.drop_last());
        if ranks_before(s.last(), s[i]) {
            s.len() - 1
        } else {
            i
        }
    }
}

/// The entries of `s` in rank order.
pub open spec fn ranked(s: Seq<Selection>) -> Seq<Selection>
    decreases s.len(),
{
    let i = best_index(s);
    if s.len() == 0 || i < 0 || i >= s.len() {
        Seq::empty()
    } else {
        seq![s[i]] + ranked(s.remove(i))
    }
}

pub open spec fn fee_total(s: Seq<Selection>) -> nat
    decreases s.len(),
{
    if s.len() == 0 {
        0
    } else {
        fee_total(s.drop_last()) + s.last().fee.value()
    }
}

/// Going down the ranked entries, each one is kept while fewer than `limit`
/// are kept and its fee fits in what is left of `budget`.
pub open spec fn take_within(r: Seq<Selection>, limit: nat, budget: nat) -> Seq<Selection>
    decreases r.len(),
{
    if r.len() == 0 {
        Seq::empty()
    } else {
        let p = take_within(r.drop_last(), limit, budget);
        let e = r.last();
        if p.len() < limit && fee_total(p) + e.fee.value() <= budget {
            p.push(e)
        } else {
            p
        }
    }
}

/// The selection entry that a candidate would become.
pub open spec fn scored(c: Candidate, q: Seq<u8>) -> Selection {
    Selection {
        indexing: c.indexing,
        fee: UDecimal::<18> {
            internal: match fee_of(c.status, q) {
                Some(f) => u256_of(f as u128),
                None => u256_of(0),
            },
        },
        utility: c.utility,
        blocks_behind: match c.status.block {
            Some(b) => b.blocks_behind,
            None => 0,
        },
    }
}

/// The candidates that nothing rules out, in input order.
pub open spec fn survivors(cs: Seq<Candidate>, params: UtilityParameters, q: Seq<u8>) -> Seq<
    Selection,
>
    decreases cs.len(),
{
    if cs.len() == 0 {
        Seq::empty()
    } else if disqualification(cs.last(), params, q) is None {
        survivors(cs.drop_last(), params, q).push(scored(cs.last(), q))
    } else {
        survivors(cs.drop_last(), params, q)
    }
}

/// Each candidate that is ruled out, with its reason, in input order.
pub open spec fn rejections(cs: Seq<Candidate>, params: UtilityParameters, q: Seq<u8>) -> Seq<
    (IndexerError, Address),
>
    decreases cs.len(),
{
    if cs.len() == 0 {
        Seq::empty()
    } else if disqualification(cs.last(), params, q) is Some {
        rejections(cs.drop_last(), params, q).push(
            (disqualification(cs.last(), params, q)->Some_0, cs.last().indexing.indexer),
        )
    } else {
        rejections(cs.drop_last(), params, q)
    }
}

pub open spec fn effective_limit(selection_limit: u8) -> nat {
    if (selection_limit as nat) < SELECTION_LIMIT as nat {
        selection_limit as nat
    } else {
        SELECTION_LIMIT as nat
    }
}

pub open spec fn selections_of(
    cs: Seq<Candidate>,
    params: UtilityParameters,
    q: Seq<u8>,
    selection_limit: u8,
) -> Seq<Selection> {
    take_within(
        ranked(survivors(cs, params, q)),
        effective_limit(selection_limit),
        params.budget.value(),
    )
}

/// What selection returns for these inputs.
pub open spec fn select_outcome(
    cs: Seq<Candidate>,
    params: UtilityParameters,
    query: Seq<u8>,
    selection_limit: u8,
    r: Result<(Vec<Selection>, Vec<(IndexerError, Address)>), InputError>,
) -> bool {
    if query_valid(query) {
        &&& r is Ok
        &&& r->Ok_0.0@ == selections_of(cs, params, query, selection_limit)
        &&& r->Ok_0.1@ == rejections(cs, params, query)
    } else {
        r == Err::<(Vec<Selection>, Vec<(IndexerError, Address)>), InputError>(
            InputError::MalformedQuery,
        )
    }
}

fn address_lt_exec(a: &Address, b: &Address) -> (r: bool)
    ensures
        r == address_lt(*a, *b),
{
    let mut i: usize = 0;
    while i < 20
        invariant
            i <= 20,
            a.bytes@.len() == 20,
            b.bytes@.len() == 20,
            forall|j: int| 0 <= j < i ==> a.bytes@[j] == b.bytes@[j],
            bytes_lt_from(a.bytes@, b.bytes@, 0) == bytes_lt_from(a.bytes@, b.bytes@, i as int),
        decreases 20 - i,
    {
        if a.bytes[i] != b.bytes[i] {
            return a.bytes[i] < b.bytes[i];
        }
        i = i + 1;
    }
    false
}

fn ranks_before_exec(x: &Selection, y: &Selection) -> (r: bool)
    ensures
        r == ranks_before(*x, *y),
{
    let x_le_y = le(x.fee.internal, y.fee.internal);
    let y_le_x = le(y.fee.internal, x.fee.internal);
    if x.utility != y.utility {
        x.utility > y.utility
    } else if !(x_le_y && y_le_x) {
        x_le_y
    } else {
        address_lt_exec(&x.indexing.indexer, &y.indexing.indexer)
    }
}

fn best_of(s: &Vec<Selection>) -> (i: usize)
    requires
        s@.len() > 0,
    ensures
        i == best_index(s@),
        i < s@.len(),
{
    let mut best: usize = 0;
    let mut j: usize = 1;
    assert(best_index(s@.take(1)) == 0);
    while j < s.len()
        invariant
            1 <= j <= s@.len(),
            best < j,
            best == best_index(s@.take(j as int)),
        decreases s@.len() - j,
    {
        let ghost t = s@.take(j + 1);
        assert(t.drop_last() == s@.take(j as int));
        assert(t[best as int] == s@[best as int]);
        if ranks_before_exec(&s[j], &s[best]) {
            best = j;
        }
        j = j + 1;
    }
    assert(s@.take(j as int) == s@);
    best
}

/// Picks up to `selection_limit` (and never more than `SELECTION_LIMIT`)
/// candidates in rank order whose fees together fit in the budget, and
/// reports each candidate that was ruled out with the first reason that
/// applies to it. A query text that cannot be read is an error.
pub fn select_indexers(
    candidates: &Vec<Candidate>,
    params: &UtilityParameters,
    query: &str,
    selection_limit: u8,
) -> (r: Result<(Vec<Selection>, Vec<(IndexerError, Address)>), InputError>)
    ensures
        select_outcome(candidates@, *params, query.spec_bytes(), selection_limit, r),
{
    if !check_query(query) {
        return Err(InputError::MalformedQuery);
    }
    let qb = query.as_bytes();
    let mut survivors_v: Vec<Selection> = Vec::new();
    let mut errors: Vec<(IndexerError, Address)> = Vec::new();
    let mut k: usize = 0;
    while k < candidates.len()
        invariant
            k <= candidates@.len(),
            qb@ == query.spec_bytes(),
            survivors_v@ == survivors(candidates@.take(k as int), *params, qb@),
            errors@ == rejections(candidates@.take(k as int), *params, qb@),
        decreases candidates@.len() - k,
    {
        let c = &candidates[k];
        let ghost t = candidates@.take(k + 1);
        assert(t.drop_last() == candidates@.take(k as int));
        assert(t.last() == *c);
        match disqualify(c, params, qb) {
            Some(e) => {
                errors.push((e, c.indexing.indexer));
            },
            None => {
                let fee: u128 = match &c.status.cost_model {
                    Some(m) => match price(m, qb) {
                        Some(p) => p,
                        None => 0,
                    },
                    None => 0,
                };
                let blocks_behind: u64 = match c.status.block {
                    Some(b) => b.blocks_behind,
                    None => 0,
                };
                survivors_v.push(
                    Selection {
                        indexing: c.indexing,
                        fee: UDecimal { internal: Uint256::from_u128(fee) },
                        utility: c.utility,
                        blocks_behind,
                    },
                );
            },
        }
        k = k + 1;
    }
    assert(candidates@.take(k as int) == candidates@);
    let ghost all = survivors_v@;
    let mut remaining = survivors_v;
    let mut order: Vec<Selection> = Vec::new();
    while remaining.len() > 0
        invariant
            ranked(all) == order@ + ranked(remaining@),
        decreases remaining@.len(),
    {
        let i = best_of(&remaining);
        let ghost before = remaining@;
        let ghost order_before = order@;
        let e = remaining.remove(i);
        assert(ranked(before) == seq![e] + ranked(remaining@));
        order.push(e);
        assert(order@ + ranked(remaining@) == order_before + (seq![e] + ranked(remaining@)));
    }
    assert(ranked(remaining@) == Seq::<Selection>::empty());
    assert(order@ + Seq::<Selection>::empty() == order@);
    let limit: usize = if (selection_limit as usize) < SELECTION_LIMIT {
        selection_limit as usize
    } else {
        SELECTION_LIMIT
    };
    let budget = params.budget.internal;
    let mut picked: Vec<Selection> = Vec::new();
    let mut spent = Uint256::zero();
    let mut j: usize = 0;
    while j < order.len()
        invariant
            j <= order@.len(),
            limit == effective_limit(selection_limit),
            budget == params.budget.internal,
            picked@ == take_within(order@.take(j as int), limit as nat, budget.value()),
            spent.value() == fee_total(picked@),
            spent.value() <= budget.value(),
        decreases order@.len() - j,
    {
        let e = order[j];
        let ghost t = order@.take(j + 1);
        assert(t.drop_last() == order@.take(j as int));
        assert(t.last() == e);
        if picked.len() < limit && le(e.fee.internal, crate::uint256::sub(budget, spent)) {
            let ghost p = picked@;
            picked.push(e);
            assert(picked@.drop_last() == p);
            proof {
                lemma_value_bound(budget);
            }
            spent = crate::uint256::add(spent, e.fee.internal);
        }
        j = j + 1;
    }
    assert(order@.take(j as int) == order@);
    Ok((picked, errors))
}

proof fn lemma_best_index_in_range(s: Seq<Selection>)
    requires
        s.len() > 0,
    ensures
        0 <= best_index(s) < s.len(),
    decreases s.len(),
{
    if s.len() > 1 {
        lemma_best_index_in_range(s.drop_last());
    }
}

proof fn lemma_ranked_elements(s: Seq<Selection>)
    ensures
        ranked(s).len() == s.len(),
        forall|i: int| 0 <= i < ranked(s).len() ==> s.contains(#[trigger] ranked(s)[i]),
    decreases s.len(),
{
    if s.len() > 0 {
        let i = best_index(s);
        lemma_best_index_in_range(s);
        let rest = s.remove(i);
        lemma_ranked_elements(rest);
        let r = ranked(s);
        assert(r == seq![s[i]] + ranked(rest));
        assert forall|j: int| 0 <= j < r.len() implies s.contains(#[trigger] r[j]) by {
            if j == 0 {
                assert(r[0] == s[i]);
            } else {
                assert(r[j] == ranked(rest)[j - 1]);
                let x = r[j];
                assert(rest.contains(x));
                let m = choose|m: int| 0 <= m < rest.len() && rest[m] == x;
                if m < i {
                    assert(s[m] == x);
                } else {
                    assert(s[m + 1] == x);
                }
            }
        }
    }
}

proof fn lemma_take_within(r: Seq<Selection>, limit: nat, budget: nat)
    ensures
        take_within(r, limit, budget).len() <= limit,
        take_within(r, limit, budget).len() <= r.len(),
        fee_total(take_within(r, limit, budget)) <= budget,
        forall|i: int|
            0 <= i < take_within(r, limit, budget).len() ==> r.contains(
                #[trigger] take_within(r, limit, budget)[i],
            ),
        r.len() > 0 && limit >= 1 && r[0].fee.value() <= budget ==> take_within(
            r,
            limit,
            budget,
        ).len() >= 1,
    decreases r.len(),
{
    if r.len() > 0 {
        let q = r.drop_last();
        lemma_take_within(q, limit, budget);
        let p = take_within(q, limit, budget);
        let t = take_within(r, limit, budget);
        if p.len() < limit && fee_total(p) + r.last().fee.value() <= budget {
            assert(t == p.push(r.last()));
            assert(t.drop_last() == p);
        }
        assert forall|i: int| 0 <= i < t.len() implies r.contains(#[trigger] t[i]) by {
            if i < p.len() {
                assert(t[i] == p[i]);
                assert(q.contains(p[i]));
                let m = choose|m: int| 0 <= m < q.len() && q[m] == p[i];
                assert(r[m] == p[i]);
            } else {
                assert(t[i] == r[r.len() - 1]);
            }
        }
        if r.len() == 1 && limit >= 1 && r[0].fee.value() <= budget {
            assert(p.len() == 0);
            assert(fee_total(p) == 0);
        }
        if r.len() > 1 {
            assert(q[0] == r[0]);
        }
    }
}

proof fn lemma_survivors(cs: Seq<Candidate>, params: UtilityParameters, query: Seq<u8>)
    ensures
        survivors(cs, params, query).len() + rejections(cs, params, query).len() == cs.len(),
        forall|i: int|
            0 <= i < survivors(cs, params, query).len() ==> exists|k: int|
                0 <= k < cs.len() && disqualification(cs[k], params, query) is None
                    && #[trigger] survivors(cs, params, query)[i] == scored(cs[k], query),
        forall|k: int|
            0 <= k < cs.len() && disqualification(#[trigger] cs[k], params, query) is None
                ==> survivors(cs, params, query).contains(scored(cs[k], query)),
        forall|k: int|
            0 <= k < cs.len() && disqualification(#[trigger] cs[k], params, query) is Some
                ==> rejections(cs, params, query).contains(
                (disqualification(cs[k], params, query)->Some_0, cs[k].indexing.indexer),
            ),
    decreases cs.len(),
{
    if cs.len() > 0 {
        let q = cs.drop_last();
        lemma_survivors(q, params, query);
        let sq = survivors(q, params, query);
        let rq = rejections(q, params, query);
        let sv = survivors(cs, params, query);
        let rj = rejections(cs, params, query);
        let last = cs.last();
        assert forall|i: int| 0 <= i < sv.len() implies exists|k: int|
            0 <= k < cs.len() && disqualification(cs[k], params, query) is None && #[trigger] sv[i]
                == scored(cs[k], query) by {
            if i < sq.len() {
                assert(sv[i] == sq[i]);
                let k = choose|k: int|
                    0 <= k < q.len() && disqualification(q[k], params, query) is None
                        && sq[i] == scored(q[k], query);
                assert(cs[k] == q[k]);
            } else {
                assert(sv[i] == scored(cs[cs.len() - 1], query));
            }
        }
        assert forall|k: int|
            0 <= k < cs.len() && disqualification(#[trigger] cs[k], params, query) is None
            implies sv.contains(scored(cs[k], query)) by {
            if k < q.len() {
                assert(cs[k] == q[k]);
                assert(sq.contains(scored(q[k], query)));
                let m = choose|m: int| 0 <= m < sq.len() && sq[m] == scored(q[k], query);
                assert(sv[m] == sq[m]);
            } else {
                assert(sv[sv.len() - 1] == scored(last, query));
            }
        }
        assert forall|k: int|
            0 <= k < cs.len() && disqualification(#[trigger] cs[k], params, query) is Some
            implies rj.contains(
            (disqualification(cs[k], params, query)->Some_0, cs[k].indexing.indexer),
        ) by {
            if k < q.len() {
                assert(cs[k] == q[k]);
                let x = (disqualification(q[k], params, query)->Some_0, q[k].indexing.indexer);
                assert(rq.contains(x));
                let m = choose|m: int| 0 <= m < rq.len() && rq[m] == x;
                assert(rj[m] == rq[m]);
            } else {
                assert(rj[rj.len() - 1] == (
                    disqualification(last, params, query)->Some_0,
                    last.indexing.indexer,
                ));
            }
        }
    }
}

/// The fees of the selected indexers add up to no more than the budget.
pub proof fn lemma_selections_within_budget(
    cs: Seq<Candidate>,
    params: UtilityParameters,
    query: Seq<u8>,
    selection_limit: u8,
)
    ensures
        fee_total(selections_of(cs, params, query, selection_limit)) <= params.budget.value(),
{
    lemma_take_within(
        ranked(survivors(cs, params, query)),
        effective_limit(selection_limit),
        params.budget.value(),
    );
}

/// No more indexers are selected than the limit allows, nor than there are
/// candidates that nothing rules out.
pub proof fn lemma_selection_count(
    cs: Seq<Candidate>,
    params: UtilityParameters,
    query: Seq<u8>,
    selection_limit: u8,
)
    ensures
        selections_of(cs, params, query, selection_limit).len() <= effective_limit(selection_limit),
        selections_of(cs, params, query, selection_limit).len() <= selection_limit,
        selections_of(cs, params, query, selection_limit).len() <= survivors(
            cs,
            params,
            query,
        ).len(),
{
    let sv = survivors(cs, params, query);
    lemma_ranked_elements(sv);
    lemma_take_within(ranked(sv), effective_limit(selection_limit), params.budget.value());
}

/// Every candidate ends up in exactly one place: ruled out with the first
/// reason that applies to it, or kept as eligible, in which case it is either
/// selected or left out for the budget or the limit. With distinct indexers,
/// no indexer that was ruled out is selected.
pub proof fn lemma_candidates_partitioned(
    cs: Seq<Candidate>,
    params: UtilityParameters,
    query: Seq<u8>,
    selection_limit: u8,
)
    ensures
        survivors(cs, params, query).len() + rejections(cs, params, query).len() == cs.len(),
        forall|k: int|
            0 <= k < cs.len() && disqualification(#[trigger] cs[k], params, query) is Some
                ==> rejections(cs, params, query).contains(
                (disqualification(cs[k], params, query)->Some_0, cs[k].indexing.indexer),
            ),
        forall|k: int|
            0 <= k < cs.len() && disqualification(#[trigger] cs[k], params, query) is None
                ==> survivors(cs, params, query).contains(scored(cs[k], query)),
        forall|i: int|
            0 <= i < selections_of(cs, params, query, selection_limit).len() ==> survivors(
                cs,
                params,
                query,
            ).contains(#[trigger] selections_of(cs, params, query, selection_limit)[i]),
        (forall|a: int, b: int|
            0 <= a < b < cs.len() ==> cs[a].indexing.indexer != cs[b].indexing.indexer) ==> (
        forall|k: int, i: int|
            0 <= k < cs.len() && disqualification(#[trigger] cs[k], params, query) is Some && 0 <= i
                < selections_of(cs, params, query, selection_limit).len() ==> #[trigger] selections_of(
                cs,
                params,
                query,
                selection_limit,
            )[i].indexing.indexer != cs[k].indexing.indexer),
{
    let sv = survivors(cs, params, query);
    let r = ranked(sv);
    let sel = selections_of(cs, params, query, selection_limit);
    lemma_survivors(cs, params, query);
    lemma_ranked_elements(sv);
    lemma_take_within(r, effective_limit(selection_limit), params.budget.value());
    assert forall|i: int| 0 <= i < sel.len() implies sv.contains(#[trigger] sel[i]) by {
        assert(r.contains(sel[i]));
        let m = choose|m: int| 0 <= m < r.len() && r[m] == sel[i];
        assert(sv.contains(r[m]));
    }
    if forall|a: int, b: int|
        0 <= a < b < cs.len() ==> cs[a].indexing.indexer != cs[b].indexing.indexer {
        assert forall|k: int, i: int|
            0 <= k < cs.len() && disqualification(#[trigger] cs[k], params, query) is Some && 0 <= i
                < sel.len() implies #[trigger] sel[i].indexing.indexer != cs[k].indexing.indexer by {
            assert(sv.contains(sel[i]));
            let m = choose|m: int| 0 <= m < sv.len() && sv[m] == sel[i];
            let k2 = choose|k2: int|
                0 <= k2 < cs.len() && disqualification(cs[k2], params, query) is None
                    && sv[m] == scored(cs[k2], query);
            assert(k2 != k);
            if k2 < k {
                assert(cs[k2].indexing.indexer != cs[k].indexing.indexer);
            } else {
                assert(cs[k].indexing.indexer != cs[k2].indexing.indexer);
            }
        }
    }
}

/// When some candidate is not ruled out, at least one indexer is selected.
pub proof fn lemma_selection_not_empty(
    cs: Seq<Candidate>,
    params: UtilityParameters,
    query: Seq<u8>,
    selection_limit: u8,
)
    requires
        selection_limit >= 1,
        exists|k: int|
            0 <= k < cs.len() && disqualification(#[trigger] cs[k], params, query) is None,
    ensures
        selections_of(cs, params, query, selection_limit).len() >= 1,
{
    let sv = survivors(cs, params, query);
    let r = ranked(sv);
    lemma_survivors(cs, params, query);
    lemma_ranked_elements(sv);
    let k = choose|k: int| 0 <= k < cs.len() && disqualification(cs[k], params, query) is None;
    assert(sv.contains(scored(cs[k], query)));
    assert(r.len() > 0);
    assert(sv.contains(r[0]));
    let m = choose|m: int| 0 <= m < sv.len() && sv[m] == r[0];
    let k2 = choose|k2: int|
        0 <= k2 < cs.len() && disqualification(cs[k2], params, query) is None
            && sv[m] == scored(cs[k2], query);
    assert(r[0].fee.value() <= params.budget.value());
    lemma_take_within(r, effective_limit(selection_limit), params.budget.value());
}

/// Selection is a function of its inputs: any two results that meet its
/// contract for the same candidates, parameters, query and limit are equal.
pub proof fn lemma_selection_deterministic(
    cs: Seq<Candidate>,
    params: UtilityParameters,
    query: Seq<u8>,
    selection_limit: u8,
    r1: Result<(Vec<Selection>, Vec<(IndexerError, Address)>), InputError>,
    r2: Result<(Vec<Selection>, Vec<(IndexerError, Address)>), InputError>,
)
    requires
        select_outcome(cs, params, query, selection_limit, r1),
        select_outcome(cs, params, query, selection_limit, r2),
    ensures
        r1 is Ok <==> r2 is Ok,
        r1 is Ok ==> r1->Ok_0.0@ == r2->Ok_0.0@ && r1->Ok_0.1@ == r2->Ok_0.1@,
        r1 is Err ==> r1 == r2,
{
}

} // verus!

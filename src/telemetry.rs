use crate::decimal::{dec_digits, push_char, push_dec};
use crate::engine::UnresolvedBlock;
use crate::ipfs::{ipfs_hash, ipfs_hash_of};
use crate::selection::{Address, DeploymentId, IndexerError, Indexing};
use crate::uint256::Uint256;
use vstd::prelude::*;

verus! {

/// The identifier of a client query within this gateway.
#[derive(Clone, Copy, Debug, PartialEq, Eq)]
pub struct QueryId {
    pub local_id: u64,
}

/// The deployment a query resolved to, and its network.
#[derive(Clone, Debug)]
pub struct QuerySubgraph {
    pub deployment: DeploymentId,
    pub network: String,
}

/// A client query as telemetry records it.
#[derive(Clone, Debug)]
pub struct Query {
    pub ray_id: String,
    pub id: QueryId,
    pub subgraph: Option<QuerySubgraph>,
}

/// Why selection failed for one indexer, as telemetry reports it.
#[derive(Clone, Copy, Debug)]
pub enum SelectionError {
    BadInput,
    MissingNetworkParams,
    MissingBlock(UnresolvedBlock),
    BadIndexer(IndexerError),
    NoAllocation(Indexing),
    FeesTooHigh(usize),
}

/// A record of one indexer that selection rejected.
#[derive(Clone, Debug)]
pub struct ISAScoringError {
    pub ray_id: String,
    pub query_id: u64,
    pub deployment: String,
    pub indexer: String,
    pub error: String,
    pub error_code: u8,
    pub error_data: String,
    pub message: String,
}

pub open spec fn hex_digit(d: u8) -> char {
    if d < 10 {
        (d + 48) as char
    } else {
        (d - 10 + 97) as char
    }
}

/// Bytes as lowercase hexadecimal, two digits each, after "0x".
pub open spec fn hex_of(b: Seq<u8>) -> Seq<char>
    decreases b.len(),
{
    if b.len() == 0 {
        seq!['0', 'x']
    } else {
        hex_of(b.drop_last()) + seq![hex_digit(b.last() / 16), hex_digit(b.last() % 16)]
    }
}

pub open spec fn indexer_error_name(e: IndexerError) -> Seq<char> {
    match e {
        IndexerError::NoStatus => "NoStatus"@,
        IndexerError::NoStake => "NoStake"@,
        IndexerError::NoAllocation => "NoAllocation"@,
        IndexerError::MissingRequiredBlock => "MissingRequiredBlock"@,
        IndexerError::FeeTooHigh => "FeeTooHigh"@,
        IndexerError::NaN => "NaN"@,
    }
}

pub open spec fn block_text(b: UnresolvedBlock) -> Seq<char> {
    match b {
        UnresolvedBlock::WithHash(h) => "WithHash("@ + hex_of(h@) + ")"@,
        UnresolvedBlock::WithNumber(n) => "WithNumber("@ + dec_digits(n as nat) + ")"@,
    }
}

pub open spec fn indexing_text(i: Indexing) -> Seq<char> {
    "Indexing { indexer: "@ + hex_of(i.indexer.bytes@) + ", deployment: "@ + ipfs_hash_of(
        i.deployment.bytes@,
    ) + " }"@
}

/// The numeric code of each kind of selection error.
pub open spec fn error_code_of(e: SelectionError) -> u8 {
    match e {
        SelectionError::BadInput => 1,
        SelectionError::MissingNetworkParams => 2,
        SelectionError::MissingBlock(_) => 3,
        SelectionError::BadIndexer(_) => 4,
        SelectionError::NoAllocation(_) => 5,
        SelectionError::FeesTooHigh(_) => 6,
    }
}

/// The detail that goes with each kind of selection error.
pub open spec fn error_data_of(e: SelectionError) -> Seq<char> {
    match e {
        SelectionError::BadInput => Seq::empty(),
        SelectionError::MissingNetworkParams => Seq::empty(),
        SelectionError::MissingBlock(b) => block_text(b),
        SelectionError::BadIndexer(r) => indexer_error_name(r),
        SelectionError::NoAllocation(i) => indexing_text(i),
        SelectionError::FeesTooHigh(n) => dec_digits(n as nat),
    }
}

/// The text of a selection error.
pub open spec fn error_text(e: SelectionError) -> Seq<char> {
    match e {
        SelectionError::BadInput => "BadInput"@,
        SelectionError::MissingNetworkParams => "MissingNetworkParams"@,
        SelectionError::MissingBlock(b) => "MissingBlock("@ + block_text(b) + ")"@,
        SelectionError::BadIndexer(r) => "BadIndexer("@ + indexer_error_name(r) + ")"@,
        SelectionError::NoAllocation(i) => "NoAllocation("@ + indexing_text(i) + ")"@,
        SelectionError::FeesTooHigh(n) => "FeesTooHigh("@ + dec_digits(n as nat) + ")"@,
    }
}

fn hex_digit_exec(d: u8) -> (c: char)
    requires
        d < 16,
    ensures
        c == hex_digit(d),
{
    if d < 10 {
        (d + 48) as char
    } else {
        (d - 10 + 97) as char
    }
}

fn push_hex(out: &mut String, b: &[u8])
    ensures
        final(out)@ == old(out)@ + hex_of(b@),
{
    out.append("0x");
    proof {
        reveal_strlit("0x");
    }
    assert(b@.take(0) == Seq::<u8>::empty());
    let mut i: usize = 0;
    while i < b.len()
        invariant
            i <= b@.len(),
            out@ == old(out)@ + hex_of(b@.take(i as int)),
        decreases b@.len() - i,
    {
        let x = b[i];
        let ghost before = out@;
        push_char(out, hex_digit_exec(x / 16));
        push_char(out, hex_digit_exec(x % 16));
        assert(b@.take(i + 1).drop_last() == b@.take(i as int));
        assert(out@ == before + seq![hex_digit(x / 16), hex_digit(x % 16)]);
        i = i + 1;
    }
    assert(b@.take(i as int) == b@);
}

fn push_indexer_error(out: &mut String, e: IndexerError)
    ensures
        final(out)@ == old(out)@ + indexer_error_name(e),
{
    match e {
        IndexerError::NoStatus => out.append("NoStatus"),
        IndexerError::NoStake => out.append("NoStake"),
        IndexerError::NoAllocation => out.append("NoAllocation"),
        IndexerError::MissingRequiredBlock => out.append("MissingRequiredBlock"),
        IndexerError::FeeTooHigh => out.append("FeeTooHigh"),
        IndexerError::NaN => out.append("NaN"),
    }
}

fn push_block(out: &mut String, b: &UnresolvedBlock)
    ensures
        final(out)@ == old(out)@ + block_text(*b),
{
    match b {
        UnresolvedBlock::WithHash(h) => {
            out.append("WithHash(");
            push_hex(out, h);
            out.append(")");
        },
        UnresolvedBlock::WithNumber(n) => {
            out.append("WithNumber(");
            push_dec(out, Uint256::from_u128(*n as u128));
            out.append(")");
        },
    }
}

fn push_indexing(out: &mut String, i: &Indexing)
    ensures
        final(out)@ == old(out)@ + indexing_text(*i),
{
    out.append("Indexing { indexer: ");
    push_hex(out, &i.indexer.bytes);
    out.append(", deployment: ");
    let h = ipfs_hash(&i.deployment);
    out.append(h.as_str());
    out.append(" }");
}

fn push_error_data(out: &mut String, err: &SelectionError)
    ensures
        final(out)@ == old(out)@ + error_data_of(*err),
{
    match err {
        SelectionError::BadInput => {
            assert(old(out)@ + Seq::<char>::empty() == old(out)@);
        },
        SelectionError::MissingNetworkParams => {
            assert(old(out)@ + Seq::<char>::empty() == old(out)@);
        },
        SelectionError::MissingBlock(b) => push_block(out, b),
        SelectionError::BadIndexer(r) => push_indexer_error(out, *r),
        SelectionError::NoAllocation(i) => push_indexing(out, i),
        SelectionError::FeesTooHigh(n) => push_dec(out, Uint256::from_u128(*n as u128)),
    }
}

fn push_error_text(out: &mut String, err: &SelectionError)
    ensures
        final(out)@ == old(out)@ + error_text(*err),
{
    match err {
        SelectionError::BadInput => out.append("BadInput"),
        SelectionError::MissingNetworkParams => out.append("MissingNetworkParams"),
        SelectionError::MissingBlock(b) => {
            out.append("MissingBlock(");
            push_block(out, b);
            out.append(")");
        },
        SelectionError::BadIndexer(r) => {
            out.append("BadIndexer(");
            push_indexer_error(out, *r);
            out.append(")");
        },
        SelectionError::NoAllocation(i) => {
            out.append("NoAllocation(");
            push_indexing(out, i);
            out.append(")");
        },
        SelectionError::FeesTooHigh(n) => {
            out.append("FeesTooHigh(");
            push_dec(out, Uint256::from_u128(*n as u128));
            out.append(")");
        },
    }
}

/// Writes `bytes` as "0x" and two lowercase hexadecimal digits per byte.
pub fn hex_string(bytes: &[u8]) -> (r: String)
    ensures
        r@ == hex_of(bytes@),
{
    let mut out = String::new();
    push_hex(&mut out, bytes);
    out
}

impl ISAScoringError {
    /// The record of `indexer` being rejected by selection with `err`, for
    /// a query that has resolved its subgraph.
    pub fn new(query: &Query, indexer: &Address, err: &SelectionError, message: &str) -> (r: Self)
        requires
            query.subgraph is Some,
        ensures
            r.ray_id@ == query.ray_id@,
            r.query_id == query.id.local_id,
            r.deployment@ == ipfs_hash_of(query.subgraph->Some_0.deployment.bytes@),
            r.indexer@ == hex_of(indexer.bytes@),
            r.error@ == error_text(*err),
            r.error_code == error_code_of(*err),
            r.error_data@ == error_data_of(*err),
            r.message@ == message@,
    {
        let error_code: u8 = match err {
            SelectionError::BadInput => 1,
            SelectionError::MissingNetworkParams => 2,
            SelectionError::MissingBlock(_) => 3,
            SelectionError::BadIndexer(_) => 4,
            SelectionError::NoAllocation(_) => 5,
            SelectionError::FeesTooHigh(_) => 6,
        };
        let mut error_data = String::new();
        push_error_data(&mut error_data, err);
        let mut error = String::new();
        push_error_text(&mut error, err);
        let deployment = match &query.subgraph {
            Some(s) => ipfs_hash(&s.deployment),
            None => String::new(),
        };
        ISAScoringError {
            ray_id: query.ray_id.clone(),
            query_id: query.id.local_id,
            deployment,
            indexer: hex_string(&indexer.bytes),
            error,
            error_code,
            error_data,
            message: String::from_str(message),
        }
    }
}

/// The status text and code of a client query: code zero on success, else
/// the hash of the status text with its lowest bit set, so that it is never
/// zero.
pub fn query_status(result: &Result<String, String>, status_hash: u64) -> (r: (String, u32))
    ensures
        match result {
            Ok(s) => r.0@ == s@ && r.1 == 0,
            Err(s) => r.0@ == s@ && r.1 == ((status_hash as u32) | 1),
        },
{
    match result {
        Ok(s) => (s.clone(), 0),
        Err(s) => (s.clone(), (status_hash as u32) | 1),
    }
}

} // verus!

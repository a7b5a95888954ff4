use crate::uint256::{checked_add, le, lemma_value_bound, Uint256};
use crate::selection::{SELECTION_LIMIT, address_eq, bytes32_eq, copy_vec, Address, DeploymentId, Indexing, Selection, GRT};
use vstd::prelude::*;

verus! {

/// A subgraph as a client names it: by name, or by deployment.
#[derive(Clone, Debug)]
pub enum Subgraph {
    Name(String),
    Deployment(DeploymentId),
}

/// An API key and what it permits.
#[derive(Clone, Debug)]
pub struct APIKey {
    pub id: i64,
    pub key: String,
    pub user_id: i64,
    pub user_address: Address,
    pub queries_activated: bool,
    pub deployments: Vec<DeploymentId>,
    pub subgraphs: Vec<(String, i32)>,
    pub domains: Vec<(String, i32)>,
}

/// A query as a client sent it.
#[derive(Clone, Debug)]
pub struct ClientQuery {
    pub id: u64,
    pub api_key: APIKey,
    pub query: String,
    pub variables: Option<String>,
    pub network: String,
    pub subgraph: Subgraph,
}

/// A block as its number and hash.
#[derive(Clone, Copy, Debug, PartialEq, Eq)]
pub struct BlockPointer {
    pub number: u64,
    pub hash: [u8; 32],
}

/// A block that the block resolver returned.
#[derive(Clone, Copy, Debug, PartialEq, Eq)]
pub struct BlockHead {
    pub block: BlockPointer,
}

/// A block that selection needs and that is not known yet.
#[derive(Clone, Copy, Debug, PartialEq, Eq)]
pub enum UnresolvedBlock {
    WithHash([u8; 32]),
    WithNumber(u64),
}

/// An indexer's signed statement on a request and its response.
#[derive(Clone, Copy, Debug, PartialEq, Eq)]
pub struct Attestation {
    pub request_cid: [u8; 32],
    pub response_cid: [u8; 32],
    pub deployment: [u8; 32],
    pub v: u8,
    pub r: [u8; 32],
    pub s: [u8; 32],
}

/// What an indexer answered.
#[derive(Clone, Debug)]
pub struct IndexerResponse {
    pub graphql_response: String,
    pub attestation: Attestation,
}

/// A query to send to one selected indexer.
#[derive(Clone, Debug)]
pub struct IndexerQuery {
    pub indexing: Indexing,
    pub fee: GRT,
    pub utility: u64,
    pub blocks_behind: u64,
    pub query: String,
    pub variables: Option<String>,
}

/// The answer to a client query, with the indexer query that produced it.
#[derive(Clone, Debug)]
pub struct QueryResponse {
    pub query: IndexerQuery,
    pub response: IndexerResponse,
}

/// Why a client query failed.
#[derive(Clone, Debug)]
pub enum QueryEngineError {
    SubgraphNotFound,
    NoIndexerSelected,
    APIKeySubgraphNotAuthorized,
    MalformedQuery,
    MissingBlocks(Vec<UnresolvedBlock>),
}

pub open spec fn name_lookup(names: Seq<(String, DeploymentId)>, name: Seq<char>) -> Option<
    DeploymentId,
>
    decreases names.len(),
{
    if names.len() == 0 {
        None
    } else if names[0].0@ == name {
        Some(names[0].1)
    } else {
        name_lookup(names.drop_first(), name)
    }
}

/// A key with an empty list of deployments permits every deployment.
pub open spec fn permits(api_key: APIKey, d: DeploymentId) -> bool {
    api_key.deployments@.len() == 0 || exists|i: int|
        0 <= i < api_key.deployments@.len() && (#[trigger] api_key.deployments@[i]).bytes@
            == d.bytes@
}

fn lookup_name(names: &Vec<(String, DeploymentId)>, name: &String) -> (r: Option<DeploymentId>)
    ensures
        r == name_lookup(names@, name@),
{
    let mut i: usize = 0;
    assert(names@.skip(0) == names@);
    while i < names.len()
        invariant
            i <= names@.len(),
            name_lookup(names@, name@) == name_lookup(names@.skip(i as int), name@),
        decreases names@.len() - i,
    {
        assert(names@.skip(i as int).drop_first() == names@.skip(i + 1));
        if names[i].0 == *name {
            return Some(names[i].1);
        }
        i = i + 1;
    }
    None
}

/// Finds the deployment that a client query is for and checks that its key
/// permits it.
pub fn resolve_deployment(
    subgraph: &Subgraph,
    current_deployments: &Vec<(String, DeploymentId)>,
    api_key: &APIKey,
) -> (r: Result<DeploymentId, QueryEngineError>)
    ensures
        ({
            let found = match subgraph {
                Subgraph::Deployment(d) => Some(*d),
                Subgraph::Name(n) => name_lookup(current_deployments@, n@),
            };
            match found {
                None => r matches Err(QueryEngineError::SubgraphNotFound),
                Some(d) => if permits(*api_key, d) {
                    r == Ok::<DeploymentId, QueryEngineError>(d)
                } else {
                    r matches Err(QueryEngineError::APIKeySubgraphNotAuthorized)
                },
            }
        }),
{
    let deployment = match subgraph {
        Subgraph::Deployment(d) => *d,
        Subgraph::Name(n) => match lookup_name(current_deployments, n) {
            Some(d) => d,
            None => return Err(QueryEngineError::SubgraphNotFound),
        },
    };
    let ghost found = match subgraph {
        Subgraph::Deployment(d) => Some(*d),
        Subgraph::Name(n) => name_lookup(current_deployments@, n@),
    };
    assert(found == Some(deployment));
    if api_key.deployments.len() == 0 {
        return Ok(deployment);
    }
    let mut i: usize = 0;
    while i < api_key.deployments.len()
        invariant
            i <= api_key.deployments@.len(),
            found == Some(deployment),
            found == match subgraph {
                Subgraph::Deployment(d) => Some(*d),
                Subgraph::Name(n) => name_lookup(current_deployments@, n@),
            },
            forall|j: int| 0 <= j < i ==> api_key.deployments@[j].bytes@ != deployment.bytes@,
        decreases api_key.deployments@.len() - i,
    {
        if bytes32_eq(&api_key.deployments[i].bytes, &deployment.bytes) {
            assert(api_key.deployments@[i as int].bytes@ == deployment.bytes@);
            return Ok(deployment);
        }
        i = i + 1;
    }
    Err(QueryEngineError::APIKeySubgraphNotAuthorized)
}

pub open spec fn resolves(head: BlockHead, b: UnresolvedBlock) -> bool {
    match b {
        UnresolvedBlock::WithHash(h) => h@ == head.block.hash@,
        UnresolvedBlock::WithNumber(n) => n == head.block.number,
    }
}

pub open spec fn resolved_by_any(heads: Seq<BlockHead>, b: UnresolvedBlock) -> bool {
    exists|i: int| 0 <= i < heads.len() && resolves(#[trigger] heads[i], b)
}

/// The blocks of `unresolved` that no head resolves, in order.
pub open spec fn still_unresolved(unresolved: Seq<UnresolvedBlock>, heads: Seq<BlockHead>) -> Seq<
    UnresolvedBlock,
> {
    unresolved.filter(|b: UnresolvedBlock| !resolved_by_any(heads, b))
}

fn resolves_exec(head: &BlockHead, b: &UnresolvedBlock) -> (r: bool)
    ensures
        r == resolves(*head, *b),
{
    match b {
        UnresolvedBlock::WithHash(h) => bytes32_eq(h, &head.block.hash),
        UnresolvedBlock::WithNumber(n) => *n == head.block.number,
    }
}

/// The blocks that the resolver's answer leaves unresolved.
pub fn remaining_unresolved(unresolved: &Vec<UnresolvedBlock>, heads: &Vec<BlockHead>) -> (r: Vec<
    UnresolvedBlock,
>)
    ensures
        r@ == still_unresolved(unresolved@, heads@),
{
    let mut out: Vec<UnresolvedBlock> = Vec::new();
    let mut i: usize = 0;
    while i < unresolved.len()
        invariant
            i <= unresolved@.len(),
            out@ == still_unresolved(unresolved@.take(i as int), heads@),
        decreases unresolved@.len() - i,
    {
        let b = unresolved[i];
        let mut found = false;
        let mut j: usize = 0;
        while j < heads.len()
            invariant
                j <= heads@.len(),
                found == exists|k: int| 0 <= k < j && resolves(#[trigger] heads@[k], b),
            decreases heads@.len() - j,
        {
            if resolves_exec(&heads[j], &b) {
                found = true;
            }
            j = j + 1;
        }
        assert(unresolved@.take(i + 1).drop_last() == unresolved@.take(i as int));
        reveal(Seq::filter);
        if !found {
            out.push(b);
        }
        i = i + 1;
    }
    assert(unresolved@.take(i as int) == unresolved@);
    out
}

/// The error messages of a GraphQL response body: none when the body is not a
/// GraphQL response, else the message of each error in its error list (an
/// empty list when it has none).
pub uninterp spec fn graphql_errors(body: Seq<char>) -> Option<Seq<Seq<char>>>;

/// Relies on `serde_json::from_str` reading a `graphql_client::Response`:
/// `None` when the body does not deserialize, else the `message` of each
/// entry of its `errors` list, in order.
#[verifier::external_body]
fn graphql_error_messages(body: &str) -> (r: Option<Vec<String>>)
    ensures
        r is None <==> graphql_errors(body@) is None,
        r is Some ==> graphql_errors(body@) is Some && r->Some_0@.len()
            == graphql_errors(body@)->Some_0.len() && forall|i: int|
            0 <= i < r->Some_0@.len() ==> (#[trigger] r->Some_0@[i])@ == graphql_errors(
                body@,
            )->Some_0[i],
{
    serde_json::from_str::<graphql_client::Response<Box<serde_json::value::RawValue>>>(body).ok().map(
        |r| r.errors.unwrap_or_default().into_iter().map(|e| e.message).collect(),
    )
}

/// The message with which an indexer says that it has not reached a block
/// that the query names.
pub open spec fn behind_message() -> Seq<char> {
    "Failed to decode `block.hash` value: `no block with that hash found`"@
}

/// How an indexer's answer is taken.
#[derive(Clone, Copy, Debug, PartialEq, Eq, Structural)]
pub enum ResponseKind {
    /// A usable answer.
    Valid,
    /// The indexer is behind the block that the query needs.
    Behind,
    /// The body is not a GraphQL response.
    Undecodable,
}

pub open spec fn views_of(v: Seq<String>) -> Seq<Seq<char>> {
    v.map_values(|m: String| m@)
}

/// Whether one of the messages is the one for an indexer that is behind.
pub open spec fn reports_behind(msgs: Seq<Seq<char>>) -> bool {
    exists|i: int| 0 <= i < msgs.len() && #[trigger] msgs[i] == behind_message()
}

pub open spec fn kind_of_errors(errors: Option<Seq<Seq<char>>>) -> ResponseKind {
    match errors {
        None => ResponseKind::Undecodable,
        Some(msgs) => if reports_behind(msgs) {
            ResponseKind::Behind
        } else {
            ResponseKind::Valid
        },
    }
}

fn has_behind_message(msgs: &Vec<String>) -> (r: bool)
    ensures
        r == reports_behind(views_of(msgs@)),
{
    let marker = String::from_str(
        "Failed to decode `block.hash` value: `no block with that hash found`",
    );
    let ghost views = views_of(msgs@);
    let mut i: usize = 0;
    while i < msgs.len()
        invariant
            i <= msgs@.len(),
            views == views_of(msgs@),
            views.len() == msgs@.len(),
            marker@ == behind_message(),
            forall|j: int| 0 <= j < i ==> views[j] != behind_message(),
        decreases msgs@.len() - i,
    {
        if msgs[i] == marker {
            assert(views[i as int] == behind_message());
            return true;
        }
        i = i + 1;
    }
    false
}

/// Classifies an answer from the error messages of its GraphQL envelope
/// (`None` when it did not decode).
pub fn classify_errors(errors: &Option<Vec<String>>) -> (k: ResponseKind)
    ensures
        k == kind_of_errors(
            match errors {
                None => None,
                Some(v) => Some(views_of(v@)),
            },
        ),
{
    match errors {
        None => ResponseKind::Undecodable,
        Some(msgs) => {
            if has_behind_message(msgs) {
                ResponseKind::Behind
            } else {
                ResponseKind::Valid
            }
        },
    }
}

/// Classifies an indexer's answer body.
pub fn classify_response(body: &str) -> (k: ResponseKind)
    ensures
        k == kind_of_errors(graphql_errors(body@)),
{
    let errors = graphql_error_messages(body);
    let k = classify_errors(&errors);
    proof {
        if errors is Some {
            assert(views_of(errors->Some_0@) == graphql_errors(body@)->Some_0);
        }
    }
    k
}

/// What the execution of a query reports about one indexer.
#[derive(Clone, Copy, Debug, PartialEq, Eq)]
pub enum ObservationKind {
    Success { duration_ms: u64 },
    Failure { penalize: bool },
    IndexingBehind,
}

/// An observation about one indexing.
#[derive(Clone, Copy, Debug, PartialEq, Eq)]
pub struct Observation {
    pub indexing: Indexing,
    pub kind: ObservationKind,
}

/// Why selection chose no indexer.
#[derive(Clone, Debug)]
pub enum SelectionFailure {
    /// No candidate is available.
    NoneAvailable,
    /// The query text could not be read.
    BadInput,
    /// Selection needs these blocks first.
    MissingBlocks(Vec<UnresolvedBlock>),
}

/// What happened since the last step of an execution.
#[derive(Debug)]
pub enum Event {
    /// The execution begins.
    Start,
    /// Selection ran, with the indexer queries it produced.
    Selected(Result<Vec<IndexerQuery>, SelectionFailure>),
    /// The block resolver answered.
    BlocksResolved(Vec<BlockHead>),
    /// An indexer answered, or its request failed.
    Responded { indexer: Address, result: Result<IndexerResponse, String>, duration_ms: u64 },
}

/// What the driver of an execution does next.
#[derive(Debug)]
pub enum Action {
    /// Run selection over these indexers within this budget.
    Select { candidates: Vec<Address>, budget: GRT },
    /// Ask the block resolver for these blocks.
    ResolveBlocks(Vec<UnresolvedBlock>),
    /// Send the queries just selected for these indexings, in parallel.
    Dispatch(Vec<Indexing>),
    /// Wait for the next answer.
    Wait,
    /// The client query is answered.
    Finish(Result<QueryResponse, QueryEngineError>),
}

/// One step of an execution: an observation to report, if any, and the next
/// action.
#[derive(Debug)]
pub struct Step {
    pub observation: Option<Observation>,
    pub action: Action,
}

/// The state of one client query's execution: the indexers still in the
/// running, the queries sent and not answered, the blocks being resolved, the
/// budget left and the attempts made.
#[derive(Clone, Debug)]
pub struct Execution {
    pub candidates: Vec<Address>,
    pub pending: Vec<IndexerQuery>,
    pub unresolved: Vec<UnresolvedBlock>,
    pub budget: GRT,
    pub attempts: usize,
    pub retry_limit: usize,
    pub finished: bool,
}

pub open spec fn same_address(a: Address, b: Address) -> bool {
    a.bytes@ == b.bytes@
}

/// The indexers of `cands` other than `a`.
pub open spec fn without(cands: Seq<Address>, a: Address) -> Seq<Address> {
    cands.filter(|x: Address| !same_address(x, a))
}

/// The first pending query to indexer `a`.
pub open spec fn find_pending(p: Seq<IndexerQuery>, a: Address) -> Option<int>
    decreases p.len(),
{
    if p.len() == 0 {
        None
    } else if same_address(p[0].indexing.indexer, a) {
        Some(0)
    } else {
        match find_pending(p.drop_first(), a) {
            Some(i) => Some(i + 1),
            None => None,
        }
    }
}

pub open spec fn query_fees(qs: Seq<IndexerQuery>) -> nat
    decreases qs.len(),
{
    if qs.len() == 0 {
        0
    } else {
        query_fees(qs.drop_last()) + qs.last().fee.value()
    }
}

/// A selection is sent only when it names at least one and at most
/// `SELECTION_LIMIT` indexers and its fees fit in the budget left.
pub open spec fn dispatchable(qs: Seq<IndexerQuery>, budget: GRT) -> bool {
    0 < qs.len() <= SELECTION_LIMIT && query_fees(qs) <= budget.value()
}

pub open spec fn saturating_minus(a: nat, b: nat) -> nat {
    if b <= a {
        (a - b) as nat
    } else {
        0
    }
}

pub open spec fn indexings_of(qs: Seq<IndexerQuery>) -> Seq<Indexing> {
    qs.map_values(|q: IndexerQuery| q.indexing)
}

/// Either the next attempt starts, with selection over the indexers `cands`
/// and the budget `budget`, or the attempts are used up and the query fails.
pub open spec fn attempt_rule(
    attempts: usize,
    retry_limit: usize,
    cands: Seq<Address>,
    budget: GRT,
    post_attempts: usize,
    a: Action,
) -> bool {
    if attempts < retry_limit {
        &&& post_attempts == attempts + 1
        &&& a matches Action::Select { candidates, budget: b } && candidates@ == cands && b
            == budget
    } else {
        &&& post_attempts == attempts
        &&& a matches Action::Finish(Err(QueryEngineError::NoIndexerSelected))
    }
}

/// All but the attempt count are unchanged.
pub open spec fn same_but_attempts(pre: Execution, post: Execution) -> bool {
    &&& post.candidates@ == pre.candidates@
    &&& post.pending@ == pre.pending@
    &&& post.unresolved@ == pre.unresolved@
    &&& post.budget == pre.budget
    &&& post.retry_limit == pre.retry_limit
    &&& post.finished == pre.finished
}

pub open spec fn next_attempt(pre: Execution, post: Execution, a: Action) -> bool {
    &&& same_but_attempts(pre, post)
    &&& attempt_rule(pre.attempts, pre.retry_limit, pre.candidates@, pre.budget, post.attempts, a)
}

pub open spec fn unchanged(pre: Execution, post: Execution) -> bool {
    same_but_attempts(pre, post) && post.attempts == pre.attempts
}

/// How an indexer's answer, or the failure of its request, is taken.
pub open spec fn kind_of_result(result: Result<IndexerResponse, String>) -> ResponseKind {
    match result {
        Ok(resp) => kind_of_errors(graphql_errors(resp.graphql_response@)),
        Err(_) => ResponseKind::Undecodable,
    }
}

/// The observation that an indexer's answer gives.
pub open spec fn observation_for(q: IndexerQuery, k: ResponseKind, duration_ms: u64) -> Observation {
    Observation {
        indexing: q.indexing,
        kind: match k {
            ResponseKind::Valid => ObservationKind::Success { duration_ms },
            ResponseKind::Behind => ObservationKind::IndexingBehind,
            ResponseKind::Undecodable => ObservationKind::Failure { penalize: true },
        },
    }
}

/// What one step of an execution does with an event.
pub open spec fn step_spec(pre: Execution, event: Event, post: Execution, s: Step) -> bool {
    match event {
        Event::Start => s.observation is None && next_attempt(pre, post, s.action),
        Event::Selected(Ok(qs)) => {
            &&& s.observation is None
            &&& if !dispatchable(qs@, pre.budget) {
                &&& unchanged(pre, post)
                &&& s.action matches Action::Finish(Err(QueryEngineError::NoIndexerSelected))
            } else {
                &&& post.pending@ == pre.pending@ + qs@
                &&& post.budget.value() == pre.budget.value() - query_fees(qs@)
                &&& post.candidates@ == pre.candidates@
                &&& post.unresolved@ == pre.unresolved@
                &&& post.attempts == pre.attempts
                &&& post.retry_limit == pre.retry_limit
                &&& post.finished == pre.finished
                &&& s.action matches Action::Dispatch(d) && d@ == indexings_of(qs@)
            }
        },
        Event::Selected(Err(SelectionFailure::NoneAvailable)) => {
            &&& s.observation is None
            &&& unchanged(pre, post)
            &&& s.action matches Action::Finish(Err(QueryEngineError::NoIndexerSelected))
        },
        Event::Selected(Err(SelectionFailure::BadInput)) => {
            &&& s.observation is None
            &&& unchanged(pre, post)
            &&& s.action matches Action::Finish(Err(QueryEngineError::MalformedQuery))
        },
        Event::Selected(Err(SelectionFailure::MissingBlocks(u))) => {
            &&& s.observation is None
            &&& post.unresolved@ == u@
            &&& post.candidates@ == pre.candidates@
            &&& post.pending@ == pre.pending@
            &&& post.budget == pre.budget
            &&& post.attempts == pre.attempts
            &&& post.retry_limit == pre.retry_limit
            &&& post.finished == pre.finished
            &&& s.action matches Action::ResolveBlocks(b) && b@ == u@
        },
        Event::BlocksResolved(heads) => {
            let rem = still_unresolved(pre.unresolved@, heads@);
            &&& s.observation is None
            &&& if rem.len() > 0 {
                &&& unchanged(pre, post)
                &&& s.action matches Action::Finish(Err(QueryEngineError::MissingBlocks(m)))
                    && m@ == rem
            } else {
                next_attempt(pre, post, s.action)
            }
        },
        Event::Responded { indexer, result, duration_ms } => match find_pending(
            pre.pending@,
            indexer,
        ) {
            None => s.observation is None && unchanged(pre, post) && s.action is Wait,
            Some(i) => {
                let q = pre.pending@[i];
                let k = kind_of_result(result);
                &&& post.pending@ == pre.pending@.remove(i)
                &&& s.observation == Some(observation_for(q, k, duration_ms))
                &&& post.unresolved@ == pre.unresolved@
                &&& post.budget == pre.budget
                &&& post.retry_limit == pre.retry_limit
                &&& if k == ResponseKind::Valid {
                    &&& post.finished
                    &&& post.candidates@ == pre.candidates@
                    &&& post.attempts == pre.attempts
                    &&& if pre.finished {
                        s.action is Wait
                    } else {
                        s.action == Action::Finish(
                            Ok(QueryResponse { query: q, response: result->Ok_0 }),
                        )
                    }
                } else {
                    &&& post.finished == pre.finished
                    &&& post.candidates@ == without(pre.candidates@, indexer)
                    &&& if post.pending@.len() > 0 || pre.finished {
                        post.attempts == pre.attempts && s.action is Wait
                    } else {
                        attempt_rule(
                            pre.attempts,
                            pre.retry_limit,
                            post.candidates@,
                            pre.budget,
                            post.attempts,
                            s.action,
                        )
                    }
                }
            },
        },
    }
}

fn remove_address(v: &Vec<Address>, a: &Address) -> (r: Vec<Address>)
    ensures
        r@ == without(v@, *a),
{
    let mut out: Vec<Address> = Vec::new();
    let mut i: usize = 0;
    while i < v.len()
        invariant
            i <= v@.len(),
            out@ == without(v@.take(i as int), *a),
        decreases v@.len() - i,
    {
        assert(v@.take(i + 1).drop_last() == v@.take(i as int));
        reveal(Seq::filter);
        if !address_eq(&v[i], a) {
            out.push(v[i]);
        }
        i = i + 1;
    }
    assert(v@.take(i as int) == v@);
    out
}

fn pending_position(p: &Vec<IndexerQuery>, a: &Address) -> (r: Option<usize>)
    ensures
        match r {
            Some(i) => find_pending(p@, *a) == Some(i as int) && i < p@.len(),
            None => find_pending(p@, *a) is None,
        },
{
    let mut i: usize = 0;
    assert(p@.skip(0) == p@);
    while i < p.len()
        invariant
            i <= p@.len(),
            forall|j: int| 0 <= j < i ==> !same_address(p@[j].indexing.indexer, *a),
            find_pending(p@, *a) == match find_pending(p@.skip(i as int), *a) {
                Some(k) => Some(k + i),
                None => None::<int>,
            },
        decreases p@.len() - i,
    {
        assert(p@.skip(i as int).drop_first() == p@.skip(i + 1));
        assert(p@.skip(i as int)[0] == p@[i as int]);
        if address_eq(&p[i].indexing.indexer, a) {
            return Some(i);
        }
        i = i + 1;
    }
    None
}

fn indexings(qs: &Vec<IndexerQuery>) -> (r: Vec<Indexing>)
    ensures
        r@ == indexings_of(qs@),
{
    let mut out: Vec<Indexing> = Vec::new();
    let mut i: usize = 0;
    while i < qs.len()
        invariant
            i <= qs@.len(),
            out@ == indexings_of(qs@.take(i as int)),
        decreases qs@.len() - i,
    {
        out.push(qs[i].indexing);
        assert(indexings_of(qs@.take(i + 1)) == indexings_of(qs@.take(i as int)).push(
            qs@[i as int].indexing,
        ));
        i = i + 1;
    }
    assert(qs@.take(i as int) == qs@);
    out
}

proof fn lemma_query_fees_grow(qs: Seq<IndexerQuery>, i: int)
    requires
        0 <= i <= qs.len(),
    ensures
        query_fees(qs) >= query_fees(qs.take(i)),
    decreases qs.len(),
{
    if i < qs.len() {
        assert(qs.drop_last().take(i) == qs.take(i));
        lemma_query_fees_grow(qs.drop_last(), i);
    } else {
        assert(qs.take(i) == qs);
    }
}

/// Whether the fees of `qs` add up to no more than `budget`.
fn fees_within(qs: &Vec<IndexerQuery>, budget: GRT) -> (r: bool)
    ensures
        r == (query_fees(qs@) <= budget.value()),
{
    let mut total = Uint256::zero();
    let mut i: usize = 0;
    assert(qs@.take(0) == Seq::<IndexerQuery>::empty());
    while i < qs.len()
        invariant
            i <= qs@.len(),
            total.value() == query_fees(qs@.take(i as int)),
            total.value() <= budget.value(),
        decreases qs@.len() - i,
    {
        assert(qs@.take(i + 1).drop_last() == qs@.take(i as int));
        match checked_add(total, qs[i].fee.internal) {
            None => {
                proof {
                    lemma_value_bound(budget.internal);
                    lemma_query_fees_grow(qs@, i + 1);
                }
                return false;
            },
            Some(t) => {
                if !le(t, budget.internal) {
                    proof {
                        lemma_query_fees_grow(qs@, i + 1);
                    }
                    return false;
                }
                total = t;
            },
        }
        i = i + 1;
    }
    assert(qs@.take(i as int) == qs@);
    true
}

impl Execution {
    /// A new execution over the indexers of a deployment.
    pub fn new(candidates: Vec<Address>, budget: GRT, retry_limit: usize) -> (r: Self)
        ensures
            r.candidates@ == candidates@,
            r.pending@.len() == 0,
            r.unresolved@.len() == 0,
            r.budget == budget,
            r.attempts == 0,
            r.retry_limit == retry_limit,
            !r.finished,
    {
        Execution {
            candidates,
            pending: Vec::new(),
            unresolved: Vec::new(),
            budget,
            attempts: 0,
            retry_limit,
            finished: false,
        }
    }

    fn attempt(&mut self) -> (a: Action)
        ensures
            next_attempt(*old(self), *final(self), a),
    {
        if self.attempts < self.retry_limit {
            self.attempts = self.attempts + 1;
            Action::Select { candidates: copy_vec(&self.candidates), budget: self.budget }
        } else {
            Action::Finish(Err(QueryEngineError::NoIndexerSelected))
        }
    }

    fn commit(&mut self, queries: Vec<IndexerQuery>) -> (a: Action)
        ensures
            final(self).pending@ == old(self).pending@ + queries@,
            final(self).budget.value() == saturating_minus(
                old(self).budget.value(),
                query_fees(queries@),
            ),
            final(self).candidates == old(self).candidates,
            final(self).unresolved == old(self).unresolved,
            final(self).attempts == old(self).attempts,
            final(self).retry_limit == old(self).retry_limit,
            final(self).finished == old(self).finished,
            a matches Action::Dispatch(d) && d@ == indexings_of(queries@),
    {
        let dispatch = indexings(&queries);
        let ghost b0 = self.budget.value();
        let mut i: usize = 0;
        while i < queries.len()
            invariant
                i <= queries@.len(),
                self.budget.value() == saturating_minus(b0, query_fees(queries@.take(i as int))),
                self.pending == old(self).pending,
                self.candidates == old(self).candidates,
                self.unresolved == old(self).unresolved,
                self.attempts == old(self).attempts,
                self.retry_limit == old(self).retry_limit,
                self.finished == old(self).finished,
                b0 == old(self).budget.value(),
            decreases queries@.len() - i,
        {
            assert(queries@.take(i + 1).drop_last() == queries@.take(i as int));
            let fee = queries[i].fee;
            self.budget = self.budget.saturating_sub(fee);
            i = i + 1;
        }
        assert(queries@.take(i as int) == queries@);
        let ghost qs = queries@;
        let mut moved = queries;
        self.pending.append(&mut moved);
        assert(self.pending@ == old(self).pending@ + qs);
        Action::Dispatch(dispatch)
    }

    /// Takes one event and says what to report and what to do next.
    pub fn step(&mut self, event: Event) -> (s: Step)
        ensures
            step_spec(*old(self), event, *final(self), s),
    {
        match event {
            Event::Start => Step { observation: None, action: self.attempt() },
            Event::Selected(Ok(qs)) => {
                if qs.len() == 0 || qs.len() > SELECTION_LIMIT || !fees_within(&qs, self.budget) {
                    Step {
                        observation: None,
                        action: Action::Finish(Err(QueryEngineError::NoIndexerSelected)),
                    }
                } else {
                    Step { observation: None, action: self.commit(qs) }
                }
            },
            Event::Selected(Err(SelectionFailure::NoneAvailable)) => Step {
                observation: None,
                action: Action::Finish(Err(QueryEngineError::NoIndexerSelected)),
            },
            Event::Selected(Err(SelectionFailure::BadInput)) => Step {
                observation: None,
                action: Action::Finish(Err(QueryEngineError::MalformedQuery)),
            },
            Event::Selected(Err(SelectionFailure::MissingBlocks(u))) => {
                let b = copy_vec(&u);
                self.unresolved = u;
                Step { observation: None, action: Action::ResolveBlocks(b) }
            },
            Event::BlocksResolved(heads) => {
                let rem = remaining_unresolved(&self.unresolved, &heads);
                if rem.len() > 0 {
                    Step {
                        observation: None,
                        action: Action::Finish(Err(QueryEngineError::MissingBlocks(rem))),
                    }
                } else {
                    Step { observation: None, action: self.attempt() }
                }
            },
            Event::Responded { indexer, result, duration_ms } => {
                match pending_position(&self.pending, &indexer) {
                    None => Step { observation: None, action: Action::Wait },
                    Some(i) => {
                        let q = self.pending.remove(i);
                        let k = match &result {
                            Ok(resp) => classify_response(resp.graphql_response.as_str()),
                            Err(_) => ResponseKind::Undecodable,
                        };
                        let kind = match k {
                            ResponseKind::Valid => ObservationKind::Success { duration_ms },
                            ResponseKind::Behind => ObservationKind::IndexingBehind,
                            ResponseKind::Undecodable => ObservationKind::Failure {
                                penalize: true,
                            },
                        };
                        let observation = Some(Observation { indexing: q.indexing, kind });
                        match result {
                            Ok(response) if k == ResponseKind::Valid => {
                                let was_finished = self.finished;
                                self.finished = true;
                                if was_finished {
                                    Step { observation, action: Action::Wait }
                                } else {
                                    Step {
                                        observation,
                                        action: Action::Finish(
                                            Ok(QueryResponse { query: q, response }),
                                        ),
                                    }
                                }
                            },
                            _ => {
                                self.candidates = remove_address(&self.candidates, &indexer);
                                if self.pending.len() > 0 || self.finished {
                                    Step { observation, action: Action::Wait }
                                } else {
                                    Step { observation, action: self.attempt() }
                                }
                            },
                        }
                    },
                }
            },
        }
    }
}

/// An answer whose GraphQL errors include the message for an indexer that is
/// behind gives exactly one observation, that the indexing is behind (and so
/// no failure), and the indexer leaves the running for this query.
pub proof fn lemma_behind_answer_observed(
    pre: Execution,
    indexer: Address,
    response: IndexerResponse,
    duration_ms: u64,
    post: Execution,
    s: Step,
)
    requires
        step_spec(
            pre,
            Event::Responded { indexer, result: Ok(response), duration_ms },
            post,
            s,
        ),
        find_pending(pre.pending@, indexer) is Some,
        graphql_errors(response.graphql_response@) matches Some(m) && reports_behind(m),
    ensures
        s.observation matches Some(o) && o.kind == ObservationKind::IndexingBehind,
        post.candidates@ == without(pre.candidates@, indexer),
        post.pending@.len() + 1 == pre.pending@.len(),
{
    lemma_find_pending(pre.pending@, indexer);
}

proof fn lemma_find_pending(p: Seq<IndexerQuery>, a: Address)
    ensures
        find_pending(p, a) matches Some(i) ==> 0 <= i < p.len() && same_address(
            p[i].indexing.indexer,
            a,
        ),
    decreases p.len(),
{
    if p.len() > 0 && !same_address(p[0].indexing.indexer, a) {
        lemma_find_pending(p.drop_first(), a);
    }
}

/// A selection is dispatched only when its fees fit in the budget left and it
/// names no more than `SELECTION_LIMIT` indexers; the fees are then taken
/// from the budget.
pub proof fn lemma_dispatch_within_budget(
    pre: Execution,
    qs: Vec<IndexerQuery>,
    post: Execution,
    s: Step,
)
    requires
        step_spec(pre, Event::Selected(Ok(qs)), post, s),
        s.action is Dispatch,
    ensures
        query_fees(qs@) <= pre.budget.value(),
        post.budget.value() + query_fees(qs@) == pre.budget.value(),
        1 <= qs@.len() <= SELECTION_LIMIT,
{
}

/// No step gives budget back: over a whole execution the fees of all
/// dispatched queries add up to no more than the starting budget.
pub proof fn lemma_budget_never_grows(pre: Execution, event: Event, post: Execution, s: Step)
    requires
        step_spec(pre, event, post, s),
    ensures
        post.budget.value() <= pre.budget.value(),
{
}

} // verus!

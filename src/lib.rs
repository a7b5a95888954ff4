pub mod uint256;
// Indexer selection and query execution for a decentralized GraphQL gateway.
//
// decimal        fixed-precision non-negative decimals (fees, stakes)
// cost_model     indexers' pricing rules evaluated against a query
// selection      candidate filtering, ranking and budgeted selection
// uint256        256-bit unsigned integers
// utility        the integer-valued utility axes
// engine         query execution as a state machine driven by events
// actor          the observation actor's state and its updates
// blocks         the block numbers a query names
// ipfs           the IPFS hash of a deployment
// telemetry      records of selection errors
// providers      the Ethereum provider list
// subscriptions  subscriptions as the subscriptions subgraph reports them
pub mod actor;
pub mod blocks;
pub mod cost_model;
pub mod decimal;
pub mod engine;
pub mod ipfs;
pub mod providers;
pub mod selection;
pub mod subscriptions;
pub mod telemetry;
pub mod utility;

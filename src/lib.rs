//! A cross-consensus message interpreter with verified bookkeeping.
//!
//! - `weight`: two-dimensional costs and database access prices.
//! - `message_queue_weights`: benchmarked costs of message-queue operations.
//! - `location`, `asset`: addresses, fungible assets and the holding register.
//! - `ledger`, `trap`: account balances and assets trapped after execution.
//! - `program`, `codec`: instructions, programs, outcomes and their wire form.
//! - `config`: the policies, given as data, and the weigher and barrier.
//! - `send`: validated, fee-priced delivery of programs.
//! - `executor`: admission, metering and the instruction loop.
//! - `proof_size`: the storage-proof-size reader passed in as a value.

pub mod weight;
pub mod message_queue_weights;
pub mod location;
pub mod asset;
pub mod ledger;
pub mod trap;
pub mod program;
pub mod codec;
pub mod config;
pub mod send;
pub mod executor;
pub mod proof_size;

//! A Byzantine-fault-tolerant mempool and ordering core. A committee of
//! authorities certifies headers round by round into a DAG, and a leader
//! rule turns that DAG into one committed sequence, the same for every
//! authority.
//!
//! The modules, leaves first:
//!
//! - `committee`: the authorities, their stake, the thresholds, the leader
//!   of a round;
//! - `types`: headers, votes, certificates;
//! - `dag`: the certificate DAG and what it admits;
//! - `aggregator`: votes and acknowledgements gathered to a quorum;
//! - `batch_maker`: transactions gathered to a batch;
//! - `voter`: one vote for each author and round;
//! - `proposer`: one header for each round;
//! - `dag_core`: certificates that wait for their parents, and garbage
//!   collection;
//! - `primary`: the four of them together, event by event;
//! - `ordering`: the leader rule as mathematics, and why authorities agree;
//! - `consensus`: the leader rule as it runs;
//! - `guarantees`: what holds of every DAG, ordering and redelivery;
//! - `node`: what a node decides before it runs;
//! - `analysis`: the counters of a run.

pub mod committee;
pub mod types;
pub mod dag;
pub mod aggregator;
pub mod batch_maker;
pub mod voter;
pub mod proposer;
pub mod dag_core;
pub mod primary;
pub mod ordering;
pub mod consensus;
pub mod guarantees;
pub mod node;
pub mod analysis;

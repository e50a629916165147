//! The attribute-cap-aggregate core of a three-party interactive privacy-preserving
//! aggregation protocol, run for the three helpers side by side.
//!
//! Every value is held as replicated secret shares: helper `i` keeps the pair
//! `(x_i, x_{i+1})` of additive shares. Each protocol step is stated over what the shares stand
//! for, so the whole pipeline is proved to compute the cleartext fold of last-touch
//! attribution, per-user capping and per-breakdown summation.
//!
//! - `share`, `ff`: shared bits and bit arrays, the prime field and its shares.
//! - `context`: step paths, record counts, and the pads of pseudorandom secret sharing.
//! - `boolean_ops`: multiplication and the bitwise circuits (add, subtract, compare).
//! - `attribution`: the per-user state machine, one row at a time.
//! - `aggregation`: conversion into the field and routing into breakdown buckets.
//! - `prf_sharding`: grouping by user, the depth histogram, record ids, the full pipeline.
//! - `query`: configurations and the serialized form of input rows.
//! - `helpers`, `gateway`: helper identities, roles, and channel bookkeeping.
pub mod aggregation;
pub mod attribution;
pub mod boolean_ops;
pub mod context;
pub mod error;
pub mod ff;
pub mod gateway;
pub mod helpers;
pub mod prf_sharding;
pub mod query;
pub mod share;

//! A DAG ledger engine: a store of immutable transaction records, each
//! approving zero or more prior records.  The ledger supports permissive
//! insertion, one-hop reference validation, cascading invalidation and
//! cumulative-weight computation, with the structural invariants proved.

pub mod dag;
pub mod ids;

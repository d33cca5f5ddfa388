//! A Cascades-style cost-based optimizer for inner-join reordering.
//!
//! A logical query plan is interned into a memo: a content-addressed store
//! mapping 64-bit fingerprints to equivalence groups of multi-expressions.
//! An exploration driver saturates each group with the plans reachable by
//! join commutativity and associativity, then records each group's cheapest
//! member under a simple row-count cost model.

#![verifier::loop_isolation(false)]

pub mod cascades;
pub mod expr;
pub mod expression_utils;
pub mod group;
pub mod hashing;
pub mod memo_map;
pub mod mexpr;
pub mod plan;
pub mod planprinter;

pub mod rulematcher;
pub mod sourcenode;
pub mod util;

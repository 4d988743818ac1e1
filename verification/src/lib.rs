//! Unranking of combinations in the combinatorial number system.
//!
//! The `k`-element combinations of an ordered set of `n` elements, listed in
//! lexicographic order of their positions, are numbered from zero up to
//! "`n` choose `k`". This crate goes from such a number, the rank, to the
//! combination that holds it, without listing the others, and uses that to
//! sample induced subgraphs of a graph by rank.
//!
//! - `binomial`: the mathematics of binomial coefficients.
//! - `bignat`: natural numbers of any size.
//! - `coefficient`: exact binomial coefficients.
//! - `cache`: a memo table of coefficients for one session.
//! - `unrank`: decoding one rank.
//! - `batch`: decoding many ranks, one after another or side by side.
//! - `lexicographic`: why decoding numbers the combinations in lexicographic order.
//! - `subgraph`: induced subgraphs by rank.

pub mod batch;
pub mod bignat;
pub mod binomial;
pub mod cache;
pub mod coefficient;
pub mod error;
pub mod lexicographic;
pub mod subgraph;
pub mod unrank;

pub use crate::batch::{unrank, unrank_many, unrank_parallel};
pub use crate::bignat::BigNat;
pub use crate::cache::Cache;
pub use crate::coefficient::binomial_coefficient;
pub use crate::error::UnrankError;
pub use crate::subgraph::{
    generate_subgraph_parallel, generate_subgraph_single, sample_subgraphs, Graph, Subgraph,
};
pub use crate::unrank::unrank_combination_single;

//! Sampling induced subgraphs of a graph: one for each rank of a combination of its nodes.

use crate::batch::{first_ranks, map_in_parallel, ranks_below, valid_ranks};
use crate::binomial::binomial;
use crate::cache::Cache;
use crate::error::UnrankError;
use crate::unrank::{decode, unrank_spec, valid_rank, valid_size};
use std::collections::HashSet;
use vstd::prelude::*;

verus! {

broadcast use vstd::std_specs::hash::group_hash_axioms;

/// An undirected graph: its nodes are the indices below `node_count`, and each
/// edge is the pair of the indices that it joins.
#[derive(Clone, Debug, PartialEq, Eq)]
pub struct Graph {
    pub node_count: usize,
    pub edges: Vec<(u64, u64)>,
}

/// A part of a graph: some of its nodes, under the indices that they have in the
/// graph, and edges between them.
#[derive(Clone, Debug, PartialEq, Eq)]
pub struct Subgraph {
    pub nodes: Vec<u64>,
    pub edges: Vec<(u64, u64)>,
}

/// The node indices of a graph of `count` nodes, in their order: the base set
/// that the combinations of nodes are taken from.
pub open spec fn node_indices(count: nat) -> Seq<u64> {
    Seq::new(count, |i: int| i as u64)
}

/// The edges among `edges` that join two of the given nodes, in the order in
/// which they stand there.
pub open spec fn induced_edges(edges: Seq<(u64, u64)>, nodes: Seq<u64>) -> Seq<(u64, u64)> {
    edges.filter(|edge: (u64, u64)| nodes.contains(edge.0) && nodes.contains(edge.1))
}

/// `sample` is the subgraph that the nodes of the combination with the given
/// rank induce: those nodes, and every edge of the graph between two of them.
pub open spec fn is_sample(graph: Graph, k: nat, rank: nat, sample: Subgraph) -> bool {
    &&& sample.nodes@ == unrank_spec(node_indices(graph.node_count as nat), k, rank)
    &&& sample.edges@ == induced_edges(graph.edges@, sample.nodes@)
}

/// Whether the samples are, one for one and in order, those of the given ranks.
pub open spec fn are_samples(graph: Graph, k: nat, ranks: Seq<u64>, samples: Seq<Subgraph>) -> bool {
    &&& samples.len() == ranks.len()
    &&& forall|j: int|
        0 <= j < ranks.len() ==> is_sample(graph, k, ranks[j] as nat, #[trigger] samples[j])
}

impl Graph {
    /// The node indices of the graph, in their order.
    pub fn node_indices(&self) -> (indices: Vec<u64>)
        ensures
            indices@ == node_indices(self.node_count as nat),
    {
        let mut indices: Vec<u64> = Vec::new();
        let mut node: usize = 0;
        while node < self.node_count
            invariant
                node <= self.node_count,
                indices@ == node_indices(node as nat),
            decreases self.node_count - node,
        {
            indices.push(node as u64);
            node = node + 1;
            assert(indices@ =~= node_indices(node as nat));
        }
        indices
    }

    /// The subgraph that the given nodes induce: the nodes as they are given,
    /// and every edge of the graph that joins two of them.
    pub fn induced_subgraph(&self, nodes: Vec<u64>) -> (sample: Subgraph)
        ensures
            sample.nodes@ == nodes@,
            sample.edges@ == induced_edges(self.edges@, nodes@),
    {
        let mut kept: HashSet<u64> = HashSet::new();
        let mut at: usize = 0;
        while at < nodes.len()
            invariant
                at <= nodes.len(),
                forall|node: u64| kept@.contains(node) <==> nodes@.take(at as int).contains(node),
            decreases nodes.len() - at,
        {
            kept.insert(nodes[at]);
            proof {
                let before = nodes@.take(at as int);
                let now = nodes@.take(at + 1);
                assert(now =~= before.push(nodes@[at as int]));
                assert forall|node: u64| kept@.contains(node) <==> now.contains(node) by {
                    if before.contains(node) {
                        let i = choose|i: int| 0 <= i < before.len() && before[i] == node;
                        assert(now[i] == node);
                    }
                    if node == nodes@[at as int] {
                        assert(now[at as int] == node);
                    }
                }
            }
            at = at + 1;
        }
        assert(nodes@.take(nodes@.len() as int) =~= nodes@);
        let mut edges: Vec<(u64, u64)> = Vec::new();
        let mut next: usize = 0;
        while next < self.edges.len()
            invariant
                next <= self.edges.len(),
                forall|node: u64| kept@.contains(node) <==> nodes@.contains(node),
                edges@ == induced_edges(self.edges@.take(next as int), nodes@),
            decreases self.edges.len() - next,
        {
            let edge = self.edges[next];
            let both = kept.contains(&edge.0) && kept.contains(&edge.1);
            proof {
                let now = self.edges@.take(next + 1);
                assert(now.drop_last() =~= self.edges@.take(next as int));
                assert(now.last() == edge);
                assert(both == (nodes@.contains(edge.0) && nodes@.contains(edge.1)));
                reveal(Seq::filter);
            }
            if both {
                edges.push(edge);
            }
            next = next + 1;
        }
        assert(self.edges@.take(self.edges@.len() as int) =~= self.edges@);
        Subgraph { nodes, edges }
    }
}

/// The sample of a rank that is known to be valid.
fn sample_at(graph: &Graph, subgraph_size: u64, rank: u64, cache: Option<&mut Cache>) -> (sample:
    Subgraph)
    requires
        valid_rank(graph.node_count as nat, subgraph_size as nat, rank as nat),
        cache matches Some(table) ==> table.coherent(),
    ensures
        cache matches Some(table) ==> final(table).coherent() && table@.dom().subset_of(
            final(table)@.dom(),
        ),
        is_sample(*graph, subgraph_size as nat, rank as nat, sample),
{
    let indices = graph.node_indices();
    let nodes = decode(&indices, subgraph_size, rank, cache);
    graph.induced_subgraph(nodes)
}

/// The number of combinations of `subgraph_size` nodes of the graph, where it fits a `u64`.
///
/// Fails with `InvalidSubsetSize` exactly when `subgraph_size` is zero or larger
/// than the number of nodes.
fn count_samples(graph: &Graph, subgraph_size: u64) -> (result: Result<Option<u64>, UnrankError>)
    ensures
        match result {
            Ok(Some(count)) => valid_size(graph.node_count as nat, subgraph_size as nat) && count
                == binomial(graph.node_count as nat, subgraph_size as nat),
            Ok(None) => valid_size(graph.node_count as nat, subgraph_size as nat) && binomial(
                graph.node_count as nat,
                subgraph_size as nat,
            ) > u64::MAX,
            Err(e) => !valid_size(graph.node_count as nat, subgraph_size as nat) && e
                == UnrankError::InvalidSubsetSize,
        },
{
    if subgraph_size == 0 || subgraph_size > graph.node_count as u64 {
        return Err(UnrankError::InvalidSubsetSize);
    }
    let mut cache = Cache::new();
    match cache.coefficient(graph.node_count as u64, subgraph_size) {
        Ok(exact) => Ok(exact.to_u64()),
        Err(_) => Err(UnrankError::InvalidSubsetSize),
    }
}

/// The induced subgraph on the combination of `subgraph_size` nodes that holds
/// rank `combination_index`. The base set is the sequence of the graph's node
/// indices; the nodes of the result keep the indices that they have in the graph.
///
/// Fails with `InvalidSubsetSize` exactly when `subgraph_size` is zero or larger
/// than the number of nodes, and otherwise with `InvalidRank` exactly when
/// `combination_index` is not below the number of combinations.
pub fn generate_subgraph_single(
    graph: &Graph,
    subgraph_size: u64,
    combination_index: u64,
    cache: Option<&mut Cache>,
) -> (result: Result<Subgraph, UnrankError>)
    requires
        cache matches Some(table) ==> table.coherent(),
    ensures
        cache matches Some(table) ==> final(table).coherent() && table@.dom().subset_of(
            final(table)@.dom(),
        ),
        match result {
            Ok(sample) => valid_rank(
                graph.node_count as nat,
                subgraph_size as nat,
                combination_index as nat,
            ) && is_sample(*graph, subgraph_size as nat, combination_index as nat, sample),
            Err(e) => if valid_size(graph.node_count as nat, subgraph_size as nat) {
                e == UnrankError::InvalidRank && combination_index >= binomial(
                    graph.node_count as nat,
                    subgraph_size as nat,
                )
            } else {
                e == UnrankError::InvalidSubsetSize
            },
        },
{
    let in_range = match count_samples(graph, subgraph_size) {
        Ok(Some(count)) => combination_index < count,
        Ok(None) => true,
        Err(e) => {
            return Err(e);
        },
    };
    if !in_range {
        return Err(UnrankError::InvalidRank);
    }
    Ok(sample_at(graph, subgraph_size, combination_index, cache))
}

/// The induced subgraphs for the given ranks: one for each rank, in the order
/// given, sampled side by side. The result has as many entries as ranks were
/// given, so that none is left out unnoticed.
///
/// Fails with `InvalidSubsetSize` exactly when `subgraph_size` is zero or larger
/// than the number of nodes; otherwise with `TooManyRequested` exactly when the
/// number of ranks given is not below the number of combinations; otherwise with
/// `InvalidRank` exactly when one of the ranks is not below that number.
pub fn sample_subgraphs(graph: &Graph, subgraph_size: u64, ranks: &Vec<u64>) -> (result: Result<
    Vec<Subgraph>,
    UnrankError,
>)
    ensures
        match result {
            Ok(samples) => valid_size(graph.node_count as nat, subgraph_size as nat) && ranks@.len()
                < binomial(graph.node_count as nat, subgraph_size as nat) && valid_ranks(
                graph.node_count as nat,
                subgraph_size as nat,
                ranks@,
            ) && are_samples(*graph, subgraph_size as nat, ranks@, samples@),
            Err(e) => if !valid_size(graph.node_count as nat, subgraph_size as nat) {
                e == UnrankError::InvalidSubsetSize
            } else if ranks@.len() >= binomial(graph.node_count as nat, subgraph_size as nat) {
                e == UnrankError::TooManyRequested
            } else {
                e == UnrankError::InvalidRank && !valid_ranks(
                    graph.node_count as nat,
                    subgraph_size as nat,
                    ranks@,
                )
            },
        },
{
    let bound = match count_samples(graph, subgraph_size) {
        Ok(bound) => bound,
        Err(e) => {
            return Err(e);
        },
    };
    if let Some(count) = bound {
        if ranks.len() as u64 >= count {
            return Err(UnrankError::TooManyRequested);
        }
        let mut at: usize = 0;
        while at < ranks.len()
            invariant
                at <= ranks.len(),
                ranks@.len() < count,
                count == binomial(graph.node_count as nat, subgraph_size as nat),
                valid_size(graph.node_count as nat, subgraph_size as nat),
                forall|j: int|
                    0 <= j < at ==> valid_rank(
                        graph.node_count as nat,
                        subgraph_size as nat,
                        #[trigger] ranks@[j] as nat,
                    ),
            decreases ranks.len() - at,
        {
            if ranks[at] >= count {
                assert(!valid_rank(
                    graph.node_count as nat,
                    subgraph_size as nat,
                    ranks@[at as int] as nat,
                ));
                return Err(UnrankError::InvalidRank);
            }
            at = at + 1;
        }
    }
    let sample_one = |rank: u64| -> (sample: Subgraph)
        requires
            valid_rank(graph.node_count as nat, subgraph_size as nat, rank as nat),
        ensures
            is_sample(*graph, subgraph_size as nat, rank as nat, sample),
        { sample_at(graph, subgraph_size, rank, None) };
    assert(ranks@.len() == ranks.len() <= u64::MAX);
    Ok(map_in_parallel(ranks, sample_one))
}

/// The induced subgraphs for the first `subgraph_count` ranks, in the order of
/// the ranks, sampled side by side.
///
/// Fails with `InvalidSubsetSize` exactly when `subgraph_size` is zero or larger
/// than the number of nodes, and otherwise with `TooManyRequested` exactly when
/// `subgraph_count` is not below the number of combinations.
pub fn generate_subgraph_parallel(graph: &Graph, subgraph_size: u64, subgraph_count: u64) -> (result:
    Result<Vec<Subgraph>, UnrankError>)
    ensures
        match result {
            Ok(samples) => valid_size(graph.node_count as nat, subgraph_size as nat)
                && subgraph_count < binomial(graph.node_count as nat, subgraph_size as nat)
                && are_samples(
                *graph,
                subgraph_size as nat,
                first_ranks(subgraph_count as nat),
                samples@,
            ),
            Err(e) => if valid_size(graph.node_count as nat, subgraph_size as nat) {
                e == UnrankError::TooManyRequested && subgraph_count >= binomial(
                    graph.node_count as nat,
                    subgraph_size as nat,
                )
            } else {
                e == UnrankError::InvalidSubsetSize
            },
        },
{
    let bound = match count_samples(graph, subgraph_size) {
        Ok(bound) => bound,
        Err(e) => {
            return Err(e);
        },
    };
    if let Some(count) = bound {
        if subgraph_count >= count {
            return Err(UnrankError::TooManyRequested);
        }
    }
    let ranks = ranks_below(subgraph_count);
    let sample_one = |rank: u64| -> (sample: Subgraph)
        requires
            valid_rank(graph.node_count as nat, subgraph_size as nat, rank as nat),
        ensures
            is_sample(*graph, subgraph_size as nat, rank as nat, sample),
        { sample_at(graph, subgraph_size, rank, None) };
    Ok(map_in_parallel(&ranks, sample_one))
}

} // verus!

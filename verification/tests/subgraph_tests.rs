use isomorphic_graph_creation::{
    generate_subgraph_parallel, generate_subgraph_single, sample_subgraphs,
    unrank_combination_single, Cache, Graph, Subgraph, UnrankError,
};
use rustworkx_core::generators::gnp_random_graph;
use rustworkx_core::petgraph::graph::UnGraph;
use rustworkx_core::petgraph::visit::EdgeRef;

fn create_random_graph(node_count: usize, seed: Option<u64>) -> Graph {
    let graph: UnGraph<(), ()> = gnp_random_graph(node_count, 0.5, seed, || (), || ()).unwrap();
    Graph {
        node_count: graph.node_count(),
        edges: graph
            .edge_references()
            .map(|edge| (edge.source().index() as u64, edge.target().index() as u64))
            .collect(),
    }
}

fn square_with_diagonal() -> Graph {
    Graph { node_count: 4, edges: vec![(0, 1), (1, 2), (2, 3), (3, 0), (0, 2)] }
}

#[test]
fn test_generate_subgraph() {
    let graph_size: usize = 4;
    let subgraph_size: u64 = 3;
    let rank: u64 = 0;
    let graph = create_random_graph(graph_size, Some(10));
    let mut cache = Cache::new();
    let subgraph = generate_subgraph_single(&graph, subgraph_size, rank, Some(&mut cache)).unwrap();
    let expected_nodes =
        unrank_combination_single(&graph.node_indices(), subgraph_size, rank, Some(&mut cache))
            .unwrap();

    assert_eq!(subgraph_size as usize, subgraph.nodes.len());
    assert_eq!(expected_nodes, subgraph.nodes);
}

#[test]
fn test_generate_subgraph_at_every_rank() {
    let graph = create_random_graph(4, Some(10));
    assert_eq!(graph.node_count, 4);
    let expected: Vec<Vec<u64>> = vec![vec![0, 1, 2], vec![0, 1, 3], vec![0, 2, 3], vec![1, 2, 3]];
    for rank in 0..4u64 {
        let subgraph = generate_subgraph_single(&graph, 3, rank, None).unwrap();
        assert_eq!(subgraph.nodes.len(), 3);
        assert_eq!(subgraph.nodes, expected[rank as usize]);
        let decoded = unrank_combination_single(&graph.node_indices(), 3, rank, None).unwrap();
        assert_eq!(subgraph.nodes, decoded);
        let wanted: Vec<(u64, u64)> = graph
            .edges
            .iter()
            .cloned()
            .filter(|edge| subgraph.nodes.contains(&edge.0) && subgraph.nodes.contains(&edge.1))
            .collect();
        assert_eq!(subgraph.edges, wanted);
    }
}

#[test]
fn test_node_indices() {
    assert_eq!(square_with_diagonal().node_indices(), vec![0, 1, 2, 3]);
    assert_eq!(Graph { node_count: 0, edges: vec![] }.node_indices(), Vec::<u64>::new());
}

#[test]
fn test_induced_subgraph_keeps_edges_between_kept_nodes() {
    let graph = square_with_diagonal();
    assert_eq!(
        graph.induced_subgraph(vec![0, 1, 2]),
        Subgraph { nodes: vec![0, 1, 2], edges: vec![(0, 1), (1, 2), (0, 2)] }
    );
    assert_eq!(
        graph.induced_subgraph(vec![1, 3]),
        Subgraph { nodes: vec![1, 3], edges: vec![] }
    );
    assert_eq!(graph.induced_subgraph(vec![]), Subgraph { nodes: vec![], edges: vec![] });
}

#[test]
fn test_subgraph_single_on_a_known_graph() {
    let graph = square_with_diagonal();
    assert_eq!(
        generate_subgraph_single(&graph, 3, 1, None),
        Ok(Subgraph { nodes: vec![0, 1, 3], edges: vec![(0, 1), (3, 0)] })
    );
    assert_eq!(
        generate_subgraph_single(&graph, 3, 3, None),
        Ok(Subgraph { nodes: vec![1, 2, 3], edges: vec![(1, 2), (2, 3)] })
    );
}

#[test]
fn test_subgraph_single_refuses_bad_requests() {
    let graph = square_with_diagonal();
    assert_eq!(generate_subgraph_single(&graph, 3, 4, None), Err(UnrankError::InvalidRank));
    assert_eq!(generate_subgraph_single(&graph, 0, 0, None), Err(UnrankError::InvalidSubsetSize));
    assert_eq!(generate_subgraph_single(&graph, 5, 0, None), Err(UnrankError::InvalidSubsetSize));
}

#[test]
fn test_subgraph_parallel_gives_one_sample_for_each_rank() {
    let graph = square_with_diagonal();
    let samples = generate_subgraph_parallel(&graph, 3, 3).unwrap();
    assert_eq!(samples.len(), 3);
    for rank in 0..3u64 {
        assert_eq!(
            samples[rank as usize],
            generate_subgraph_single(&graph, 3, rank, None).unwrap()
        );
    }
    assert_eq!(generate_subgraph_parallel(&graph, 3, 0), Ok(vec![]));
}

#[test]
fn test_subgraph_parallel_refuses_too_many() {
    let graph = square_with_diagonal();
    assert_eq!(generate_subgraph_parallel(&graph, 3, 4), Err(UnrankError::TooManyRequested));
    assert_eq!(generate_subgraph_parallel(&graph, 3, 5), Err(UnrankError::TooManyRequested));
    assert_eq!(generate_subgraph_parallel(&graph, 4, 1), Err(UnrankError::TooManyRequested));
    assert_eq!(generate_subgraph_parallel(&graph, 5, 1), Err(UnrankError::InvalidSubsetSize));
    assert_eq!(generate_subgraph_parallel(&graph, 0, 1), Err(UnrankError::InvalidSubsetSize));
}

#[test]
fn test_sample_subgraphs_follows_the_ranks_given() {
    let graph = square_with_diagonal();
    let samples = sample_subgraphs(&graph, 2, &vec![5, 0, 2]).unwrap();
    assert_eq!(
        samples,
        vec![
            Subgraph { nodes: vec![2, 3], edges: vec![(2, 3)] },
            Subgraph { nodes: vec![0, 1], edges: vec![(0, 1)] },
            Subgraph { nodes: vec![0, 3], edges: vec![(3, 0)] },
        ]
    );
}

#[test]
fn test_sample_subgraphs_refuses_bad_requests() {
    let graph = square_with_diagonal();
    assert_eq!(
        sample_subgraphs(&graph, 3, &vec![0, 1, 2, 3]),
        Err(UnrankError::TooManyRequested)
    );
    assert_eq!(sample_subgraphs(&graph, 3, &vec![0, 4]), Err(UnrankError::InvalidRank));
    assert_eq!(sample_subgraphs(&graph, 0, &vec![0]), Err(UnrankError::InvalidSubsetSize));
    assert_eq!(sample_subgraphs(&graph, 9, &vec![]), Err(UnrankError::InvalidSubsetSize));
}

#[test]
fn test_samples_of_a_larger_random_graph() {
    let graph = create_random_graph(10, Some(10));
    let samples = generate_subgraph_parallel(&graph, 5, 5).unwrap();
    assert_eq!(samples.len(), 5);
    for (rank, sample) in samples.iter().enumerate() {
        assert_eq!(sample.nodes.len(), 5);
        assert_eq!(
            sample.nodes,
            unrank_combination_single(&graph.node_indices(), 5, rank as u64, None).unwrap()
        );
        for edge in &sample.edges {
            assert!(sample.nodes.contains(&edge.0) && sample.nodes.contains(&edge.1));
            assert!(graph.edges.contains(edge));
        }
    }
}

use grandiso::find_motifs;
use grandiso::Mapping;
use grandiso::MotifError;
use petgraph::graphmap::DiGraphMap;

#[test]
fn test_single_node() {
    let mut graphmap: DiGraphMap<u64, i64> = DiGraphMap::new();
    graphmap.add_node(0);

    assert_eq!(find_motifs(graphmap.clone(), graphmap.clone()).unwrap().len(), 1)
}

#[test]
fn test_two_edges() {
    let mut graphmap: DiGraphMap<u64, i64> = DiGraphMap::new();
    graphmap.add_edge(0, 1, 2);
    graphmap.add_edge(1, 2, 3);

    assert_eq!(find_motifs(graphmap.clone(), graphmap.clone()).unwrap().len(), 1)
}

#[test]
fn test_directed_triangles() {
    let mut graphmap: DiGraphMap<u64, i64> = DiGraphMap::new();
    graphmap.add_edge(0, 1, 3);
    graphmap.add_edge(1, 2, 3);
    graphmap.add_edge(2, 0, 3);

    // A directed triangle mapped into itself has the three rotations as
    // edge-preserving mappings, the identity among them.
    let results = find_motifs(graphmap.clone(), graphmap.clone()).unwrap();
    assert_eq!(results.len(), 3);
    assert!(results.iter().any(|m| {
        m.get(0) == Some(0) && m.get(1) == Some(1) && m.get(2) == Some(2)
    }));
    assert!(results.iter().any(|m| {
        m.get(0) == Some(1) && m.get(1) == Some(2) && m.get(2) == Some(0)
    }));
    assert!(results.iter().any(|m| {
        m.get(0) == Some(2) && m.get(1) == Some(0) && m.get(2) == Some(1)
    }));
}

#[test]
fn single_node_maps_onto_itself() {
    let mut graphmap: DiGraphMap<u64, i64> = DiGraphMap::new();
    graphmap.add_node(7);

    let results: Vec<Mapping> = find_motifs(graphmap.clone(), graphmap.clone()).unwrap();
    assert_eq!(results.len(), 1);
    assert_eq!(results[0].len(), 1);
    assert_eq!(results[0].get(7), Some(7));
}

#[test]
fn two_edge_path_identity_only() {
    let mut graphmap: DiGraphMap<u64, i64> = DiGraphMap::new();
    graphmap.add_edge(0, 1, 0);
    graphmap.add_edge(1, 2, 0);

    let results = find_motifs(graphmap.clone(), graphmap.clone()).unwrap();
    assert_eq!(results.len(), 1);
    assert_eq!(results[0].get(0), Some(0));
    assert_eq!(results[0].get(1), Some(1));
    assert_eq!(results[0].get(2), Some(2));
}

#[test]
fn one_edge_motif_in_two_disjoint_edges() {
    // motif: a -> b; host: two disjoint edges 10 -> 11 and 20 -> 21.
    let mut motif: DiGraphMap<u64, i64> = DiGraphMap::new();
    motif.add_edge(0, 1, 0);
    let mut host: DiGraphMap<u64, i64> = DiGraphMap::new();
    host.add_edge(10, 11, 0);
    host.add_edge(20, 21, 0);

    let results = find_motifs(motif, host);
    let results = results.unwrap();
    assert_eq!(results.len(), 2);
    assert!(results.iter().any(|m| m.get(0) == Some(10) && m.get(1) == Some(11)));
    assert!(results.iter().any(|m| m.get(0) == Some(20) && m.get(1) == Some(21)));
}

#[test]
fn disconnected_motif_fails_fatally() {
    // Two weakly connected components: 0 -> 1 and 2 -> 3.
    let mut motif: DiGraphMap<u64, i64> = DiGraphMap::new();
    motif.add_edge(0, 1, 0);
    motif.add_edge(2, 3, 0);

    let result = find_motifs(motif.clone(), motif.clone());
    assert!(matches!(result, Err(MotifError::DisconnectedMotif { .. })));
}

#[test]
fn empty_motif_has_the_empty_mapping() {
    let motif: DiGraphMap<u64, i64> = DiGraphMap::new();
    let mut host: DiGraphMap<u64, i64> = DiGraphMap::new();
    host.add_edge(0, 1, 0);

    let results = find_motifs(motif, host).unwrap();
    assert_eq!(results.len(), 1);
    assert_eq!(results[0].len(), 0);
}

#[test]
fn empty_host_yields_no_mappings() {
    let mut motif: DiGraphMap<u64, i64> = DiGraphMap::new();
    motif.add_node(0);
    let host: DiGraphMap<u64, i64> = DiGraphMap::new();

    let results = find_motifs(motif, host).unwrap();
    assert_eq!(results.len(), 0);
}

#[test]
fn self_loop_is_verified() {
    // motif: one node with a loop; host: node 5 with a loop, node 6 without.
    let mut motif: DiGraphMap<u64, i64> = DiGraphMap::new();
    motif.add_edge(0, 0, 0);
    let mut host: DiGraphMap<u64, i64> = DiGraphMap::new();
    host.add_edge(5, 5, 0);
    host.add_node(6);

    let results = find_motifs(motif, host).unwrap();
    assert_eq!(results.len(), 1);
    assert_eq!(results[0].get(0), Some(5));
}

#[test]
fn edge_direction_is_respected() {
    // motif: 0 -> 1; host: edge only from 11 to 10, so 10 -> 11 must not match.
    let mut motif: DiGraphMap<u64, i64> = DiGraphMap::new();
    motif.add_edge(0, 1, 0);
    let mut host: DiGraphMap<u64, i64> = DiGraphMap::new();
    host.add_edge(11, 10, 0);

    let results = find_motifs(motif, host).unwrap();
    assert_eq!(results.len(), 1);
    assert_eq!(results[0].get(0), Some(11));
    assert_eq!(results[0].get(1), Some(10));
}

#[test]
fn repeated_calls_find_the_same_mappings() {
    let mut graphmap: DiGraphMap<u64, i64> = DiGraphMap::new();
    graphmap.add_edge(0, 1, 0);
    graphmap.add_edge(1, 2, 0);
    graphmap.add_edge(2, 0, 0);

    let first = find_motifs(graphmap.clone(), graphmap.clone()).unwrap();
    let second = find_motifs(graphmap.clone(), graphmap.clone()).unwrap();
    assert_eq!(first.len(), second.len());
    for m in first.iter() {
        assert!(second.iter().any(|o| {
            o.get(0) == m.get(0) && o.get(1) == m.get(1) && o.get(2) == m.get(2)
        }));
    }
}

#[test]
fn square_motif_in_dense_host() {
    // motif: directed 4-cycle; host: directed 4-cycle with one chord added.
    let mut motif: DiGraphMap<u64, i64> = DiGraphMap::new();
    motif.add_edge(0, 1, 0);
    motif.add_edge(1, 2, 0);
    motif.add_edge(2, 3, 0);
    motif.add_edge(3, 0, 0);
    let mut host: DiGraphMap<u64, i64> = DiGraphMap::new();
    host.add_edge(0, 1, 0);
    host.add_edge(1, 2, 0);
    host.add_edge(2, 3, 0);
    host.add_edge(3, 0, 0);
    host.add_edge(0, 2, 0);

    // The four rotations of the cycle; the chord opens no new ones.
    let results = find_motifs(motif, host).unwrap();
    assert_eq!(results.len(), 4);
}

#[test]
fn homomorphism_may_fold_nodes() {
    // motif: path 0 -> 1, 1 -> 2; host: two nodes looping on each other.
    // Mappings are edge-preserving but not injective, so folding 0 and 2
    // onto one host node is found.
    let mut motif: DiGraphMap<u64, i64> = DiGraphMap::new();
    motif.add_edge(0, 1, 0);
    motif.add_edge(1, 2, 0);
    let mut host: DiGraphMap<u64, i64> = DiGraphMap::new();
    host.add_edge(5, 6, 0);
    host.add_edge(6, 5, 0);

    let results = find_motifs(motif, host).unwrap();
    assert_eq!(results.len(), 2);
    assert!(results.iter().any(|m| {
        m.get(0) == Some(5) && m.get(1) == Some(6) && m.get(2) == Some(5)
    }));
    assert!(results.iter().any(|m| {
        m.get(0) == Some(6) && m.get(1) == Some(5) && m.get(2) == Some(6)
    }));
}

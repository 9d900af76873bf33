use lau_spectral_graph_agent::SpectralPartitioner;

#[test]
fn trivial_partition_singletons_when_k_at_least_n() {
    let p = SpectralPartitioner::new();
    assert_eq!(p.trivial_partition(3, 5), Some(vec![vec![0], vec![1], vec![2]]));
    assert_eq!(p.trivial_partition(3, 3), Some(vec![vec![0], vec![1], vec![2]]));
    assert_eq!(p.trivial_partition(0, 0), Some(vec![]));
}

#[test]
fn trivial_partition_one_block_when_k_at_most_one() {
    let p = SpectralPartitioner::new();
    assert_eq!(p.trivial_partition(4, 1), Some(vec![vec![0, 1, 2, 3]]));
    assert_eq!(p.trivial_partition(4, 0), Some(vec![vec![0, 1, 2, 3]]));
    assert_eq!(p.trivial_partition(4, 2), None);
}

#[test]
fn community_of_reads_the_blocks() {
    let p = SpectralPartitioner::new();
    let partition = vec![vec![0, 1], vec![2, 3]];
    assert_eq!(p.community_of(4, &partition), vec![0, 0, 1, 1]);
}

#[test]
fn community_of_last_block_wins_and_unlisted_is_zero() {
    let p = SpectralPartitioner::new();
    let partition = vec![vec![1, 2], vec![2]];
    assert_eq!(p.community_of(4, &partition), vec![0, 0, 1, 0]);
}

#[test]
fn clusters_group_indices_and_drop_empty_labels() {
    let p = SpectralPartitioner::new();
    let clusters = p.clusters_from_assignments(&[1, 0, 1, 2], 4);
    assert_eq!(clusters, vec![vec![1], vec![0, 2], vec![3]]);
    let again = p.clusters_from_assignments(&[3, 3, 0], 4);
    assert_eq!(again, vec![vec![2], vec![0, 1]]);
    assert_eq!(p.clusters_from_assignments(&[], 2), Vec::<Vec<usize>>::new());
}

#[test]
fn communities_of_clusters_match_assignments() {
    let p = SpectralPartitioner::new();
    let assignments = [2, 0, 2, 1, 0];
    let clusters = p.clusters_from_assignments(&assignments, 3);
    let community = p.community_of(5, &clusters);
    for u in 0..5 {
        for v in 0..5 {
            assert_eq!(community[u] == community[v], assignments[u] == assignments[v]);
        }
    }
    assert_eq!(community, vec![2, 0, 2, 1, 0]);
}

#[test]
fn random_centroids_are_distinct_vertices() {
    let p = SpectralPartitioner::new();
    for _ in 0..20 {
        let c = p.random_centroid_indices(5, 3);
        assert_eq!(c.len(), 3);
        for x in 0..c.len() {
            assert!(c[x] < 5);
            for y in (x + 1)..c.len() {
                assert_ne!(c[x], c[y]);
            }
        }
    }
}

#[test]
fn random_centroids_take_all_vertices_when_k_exceeds_n() {
    let p = SpectralPartitioner::new();
    let mut c = p.random_centroid_indices(4, 9);
    c.sort();
    assert_eq!(c, vec![0, 1, 2, 3]);
    assert_eq!(p.random_centroid_indices(1, 1), vec![0]);
    assert!(p.random_centroid_indices(0, 2).is_empty());
}

#[test]
fn centroids_follow_the_draws() {
    let p = SpectralPartitioner::new();
    assert_eq!(p.centroids_from_draws(5, &[4, 0, 2]), vec![4, 0, 2]);
    assert_eq!(p.centroids_from_draws(5, &[1, 1]), vec![1, 4]);
    assert_eq!(p.centroids_from_draws(3, &[0, 0, 0]), vec![0, 2, 1]);
    assert!(p.centroids_from_draws(4, &[]).is_empty());
}

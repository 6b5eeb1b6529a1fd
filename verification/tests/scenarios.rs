use std::collections::HashSet;
use xmrtrace::{
    apply_closed_sets, cascade, cluster, dm_attack, dm_decomposition, form_cluster,
    rings_from_edges,
};

fn set(items: &[u32]) -> HashSet<u32> {
    items.iter().copied().collect()
}

fn split_edges(edges: &[(u32, u32)]) -> (Vec<u32>, Vec<u32>) {
    let kis = edges.iter().map(|e| e.0).collect();
    let pks = edges.iter().map(|e| e.1).collect();
    (kis, pks)
}

fn sorted(list: &[u32]) -> Vec<u32> {
    let mut v = list.to_vec();
    v.sort();
    v
}

#[test]
fn zero_mixin_chain_is_traced_by_the_cascade() {
    let (kis, pks) = split_edges(&[(0, 0), (1, 0), (1, 1), (2, 1), (2, 2)]);
    let (mut rings, pk_to_ki) = rings_from_edges(3, 3, &kis, &pks).unwrap();
    let mut traced = vec![false; 3];
    let (iterations, converged) = cascade(&mut rings, &pk_to_ki, &mut traced, 100);
    assert!(converged);
    assert_eq!(iterations, 2);
    assert_eq!(rings, vec![set(&[0]), set(&[1]), set(&[2])]);
    assert_eq!(traced, vec![true, true, true]);
}

#[test]
fn one_cascade_iteration_picks_up_rings_reduced_earlier_in_the_scan() {
    let (kis, pks) = split_edges(&[(0, 0), (1, 0), (1, 1), (2, 1), (2, 2)]);
    let (mut rings, pk_to_ki) = rings_from_edges(3, 3, &kis, &pks).unwrap();
    let mut traced = vec![false; 3];
    let (iterations, converged) = cascade(&mut rings, &pk_to_ki, &mut traced, 1);
    assert_eq!(iterations, 1);
    assert!(!converged);
    assert_eq!(rings, vec![set(&[0]), set(&[1]), set(&[2])]);
    assert_eq!(traced, vec![true, true, true]);
}

#[test]
fn cascade_of_no_iterations_changes_nothing() {
    let (kis, pks) = split_edges(&[(0, 0), (1, 0), (1, 1)]);
    let (mut rings, pk_to_ki) = rings_from_edges(2, 2, &kis, &pks).unwrap();
    let mut traced = vec![false; 2];
    let (iterations, converged) = cascade(&mut rings, &pk_to_ki, &mut traced, 0);
    assert_eq!(iterations, 0);
    assert!(!converged);
    assert_eq!(rings, vec![set(&[0]), set(&[0, 1])]);
    assert_eq!(traced, vec![false, false]);
}

#[test]
fn balanced_two_cycle_is_irreducible() {
    let edges = [(0, 0), (0, 1), (1, 0), (1, 1)];
    let (kis, pks) = split_edges(&edges);
    let (mut rings, pk_to_ki) = rings_from_edges(2, 2, &kis, &pks).unwrap();
    let before = rings.clone();

    let mut traced = vec![false; 2];
    let (_, converged) = cascade(&mut rings, &pk_to_ki, &mut traced, 10);
    assert!(converged);
    assert_eq!(rings, before);
    assert_eq!(traced, vec![false, false]);

    let (cluster_kis, cluster_pks) = form_cluster(0, &rings, &pk_to_ki, &vec![false, false]);
    assert_eq!(cluster_kis, set(&[0, 1]));
    assert_eq!(cluster_pks, set(&[0, 1]));

    let dm = dm_decomposition(2, 2, &pks, &kis).unwrap();
    assert_eq!(dm.closed_sets.len(), 1);
    assert_eq!(sorted(&dm.closed_sets[0].0), vec![0, 1]);
    assert_eq!(sorted(&dm.closed_sets[0].1), vec![0, 1]);
    let reduced = apply_closed_sets(&dm.closed_sets, &mut rings, &pk_to_ki);
    assert!(!reduced);
    assert_eq!(rings, before);
}

#[test]
fn closed_set_reduces_the_ring_outside_it() {
    let (kis, pks) = split_edges(&[(0, 0), (0, 1), (1, 0), (1, 1), (2, 0), (2, 2)]);
    let (mut rings, pk_to_ki) = rings_from_edges(3, 3, &kis, &pks).unwrap();
    let last_round = cluster(&mut rings, &pk_to_ki).unwrap();
    assert_eq!(rings, vec![set(&[0, 1]), set(&[0, 1]), set(&[2])]);
    assert!(last_round.iter().any(|s| s.0 == set(&[0, 1]) && s.1 == set(&[0, 1])));

    let mut traced = vec![false; 3];
    let (_, converged) = cascade(&mut rings, &pk_to_ki, &mut traced, 10);
    assert!(converged);
    assert_eq!(rings, vec![set(&[0, 1]), set(&[0, 1]), set(&[2])]);
    assert_eq!(traced, vec![false, false, true]);
}

#[test]
fn dm_splits_two_independent_cycles() {
    let edges = [(0, 0), (0, 1), (1, 0), (1, 1), (2, 2), (2, 3), (3, 2), (3, 3)];
    let (kis, pks) = split_edges(&edges);
    let (mut rings, pk_to_ki) = rings_from_edges(4, 4, &kis, &pks).unwrap();
    let before = rings.clone();
    let dm = dm_decomposition(4, 4, &pks, &kis).unwrap();
    assert_eq!(dm.closed_sets.len(), 2);
    let mut blocks: Vec<(Vec<u32>, Vec<u32>)> =
        dm.closed_sets.iter().map(|s| (sorted(&s.0), sorted(&s.1))).collect();
    blocks.sort();
    assert_eq!(blocks, vec![(vec![0, 1], vec![0, 1]), (vec![2, 3], vec![2, 3])]);
    let reduced = apply_closed_sets(&dm.closed_sets, &mut rings, &pk_to_ki);
    assert!(!reduced);
    assert_eq!(rings, before);
}

#[test]
fn duplicate_edges_collapse_in_the_ring_and_repeat_in_the_list() {
    let (kis, pks) = split_edges(&[(0, 0), (0, 0), (0, 1)]);
    let (rings, pk_to_ki) = rings_from_edges(1, 2, &kis, &pks).unwrap();
    assert_eq!(rings, vec![set(&[0, 1])]);
    assert_eq!(pk_to_ki, vec![vec![0, 0], vec![0]]);

    let mut rings = rings;
    let mut traced = vec![false; 1];
    let (_, converged) = cascade(&mut rings, &pk_to_ki, &mut traced, 5);
    assert!(converged);
    assert_eq!(rings, vec![set(&[0, 1])]);
}

#[test]
fn unmatched_public_key_without_edges_reaches_nothing() {
    let dm = dm_decomposition(2, 1, &vec![0], &vec![0]).unwrap();
    assert_eq!(dm.pk_mates, vec![0, u32::MAX]);
    assert_eq!(dm.ki_mates, vec![0]);
    assert_eq!(dm.num_matched_pks, 1);
    assert_eq!(dm.reachable_pubkeys, vec![false, true]);
    assert_eq!(dm.reachable_keyimages, vec![false]);
    assert_eq!(dm.num_unreachable_pubkeys, 1);
    assert_eq!(dm.num_unreachable_keyimages, 1);
    assert_eq!(dm.closed_sets, vec![(vec![0], vec![0])]);
}

#[test]
fn unmatched_public_key_reaches_its_neighbours() {
    // One key image with a ring of two: whichever public key is matched, the
    // other is unmatched and reaches the key image and its mate.
    let dm = dm_decomposition(2, 1, &vec![0, 1], &vec![0, 0]).unwrap();
    assert_eq!(dm.num_matched_pks, 1);
    assert_eq!(dm.reachable_pubkeys, vec![true, true]);
    assert_eq!(dm.reachable_keyimages, vec![true]);
    assert_eq!(dm.num_unreachable_pubkeys, 0);
    assert_eq!(dm.num_unreachable_keyimages, 0);
    assert!(dm.closed_sets.is_empty());
}

#[test]
fn dm_attack_traces_what_the_closed_sets_force() {
    // ki 0 and ki 1 share {0, 1}; ki 2 holds 0 and 2, ki 3 holds 1, 2 and 3.
    let (kis, pks) =
        split_edges(&[(0, 0), (0, 1), (1, 0), (1, 1), (2, 0), (2, 2), (3, 1), (3, 2), (3, 3)]);
    let attack = dm_attack(4, 4, &pks, &kis).unwrap();
    assert_eq!(
        attack.rings_before,
        vec![set(&[0, 1]), set(&[0, 1]), set(&[0, 2]), set(&[1, 2, 3])]
    );
    assert_eq!(attack.rings_after, vec![set(&[0, 1]), set(&[0, 1]), set(&[2]), set(&[3])]);
    assert_eq!(attack.pk_to_ki_map, vec![vec![0, 1, 2], vec![0, 1, 3], vec![2, 3], vec![3]]);
    assert_eq!(attack.decomposition.closed_sets.len(), 3);
}

#[test]
fn dm_attack_agrees_with_clustering_and_cascade() {
    let (kis, pks) =
        split_edges(&[(0, 0), (0, 1), (1, 0), (1, 1), (2, 0), (2, 2), (3, 1), (3, 2), (3, 3)]);
    let (mut rings, pk_to_ki) = rings_from_edges(4, 4, &kis, &pks).unwrap();
    let mut traced = vec![false; 4];
    cascade(&mut rings, &pk_to_ki, &mut traced, 100);
    cluster(&mut rings, &pk_to_ki).unwrap();
    cascade(&mut rings, &pk_to_ki, &mut traced, 100);
    let attack = dm_attack(4, 4, &pks, &kis).unwrap();
    for ki in 0..4 {
        if rings[ki].len() == 1 {
            assert_eq!(attack.rings_after[ki], rings[ki]);
        }
        assert!(attack.rings_after[ki].is_subset(&attack.rings_before[ki]));
    }
}

#[test]
fn cascade_after_convergence_changes_nothing() {
    let (kis, pks) = split_edges(&[(0, 0), (1, 0), (1, 1), (2, 1), (2, 2), (3, 3), (3, 4), (4, 3), (4, 4)]);
    let (mut rings, pk_to_ki) = rings_from_edges(5, 5, &kis, &pks).unwrap();
    let mut traced = vec![false; 5];
    let (_, converged) = cascade(&mut rings, &pk_to_ki, &mut traced, 100);
    assert!(converged);
    let rings_then = rings.clone();
    let traced_then = traced.clone();
    let (iterations, converged) = cascade(&mut rings, &pk_to_ki, &mut traced, 1);
    assert_eq!(iterations, 1);
    assert!(converged);
    assert_eq!(rings, rings_then);
    assert_eq!(traced, traced_then);
    for ki in 0..5 {
        if traced[ki] {
            assert_eq!(rings[ki].len(), 1);
        }
    }
}

#[test]
fn cascade_may_report_convergence_too_early_on_rings_without_an_assignment() {
    // Two key images claim public key 0 alone: the first empties the ring of
    // the second, while ki 3 reduces ki 2 to one member, so that the number
    // of single-member rings stays 3 although ki 2 is not traced yet.
    let (kis, pks) = split_edges(&[(0, 0), (1, 0), (2, 1), (2, 2), (3, 1), (4, 2), (4, 3), (4, 4)]);
    let (mut rings, pk_to_ki) = rings_from_edges(5, 5, &kis, &pks).unwrap();
    let mut traced = vec![false; 5];
    let (iterations, converged) = cascade(&mut rings, &pk_to_ki, &mut traced, 100);
    assert_eq!((iterations, converged), (1, true));
    assert_eq!(
        rings,
        vec![set(&[0]), set(&[]), set(&[2]), set(&[1]), set(&[2, 3, 4])]
    );
    assert_eq!(traced, vec![true, false, false, true, false]);
    cascade(&mut rings, &pk_to_ki, &mut traced, 1);
    assert_eq!(rings[4], set(&[3, 4]));
}

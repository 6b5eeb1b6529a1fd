use std::collections::HashSet;
use xmrtrace::{
    apply_closed_sets, cluster, decompose_closed_set, form_cluster, remove_closed_set_pks, Error,
};

fn set(items: &[u32]) -> HashSet<u32> {
    items.iter().copied().collect()
}

fn reverse_lists(rings: &[HashSet<u32>], num_pks: usize) -> Vec<Vec<u32>> {
    let mut lists = vec![Vec::new(); num_pks];
    for (ki, ring) in rings.iter().enumerate() {
        let mut members: Vec<u32> = ring.iter().copied().collect();
        members.sort();
        for pk in members {
            lists[pk as usize].push(ki as u32);
        }
    }
    lists
}

#[test]
fn removal_takes_the_closed_public_keys_out_of_other_rings() {
    let mut rings = vec![set(&[0, 1]), set(&[0, 1]), set(&[0, 2])];
    let pk_to_ki = vec![vec![0, 1, 2], vec![0, 1], vec![2]];
    let reduced = remove_closed_set_pks(set(&[0, 1]), set(&[0, 1]), &mut rings, &pk_to_ki);
    assert!(reduced);
    assert_eq!(rings, vec![set(&[0, 1]), set(&[0, 1]), set(&[2])]);
}

#[test]
fn removal_that_finds_nothing_reports_no_reduction() {
    let mut rings = vec![set(&[0, 1]), set(&[0, 1]), set(&[2])];
    let pk_to_ki = vec![vec![0, 1, 2], vec![0, 1], vec![2]];
    let reduced = remove_closed_set_pks(set(&[0, 1]), set(&[0, 1]), &mut rings, &pk_to_ki);
    assert!(!reduced);
    assert_eq!(rings, vec![set(&[0, 1]), set(&[0, 1]), set(&[2])]);
}

#[test]
fn removal_visits_only_the_listed_key_images() {
    // Ring 2 holds public key 0, but the list of 0 does not name it.
    let mut rings = vec![set(&[0]), set(&[0, 1]), set(&[0, 2])];
    let pk_to_ki = vec![vec![0, 1], vec![1], vec![2]];
    let reduced = remove_closed_set_pks(set(&[0]), set(&[0]), &mut rings, &pk_to_ki);
    assert!(reduced);
    assert_eq!(rings, vec![set(&[0]), set(&[1]), set(&[0, 2])]);
}

#[test]
fn removal_tolerates_repeated_list_entries() {
    let mut rings = vec![set(&[0]), set(&[0, 1])];
    let pk_to_ki = vec![vec![1, 0, 1, 1], vec![1]];
    let reduced = remove_closed_set_pks(set(&[0]), set(&[0]), &mut rings, &pk_to_ki);
    assert!(reduced);
    assert_eq!(rings, vec![set(&[0]), set(&[1])]);
}

#[test]
fn closed_sets_are_applied_in_turn() {
    let mut rings = vec![set(&[0]), set(&[0, 1]), set(&[0, 1, 2])];
    let pk_to_ki = reverse_lists(&rings, 3);
    let sets = vec![(vec![0], vec![0]), (vec![1], vec![1])];
    let reduced = apply_closed_sets(&sets, &mut rings, &pk_to_ki);
    assert!(reduced);
    assert_eq!(rings, vec![set(&[0]), set(&[1]), set(&[2])]);
}

#[test]
fn cluster_of_a_lone_ring_is_the_ring() {
    let rings = vec![set(&[0, 1])];
    let pk_to_ki = reverse_lists(&rings, 2);
    let (kis, pks) = form_cluster(0, &rings, &pk_to_ki, &vec![false]);
    assert_eq!(kis, set(&[0]));
    assert_eq!(pks, set(&[0, 1]));
}

#[test]
fn cluster_grows_by_rings_that_bring_at_most_one_public_key() {
    // From ki 0 = {0, 1}: ki 1 = {1, 2} brings one and joins; ki 2 =
    // {2, 3, 4} brings two and stays out.
    let rings = vec![set(&[0, 1]), set(&[1, 2]), set(&[2, 3, 4])];
    let pk_to_ki = reverse_lists(&rings, 5);
    let (kis, pks) = form_cluster(0, &rings, &pk_to_ki, &vec![false; 3]);
    assert_eq!(kis, set(&[0, 1]));
    assert_eq!(pks, set(&[0, 1, 2]));
}

#[test]
fn cluster_passes_over_key_images_marked_as_closed() {
    let rings = vec![set(&[0, 1]), set(&[0, 1])];
    let pk_to_ki = reverse_lists(&rings, 2);
    let (kis, pks) = form_cluster(0, &rings, &pk_to_ki, &vec![false, true]);
    assert_eq!(kis, set(&[0]));
    assert_eq!(pks, set(&[0, 1]));
}

#[test]
fn decomposition_of_a_cycle_is_one_part() {
    let rings = vec![set(&[0, 1]), set(&[0, 1])];
    let parts = decompose_closed_set(&set(&[0, 1]), &set(&[0, 1]), &rings).unwrap();
    assert_eq!(parts, vec![(set(&[0, 1]), set(&[0, 1]))]);
}

#[test]
fn decomposition_splits_a_triangular_closed_set() {
    // ki 2 also holds public key 0, but is matched to 2 in every perfect
    // matching.
    let rings = vec![set(&[0, 1]), set(&[0, 1]), set(&[0, 2])];
    let mut parts = decompose_closed_set(&set(&[0, 1, 2]), &set(&[0, 1, 2]), &rings).unwrap();
    parts.sort_by_key(|p| p.0.len());
    assert_eq!(parts, vec![(set(&[2]), set(&[2])), (set(&[0, 1]), set(&[0, 1]))]);
}

#[test]
fn decomposition_keeps_the_names_of_the_keys() {
    // Key images 5 and 7 with public keys 10 and 20.
    let mut rings = vec![HashSet::new(); 8];
    rings[5] = set(&[10]);
    rings[7] = set(&[10, 20]);
    let mut parts = decompose_closed_set(&set(&[5, 7]), &set(&[10, 20]), &rings).unwrap();
    parts.sort_by_key(|p| *p.0.iter().next().unwrap());
    assert_eq!(parts, vec![(set(&[5]), set(&[10])), (set(&[7]), set(&[20]))]);
}

#[test]
fn decomposition_refuses_sides_of_different_size() {
    let rings = vec![set(&[0, 1])];
    assert_eq!(
        decompose_closed_set(&set(&[0]), &set(&[0, 1]), &rings).err(),
        Some(Error::Inconsistency)
    );
}

#[test]
fn decomposition_refuses_a_ring_that_leaves_the_set() {
    let rings = vec![set(&[0, 1]), set(&[0, 2])];
    assert_eq!(
        decompose_closed_set(&set(&[0, 1]), &set(&[0, 1]), &rings).err(),
        Some(Error::Inconsistency)
    );
}

#[test]
fn decomposition_refuses_a_key_image_without_a_ring() {
    let rings = vec![set(&[0])];
    assert_eq!(
        decompose_closed_set(&set(&[3]), &set(&[0]), &rings).err(),
        Some(Error::Inconsistency)
    );
}

#[test]
fn decomposition_refuses_a_set_without_a_perfect_matching() {
    // Three key images share two public keys; the fourth ring holds all.
    let rings = vec![set(&[0, 1, 2, 3]), set(&[0, 1]), set(&[0, 1]), set(&[0, 1])];
    assert_eq!(
        decompose_closed_set(&set(&[0, 1, 2, 3]), &set(&[0, 1, 2, 3]), &rings).err(),
        Some(Error::Inconsistency)
    );
}

#[test]
fn clustering_gives_up_on_a_closed_set_without_a_perfect_matching() {
    let mut rings = vec![set(&[0, 1, 2, 3]), set(&[0, 1]), set(&[0, 1]), set(&[0, 1])];
    let pk_to_ki = reverse_lists(&rings, 4);
    assert_eq!(cluster(&mut rings, &pk_to_ki).err(), Some(Error::Inconsistency));
}

#[test]
fn clustering_of_traced_rings_finds_nothing() {
    let mut rings = vec![set(&[0]), set(&[1])];
    let pk_to_ki = reverse_lists(&rings, 2);
    let last_round = cluster(&mut rings, &pk_to_ki).unwrap();
    assert!(last_round.is_empty());
    assert_eq!(rings, vec![set(&[0]), set(&[1])]);
}

#[test]
fn clustering_runs_until_nothing_is_taken_out() {
    // {0, 1} x {0, 1} is closed; that leaves ki 2 with {2, 3} and ki 3
    // with {2, 3}; ki 4 then loses 2 and 3.
    let mut rings = vec![
        set(&[0, 1]),
        set(&[0, 1]),
        set(&[1, 2, 3]),
        set(&[0, 2, 3]),
        set(&[2, 3, 4]),
    ];
    let pk_to_ki = reverse_lists(&rings, 5);
    cluster(&mut rings, &pk_to_ki).unwrap();
    assert_eq!(
        rings,
        vec![set(&[0, 1]), set(&[0, 1]), set(&[2, 3]), set(&[2, 3]), set(&[4])]
    );
}

use std::collections::HashSet;
use xmrtrace::{cascade, cluster, dm_attack, rings_from_edges, Error};

/// Every assignment of one public key of its ring to each key image, no
/// public key twice.
fn assignments(rings: &[Vec<u32>]) -> Vec<Vec<u32>> {
    fn extend(rings: &[Vec<u32>], so_far: &mut Vec<u32>, found: &mut Vec<Vec<u32>>) {
        if so_far.len() == rings.len() {
            found.push(so_far.clone());
            return;
        }
        for pk in &rings[so_far.len()] {
            if !so_far.contains(pk) {
                so_far.push(*pk);
                extend(rings, so_far, found);
                so_far.pop();
            }
        }
    }
    let mut found = Vec::new();
    extend(rings, &mut Vec::new(), &mut found);
    found
}

/// For each key image the public keys that it spends in some assignment.
fn possible_spends(rings: &[Vec<u32>]) -> Vec<HashSet<u32>> {
    let all = assignments(rings);
    (0..rings.len()).map(|ki| all.iter().map(|spent| spent[ki]).collect()).collect()
}

fn edges_of(rings: &[Vec<u32>]) -> (Vec<u32>, Vec<u32>, usize) {
    let mut kis = Vec::new();
    let mut pks = Vec::new();
    let mut num_pks = 0;
    for (ki, ring) in rings.iter().enumerate() {
        for pk in ring {
            kis.push(ki as u32);
            pks.push(*pk);
            num_pks = num_pks.max(*pk as usize + 1);
        }
    }
    (kis, pks, num_pks)
}

fn graphs() -> Vec<Vec<Vec<u32>>> {
    vec![
        vec![vec![0]],
        vec![vec![0, 1]],
        vec![vec![0, 1], vec![0, 1]],
        vec![vec![0], vec![0, 1], vec![1, 2]],
        vec![vec![0, 1], vec![0, 1], vec![0, 2]],
        vec![vec![0, 1], vec![1, 2], vec![2, 0]],
        vec![vec![0, 1], vec![1, 2], vec![2, 0], vec![0, 3]],
        vec![vec![0, 1, 2], vec![0, 1], vec![1, 0], vec![2, 3, 4], vec![4, 3]],
        vec![vec![1, 2], vec![0, 2], vec![0, 1], vec![3, 4, 5], vec![5], vec![0, 4, 6]],
        vec![vec![0, 3], vec![0, 1], vec![1, 2], vec![2, 4], vec![4, 5, 6], vec![5, 6]],
        vec![vec![3, 1], vec![1, 2], vec![2, 3], vec![0, 1, 4], vec![4, 5], vec![5, 4, 0]],
        vec![vec![6, 5], vec![5, 4], vec![4, 3, 6], vec![3, 2], vec![2, 1], vec![1, 0, 3]],
    ]
}

#[test]
fn dm_attack_leaves_what_some_assignment_spends() {
    for rings in graphs() {
        let (kis, pks, num_pks) = edges_of(&rings);
        let attack = dm_attack(num_pks, rings.len(), &pks, &kis).unwrap();
        assert_eq!(attack.rings_after, possible_spends(&rings), "rings {rings:?}");
    }
}

#[test]
fn dm_attack_refuses_rings_without_an_assignment() {
    let without = vec![
        vec![vec![0], vec![0]],
        vec![vec![0, 1], vec![0, 1], vec![0, 1]],
        vec![vec![0, 1, 2], vec![2], vec![2, 3], vec![3]],
    ];
    for rings in without {
        assert!(assignments(&rings).is_empty());
        let (kis, pks, num_pks) = edges_of(&rings);
        assert_eq!(dm_attack(num_pks, rings.len(), &pks, &kis).err(), Some(Error::Inconsistency));
    }
}

#[test]
fn cascade_and_clustering_keep_every_assignment() {
    for rings in graphs() {
        let (kis, pks, num_pks) = edges_of(&rings);
        let (mut sets, pk_to_ki) = rings_from_edges(rings.len(), num_pks, &kis, &pks).unwrap();
        let spends = possible_spends(&rings);
        let singles: Vec<bool> = sets.iter().map(|r| r.len() == 1).collect();

        let mut traced = vec![false; rings.len()];
        let (_, converged) = cascade(&mut sets, &pk_to_ki, &mut traced, 1000);
        assert!(converged);
        for ki in 0..rings.len() {
            assert!(spends[ki].is_subset(&sets[ki]), "cascade on {rings:?}");
            assert!(!singles[ki] || sets[ki].len() == 1);
            assert!(!traced[ki] || sets[ki].len() == 1);
        }
        let after_cascade = sets.clone();

        cluster(&mut sets, &pk_to_ki).unwrap();
        for ki in 0..rings.len() {
            assert!(spends[ki].is_subset(&sets[ki]), "clustering on {rings:?}");
            assert!(sets[ki].is_subset(&after_cascade[ki]));
            assert!(after_cascade[ki].len() != 1 || sets[ki].len() == 1);
        }
    }
}

//! The clustering search for closed sets.
//!
//! A cluster grows from one key image: its public keys are the union of the
//! rings of its key images, and a key image joins when its ring brings at
//! most one public key that the cluster does not hold yet.  A cluster that
//! ends with as many key images as public keys is a closed set.

use vstd::prelude::*;
use std::collections::HashSet;
use crate::closed_set::remove_closed_set_pks;
use crate::decompose::{
    decompose_closed_set, has_fine_decomposition, is_fine_decomposition, part_sets, pk_parts,
};
use crate::graphs::parts_cover;
use crate::error::Error;
use crate::model::{
    closed_set_reduction, is_assignment, is_perfect_matching, lemma_rings_finite,
    lemma_total_size_within, lemma_within_trans, lists_in_range, mates_of,
    lists_key_image, lists_of, ring_sets, rings_finite, rings_in_range, rings_lie_within,
    rings_within, total_size,
};
use crate::soundness::{
    all_claim, claims, has_assignment, keeps_assignments, lemma_assignment_matches_closed_set,
    lemma_fine_decomposition_all_claim, lemma_keeps_assignments_trans,
    lemma_step_keeps_assignments,
};
use crate::sets::{
    copy_of, difference, lemma_bounded_list, lemma_bounded_set, lemma_hash_set_finite,
    lemma_push_to_set, members,
};

verus! {

broadcast use vstd::std_specs::hash::group_hash_axioms;

/// The public keys of a cluster: the members of the ring of the seed and of
/// the rings of the key images that joined.
pub open spec fn cluster_pks(rings: Seq<Set<u32>>, seed: int, joined: Seq<u32>) -> Set<u32> {
    Set::new(
        |pk: u32|
            rings[seed].contains(pk) || exists|j: int|
                0 <= j < joined.len() && rings[(#[trigger] joined[j]) as int].contains(pk),
    )
}

/// The key image `ki` is a candidate for the cluster: it is not in it, it
/// is not marked as part of a closed set, and the reverse list of some
/// public key of the cluster names it.
pub open spec fn is_candidate(
    rings: Seq<Set<u32>>,
    pk_to_ki: Seq<Seq<u32>>,
    in_closed_set: Seq<bool>,
    seed: int,
    joined: Seq<u32>,
    ki: u32,
) -> bool {
    &&& ki < rings.len()
    &&& ki != seed
    &&& !joined.contains(ki)
    &&& !in_closed_set[ki as int]
    &&& exists|pk: u32|
        #[trigger] cluster_pks(rings, seed, joined).contains(pk) && lists_key_image(
            pk_to_ki,
            pk,
            ki as int,
        )
}

/// The public keys that the ring of `ki` would bring to the cluster.
pub open spec fn brings(rings: Seq<Set<u32>>, seed: int, joined: Seq<u32>, ki: u32) -> Set<u32> {
    rings[ki as int].difference(cluster_pks(rings, seed, joined))
}

/// The key images of `joined` joined the cluster one after the other, each
/// as a candidate that brought at most one public key.
pub open spec fn is_greedy_growth(
    rings: Seq<Set<u32>>,
    pk_to_ki: Seq<Seq<u32>>,
    in_closed_set: Seq<bool>,
    seed: int,
    joined: Seq<u32>,
) -> bool {
    forall|i: int|
        0 <= i < joined.len() ==> is_candidate(
            rings,
            pk_to_ki,
            in_closed_set,
            seed,
            joined.take(i),
            #[trigger] joined[i],
        ) && brings(rings, seed, joined.take(i), joined[i]).len() <= 1
}

/// No candidate is left that brings at most one public key.
pub open spec fn is_stable(
    rings: Seq<Set<u32>>,
    pk_to_ki: Seq<Seq<u32>>,
    in_closed_set: Seq<bool>,
    seed: int,
    joined: Seq<u32>,
) -> bool {
    forall|ki: u32|
        #[trigger] is_candidate(rings, pk_to_ki, in_closed_set, seed, joined, ki) ==> brings(
            rings,
            seed,
            joined,
            ki,
        ).len() >= 2
}

/// (`kis`, `pks`) is a cluster grown from `seed`: some greedy growth led to
/// it and stopped only when no candidate could join.
pub open spec fn is_cluster(
    rings: Seq<Set<u32>>,
    pk_to_ki: Seq<Seq<u32>>,
    in_closed_set: Seq<bool>,
    seed: int,
    kis: Set<u32>,
    pks: Set<u32>,
) -> bool {
    exists|joined: Seq<u32>|
        #![auto]
        {
            &&& is_greedy_growth(rings, pk_to_ki, in_closed_set, seed, joined)
            &&& is_stable(rings, pk_to_ki, in_closed_set, seed, joined)
            &&& kis == joined.to_set().insert(seed as u32)
            &&& pks == cluster_pks(rings, seed, joined)
        }
}

/// The key images outside the cluster, not marked as part of a closed set,
/// that the reverse lists of the public keys of the cluster name.
fn candidates(
    cluster_keyimage_set: &HashSet<u32>,
    cluster_pk_set: &HashSet<u32>,
    pk_to_ki_map: &Vec<Vec<u32>>,
    ki_in_closed_set: &Vec<bool>,
) -> (found: Vec<u32>)
    requires
        forall|pk: u32| #[trigger] cluster_pk_set@.contains(pk) ==> pk < pk_to_ki_map.len(),
        lists_in_range(lists_of(pk_to_ki_map@), ki_in_closed_set.len() as nat),
    ensures
        found@.no_duplicates(),
        forall|ki: u32|
            found@.contains(ki) <==> ki < ki_in_closed_set.len() && !cluster_keyimage_set@.contains(
                ki,
            ) && !ki_in_closed_set@[ki as int] && exists|pk: u32|
                #[trigger] cluster_pk_set@.contains(pk) && lists_key_image(
                    lists_of(pk_to_ki_map@),
                    pk,
                    ki as int,
                ),
{
    let ghost lists = lists_of(pk_to_ki_map@);
    let mut found: HashSet<u32> = HashSet::new();
    let pk_list = members(cluster_pk_set);
    let mut a: usize = 0;
    while a < pk_list.len()
        invariant
            a <= pk_list.len(),
            lists == lists_of(pk_to_ki_map@),
            pk_list@.to_set() == cluster_pk_set@,
            forall|pk: u32| #[trigger] cluster_pk_set@.contains(pk) ==> pk < pk_to_ki_map.len(),
            lists_in_range(lists, ki_in_closed_set.len() as nat),
            forall|ki: u32|
                found@.contains(ki) ==> ki < ki_in_closed_set.len() && !cluster_keyimage_set@.contains(
                    ki,
                ) && !ki_in_closed_set@[ki as int] && exists|pk: u32|
                    #[trigger] cluster_pk_set@.contains(pk) && lists_key_image(lists, pk, ki as int),
            forall|t: int, j: int|
                0 <= t < a && 0 <= j < lists[pk_list@[t] as int].len() && !cluster_keyimage_set@.contains(
                    lists[pk_list@[t] as int][j],
                ) && !ki_in_closed_set@[lists[pk_list@[t] as int][j] as int] ==> found@.contains(
                    #[trigger] lists[pk_list@[t] as int][j],
                ),
        decreases pk_list.len() - a,
    {
        let pk = pk_list[a];
        assert(pk_list@.to_set().contains(pk));
        let list = &pk_to_ki_map[pk as usize];
        assert(list@ == lists[pk as int]);
        let mut b: usize = 0;
        while b < list.len()
            invariant
                b <= list.len(),
                a < pk_list.len(),
                pk == pk_list@[a as int],
                cluster_pk_set@.contains(pk),
                pk < pk_to_ki_map.len(),
                list@ == lists[pk as int],
                lists == lists_of(pk_to_ki_map@),
                lists_in_range(lists, ki_in_closed_set.len() as nat),
                forall|ki: u32|
                    found@.contains(ki) ==> ki < ki_in_closed_set.len()
                        && !cluster_keyimage_set@.contains(ki) && !ki_in_closed_set@[ki as int]
                        && exists|q: u32|
                        #[trigger] cluster_pk_set@.contains(q) && lists_key_image(lists, q, ki as int),
                forall|t: int, j: int|
                    0 <= t < a && 0 <= j < lists[pk_list@[t] as int].len()
                        && !cluster_keyimage_set@.contains(lists[pk_list@[t] as int][j])
                        && !ki_in_closed_set@[lists[pk_list@[t] as int][j] as int]
                        ==> found@.contains(#[trigger] lists[pk_list@[t] as int][j]),
                forall|j: int|
                    0 <= j < b && !cluster_keyimage_set@.contains(list@[j])
                        && !ki_in_closed_set@[list@[j] as int] ==> found@.contains(
                        #[trigger] list@[j],
                    ),
            decreases list.len() - b,
        {
            let ki = list[b];
            assert(lists[pk as int][b as int] < ki_in_closed_set.len());
            if !cluster_keyimage_set.contains(&ki) && !ki_in_closed_set[ki as usize] {
                found.insert(ki);
                proof {
                    assert(cluster_pk_set@.contains(pk) && lists_key_image(lists, pk, ki as int));
                }
            }
            b += 1;
        }
        a += 1;
    }
    let list = members(&found);
    proof {
        assert forall|ki: u32|
            ki < ki_in_closed_set.len() && !cluster_keyimage_set@.contains(ki)
                && !ki_in_closed_set@[ki as int] && (exists|pk: u32|
                #[trigger] cluster_pk_set@.contains(pk) && lists_key_image(
                    lists,
                    pk,
                    ki as int,
                )) implies list@.contains(ki) by {
            let pk = choose|pk: u32|
                #[trigger] cluster_pk_set@.contains(pk) && lists_key_image(lists, pk, ki as int);
            assert(pk_list@.contains(pk));
            let t = choose|t: int| 0 <= t < pk_list@.len() && pk_list@[t] == pk;
            let j = choose|j: int|
                0 <= j < lists[pk as int].len() && #[trigger] lists[pk as int][j] == ki;
            assert(found@.contains(lists[pk_list@[t] as int][j]));
            assert(list@.to_set().contains(ki));
        }
        assert forall|ki: u32| list@.contains(ki) implies found@.contains(ki) by {
            assert(list@.to_set().contains(ki));
        }
    }
    list
}

/// Grows a cluster from the key image `keyimage_index` and returns its key
/// images and its public keys.
///
/// The cluster starts as the seed with its ring.  In each round the
/// candidates are collected, and each in turn joins if its ring brings at
/// most one new public key; the rounds end with the first in which none
/// joins.  The order in which the candidates of a round are tried is left
/// open, so the cluster is one of those that greedy growth can reach.
pub fn form_cluster(
    keyimage_index: usize,
    tx_ring_sets: &Vec<HashSet<u32>>,
    pk_to_ki_map: &Vec<Vec<u32>>,
    ki_in_closed_set: &Vec<bool>,
) -> (cluster: (HashSet<u32>, HashSet<u32>))
    requires
        keyimage_index < tx_ring_sets.len(),
        keyimage_index <= u32::MAX,
        ki_in_closed_set.len() == tx_ring_sets.len(),
        rings_in_range(ring_sets(tx_ring_sets@), pk_to_ki_map.len() as nat),
        lists_in_range(lists_of(pk_to_ki_map@), tx_ring_sets.len() as nat),
    ensures
        is_cluster(
            ring_sets(tx_ring_sets@),
            lists_of(pk_to_ki_map@),
            ki_in_closed_set@,
            keyimage_index as int,
            cluster.0@,
            cluster.1@,
        ),
{
    let ghost rings = ring_sets(tx_ring_sets@);
    let ghost lists = lists_of(pk_to_ki_map@);
    let ghost marks = ki_in_closed_set@;
    let ghost seed = keyimage_index as int;
    let mut kis: HashSet<u32> = HashSet::new();
    kis.insert(keyimage_index as u32);
    let mut pks = copy_of(&tx_ring_sets[keyimage_index]);
    let ghost mut joined: Seq<u32> = Seq::empty();
    let mut continue_search = true;
    proof {
        assert(kis@ =~= joined.to_set().insert(seed as u32));
        assert(pks@ =~= cluster_pks(rings, seed, joined));
    }
    while continue_search
        invariant
            keyimage_index < tx_ring_sets.len(),
            keyimage_index <= u32::MAX,
            seed == keyimage_index,
            ki_in_closed_set.len() == tx_ring_sets.len(),
            rings == ring_sets(tx_ring_sets@),
            lists == lists_of(pk_to_ki_map@),
            marks == ki_in_closed_set@,
            rings_in_range(rings, pk_to_ki_map.len() as nat),
            lists_in_range(lists, tx_ring_sets.len() as nat),
            kis@ == joined.to_set().insert(seed as u32),
            pks@ == cluster_pks(rings, seed, joined),
            is_greedy_growth(rings, lists, marks, seed, joined),
            joined.no_duplicates(),
            forall|i: int| 0 <= i < joined.len() ==> (#[trigger] joined[i]) < tx_ring_sets.len(),
            !continue_search ==> is_stable(rings, lists, marks, seed, joined),
        decreases tx_ring_sets.len() - joined.len() + if continue_search { 1int } else { 0int },
    {
        continue_search = false;
        proof {
            lemma_bounded_list(joined, tx_ring_sets.len() as nat);
            assert forall|pk: u32| #[trigger] pks@.contains(pk) implies pk < pk_to_ki_map.len() by {
                if rings[seed].contains(pk) {
                } else {
                    let j = choose|j: int|
                        0 <= j < joined.len() && rings[(#[trigger] joined[j]) as int].contains(pk);
                    assert(rings[joined[j] as int].contains(pk));
                }
            }
        }
        let found = candidates(&kis, &pks, pk_to_ki_map, ki_in_closed_set);
        let ghost start = joined;
        let ghost start_pks = pks@;
        let mut c: usize = 0;
        while c < found.len()
            invariant
                c <= found.len(),
                keyimage_index < tx_ring_sets.len(),
                seed == keyimage_index,
                ki_in_closed_set.len() == tx_ring_sets.len(),
                rings == ring_sets(tx_ring_sets@),
                lists == lists_of(pk_to_ki_map@),
                marks == ki_in_closed_set@,
                found@.no_duplicates(),
                forall|ki: u32|
                    found@.contains(ki) <==> ki < ki_in_closed_set.len() && !start.to_set().insert(
                        seed as u32,
                    ).contains(ki) && !ki_in_closed_set@[ki as int] && exists|pk: u32|
                        #[trigger] start_pks.contains(pk) && lists_key_image(lists, pk, ki as int),
                start_pks == cluster_pks(rings, seed, start),
                start.len() <= joined.len(),
                joined.take(start.len() as int) == start,
                forall|i: int|
                    start.len() <= i < joined.len() ==> found@.take(c as int).contains(
                        #[trigger] joined[i],
                    ),
                kis@ == joined.to_set().insert(seed as u32),
                pks@ == cluster_pks(rings, seed, joined),
                is_greedy_growth(rings, lists, marks, seed, joined),
                joined.no_duplicates(),
                forall|i: int| 0 <= i < joined.len() ==> (#[trigger] joined[i]) < tx_ring_sets.len(),
                continue_search ==> joined.len() > start.len(),
                !continue_search ==> joined == start,
                !continue_search ==> forall|t: int|
                    0 <= t < c ==> brings(rings, seed, joined, #[trigger] found@[t]).len() >= 2,
            decreases found.len() - c,
        {
            let ki = found[c];
            assert(found@.contains(ki));
            let diff = difference(&tx_ring_sets[ki as usize], &pks);
            assert(diff@.to_set() == brings(rings, seed, joined, ki));
            if diff.len() <= 1 {
                let ghost old_pks = pks@;
                if diff.len() == 1 {
                    pks.insert(diff[0]);
                }
                kis.insert(ki);
                proof {
                    let longer = joined.push(ki);
                    lemma_push_to_set(joined, ki);
                    lemma_cluster_grows(rings, seed, joined, ki);
                    assert(pks@ =~= cluster_pks(rings, seed, longer)) by {
                        assert forall|pk: u32| pks@.contains(pk) <==> cluster_pks(
                            rings,
                            seed,
                            longer,
                        ).contains(pk) by {
                            if rings[ki as int].contains(pk) && !old_pks.contains(pk) {
                                assert(diff@.to_set().contains(pk));
                                let k = choose|k: int| 0 <= k < diff@.len() && diff@[k] == pk;
                                assert(k == 0);
                            }
                            if diff.len() == 1 && pk == diff@[0] {
                                assert(diff@.to_set().contains(diff@[0]));
                            }
                        }
                    }
                    assert(!joined.contains(ki)) by {
                        if joined.contains(ki) {
                            let i = choose|i: int| 0 <= i < joined.len() && joined[i] == ki;
                            if i < start.len() {
                                assert(start[i] == joined.take(start.len() as int)[i]);
                                assert(start.to_set().contains(ki));
                            } else {
                                assert(found@.take(c as int).contains(joined[i]));
                                let t = choose|t: int|
                                    0 <= t < found@.take(c as int).len() && found@.take(c as int)[t]
                                        == ki;
                                assert(found@[t] == found@[c as int]);
                            }
                        }
                    }
                    assert(is_candidate(rings, lists, marks, seed, joined, ki)) by {
                        let pk = choose|pk: u32|
                            #[trigger] start_pks.contains(pk) && lists_key_image(lists, pk, ki as int);
                        lemma_cluster_keeps(rings, seed, start, joined, pk);
                        assert(cluster_pks(rings, seed, joined).contains(pk));
                    }
                    assert(is_greedy_growth(rings, lists, marks, seed, longer)) by {
                        assert forall|i: int| 0 <= i < longer.len() implies is_candidate(
                            rings,
                            lists,
                            marks,
                            seed,
                            longer.take(i),
                            #[trigger] longer[i],
                        ) && brings(rings, seed, longer.take(i), longer[i]).len() <= 1 by {
                            if i < joined.len() {
                                assert(longer.take(i) == joined.take(i));
                                assert(longer[i] == joined[i]);
                            } else {
                                assert(longer.take(i) == joined);
                                diff@.unique_seq_to_set();
                            }
                        }
                    }
                    assert(longer.take(start.len() as int) == joined.take(start.len() as int));
                    assert forall|i: int| start.len() <= i < longer.len() implies found@.take(
                        c as int + 1,
                    ).contains(#[trigger] longer[i]) by {
                        if i < joined.len() {
                            let t = choose|t: int|
                                0 <= t < found@.take(c as int).len() && found@.take(c as int)[t]
                                    == joined[i];
                            assert(found@.take(c as int + 1)[t] == longer[i]);
                        } else {
                            assert(found@.take(c as int + 1)[c as int] == ki);
                        }
                    }
                    joined = longer;
                }
                continue_search = true;
            } else {
                proof {
                    diff@.unique_seq_to_set();
                    assert forall|i: int| start.len() <= i < joined.len() implies found@.take(
                        c as int + 1,
                    ).contains(#[trigger] joined[i]) by {
                        let t = choose|t: int|
                            0 <= t < found@.take(c as int).len() && found@.take(c as int)[t]
                                == joined[i];
                        assert(found@.take(c as int + 1)[t] == joined[i]);
                    }
                }
            }
            c += 1;
        }
        proof {
            if !continue_search {
                assert forall|ki: u32| #[trigger]
                    is_candidate(rings, lists, marks, seed, joined, ki) implies brings(
                    rings,
                    seed,
                    joined,
                    ki,
                ).len() >= 2 by {
                    assert(found@.contains(ki));
                    let t = choose|t: int| 0 <= t < found@.len() && found@[t] == ki;
                    assert(brings(rings, seed, joined, found@[t]).len() >= 2);
                }
            }
            lemma_bounded_list(joined, tx_ring_sets.len() as nat);
        }
    }
    (kis, pks)
}

/// A key image that joins brings its ring to the public keys of the
/// cluster.
proof fn lemma_cluster_grows(rings: Seq<Set<u32>>, seed: int, joined: Seq<u32>, ki: u32)
    ensures
        cluster_pks(rings, seed, joined.push(ki)) == cluster_pks(rings, seed, joined).union(
            rings[ki as int],
        ),
{
    let longer = joined.push(ki);
    assert forall|pk: u32|
        cluster_pks(rings, seed, longer).contains(pk) <==> cluster_pks(rings, seed, joined).union(
            rings[ki as int],
        ).contains(pk) by {
        if cluster_pks(rings, seed, longer).contains(pk) && !rings[seed].contains(pk) {
            let j = choose|j: int|
                0 <= j < longer.len() && rings[(#[trigger] longer[j]) as int].contains(pk);
            if j < joined.len() {
                assert(rings[joined[j] as int].contains(pk));
            }
        }
        if cluster_pks(rings, seed, joined).contains(pk) && !rings[seed].contains(pk) {
            let j = choose|j: int|
                0 <= j < joined.len() && rings[(#[trigger] joined[j]) as int].contains(pk);
            assert(rings[longer[j] as int].contains(pk));
        }
        if rings[ki as int].contains(pk) {
            assert(rings[longer[joined.len() as int] as int].contains(pk));
        }
    }
    assert(cluster_pks(rings, seed, longer) =~= cluster_pks(rings, seed, joined).union(
        rings[ki as int],
    ));
}

/// The public keys of a cluster stay when more key images join.
proof fn lemma_cluster_keeps(rings: Seq<Set<u32>>, seed: int, start: Seq<u32>, joined: Seq<u32>, pk: u32)
    requires
        start.len() <= joined.len(),
        joined.take(start.len() as int) == start,
        cluster_pks(rings, seed, start).contains(pk),
    ensures
        cluster_pks(rings, seed, joined).contains(pk),
{
    if !rings[seed].contains(pk) {
        let j = choose|j: int|
            0 <= j < start.len() && rings[(#[trigger] start[j]) as int].contains(pk);
        assert(start[j] == joined.take(start.len() as int)[j]);
        assert(rings[joined[j] as int].contains(pk));
    }
}

/// The key images and public keys of a cluster are key images and public
/// keys of the rings, and the rings of its key images lie within its public
/// keys.
pub proof fn lemma_cluster_in_range(
    rings: Seq<Set<u32>>,
    pk_to_ki: Seq<Seq<u32>>,
    in_closed_set: Seq<bool>,
    seed: int,
    kis: Set<u32>,
    pks: Set<u32>,
)
    requires
        0 <= seed < rings.len(),
        seed <= u32::MAX,
        is_cluster(rings, pk_to_ki, in_closed_set, seed, kis, pks),
    ensures
        forall|ki: u32| #[trigger] kis.contains(ki) ==> ki < rings.len(),
        forall|pk: u32|
            #[trigger] pks.contains(pk) ==> exists|ki: int|
                0 <= ki < rings.len() && #[trigger] rings[ki].contains(pk),
        rings_lie_within(rings, kis, pks),
{
    let joined = choose|joined: Seq<u32>|
        #![auto]
        {
            &&& is_greedy_growth(rings, pk_to_ki, in_closed_set, seed, joined)
            &&& is_stable(rings, pk_to_ki, in_closed_set, seed, joined)
            &&& kis == joined.to_set().insert(seed as u32)
            &&& pks == cluster_pks(rings, seed, joined)
        };
    assert forall|ki: u32| #[trigger] kis.contains(ki) implies ki < rings.len() && rings[ki as int].subset_of(
        pks,
    ) by {
        if ki != seed as u32 {
            assert(joined.contains(ki));
            let i = choose|i: int| 0 <= i < joined.len() && joined[i] == ki;
            assert(is_candidate(rings, pk_to_ki, in_closed_set, seed, joined.take(i), joined[i]));
            assert forall|pk: u32| rings[ki as int].contains(pk) implies pks.contains(pk) by {
                assert(rings[joined[i] as int].contains(pk));
            }
        }
    }
    assert forall|pk: u32| #[trigger] pks.contains(pk) implies exists|ki: int|
        0 <= ki < rings.len() && #[trigger] rings[ki].contains(pk) by {
        if rings[seed].contains(pk) {
        } else {
            let j = choose|j: int|
                0 <= j < joined.len() && rings[(#[trigger] joined[j]) as int].contains(pk);
            assert(is_candidate(rings, pk_to_ki, in_closed_set, seed, joined.take(j), joined[j]));
            assert(rings[joined[j] as int].contains(pk));
        }
    }
}

/// Whether each ring has a single member.
fn mark_single_rings(tx_ring_sets: &Vec<HashSet<u32>>) -> (marks: Vec<bool>)
    ensures
        marks.len() == tx_ring_sets.len(),
        forall|ki: int|
            0 <= ki < marks.len() ==> #[trigger] marks@[ki] == (tx_ring_sets@[ki]@.len() == 1),
{
    let mut marks: Vec<bool> = Vec::new();
    let mut ki: usize = 0;
    while ki < tx_ring_sets.len()
        invariant
            ki <= tx_ring_sets.len(),
            marks.len() == ki,
            forall|k: int| 0 <= k < ki ==> #[trigger] marks@[k] == (tx_ring_sets@[k]@.len() == 1),
        decreases tx_ring_sets.len() - ki,
    {
        marks.push(tx_ring_sets[ki].len() == 1);
        ki += 1;
    }
    marks
}

/// None of the closed sets takes anything out of the rings.
pub open spec fn leave_unchanged(
    rings: Seq<Set<u32>>,
    pk_to_ki: Seq<Seq<u32>>,
    sets: Seq<(Set<u32>, Set<u32>)>,
) -> bool {
    forall|i: int|
        0 <= i < sets.len() ==> closed_set_reduction(
            rings,
            pk_to_ki,
            (#[trigger] sets[i]).0,
            sets[i].1,
        ) == rings
}

/// Applies the parts of a decomposition to the rings, and keeps a copy of
/// each in `found`.
fn apply_parts(
    parts: &Vec<(HashSet<u32>, HashSet<u32>)>,
    tx_ring_sets: &mut Vec<HashSet<u32>>,
    pk_to_ki_map: &Vec<Vec<u32>>,
    found: &mut Vec<(HashSet<u32>, HashSet<u32>)>,
) -> (anonymity_set_reduced: bool)
    requires
        forall|i: int, pk: u32|
            0 <= i < parts.len() && #[trigger] parts@[i].1@.contains(pk) ==> pk
                < pk_to_ki_map.len(),
        lists_in_range(lists_of(pk_to_ki_map@), old(tx_ring_sets).len() as nat),
        all_claim(ring_sets(old(tx_ring_sets)@), part_sets(parts@)),
    ensures
        final(tx_ring_sets).len() == old(tx_ring_sets).len(),
        rings_within(ring_sets(final(tx_ring_sets)@), ring_sets(old(tx_ring_sets)@)),
        keeps_assignments(ring_sets(old(tx_ring_sets)@), ring_sets(final(tx_ring_sets)@)),
        anonymity_set_reduced == (ring_sets(final(tx_ring_sets)@) != ring_sets(old(tx_ring_sets)@)),
        part_sets(final(found)@) == part_sets(old(found)@) + part_sets(parts@),
        !anonymity_set_reduced ==> leave_unchanged(
            ring_sets(final(tx_ring_sets)@),
            lists_of(pk_to_ki_map@),
            part_sets(parts@),
        ),
{
    let ghost before = ring_sets(tx_ring_sets@);
    let ghost lists = lists_of(pk_to_ki_map@);
    let ghost kept = part_sets(found@);
    let mut anonymity_set_reduced = false;
    let mut i: usize = 0;
    proof {
        assert(part_sets(found@) =~= kept + part_sets(parts@).take(0));
    }
    while i < parts.len()
        invariant
            i <= parts.len(),
            before == ring_sets(old(tx_ring_sets)@),
            lists == lists_of(pk_to_ki_map@),
            tx_ring_sets.len() == before.len(),
            forall|a: int, pk: u32|
                0 <= a < parts.len() && #[trigger] parts@[a].1@.contains(pk) ==> pk
                    < pk_to_ki_map.len(),
            lists_in_range(lists, before.len()),
            rings_within(ring_sets(tx_ring_sets@), before),
            all_claim(before, part_sets(parts@)),
            keeps_assignments(before, ring_sets(tx_ring_sets@)),
            anonymity_set_reduced == (ring_sets(tx_ring_sets@) != before),
            part_sets(found@) == kept + part_sets(parts@).take(i as int),
            !anonymity_set_reduced ==> leave_unchanged(
                ring_sets(tx_ring_sets@),
                lists,
                part_sets(parts@).take(i as int),
            ),
        decreases parts.len() - i,
    {
        let ghost mid = ring_sets(tx_ring_sets@);
        let ghost was_reduced = anonymity_set_reduced;
        let kis = copy_of(&parts[i].0);
        let pks = copy_of(&parts[i].1);
        let ghost found_before = part_sets(found@);
        found.push((copy_of(&parts[i].0), copy_of(&parts[i].1)));
        proof {
            assert forall|pk: u32, j: int|
                pks@.contains(pk) && 0 <= j < pk_to_ki_map@[pk as int].len() implies (
            #[trigger] pk_to_ki_map@[pk as int]@[j]) < tx_ring_sets.len() by {
                assert(parts@[i as int].1@.contains(pk));
                assert(lists[pk as int][j] < before.len());
            }
            assert forall|pk: u32| #[trigger] pks@.contains(pk) implies pk < pk_to_ki_map.len() by {
                assert(parts@[i as int].1@.contains(pk));
            }
        }
        if remove_closed_set_pks(kis, pks, tx_ring_sets, pk_to_ki_map) {
            anonymity_set_reduced = true;
        }
        proof {
            lemma_within_trans(ring_sets(tx_ring_sets@), mid, before);
            lemma_step_keeps_assignments(before, mid, lists, part_sets(parts@), i as int);
            let sets = part_sets(parts@);
            assert(sets.take(i + 1) =~= sets.take(i as int).push(sets[i as int]));
            assert(part_sets(found@) =~= found_before.push(sets[i as int]));
            assert(part_sets(found@) =~= kept + sets.take(i + 1));
            if !anonymity_set_reduced {
                assert forall|a: int| 0 <= a < sets.take(i + 1).len() implies closed_set_reduction(
                    ring_sets(tx_ring_sets@),
                    lists,
                    (#[trigger] sets.take(i + 1)[a]).0,
                    sets.take(i + 1)[a].1,
                ) == ring_sets(tx_ring_sets@) by {
                    if a < i {
                        assert(sets.take(i as int)[a] == sets.take(i + 1)[a]);
                    }
                }
            }
        }
        i += 1;
    }
    proof {
        assert(part_sets(parts@).take(parts.len() as int) == part_sets(parts@));
    }
    anonymity_set_reduced
}

/// `ki` is a key image of one of the sets.
pub open spec fn in_some_set(sets: Seq<(Set<u32>, Set<u32>)>, ki: int) -> bool {
    exists|i: int| 0 <= i < sets.len() && (#[trigger] sets[i]).0.contains(ki as u32)
}

/// Marks as they may stand while a round of the search finds the sets:
/// every key image with a single-member ring is marked, and no other but
/// key images of the sets.
pub open spec fn marks_fit(
    rings: Seq<Set<u32>>,
    sets: Seq<(Set<u32>, Set<u32>)>,
    marks: Seq<bool>,
) -> bool {
    &&& marks.len() == rings.len()
    &&& forall|k: int|
        0 <= k < rings.len() ==> (rings[k].len() == 1 ==> #[trigger] marks[k]) && (marks[k]
            ==> rings[k].len() == 1 || in_some_set(sets, k))
}

/// Under fitting marks, a cluster grown from `ki` has ended with key images
/// and public keys in different numbers.
pub open spec fn grows_unbalanced(
    rings: Seq<Set<u32>>,
    pk_to_ki: Seq<Seq<u32>>,
    sets: Seq<(Set<u32>, Set<u32>)>,
    ki: int,
) -> bool {
    exists|marks: Seq<bool>, kis: Set<u32>, pks: Set<u32>|
        #![auto]
        marks_fit(rings, sets, marks) && is_cluster(rings, pk_to_ki, marks, ki, kis, pks)
            && kis.len() != pks.len()
}

/// The search has come to its end for the key images before `upto`: each
/// of them whose ring has more than one member is a key image of one of the
/// sets, or has grown a cluster that is no closed set.
pub open spec fn search_is_complete(
    rings: Seq<Set<u32>>,
    pk_to_ki: Seq<Seq<u32>>,
    sets: Seq<(Set<u32>, Set<u32>)>,
    upto: int,
) -> bool {
    forall|ki: int|
        0 <= ki < upto && (#[trigger] rings[ki]).len() > 1 && !in_some_set(sets, ki)
            ==> grows_unbalanced(rings, pk_to_ki, sets, ki)
}

/// A key image of the first sets is one of the first and second together.
proof fn lemma_in_some_more(
    first: Seq<(Set<u32>, Set<u32>)>,
    second: Seq<(Set<u32>, Set<u32>)>,
    ki: int,
)
    ensures
        in_some_set(first, ki) ==> in_some_set(first + second, ki),
        in_some_set(second, ki) ==> in_some_set(first + second, ki),
{
    let both = first + second;
    if in_some_set(first, ki) {
        let i = choose|i: int| 0 <= i < first.len() && (#[trigger] first[i]).0.contains(ki as u32);
        assert(both[i] == first[i]);
    }
    if in_some_set(second, ki) {
        let i = choose|i: int| 0 <= i < second.len() && (#[trigger] second[i]).0.contains(ki as u32);
        assert(both[first.len() + i] == second[i]);
    }
}

/// Marks that fit some sets fit more sets.
proof fn lemma_marks_fit_more(
    rings: Seq<Set<u32>>,
    first: Seq<(Set<u32>, Set<u32>)>,
    second: Seq<(Set<u32>, Set<u32>)>,
    marks: Seq<bool>,
)
    requires
        marks_fit(rings, first, marks),
    ensures
        marks_fit(rings, first + second, marks),
{
    assert forall|k: int| 0 <= k < rings.len() implies (rings[k].len() == 1 ==> #[trigger] marks[k])
        && (marks[k] ==> rings[k].len() == 1 || in_some_set(first + second, k)) by {
        lemma_in_some_more(first, second, k);
    }
}

/// A search that is complete for some sets is complete for more sets.
proof fn lemma_search_is_complete_more(
    rings: Seq<Set<u32>>,
    pk_to_ki: Seq<Seq<u32>>,
    first: Seq<(Set<u32>, Set<u32>)>,
    second: Seq<(Set<u32>, Set<u32>)>,
    upto: int,
)
    requires
        search_is_complete(rings, pk_to_ki, first, upto),
    ensures
        search_is_complete(rings, pk_to_ki, first + second, upto),
{
    let both = first + second;
    assert forall|ki: int|
        0 <= ki < upto && (#[trigger] rings[ki]).len() > 1 && !in_some_set(
            both,
            ki,
        ) implies grows_unbalanced(rings, pk_to_ki, both, ki) by {
        lemma_in_some_more(first, second, ki);
        assert(grows_unbalanced(rings, pk_to_ki, first, ki));
        let (marks, kis, pks) = choose|marks: Seq<bool>, kis: Set<u32>, pks: Set<u32>|
            #![auto]
            marks_fit(rings, first, marks) && is_cluster(rings, pk_to_ki, marks, ki, kis, pks)
                && kis.len() != pks.len();
        lemma_marks_fit_more(rings, first, second, marks);
    }
}

/// The mate of a key image of a perfectly matched set is a public key of
/// the set.
proof fn lemma_mate_is_inside(
    rings: Seq<Set<u32>>,
    kis: Set<u32>,
    pks: Set<u32>,
    mate: Map<u32, u32>,
    ki: u32,
)
    requires
        is_perfect_matching(rings, kis, pks, mate),
        kis.contains(ki),
    ensures
        pks.contains(mate[ki]),
{
}

/// A node is a member of some part.
proof fn lemma_member_of_part(nodes: Set<u32>, parts: Seq<Set<u32>>, x: u32) -> (i: int)
    requires
        parts_cover(nodes, parts),
        nodes.contains(x),
    ensures
        0 <= i < parts.len(),
        parts[i].contains(x),
{
    choose|i: int| 0 <= i < parts.len() && #[trigger] parts[i].contains(x)
}

/// What a fine decomposition is made of.
proof fn lemma_fine_decomposition_parts(
    rings: Seq<Set<u32>>,
    kis: Set<u32>,
    pks: Set<u32>,
    mate: Map<u32, u32>,
    parts: Seq<(Set<u32>, Set<u32>)>,
)
    requires
        is_fine_decomposition(rings, kis, pks, mate, parts),
    ensures
        is_perfect_matching(rings, kis, pks, mate),
        parts_cover(pks, pk_parts(parts)),
        pk_parts(parts).len() == parts.len(),
        forall|i: int|
            0 <= i < parts.len() ==> #[trigger] pk_parts(parts)[i] == parts[i].1 && parts[i].0
                == mates_of(kis, mate, parts[i].1),
{
}

/// Every key image of a closed set is a key image of one of the parts of
/// its fine decomposition.
proof fn lemma_key_image_is_in_part(
    rings: Seq<Set<u32>>,
    kis: Set<u32>,
    pks: Set<u32>,
    parts: Seq<(Set<u32>, Set<u32>)>,
    ki: u32,
)
    requires
        has_fine_decomposition(rings, kis, pks, parts),
        kis.contains(ki),
    ensures
        in_some_set(parts, ki as int),
{
    let mate = choose|mate: Map<u32, u32>| is_fine_decomposition(rings, kis, pks, mate, parts);
    lemma_fine_decomposition_parts(rings, kis, pks, mate, parts);
    lemma_mate_is_inside(rings, kis, pks, mate, ki);
    lemma_mate_in_part(kis, pks, mate, parts, ki);
}

/// A key image whose mate is in a part is a key image of that part.
proof fn lemma_mate_in_part(
    kis: Set<u32>,
    pks: Set<u32>,
    mate: Map<u32, u32>,
    parts: Seq<(Set<u32>, Set<u32>)>,
    ki: u32,
)
    requires
        kis.contains(ki),
        pks.contains(mate[ki]),
        parts_cover(pks, pk_parts(parts)),
        pk_parts(parts).len() == parts.len(),
        forall|i: int|
            0 <= i < parts.len() ==> #[trigger] pk_parts(parts)[i] == parts[i].1 && parts[i].0
                == mates_of(kis, mate, parts[i].1),
    ensures
        in_some_set(parts, ki as int),
{
    let i = lemma_member_of_part(pks, pk_parts(parts), mate[ki]);
    assert(pk_parts(parts)[i] == parts[i].1);
    assert(parts[i].0 == mates_of(kis, mate, parts[i].1));
    assert(parts[i].0.contains(ki));
}

/// After the key images of a closed set have been marked, the marks are
/// those before and marks of key images of the sets found.
proof fn lemma_marks_grew(
    rings: Seq<Set<u32>>,
    kis: Set<u32>,
    pks: Set<u32>,
    parts: Seq<(Set<u32>, Set<u32>)>,
    found_before: Seq<(Set<u32>, Set<u32>)>,
    marks_before: Seq<bool>,
    marks_after: Seq<bool>,
    ki: int,
)
    requires
        has_fine_decomposition(rings, kis, pks, parts),
        0 <= ki <= u32::MAX,
        kis.contains(ki as u32),
        marks_after.len() == marks_before.len(),
        forall|k: int|
            0 <= k < marks_before.len() ==> (marks_before[k] ==> #[trigger] marks_after[k]) && (
            marks_after[k] && !marks_before[k] ==> k <= u32::MAX && kis.contains(k as u32)),
    ensures
        marks_grow(marks_before, marks_after, found_before + parts),
        in_some_set(found_before + parts, ki),
{
    assert forall|k: int| 0 <= k < marks_before.len() implies (marks_before[k]
        ==> #[trigger] marks_after[k]) && (marks_after[k] && !marks_before[k] ==> in_some_set(
        found_before + parts,
        k,
    )) by {
        if marks_after[k] && !marks_before[k] {
            lemma_key_image_is_in_part(rings, kis, pks, parts, k as u32);
            lemma_in_some_more(found_before, parts, k);
        }
    }
    lemma_key_image_is_in_part(rings, kis, pks, parts, ki as u32);
    lemma_in_some_more(found_before, parts, ki);
}

/// What a search from `ki` that took nothing out of the rings has found:
/// `ki` is a key image of one of the sets now, or it has grown a cluster
/// that is no closed set, and marks and sets are as they were.
pub open spec fn seed_is_settled(
    rings: Seq<Set<u32>>,
    pk_to_ki: Seq<Seq<u32>>,
    marks_before: Seq<bool>,
    marks_after: Seq<bool>,
    sets_before: Seq<(Set<u32>, Set<u32>)>,
    sets_after: Seq<(Set<u32>, Set<u32>)>,
    ki: int,
) -> bool {
    in_some_set(sets_after, ki) || (marks_after == marks_before && sets_after == sets_before
        && exists|kis: Set<u32>, pks: Set<u32>|
        #![auto]
        is_cluster(rings, pk_to_ki, marks_before, ki, kis, pks) && kis.len() != pks.len())
}

/// The marks after a search are those before it, and marks of key images of
/// the sets found.
pub open spec fn marks_grow(
    marks_before: Seq<bool>,
    marks_after: Seq<bool>,
    sets_after: Seq<(Set<u32>, Set<u32>)>,
) -> bool {
    &&& marks_after.len() == marks_before.len()
    &&& forall|k: int|
        0 <= k < marks_before.len() ==> (marks_before[k] ==> #[trigger] marks_after[k]) && (
        marks_after[k] && !marks_before[k] ==> in_some_set(sets_after, k))
}

/// Grows a cluster from `ki` and, where it is a closed set, applies its
/// parts to the rings; says whether any ring lost a member.
fn search_from(
    ki: usize,
    tx_ring_sets: &mut Vec<HashSet<u32>>,
    pk_to_ki_map: &Vec<Vec<u32>>,
    ki_in_closed_set: &mut Vec<bool>,
    found: &mut Vec<(HashSet<u32>, HashSet<u32>)>,
) -> (res: Result<bool, Error>)
    requires
        ki < old(tx_ring_sets).len(),
        old(tx_ring_sets).len() <= u32::MAX,
        old(tx_ring_sets).len() + old(tx_ring_sets).len() <= usize::MAX,
        old(ki_in_closed_set).len() == old(tx_ring_sets).len(),
        rings_in_range(ring_sets(old(tx_ring_sets)@), pk_to_ki_map.len() as nat),
        lists_in_range(lists_of(pk_to_ki_map@), old(tx_ring_sets).len() as nat),
    ensures
        final(tx_ring_sets).len() == old(tx_ring_sets).len(),
        final(ki_in_closed_set).len() == old(ki_in_closed_set).len(),
        rings_within(ring_sets(final(tx_ring_sets)@), ring_sets(old(tx_ring_sets)@)),
        keeps_assignments(ring_sets(old(tx_ring_sets)@), ring_sets(final(tx_ring_sets)@)),
        rings_in_range(ring_sets(final(tx_ring_sets)@), pk_to_ki_map.len() as nat),
        res matches Err(e) ==> e == Error::Inconsistency,
        res is Err ==> !has_assignment(ring_sets(old(tx_ring_sets)@)),
        res matches Ok(reduced) ==> reduced == (ring_sets(final(tx_ring_sets)@) != ring_sets(
            old(tx_ring_sets)@,
        )),
        res matches Ok(reduced) ==> !reduced && leave_unchanged(
            ring_sets(old(tx_ring_sets)@),
            lists_of(pk_to_ki_map@),
            part_sets(old(found)@),
        ) ==> leave_unchanged(
            ring_sets(final(tx_ring_sets)@),
            lists_of(pk_to_ki_map@),
            part_sets(final(found)@),
        ),
        res matches Ok(reduced) ==> !reduced && all_claim(
            ring_sets(old(tx_ring_sets)@),
            part_sets(old(found)@),
        ) ==> all_claim(ring_sets(final(tx_ring_sets)@), part_sets(final(found)@)),
        exists|tail: Seq<(Set<u32>, Set<u32>)>|
            part_sets(final(found)@) == part_sets(old(found)@) + tail,
        marks_grow(old(ki_in_closed_set)@, final(ki_in_closed_set)@, part_sets(final(found)@)),
        res is Ok ==> seed_is_settled(
            ring_sets(old(tx_ring_sets)@),
            lists_of(pk_to_ki_map@),
            old(ki_in_closed_set)@,
            final(ki_in_closed_set)@,
            part_sets(old(found)@),
            part_sets(final(found)@),
            ki as int,
        ),
{
    let ghost rings = ring_sets(tx_ring_sets@);
    let ghost lists = lists_of(pk_to_ki_map@);
    let ghost marks_before = ki_in_closed_set@;
    let ghost sets_before = part_sets(found@);
    let num_kis = tx_ring_sets.len();
    proof {
        assert(sets_before == sets_before + Seq::<(Set<u32>, Set<u32>)>::empty());
    }
    let (clus_ki_set, clus_pk_set) = form_cluster(ki, tx_ring_sets, pk_to_ki_map, ki_in_closed_set);
    proof {
        lemma_cluster_in_range(
            rings,
            lists,
            ki_in_closed_set@,
            ki as int,
            clus_ki_set@,
            clus_pk_set@,
        );
        lemma_hash_set_finite(&clus_ki_set);
        lemma_bounded_set(clus_ki_set@, num_kis as nat);
    }
    if clus_ki_set.len() != clus_pk_set.len() {
        return Ok(false);
    }
    proof {
        lemma_hash_set_finite(&clus_pk_set);
    }
    let parts = match decompose_closed_set(&clus_ki_set, &clus_pk_set, tx_ring_sets) {
        Ok(parts) => parts,
        Err(e) => {
            proof {
                if has_assignment(rings) {
                    let spent = choose|spent: Seq<u32>| is_assignment(rings, spent);
                    lemma_assignment_matches_closed_set(rings, clus_ki_set@, clus_pk_set@, spent);
                }
            }
            return Err(e);
        },
    };
    let key_images = members(&clus_ki_set);
    proof {
        assert forall|t: int| 0 <= t < key_images.len() implies (#[trigger] key_images@[t])
            < num_kis by {
            assert(key_images@.to_set().contains(key_images@[t]));
        }
    }
    let mut m: usize = 0;
    while m < key_images.len()
        invariant
            m <= key_images.len(),
            ki_in_closed_set.len() == num_kis,
            marks_before.len() == num_kis,
            forall|t: int| 0 <= t < key_images.len() ==> (#[trigger] key_images@[t]) < num_kis,
            forall|k: int|
                0 <= k < num_kis ==> (marks_before[k] ==> #[trigger] ki_in_closed_set@[k]) && (
                ki_in_closed_set@[k] && !marks_before[k] ==> key_images@.contains(k as u32)),
        decreases key_images.len() - m,
    {
        ki_in_closed_set.set(key_images[m] as usize, true);
        m += 1;
    }
    proof {
        lemma_hash_set_finite(&clus_pk_set);
        lemma_fine_decomposition_all_claim(rings, clus_ki_set@, clus_pk_set@, part_sets(parts@));
        lemma_parts_in_range(
            rings,
            clus_ki_set@,
            clus_pk_set@,
            part_sets(parts@),
            pk_to_ki_map.len() as nat,
        );
        assert forall|i: int, pk: u32|
            0 <= i < parts.len() && #[trigger] parts@[i].1@.contains(pk) implies pk
            < pk_to_ki_map.len() by {
            assert(part_sets(parts@)[i].1.contains(pk));
        }
    }
    let ghost found_before = part_sets(found@);
    let reduced = apply_parts(&parts, tx_ring_sets, pk_to_ki_map, found);
    proof {
        let after = ring_sets(tx_ring_sets@);
        lemma_in_range_within(after, rings, pk_to_ki_map.len() as nat);
        if !reduced && leave_unchanged(rings, lists, found_before) {
            lemma_leave_unchanged_both(after, lists, found_before, part_sets(parts@));
        }
        if !reduced && all_claim(rings, found_before) {
            lemma_all_claim_both(after, found_before, part_sets(parts@));
        }
    }
    proof {
        assert forall|k: int| 0 <= k < marks_before.len() implies (marks_before[k]
            ==> #[trigger] ki_in_closed_set@[k]) && (ki_in_closed_set@[k] && !marks_before[k] ==> k
            <= u32::MAX && clus_ki_set@.contains(k as u32)) by {
            if ki_in_closed_set@[k] && !marks_before[k] {
                assert(key_images@.to_set().contains(k as u32));
            }
        }
        lemma_marks_grew(
            rings,
            clus_ki_set@,
            clus_pk_set@,
            part_sets(parts@),
            found_before,
            marks_before,
            ki_in_closed_set@,
            ki as int,
        );
    }
    Ok(reduced)
}

/// The public keys of the parts of a cluster are public keys of the rings.
proof fn lemma_parts_in_range(
    rings: Seq<Set<u32>>,
    kis: Set<u32>,
    pks: Set<u32>,
    parts: Seq<(Set<u32>, Set<u32>)>,
    num_pks: nat,
)
    requires
        has_fine_decomposition(rings, kis, pks, parts),
        rings_in_range(rings, num_pks),
        forall|pk: u32|
            #[trigger] pks.contains(pk) ==> exists|ki: int|
                0 <= ki < rings.len() && #[trigger] rings[ki].contains(pk),
    ensures
        forall|i: int, pk: u32|
            0 <= i < parts.len() && #[trigger] parts[i].1.contains(pk) ==> pk < num_pks,
{
    let mate = choose|mate: Map<u32, u32>| is_fine_decomposition(rings, kis, pks, mate, parts);
    assert forall|i: int, pk: u32| 0 <= i < parts.len() && #[trigger] parts[i].1.contains(
        pk,
    ) implies pk < num_pks by {
        assert(pk_parts(parts)[i].contains(pk));
        assert(pks.contains(pk));
        let k = choose|k: int| 0 <= k < rings.len() && #[trigger] rings[k].contains(pk);
        assert(rings[k].contains(pk));
    }
}

/// Rings within rings in range are in range.
proof fn lemma_in_range_within(after: Seq<Set<u32>>, before: Seq<Set<u32>>, num_pks: nat)
    requires
        rings_within(after, before),
        rings_in_range(before, num_pks),
    ensures
        rings_in_range(after, num_pks),
{
    assert forall|k: int, pk: u32| 0 <= k < after.len() && #[trigger] after[k].contains(
        pk,
    ) implies pk < num_pks by {
        assert(after[k].subset_of(before[k]));
        assert(before[k].contains(pk));
    }
}

/// Sets that claim their public keys do so together.
proof fn lemma_all_claim_both(
    rings: Seq<Set<u32>>,
    first: Seq<(Set<u32>, Set<u32>)>,
    second: Seq<(Set<u32>, Set<u32>)>,
)
    requires
        all_claim(rings, first),
        all_claim(rings, second),
    ensures
        all_claim(rings, first + second),
{
    let sets = first + second;
    assert forall|spent: Seq<u32>, i: int|
        #[trigger] is_assignment(rings, spent) && 0 <= i < sets.len() implies claims(
        (#[trigger] sets[i]).0,
        sets[i].1,
        spent,
    ) by {
        if i < first.len() {
            assert(sets[i] == first[i]);
        } else {
            assert(sets[i] == second[i - first.len()]);
        }
    }
}

/// Closed sets that leave the rings unchanged do so together.
proof fn lemma_leave_unchanged_both(
    rings: Seq<Set<u32>>,
    pk_to_ki: Seq<Seq<u32>>,
    first: Seq<(Set<u32>, Set<u32>)>,
    second: Seq<(Set<u32>, Set<u32>)>,
)
    requires
        leave_unchanged(rings, pk_to_ki, first),
        leave_unchanged(rings, pk_to_ki, second),
    ensures
        leave_unchanged(rings, pk_to_ki, first + second),
{
    let sets = first + second;
    assert forall|i: int| 0 <= i < sets.len() implies closed_set_reduction(
        rings,
        pk_to_ki,
        (#[trigger] sets[i]).0,
        sets[i].1,
    ) == rings by {
        if i < first.len() {
            assert(sets[i] == first[i]);
        } else {
            assert(sets[i] == second[i - first.len()]);
        }
    }
}

/// After a search from `ki` that took nothing out of the rings, the marks
/// fit still, and the search is complete for the key images up to `ki`.
proof fn lemma_seed_settled(
    rings: Seq<Set<u32>>,
    pk_to_ki: Seq<Seq<u32>>,
    marks_before: Seq<bool>,
    marks_after: Seq<bool>,
    sets_before: Seq<(Set<u32>, Set<u32>)>,
    sets_after: Seq<(Set<u32>, Set<u32>)>,
    ki: int,
)
    requires
        0 <= ki < rings.len(),
        marks_fit(rings, sets_before, marks_before),
        search_is_complete(rings, pk_to_ki, sets_before, ki),
        exists|tail: Seq<(Set<u32>, Set<u32>)>| sets_after == sets_before + tail,
        marks_grow(marks_before, marks_after, sets_after),
        seed_is_settled(rings, pk_to_ki, marks_before, marks_after, sets_before, sets_after, ki),
    ensures
        marks_fit(rings, sets_after, marks_after),
        search_is_complete(rings, pk_to_ki, sets_after, ki + 1),
{
    let tail = choose|tail: Seq<(Set<u32>, Set<u32>)>| sets_after == sets_before + tail;
    lemma_marks_fit_more(rings, sets_before, tail, marks_before);
    lemma_search_is_complete_more(rings, pk_to_ki, sets_before, tail, ki);
    assert(marks_fit(rings, sets_after, marks_after)) by {
        assert forall|k: int| 0 <= k < rings.len() implies (rings[k].len() == 1
            ==> #[trigger] marks_after[k]) && (marks_after[k] ==> rings[k].len() == 1
            || in_some_set(sets_after, k)) by {
            assert(marks_before[k] ==> marks_after[k]);
        }
    }
    assert forall|k: int|
        0 <= k < ki + 1 && (#[trigger] rings[k]).len() > 1 && !in_some_set(
            sets_after,
            k,
        ) implies grows_unbalanced(rings, pk_to_ki, sets_after, k) by {
        if k == ki {
            let (kis, pks) = choose|kis: Set<u32>, pks: Set<u32>|
                #![auto]
                is_cluster(rings, pk_to_ki, marks_before, ki, kis, pks) && kis.len() != pks.len();
            assert(marks_fit(rings, sets_after, marks_before));
        }
    }
}

/// Runs the clustering search on the rings until a round takes nothing out
/// of any ring, and returns the closed sets of that last round.
///
/// In each round the key images are taken in ascending order.  From each
/// whose ring has more than one member and which no closed set of the round
/// holds yet, a cluster is grown; a cluster with as many key images as
/// public keys is a closed set, which is split into its irreducible parts,
/// and each part is applied to the rings.  The search is given up as
/// inconsistent when such a closed set has no perfect matching, which does
/// not happen where the rings have an assignment.
///
/// No ring gains a member, and every assignment of the rings is kept.  The
/// closed sets returned take nothing out of the rings as they are left, and
/// each claims its public keys in every assignment.  The search is complete:
/// every key image whose ring is left with more than one member is a key
/// image of one of the closed sets returned, or has grown a cluster that is
/// no closed set.
pub fn cluster(tx_ring_sets: &mut Vec<HashSet<u32>>, pk_to_ki_map: &Vec<Vec<u32>>) -> (res: Result<
    Vec<(HashSet<u32>, HashSet<u32>)>,
    Error,
>)
    requires
        old(tx_ring_sets).len() <= u32::MAX,
        old(tx_ring_sets).len() + old(tx_ring_sets).len() <= usize::MAX,
        rings_in_range(ring_sets(old(tx_ring_sets)@), pk_to_ki_map.len() as nat),
        lists_in_range(lists_of(pk_to_ki_map@), old(tx_ring_sets).len() as nat),
    ensures
        final(tx_ring_sets).len() == old(tx_ring_sets).len(),
        rings_within(ring_sets(final(tx_ring_sets)@), ring_sets(old(tx_ring_sets)@)),
        keeps_assignments(ring_sets(old(tx_ring_sets)@), ring_sets(final(tx_ring_sets)@)),
        res matches Err(e) ==> e == Error::Inconsistency,
        res is Err ==> !has_assignment(ring_sets(old(tx_ring_sets)@)),
        res matches Ok(sets) ==> leave_unchanged(
            ring_sets(final(tx_ring_sets)@),
            lists_of(pk_to_ki_map@),
            part_sets(sets@),
        ),
        res matches Ok(sets) ==> all_claim(ring_sets(final(tx_ring_sets)@), part_sets(sets@)),
        res matches Ok(sets) ==> search_is_complete(
            ring_sets(final(tx_ring_sets)@),
            lists_of(pk_to_ki_map@),
            part_sets(sets@),
            final(tx_ring_sets).len() as int,
        ),
{
    let ghost initial = ring_sets(tx_ring_sets@);
    let ghost lists = lists_of(pk_to_ki_map@);
    let num_kis = tx_ring_sets.len();
    let mut ki_in_closed_set = mark_single_rings(tx_ring_sets);
    let mut found: Vec<(HashSet<u32>, HashSet<u32>)> = Vec::new();
    let mut flag = true;
    while flag
        invariant
            num_kis == initial.len(),
            num_kis <= u32::MAX,
            num_kis + num_kis <= usize::MAX,
            tx_ring_sets.len() == num_kis,
            ki_in_closed_set.len() == num_kis,
            lists == lists_of(pk_to_ki_map@),
            initial == ring_sets(old(tx_ring_sets)@),
            rings_in_range(ring_sets(tx_ring_sets@), pk_to_ki_map.len() as nat),
            lists_in_range(lists, num_kis as nat),
            rings_within(ring_sets(tx_ring_sets@), initial),
            keeps_assignments(initial, ring_sets(tx_ring_sets@)),
            !flag ==> leave_unchanged(ring_sets(tx_ring_sets@), lists, part_sets(found@)),
            !flag ==> all_claim(ring_sets(tx_ring_sets@), part_sets(found@)),
            !flag ==> search_is_complete(
                ring_sets(tx_ring_sets@),
                lists,
                part_sets(found@),
                num_kis as int,
            ),
            forall|k: int|
                0 <= k < num_kis ==> #[trigger] ki_in_closed_set@[k] == (tx_ring_sets@[k]@.len()
                    == 1),
        decreases total_size(ring_sets(tx_ring_sets@)), (if flag { 1int } else { 0int }),
    {
        flag = false;
        found = Vec::new();
        let ghost round_start = ring_sets(tx_ring_sets@);
        proof {
            lemma_rings_finite(tx_ring_sets@);
        }
        let mut ki: usize = 0;
        while ki < num_kis
            invariant
                ki <= num_kis,
                num_kis == initial.len(),
                num_kis <= u32::MAX,
                num_kis + num_kis <= usize::MAX,
                tx_ring_sets.len() == num_kis,
                ki_in_closed_set.len() == num_kis,
                lists == lists_of(pk_to_ki_map@),
                initial == ring_sets(old(tx_ring_sets)@),
                rings_in_range(ring_sets(tx_ring_sets@), pk_to_ki_map.len() as nat),
                lists_in_range(lists, num_kis as nat),
                rings_within(ring_sets(tx_ring_sets@), round_start),
                rings_within(round_start, initial),
                keeps_assignments(initial, ring_sets(tx_ring_sets@)),
                rings_finite(round_start),
                flag == (ring_sets(tx_ring_sets@) != round_start),
                !flag ==> leave_unchanged(ring_sets(tx_ring_sets@), lists, part_sets(found@)),
                !flag ==> all_claim(ring_sets(tx_ring_sets@), part_sets(found@)),
                !flag ==> marks_fit(ring_sets(tx_ring_sets@), part_sets(found@), ki_in_closed_set@),
                !flag ==> search_is_complete(
                    ring_sets(tx_ring_sets@),
                    lists,
                    part_sets(found@),
                    ki as int,
                ),
            decreases num_kis - ki,
        {
            if tx_ring_sets[ki].len() > 1 && !ki_in_closed_set[ki] {
                let ghost mid = ring_sets(tx_ring_sets@);
                let ghost marks_before = ki_in_closed_set@;
                let ghost sets_before = part_sets(found@);
                let ghost was_flag = flag;
                let outcome = search_from(
                    ki,
                    tx_ring_sets,
                    pk_to_ki_map,
                    &mut ki_in_closed_set,
                    &mut found,
                );
                proof {
                    lemma_within_trans(ring_sets(tx_ring_sets@), mid, round_start);
                    lemma_within_trans(ring_sets(tx_ring_sets@), round_start, initial);
                    lemma_keeps_assignments_trans(initial, mid, ring_sets(tx_ring_sets@));
                    if outcome is Ok && !was_flag && ring_sets(tx_ring_sets@) == mid {
                        lemma_seed_settled(
                            mid,
                            lists,
                            marks_before,
                            ki_in_closed_set@,
                            sets_before,
                            part_sets(found@),
                            ki as int,
                        );
                    }
                }
                match outcome {
                    Ok(reduced) => {
                        if reduced {
                            flag = true;
                        }
                    },
                    Err(e) => {
                        proof {
                            if has_assignment(initial) {
                                let spent = choose|spent: Seq<u32>| is_assignment(initial, spent);
                                assert(is_assignment(mid, spent));
                            }
                        }
                        return Err(e);
                    },
                }
            }
            proof {
                if !flag && ki_in_closed_set@[ki as int] {
                    assert(ring_sets(tx_ring_sets@)[ki as int] == tx_ring_sets@[ki as int]@);
                }
            }
            ki += 1;
        }
        ki_in_closed_set = mark_single_rings(tx_ring_sets);
        proof {
            lemma_total_size_within(ring_sets(tx_ring_sets@), round_start);
            lemma_within_trans(ring_sets(tx_ring_sets@), round_start, initial);
        }
    }
    Ok(found)
}

} // verus!

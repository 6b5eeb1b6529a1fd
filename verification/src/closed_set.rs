//! Applying a closed set to the rings.

use vstd::prelude::*;
use std::collections::HashSet;
use crate::model::{
    closed_set_reduction, lists_in_range, lists_key_image, lists_of, ring_sets, rings_within,
};
use crate::sets::{members, set_of};

verus! {

broadcast use vstd::std_specs::hash::group_hash_axioms;

/// The public key `pk` has been taken out of the ring of `ki` once the walk
/// has finished the first `done` public keys of `order` and the first `inner`
/// entries of the list of `order[done]`.
spec fn taken_out(
    pk_to_ki: Seq<Seq<u32>>,
    kis: Set<u32>,
    order: Seq<u32>,
    done: int,
    inner: int,
    ki: int,
    pk: u32,
) -> bool {
    &&& !kis.contains(ki as u32)
    &&& lists_key_image(pk_to_ki, pk, ki)
    &&& {
        ||| exists|a: int| 0 <= a < done && #[trigger] order[a] == pk
        ||| (done < order.len() && order[done] == pk && exists|j: int|
            0 <= j < inner && #[trigger] pk_to_ki[pk as int][j] == ki)
    }
}

/// Takes every public key of a closed set out of the rings of the key images
/// outside the set, and says whether any ring lost a member.
///
/// Only the key images that the reverse list of a public key names are
/// visited, so a ring that holds `pk` without being listed under `pk` keeps
/// it.
pub fn remove_closed_set_pks(
    closed_keyimage_set: HashSet<u32>,
    closed_pk_set: HashSet<u32>,
    tx_ring_sets: &mut Vec<HashSet<u32>>,
    pk_to_ki_map: &Vec<Vec<u32>>,
) -> (anonymity_set_reduced: bool)
    requires
        forall|pk: u32| #[trigger] closed_pk_set@.contains(pk) ==> pk < pk_to_ki_map.len(),
        forall|pk: u32, j: int|
            closed_pk_set@.contains(pk) && 0 <= j < pk_to_ki_map@[pk as int].len()
                && !closed_keyimage_set@.contains(pk_to_ki_map@[pk as int]@[j])
                ==> (#[trigger] pk_to_ki_map@[pk as int]@[j]) < old(tx_ring_sets).len(),
    ensures
        ring_sets(final(tx_ring_sets)@) == closed_set_reduction(
            ring_sets(old(tx_ring_sets)@),
            lists_of(pk_to_ki_map@),
            closed_keyimage_set@,
            closed_pk_set@,
        ),
        anonymity_set_reduced == (ring_sets(final(tx_ring_sets)@) != ring_sets(old(tx_ring_sets)@)),
        rings_within(ring_sets(final(tx_ring_sets)@), ring_sets(old(tx_ring_sets)@)),
{
    let mut anonymity_set_reduced = false;
    let order = members(&closed_pk_set);
    let ghost lists = lists_of(pk_to_ki_map@);
    let ghost kis = closed_keyimage_set@;
    let ghost before = ring_sets(tx_ring_sets@);
    let mut a: usize = 0;
    while a < order.len()
        invariant
            a <= order.len(),
            order@.to_set() == closed_pk_set@,
            lists == lists_of(pk_to_ki_map@),
            kis == closed_keyimage_set@,
            before == ring_sets(old(tx_ring_sets)@),
            tx_ring_sets.len() == before.len(),
            forall|pk: u32| #[trigger] closed_pk_set@.contains(pk) ==> pk < pk_to_ki_map.len(),
            forall|pk: u32, j: int|
                closed_pk_set@.contains(pk) && 0 <= j < pk_to_ki_map@[pk as int].len()
                    && !closed_keyimage_set@.contains(pk_to_ki_map@[pk as int]@[j])
                    ==> (#[trigger] pk_to_ki_map@[pk as int]@[j]) < before.len(),
            forall|ki: int, pk: u32|
                0 <= ki < before.len() ==> (#[trigger] tx_ring_sets@[ki]@.contains(pk) <==> before[ki].contains(
                    pk,
                ) && !taken_out(lists, kis, order@, a as int, 0, ki, pk)),
            anonymity_set_reduced <==> exists|ki: int, pk: u32|
                0 <= ki < before.len() && #[trigger] before[ki].contains(pk) && taken_out(
                    lists,
                    kis,
                    order@,
                    a as int,
                    0,
                    ki,
                    pk,
                ),
        decreases order.len() - a,
    {
        let pk = order[a];
        assert(order@.to_set().contains(pk));
        let list = &pk_to_ki_map[pk as usize];
        let mut b: usize = 0;
        while b < list.len()
            invariant
                b <= list.len(),
                a < order.len(),
                pk == order@[a as int],
                closed_pk_set@.contains(pk),
                pk < pk_to_ki_map.len(),
                list == pk_to_ki_map@[pk as int],
                lists == lists_of(pk_to_ki_map@),
                kis == closed_keyimage_set@,
                tx_ring_sets.len() == before.len(),
                forall|j: int|
                    0 <= j < list@.len() && !closed_keyimage_set@.contains(list@[j])
                        ==> (#[trigger] list@[j]) < before.len(),
                forall|ki: int, q: u32|
                    0 <= ki < before.len() ==> (#[trigger] tx_ring_sets@[ki]@.contains(q) <==> before[ki].contains(
                        q,
                    ) && !taken_out(lists, kis, order@, a as int, b as int, ki, q)),
                anonymity_set_reduced <==> exists|ki: int, q: u32|
                    0 <= ki < before.len() && #[trigger] before[ki].contains(q) && taken_out(
                        lists,
                        kis,
                        order@,
                        a as int,
                        b as int,
                        ki,
                        q,
                    ),
            decreases list.len() - b,
        {
            let ki = list[b];
            let ghost prev = tx_ring_sets@;
            let ghost was_reduced = anonymity_set_reduced;
            assert(lists[pk as int][b as int] == ki);
            if !closed_keyimage_set.contains(&ki) {
                let removed = tx_ring_sets[ki as usize].remove(&pk);
                if removed {
                    anonymity_set_reduced = true;
                }
                proof {
                    assert(taken_out(lists, kis, order@, a as int, b as int + 1, ki as int, pk));
                    assert(removed == prev[ki as int]@.contains(pk));
                    if removed {
                        assert(before[ki as int].contains(pk));
                    }
                }
            }
            proof {
                assert forall|k2: int, q: u32|
                    taken_out(lists, kis, order@, a as int, b as int + 1, k2, q) <==> (taken_out(
                        lists,
                        kis,
                        order@,
                        a as int,
                        b as int,
                        k2,
                        q,
                    ) || (q == pk && k2 == ki && !kis.contains(ki))) by {
                    if taken_out(lists, kis, order@, a as int, b as int + 1, k2, q) && !taken_out(
                        lists,
                        kis,
                        order@,
                        a as int,
                        b as int,
                        k2,
                        q,
                    ) {
                        let j = choose|j: int|
                            0 <= j < b + 1 && #[trigger] lists[q as int][j] == k2;
                        assert(j == b);
                    }
                    if taken_out(lists, kis, order@, a as int, b as int, k2, q) {
                        if order@[a as int] == q && exists|j: int|
                            0 <= j < b && #[trigger] lists[q as int][j] == k2 {
                            let j = choose|j: int| 0 <= j < b && #[trigger] lists[q as int][j] == k2;
                            assert(0 <= j < b + 1);
                        }
                    }
                }
                assert forall|k2: int, q: u32| 0 <= k2 < before.len() implies (
                #[trigger] tx_ring_sets@[k2]@.contains(q) <==> before[k2].contains(q) && !taken_out(
                    lists,
                    kis,
                    order@,
                    a as int,
                    b as int + 1,
                    k2,
                    q,
                )) by {
                    assert(prev[k2]@.contains(q) <==> before[k2].contains(q) && !taken_out(
                        lists,
                        kis,
                        order@,
                        a as int,
                        b as int,
                        k2,
                        q,
                    ));
                }
                if anonymity_set_reduced && !was_reduced {
                    assert(before[ki as int].contains(pk) && taken_out(
                        lists,
                        kis,
                        order@,
                        a as int,
                        b as int + 1,
                        ki as int,
                        pk,
                    ));
                }
                if was_reduced {
                    let (k2, q) = choose|k2: int, q: u32|
                        0 <= k2 < before.len() && #[trigger] before[k2].contains(q) && taken_out(
                            lists,
                            kis,
                            order@,
                            a as int,
                            b as int,
                            k2,
                            q,
                        );
                    assert(before[k2].contains(q) && taken_out(
                        lists,
                        kis,
                        order@,
                        a as int,
                        b as int + 1,
                        k2,
                        q,
                    ));
                }
                if !anonymity_set_reduced {
                    assert forall|k2: int, q: u32|
                        0 <= k2 < before.len() && #[trigger] before[k2].contains(q) implies !taken_out(
                        lists,
                        kis,
                        order@,
                        a as int,
                        b as int + 1,
                        k2,
                        q,
                    ) by {
                        if taken_out(lists, kis, order@, a as int, b as int + 1, k2, q) {
                            assert(!taken_out(lists, kis, order@, a as int, b as int, k2, q));
                            assert(q == pk && k2 == ki);
                            assert(prev[k2]@.contains(q));
                        }
                    }
                }
            }
            b += 1;
        }
        proof {
            assert forall|k2: int, q: u32|
                taken_out(lists, kis, order@, a as int, list@.len() as int, k2, q) <==> taken_out(
                    lists,
                    kis,
                    order@,
                    a as int + 1,
                    0,
                    k2,
                    q,
                ) by {
                if taken_out(lists, kis, order@, a as int, list@.len() as int, k2, q) {
                    if exists|x: int| 0 <= x < a && #[trigger] order@[x] == q {
                        let x = choose|x: int| 0 <= x < a && #[trigger] order@[x] == q;
                        assert(0 <= x < a + 1);
                    } else {
                        assert(order@[a as int] == q);
                    }
                }
                if taken_out(lists, kis, order@, a as int + 1, 0, k2, q) {
                    let x = choose|x: int| 0 <= x < a + 1 && #[trigger] order@[x] == q;
                    if x == a {
                        let j = choose|j: int|
                            0 <= j < lists[q as int].len() && #[trigger] lists[q as int][j] == k2;
                        assert(0 <= j < list@.len());
                    }
                }
            }
        }
        a += 1;
    }
    proof {
        let after = ring_sets(tx_ring_sets@);
        let want = closed_set_reduction(before, lists, kis, closed_pk_set@);
        assert forall|k2: int, q: u32|
            taken_out(lists, kis, order@, order@.len() as int, 0, k2, q) <==> (closed_pk_set@.contains(
                q,
            ) && !kis.contains(k2 as u32) && lists_key_image(lists, q, k2)) by {
            if closed_pk_set@.contains(q) {
                assert(order@.contains(q));
                let x = choose|x: int| 0 <= x < order@.len() && order@[x] == q;
                assert(order@[x] == q);
            }
            if taken_out(lists, kis, order@, order@.len() as int, 0, k2, q) {
                let x = choose|x: int| 0 <= x < order@.len() && #[trigger] order@[x] == q;
                assert(order@.contains(q));
            }
        }
        assert forall|k2: int| 0 <= k2 < before.len() implies after[k2] =~= want[k2] by {
            assert forall|q: u32| after[k2].contains(q) <==> want[k2].contains(q) by {
                assert(tx_ring_sets@[k2]@.contains(q) <==> before[k2].contains(q) && !taken_out(
                    lists,
                    kis,
                    order@,
                    order@.len() as int,
                    0,
                    k2,
                    q,
                ));
            }
        }
        assert(after =~= want);
        assert forall|k2: int| 0 <= k2 < after.len() implies (#[trigger] after[k2]).subset_of(
            before[k2],
        ) by {
            assert forall|q: u32| after[k2].contains(q) implies before[k2].contains(q) by {
                assert(tx_ring_sets@[k2]@.contains(q));
            }
        }
        if anonymity_set_reduced {
            let (k2, q) = choose|k2: int, q: u32|
                0 <= k2 < before.len() && #[trigger] before[k2].contains(q) && taken_out(
                    lists,
                    kis,
                    order@,
                    order@.len() as int,
                    0,
                    k2,
                    q,
                );
            assert(!tx_ring_sets@[k2]@.contains(q));
            assert(!after[k2].contains(q));
            assert(after != before);
        } else {
            assert forall|k2: int| 0 <= k2 < before.len() implies after[k2] =~= before[k2] by {
                assert forall|q: u32| after[k2].contains(q) <==> before[k2].contains(q) by {
                    assert(tx_ring_sets@[k2]@.contains(q) <==> before[k2].contains(q) && !taken_out(
                        lists,
                        kis,
                        order@,
                        order@.len() as int,
                        0,
                        k2,
                        q,
                    ));
                }
            }
            assert(after =~= before);
        }
    }
    anonymity_set_reduced
}

/// The key images and the public keys of each closed set, as sets.
pub open spec fn list_pairs(sets: Seq<(Vec<u32>, Vec<u32>)>) -> Seq<(Set<u32>, Set<u32>)> {
    Seq::new(sets.len(), |i: int| (sets[i].0@.to_set(), sets[i].1@.to_set()))
}

/// What the closed sets, applied one after the other, leave of the rings.
pub open spec fn reduction_by_all(
    rings: Seq<Set<u32>>,
    pk_to_ki: Seq<Seq<u32>>,
    sets: Seq<(Set<u32>, Set<u32>)>,
) -> Seq<Set<u32>>
    decreases sets.len(),
{
    if sets.len() == 0 {
        rings
    } else {
        closed_set_reduction(
            reduction_by_all(rings, pk_to_ki, sets.drop_last()),
            pk_to_ki,
            sets.last().0,
            sets.last().1,
        )
    }
}

/// Applies each closed set to the rings in turn, and says whether any ring
/// lost a member.
pub fn apply_closed_sets(
    closed_sets: &Vec<(Vec<u32>, Vec<u32>)>,
    tx_ring_sets: &mut Vec<HashSet<u32>>,
    pk_to_ki_map: &Vec<Vec<u32>>,
) -> (anonymity_set_reduced: bool)
    requires
        forall|i: int, j: int|
            0 <= i < closed_sets.len() && 0 <= j < closed_sets@[i].1.len() ==> (
            #[trigger] closed_sets@[i].1@[j]) < pk_to_ki_map.len(),
        lists_in_range(lists_of(pk_to_ki_map@), old(tx_ring_sets).len() as nat),
    ensures
        ring_sets(final(tx_ring_sets)@) == reduction_by_all(
            ring_sets(old(tx_ring_sets)@),
            lists_of(pk_to_ki_map@),
            list_pairs(closed_sets@),
        ),
        rings_within(ring_sets(final(tx_ring_sets)@), ring_sets(old(tx_ring_sets)@)),
        anonymity_set_reduced == (ring_sets(final(tx_ring_sets)@) != ring_sets(old(tx_ring_sets)@)),
{
    let ghost before = ring_sets(tx_ring_sets@);
    let ghost lists = lists_of(pk_to_ki_map@);
    let ghost pairs = list_pairs(closed_sets@);
    let mut anonymity_set_reduced = false;
    let mut i: usize = 0;
    proof {
        assert(pairs.take(0) =~= Seq::<(Set<u32>, Set<u32>)>::empty());
    }
    while i < closed_sets.len()
        invariant
            i <= closed_sets.len(),
            before == ring_sets(old(tx_ring_sets)@),
            lists == lists_of(pk_to_ki_map@),
            pairs == list_pairs(closed_sets@),
            tx_ring_sets.len() == before.len(),
            forall|a: int, j: int|
                0 <= a < closed_sets.len() && 0 <= j < closed_sets@[a].1.len() ==> (
                #[trigger] closed_sets@[a].1@[j]) < pk_to_ki_map.len(),
            lists_in_range(lists, before.len()),
            ring_sets(tx_ring_sets@) == reduction_by_all(before, lists, pairs.take(i as int)),
            rings_within(ring_sets(tx_ring_sets@), before),
            anonymity_set_reduced == (ring_sets(tx_ring_sets@) != before),
        decreases closed_sets.len() - i,
    {
        let ghost mid = ring_sets(tx_ring_sets@);
        let kis = set_of(&closed_sets[i].0);
        let pks = set_of(&closed_sets[i].1);
        proof {
            assert forall|pk: u32| #[trigger] pks@.contains(pk) implies pk < pk_to_ki_map.len() by {
                let j = choose|j: int|
                    0 <= j < closed_sets@[i as int].1@.len() && closed_sets@[i as int].1@[j] == pk;
                assert(closed_sets@[i as int].1@[j] < pk_to_ki_map.len());
            }
            assert forall|pk: u32, j: int|
                pks@.contains(pk) && 0 <= j < pk_to_ki_map@[pk as int].len() implies (
            #[trigger] pk_to_ki_map@[pk as int]@[j]) < tx_ring_sets.len() by {
                assert(lists[pk as int][j] < before.len());
            }
        }
        if remove_closed_set_pks(kis, pks, tx_ring_sets, pk_to_ki_map) {
            anonymity_set_reduced = true;
        }
        proof {
            assert(pairs.take(i + 1).drop_last() == pairs.take(i as int));
            assert(pairs.take(i + 1).last() == pairs[i as int]);
            crate::model::lemma_within_trans(ring_sets(tx_ring_sets@), mid, before);
        }
        i += 1;
    }
    proof {
        assert(pairs.take(closed_sets.len() as int) == pairs);
    }
    anonymity_set_reduced
}

} // verus!

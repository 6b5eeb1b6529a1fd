//! The cascade: zero-mixin chain reaction.
//!
//! A ring with a single member names the public key that its key image
//! spent, so no other key image spent it: the public key is struck from the
//! other rings, which may leave some of them with a single member in turn.

use vstd::prelude::*;
use std::collections::HashSet;
use crate::cascade_laws::{
    lemma_cascade_is_sound, lemma_cascade_within, lemma_traced_rings_are_single,
    traced_are_exclusive,
};
use crate::model::{
    is_assignment, lemma_rings_finite, lists_cover_rings, lists_in_range, lists_key_image,
    lists_of, ring_sets, rings_in_range, rings_within,
};
use crate::soundness::keeps_assignments;
use crate::sets::members;

verus! {

broadcast use vstd::std_specs::hash::group_hash_axioms;

/// The rings and the marks of the key images already traced.
pub struct Tracing {
    pub rings: Seq<Set<u32>>,
    pub traced: Seq<bool>,
}

/// What tracing `ki` leaves of the rings: the sole member of its ring is
/// struck from the ring of every other key image that the reverse list of
/// that public key names.
pub open spec fn strike(rings: Seq<Set<u32>>, pk_to_ki: Seq<Seq<u32>>, ki: int) -> Seq<Set<u32>> {
    let p = rings[ki].choose();
    Seq::new(
        rings.len(),
        |kj: int|
            if kj != ki && lists_key_image(pk_to_ki, p, kj) {
                rings[kj].remove(p)
            } else {
                rings[kj]
            },
    )
}

/// The scan comes to `ki`: a key image not traced yet whose ring has a
/// single member is traced.
pub open spec fn visit(s: Tracing, pk_to_ki: Seq<Seq<u32>>, ki: int) -> Tracing {
    if !s.traced[ki] && s.rings[ki].len() == 1 {
        Tracing { rings: strike(s.rings, pk_to_ki, ki), traced: s.traced.update(ki, true) }
    } else {
        s
    }
}

/// The scan of the key images `0 .. n`, in ascending order.
pub open spec fn scan(s: Tracing, pk_to_ki: Seq<Seq<u32>>, n: nat) -> Tracing
    decreases n,
{
    if n == 0 {
        s
    } else {
        visit(scan(s, pk_to_ki, (n - 1) as nat), pk_to_ki, n - 1)
    }
}

/// One iteration: the scan of all key images.
pub open spec fn iteration(s: Tracing, pk_to_ki: Seq<Seq<u32>>) -> Tracing {
    scan(s, pk_to_ki, s.rings.len())
}

/// The number of rings with a single member.
pub open spec fn count_singletons(rings: Seq<Set<u32>>) -> nat
    decreases rings.len(),
{
    if rings.len() == 0 {
        0
    } else {
        count_singletons(rings.drop_last()) + if rings.last().len() == 1 {
            1nat
        } else {
            0nat
        }
    }
}

/// How a cascade ends: the state reached, the number of iterations run, and
/// whether the last of them left the number of single-member rings as it
/// was.
pub struct CascadeEnd {
    pub state: Tracing,
    pub iterations: nat,
    pub converged: bool,
}

/// The cascade of at most `max_iters` iterations.  It ends with the first
/// iteration after which there are as many single-member rings as before.
pub open spec fn cascade_of(s: Tracing, pk_to_ki: Seq<Seq<u32>>, max_iters: nat) -> CascadeEnd
    decreases max_iters,
{
    if max_iters == 0 {
        CascadeEnd { state: s, iterations: 0, converged: false }
    } else {
        let t = iteration(s, pk_to_ki);
        if count_singletons(t.rings) == count_singletons(s.rings) {
            CascadeEnd { state: t, iterations: 1, converged: true }
        } else {
            let rest = cascade_of(t, pk_to_ki, (max_iters - 1) as nat);
            CascadeEnd { iterations: rest.iterations + 1, ..rest }
        }
    }
}

/// A finite set of one member holds nothing but what it holds.
pub proof fn lemma_sole_member(ring: Set<u32>, p: u32)
    requires
        ring.finite(),
        ring.len() == 1,
        ring.contains(p),
    ensures
        ring.choose() == p,
        ring =~= set![p],
{
    assert(ring.remove(p).len() == 0);
    assert(ring.remove(p) =~= Set::<u32>::empty());
    assert forall|q: u32| ring.contains(q) implies q == p by {
        if q != p {
            assert(ring.remove(p).contains(q));
        }
    }
    assert(ring.contains(ring.choose()));
}

/// The number of rings with a single member.
fn count_single_rings(tx_ring_sets: &Vec<HashSet<u32>>) -> (count: usize)
    ensures
        count == count_singletons(ring_sets(tx_ring_sets@)),
{
    let ghost rings = ring_sets(tx_ring_sets@);
    let mut count: usize = 0;
    let mut i: usize = 0;
    while i < tx_ring_sets.len()
        invariant
            i <= tx_ring_sets.len(),
            rings == ring_sets(tx_ring_sets@),
            count <= i,
            count == count_singletons(rings.take(i as int)),
        decreases tx_ring_sets.len() - i,
    {
        proof {
            assert(rings.take(i as int + 1).drop_last() == rings.take(i as int));
            assert(rings.take(i as int + 1).last() == tx_ring_sets@[i as int]@);
        }
        if tx_ring_sets[i].len() == 1 {
            count += 1;
        }
        i += 1;
    }
    proof {
        assert(rings.take(tx_ring_sets.len() as int) == rings);
    }
    count
}

/// Traces the key image `ki`, whose ring has a single member.
fn trace_key_image(
    tx_ring_sets: &mut Vec<HashSet<u32>>,
    pk_to_ki_map: &Vec<Vec<u32>>,
    ki: usize,
)
    requires
        ki < old(tx_ring_sets).len(),
        old(tx_ring_sets)@[ki as int]@.len() == 1,
        rings_in_range(ring_sets(old(tx_ring_sets)@), pk_to_ki_map.len() as nat),
        lists_in_range(lists_of(pk_to_ki_map@), old(tx_ring_sets).len() as nat),
    ensures
        ring_sets(final(tx_ring_sets)@) == strike(
            ring_sets(old(tx_ring_sets)@),
            lists_of(pk_to_ki_map@),
            ki as int,
        ),
{
    let ghost before = ring_sets(tx_ring_sets@);
    let ghost lists = lists_of(pk_to_ki_map@);
    let sole = members(&tx_ring_sets[ki]);
    let traced_pk = sole[0];
    proof {
        assert(sole@.to_set().contains(sole@[0]));
        assert(before[ki as int].contains(traced_pk));
        lemma_sole_member(before[ki as int], traced_pk);
    }
    let list = &pk_to_ki_map[traced_pk as usize];
    let mut b: usize = 0;
    while b < list.len()
        invariant
            b <= list.len(),
            ki < tx_ring_sets.len(),
            tx_ring_sets.len() == before.len(),
            traced_pk < pk_to_ki_map.len(),
            list@ == lists[traced_pk as int],
            lists == lists_of(pk_to_ki_map@),
            lists_in_range(lists, before.len()),
            forall|kj: int|
                0 <= kj < before.len() ==> #[trigger] tx_ring_sets@[kj]@ == (if kj != ki && (exists|j: int|
                    0 <= j < b && #[trigger] list@[j] == kj) {
                    before[kj].remove(traced_pk)
                } else {
                    before[kj]
                }),
        decreases list.len() - b,
    {
        let kj = list[b];
        let ghost prev = tx_ring_sets@;
        assert(lists[traced_pk as int][b as int] < before.len());
        if kj as usize != ki {
            tx_ring_sets[kj as usize].remove(&traced_pk);
        }
        proof {
            assert forall|k2: int| 0 <= k2 < before.len() implies #[trigger] tx_ring_sets@[k2]@ == (if k2
                != ki && (exists|j: int| 0 <= j < b + 1 && #[trigger] list@[j] == k2) {
                before[k2].remove(traced_pk)
            } else {
                before[k2]
            }) by {
                let was = exists|j: int| 0 <= j < b && #[trigger] list@[j] == k2;
                let is = exists|j: int| 0 <= j < b + 1 && #[trigger] list@[j] == k2;
                assert(prev[k2]@ == (if k2 != ki && was {
                    before[k2].remove(traced_pk)
                } else {
                    before[k2]
                }));
                if was {
                    let j = choose|j: int| 0 <= j < b && #[trigger] list@[j] == k2;
                    assert(0 <= j < b + 1 && list@[j] == k2);
                }
                if k2 == kj {
                    assert(list@[b as int] == k2);
                    assert(before[k2].remove(traced_pk).remove(traced_pk) =~= before[k2].remove(
                        traced_pk,
                    ));
                } else if is {
                    let j = choose|j: int| 0 <= j < b + 1 && #[trigger] list@[j] == k2;
                    assert(j < b);
                }
            }
        }
        b += 1;
    }
    proof {
        let after = ring_sets(tx_ring_sets@);
        let want = strike(before, lists, ki as int);
        assert forall|kj: int| 0 <= kj < before.len() implies after[kj] == want[kj] by {
            assert(tx_ring_sets@[kj]@ == (if kj != ki && (exists|j: int|
                0 <= j < list@.len() && #[trigger] list@[j] == kj) {
                before[kj].remove(traced_pk)
            } else {
                before[kj]
            }));
            if exists|j: int| 0 <= j < list@.len() && #[trigger] list@[j] == kj {
                let j = choose|j: int| 0 <= j < list@.len() && #[trigger] list@[j] == kj;
                assert(lists[traced_pk as int][j] == kj);
            }
        }
        assert(after =~= want);
    }
}

/// Striking keeps the number of rings, and keeps every ring within what it
/// was.
pub proof fn lemma_strike_within(rings: Seq<Set<u32>>, pk_to_ki: Seq<Seq<u32>>, ki: int)
    ensures
        strike(rings, pk_to_ki, ki).len() == rings.len(),
        forall|kj: int|
            0 <= kj < rings.len() ==> (#[trigger] strike(rings, pk_to_ki, ki)[kj]).subset_of(
                rings[kj],
            ),
{
}

/// One iteration of the cascade over the rings.
fn cascade_iteration(
    tx_ring_sets: &mut Vec<HashSet<u32>>,
    pk_to_ki_map: &Vec<Vec<u32>>,
    tx_ring_traced: &mut Vec<bool>,
)
    requires
        old(tx_ring_traced).len() == old(tx_ring_sets).len(),
        rings_in_range(ring_sets(old(tx_ring_sets)@), pk_to_ki_map.len() as nat),
        lists_in_range(lists_of(pk_to_ki_map@), old(tx_ring_sets).len() as nat),
    ensures
        final(tx_ring_traced).len() == final(tx_ring_sets).len(),
        final(tx_ring_sets).len() == old(tx_ring_sets).len(),
        rings_in_range(ring_sets(final(tx_ring_sets)@), pk_to_ki_map.len() as nat),
        (Tracing { rings: ring_sets(final(tx_ring_sets)@), traced: final(tx_ring_traced)@ })
            == iteration(
            Tracing { rings: ring_sets(old(tx_ring_sets)@), traced: old(tx_ring_traced)@ },
            lists_of(pk_to_ki_map@),
        ),
{
    let ghost start = Tracing { rings: ring_sets(tx_ring_sets@), traced: tx_ring_traced@ };
    let ghost lists = lists_of(pk_to_ki_map@);
    let num_kis = tx_ring_sets.len();
    let mut i: usize = 0;
    while i < num_kis
        invariant
            i <= num_kis,
            num_kis == start.rings.len(),
            tx_ring_sets.len() == num_kis,
            tx_ring_traced.len() == num_kis,
            lists == lists_of(pk_to_ki_map@),
            rings_in_range(ring_sets(tx_ring_sets@), pk_to_ki_map.len() as nat),
            lists_in_range(lists, num_kis as nat),
            (Tracing { rings: ring_sets(tx_ring_sets@), traced: tx_ring_traced@ }) == scan(
                start,
                lists,
                i as nat,
            ),
        decreases num_kis - i,
    {
        let ghost now = Tracing { rings: ring_sets(tx_ring_sets@), traced: tx_ring_traced@ };
        if !tx_ring_traced[i] && tx_ring_sets[i].len() == 1 {
            trace_key_image(tx_ring_sets, pk_to_ki_map, i);
            tx_ring_traced.set(i, true);
            proof {
                lemma_strike_within(now.rings, lists, i as int);
                assert(rings_in_range(ring_sets(tx_ring_sets@), pk_to_ki_map.len() as nat)) by {
                    assert forall|ki: int, pk: u32|
                        0 <= ki < tx_ring_sets.len() && #[trigger] ring_sets(
                            tx_ring_sets@,
                        )[ki].contains(pk) implies pk < pk_to_ki_map.len() by {
                        assert(strike(now.rings, lists, i as int)[ki].subset_of(now.rings[ki]));
                        assert(now.rings[ki].contains(pk));
                    }
                }
            }
        }
        proof {
            assert((Tracing { rings: ring_sets(tx_ring_sets@), traced: tx_ring_traced@ }) == visit(
                now,
                lists,
                i as int,
            ));
        }
        i += 1;
    }
}

/// Runs the cascade on the rings for at most `num_iterations` iterations,
/// and returns the number of iterations run and whether the cascade
/// converged.
///
/// Each iteration scans the key images in ascending order.  A key image not
/// yet marked in `tx_ring_traced` whose ring has a single member is traced:
/// that public key is struck from the rings of the other key images that its
/// reverse list names, and the key image is marked.  A ring that loses
/// members early in a scan is seen with what is left of it later in the same
/// scan.  The cascade has converged when an iteration leaves the number of
/// single-member rings as it was.
///
/// No ring gains a member, and every assignment of the rings is kept.  Where
/// the reverse lists cover the rings, the ring of every marked key image has
/// a single member that no other ring holds.
pub fn cascade(
    tx_ring_sets: &mut Vec<HashSet<u32>>,
    pk_to_ki_map: &Vec<Vec<u32>>,
    tx_ring_traced: &mut Vec<bool>,
    num_iterations: u32,
) -> (end: (u32, bool))
    requires
        old(tx_ring_traced).len() == old(tx_ring_sets).len(),
        rings_in_range(ring_sets(old(tx_ring_sets)@), pk_to_ki_map.len() as nat),
        lists_in_range(lists_of(pk_to_ki_map@), old(tx_ring_sets).len() as nat),
    ensures
        final(tx_ring_sets).len() == old(tx_ring_sets).len(),
        final(tx_ring_traced).len() == old(tx_ring_traced).len(),
        rings_within(ring_sets(final(tx_ring_sets)@), ring_sets(old(tx_ring_sets)@)),
        keeps_assignments(ring_sets(old(tx_ring_sets)@), ring_sets(final(tx_ring_sets)@)),
        lists_cover_rings(ring_sets(old(tx_ring_sets)@), lists_of(pk_to_ki_map@))
            && traced_are_exclusive(
            Tracing { rings: ring_sets(old(tx_ring_sets)@), traced: old(tx_ring_traced)@ },
        ) ==> traced_are_exclusive(
            Tracing { rings: ring_sets(final(tx_ring_sets)@), traced: final(tx_ring_traced)@ },
        ),
        (CascadeEnd {
            state: Tracing {
                rings: ring_sets(final(tx_ring_sets)@),
                traced: final(tx_ring_traced)@,
            },
            iterations: end.0 as nat,
            converged: end.1,
        }) == cascade_of(
            Tracing { rings: ring_sets(old(tx_ring_sets)@), traced: old(tx_ring_traced)@ },
            lists_of(pk_to_ki_map@),
            num_iterations as nat,
        ),
{
    let ghost start = Tracing { rings: ring_sets(tx_ring_sets@), traced: tx_ring_traced@ };
    let ghost lists = lists_of(pk_to_ki_map@);
    let mut prev_num_traceable_rings = count_single_rings(tx_ring_sets);
    let mut iter_index: u32 = 0;
    let mut converged = false;
    while iter_index < num_iterations && !converged
        invariant
            iter_index <= num_iterations,
            tx_ring_sets.len() == start.rings.len(),
            tx_ring_traced.len() == tx_ring_sets.len(),
            lists == lists_of(pk_to_ki_map@),
            rings_in_range(ring_sets(tx_ring_sets@), pk_to_ki_map.len() as nat),
            lists_in_range(lists, tx_ring_sets.len() as nat),
            prev_num_traceable_rings == count_singletons(ring_sets(tx_ring_sets@)),
            converged ==> cascade_of(start, lists, num_iterations as nat) == (CascadeEnd {
                state: Tracing { rings: ring_sets(tx_ring_sets@), traced: tx_ring_traced@ },
                iterations: iter_index as nat,
                converged: true,
            }),
            !converged ==> cascade_of(start, lists, num_iterations as nat) == ({
                let rest = cascade_of(
                    Tracing { rings: ring_sets(tx_ring_sets@), traced: tx_ring_traced@ },
                    lists,
                    (num_iterations - iter_index) as nat,
                );
                CascadeEnd { iterations: rest.iterations + iter_index as nat, ..rest }
            }),
        decreases num_iterations - iter_index + if converged { 0int } else { 1int },
    {
        let ghost now = Tracing { rings: ring_sets(tx_ring_sets@), traced: tx_ring_traced@ };
        cascade_iteration(tx_ring_sets, pk_to_ki_map, tx_ring_traced);
        let num_traceable_rings = count_single_rings(tx_ring_sets);
        iter_index += 1;
        if prev_num_traceable_rings == num_traceable_rings {
            converged = true;
        }
        prev_num_traceable_rings = num_traceable_rings;
    }
    proof {
        lemma_rings_finite(old(tx_ring_sets)@);
        lemma_cascade_within(start, lists, num_iterations as nat);
        assert forall|spent: Seq<u32>| #[trigger] is_assignment(start.rings, spent) implies is_assignment(
            ring_sets(tx_ring_sets@),
            spent,
        ) by {
            lemma_cascade_is_sound(start, lists, num_iterations as nat, spent);
        }
        if lists_cover_rings(start.rings, lists) && traced_are_exclusive(start) {
            lemma_traced_rings_are_single(start, lists, num_iterations as nat);
        }
    }
    (iter_index, converged)
}

} // verus!

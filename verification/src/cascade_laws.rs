//! What holds of every cascade.

use vstd::prelude::*;
use crate::cascade::{
    cascade_of, count_singletons, iteration, lemma_sole_member, scan, visit, Tracing,
};
use crate::model::{
    is_assignment, lists_cover_rings, lists_key_image, rings_finite, rings_within,
};
use crate::soundness::lemma_single_rings_persist;

verus! {

/// The state of a cascade is well formed: one mark for each ring, and every
/// ring finite.
pub open spec fn tracing_ok(s: Tracing) -> bool {
    s.traced.len() == s.rings.len() && rings_finite(s.rings)
}

/// The ring of every traced key image has a single member, which no other
/// ring holds.
pub open spec fn traced_are_exclusive(s: Tracing) -> bool {
    forall|ki: int|
        0 <= ki < s.rings.len() && #[trigger] s.traced[ki] ==> s.rings[ki].len() == 1 && forall|
            kj: int,
        |
            0 <= kj < s.rings.len() && kj != ki ==> !(#[trigger] s.rings[kj]).contains(
                s.rings[ki].choose(),
            )
}

/// No mark is taken back.
pub open spec fn marks_kept(before: Seq<bool>, after: Seq<bool>) -> bool {
    before.len() == after.len() && forall|k: int|
        0 <= k < before.len() && #[trigger] before[k] ==> after[k]
}

/// A visit keeps the state well formed and the rings within what they were.
pub proof fn lemma_visit_within(s: Tracing, pk_to_ki: Seq<Seq<u32>>, ki: int)
    requires
        tracing_ok(s),
        0 <= ki < s.rings.len(),
    ensures
        tracing_ok(visit(s, pk_to_ki, ki)),
        rings_within(visit(s, pk_to_ki, ki).rings, s.rings),
        marks_kept(s.traced, visit(s, pk_to_ki, ki).traced),
        s.rings[ki].len() == 1 ==> visit(s, pk_to_ki, ki).traced[ki],
{
    let t = visit(s, pk_to_ki, ki);
    assert forall|k: int| 0 <= k < t.rings.len() implies (#[trigger] t.rings[k]).subset_of(
        s.rings[k],
    ) && t.rings[k].finite() by {
        assert(s.rings[k].finite());
    }
}

/// A visit keeps every assignment.
pub proof fn lemma_visit_sound(s: Tracing, pk_to_ki: Seq<Seq<u32>>, ki: int, spent: Seq<u32>)
    requires
        tracing_ok(s),
        0 <= ki < s.rings.len(),
        is_assignment(s.rings, spent),
    ensures
        is_assignment(visit(s, pk_to_ki, ki).rings, spent),
{
    let t = visit(s, pk_to_ki, ki);
    if !s.traced[ki] && s.rings[ki].len() == 1 {
        assert(s.rings[ki].finite());
        assert(s.rings[ki].contains(spent[ki]));
        lemma_sole_member(s.rings[ki], spent[ki]);
        assert forall|k: int| 0 <= k < t.rings.len() implies t.rings[k].contains(
            #[trigger] spent[k],
        ) by {
            assert(s.rings[k].contains(spent[k]));
            if k != ki {
                if k < ki {
                    assert(spent[k] != spent[ki]);
                } else {
                    assert(spent[ki] != spent[k]);
                }
            }
        }
    }
}

/// Where the reverse lists cover the rings, a visit keeps the traced key
/// images exclusive.
pub proof fn lemma_visit_exclusive(s: Tracing, pk_to_ki: Seq<Seq<u32>>, ki: int)
    requires
        tracing_ok(s),
        0 <= ki < s.rings.len(),
        lists_cover_rings(s.rings, pk_to_ki),
        traced_are_exclusive(s),
    ensures
        lists_cover_rings(visit(s, pk_to_ki, ki).rings, pk_to_ki),
        traced_are_exclusive(visit(s, pk_to_ki, ki)),
{
    let t = visit(s, pk_to_ki, ki);
    lemma_visit_within(s, pk_to_ki, ki);
    assert(lists_cover_rings(t.rings, pk_to_ki)) by {
        assert forall|k: int, pk: u32| 0 <= k < t.rings.len() && #[trigger] t.rings[k].contains(
            pk,
        ) implies lists_key_image(pk_to_ki, pk, k) by {
            assert(t.rings[k].subset_of(s.rings[k]));
            assert(s.rings[k].contains(pk));
        }
    }
    if !s.traced[ki] && s.rings[ki].len() == 1 {
        let p = s.rings[ki].choose();
        assert(s.rings[ki].finite());
        assert(s.rings[ki].contains(p)) by {
            if s.rings[ki] =~= Set::<u32>::empty() {
            }
        }
        assert forall|k: int| 0 <= k < t.rings.len() && #[trigger] t.traced[k] implies t.rings[k].len()
            == 1 && forall|kj: int|
            0 <= kj < t.rings.len() && kj != k ==> !(#[trigger] t.rings[kj]).contains(
                t.rings[k].choose(),
            ) by {
            if k == ki {
                assert(t.rings[k] == s.rings[k]);
                assert forall|kj: int| 0 <= kj < t.rings.len() && kj != k implies !(
                #[trigger] t.rings[kj]).contains(p) by {
                    if s.rings[kj].contains(p) {
                        assert(lists_key_image(pk_to_ki, p, kj));
                    }
                }
            } else {
                assert(s.traced[k]);
                let q = s.rings[k].choose();
                assert(s.rings[k].finite());
                assert(s.rings[k].contains(q)) by {
                    if s.rings[k] =~= Set::<u32>::empty() {
                    }
                }
                assert(!s.rings[ki].contains(q));
                assert(q != p);
                assert(t.rings[k] =~= s.rings[k]) by {
                    lemma_sole_member(s.rings[k], q);
                }
                assert forall|kj: int| 0 <= kj < t.rings.len() && kj != k implies !(
                #[trigger] t.rings[kj]).contains(q) by {
                    assert(t.rings[kj].subset_of(s.rings[kj]));
                    assert(!s.rings[kj].contains(q));
                }
            }
        }
    }
}

/// A scan keeps the state well formed and the rings within what they were,
/// and marks every key image it comes to with a single-member ring.
pub proof fn lemma_scan_within(s: Tracing, pk_to_ki: Seq<Seq<u32>>, n: nat)
    requires
        tracing_ok(s),
        n <= s.rings.len(),
    ensures
        tracing_ok(scan(s, pk_to_ki, n)),
        scan(s, pk_to_ki, n).rings.len() == s.rings.len(),
        rings_within(scan(s, pk_to_ki, n).rings, s.rings),
        marks_kept(s.traced, scan(s, pk_to_ki, n).traced),
    decreases n,
{
    if n > 0 {
        let u = scan(s, pk_to_ki, (n - 1) as nat);
        lemma_scan_within(s, pk_to_ki, (n - 1) as nat);
        lemma_visit_within(u, pk_to_ki, n - 1);
        crate::model::lemma_within_trans(visit(u, pk_to_ki, n - 1).rings, u.rings, s.rings);
    }
}

/// A scan keeps every assignment.
pub proof fn lemma_scan_sound(s: Tracing, pk_to_ki: Seq<Seq<u32>>, n: nat, spent: Seq<u32>)
    requires
        tracing_ok(s),
        n <= s.rings.len(),
        is_assignment(s.rings, spent),
    ensures
        is_assignment(scan(s, pk_to_ki, n).rings, spent),
    decreases n,
{
    if n > 0 {
        let u = scan(s, pk_to_ki, (n - 1) as nat);
        lemma_scan_within(s, pk_to_ki, (n - 1) as nat);
        lemma_scan_sound(s, pk_to_ki, (n - 1) as nat, spent);
        lemma_visit_sound(u, pk_to_ki, n - 1, spent);
    }
}

/// Where the reverse lists cover the rings, a scan keeps the traced key
/// images exclusive.
pub proof fn lemma_scan_exclusive(s: Tracing, pk_to_ki: Seq<Seq<u32>>, n: nat)
    requires
        tracing_ok(s),
        n <= s.rings.len(),
        lists_cover_rings(s.rings, pk_to_ki),
        traced_are_exclusive(s),
    ensures
        lists_cover_rings(scan(s, pk_to_ki, n).rings, pk_to_ki),
        traced_are_exclusive(scan(s, pk_to_ki, n)),
    decreases n,
{
    if n > 0 {
        let u = scan(s, pk_to_ki, (n - 1) as nat);
        lemma_scan_within(s, pk_to_ki, (n - 1) as nat);
        lemma_scan_exclusive(s, pk_to_ki, (n - 1) as nat);
        lemma_visit_exclusive(u, pk_to_ki, n - 1);
    }
}

/// The rings of a cascade lie within the rings it started from.
pub proof fn lemma_cascade_within(s: Tracing, pk_to_ki: Seq<Seq<u32>>, max_iters: nat)
    requires
        tracing_ok(s),
    ensures
        tracing_ok(cascade_of(s, pk_to_ki, max_iters).state),
        rings_within(cascade_of(s, pk_to_ki, max_iters).state.rings, s.rings),
        marks_kept(s.traced, cascade_of(s, pk_to_ki, max_iters).state.traced),
    decreases max_iters,
{
    if max_iters > 0 {
        let t = iteration(s, pk_to_ki);
        lemma_scan_within(s, pk_to_ki, s.rings.len());
        if count_singletons(t.rings) != count_singletons(s.rings) {
            lemma_cascade_within(t, pk_to_ki, (max_iters - 1) as nat);
            crate::model::lemma_within_trans(
                cascade_of(t, pk_to_ki, (max_iters - 1) as nat).state.rings,
                t.rings,
                s.rings,
            );
        }
    } else {
        assert(rings_within(s.rings, s.rings));
    }
}

/// Soundness of the cascade: it keeps every assignment.
pub proof fn lemma_cascade_is_sound(
    s: Tracing,
    pk_to_ki: Seq<Seq<u32>>,
    max_iters: nat,
    spent: Seq<u32>,
)
    requires
        tracing_ok(s),
        is_assignment(s.rings, spent),
    ensures
        is_assignment(cascade_of(s, pk_to_ki, max_iters).state.rings, spent),
    decreases max_iters,
{
    if max_iters > 0 {
        let t = iteration(s, pk_to_ki);
        lemma_scan_within(s, pk_to_ki, s.rings.len());
        lemma_scan_sound(s, pk_to_ki, s.rings.len(), spent);
        if count_singletons(t.rings) != count_singletons(s.rings) {
            lemma_cascade_is_sound(t, pk_to_ki, (max_iters - 1) as nat, spent);
        }
    }
}

/// After a cascade, the ring of every traced key image has a single
/// member, which no other ring holds: provided that the reverse lists cover
/// the rings, and that this held of the key images marked at the start.
pub proof fn lemma_traced_rings_are_single(s: Tracing, pk_to_ki: Seq<Seq<u32>>, max_iters: nat)
    requires
        tracing_ok(s),
        lists_cover_rings(s.rings, pk_to_ki),
        traced_are_exclusive(s),
    ensures
        traced_are_exclusive(cascade_of(s, pk_to_ki, max_iters).state),
        forall|ki: int|
            0 <= ki < s.rings.len() && #[trigger] cascade_of(s, pk_to_ki, max_iters).state.traced[ki]
                ==> cascade_of(s, pk_to_ki, max_iters).state.rings[ki].len() == 1,
    decreases max_iters,
{
    lemma_cascade_within(s, pk_to_ki, max_iters);
    lemma_cascade_exclusive(s, pk_to_ki, max_iters);
}

/// Where the reverse lists cover the rings, a cascade keeps the traced key
/// images exclusive.
proof fn lemma_cascade_exclusive(s: Tracing, pk_to_ki: Seq<Seq<u32>>, max_iters: nat)
    requires
        tracing_ok(s),
        lists_cover_rings(s.rings, pk_to_ki),
        traced_are_exclusive(s),
    ensures
        lists_cover_rings(cascade_of(s, pk_to_ki, max_iters).state.rings, pk_to_ki),
        traced_are_exclusive(cascade_of(s, pk_to_ki, max_iters).state),
    decreases max_iters,
{
    if max_iters > 0 {
        let t = iteration(s, pk_to_ki);
        lemma_scan_within(s, pk_to_ki, s.rings.len());
        lemma_scan_exclusive(s, pk_to_ki, s.rings.len());
        if count_singletons(t.rings) != count_singletons(s.rings) {
            lemma_cascade_exclusive(t, pk_to_ki, (max_iters - 1) as nat);
        }
    }
}

/// Every ring that had a single member before a cascade has it after:
/// provided that the rings have an assignment.
pub proof fn lemma_cascade_keeps_single_rings(
    s: Tracing,
    pk_to_ki: Seq<Seq<u32>>,
    max_iters: nat,
    spent: Seq<u32>,
    ki: int,
)
    requires
        tracing_ok(s),
        is_assignment(s.rings, spent),
        0 <= ki < s.rings.len(),
        s.rings[ki].len() == 1,
    ensures
        cascade_of(s, pk_to_ki, max_iters).state.rings[ki] == s.rings[ki],
{
    lemma_cascade_within(s, pk_to_ki, max_iters);
    lemma_cascade_is_sound(s, pk_to_ki, max_iters, spent);
    lemma_single_rings_persist(
        cascade_of(s, pk_to_ki, max_iters).state.rings,
        s.rings,
        spent,
        ki,
    );
}

/// A scan of `n` key images marks each of them that had a single-member
/// ring at the start, where the rings have an assignment.
proof fn lemma_scan_marks_single_rings(
    s: Tracing,
    pk_to_ki: Seq<Seq<u32>>,
    n: nat,
    spent: Seq<u32>,
    k: int,
)
    requires
        tracing_ok(s),
        n <= s.rings.len(),
        is_assignment(s.rings, spent),
        0 <= k < n,
        s.rings[k].len() == 1,
    ensures
        scan(s, pk_to_ki, n).traced[k],
    decreases n,
{
    let u = scan(s, pk_to_ki, (n - 1) as nat);
    lemma_scan_within(s, pk_to_ki, (n - 1) as nat);
    lemma_scan_sound(s, pk_to_ki, (n - 1) as nat, spent);
    lemma_visit_within(u, pk_to_ki, n - 1);
    if k == n - 1 {
        lemma_single_rings_persist(u.rings, s.rings, spent, k);
    } else {
        lemma_scan_marks_single_rings(s, pk_to_ki, (n - 1) as nat, spent, k);
    }
}

/// Where rings lie within others and no ring is empty, there are at least
/// as many single-member rings after as before; and where there are as
/// many, they are the same.
proof fn lemma_same_count(after: Seq<Set<u32>>, before: Seq<Set<u32>>, spent: Seq<u32>)
    requires
        rings_within(after, before),
        rings_finite(before),
        is_assignment(after, spent),
    ensures
        count_singletons(before) <= count_singletons(after),
        count_singletons(before) == count_singletons(after) ==> forall|k: int|
            0 <= k < after.len() && (#[trigger] after[k]).len() == 1 ==> before[k].len() == 1,
    decreases before.len(),
{
    if before.len() > 0 {
        let a = after.drop_last();
        let b = before.drop_last();
        let sp = spent.drop_last();
        let n = before.len() - 1;
        assert(rings_within(a, b)) by {
            assert forall|k: int| 0 <= k < a.len() implies (#[trigger] a[k]).subset_of(b[k]) by {
                assert(after[k].subset_of(before[k]));
            }
        }
        assert(rings_finite(b)) by {
            assert forall|k: int| 0 <= k < b.len() implies (#[trigger] b[k]).finite() by {
                assert(before[k].finite());
            }
        }
        assert(is_assignment(a, sp)) by {
            assert forall|k: int| 0 <= k < a.len() implies a[k].contains(#[trigger] sp[k]) by {
                assert(after[k].contains(spent[k]));
            }
            assert forall|x: int, y: int| 0 <= x < y < sp.len() implies #[trigger] sp[x]
                != #[trigger] sp[y] by {
                assert(spent[x] != spent[y]);
            }
        }
        lemma_same_count(a, b, sp);
        if before[n].len() == 1 {
            lemma_single_rings_persist(after, before, spent, n);
        }
        if count_singletons(before) == count_singletons(after) {
            assert forall|k: int| 0 <= k < after.len() && (#[trigger] after[k]).len()
                == 1 implies before[k].len() == 1 by {
                if k < n {
                    assert(a[k] == after[k]);
                    assert(b[k] == before[k]);
                }
            }
        }
    }
}

/// A scan of a state in which every single-member ring is marked changes
/// nothing.
proof fn lemma_scan_idle(s: Tracing, pk_to_ki: Seq<Seq<u32>>, n: nat)
    requires
        n <= s.rings.len(),
        forall|k: int| 0 <= k < s.rings.len() && (#[trigger] s.rings[k]).len() == 1 ==> s.traced[k],
    ensures
        scan(s, pk_to_ki, n) == s,
    decreases n,
{
    if n > 0 {
        lemma_scan_idle(s, pk_to_ki, (n - 1) as nat);
        assert(s.rings[n - 1].len() == 1 ==> s.traced[n - 1]);
    }
}

/// An iteration that leaves the number of single-member rings as it was has
/// reached a state that a further iteration leaves as it is: provided that
/// the rings have an assignment.
pub proof fn lemma_quiet_iteration_is_last(s: Tracing, pk_to_ki: Seq<Seq<u32>>, spent: Seq<u32>)
    requires
        tracing_ok(s),
        is_assignment(s.rings, spent),
        count_singletons(iteration(s, pk_to_ki).rings) == count_singletons(s.rings),
    ensures
        iteration(iteration(s, pk_to_ki), pk_to_ki) == iteration(s, pk_to_ki),
{
    let t = iteration(s, pk_to_ki);
    lemma_scan_within(s, pk_to_ki, s.rings.len());
    lemma_scan_sound(s, pk_to_ki, s.rings.len(), spent);
    lemma_same_count(t.rings, s.rings, spent);
    assert forall|k: int| 0 <= k < t.rings.len() && (#[trigger] t.rings[k]).len()
        == 1 implies t.traced[k] by {
        assert(s.rings[k].len() == 1);
        lemma_scan_marks_single_rings(s, pk_to_ki, s.rings.len(), spent, k);
    }
    lemma_scan_idle(t, pk_to_ki, t.rings.len());
}

/// Idempotence of the cascade at its fixpoint: a further iteration after a
/// cascade that converged changes nothing, provided that the rings have an
/// assignment.
pub proof fn lemma_converged_cascade_is_fixpoint(
    s: Tracing,
    pk_to_ki: Seq<Seq<u32>>,
    max_iters: nat,
    spent: Seq<u32>,
)
    requires
        tracing_ok(s),
        is_assignment(s.rings, spent),
        cascade_of(s, pk_to_ki, max_iters).converged,
    ensures
        iteration(cascade_of(s, pk_to_ki, max_iters).state, pk_to_ki) == cascade_of(
            s,
            pk_to_ki,
            max_iters,
        ).state,
    decreases max_iters,
{
    if max_iters > 0 {
        let t = iteration(s, pk_to_ki);
        if count_singletons(t.rings) == count_singletons(s.rings) {
            lemma_quiet_iteration_is_last(s, pk_to_ki, spent);
        } else {
            lemma_scan_within(s, pk_to_ki, s.rings.len());
            lemma_scan_sound(s, pk_to_ki, s.rings.len(), spent);
            lemma_converged_cascade_is_fixpoint(t, pk_to_ki, (max_iters - 1) as nat, spent);
        }
    }
}

} // verus!

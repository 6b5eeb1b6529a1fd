//! The Dulmage-Mendelsohn decomposition of the transaction graph.
//!
//! A maximum matching of the whole graph is computed.  The public keys and
//! key images that alternating walks reach from the unmatched public keys
//! are set apart; what is left is a square block, perfectly matched, whose
//! fine decomposition into strongly connected components gives the
//! irreducible closed sets.

use vstd::prelude::*;
use crate::matching::{
    admits_no_augmentation, cn_txgraph_maximum_matching, column_matched, is_matching, is_tight,
    CscGraph, UNMATCHED,
};
use crate::sets::{lemma_set_flag, lemma_unset_finite, unset};
use petgraph::graphmap::GraphMap;
use petgraph::Directed;
use crate::graphs::{
    digraph_add_edge, digraph_add_node, digraph_edges, digraph_new, digraph_nodes,
    digraph_tarjan_scc, is_scc_decomposition, sets_of,
};
use std::collections::HashSet;
use crate::closed_set::{apply_closed_sets, list_pairs, reduction_by_all};
use crate::dm_laws::{
    edge_rings, lemma_decomposition_is_sound, lemma_refused_rings_have_no_assignment,
    mates_are_adjacent, rings_match_graph,
};
use crate::exactness::{lemma_decomposition_is_exact, lemma_mates_are_assignment, possible_spends};
use crate::error::Error;
use crate::loader::{are_rings_of, public_keys_at, rings_from_edges};
use crate::model::{lists_of, ring_sets, rings_within};
use crate::sets::copy_of;
use crate::soundness::{has_assignment, keeps_assignments};
use crate::sets::{copy_list, count_unset};
use crate::sparse::{csc_from_triplets, csr_from_triplets, is_triplet, CsrGraph};

verus! {

broadcast use vstd::std_specs::hash::group_hash_axioms;

/// `ki_mates` is the inverse of the matching `pk_mates`: it gives each
/// matched key image its public key.
pub open spec fn is_inverse_matching(pk_mates: Seq<u32>, ki_mates: Seq<u32>) -> bool {
    &&& forall|c: int|
        0 <= c < ki_mates.len() && #[trigger] ki_mates[c] != UNMATCHED ==> ki_mates[c]
            < pk_mates.len() && pk_mates[ki_mates[c] as int] == c
    &&& forall|r: int|
        0 <= r < pk_mates.len() && #[trigger] pk_mates[r] != UNMATCHED ==> pk_mates[r]
            < ki_mates.len() && ki_mates[pk_mates[r] as int] == r
}

/// The inverse of a matching.
pub fn inverse_matching(pk_mates: &Vec<u32>, num_kis: usize) -> (ki_mates: Vec<u32>)
    requires
        pk_mates.len() <= u32::MAX,
        num_kis <= u32::MAX,
        forall|r: int|
            0 <= r < pk_mates.len() && #[trigger] pk_mates@[r] != UNMATCHED ==> pk_mates@[r]
                < num_kis,
        forall|r1: int, r2: int|
            0 <= r1 < pk_mates.len() && 0 <= r2 < pk_mates.len() && r1 != r2
                && #[trigger] pk_mates@[r1] != UNMATCHED ==> pk_mates@[r1] != #[trigger] pk_mates@[r2],
    ensures
        ki_mates.len() == num_kis,
        is_inverse_matching(pk_mates@, ki_mates@),
{
    let mut ki_mates: Vec<u32> = vec![UNMATCHED; num_kis];
    let mut i: usize = 0;
    while i < pk_mates.len()
        invariant
            i <= pk_mates.len(),
            pk_mates.len() <= u32::MAX,
            ki_mates.len() == num_kis,
            forall|r: int|
                0 <= r < pk_mates.len() && #[trigger] pk_mates@[r] != UNMATCHED ==> pk_mates@[r]
                    < num_kis,
            forall|r1: int, r2: int|
                0 <= r1 < pk_mates.len() && 0 <= r2 < pk_mates.len() && r1 != r2
                    && #[trigger] pk_mates@[r1] != UNMATCHED ==> pk_mates@[r1]
                    != #[trigger] pk_mates@[r2],
            forall|c: int|
                0 <= c < ki_mates.len() && #[trigger] ki_mates@[c] != UNMATCHED ==> ki_mates@[c] < i
                    && pk_mates@[ki_mates@[c] as int] == c,
            forall|r: int|
                0 <= r < i && #[trigger] pk_mates@[r] != UNMATCHED ==> ki_mates@[pk_mates@[r] as int]
                    == r,
        decreases pk_mates.len() - i,
    {
        let mate = pk_mates[i];
        if mate != UNMATCHED {
            ki_mates.set(mate as usize, i as u32);
        }
        i += 1;
    }
    ki_mates
}

/// Step `k` of a walk leads from a public key along an edge to a key image
/// and on to the public key matched to it.
pub open spec fn is_alternating_step(g: &CsrGraph, pk_mates: Seq<u32>, walk: Seq<int>, k: int) -> bool {
    pk_mates[walk[k + 1]] != UNMATCHED && g.has_edge(walk[k], pk_mates[walk[k + 1]] as int)
}

/// An alternating walk: it starts at an unmatched public key, and each step
/// leads from a public key along an edge to a key image and on to the
/// public key matched to it.
pub open spec fn is_alternating_walk(g: &CsrGraph, pk_mates: Seq<u32>, walk: Seq<int>) -> bool {
    &&& walk.len() >= 1
    &&& forall|k: int| 0 <= k < walk.len() ==> 0 <= #[trigger] walk[k] < pk_mates.len()
    &&& pk_mates[walk[0]] == UNMATCHED
    &&& forall|k: int| 0 <= k < walk.len() - 1 ==> #[trigger] is_alternating_step(g, pk_mates, walk, k)
}

/// Some alternating walk ends at the public key `r`.
pub open spec fn pk_reachable(g: &CsrGraph, pk_mates: Seq<u32>, r: int) -> bool {
    exists|walk: Seq<int>| #[trigger] is_alternating_walk(g, pk_mates, walk) && walk.last() == r
}

/// The key image `c` is adjacent to a public key at which an alternating
/// walk ends.
pub open spec fn ki_reachable(g: &CsrGraph, pk_mates: Seq<u32>, c: int) -> bool {
    exists|r: int| #[trigger] pk_reachable(g, pk_mates, r) && g.has_edge(r, c)
}

/// What the walk from the unmatched public keys holds while it runs.
spec fn walk_ok(
    g: &CsrGraph,
    pk_mates: Seq<u32>,
    ki_mates: Seq<u32>,
    w: Set<int>,
    queue: Seq<u32>,
    qhead: int,
    reach_pk: Seq<bool>,
    reach_ki: Seq<bool>,
    open_row: int,
    open_upto: int,
) -> bool {
    &&& reach_pk.len() == g.num_rows
    &&& reach_ki.len() == g.num_cols
    &&& 0 <= qhead <= queue.len()
    &&& forall|r: int| 0 <= r < reach_pk.len() && #[trigger] reach_pk[r] ==> pk_reachable(g, pk_mates, r)
    &&& forall|c: int| 0 <= c < reach_ki.len() && #[trigger] reach_ki[c] ==> ki_reachable(g, pk_mates, c)
    &&& forall|q: int| 0 <= q < queue.len() ==> (#[trigger] queue[q]) < g.num_rows && reach_pk[queue[q] as int]
    &&& forall|r: int| 0 <= r < reach_pk.len() && #[trigger] reach_pk[r] ==> queue.contains(r as u32)
    &&& forall|r: int| 0 <= r < pk_mates.len() && #[trigger] pk_mates[r] == UNMATCHED ==> reach_pk[r]
    &&& forall|q: int, p: int|
        0 <= q < queue.len() && #[trigger] g.slot(queue[q] as int, p) && (q < qhead || (queue[q]
            == open_row && p < open_upto)) ==> reach_ki[g.col_idx@[p] as int]
    &&& forall|c: int|
        0 <= c < reach_ki.len() && #[trigger] reach_ki[c] ==> ki_mates[c] != UNMATCHED
            && reach_pk[ki_mates[c] as int]
    &&& forall|r: int|
        0 <= r < reach_pk.len() && #[trigger] reach_pk[r] ==> pk_mates[r] == UNMATCHED || !w.contains(
            pk_mates[r] as int,
        )
}

/// A reached public key is reachable still when one more is marked, and an
/// alternating walk extends by one step.
pub proof fn lemma_walk_extends(g: &CsrGraph, pk_mates: Seq<u32>, r: int, c: int, next: int)
    requires
        pk_reachable(g, pk_mates, r),
        g.has_edge(r, c),
        0 <= next < pk_mates.len(),
        pk_mates[next] == c,
        pk_mates[next] != UNMATCHED,
    ensures
        pk_reachable(g, pk_mates, next),
        ki_reachable(g, pk_mates, c),
{
    let walk = choose|walk: Seq<int>| #[trigger]
        is_alternating_walk(g, pk_mates, walk) && walk.last() == r;
    let longer = walk.push(next);
    assert(is_alternating_walk(g, pk_mates, longer)) by {
        assert forall|k: int| 0 <= k < longer.len() - 1 implies #[trigger] is_alternating_step(
            g,
            pk_mates,
            longer,
            k,
        ) by {
            if k < walk.len() - 1 {
                assert(is_alternating_step(g, pk_mates, walk, k));
                assert(longer[k] == walk[k]);
                assert(longer[k + 1] == walk[k + 1]);
            }
        }
    }
    assert(longer.last() == next);
}

/// The marks are closed: the unmatched public keys are marked, and from
/// a marked public key every edge leads to a matched key image whose public
/// key is marked.
spec fn marks_closed(g: &CsrGraph, pk_mates: Seq<u32>, ki_mates: Seq<u32>, reach_pk: Seq<bool>) -> bool {
    &&& reach_pk.len() == pk_mates.len()
    &&& forall|r: int| 0 <= r < pk_mates.len() && #[trigger] pk_mates[r] == UNMATCHED ==> reach_pk[r]
    &&& forall|r: int, c: int|
        0 <= r < reach_pk.len() && reach_pk[r] && #[trigger] g.has_edge(r, c) ==> 0 <= c
            < ki_mates.len() && ki_mates[c] != UNMATCHED && ki_mates[c] < reach_pk.len()
            && reach_pk[ki_mates[c] as int]
}

/// Closed marks hold every public key that an alternating walk reaches.
proof fn lemma_walk_complete(
    g: &CsrGraph,
    pk_mates: Seq<u32>,
    ki_mates: Seq<u32>,
    reach_pk: Seq<bool>,
    walk: Seq<int>,
)
    requires
        is_inverse_matching(pk_mates, ki_mates),
        marks_closed(g, pk_mates, ki_mates, reach_pk),
        is_alternating_walk(g, pk_mates, walk),
    ensures
        0 <= walk.last() < reach_pk.len(),
        reach_pk[walk.last()],
    decreases walk.len(),
{
    assert(0 <= walk[walk.len() - 1] < pk_mates.len());
    if walk.len() == 1 {
        assert(pk_mates[walk[0]] == UNMATCHED);
        assert(reach_pk[walk[0]]);
    } else {
        let shorter = walk.drop_last();
        assert(is_alternating_walk(g, pk_mates, shorter)) by {
            assert forall|k: int| 0 <= k < shorter.len() implies 0 <= #[trigger] shorter[k]
                < pk_mates.len() by {
                assert(shorter[k] == walk[k]);
            }
            assert forall|k: int| 0 <= k < shorter.len() - 1 implies #[trigger] is_alternating_step(
                g,
                pk_mates,
                shorter,
                k,
            ) by {
                assert(is_alternating_step(g, pk_mates, walk, k));
                assert(shorter[k] == walk[k]);
                assert(shorter[k + 1] == walk[k + 1]);
            }
            assert(shorter[0] == walk[0]);
        }
        lemma_walk_complete(g, pk_mates, ki_mates, reach_pk, shorter);
        let k = walk.len() - 2;
        let from = walk[k];
        let r = walk[k + 1];
        assert(shorter.last() == from);
        assert(walk.last() == r);
        let c = pk_mates[r] as int;
        assert(is_alternating_step(g, pk_mates, walk, k));
        assert(g.has_edge(from, c));
        assert(reach_pk[ki_mates[c] as int]);
        assert(ki_mates[pk_mates[r] as int] == r);
    }
}

/// Marks the public keys and the key images that alternating walks reach
/// from the unmatched public keys.
///
/// The walk is breadth first: from a public key it goes to every adjacent
/// key image not marked yet, marks it, and goes on to the public key matched
/// to it.  Every key image it comes to is matched, since the matching
/// admits no augmentation.
pub fn reachable_from_unmatched(
    g: &CscGraph,
    rows: &CsrGraph,
    pk_mates: &Vec<u32>,
    ki_mates: &Vec<u32>,
) -> (reached: (Vec<bool>, Vec<bool>))
    requires
        g.wf(),
        rows.wf(),
        rows.num_rows == g.num_rows,
        rows.num_cols == g.num_cols,
        forall|r: int, c: int| #[trigger] rows.has_edge(r, c) ==> g.has_edge(r, c),
        is_matching(g, pk_mates@),
        admits_no_augmentation(g, pk_mates@),
        ki_mates.len() == g.num_cols,
        is_inverse_matching(pk_mates@, ki_mates@),
    ensures
        reached.0.len() == g.num_rows,
        reached.1.len() == g.num_cols,
        forall|r: int|
            0 <= r < g.num_rows ==> (#[trigger] reached.0@[r] <==> pk_reachable(rows, pk_mates@, r)),
        forall|c: int|
            0 <= c < g.num_cols ==> (#[trigger] reached.1@[c] <==> ki_reachable(rows, pk_mates@, c)),
        forall|c: int|
            0 <= c < g.num_cols && #[trigger] reached.1@[c] ==> ki_mates@[c] != UNMATCHED
                && reached.0@[ki_mates@[c] as int],
{
    let num_pks = rows.num_rows;
    let num_kis = rows.num_cols;
    let mut reach_pk: Vec<bool> = vec![false; num_pks];
    let mut reach_ki: Vec<bool> = vec![false; num_kis];
    let mut queue: Vec<u32> = Vec::new();
    let ghost w = choose|w: Set<int>|
        #![auto]
        is_tight(g, pk_mates@, w) && forall|c: int|
            0 <= c < g.num_cols && !column_matched(pk_mates@, c) ==> w.contains(c);
    let mut i: usize = 0;
    while i < num_pks
        invariant
            i <= num_pks,
            num_pks == rows.num_rows,
            num_pks <= u32::MAX,
            pk_mates.len() == num_pks,
            reach_pk.len() == num_pks,
            forall|r: int| 0 <= r < num_pks ==> (#[trigger] reach_pk@[r] <==> r < i && pk_mates@[r] == UNMATCHED),
            forall|q: int|
                0 <= q < queue.len() ==> (#[trigger] queue@[q]) < num_pks && reach_pk@[queue@[q] as int],
            forall|r: int| 0 <= r < num_pks && #[trigger] reach_pk@[r] ==> queue@.contains(r as u32),
        decreases num_pks - i,
    {
        if pk_mates[i] == UNMATCHED {
            let ghost before = queue@;
            reach_pk.set(i, true);
            queue.push(i as u32);
            proof {
                assert(queue@[before.len() as int] == i as u32);
                assert forall|r: int| 0 <= r < num_pks && #[trigger] reach_pk@[r] implies queue@.contains(
                    r as u32,
                ) by {
                    if r != i {
                        let q = choose|q: int| 0 <= q < before.len() && before[q] == r as u32;
                        assert(queue@[q] == r as u32);
                    }
                }
            }
        }
        i += 1;
    }
    let mut qhead: usize = 0;
    proof {
        assert forall|r: int| 0 <= r < reach_pk.len() && #[trigger] reach_pk@[r] implies pk_reachable(
            rows,
            pk_mates@,
            r,
        ) by {
            let walk = seq![r];
            assert(is_alternating_walk(rows, pk_mates@, walk));
            assert(walk.last() == r);
        }
        lemma_unset_finite(reach_pk@);
    }
    while qhead < queue.len()
        invariant
            g.wf(),
            rows.wf(),
            rows.num_rows == g.num_rows,
            rows.num_cols == g.num_cols,
            num_pks == rows.num_rows,
            num_kis == rows.num_cols,
            forall|r: int, c: int| #[trigger] rows.has_edge(r, c) ==> g.has_edge(r, c),
            is_matching(g, pk_mates@),
            is_tight(g, pk_mates@, w),
            forall|c: int| 0 <= c < g.num_cols && !column_matched(pk_mates@, c) ==> w.contains(c),
            ki_mates.len() == g.num_cols,
            is_inverse_matching(pk_mates@, ki_mates@),
            walk_ok(
                rows,
                pk_mates@,
                ki_mates@,
                w,
                queue@,
                qhead as int,
                reach_pk@,
                reach_ki@,
                -1,
                0,
            ),
        decreases unset(reach_pk@).len(), queue.len() - qhead,
    {
        let row = queue[qhead];
        let end = rows.row_ptr[row as usize + 1];
        let mut q = rows.row_ptr[row as usize];
        let ghost start_unset = unset(reach_pk@).len();
        let ghost start_len = queue.len();
        while q < end
            invariant
                g.wf(),
                rows.wf(),
                rows.num_rows == g.num_rows,
                rows.num_cols == g.num_cols,
                num_pks == rows.num_rows,
                num_kis == rows.num_cols,
                forall|r: int, c: int| #[trigger] rows.has_edge(r, c) ==> g.has_edge(r, c),
                is_matching(g, pk_mates@),
                is_tight(g, pk_mates@, w),
                forall|c: int| 0 <= c < g.num_cols && !column_matched(pk_mates@, c) ==> w.contains(c),
                ki_mates.len() == g.num_cols,
                is_inverse_matching(pk_mates@, ki_mates@),
                qhead < queue.len(),
                row == queue@[qhead as int],
                rows.row_ptr@[row as int] <= q <= end,
                end == rows.row_ptr@[row as int + 1],
                walk_ok(
                    rows,
                    pk_mates@,
                    ki_mates@,
                    w,
                    queue@,
                    qhead as int,
                    reach_pk@,
                    reach_ki@,
                    row as int,
                    q as int,
                ),
                queue.len() >= start_len,
                queue.len() == start_len ==> unset(reach_pk@).len() == start_unset,
                queue.len() > start_len ==> unset(reach_pk@).len() < start_unset,
            decreases end - q,
        {
            proof {
                assert(rows.slot(row as int, q as int));
                assert(rows.row_ptr@[row as int + 1] <= rows.row_ptr@[rows.num_rows as int]);
            }
            let col = rows.col_idx[q];
            if !reach_ki[col as usize] {
                proof {
                    assert(rows.has_edge(row as int, col as int));
                    assert(g.has_edge(row as int, col as int));
                    let p = choose|p: int| #[trigger] g.slot(col as int, p) && g.row_idx@[p] == row;
                    assert(g.slot(col as int, p));
                    assert(reach_pk@[row as int]);
                    assert(!w.contains(col as int));
                    assert(column_matched(pk_mates@, col as int));
                    let r2 = choose|r2: int| 0 <= r2 < pk_mates@.len() && #[trigger] pk_mates@[r2] == col;
                    assert(pk_mates@[r2] != UNMATCHED);
                    assert(ki_mates@[pk_mates@[r2] as int] == r2);
                    lemma_walk_extends(rows, pk_mates@, row as int, col as int, r2);
                }
                reach_ki.set(col as usize, true);
                let mate = ki_mates[col as usize];
                if !reach_pk[mate as usize] {
                    let ghost before = queue@;
                    proof {
                        lemma_set_flag(reach_pk@, mate as int);
                    }
                    reach_pk.set(mate as usize, true);
                    queue.push(mate);
                    proof {
                        assert(queue@[before.len() as int] == mate);
                        assert forall|r: int|
                            0 <= r < reach_pk.len() && #[trigger] reach_pk@[r] implies queue@.contains(
                            r as u32,
                        ) by {
                            if r != mate {
                                let x = choose|x: int| 0 <= x < before.len() && before[x] == r as u32;
                                assert(queue@[x] == r as u32);
                            }
                        }
                        assert forall|x: int, p: int|
                            0 <= x < queue.len() && #[trigger] rows.slot(queue@[x] as int, p) && (x
                                < qhead || (queue@[x] == row && p < q + 1)) implies reach_ki@[rows.col_idx@[p] as int] by {
                            if x < before.len() {
                                assert(queue@[x] == before[x]);
                                assert(rows.slot(before[x] as int, p));
                            } else {
                                let y = choose|y: int| 0 <= y < before.len() && before[y] == row;
                                assert(false);
                            }
                        }
                    }
                }
            }
            proof {
                assert forall|x: int, p: int|
                    0 <= x < queue.len() && #[trigger] rows.slot(queue@[x] as int, p) && (x < qhead
                        || (queue@[x] == row && p < q + 1)) implies reach_ki@[rows.col_idx@[p] as int] by {
                    if p == q && queue@[x] == row {
                    }
                }
            }
            q += 1;
        }
        proof {
            assert forall|x: int, p: int|
                0 <= x < queue.len() && #[trigger] rows.slot(queue@[x] as int, p) && (x < qhead + 1
                    || (queue@[x] == -1 && p < 0)) implies reach_ki@[rows.col_idx@[p] as int] by {
                if x == qhead {
                    assert(queue@[x] == row);
                }
            }
        }
        qhead += 1;
    }
    proof {
        assert(marks_closed(rows, pk_mates@, ki_mates@, reach_pk@)) by {
            assert forall|r: int, c: int|
                0 <= r < reach_pk.len() && reach_pk@[r] && #[trigger] rows.has_edge(r, c) implies 0
                <= c < ki_mates.len() && ki_mates@[c] != UNMATCHED && ki_mates@[c] < reach_pk.len()
                && reach_pk@[ki_mates@[c] as int] by {
                let p = choose|p: int| #[trigger] rows.slot(r, p) && rows.col_idx@[p] == c;
                assert(queue@.contains(r as u32));
                let q = choose|q: int| 0 <= q < queue@.len() && queue@[q] == r as u32;
                assert(rows.slot(queue@[q] as int, p));
                assert(reach_ki@[c]);
            }
        }
        assert forall|r: int| 0 <= r < g.num_rows && pk_reachable(rows, pk_mates@, r) implies reach_pk@[r] by {
            let walk = choose|walk: Seq<int>| #[trigger]
                is_alternating_walk(rows, pk_mates@, walk) && walk.last() == r;
            lemma_walk_complete(rows, pk_mates@, ki_mates@, reach_pk@, walk);
        }
        assert forall|c: int| 0 <= c < g.num_cols && ki_reachable(rows, pk_mates@, c) implies reach_ki@[c] by {
            let r = choose|r: int| #[trigger] pk_reachable(rows, pk_mates@, r) && rows.has_edge(r, c);
            let walk = choose|walk: Seq<int>| #[trigger]
                is_alternating_walk(rows, pk_mates@, walk) && walk.last() == r;
            lemma_walk_complete(rows, pk_mates@, ki_mates@, reach_pk@, walk);
            let p = choose|p: int| #[trigger] rows.slot(r, p) && rows.col_idx@[p] == c;
            assert(queue@.contains(r as u32));
            let q = choose|q: int| 0 <= q < queue@.len() && queue@[q] == r as u32;
            assert(rows.slot(queue@[q] as int, p));
        }
    }
    (reach_pk, reach_ki)
}

/// The edges of the fine decomposition graph on the public keys that no
/// alternating walk reaches: for every edge from such a public key `pk` to
/// an unreached key image whose mate is another public key, an edge from
/// that mate to `pk`.
pub open spec fn fine_edges(
    rows: &CsrGraph,
    ki_mates: Seq<u32>,
    reach_pk: Seq<bool>,
    reach_ki: Seq<bool>,
) -> Set<(u32, u32)> {
    Set::new(
        |e: (u32, u32)|
            e.1 < reach_pk.len() && !reach_pk[e.1 as int] && e.0 != e.1 && exists|p: int|
                #[trigger] rows.slot(e.1 as int, p) && !reach_ki[rows.col_idx@[p] as int]
                    && ki_mates[rows.col_idx@[p] as int] == e.0,
    )
}

/// The public keys that no alternating walk reaches.
pub open spec fn unreached_pks(reach_pk: Seq<bool>) -> Set<u32> {
    Set::new(|pk: u32| pk < reach_pk.len() && !reach_pk[pk as int])
}

/// The fine decomposition graph seen while it is built: what the rows
/// before `row`, and the entries of `row` before `upto`, have given.
spec fn fine_edges_upto(
    rows: &CsrGraph,
    ki_mates: Seq<u32>,
    reach_pk: Seq<bool>,
    reach_ki: Seq<bool>,
    row: int,
    upto: int,
) -> Set<(u32, u32)> {
    Set::new(
        |e: (u32, u32)|
            e.1 < reach_pk.len() && !reach_pk[e.1 as int] && e.0 != e.1 && exists|p: int|
                #[trigger] rows.slot(e.1 as int, p) && !reach_ki[rows.col_idx@[p] as int]
                    && ki_mates[rows.col_idx@[p] as int] == e.0 && (e.1 < row || (e.1 == row && p
                    < upto)),
    )
}

/// The fine decomposition graph of the square block.
fn fine_graph(rows: &CsrGraph, ki_mates: &Vec<u32>, reach_pk: &Vec<bool>, reach_ki: &Vec<bool>) -> (d:
    GraphMap<u32, (), Directed>)
    requires
        rows.wf(),
        ki_mates.len() == rows.num_cols,
        reach_pk.len() == rows.num_rows,
        reach_ki.len() == rows.num_cols,
    ensures
        digraph_nodes(d) == unreached_pks(reach_pk@).union(
            Set::new(|x: u32| exists|y: u32| fine_edges(rows, ki_mates@, reach_pk@, reach_ki@).contains((x, y))),
        ),
        digraph_edges(d) == fine_edges(rows, ki_mates@, reach_pk@, reach_ki@),
{
    let mut d = digraph_new();
    let num_pks = rows.num_rows;
    let mut pk: usize = 0;
    proof {
        assert(fine_edges_upto(rows, ki_mates@, reach_pk@, reach_ki@, 0, 0) =~= Set::<(u32, u32)>::empty());
        assert(Set::new(|x: u32| x < 0 && !reach_pk@[x as int]).union(
            Set::new(
                |x: u32|
                    exists|y: u32|
                        fine_edges_upto(rows, ki_mates@, reach_pk@, reach_ki@, 0, 0).contains((x, y)),
            ),
        ) =~= Set::<u32>::empty());
    }
    while pk < num_pks
        invariant
            pk <= num_pks,
            num_pks == rows.num_rows,
            rows.wf(),
            ki_mates.len() == rows.num_cols,
            reach_pk.len() == rows.num_rows,
            reach_ki.len() == rows.num_cols,
            digraph_edges(d) == fine_edges_upto(rows, ki_mates@, reach_pk@, reach_ki@, pk as int, 0),
            digraph_nodes(d) == Set::new(|x: u32| x < pk && !reach_pk@[x as int]).union(
                Set::new(
                    |x: u32|
                        exists|y: u32|
                            fine_edges_upto(
                                rows,
                                ki_mates@,
                                reach_pk@,
                                reach_ki@,
                                pk as int,
                                0,
                            ).contains((x, y)),
                ),
            ),
        decreases num_pks - pk,
    {
        if !reach_pk[pk] {
            digraph_add_node(&mut d, pk as u32);
            let end = rows.row_ptr[pk + 1];
            let mut q = rows.row_ptr[pk];
            proof {
                assert(fine_edges_upto(rows, ki_mates@, reach_pk@, reach_ki@, pk as int, q as int)
                    =~= fine_edges_upto(rows, ki_mates@, reach_pk@, reach_ki@, pk as int, 0));
                assert(digraph_nodes(d) =~= Set::new(|x: u32| x < pk + 1 && !reach_pk@[x as int]).union(
                    Set::new(
                        |x: u32|
                            exists|y: u32|
                                fine_edges_upto(
                                    rows,
                                    ki_mates@,
                                    reach_pk@,
                                    reach_ki@,
                                    pk as int,
                                    q as int,
                                ).contains((x, y)),
                    ),
                ));
            }
            while q < end
                invariant
                    pk < num_pks,
                    num_pks == rows.num_rows,
                    rows.wf(),
                    !reach_pk@[pk as int],
                    ki_mates.len() == rows.num_cols,
                    reach_pk.len() == rows.num_rows,
                    reach_ki.len() == rows.num_cols,
                    rows.row_ptr@[pk as int] <= q <= end,
                    end == rows.row_ptr@[pk as int + 1],
                    digraph_edges(d) == fine_edges_upto(
                        rows,
                        ki_mates@,
                        reach_pk@,
                        reach_ki@,
                        pk as int,
                        q as int,
                    ),
                    digraph_nodes(d) == Set::new(|x: u32| x < pk + 1 && !reach_pk@[x as int]).union(
                        Set::new(
                            |x: u32|
                                exists|y: u32|
                                    fine_edges_upto(
                                        rows,
                                        ki_mates@,
                                        reach_pk@,
                                        reach_ki@,
                                        pk as int,
                                        q as int,
                                    ).contains((x, y)),
                        ),
                    ),
                decreases end - q,
            {
                proof {
                    assert(rows.slot(pk as int, q as int));
                    assert(rows.row_ptr@[pk as int + 1] <= rows.row_ptr@[rows.num_rows as int]);
                }
                let ki = rows.col_idx[q];
                let ghost before = fine_edges_upto(
                    rows,
                    ki_mates@,
                    reach_pk@,
                    reach_ki@,
                    pk as int,
                    q as int,
                );
                let ghost after = fine_edges_upto(
                    rows,
                    ki_mates@,
                    reach_pk@,
                    reach_ki@,
                    pk as int,
                    q as int + 1,
                );
                let mate = ki_mates[ki as usize];
                if !reach_ki[ki as usize] && mate != pk as u32 {
                    digraph_add_edge(&mut d, mate, pk as u32);
                    proof {
                        assert(after =~= before.insert((mate, pk as u32))) by {
                            assert forall|e: (u32, u32)| after.contains(e) <==> before.insert(
                                (mate, pk as u32),
                            ).contains(e) by {
                                if after.contains(e) && !before.contains(e) {
                                    let p = choose|p: int|
                                        #[trigger] rows.slot(e.1 as int, p) && !reach_ki@[rows.col_idx@[p] as int]
                                            && ki_mates@[rows.col_idx@[p] as int] == e.0 && (e.1
                                            < pk || (e.1 == pk && p < q + 1));
                                    assert(p == q);
                                }
                                if before.contains(e) {
                                    let p = choose|p: int|
                                        #[trigger] rows.slot(e.1 as int, p) && !reach_ki@[rows.col_idx@[p] as int]
                                            && ki_mates@[rows.col_idx@[p] as int] == e.0 && (e.1
                                            < pk || (e.1 == pk && p < q));
                                    assert(rows.slot(e.1 as int, p));
                                }
                            }
                        }
                    }
                } else {
                    proof {
                        assert(after =~= before) by {
                            assert forall|e: (u32, u32)| after.contains(e) <==> before.contains(
                                e,
                            ) by {
                                if after.contains(e) {
                                    let p = choose|p: int|
                                        #[trigger] rows.slot(e.1 as int, p) && !reach_ki@[rows.col_idx@[p] as int]
                                            && ki_mates@[rows.col_idx@[p] as int] == e.0 && (e.1
                                            < pk || (e.1 == pk && p < q + 1));
                                    assert(rows.slot(e.1 as int, p));
                                }
                                if before.contains(e) {
                                    let p = choose|p: int|
                                        #[trigger] rows.slot(e.1 as int, p) && !reach_ki@[rows.col_idx@[p] as int]
                                            && ki_mates@[rows.col_idx@[p] as int] == e.0 && (e.1
                                            < pk || (e.1 == pk && p < q));
                                    assert(rows.slot(e.1 as int, p));
                                }
                            }
                        }
                    }
                }
                proof {
                    let base = Set::new(|x: u32| x < pk + 1 && !reach_pk@[x as int]);
                    let want = base.union(Set::new(|x: u32| exists|y: u32| after.contains((x, y))));
                    assert forall|x: u32| digraph_nodes(d).contains(x) <==> want.contains(x) by {
                        if exists|y: u32| after.contains((x, y)) {
                            let y = choose|y: u32| after.contains((x, y));
                            if before.contains((x, y)) {
                            } else {
                                assert(x == mate && y == pk as u32);
                            }
                        }
                        if exists|y: u32| before.contains((x, y)) {
                            let y = choose|y: u32| before.contains((x, y));
                            assert(after.contains((x, y)));
                        }
                        if !reach_ki@[ki as int] && mate != pk as u32 {
                            assert(after.contains((mate, pk as u32)));
                            assert(base.contains(pk as u32));
                        }
                    }
                    assert(digraph_nodes(d) =~= want);
                }
                q += 1;
            }
            proof {
                assert(fine_edges_upto(rows, ki_mates@, reach_pk@, reach_ki@, pk as int, end as int)
                    =~= fine_edges_upto(rows, ki_mates@, reach_pk@, reach_ki@, pk as int + 1, 0)) by {
                    assert forall|e: (u32, u32)|
                        fine_edges_upto(
                            rows,
                            ki_mates@,
                            reach_pk@,
                            reach_ki@,
                            pk as int,
                            end as int,
                        ).contains(e) <==> fine_edges_upto(
                            rows,
                            ki_mates@,
                            reach_pk@,
                            reach_ki@,
                            pk as int + 1,
                            0,
                        ).contains(e) by {
                        if fine_edges_upto(rows, ki_mates@, reach_pk@, reach_ki@, pk as int, end as int).contains(
                            e,
                        ) {
                            let p = choose|p: int|
                                #[trigger] rows.slot(e.1 as int, p) && !reach_ki@[rows.col_idx@[p] as int]
                                    && ki_mates@[rows.col_idx@[p] as int] == e.0 && (e.1 < pk || (e.1
                                    == pk && p < end));
                            assert(rows.slot(e.1 as int, p));
                        }
                        if fine_edges_upto(rows, ki_mates@, reach_pk@, reach_ki@, pk as int + 1, 0).contains(
                            e,
                        ) {
                            let p = choose|p: int|
                                #[trigger] rows.slot(e.1 as int, p) && !reach_ki@[rows.col_idx@[p] as int]
                                    && ki_mates@[rows.col_idx@[p] as int] == e.0 && (e.1 < pk + 1 || (
                                e.1 == pk + 1 && p < 0));
                            assert(rows.slot(e.1 as int, p));
                        }
                    }
                }
            }
        } else {
            proof {
                assert(fine_edges_upto(rows, ki_mates@, reach_pk@, reach_ki@, pk as int, 0)
                    =~= fine_edges_upto(rows, ki_mates@, reach_pk@, reach_ki@, pk as int + 1, 0)) by {
                    assert forall|e: (u32, u32)|
                        fine_edges_upto(rows, ki_mates@, reach_pk@, reach_ki@, pk as int, 0).contains(
                            e,
                        ) <==> fine_edges_upto(
                            rows,
                            ki_mates@,
                            reach_pk@,
                            reach_ki@,
                            pk as int + 1,
                            0,
                        ).contains(e) by {
                        if fine_edges_upto(rows, ki_mates@, reach_pk@, reach_ki@, pk as int, 0).contains(
                            e,
                        ) {
                            let p = choose|p: int|
                                #[trigger] rows.slot(e.1 as int, p) && !reach_ki@[rows.col_idx@[p] as int]
                                    && ki_mates@[rows.col_idx@[p] as int] == e.0 && (e.1 < pk || (e.1
                                    == pk && p < 0));
                            assert(rows.slot(e.1 as int, p));
                        }
                        if fine_edges_upto(rows, ki_mates@, reach_pk@, reach_ki@, pk as int + 1, 0).contains(
                            e,
                        ) {
                            let p = choose|p: int|
                                #[trigger] rows.slot(e.1 as int, p) && !reach_ki@[rows.col_idx@[p] as int]
                                    && ki_mates@[rows.col_idx@[p] as int] == e.0 && (e.1 < pk + 1 || (
                                e.1 == pk + 1 && p < 0));
                            assert(rows.slot(e.1 as int, p));
                        }
                    }
                }
                assert(Set::new(|x: u32| x < pk && !reach_pk@[x as int]) =~= Set::new(
                    |x: u32| x < pk + 1 && !reach_pk@[x as int],
                ));
            }
        }
        pk += 1;
    }
    proof {
        assert(fine_edges_upto(rows, ki_mates@, reach_pk@, reach_ki@, num_pks as int, 0)
            =~= fine_edges(rows, ki_mates@, reach_pk@, reach_ki@)) by {
            assert forall|e: (u32, u32)|
                fine_edges_upto(rows, ki_mates@, reach_pk@, reach_ki@, num_pks as int, 0).contains(e)
                    <==> fine_edges(rows, ki_mates@, reach_pk@, reach_ki@).contains(e) by {
                if fine_edges_upto(rows, ki_mates@, reach_pk@, reach_ki@, num_pks as int, 0).contains(
                    e,
                ) {
                    let p = choose|p: int|
                        #[trigger] rows.slot(e.1 as int, p) && !reach_ki@[rows.col_idx@[p] as int]
                            && ki_mates@[rows.col_idx@[p] as int] == e.0 && (e.1 < num_pks || (e.1
                            == num_pks && p < 0));
                    assert(rows.slot(e.1 as int, p));
                }
                if fine_edges(rows, ki_mates@, reach_pk@, reach_ki@).contains(e) {
                    let p = choose|p: int|
                        #[trigger] rows.slot(e.1 as int, p) && !reach_ki@[rows.col_idx@[p] as int]
                            && ki_mates@[rows.col_idx@[p] as int] == e.0;
                    assert(rows.slot(e.1 as int, p));
                }
            }
        }
        assert(Set::new(|x: u32| x < num_pks && !reach_pk@[x as int]) =~= unreached_pks(reach_pk@));
    }
    d
}

/// A matched public key that an alternating walk reaches is reached along
/// the edge to its mate.
pub proof fn lemma_reached_through_mate(g: &CsrGraph, pk_mates: Seq<u32>, r: int)
    requires
        pk_reachable(g, pk_mates, r),
        0 <= r < pk_mates.len(),
        pk_mates[r] != UNMATCHED,
    ensures
        ki_reachable(g, pk_mates, pk_mates[r] as int),
{
    let walk = choose|walk: Seq<int>| #[trigger]
        is_alternating_walk(g, pk_mates, walk) && walk.last() == r;
    assert(walk.len() >= 2);
    let shorter = walk.drop_last();
    let k = walk.len() - 2;
    assert(is_alternating_step(g, pk_mates, walk, k));
    assert(is_alternating_walk(g, pk_mates, shorter)) by {
        assert forall|j: int| 0 <= j < shorter.len() implies 0 <= #[trigger] shorter[j]
            < pk_mates.len() by {
            assert(shorter[j] == walk[j]);
        }
        assert forall|j: int| 0 <= j < shorter.len() - 1 implies #[trigger] is_alternating_step(
            g,
            pk_mates,
            shorter,
            j,
        ) by {
            assert(is_alternating_step(g, pk_mates, walk, j));
            assert(shorter[j] == walk[j]);
            assert(shorter[j + 1] == walk[j + 1]);
        }
        assert(shorter[0] == walk[0]);
    }
    assert(shorter.last() == walk[k]);
    assert(pk_reachable(g, pk_mates, walk[k]));
}

/// Where every key image is matched, the matching pairs the public keys
/// that no walk reaches with the key images that no walk reaches: there are
/// as many of the one as of the other.
pub proof fn lemma_square_block(
    g: &CsrGraph,
    pk_mates: Seq<u32>,
    ki_mates: Seq<u32>,
    reach_pk: Seq<bool>,
    reach_ki: Seq<bool>,
)
    requires
        reach_pk.len() == pk_mates.len(),
        reach_ki.len() == ki_mates.len(),
        ki_mates.len() <= u32::MAX,
        is_inverse_matching(pk_mates, ki_mates),
        forall|c: int| 0 <= c < ki_mates.len() ==> #[trigger] ki_mates[c] != UNMATCHED,
        forall|r: int| 0 <= r < reach_pk.len() ==> (#[trigger] reach_pk[r] <==> pk_reachable(g, pk_mates, r)),
        forall|c: int| 0 <= c < reach_ki.len() ==> (#[trigger] reach_ki[c] <==> ki_reachable(g, pk_mates, c)),
        forall|c: int|
            0 <= c < reach_ki.len() && #[trigger] reach_ki[c] ==> reach_pk[ki_mates[c] as int],
    ensures
        unset(reach_pk).len() == unset(reach_ki).len(),
        forall|r: int| 0 <= r < reach_pk.len() && !reach_pk[r] ==> #[trigger] pk_mates[r] != UNMATCHED,
        forall|r: int|
            0 <= r < reach_pk.len() && #[trigger] pk_mates[r] != UNMATCHED ==> (reach_pk[r]
                <==> reach_ki[pk_mates[r] as int]),
{
    assert forall|r: int| 0 <= r < reach_pk.len() && !reach_pk[r] implies #[trigger] pk_mates[r]
        != UNMATCHED by {
        if pk_mates[r] == UNMATCHED {
            let walk = seq![r];
            assert(is_alternating_walk(g, pk_mates, walk));
            assert(walk.last() == r);
            assert(pk_reachable(g, pk_mates, r));
        }
    }
    assert forall|r: int| 0 <= r < reach_pk.len() && #[trigger] pk_mates[r] != UNMATCHED implies (
    reach_pk[r] <==> reach_ki[pk_mates[r] as int]) by {
        let c = pk_mates[r] as int;
        assert(ki_mates[c] == r);
        if reach_pk[r] {
            lemma_reached_through_mate(g, pk_mates, r);
        }
    }
    let f = |r: int| pk_mates[r] as int;
    lemma_unset_finite(reach_pk);
    lemma_unset_finite(reach_ki);
    assert(vstd::relations::injective_on(f, unset(reach_pk))) by {
        assert forall|a: int, b: int|
            unset(reach_pk).contains(a) && unset(reach_pk).contains(b) && #[trigger] f(a)
                == #[trigger] f(b) implies a == b by {
            assert(ki_mates[pk_mates[a] as int] == a);
            assert(ki_mates[pk_mates[b] as int] == b);
        }
    }
    assert(unset(reach_pk).map(f) =~= unset(reach_ki)) by {
        assert forall|c: int| unset(reach_pk).map(f).contains(c) <==> unset(reach_ki).contains(c) by {
            if unset(reach_pk).map(f).contains(c) {
                let r = choose|r: int| unset(reach_pk).contains(r) && c == f(r);
                assert(pk_mates[r] != UNMATCHED);
            }
            if unset(reach_ki).contains(c) {
                let r = ki_mates[c] as int;
                assert(ki_mates[c] != UNMATCHED);
                assert(pk_mates[r] == c);
                assert(0 <= r < reach_pk.len());
                assert(pk_mates[r] != UNMATCHED) by {
                    assert(c < ki_mates.len());
                }
                assert(reach_pk[r] <==> reach_ki[pk_mates[r] as int]);
                assert(unset(reach_pk).contains(r));
                assert(f(r) == c);
            }
        }
    }
    vstd::set_lib::lemma_map_size(unset(reach_pk), unset(reach_ki), f);
}

/// Whether each public key is matched.
pub open spec fn matched_flags(pk_mates: Seq<u32>) -> Seq<bool> {
    Seq::new(pk_mates.len(), |r: int| pk_mates[r] != UNMATCHED)
}

/// The public keys of each closed set.
pub open spec fn pk_lists(sets: Seq<(Vec<u32>, Vec<u32>)>) -> Seq<Vec<u32>> {
    Seq::new(sets.len(), |i: int| sets[i].1)
}

/// The Dulmage-Mendelsohn decomposition of a transaction graph.
pub struct DmDecomposition {
    /// The graph, column by column: the public keys of each key image.
    pub columns: CscGraph,
    /// The graph, row by row: the key images of each public key.
    pub rows: CsrGraph,
    /// The key image matched to each public key, or [`UNMATCHED`].
    pub pk_mates: Vec<u32>,
    /// The public key matched to each key image.
    pub ki_mates: Vec<u32>,
    /// The number of matched public keys.
    pub num_matched_pks: usize,
    /// Whether an alternating walk from an unmatched public key reaches
    /// each public key.
    pub reachable_pubkeys: Vec<bool>,
    /// Whether such a walk reaches each key image.
    pub reachable_keyimages: Vec<bool>,
    /// The number of public keys that no walk reaches.
    pub num_unreachable_pubkeys: usize,
    /// The number of key images that no walk reaches.
    pub num_unreachable_keyimages: usize,
    /// The blocks of the fine decomposition: for each, its key images and
    /// its public keys, the key image at each position matched to the public
    /// key at the same position.
    pub closed_sets: Vec<(Vec<u32>, Vec<u32>)>,
}

impl DmDecomposition {
    /// The two sparse views hold the graph of the triplets.
    pub open spec fn holds_graph(
        &self,
        num_pks: usize,
        num_kis: usize,
        pk_indices: Seq<u32>,
        ki_indices: Seq<u32>,
    ) -> bool {
        &&& self.columns.wf()
        &&& self.columns.num_rows == num_pks
        &&& self.columns.num_cols == num_kis
        &&& self.rows.wf()
        &&& self.rows.num_rows == num_pks
        &&& self.rows.num_cols == num_kis
        &&& forall|r: int, c: int|
            #[trigger] self.columns.has_edge(r, c) <==> is_triplet(pk_indices, ki_indices, r, c)
        &&& forall|r: int, c: int|
            #[trigger] self.rows.has_edge(r, c) <==> is_triplet(pk_indices, ki_indices, r, c)
    }

    /// The matching is one that admits no augmentation, and it matches
    /// every key image.
    pub open spec fn holds_matching(&self) -> bool {
        &&& is_matching(&self.columns, self.pk_mates@)
        &&& admits_no_augmentation(&self.columns, self.pk_mates@)
        &&& self.ki_mates.len() == self.columns.num_cols
        &&& is_inverse_matching(self.pk_mates@, self.ki_mates@)
        &&& forall|c: int| 0 <= c < self.ki_mates.len() ==> #[trigger] self.ki_mates@[c] != UNMATCHED
        &&& self.num_matched_pks + unset(matched_flags(self.pk_mates@)).len() == self.pk_mates.len()
    }

    /// The marks are those of the alternating walks, and the public keys
    /// and key images that no walk reaches form a square block.
    pub open spec fn holds_reach(&self) -> bool {
        &&& self.reachable_pubkeys.len() == self.rows.num_rows
        &&& self.reachable_keyimages.len() == self.rows.num_cols
        &&& forall|r: int|
            0 <= r < self.rows.num_rows ==> (#[trigger] self.reachable_pubkeys@[r] <==> pk_reachable(
                &self.rows,
                self.pk_mates@,
                r,
            ))
        &&& forall|c: int|
            0 <= c < self.rows.num_cols ==> (#[trigger] self.reachable_keyimages@[c]
                <==> ki_reachable(&self.rows, self.pk_mates@, c))
        &&& self.num_unreachable_pubkeys == unset(self.reachable_pubkeys@).len()
        &&& self.num_unreachable_keyimages == unset(self.reachable_keyimages@).len()
        &&& self.num_unreachable_pubkeys == self.num_unreachable_keyimages
    }

    /// The closed sets are the strongly connected components of the fine
    /// decomposition graph, each with the mates of its public keys.
    pub open spec fn holds_blocks(&self) -> bool {
        &&& is_scc_decomposition(
            unreached_pks(self.reachable_pubkeys@),
            fine_edges(&self.rows, self.ki_mates@, self.reachable_pubkeys@, self.reachable_keyimages@),
            sets_of(pk_lists(self.closed_sets@)),
        )
        &&& forall|i: int|
            0 <= i < self.closed_sets.len() ==> (#[trigger] self.closed_sets@[i]).0.len()
                == self.closed_sets@[i].1.len() && self.closed_sets@[i].1@.no_duplicates()
        &&& forall|i: int, j: int|
            0 <= i < self.closed_sets.len() && 0 <= j < self.closed_sets@[i].1.len() ==> (
            #[trigger] self.closed_sets@[i].1@[j]) < self.pk_mates.len() && self.closed_sets@[i].0@[j]
                == self.pk_mates@[self.closed_sets@[i].1@[j] as int]
    }

    /// This is the decomposition of the graph of the triplets.
    pub open spec fn is_decomposition_of(
        &self,
        num_pks: usize,
        num_kis: usize,
        pk_indices: Seq<u32>,
        ki_indices: Seq<u32>,
    ) -> bool {
        &&& self.holds_graph(num_pks, num_kis, pk_indices, ki_indices)
        &&& self.holds_matching()
        &&& self.holds_reach()
        &&& self.holds_blocks()
    }
}

/// The edges are given as two lists of equal length, every index lies
/// within the shape of the graph, and each side of the shape is a number
/// that 32 bits hold and less than the greatest `usize`.
pub open spec fn edges_in_shape(
    num_pks: usize,
    num_kis: usize,
    pk_indices: Seq<u32>,
    ki_indices: Seq<u32>,
) -> bool {
    &&& num_pks <= u32::MAX
    &&& num_kis <= u32::MAX
    &&& num_pks < usize::MAX
    &&& num_kis < usize::MAX
    &&& pk_indices.len() == ki_indices.len()
    &&& forall|i: int| 0 <= i < pk_indices.len() ==> (#[trigger] pk_indices[i]) < num_pks
    &&& forall|i: int| 0 <= i < ki_indices.len() ==> (#[trigger] ki_indices[i]) < num_kis
}

/// Some matching of the graph of the triplets that admits no augmentation
/// leaves a key image unmatched.
pub open spec fn leaves_key_image_unmatched(
    num_pks: usize,
    num_kis: usize,
    pk_indices: Seq<u32>,
    ki_indices: Seq<u32>,
) -> bool {
    exists|g: CscGraph, mates: Seq<u32>|
        #![auto]
        {
            &&& g.wf()
            &&& g.num_rows == num_pks
            &&& g.num_cols == num_kis
            &&& forall|r: int, c: int|
                #[trigger] g.has_edge(r, c) <==> is_triplet(pk_indices, ki_indices, r, c)
            &&& is_matching(&g, mates)
            &&& admits_no_augmentation(&g, mates)
            &&& exists|c: int| 0 <= c < num_kis && !column_matched(mates, c)
        }
}

/// Whether the edges lie within the shape of the graph.
fn check_edges(num_pks: usize, num_kis: usize, pk_indices: &Vec<u32>, ki_indices: &Vec<u32>) -> (ok:
    bool)
    ensures
        ok == edges_in_shape(num_pks, num_kis, pk_indices@, ki_indices@),
{
    if num_pks > u32::MAX as usize || num_kis > u32::MAX as usize || num_pks == usize::MAX
        || num_kis == usize::MAX || pk_indices.len() != ki_indices.len() {
        return false;
    }
    let mut i: usize = 0;
    while i < pk_indices.len()
        invariant
            i <= pk_indices.len(),
            pk_indices.len() == ki_indices.len(),
            forall|k: int| 0 <= k < i ==> (#[trigger] pk_indices@[k]) < num_pks,
            forall|k: int| 0 <= k < i ==> (#[trigger] ki_indices@[k]) < num_kis,
        decreases pk_indices.len() - i,
    {
        if pk_indices[i] as usize >= num_pks || ki_indices[i] as usize >= num_kis {
            return false;
        }
        i += 1;
    }
    true
}

/// Whether each public key is matched.
fn matched_rows(pk_mates: &Vec<u32>) -> (flags: Vec<bool>)
    ensures
        flags@ == matched_flags(pk_mates@),
{
    let mut flags: Vec<bool> = Vec::new();
    let mut i: usize = 0;
    while i < pk_mates.len()
        invariant
            i <= pk_mates.len(),
            flags.len() == i,
            forall|k: int| 0 <= k < i ==> #[trigger] flags@[k] == (pk_mates@[k] != UNMATCHED),
        decreases pk_mates.len() - i,
    {
        flags.push(pk_mates[i] != UNMATCHED);
        i += 1;
    }
    proof {
        assert(flags@ =~= matched_flags(pk_mates@));
    }
    flags
}

/// The first key image without a mate, if any.
fn first_unmatched(ki_mates: &Vec<u32>) -> (found: Option<usize>)
    ensures
        found matches Some(c) ==> c < ki_mates.len() && ki_mates@[c as int] == UNMATCHED,
        found is None ==> forall|c: int| 0 <= c < ki_mates.len() ==> #[trigger] ki_mates@[c] != UNMATCHED,
{
    let mut c: usize = 0;
    while c < ki_mates.len()
        invariant
            c <= ki_mates.len(),
            forall|k: int| 0 <= k < c ==> #[trigger] ki_mates@[k] != UNMATCHED,
        decreases ki_mates.len() - c,
    {
        if ki_mates[c] == UNMATCHED {
            return Some(c);
        }
        c += 1;
    }
    None
}

/// The mates of the public keys of one block.
fn block_mates(pks: &Vec<u32>, pk_mates: &Vec<u32>) -> (kis: Vec<u32>)
    requires
        forall|j: int| 0 <= j < pks.len() ==> (#[trigger] pks@[j]) < pk_mates.len(),
    ensures
        kis.len() == pks.len(),
        forall|j: int| 0 <= j < pks.len() ==> #[trigger] kis@[j] == pk_mates@[pks@[j] as int],
{
    let mut kis: Vec<u32> = Vec::new();
    let mut j: usize = 0;
    while j < pks.len()
        invariant
            j <= pks.len(),
            forall|t: int| 0 <= t < pks.len() ==> (#[trigger] pks@[t]) < pk_mates.len(),
            kis.len() == j,
            forall|t: int| 0 <= t < j ==> #[trigger] kis@[t] == pk_mates@[pks@[t] as int],
        decreases pks.len() - j,
    {
        kis.push(pk_mates[pks[j] as usize]);
        j += 1;
    }
    kis
}

/// The Dulmage-Mendelsohn decomposition of the graph whose edges are the
/// pairs (`ki_indices[i]`, `pk_indices[i]`).
///
/// A maximum matching is computed, then the public keys and key images that
/// alternating walks reach from the unmatched public keys, then the strongly
/// connected components of the fine decomposition graph on the public keys
/// that are not reached.  Each component, with the mates of its public keys,
/// is a closed set.
///
/// The graph is refused as inconsistent where the two lists differ in
/// length, where an index lies outside the shape, and where the matching
/// leaves a key image unmatched.
pub fn dm_decomposition(
    num_pks: usize,
    num_kis: usize,
    pk_indices: &Vec<u32>,
    ki_indices: &Vec<u32>,
) -> (res: Result<DmDecomposition, Error>)
    ensures
        res matches Ok(d) ==> d.is_decomposition_of(num_pks, num_kis, pk_indices@, ki_indices@),
        res matches Err(e) ==> e == Error::Inconsistency,
        !edges_in_shape(num_pks, num_kis, pk_indices@, ki_indices@) ==> res is Err,
        res is Err && edges_in_shape(num_pks, num_kis, pk_indices@, ki_indices@)
            ==> leaves_key_image_unmatched(num_pks, num_kis, pk_indices@, ki_indices@),
{
    if !check_edges(num_pks, num_kis, pk_indices, ki_indices) {
        return Err(Error::Inconsistency);
    }
    let ones: Vec<u64> = vec![1u64; pk_indices.len()];
    let columns = csc_from_triplets(
        num_pks,
        num_kis,
        copy_list(pk_indices),
        copy_list(ki_indices),
        ones,
    );
    let ones: Vec<u64> = vec![1u64; pk_indices.len()];
    let rows = csr_from_triplets(
        num_pks,
        num_kis,
        copy_list(pk_indices),
        copy_list(ki_indices),
        ones,
    );
    let pk_mates = cn_txgraph_maximum_matching(&columns);
    proof {
        assert forall|r: int|
            0 <= r < pk_mates.len() && #[trigger] pk_mates@[r] != UNMATCHED implies pk_mates@[r]
            < num_kis by {
            assert(columns.has_edge(r, pk_mates@[r] as int));
            let p = choose|p: int| #[trigger] columns.slot(pk_mates@[r] as int, p);
        }
    }
    let ki_mates = inverse_matching(&pk_mates, num_kis);
    match first_unmatched(&ki_mates) {
        Some(c) => {
            proof {
                assert(!column_matched(pk_mates@, c as int)) by {
                    if column_matched(pk_mates@, c as int) {
                        let r = choose|r: int| 0 <= r < pk_mates@.len() && #[trigger] pk_mates@[r] == c;
                        assert(pk_mates@[r] != UNMATCHED);
                    }
                }
                assert(leaves_key_image_unmatched(num_pks, num_kis, pk_indices@, ki_indices@));
            }
            return Err(Error::Inconsistency);
        },
        None => {},
    }
    let flags = matched_rows(&pk_mates);
    let num_unmatched = count_unset(&flags);
    proof {
        lemma_unset_finite(flags@);
    }
    let num_matched_pks = num_pks - num_unmatched;
    let (reachable_pubkeys, reachable_keyimages) = reachable_from_unmatched(
        &columns,
        &rows,
        &pk_mates,
        &ki_mates,
    );
    let num_unreachable_pubkeys = count_unset(&reachable_pubkeys);
    let num_unreachable_keyimages = count_unset(&reachable_keyimages);
    proof {
        lemma_square_block(
            &rows,
            pk_mates@,
            ki_mates@,
            reachable_pubkeys@,
            reachable_keyimages@,
        );
    }
    let graph = fine_graph(&rows, &ki_mates, &reachable_pubkeys, &reachable_keyimages);
    proof {
        let edges = fine_edges(&rows, ki_mates@, reachable_pubkeys@, reachable_keyimages@);
        assert(digraph_nodes(graph) =~= unreached_pks(reachable_pubkeys@)) by {
            assert forall|x: u32| (exists|y: u32| edges.contains((x, y))) implies unreached_pks(
                reachable_pubkeys@,
            ).contains(x) by {
                let y = choose|y: u32| edges.contains((x, y));
                let p = choose|p: int|
                    #[trigger] rows.slot(y as int, p) && !reachable_keyimages@[rows.col_idx@[p] as int]
                        && ki_mates@[rows.col_idx@[p] as int] == x;
                let c = rows.col_idx@[p] as int;
                assert(ki_mates@[c] != UNMATCHED);
                assert(pk_mates@[x as int] == c);
            }
        }
    }
    let sccs = digraph_tarjan_scc(&graph);
    let mut closed_sets: Vec<(Vec<u32>, Vec<u32>)> = Vec::new();
    let mut i: usize = 0;
    while i < sccs.len()
        invariant
            i <= sccs.len(),
            pk_mates.len() == reachable_pubkeys.len(),
            forall|t: int, x: u32|
                0 <= t < sccs.len() && #[trigger] sets_of(sccs@)[t].contains(x) ==> unreached_pks(
                    reachable_pubkeys@,
                ).contains(x),
            forall|t: int| 0 <= t < sccs@.len() ==> (#[trigger] sccs@[t])@.no_duplicates(),
            closed_sets.len() == i,
            forall|t: int| 0 <= t < i ==> (#[trigger] closed_sets@[t]).1@ == sccs@[t]@,
            forall|t: int|
                0 <= t < i ==> (#[trigger] closed_sets@[t]).0.len() == closed_sets@[t].1.len(),
            forall|t: int, j: int|
                0 <= t < i && 0 <= j < closed_sets@[t].1.len() ==> (#[trigger] closed_sets@[t].1@[j])
                    < pk_mates.len() && closed_sets@[t].0@[j] == pk_mates@[closed_sets@[t].1@[j] as int],
        decreases sccs.len() - i,
    {
        let pks = copy_list(&sccs[i]);
        proof {
            assert forall|j: int| 0 <= j < pks.len() implies (#[trigger] pks@[j]) < pk_mates.len() by {
                assert(sccs@[i as int]@.contains(pks@[j]));
                assert(sets_of(sccs@)[i as int].contains(pks@[j]));
            }
        }
        let kis = block_mates(&pks, &pk_mates);
        closed_sets.push((kis, pks));
        i += 1;
    }
    proof {
        assert(sets_of(pk_lists(closed_sets@)) =~= sets_of(sccs@)) by {
            assert forall|t: int| 0 <= t < sccs@.len() implies sets_of(pk_lists(closed_sets@))[t]
                == sets_of(sccs@)[t] by {
                assert(closed_sets@[t].1@ == sccs@[t]@);
            }
        }
        assert forall|t: int| 0 <= t < closed_sets.len() implies (#[trigger] closed_sets@[t]).0.len()
            == closed_sets@[t].1.len() && closed_sets@[t].1@.no_duplicates() by {
            assert(closed_sets@[t].1@ == sccs@[t]@);
        }
    }
    let d = DmDecomposition {
        columns,
        rows,
        pk_mates,
        ki_mates,
        num_matched_pks,
        reachable_pubkeys,
        reachable_keyimages,
        num_unreachable_pubkeys,
        num_unreachable_keyimages,
        closed_sets,
    };
    proof {
        assert(d.holds_graph(num_pks, num_kis, pk_indices@, ki_indices@));
        assert(d.holds_matching());
        assert(d.holds_reach());
        assert(d.holds_blocks());
    }
    Ok(d)
}

/// The rings before and after the attack, and the decomposition that led
/// from the ones to the others.
pub struct DmAttack {
    /// The rings of the graph.
    pub rings_before: Vec<HashSet<u32>>,
    /// What the closed sets of the decomposition leave of the rings.
    pub rings_after: Vec<HashSet<u32>>,
    /// The reverse lists of the graph.
    pub pk_to_ki_map: Vec<Vec<u32>>,
    /// The decomposition.
    pub decomposition: DmDecomposition,
}

impl DmAttack {
    /// This is the attack on the graph of the edges: the rings before are
    /// those of the edges, the decomposition is that of the graph, and the
    /// rings after are what its closed sets, applied in turn, leave.  No ring
    /// gains a member, every assignment of the rings is kept, and the attack
    /// is exact: a ring keeps just the public keys that its key image spends
    /// in some assignment.
    pub open spec fn is_attack_on(
        &self,
        num_pks: usize,
        num_kis: usize,
        pk_indices: Seq<u32>,
        ki_indices: Seq<u32>,
    ) -> bool {
        &&& are_rings_of(
            ring_sets(self.rings_before@),
            lists_of(self.pk_to_ki_map@),
            num_kis as nat,
            num_pks as nat,
            ki_indices,
            pk_indices,
        )
        &&& self.decomposition.is_decomposition_of(num_pks, num_kis, pk_indices, ki_indices)
        &&& ring_sets(self.rings_after@) == reduction_by_all(
            ring_sets(self.rings_before@),
            lists_of(self.pk_to_ki_map@),
            list_pairs(self.decomposition.closed_sets@),
        )
        &&& rings_within(ring_sets(self.rings_after@), ring_sets(self.rings_before@))
        &&& keeps_assignments(ring_sets(self.rings_before@), ring_sets(self.rings_after@))
        &&& self.rings_after.len() == self.rings_before.len()
        &&& forall|ki: int|
            0 <= ki < self.rings_after.len() ==> #[trigger] ring_sets(self.rings_after@)[ki]
                == possible_spends(ring_sets(self.rings_before@), ki)
    }
}

/// A copy of the rings.
fn copy_rings(tx_ring_sets: &Vec<HashSet<u32>>) -> (copy: Vec<HashSet<u32>>)
    ensures
        ring_sets(copy@) == ring_sets(tx_ring_sets@),
{
    let mut copy: Vec<HashSet<u32>> = Vec::new();
    let mut i: usize = 0;
    while i < tx_ring_sets.len()
        invariant
            i <= tx_ring_sets.len(),
            copy.len() == i,
            forall|k: int| 0 <= k < i ==> (#[trigger] copy@[k])@ == tx_ring_sets@[k]@,
        decreases tx_ring_sets.len() - i,
    {
        copy.push(copy_of(&tx_ring_sets[i]));
        i += 1;
    }
    proof {
        assert(ring_sets(copy@) =~= ring_sets(tx_ring_sets@));
    }
    copy
}

/// The rings of the edges are the rings of the graph of the decomposition.
proof fn lemma_rings_match(
    d: &DmDecomposition,
    rings: Seq<Set<u32>>,
    pk_to_ki: Seq<Seq<u32>>,
    num_pks: usize,
    num_kis: usize,
    pk_indices: Seq<u32>,
    ki_indices: Seq<u32>,
)
    requires
        d.holds_graph(num_pks, num_kis, pk_indices, ki_indices),
        d.holds_matching(),
        are_rings_of(rings, pk_to_ki, num_kis as nat, num_pks as nat, ki_indices, pk_indices),
    ensures
        rings_match_graph(rings, &d.rows),
        mates_are_adjacent(&d.rows, d.pk_mates@),
{
    assert forall|ki: int, pk: u32| 0 <= ki < rings.len() implies (#[trigger] rings[ki].contains(
        pk,
    ) <==> d.rows.has_edge(pk as int, ki)) by {
        assert(rings[ki] == public_keys_at(pk_indices, ki_indices, ki));
        assert(d.rows.has_edge(pk as int, ki) <==> is_triplet(
            pk_indices,
            ki_indices,
            pk as int,
            ki,
        ));
        if rings[ki].contains(pk) {
            let t = choose|t: int|
                0 <= t < pk_indices.len() && t < ki_indices.len() && #[trigger] ki_indices[t] == ki
                    && pk_indices[t] == pk;
            assert(pk_indices[t] == pk as int && ki_indices[t] == ki);
        }
        if is_triplet(pk_indices, ki_indices, pk as int, ki) {
            let t = choose|t: int|
                0 <= t < pk_indices.len() && t < ki_indices.len() && #[trigger] pk_indices[t]
                    == pk as int && ki_indices[t] == ki;
            assert(ki_indices[t] == ki && pk_indices[t] == pk);
        }
    }
    assert forall|r: int|
        0 <= r < d.pk_mates@.len() && #[trigger] d.pk_mates@[r] != UNMATCHED implies d.rows.has_edge(
        r,
        d.pk_mates@[r] as int,
    ) by {
        assert(d.columns.has_edge(r, d.pk_mates@[r] as int));
        assert(is_triplet(pk_indices, ki_indices, r, d.pk_mates@[r] as int));
    }
}

/// The attack by the Dulmage-Mendelsohn decomposition on the graph whose
/// edges are the pairs (`ki_indices[i]`, `pk_indices[i]`).
///
/// The rings are built from the edges, the graph is decomposed, and each
/// closed set of the decomposition is applied to the rings in turn.  The
/// graph is refused as inconsistent where its edges do not lie within its
/// shape and where its rings have no assignment.
pub fn dm_attack(num_pks: usize, num_kis: usize, pk_indices: &Vec<u32>, ki_indices: &Vec<u32>) -> (res:
    Result<DmAttack, Error>)
    ensures
        res is Ok <==> edges_in_shape(num_pks, num_kis, pk_indices@, ki_indices@) && has_assignment(
            edge_rings(num_kis, pk_indices@, ki_indices@),
        ),
        res matches Ok(a) ==> a.is_attack_on(num_pks, num_kis, pk_indices@, ki_indices@),
        res matches Err(e) ==> e == Error::Inconsistency,
{
    let decomposition = match dm_decomposition(num_pks, num_kis, pk_indices, ki_indices) {
        Ok(d) => d,
        Err(e) => {
            proof {
                if edges_in_shape(num_pks, num_kis, pk_indices@, ki_indices@) {
                    lemma_refused_rings_have_no_assignment(
                        num_pks,
                        num_kis,
                        pk_indices@,
                        ki_indices@,
                    );
                }
            }
            return Err(e);
        },
    };
    let (rings_before, pk_to_ki_map) = match rings_from_edges(
        num_kis,
        num_pks,
        ki_indices,
        pk_indices,
    ) {
        Ok(built) => built,
        Err(e) => {
            return Err(e);
        },
    };
    let mut rings_after = copy_rings(&rings_before);
    proof {
        lemma_rings_match(
            &decomposition,
            ring_sets(rings_before@),
            lists_of(pk_to_ki_map@),
            num_pks,
            num_kis,
            pk_indices@,
            ki_indices@,
        );
        lemma_decomposition_is_sound(
            &decomposition,
            ring_sets(rings_before@),
            lists_of(pk_to_ki_map@),
        );
        assert forall|ki: int| 0 <= ki < rings_before.len() implies #[trigger] reduction_by_all(
            ring_sets(rings_before@),
            lists_of(pk_to_ki_map@),
            list_pairs(decomposition.closed_sets@),
        )[ki] == possible_spends(ring_sets(rings_before@), ki) by {
            lemma_decomposition_is_exact(
                &decomposition,
                ring_sets(rings_before@),
                lists_of(pk_to_ki_map@),
                ki,
            );
        }
    }
    proof {
        lemma_mates_are_assignment(&decomposition, ring_sets(rings_before@));
        assert(ring_sets(rings_before@) =~= edge_rings(num_kis, pk_indices@, ki_indices@));
    }
    apply_closed_sets(&decomposition.closed_sets, &mut rings_after, &pk_to_ki_map);
    Ok(DmAttack { rings_before, rings_after, pk_to_ki_map, decomposition })
}

} // verus!

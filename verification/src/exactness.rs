//! The decomposition leaves nothing that a sound attack could take.
//!
//! Every public key that the closed sets of the decomposition leave in the
//! ring of a key image is spent by that key image in some assignment.  So
//! no reduction that keeps every assignment can take it out, and whatever
//! such a reduction traces, the decomposition traces too.

use vstd::prelude::*;
use crate::closed_set::{list_pairs, reduction_by_all};
use crate::dm::{
    fine_edges, is_alternating_step, is_alternating_walk, pk_lists, pk_reachable, unreached_pks,
    DmDecomposition,
};
use crate::dm_laws::{
    lemma_decomposition_is_sound, lemma_marks_follow_mates, marks_follow_mates,
    mates_are_adjacent, rings_match_graph,
};
use crate::graphs::{is_step, is_walk, parts_are_components, reaches, sets_of};
use crate::soundness::keeps_assignments;
use crate::matching::UNMATCHED;
use crate::sparse::CsrGraph;
use crate::model::{closed_set_reduction, is_assignment, lists_cover_rings, lists_key_image};

verus! {

/// The assignment that `spent` becomes when each public key of `path` but
/// the first goes from its owner to the owner of the next, and the last
/// goes to `ki`.
pub open spec fn shifted(spent: Seq<u32>, path: Seq<u32>, owners: Seq<int>, ki: int) -> Seq<u32> {
    Seq::new(
        spent.len(),
        |k: int|
            if k == ki {
                path.last()
            } else if exists|j: int| 1 <= j < path.len() && #[trigger] owners[j] == k {
                path[(choose|j: int| 1 <= j < path.len() && #[trigger] owners[j] == k) - 1]
            } else {
                spent[k]
            },
    )
}

/// What a shift starts from: the public keys of the path are distinct, each
/// but the first is spent by its owner, whose ring holds the one before it,
/// and the ring of `ki` holds the last.  Either `ki` spends the first, so
/// that the path closes to a cycle, or nobody spends the first and `ki`
/// spends none of the path.
pub open spec fn can_shift(
    rings: Seq<Set<u32>>,
    spent: Seq<u32>,
    path: Seq<u32>,
    owners: Seq<int>,
    ki: int,
) -> bool {
    &&& is_assignment(rings, spent)
    &&& path.len() >= 1
    &&& owners.len() == path.len()
    &&& path.no_duplicates()
    &&& forall|j: int|
        1 <= j < path.len() ==> 0 <= #[trigger] owners[j] < spent.len() && spent[owners[j]]
            == path[j] && rings[owners[j]].contains(path[j - 1])
    &&& 0 <= ki < spent.len()
    &&& rings[ki].contains(path.last())
    &&& spent[ki] == path[0] || ((forall|k: int|
        0 <= k < spent.len() ==> #[trigger] spent[k] != path[0]) && !path.contains(spent[ki]))
}

/// The owner at each place of the path is no other key image's, and is not
/// `ki`.
proof fn lemma_owners(
    rings: Seq<Set<u32>>,
    spent: Seq<u32>,
    path: Seq<u32>,
    owners: Seq<int>,
    ki: int,
    j: int,
)
    requires
        can_shift(rings, spent, path, owners, ki),
        1 <= j < path.len(),
    ensures
        owners[j] != ki,
        shifted(spent, path, owners, ki)[owners[j]] == path[j - 1],
        forall|i: int| 1 <= i < path.len() && #[trigger] owners[i] == owners[j] ==> i == j,
{
    assert(spent[owners[j]] == path[j]);
    if owners[j] == ki {
        assert(path.contains(path[j]));
    }
    assert forall|i: int| 1 <= i < path.len() && #[trigger] owners[i] == owners[j] implies i
        == j by {
        assert(spent[owners[i]] == path[i]);
    }
    let k = owners[j];
    let c = choose|i: int| 1 <= i < path.len() && #[trigger] owners[i] == k;
    assert(owners[c] == owners[j]);
}

/// The value of the shifted assignment at a key image: a public key of its
/// ring, which is the last of the path for `ki`, the one before that of an
/// owner for an owner, and the one it spent for any other.
proof fn lemma_shifted_at(
    rings: Seq<Set<u32>>,
    spent: Seq<u32>,
    path: Seq<u32>,
    owners: Seq<int>,
    ki: int,
    k: int,
) -> (place: int)
    requires
        can_shift(rings, spent, path, owners, ki),
        0 <= k < spent.len(),
    ensures
        rings[k].contains(shifted(spent, path, owners, ki)[k]),
        -1 <= place < path.len(),
        place >= 0 ==> shifted(spent, path, owners, ki)[k] == path[place],
        place >= 0 && place < path.len() - 1 ==> owners[place + 1] == k,
        place == path.len() - 1 ==> k == ki,
        place == -1 ==> shifted(spent, path, owners, ki)[k] == spent[k] && k != ki
            && !path.contains(spent[k]),
{
    let t = shifted(spent, path, owners, ki);
    if k == ki {
        path.len() - 1
    } else if exists|j: int| 1 <= j < path.len() && #[trigger] owners[j] == k {
        let j = choose|j: int| 1 <= j < path.len() && #[trigger] owners[j] == k;
        lemma_owners(rings, spent, path, owners, ki, j);
        j - 1
    } else {
        assert(rings[k].contains(spent[k]));
        if path.contains(spent[k]) {
            let i = choose|i: int| 0 <= i < path.len() && path[i] == spent[k];
            if i >= 1 {
                assert(spent[owners[i]] == path[i]);
                if owners[i] < k {
                    assert(spent[owners[i]] != spent[k]);
                } else if k < owners[i] {
                    assert(spent[k] != spent[owners[i]]);
                }
                assert(false);
            } else {
                if spent[ki] == path[0] {
                    if ki < k {
                        assert(spent[ki] != spent[k]);
                    } else {
                        assert(spent[k] != spent[ki]);
                    }
                }
                assert(false);
            }
        }
        -1
    }
}

/// A shift gives an assignment in which `ki` spends the last public key of
/// the path.
pub proof fn lemma_shift(
    rings: Seq<Set<u32>>,
    spent: Seq<u32>,
    path: Seq<u32>,
    owners: Seq<int>,
    ki: int,
)
    requires
        can_shift(rings, spent, path, owners, ki),
    ensures
        is_assignment(rings, shifted(spent, path, owners, ki)),
        shifted(spent, path, owners, ki)[ki] == path.last(),
{
    let t = shifted(spent, path, owners, ki);
    assert forall|k: int| 0 <= k < rings.len() implies rings[k].contains(#[trigger] t[k]) by {
        lemma_shifted_at(rings, spent, path, owners, ki, k);
    }
    assert forall|a: int, b: int| 0 <= a < b < t.len() implies #[trigger] t[a] != #[trigger] t[b] by {
        let pa = lemma_shifted_at(rings, spent, path, owners, ki, a);
        let pb = lemma_shifted_at(rings, spent, path, owners, ki, b);
        if pa >= 0 && pb >= 0 {
            if pa == pb {
                if pa < path.len() - 1 {
                    assert(owners[pa + 1] == a && owners[pb + 1] == b);
                }
            } else {
                assert(path[pa] != path[pb]);
            }
        } else if pa >= 0 {
            assert(path.contains(path[pa]));
        } else if pb >= 0 {
            assert(path.contains(path[pb]));
        } else {
            assert(spent[a] != spent[b]);
        }
    }
}

/// A walk with its loops cut out: a walk between the same two nodes that
/// comes to no node twice.
pub proof fn lemma_simple_walk(edges: Set<(u32, u32)>, walk: Seq<u32>) -> (simple: Seq<u32>)
    requires
        is_walk(edges, walk),
    ensures
        is_walk(edges, simple),
        simple[0] == walk[0],
        simple.last() == walk.last(),
        simple.no_duplicates(),
    decreases walk.len(),
{
    if walk.no_duplicates() {
        walk
    } else {
        let (i, j) = choose|i: int, j: int|
            0 <= i < walk.len() && 0 <= j < walk.len() && i != j && walk[i] == walk[j];
        let lo = if i < j { i } else { j };
        let hi = if i < j { j } else { i };
        let shorter = walk.take(lo + 1) + walk.skip(hi + 1);
        assert(is_walk(edges, shorter)) by {
            assert forall|k: int| 0 <= k < shorter.len() - 1 implies #[trigger] is_step(
                edges,
                shorter,
                k,
            ) by {
                if k < lo {
                    assert(is_step(edges, walk, k));
                } else if k == lo {
                    assert(is_step(edges, walk, hi));
                } else {
                    assert(is_step(edges, walk, k + hi - lo));
                }
            }
        }
        assert(shorter[0] == walk[0]);
        assert(shorter.last() == walk.last()) by {
            if hi == walk.len() - 1 {
                assert(shorter =~= walk.take(lo + 1));
            }
        }
        lemma_simple_walk(edges, shorter)
    }
}

/// What a run of reductions leaves in a ring: the public keys that none of
/// the sets takes out.
pub proof fn lemma_reduced_ring(
    rings: Seq<Set<u32>>,
    pk_to_ki: Seq<Seq<u32>>,
    sets: Seq<(Set<u32>, Set<u32>)>,
    ki: int,
    pk: u32,
)
    requires
        0 <= ki < rings.len(),
    ensures
        reduction_by_all(rings, pk_to_ki, sets).len() == rings.len(),
        reduction_by_all(rings, pk_to_ki, sets)[ki].contains(pk) <==> rings[ki].contains(pk)
            && forall|i: int|
            0 <= i < sets.len() ==> !((#[trigger] sets[i]).1.contains(pk) && !sets[i].0.contains(
                ki as u32,
            ) && lists_key_image(pk_to_ki, pk, ki)),
    decreases sets.len(),
{
    if sets.len() > 0 {
        let front = sets.drop_last();
        lemma_reduced_ring(rings, pk_to_ki, front, ki, pk);
        let mid = reduction_by_all(rings, pk_to_ki, front);
        let after = reduction_by_all(rings, pk_to_ki, sets);
        assert(after == closed_set_reduction(mid, pk_to_ki, sets.last().0, sets.last().1));
        if after[ki].contains(pk) {
            assert forall|i: int| 0 <= i < sets.len() implies !((#[trigger] sets[i]).1.contains(pk)
                && !sets[i].0.contains(ki as u32) && lists_key_image(pk_to_ki, pk, ki)) by {
                if i < front.len() {
                    assert(front[i] == sets[i]);
                }
            }
        }
        if rings[ki].contains(pk) && forall|i: int|
            0 <= i < sets.len() ==> !((#[trigger] sets[i]).1.contains(pk) && !sets[i].0.contains(
                ki as u32,
            ) && lists_key_image(pk_to_ki, pk, ki)) {
            assert forall|i: int| 0 <= i < front.len() implies !((#[trigger] front[i]).1.contains(
                pk,
            ) && !front[i].0.contains(ki as u32) && lists_key_image(pk_to_ki, pk, ki)) by {
                assert(front[i] == sets[i]);
            }
            assert(sets[sets.len() - 1] == sets.last());
        }
    }
}

/// What the lemmas on the decomposition start from: the decomposition of
/// a graph, and the rings of that graph.
pub open spec fn decomposed(d: &DmDecomposition, rings: Seq<Set<u32>>) -> bool {
    &&& d.rows.wf()
    &&& d.rows.num_rows == d.columns.num_rows
    &&& d.rows.num_cols == d.columns.num_cols
    &&& d.holds_matching()
    &&& d.holds_reach()
    &&& d.holds_blocks()
    &&& mates_are_adjacent(&d.rows, d.pk_mates@)
    &&& rings_match_graph(rings, &d.rows)
}

/// The matching of the decomposition is an assignment of the rings.
pub proof fn lemma_mates_are_assignment(d: &DmDecomposition, rings: Seq<Set<u32>>)
    requires
        decomposed(d, rings),
    ensures
        is_assignment(rings, d.ki_mates@),
        marks_follow_mates(d.pk_mates@, d.ki_mates@, d.reachable_pubkeys@, d.reachable_keyimages@),
{
    lemma_marks_follow_mates(d);
    let spent = d.ki_mates@;
    assert forall|ki: int| 0 <= ki < rings.len() implies rings[ki].contains(#[trigger] spent[ki]) by {
        let r = spent[ki];
        assert(r != UNMATCHED);
        assert(d.pk_mates@[r as int] == ki);
        assert(d.pk_mates@[r as int] != UNMATCHED);
        assert(d.rows.has_edge(r as int, d.pk_mates@[r as int] as int));
    }
    assert forall|a: int, b: int| 0 <= a < b < spent.len() implies #[trigger] spent[a]
        != #[trigger] spent[b] by {
        assert(spent[a] != UNMATCHED && spent[b] != UNMATCHED);
        assert(d.pk_mates@[spent[a] as int] == a);
        assert(d.pk_mates@[spent[b] as int] == b);
    }
}

/// An alternating walk with its loops cut out.
proof fn lemma_simple_alternating_walk(g: &CsrGraph, pk_mates: Seq<u32>, walk: Seq<int>) -> (simple:
    Seq<int>)
    requires
        is_alternating_walk(g, pk_mates, walk),
    ensures
        is_alternating_walk(g, pk_mates, simple),
        simple.last() == walk.last(),
        simple.no_duplicates(),
    decreases walk.len(),
{
    if walk.no_duplicates() {
        walk
    } else {
        let (i, j) = choose|i: int, j: int|
            0 <= i < walk.len() && 0 <= j < walk.len() && i != j && walk[i] == walk[j];
        let lo = if i < j { i } else { j };
        let hi = if i < j { j } else { i };
        let shorter = walk.take(lo + 1) + walk.skip(hi + 1);
        assert(is_alternating_walk(g, pk_mates, shorter)) by {
            assert forall|k: int| 0 <= k < shorter.len() implies 0 <= #[trigger] shorter[k]
                < pk_mates.len() by {
                if k <= lo {
                    assert(shorter[k] == walk[k]);
                } else {
                    assert(shorter[k] == walk[k + hi - lo]);
                }
            }
            assert(shorter[0] == walk[0]);
            assert forall|k: int| 0 <= k < shorter.len() - 1 implies #[trigger] is_alternating_step(
                g,
                pk_mates,
                shorter,
                k,
            ) by {
                if k < lo {
                    assert(is_alternating_step(g, pk_mates, walk, k));
                } else if k == lo {
                    assert(is_alternating_step(g, pk_mates, walk, hi));
                } else {
                    assert(is_alternating_step(g, pk_mates, walk, k + hi - lo));
                }
            }
        }
        assert(shorter.last() == walk.last()) by {
            if hi == walk.len() - 1 {
                assert(shorter =~= walk.take(lo + 1));
            }
        }
        lemma_simple_alternating_walk(g, pk_mates, shorter)
    }
}

/// A public key that a walk reaches, in the ring of a key image, is spent
/// by that key image in some assignment: along the walk each public key
/// goes to the owner of the next.
proof fn lemma_reached_member_is_spent(
    d: &DmDecomposition,
    rings: Seq<Set<u32>>,
    ki: int,
    pk: u32,
) -> (spent: Seq<u32>)
    requires
        decomposed(d, rings),
        0 <= ki < rings.len(),
        rings[ki].contains(pk),
        pk < d.reachable_pubkeys.len(),
        d.reachable_pubkeys@[pk as int],
    ensures
        is_assignment(rings, spent),
        spent[ki] == pk,
{
    lemma_mates_are_assignment(d, rings);
    let pk_mates = d.pk_mates@;
    let ki_mates = d.ki_mates@;
    assert(pk_reachable(&d.rows, pk_mates, pk as int));
    let walk = choose|walk: Seq<int>| #[trigger]
        is_alternating_walk(&d.rows, pk_mates, walk) && walk.last() == pk as int;
    let simple = lemma_simple_alternating_walk(&d.rows, pk_mates, walk);
    let from = if exists|j: int| 0 <= j < simple.len() && simple[j] == ki_mates[ki] as int {
        choose|j: int| 0 <= j < simple.len() && simple[j] == ki_mates[ki] as int
    } else {
        0
    };
    let path = Seq::new((simple.len() - from) as nat, |j: int| simple[from + j] as u32);
    let owners = Seq::new(path.len(), |j: int| pk_mates[simple[from + j]] as int);
    assert(can_shift(rings, ki_mates, path, owners, ki)) by {
        assert forall|a: int, b: int| 0 <= a < path.len() && 0 <= b < path.len() && a != b implies path[a]
            != path[b] by {
            assert(simple[from + a] != simple[from + b]);
        }
        assert forall|j: int| 1 <= j < path.len() implies 0 <= #[trigger] owners[j] < ki_mates.len()
            && ki_mates[owners[j]] == path[j] && rings[owners[j]].contains(path[j - 1]) by {
            assert(is_alternating_step(&d.rows, pk_mates, simple, from + j - 1));
            let r = simple[from + j];
            assert(pk_mates[r] != UNMATCHED);
            assert(ki_mates[pk_mates[r] as int] == r);
        }
        assert(path.last() == pk);
        if exists|j: int| 0 <= j < simple.len() && simple[j] == ki_mates[ki] as int {
            assert(path[0] == ki_mates[ki]);
        } else {
            assert forall|k: int| 0 <= k < ki_mates.len() implies #[trigger] ki_mates[k] != path[0] by {
                if ki_mates[k] == path[0] {
                    assert(ki_mates[k] != UNMATCHED);
                    assert(pk_mates[ki_mates[k] as int] == k);
                    assert(pk_mates[simple[0]] == UNMATCHED);
                }
            }
            if path.contains(ki_mates[ki]) {
                let j = choose|j: int| 0 <= j < path.len() && path[j] == ki_mates[ki];
                assert(simple[from + j] == ki_mates[ki] as int);
            }
        }
    }
    lemma_shift(rings, ki_mates, path, owners, ki);
    shifted(ki_mates, path, owners, ki)
}

/// The edge of the fine decomposition graph into a node leads from the
/// public key that the owner of the edge spends.
proof fn lemma_fine_edge(d: &DmDecomposition, rings: Seq<Set<u32>>, x: u32, y: u32)
    requires
        decomposed(d, rings),
        marks_follow_mates(d.pk_mates@, d.ki_mates@, d.reachable_pubkeys@, d.reachable_keyimages@),
        fine_edges(&d.rows, d.ki_mates@, d.reachable_pubkeys@, d.reachable_keyimages@).contains(
            (x, y),
        ),
    ensures
        x < d.pk_mates.len(),
        d.pk_mates@[x as int] != UNMATCHED,
        d.pk_mates@[x as int] < d.ki_mates.len(),
        d.ki_mates@[d.pk_mates@[x as int] as int] == x,
        rings[d.pk_mates@[x as int] as int].contains(y),
{
    let p = choose|p: int|
        #[trigger] d.rows.slot(y as int, p) && !d.reachable_keyimages@[d.rows.col_idx@[p] as int]
            && d.ki_mates@[d.rows.col_idx@[p] as int] == x;
    let c = d.rows.col_idx@[p] as int;
    assert(d.rows.row_ptr@[y as int + 1] <= d.rows.row_ptr@[d.rows.num_rows as int]);
    assert(d.ki_mates@[c] != UNMATCHED);
    assert(d.pk_mates@[x as int] == c);
    assert(d.rows.has_edge(y as int, c));
}

/// A public key that no walk reaches, left by the closed sets in the ring
/// of a key image, is spent by that key image in some assignment: the
/// matching is rotated along a cycle of the fine decomposition graph.
proof fn lemma_unreached_member_is_spent(
    d: &DmDecomposition,
    rings: Seq<Set<u32>>,
    ki: int,
    pk: u32,
    other: u32,
) -> (spent: Seq<u32>)
    requires
        decomposed(d, rings),
        0 <= ki < rings.len(),
        rings[ki].contains(pk),
        other < d.pk_mates.len(),
        d.pk_mates@[other as int] == ki,
        reaches(
            fine_edges(&d.rows, d.ki_mates@, d.reachable_pubkeys@, d.reachable_keyimages@),
            pk,
            other,
        ),
    ensures
        is_assignment(rings, spent),
        spent[ki] == pk,
{
    lemma_mates_are_assignment(d, rings);
    let pk_mates = d.pk_mates@;
    let ki_mates = d.ki_mates@;
    let edges = fine_edges(&d.rows, ki_mates, d.reachable_pubkeys@, d.reachable_keyimages@);
    let walk = choose|walk: Seq<u32>| #[trigger]
        is_walk(edges, walk) && walk[0] == pk && walk.last() == other;
    let simple = lemma_simple_walk(edges, walk);
    let m = simple.len() - 1;
    let path = Seq::new(simple.len(), |j: int| simple[m - j]);
    let owners = Seq::new(path.len(), |j: int| pk_mates[path[j] as int] as int);
    assert(ki_mates[ki] == other) by {
        assert(pk_mates[other as int] != UNMATCHED);
    }
    assert(can_shift(rings, ki_mates, path, owners, ki)) by {
        assert forall|a: int, b: int| 0 <= a < path.len() && 0 <= b < path.len() && a != b implies path[a]
            != path[b] by {
            assert(simple[m - a] != simple[m - b]);
        }
        assert forall|j: int| 1 <= j < path.len() implies 0 <= #[trigger] owners[j] < ki_mates.len()
            && ki_mates[owners[j]] == path[j] && rings[owners[j]].contains(path[j - 1]) by {
            assert(is_step(edges, simple, m - j));
            lemma_fine_edge(d, rings, simple[m - j], simple[m - j + 1]);
        }
        assert(path.last() == pk);
        assert(path[0] == other);
    }
    lemma_shift(rings, ki_mates, path, owners, ki);
    shifted(ki_mates, path, owners, ki)
}

/// Two nodes of one part reach each other.
proof fn lemma_part_reaches(edges: Set<(u32, u32)>, parts: Seq<Set<u32>>, i: int, x: u32, y: u32)
    requires
        parts_are_components(edges, parts),
        0 <= i < parts.len(),
        parts[i].contains(x),
        parts[i].contains(y),
    ensures
        reaches(edges, x, y),
{
    reveal(parts_are_components);
}

/// The block of a public key that no walk reaches, and the public key of
/// that block whose mate a key image is that keeps the first in its ring.
proof fn lemma_block_of(
    d: &DmDecomposition,
    rings: Seq<Set<u32>>,
    pk_to_ki: Seq<Seq<u32>>,
    ki: int,
    pk: u32,
) -> (other: u32)
    requires
        decomposed(d, rings),
        lists_cover_rings(rings, pk_to_ki),
        0 <= ki < rings.len(),
        reduction_by_all(rings, pk_to_ki, list_pairs(d.closed_sets@))[ki].contains(pk),
        pk < d.reachable_pubkeys.len(),
        !d.reachable_pubkeys@[pk as int],
    ensures
        rings[ki].contains(pk),
        other < d.pk_mates.len(),
        d.pk_mates@[other as int] == ki,
        reaches(
            fine_edges(&d.rows, d.ki_mates@, d.reachable_pubkeys@, d.reachable_keyimages@),
            pk,
            other,
        ),
{
    let sets = list_pairs(d.closed_sets@);
    let parts = sets_of(pk_lists(d.closed_sets@));
    let edges = fine_edges(&d.rows, d.ki_mates@, d.reachable_pubkeys@, d.reachable_keyimages@);
    lemma_reduced_ring(rings, pk_to_ki, sets, ki, pk);
    assert(unreached_pks(d.reachable_pubkeys@).contains(pk));
    let i = choose|i: int| 0 <= i < parts.len() && #[trigger] parts[i].contains(pk);
    assert(sets[i].1 == parts[i]);
    assert(lists_key_image(pk_to_ki, pk, ki));
    assert(sets[i].0.contains(ki as u32));
    let block_kis = d.closed_sets@[i].0@;
    let block_pks = d.closed_sets@[i].1@;
    let j = choose|j: int| 0 <= j < block_kis.len() && block_kis[j] == ki as u32;
    let other = block_pks[j];
    assert(d.closed_sets@[i].1@[j] < d.pk_mates.len());
    assert(block_kis[j] == d.pk_mates@[block_pks[j] as int]);
    assert(block_pks.contains(other));
    lemma_part_reaches(edges, parts, i, pk, other);
    other
}

/// Every public key that the closed sets of the decomposition leave in the
/// ring of a key image is spent by that key image in some assignment of
/// the rings.
pub proof fn lemma_member_is_spent(
    d: &DmDecomposition,
    rings: Seq<Set<u32>>,
    pk_to_ki: Seq<Seq<u32>>,
    ki: int,
    pk: u32,
) -> (spent: Seq<u32>)
    requires
        decomposed(d, rings),
        lists_cover_rings(rings, pk_to_ki),
        0 <= ki < rings.len(),
        reduction_by_all(rings, pk_to_ki, list_pairs(d.closed_sets@))[ki].contains(pk),
    ensures
        is_assignment(rings, spent),
        spent[ki] == pk,
{
    lemma_reduced_ring(rings, pk_to_ki, list_pairs(d.closed_sets@), ki, pk);
    assert(d.rows.has_edge(pk as int, ki));
    let p = choose|p: int| #[trigger] d.rows.slot(pk as int, p);
    if d.reachable_pubkeys@[pk as int] {
        lemma_reached_member_is_spent(d, rings, ki, pk)
    } else {
        let other = lemma_block_of(d, rings, pk_to_ki, ki, pk);
        lemma_unreached_member_is_spent(d, rings, ki, pk, other)
    }
}

/// The public keys that a key image spends in some assignment of the
/// rings.
pub open spec fn possible_spends(rings: Seq<Set<u32>>, ki: int) -> Set<u32> {
    Set::new(|pk: u32| exists|spent: Seq<u32>| #[trigger] is_assignment(rings, spent) && spent[ki] == pk)
}

/// The decomposition is exact: what its closed sets leave of a ring are the
/// public keys that the key image spends in some assignment, no more and no
/// fewer.
pub proof fn lemma_decomposition_is_exact(
    d: &DmDecomposition,
    rings: Seq<Set<u32>>,
    pk_to_ki: Seq<Seq<u32>>,
    ki: int,
)
    requires
        decomposed(d, rings),
        lists_cover_rings(rings, pk_to_ki),
        0 <= ki < rings.len(),
    ensures
        reduction_by_all(rings, pk_to_ki, list_pairs(d.closed_sets@))[ki] == possible_spends(
            rings,
            ki,
        ),
{
    let after = reduction_by_all(rings, pk_to_ki, list_pairs(d.closed_sets@));
    lemma_decomposition_is_sound(d, rings, pk_to_ki);
    assert forall|pk: u32| after[ki].contains(pk) <==> possible_spends(rings, ki).contains(pk) by {
        if after[ki].contains(pk) {
            let spent = lemma_member_is_spent(d, rings, pk_to_ki, ki, pk);
            assert(is_assignment(rings, spent) && spent[ki] == pk);
        }
        if possible_spends(rings, ki).contains(pk) {
            let spent = choose|spent: Seq<u32>| #[trigger]
                is_assignment(rings, spent) && spent[ki] == pk;
            assert(is_assignment(after, spent));
        }
    }
    assert(after[ki] =~= possible_spends(rings, ki));
}

/// The decomposition is at least as strong as any sound attack: what it
/// leaves of a ring lies within what any reduction leaves that keeps every
/// assignment.
pub proof fn lemma_decomposition_is_strongest(
    d: &DmDecomposition,
    rings: Seq<Set<u32>>,
    pk_to_ki: Seq<Seq<u32>>,
    reduced: Seq<Set<u32>>,
    ki: int,
)
    requires
        decomposed(d, rings),
        lists_cover_rings(rings, pk_to_ki),
        keeps_assignments(rings, reduced),
        reduced.len() == rings.len(),
        0 <= ki < rings.len(),
    ensures
        reduction_by_all(rings, pk_to_ki, list_pairs(d.closed_sets@))[ki].subset_of(reduced[ki]),
{
    let after = reduction_by_all(rings, pk_to_ki, list_pairs(d.closed_sets@));
    assert forall|pk: u32| after[ki].contains(pk) implies reduced[ki].contains(pk) by {
        let spent = lemma_member_is_spent(d, rings, pk_to_ki, ki, pk);
        assert(is_assignment(reduced, spent));
    }
}

/// The decomposition traces whatever a sound attack traces: a ring that
/// any reduction that keeps every assignment leaves with a single member is
/// left with that member by the decomposition.
pub proof fn lemma_decomposition_traces_more(
    d: &DmDecomposition,
    rings: Seq<Set<u32>>,
    pk_to_ki: Seq<Seq<u32>>,
    reduced: Seq<Set<u32>>,
    ki: int,
)
    requires
        decomposed(d, rings),
        lists_cover_rings(rings, pk_to_ki),
        keeps_assignments(rings, reduced),
        reduced.len() == rings.len(),
        0 <= ki < rings.len(),
        reduced[ki].finite(),
        reduced[ki].len() == 1,
    ensures
        reduction_by_all(rings, pk_to_ki, list_pairs(d.closed_sets@))[ki] == reduced[ki],
{
    let after = reduction_by_all(rings, pk_to_ki, list_pairs(d.closed_sets@));
    lemma_decomposition_is_strongest(d, rings, pk_to_ki, reduced, ki);
    lemma_mates_are_assignment(d, rings);
    lemma_decomposition_is_sound(d, rings, pk_to_ki);
    assert(is_assignment(after, d.ki_mates@));
    assert(after[ki].contains(d.ki_mates@[ki]));
    vstd::set_lib::lemma_len_subset(after[ki], reduced[ki]);
    assert(after[ki].len() >= 1) by {
        if after[ki].len() == 0 {
            assert(after[ki] =~= Set::<u32>::empty());
        }
    }
    vstd::set_lib::lemma_subset_equality(after[ki], reduced[ki]);
}

} // verus!

//! What holds of every Dulmage-Mendelsohn decomposition.
//!
//! The public keys and key images that no alternating walk reaches form a
//! closed set of the rings, which the matching matches perfectly; the fine
//! decomposition graph is its rotation graph, with every edge turned round.
//! So the blocks of the decomposition are sound, as the parts of any fine
//! decomposition are.

use vstd::prelude::*;
use crate::closed_set::{list_pairs, reduction_by_all};
use crate::dm::{
    fine_edges, is_inverse_matching, ki_reachable, lemma_square_block,
    lemma_walk_extends, matched_flags, pk_lists, pk_reachable, unreached_pks, DmDecomposition,
};
use crate::graphs::{parts_are_components, parts_cover, sets_of};
use crate::dm::leaves_key_image_unmatched;
use crate::matching::{
    admits_no_augmentation, column_matched, is_matching, lemma_some_column_stays_unmatched,
    CscGraph, UNMATCHED,
};
use crate::sparse::is_triplet;
use crate::model::{is_assignment, is_closed_set, is_perfect_matching, mates_of};
use crate::rotation::{edges_oppose_turns, lemma_part_claims, rotation_setting};
use crate::sets::{lemma_unset_finite, unset};
use crate::loader::public_keys_at;
use crate::soundness::{
    all_claim, claims, has_assignment, keeps_assignments, lemma_reductions_are_sound,
};
use crate::sparse::CsrGraph;

verus! {

/// The rings are those of the graph: the ring of a key image holds the
/// public keys adjacent to it.
pub open spec fn rings_match_graph(rings: Seq<Set<u32>>, rows: &CsrGraph) -> bool {
    &&& rings.len() == rows.num_cols
    &&& forall|ki: int, pk: u32|
        0 <= ki < rings.len() ==> (#[trigger] rings[ki].contains(pk) <==> rows.has_edge(
            pk as int,
            ki,
        ))
}

/// The key images that no alternating walk reaches.
pub open spec fn unreached_kis(reach_ki: Seq<bool>) -> Set<u32> {
    Set::new(|ki: u32| ki < reach_ki.len() && !reach_ki[ki as int])
}

/// The mate of each key image that no walk reaches.
pub open spec fn block_mate(ki_mates: Seq<u32>, reach_ki: Seq<bool>) -> Map<u32, u32> {
    Map::new(|ki: u32| unreached_kis(reach_ki).contains(ki), |ki: u32| ki_mates[ki as int])
}

/// The marks of a decomposition, as far as the matching goes: a matched
/// public key is reached exactly if its mate is, and an unmatched one is
/// reached.
pub open spec fn marks_follow_mates(
    pk_mates: Seq<u32>,
    ki_mates: Seq<u32>,
    reach_pk: Seq<bool>,
    reach_ki: Seq<bool>,
) -> bool {
    &&& reach_pk.len() == pk_mates.len()
    &&& reach_ki.len() == ki_mates.len()
    &&& ki_mates.len() <= u32::MAX
    &&& pk_mates.len() <= u32::MAX
    &&& is_inverse_matching(pk_mates, ki_mates)
    &&& forall|c: int| 0 <= c < ki_mates.len() ==> #[trigger] ki_mates[c] != UNMATCHED
    &&& forall|r: int| 0 <= r < reach_pk.len() && !reach_pk[r] ==> #[trigger] pk_mates[r] != UNMATCHED
    &&& forall|r: int|
        0 <= r < reach_pk.len() && #[trigger] pk_mates[r] != UNMATCHED ==> (reach_pk[r]
            <==> reach_ki[pk_mates[r] as int])
    &&& unset(reach_pk).len() == unset(reach_ki).len()
}

/// The marks of a decomposition follow its mates.
pub proof fn lemma_marks_follow_mates(d: &DmDecomposition)
    requires
        d.rows.wf(),
        d.rows.num_rows == d.columns.num_rows,
        d.rows.num_cols == d.columns.num_cols,
        d.holds_matching(),
        d.holds_reach(),
    ensures
        marks_follow_mates(d.pk_mates@, d.ki_mates@, d.reachable_pubkeys@, d.reachable_keyimages@),
{
    let rows = &d.rows;
    let pk_mates = d.pk_mates@;
    let ki_mates = d.ki_mates@;
    let reach_pk = d.reachable_pubkeys@;
    let reach_ki = d.reachable_keyimages@;
    assert forall|c: int| 0 <= c < reach_ki.len() && #[trigger] reach_ki[c] implies reach_pk[ki_mates[c] as int] by {
        assert(ki_reachable(rows, pk_mates, c));
        let r = choose|r: int| #[trigger] pk_reachable(rows, pk_mates, r) && rows.has_edge(r, c);
        assert(ki_mates[c] != UNMATCHED);
        let r2 = ki_mates[c] as int;
        assert(pk_mates[r2] == c);
        lemma_walk_extends(rows, pk_mates, r, c, r2);
        assert(reach_pk[r2] <==> pk_reachable(rows, pk_mates, r2));
    }
    lemma_square_block(rows, pk_mates, ki_mates, reach_pk, reach_ki);
}

/// The public keys and key images that no walk reaches are as many.
proof fn lemma_block_sizes(reach_pk: Seq<bool>, reach_ki: Seq<bool>)
    requires
        reach_pk.len() <= u32::MAX,
        reach_ki.len() <= u32::MAX,
        unset(reach_pk).len() == unset(reach_ki).len(),
    ensures
        unreached_pks(reach_pk).finite(),
        unreached_kis(reach_ki).finite(),
        unreached_pks(reach_pk).len() == unreached_kis(reach_ki).len(),
{
    let f = |i: int| i as u32;
    lemma_unset_finite(reach_pk);
    lemma_unset_finite(reach_ki);
    assert(vstd::relations::injective_on(f, unset(reach_pk)));
    assert(vstd::relations::injective_on(f, unset(reach_ki)));
    assert(unset(reach_pk).map(f) =~= unreached_pks(reach_pk)) by {
        assert forall|x: u32| unreached_pks(reach_pk).contains(x) implies unset(reach_pk).map(
            f,
        ).contains(x) by {
            assert(unset(reach_pk).contains(x as int));
            assert(f(x as int) == x);
        }
    }
    assert(unset(reach_ki).map(f) =~= unreached_kis(reach_ki)) by {
        assert forall|x: u32| unreached_kis(reach_ki).contains(x) implies unset(reach_ki).map(
            f,
        ).contains(x) by {
            assert(unset(reach_ki).contains(x as int));
            assert(f(x as int) == x);
        }
    }
    vstd::set_lib::lemma_map_size(unset(reach_pk), unreached_pks(reach_pk), f);
    vstd::set_lib::lemma_map_size(unset(reach_ki), unreached_kis(reach_ki), f);
}

/// An edge from a reached public key leads to a reached key image.
proof fn lemma_edge_from_reached(d: &DmDecomposition, pk: int, ki: int)
    requires
        d.rows.wf(),
        d.holds_reach(),
        d.rows.has_edge(pk, ki),
        0 <= pk < d.rows.num_rows,
        d.reachable_pubkeys@[pk],
    ensures
        0 <= ki < d.rows.num_cols,
        d.reachable_keyimages@[ki],
{
    let p = choose|p: int| #[trigger] d.rows.slot(pk, p) && d.rows.col_idx@[p] == ki;
    assert(d.rows.row_ptr@[pk + 1] <= d.rows.row_ptr@[d.rows.num_rows as int]);
    assert(pk_reachable(&d.rows, d.pk_mates@, pk));
    assert(ki_reachable(&d.rows, d.pk_mates@, ki));
}

/// The square block is a closed set of the rings.
proof fn lemma_block_is_closed(d: &DmDecomposition, rings: Seq<Set<u32>>)
    requires
        d.rows.wf(),
        d.holds_reach(),
        rings_match_graph(rings, &d.rows),
        marks_follow_mates(d.pk_mates@, d.ki_mates@, d.reachable_pubkeys@, d.reachable_keyimages@),
    ensures
        is_closed_set(
            rings,
            unreached_kis(d.reachable_keyimages@),
            unreached_pks(d.reachable_pubkeys@),
        ),
{
    let kis = unreached_kis(d.reachable_keyimages@);
    let pks = unreached_pks(d.reachable_pubkeys@);
    lemma_block_sizes(d.reachable_pubkeys@, d.reachable_keyimages@);
    assert forall|ki: u32| #[trigger] kis.contains(ki) implies ki < rings.len() && rings[ki as int].subset_of(
        pks,
    ) by {
        assert forall|pk: u32| rings[ki as int].contains(pk) implies pks.contains(pk) by {
            assert(d.rows.has_edge(pk as int, ki as int));
            let p = choose|p: int| #[trigger] d.rows.slot(pk as int, p);
            if d.reachable_pubkeys@[pk as int] {
                lemma_edge_from_reached(d, pk as int, ki as int);
            }
        }
    }
}

/// Every edge of a matching is an edge of the graph, seen from the rows.
pub open spec fn mates_are_adjacent(rows: &CsrGraph, pk_mates: Seq<u32>) -> bool {
    forall|r: int|
        0 <= r < pk_mates.len() && #[trigger] pk_mates[r] != UNMATCHED ==> rows.has_edge(
            r,
            pk_mates[r] as int,
        )
}

/// The matching matches the square block perfectly.
proof fn lemma_block_is_matched(d: &DmDecomposition, rings: Seq<Set<u32>>)
    requires
        rings_match_graph(rings, &d.rows),
        d.ki_mates.len() == d.rows.num_cols,
        mates_are_adjacent(&d.rows, d.pk_mates@),
        marks_follow_mates(d.pk_mates@, d.ki_mates@, d.reachable_pubkeys@, d.reachable_keyimages@),
    ensures
        is_perfect_matching(
            rings,
            unreached_kis(d.reachable_keyimages@),
            unreached_pks(d.reachable_pubkeys@),
            block_mate(d.ki_mates@, d.reachable_keyimages@),
        ),
{
    let kis = unreached_kis(d.reachable_keyimages@);
    let pks = unreached_pks(d.reachable_pubkeys@);
    let mate = block_mate(d.ki_mates@, d.reachable_keyimages@);
    let pk_mates = d.pk_mates@;
    let ki_mates = d.ki_mates@;
    assert forall|ki: u32| #[trigger] kis.contains(ki) implies ki < rings.len() && mate.dom().contains(
        ki,
    ) && pks.contains(mate[ki]) && rings[ki as int].contains(mate[ki]) by {
        let r = ki_mates[ki as int];
        assert(r != UNMATCHED);
        assert(pk_mates[r as int] == ki);
        assert(pk_mates[r as int] != UNMATCHED);
        assert(d.rows.has_edge(r as int, pk_mates[r as int] as int));
    }
    assert forall|a: u32, b: u32|
        #[trigger] kis.contains(a) && #[trigger] kis.contains(b) && a != b implies mate[a]
        != mate[b] by {
        assert(ki_mates[a as int] != UNMATCHED);
        assert(ki_mates[b as int] != UNMATCHED);
        assert(pk_mates[ki_mates[a as int] as int] == a);
        assert(pk_mates[ki_mates[b as int] as int] == b);
    }
    assert forall|pk: u32| pks.contains(pk) implies exists|ki: u32| #[trigger]
        kis.contains(ki) && mate[ki] == pk by {
        assert(pk_mates[pk as int] != UNMATCHED);
        let ki = pk_mates[pk as int];
        assert(ki_mates[ki as int] == pk);
        assert(kis.contains(ki) && mate[ki] == pk);
    }
}

/// The edges of the fine decomposition graph oppose the turns.
proof fn lemma_fine_edges_oppose(d: &DmDecomposition, rings: Seq<Set<u32>>)
    requires
        d.rows.wf(),
        d.holds_reach(),
        rings_match_graph(rings, &d.rows),
        d.ki_mates.len() == d.rows.num_cols,
    ensures
        edges_oppose_turns(
            fine_edges(&d.rows, d.ki_mates@, d.reachable_pubkeys@, d.reachable_keyimages@),
            rings,
            unreached_kis(d.reachable_keyimages@),
            block_mate(d.ki_mates@, d.reachable_keyimages@),
        ),
{
    reveal(edges_oppose_turns);
    let kis = unreached_kis(d.reachable_keyimages@);
    let mate = block_mate(d.ki_mates@, d.reachable_keyimages@);
    let edges = fine_edges(&d.rows, d.ki_mates@, d.reachable_pubkeys@, d.reachable_keyimages@);
    assert forall|ki: u32, pk: u32|
        #[trigger] kis.contains(ki) && ki < rings.len() && #[trigger] rings[ki as int].contains(pk)
            && mate[ki] != pk implies edges.contains((mate[ki], pk)) by {
        assert(d.rows.has_edge(pk as int, ki as int));
        let p = choose|p: int| #[trigger] d.rows.slot(pk as int, p) && d.rows.col_idx@[p] == ki;
        assert(d.rows.slot(pk as int, p));
        if d.reachable_pubkeys@[pk as int] {
            lemma_edge_from_reached(d, pk as int, ki as int);
        }
    }
}

/// The key images of a block are the mates of its public keys.
proof fn lemma_block_kis(d: &DmDecomposition, i: int)
    requires
        d.holds_blocks(),
        0 <= i < d.closed_sets.len(),
        marks_follow_mates(d.pk_mates@, d.ki_mates@, d.reachable_pubkeys@, d.reachable_keyimages@),
    ensures
        mates_of(
            unreached_kis(d.reachable_keyimages@),
            block_mate(d.ki_mates@, d.reachable_keyimages@),
            d.closed_sets@[i].1@.to_set(),
        ).subset_of(d.closed_sets@[i].0@.to_set()),
{
    let kis = unreached_kis(d.reachable_keyimages@);
    let mate = block_mate(d.ki_mates@, d.reachable_keyimages@);
    let block_pks = d.closed_sets@[i].1@;
    let block_kis = d.closed_sets@[i].0@;
    assert forall|ki: u32| mates_of(kis, mate, block_pks.to_set()).contains(ki) implies block_kis.to_set().contains(
        ki,
    ) by {
        let pk = mate[ki];
        assert(block_pks.contains(pk));
        let j = choose|j: int| 0 <= j < block_pks.len() && block_pks[j] == pk;
        assert(d.closed_sets@[i].1@[j] < d.pk_mates.len());
        assert(block_kis[j] == d.pk_mates@[block_pks[j] as int]);
        assert(d.ki_mates@[ki as int] != UNMATCHED);
        assert(d.pk_mates@[d.ki_mates@[ki as int] as int] == ki);
        assert(block_kis[j] == ki);
    }
}

/// A set that claims its public keys does so with more key images too.
proof fn lemma_claims_widen(kis: Set<u32>, wider: Set<u32>, pks: Set<u32>, spent: Seq<u32>)
    requires
        claims(kis, pks, spent),
        kis.subset_of(wider),
    ensures
        claims(wider, pks, spent),
{
    assert forall|kj: int| 0 <= kj < spent.len() && pks.contains(#[trigger] spent[kj]) implies kj
        <= u32::MAX && wider.contains(kj as u32) by {
        assert(kis.contains(kj as u32));
    }
}

/// What the decomposition gives for the lemmas on rotations.
proof fn lemma_block_setting(d: &DmDecomposition, rings: Seq<Set<u32>>, spent: Seq<u32>)
    requires
        d.rows.wf(),
        d.rows.num_rows == d.columns.num_rows,
        d.rows.num_cols == d.columns.num_cols,
        d.holds_matching(),
        d.holds_reach(),
        mates_are_adjacent(&d.rows, d.pk_mates@),
        rings_match_graph(rings, &d.rows),
        is_assignment(rings, spent),
    ensures
        marks_follow_mates(d.pk_mates@, d.ki_mates@, d.reachable_pubkeys@, d.reachable_keyimages@),
        rotation_setting(
            rings,
            unreached_kis(d.reachable_keyimages@),
            unreached_pks(d.reachable_pubkeys@),
            block_mate(d.ki_mates@, d.reachable_keyimages@),
            spent,
        ),
        edges_oppose_turns(
            fine_edges(&d.rows, d.ki_mates@, d.reachable_pubkeys@, d.reachable_keyimages@),
            rings,
            unreached_kis(d.reachable_keyimages@),
            block_mate(d.ki_mates@, d.reachable_keyimages@),
        ),
{
    lemma_marks_follow_mates(d);
    lemma_block_is_closed(d, rings);
    lemma_block_is_matched(d, rings);
    lemma_fine_edges_oppose(d, rings);
    reveal(rotation_setting);
}

/// The parts of the blocks, as the decomposition states them.
proof fn lemma_block_parts(d: &DmDecomposition, i: int)
    requires
        d.holds_blocks(),
        0 <= i < d.closed_sets.len(),
    ensures
        parts_cover(unreached_pks(d.reachable_pubkeys@), sets_of(pk_lists(d.closed_sets@))),
        parts_are_components(
            fine_edges(&d.rows, d.ki_mates@, d.reachable_pubkeys@, d.reachable_keyimages@),
            sets_of(pk_lists(d.closed_sets@)),
        ),
        sets_of(pk_lists(d.closed_sets@)).len() == d.closed_sets.len(),
        sets_of(pk_lists(d.closed_sets@))[i] == d.closed_sets@[i].1@.to_set(),
{
}

/// Soundness of the decomposition: in every assignment of the rings of the
/// graph, each block claims its public keys.
pub proof fn lemma_block_claims(d: &DmDecomposition, rings: Seq<Set<u32>>, spent: Seq<u32>, i: int)
    requires
        d.rows.wf(),
        d.rows.num_rows == d.columns.num_rows,
        d.rows.num_cols == d.columns.num_cols,
        d.holds_matching(),
        d.holds_reach(),
        d.holds_blocks(),
        mates_are_adjacent(&d.rows, d.pk_mates@),
        rings_match_graph(rings, &d.rows),
        is_assignment(rings, spent),
        0 <= i < d.closed_sets.len(),
    ensures
        claims(d.closed_sets@[i].0@.to_set(), d.closed_sets@[i].1@.to_set(), spent),
{
    let kis = unreached_kis(d.reachable_keyimages@);
    let pks = unreached_pks(d.reachable_pubkeys@);
    let mate = block_mate(d.ki_mates@, d.reachable_keyimages@);
    let edges = fine_edges(&d.rows, d.ki_mates@, d.reachable_pubkeys@, d.reachable_keyimages@);
    let parts = sets_of(pk_lists(d.closed_sets@));
    lemma_block_setting(d, rings, spent);
    lemma_block_parts(d, i);
    lemma_part_claims(edges, rings, kis, pks, mate, spent, parts, i);
    lemma_block_kis(d, i);
    lemma_claims_widen(
        mates_of(kis, mate, parts[i]),
        d.closed_sets@[i].0@.to_set(),
        parts[i],
        spent,
    );
}

/// Soundness of the decomposition: in every assignment of the rings of the
/// graph, every block claims its public keys.
pub proof fn lemma_blocks_all_claim(d: &DmDecomposition, rings: Seq<Set<u32>>)
    requires
        d.rows.wf(),
        d.rows.num_rows == d.columns.num_rows,
        d.rows.num_cols == d.columns.num_cols,
        d.holds_matching(),
        d.holds_reach(),
        d.holds_blocks(),
        mates_are_adjacent(&d.rows, d.pk_mates@),
        rings_match_graph(rings, &d.rows),
    ensures
        all_claim(rings, list_pairs(d.closed_sets@)),
{
    let sets = list_pairs(d.closed_sets@);
    assert forall|spent: Seq<u32>, i: int|
        #[trigger] is_assignment(rings, spent) && 0 <= i < sets.len() implies claims(
        (#[trigger] sets[i]).0,
        sets[i].1,
        spent,
    ) by {
        lemma_block_claims(d, rings, spent, i);
    }
}

/// Soundness of the attack: applying the blocks of the decomposition, one
/// after the other, keeps every assignment of the rings of the graph.
pub proof fn lemma_decomposition_is_sound(
    d: &DmDecomposition,
    rings: Seq<Set<u32>>,
    pk_to_ki: Seq<Seq<u32>>,
)
    requires
        d.rows.wf(),
        d.rows.num_rows == d.columns.num_rows,
        d.rows.num_cols == d.columns.num_cols,
        d.holds_matching(),
        d.holds_reach(),
        d.holds_blocks(),
        mates_are_adjacent(&d.rows, d.pk_mates@),
        rings_match_graph(rings, &d.rows),
    ensures
        keeps_assignments(rings, reduction_by_all(rings, pk_to_ki, list_pairs(d.closed_sets@))),
{
    lemma_blocks_all_claim(d, rings);
    lemma_reductions_are_sound(rings, pk_to_ki, list_pairs(d.closed_sets@));
}

/// Where the walks reach no matched public key, the public keys that they
/// do not reach are the matched ones: as many as the matching matches.
pub proof fn lemma_unreached_are_the_matched(d: &DmDecomposition)
    requires
        d.holds_matching(),
        d.holds_reach(),
        d.rows.num_rows == d.pk_mates.len(),
        forall|r: int|
            0 <= r < d.pk_mates.len() && #[trigger] d.reachable_pubkeys@[r] ==> d.pk_mates@[r]
                == UNMATCHED,
        forall|r: int|
            0 <= r < d.pk_mates.len() && #[trigger] d.pk_mates@[r] == UNMATCHED
                ==> d.reachable_pubkeys@[r],
    ensures
        d.num_unreachable_pubkeys == d.num_matched_pks,
        d.num_unreachable_keyimages == d.num_matched_pks,
{
    let reach = d.reachable_pubkeys@;
    let flags = matched_flags(d.pk_mates@);
    let n = d.pk_mates.len() as int;
    lemma_unset_finite(reach);
    lemma_unset_finite(flags);
    vstd::set_lib::lemma_int_range(0, n);
    assert(unset(reach).disjoint(unset(flags)));
    assert(unset(reach) + unset(flags) =~= vstd::set_lib::set_int_range(0, n));
    vstd::set_lib::lemma_set_disjoint_lens(unset(reach), unset(flags));
}

/// `g` holds the graph of the triplets, column by column.
pub open spec fn holds_triplets(
    g: &CscGraph,
    num_pks: usize,
    num_kis: usize,
    pk_indices: Seq<u32>,
    ki_indices: Seq<u32>,
) -> bool {
    &&& g.wf()
    &&& g.num_rows == num_pks
    &&& g.num_cols == num_kis
    &&& forall|r: int, c: int| #[trigger] g.has_edge(r, c) <==> is_triplet(pk_indices, ki_indices, r, c)
}

/// A graph that the decomposition refuses although its edges lie within its
/// shape has no matching that matches every key image.
pub proof fn lemma_refused_graph_has_no_cover(
    num_pks: usize,
    num_kis: usize,
    pk_indices: Seq<u32>,
    ki_indices: Seq<u32>,
    g: &CscGraph,
    other: Seq<u32>,
)
    requires
        leaves_key_image_unmatched(num_pks, num_kis, pk_indices, ki_indices),
        holds_triplets(g, num_pks, num_kis, pk_indices, ki_indices),
        is_matching(g, other),
    ensures
        exists|c: int| 0 <= c < num_kis && !column_matched(other, c),
{
    let (g0, mates) = choose|g0: CscGraph, mates: Seq<u32>|
        #![auto]
        {
            &&& g0.wf()
            &&& g0.num_rows == num_pks
            &&& g0.num_cols == num_kis
            &&& forall|r: int, c: int|
                #[trigger] g0.has_edge(r, c) <==> is_triplet(pk_indices, ki_indices, r, c)
            &&& is_matching(&g0, mates)
            &&& admits_no_augmentation(&g0, mates)
            &&& exists|c: int| 0 <= c < num_kis && !column_matched(mates, c)
        };
    let c = choose|c: int| 0 <= c < num_kis && !column_matched(mates, c);
    assert(is_matching(&g0, other)) by {
        assert forall|r: int| 0 <= r < other.len() && #[trigger] other[r] != UNMATCHED implies g0.has_edge(
            r,
            other[r] as int,
        ) by {
            assert(g.has_edge(r, other[r] as int));
        }
    }
    lemma_some_column_stays_unmatched(&g0, mates, other, c);
}

/// The rings of the edges (`ki_indices[i]`, `pk_indices[i]`).
pub open spec fn edge_rings(num_kis: usize, pk_indices: Seq<u32>, ki_indices: Seq<u32>) -> Seq<
    Set<u32>,
> {
    Seq::new(num_kis as nat, |ki: int| public_keys_at(pk_indices, ki_indices, ki))
}

/// The matching that an assignment is: each public key that is spent is
/// matched to the key image that spends it.
pub open spec fn matching_of(spent: Seq<u32>, num_pks: usize) -> Seq<u32> {
    Seq::new(
        num_pks as nat,
        |r: int|
            if exists|ki: int| 0 <= ki < spent.len() && #[trigger] spent[ki] == r {
                (choose|ki: int| 0 <= ki < spent.len() && #[trigger] spent[ki] == r) as u32
            } else {
                UNMATCHED
            },
    )
}

/// An assignment of the rings of a graph is a matching of the graph that
/// matches every key image.
proof fn lemma_assignment_is_cover(
    g: &CscGraph,
    num_pks: usize,
    num_kis: usize,
    pk_indices: Seq<u32>,
    ki_indices: Seq<u32>,
    spent: Seq<u32>,
)
    requires
        holds_triplets(g, num_pks, num_kis, pk_indices, ki_indices),
        is_assignment(edge_rings(num_kis, pk_indices, ki_indices), spent),
    ensures
        is_matching(g, matching_of(spent, num_pks)),
        forall|c: int| 0 <= c < num_kis ==> column_matched(matching_of(spent, num_pks), c),
{
    let rings = edge_rings(num_kis, pk_indices, ki_indices);
    let m = matching_of(spent, num_pks);
    assert forall|ki: int| 0 <= ki < num_kis implies g.has_edge(#[trigger] spent[ki] as int, ki)
        && spent[ki] < num_pks && m[spent[ki] as int] == ki by {
        assert(rings[ki].contains(spent[ki]));
        let t = choose|t: int|
            0 <= t < pk_indices.len() && t < ki_indices.len() && #[trigger] ki_indices[t] == ki
                && pk_indices[t] == spent[ki];
        assert(pk_indices[t] == spent[ki] as int && ki_indices[t] == ki);
        assert(is_triplet(pk_indices, ki_indices, spent[ki] as int, ki));
        assert(g.has_edge(spent[ki] as int, ki));
        let p = choose|p: int| #[trigger] g.slot(ki, p) && g.row_idx@[p] == spent[ki] as int;
        assert(g.slot(ki, p));
        assert(g.col_ptr@[ki + 1] <= g.col_ptr@[g.num_cols as int]);
        assert(g.row_idx@[p] < g.num_rows);
        let r = spent[ki] as int;
        assert(0 <= ki < spent.len() && spent[ki] == r);
        let k2 = choose|k2: int| 0 <= k2 < spent.len() && #[trigger] spent[k2] == r;
        if k2 < ki {
            assert(spent[k2] != spent[ki]);
        } else if ki < k2 {
            assert(spent[ki] != spent[k2]);
        }
        assert(k2 == ki);
        assert(m[r] == k2 as u32);
    }
    assert forall|r: int| 0 <= r < m.len() && #[trigger] m[r] != UNMATCHED implies g.has_edge(
        r,
        m[r] as int,
    ) by {
        let ki = choose|ki: int| 0 <= ki < spent.len() && #[trigger] spent[ki] == r;
        assert(g.has_edge(spent[ki] as int, ki));
    }
    assert forall|r1: int, r2: int|
        0 <= r1 < m.len() && 0 <= r2 < m.len() && r1 != r2 && #[trigger] m[r1]
            != UNMATCHED implies m[r1] != #[trigger] m[r2] by {
        let k1 = choose|ki: int| 0 <= ki < spent.len() && #[trigger] spent[ki] == r1;
        if m[r2] != UNMATCHED {
            let k2 = choose|ki: int| 0 <= ki < spent.len() && #[trigger] spent[ki] == r2;
            assert(spent[k1] == r1 && spent[k2] == r2);
        }
    }
    assert forall|c: int| 0 <= c < num_kis implies column_matched(m, c) by {
        assert(m[spent[c] as int] == c);
    }
}

/// A graph that the decomposition refuses although its edges lie within its
/// shape has rings without an assignment.
pub proof fn lemma_refused_rings_have_no_assignment(
    num_pks: usize,
    num_kis: usize,
    pk_indices: Seq<u32>,
    ki_indices: Seq<u32>,
)
    requires
        leaves_key_image_unmatched(num_pks, num_kis, pk_indices, ki_indices),
    ensures
        !has_assignment(edge_rings(num_kis, pk_indices, ki_indices)),
{
    let rings = edge_rings(num_kis, pk_indices, ki_indices);
    if has_assignment(rings) {
        let spent = choose|spent: Seq<u32>| is_assignment(rings, spent);
        let (g0, mates) = choose|g0: CscGraph, mates: Seq<u32>|
            #![auto]
            {
                &&& g0.wf()
                &&& g0.num_rows == num_pks
                &&& g0.num_cols == num_kis
                &&& forall|r: int, c: int|
                    #[trigger] g0.has_edge(r, c) <==> is_triplet(pk_indices, ki_indices, r, c)
                &&& is_matching(&g0, mates)
                &&& admits_no_augmentation(&g0, mates)
                &&& exists|c: int| 0 <= c < num_kis && !column_matched(mates, c)
            };
        lemma_assignment_is_cover(&g0, num_pks, num_kis, pk_indices, ki_indices, spent);
        lemma_refused_graph_has_no_cover(
            num_pks,
            num_kis,
            pk_indices,
            ki_indices,
            &g0,
            matching_of(spent, num_pks),
        );
    }
}

} // verus!

//! The mathematical model of a transaction graph.
//!
//! Rings are modelled as a sequence of sets, indexed by key image; the
//! reverse lists as a sequence of sequences, indexed by public key.  An
//! *assignment* gives each key image the public key it spent.

use vstd::prelude::*;
use std::collections::HashSet;

verus! {

/// The rings held by a vector of hash sets, as a sequence of sets.
pub open spec fn ring_sets(rings: Seq<HashSet<u32>>) -> Seq<Set<u32>> {
    Seq::new(rings.len(), |ki: int| rings[ki]@)
}

/// The lists held by a vector of vectors.
pub open spec fn lists_of(lists: Seq<Vec<u32>>) -> Seq<Seq<u32>> {
    Seq::new(lists.len(), |i: int| lists[i]@)
}

/// `ki` occurs in the reverse list of `pk`.
pub open spec fn lists_key_image(pk_to_ki: Seq<Seq<u32>>, pk: u32, ki: int) -> bool {
    pk < pk_to_ki.len() && exists|j: int|
        0 <= j < pk_to_ki[pk as int].len() && #[trigger] pk_to_ki[pk as int][j] == ki
}

/// Every key image named by a reverse list is an index into the rings.
pub open spec fn lists_in_range(pk_to_ki: Seq<Seq<u32>>, num_key_images: nat) -> bool {
    forall|pk: int, j: int|
        0 <= pk < pk_to_ki.len() && 0 <= j < pk_to_ki[pk].len() ==> (#[trigger] pk_to_ki[pk][j])
            < num_key_images
}

/// Every public key of every ring is an index into the reverse lists.
pub open spec fn rings_in_range(rings: Seq<Set<u32>>, num_public_keys: nat) -> bool {
    forall|ki: int, pk: u32|
        0 <= ki < rings.len() && #[trigger] rings[ki].contains(pk) ==> pk < num_public_keys
}

/// The reverse lists cover the rings: whenever `pk` is in `ring[ki]`, the
/// list of `pk` names `ki`.  The lists may name more, and may repeat.
pub open spec fn lists_cover_rings(rings: Seq<Set<u32>>, pk_to_ki: Seq<Seq<u32>>) -> bool {
    forall|ki: int, pk: u32|
        0 <= ki < rings.len() && #[trigger] rings[ki].contains(pk) ==> lists_key_image(
            pk_to_ki,
            pk,
            ki,
        )
}

/// Every ring is a finite set.
pub open spec fn rings_finite(rings: Seq<Set<u32>>) -> bool {
    forall|ki: int| 0 <= ki < rings.len() ==> (#[trigger] rings[ki]).finite()
}

/// `after` holds no public key that `before` did not hold, ring by ring.
pub open spec fn rings_within(after: Seq<Set<u32>>, before: Seq<Set<u32>>) -> bool {
    &&& after.len() == before.len()
    &&& forall|ki: int| 0 <= ki < after.len() ==> (#[trigger] after[ki]).subset_of(before[ki])
}

/// An assignment of one public key to every key image: each key image gets
/// a member of its own ring, and no two key images get the same public key.
/// This is a perfect matching of the key images into the public keys.
pub open spec fn is_assignment(rings: Seq<Set<u32>>, spent: Seq<u32>) -> bool {
    &&& spent.len() == rings.len()
    &&& forall|ki: int| 0 <= ki < rings.len() ==> rings[ki].contains(#[trigger] spent[ki])
    &&& forall|a: int, b: int|
        0 <= a < b < spent.len() ==> #[trigger] spent[a] != #[trigger] spent[b]
}

/// A closed set: as many key images as public keys, and every ring of a key
/// image of the set lies within the public keys of the set.
pub open spec fn is_closed_set(rings: Seq<Set<u32>>, kis: Set<u32>, pks: Set<u32>) -> bool {
    &&& kis.finite()
    &&& pks.finite()
    &&& kis.len() == pks.len()
    &&& forall|ki: u32| #[trigger] kis.contains(ki) ==> ki < rings.len() && rings[ki as int].subset_of(pks)
}

/// What one closed set leaves of the rings: a public key `pk` of the set is
/// taken out of the ring of every key image that the list of `pk` names and
/// that is not in the set.
pub open spec fn closed_set_reduction(
    rings: Seq<Set<u32>>,
    pk_to_ki: Seq<Seq<u32>>,
    kis: Set<u32>,
    pks: Set<u32>,
) -> Seq<Set<u32>> {
    Seq::new(
        rings.len(),
        |ki: int|
            Set::new(
                |pk: u32|
                    rings[ki].contains(pk) && !(pks.contains(pk) && !kis.contains(ki as u32)
                        && lists_key_image(pk_to_ki, pk, ki)),
            ),
    )
}

/// A perfect matching within a pair of sets: `mate` pairs the key images of
/// `kis` one to one with the public keys of `pks`, each key image with a
/// member of its ring.
pub open spec fn is_perfect_matching(
    rings: Seq<Set<u32>>,
    kis: Set<u32>,
    pks: Set<u32>,
    mate: Map<u32, u32>,
) -> bool {
    &&& forall|ki: u32|
        #[trigger] kis.contains(ki) ==> ki < rings.len() && mate.dom().contains(ki) && pks.contains(
            mate[ki],
        ) && rings[ki as int].contains(mate[ki])
    &&& forall|a: u32, b: u32|
        #[trigger] kis.contains(a) && #[trigger] kis.contains(b) && a != b ==> mate[a] != mate[b]
    &&& forall|pk: u32|
        pks.contains(pk) ==> exists|ki: u32| #[trigger] kis.contains(ki) && mate[ki] == pk
}

/// The rings of the key images of `kis` exist and lie within `pks`.
pub open spec fn rings_lie_within(rings: Seq<Set<u32>>, kis: Set<u32>, pks: Set<u32>) -> bool {
    forall|ki: u32|
        #[trigger] kis.contains(ki) ==> ki < rings.len() && rings[ki as int].subset_of(pks)
}

/// The directed graph by which a perfect matching can be rotated into
/// another: an edge leads from `pk` to the mate of `ki` wherever `pk` is a
/// member of the ring of `ki` other than its mate.
pub open spec fn rotation_edges(rings: Seq<Set<u32>>, kis: Set<u32>, mate: Map<u32, u32>) -> Set<
    (u32, u32),
> {
    Set::new(
        |e: (u32, u32)|
            exists|ki: u32|
                #[trigger] kis.contains(ki) && ki < rings.len() && rings[ki as int].contains(e.0)
                    && mate[ki] == e.1 && e.0 != e.1,
    )
}

/// The key images that `mate` pairs with the public keys of `part`.
pub open spec fn mates_of(kis: Set<u32>, mate: Map<u32, u32>, part: Set<u32>) -> Set<u32> {
    Set::new(|ki: u32| kis.contains(ki) && part.contains(mate[ki]))
}

/// The number of members of all rings together.
pub open spec fn total_size(rings: Seq<Set<u32>>) -> nat
    decreases rings.len(),
{
    if rings.len() == 0 {
        0
    } else {
        total_size(rings.drop_last()) + rings.last().len()
    }
}

/// Rings that lie within others have no more members, and fewer unless
/// they are the same.
pub proof fn lemma_total_size_within(after: Seq<Set<u32>>, before: Seq<Set<u32>>)
    requires
        rings_within(after, before),
        rings_finite(before),
    ensures
        total_size(after) <= total_size(before),
        after != before ==> total_size(after) < total_size(before),
    decreases before.len(),
{
    if before.len() == 0 {
        assert(after =~= before);
    } else {
        let a = after.drop_last();
        let b = before.drop_last();
        assert(rings_within(a, b)) by {
            assert forall|ki: int| 0 <= ki < a.len() implies (#[trigger] a[ki]).subset_of(b[ki]) by {
                assert(after[ki].subset_of(before[ki]));
            }
        }
        assert(rings_finite(b)) by {
            assert forall|ki: int| 0 <= ki < b.len() implies (#[trigger] b[ki]).finite() by {
                assert(before[ki].finite());
            }
        }
        lemma_total_size_within(a, b);
        let n = before.len() - 1;
        assert(after[n].subset_of(before[n]));
        assert(before[n].finite());
        vstd::set_lib::lemma_len_subset(after.last(), before.last());
        if after != before {
            if a == b {
                if after.last() == before.last() {
                    assert(after =~= a.push(after.last()));
                    assert(before =~= b.push(before.last()));
                }
                if after.last().len() == before.last().len() {
                    vstd::set_lib::lemma_subset_equality(after.last(), before.last());
                }
            }
        }
    }
}

/// Lying within is transitive.
pub proof fn lemma_within_trans(a: Seq<Set<u32>>, b: Seq<Set<u32>>, c: Seq<Set<u32>>)
    requires
        rings_within(a, b),
        rings_within(b, c),
    ensures
        rings_within(a, c),
        a == c ==> b == c,
{
    assert forall|ki: int| 0 <= ki < a.len() implies (#[trigger] a[ki]).subset_of(c[ki]) by {
        assert(a[ki].subset_of(b[ki]));
        assert(b[ki].subset_of(c[ki]));
    }
    if a == c {
        assert forall|ki: int| 0 <= ki < b.len() implies b[ki] =~= c[ki] by {
            assert(a[ki].subset_of(b[ki]));
            assert(b[ki].subset_of(c[ki]));
        }
        assert(b =~= c);
    }
}

/// The rings held by hash sets are finite.
pub proof fn lemma_rings_finite(tx_ring_sets: Seq<HashSet<u32>>)
    ensures
        rings_finite(ring_sets(tx_ring_sets)),
{
    assert forall|ki: int| 0 <= ki < tx_ring_sets.len() implies (#[trigger] ring_sets(
        tx_ring_sets,
    )[ki]).finite() by {
        crate::sets::lemma_hash_set_finite(&tx_ring_sets[ki]);
    }
}

} // verus!

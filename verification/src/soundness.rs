//! What holds of every reduction of the rings.
//!
//! A reduction is sound when it keeps every assignment: whatever public key
//! each key image really spent, that public key is still in its ring.

use vstd::prelude::*;
use crate::closed_set::reduction_by_all;
use crate::decompose::{has_fine_decomposition, is_fine_decomposition, pk_parts};
use crate::graphs::{parts_are_components, parts_cover};
use crate::model::{
    closed_set_reduction, is_assignment, is_closed_set, is_perfect_matching, mates_of,
    rings_finite, rings_within, rotation_edges,
};
use crate::rotation::{edges_follow_turns, lemma_part_claims, rotation_setting};

verus! {

/// The closed set claims its public keys: in the assignment, whoever spent
/// a public key of the set is a key image of the set.
pub open spec fn claims(kis: Set<u32>, pks: Set<u32>, spent: Seq<u32>) -> bool {
    forall|kj: int|
        0 <= kj < spent.len() && pks.contains(#[trigger] spent[kj]) ==> kj <= u32::MAX
            && kis.contains(kj as u32)
}

/// Applying a set that claims its public keys keeps the assignment.
pub proof fn lemma_reduction_keeps_assignment(
    rings: Seq<Set<u32>>,
    pk_to_ki: Seq<Seq<u32>>,
    kis: Set<u32>,
    pks: Set<u32>,
    spent: Seq<u32>,
)
    requires
        is_assignment(rings, spent),
        claims(kis, pks, spent),
    ensures
        is_assignment(closed_set_reduction(rings, pk_to_ki, kis, pks), spent),
{
    let after = closed_set_reduction(rings, pk_to_ki, kis, pks);
    assert forall|ki: int| 0 <= ki < after.len() implies after[ki].contains(#[trigger] spent[ki]) by {
        assert(rings[ki].contains(spent[ki]));
        if pks.contains(spent[ki]) {
            assert(kis.contains(ki as u32));
        }
    }
}

/// A closed set claims its public keys: its key images spent as many public
/// keys as the set has, all of them in the set, so no other key image spent
/// any of them.
pub proof fn lemma_closed_set_claims(
    rings: Seq<Set<u32>>,
    kis: Set<u32>,
    pks: Set<u32>,
    spent: Seq<u32>,
)
    requires
        is_closed_set(rings, kis, pks),
        is_assignment(rings, spent),
    ensures
        claims(kis, pks, spent),
        forall|pk: u32|
            pks.contains(pk) ==> exists|ki: u32| #[trigger] kis.contains(ki) && spent[ki as int] == pk,
{
    let f = |ki: u32| spent[ki as int];
    let image = kis.map(f);
    assert(vstd::relations::injective_on(f, kis)) by {
        assert forall|a: u32, b: u32|
            kis.contains(a) && kis.contains(b) && #[trigger] f(a) == #[trigger] f(b) implies a
            == b by {
            if a != b {
                if a < b {
                    assert(spent[a as int] != spent[b as int]);
                } else {
                    assert(spent[b as int] != spent[a as int]);
                }
            }
        }
    }
    vstd::set_lib::lemma_map_size(kis, image, f);
    assert(image.subset_of(pks)) by {
        assert forall|pk: u32| image.contains(pk) implies pks.contains(pk) by {
            let ki = choose|ki: u32| kis.contains(ki) && pk == f(ki);
            assert(rings[ki as int].subset_of(pks));
            assert(rings[ki as int].contains(spent[ki as int]));
        }
    }
    vstd::set_lib::lemma_subset_equality(image, pks);
    assert forall|pk: u32| pks.contains(pk) implies exists|ki: u32| #[trigger]
        kis.contains(ki) && spent[ki as int] == pk by {
        assert(image.contains(pk));
        let ki = choose|ki: u32| kis.contains(ki) && pk == f(ki);
        assert(kis.contains(ki) && spent[ki as int] == pk);
    }
    assert forall|kj: int| 0 <= kj < spent.len() && pks.contains(#[trigger] spent[kj]) implies kj
        <= u32::MAX && kis.contains(kj as u32) by {
        let ki = choose|ki: u32| #[trigger] kis.contains(ki) && spent[ki as int] == spent[kj];
        if ki as int != kj {
            if (ki as int) < kj {
                assert(spent[ki as int] != spent[kj]);
            } else {
                assert(spent[kj] != spent[ki as int]);
            }
        }
    }
}

/// Soundness of the closed set attack: applying a closed set keeps every
/// assignment.
pub proof fn lemma_closed_set_is_sound(
    rings: Seq<Set<u32>>,
    pk_to_ki: Seq<Seq<u32>>,
    kis: Set<u32>,
    pks: Set<u32>,
    spent: Seq<u32>,
)
    requires
        is_closed_set(rings, kis, pks),
        is_assignment(rings, spent),
    ensures
        is_assignment(closed_set_reduction(rings, pk_to_ki, kis, pks), spent),
{
    lemma_closed_set_claims(rings, kis, pks, spent);
    lemma_reduction_keeps_assignment(rings, pk_to_ki, kis, pks, spent);
}

/// A ring traced before a sound reduction is traced after it: where the
/// reduced rings lie within the rings and still have an assignment, every
/// ring that had a single member has it still.
pub proof fn lemma_single_rings_persist(
    after: Seq<Set<u32>>,
    before: Seq<Set<u32>>,
    spent: Seq<u32>,
    ki: int,
)
    requires
        rings_within(after, before),
        rings_finite(before),
        is_assignment(after, spent),
        0 <= ki < before.len(),
        before[ki].len() == 1,
    ensures
        after[ki].len() == 1,
        after[ki] == before[ki],
{
    assert(after[ki].subset_of(before[ki]));
    assert(after[ki].contains(spent[ki]));
    assert(before[ki].finite());
    vstd::set_lib::lemma_len_subset(after[ki], before[ki]);
    assert(after[ki].len() >= 1) by {
        if after[ki].len() == 0 {
            assert(after[ki] =~= Set::<u32>::empty());
        }
    }
    vstd::set_lib::lemma_subset_equality(after[ki], before[ki]);
}

/// Every assignment of the rings before is an assignment of the rings
/// after.
pub open spec fn keeps_assignments(before: Seq<Set<u32>>, after: Seq<Set<u32>>) -> bool {
    forall|spent: Seq<u32>| #[trigger] is_assignment(before, spent) ==> is_assignment(after, spent)
}

/// In every assignment of the rings, each of the sets claims its public
/// keys.
pub open spec fn all_claim(rings: Seq<Set<u32>>, sets: Seq<(Set<u32>, Set<u32>)>) -> bool {
    forall|spent: Seq<u32>, i: int|
        #[trigger] is_assignment(rings, spent) && 0 <= i < sets.len() ==> claims(
            (#[trigger] sets[i]).0,
            sets[i].1,
            spent,
        )
}

/// Keeping the assignments is transitive.
pub proof fn lemma_keeps_assignments_trans(a: Seq<Set<u32>>, b: Seq<Set<u32>>, c: Seq<Set<u32>>)
    requires
        keeps_assignments(a, b),
        keeps_assignments(b, c),
    ensures
        keeps_assignments(a, c),
{
    assert forall|spent: Seq<u32>| #[trigger] is_assignment(a, spent) implies is_assignment(
        c,
        spent,
    ) by {
        assert(is_assignment(b, spent));
    }
}

/// A closed set with a perfect matching and an assignment is what the
/// lemmas on rotations start from.
proof fn lemma_setting(
    rings: Seq<Set<u32>>,
    kis: Set<u32>,
    pks: Set<u32>,
    mate: Map<u32, u32>,
    spent: Seq<u32>,
)
    requires
        is_closed_set(rings, kis, pks),
        is_perfect_matching(rings, kis, pks, mate),
        is_assignment(rings, spent),
    ensures
        rotation_setting(rings, kis, pks, mate, spent),
{
    reveal(rotation_setting);
}

/// The edges of the rotation graph follow the turns.
proof fn lemma_rotation_edges_follow(rings: Seq<Set<u32>>, kis: Set<u32>, mate: Map<u32, u32>)
    ensures
        edges_follow_turns(rotation_edges(rings, kis, mate), rings, kis, mate),
{
    reveal(edges_follow_turns);
    let edges = rotation_edges(rings, kis, mate);
    assert forall|ki: u32, pk: u32|
        #[trigger] kis.contains(ki) && ki < rings.len() && #[trigger] rings[ki as int].contains(pk)
            && mate[ki] != pk implies edges.contains((pk, mate[ki])) by {
        let e = (pk, mate[ki]);
        assert(kis.contains(ki) && rings[ki as int].contains(e.0) && mate[ki] == e.1);
    }
}

/// What a fine decomposition is made of.
proof fn lemma_fine_parts(
    rings: Seq<Set<u32>>,
    kis: Set<u32>,
    pks: Set<u32>,
    mate: Map<u32, u32>,
    parts: Seq<(Set<u32>, Set<u32>)>,
    i: int,
)
    requires
        is_fine_decomposition(rings, kis, pks, mate, parts),
        0 <= i < parts.len(),
    ensures
        is_perfect_matching(rings, kis, pks, mate),
        parts_cover(pks, pk_parts(parts)),
        parts_are_components(rotation_edges(rings, kis, mate), pk_parts(parts)),
        pk_parts(parts).len() == parts.len(),
        pk_parts(parts)[i] == parts[i].1,
        parts[i].0 == mates_of(kis, mate, parts[i].1),
{
}

/// Soundness of the fine decomposition: in every assignment, each part of
/// the fine decomposition of a closed set claims its public keys.
pub proof fn lemma_fine_decomposition_claims(
    rings: Seq<Set<u32>>,
    kis: Set<u32>,
    pks: Set<u32>,
    parts: Seq<(Set<u32>, Set<u32>)>,
    spent: Seq<u32>,
    i: int,
)
    requires
        is_closed_set(rings, kis, pks),
        has_fine_decomposition(rings, kis, pks, parts),
        is_assignment(rings, spent),
        0 <= i < parts.len(),
    ensures
        claims(parts[i].0, parts[i].1, spent),
{
    let mate = choose|mate: Map<u32, u32>| is_fine_decomposition(rings, kis, pks, mate, parts);
    lemma_fine_parts(rings, kis, pks, mate, parts, i);
    lemma_setting(rings, kis, pks, mate, spent);
    lemma_rotation_edges_follow(rings, kis, mate);
    lemma_part_claims(
        rotation_edges(rings, kis, mate),
        rings,
        kis,
        pks,
        mate,
        spent,
        pk_parts(parts),
        i,
    );
}

/// Soundness of the closed set attack with its fine decomposition: applying
/// any part of the fine decomposition of a closed set keeps every
/// assignment.
pub proof fn lemma_part_is_sound(
    rings: Seq<Set<u32>>,
    pk_to_ki: Seq<Seq<u32>>,
    kis: Set<u32>,
    pks: Set<u32>,
    parts: Seq<(Set<u32>, Set<u32>)>,
    spent: Seq<u32>,
    i: int,
)
    requires
        is_closed_set(rings, kis, pks),
        has_fine_decomposition(rings, kis, pks, parts),
        is_assignment(rings, spent),
        0 <= i < parts.len(),
    ensures
        is_assignment(closed_set_reduction(rings, pk_to_ki, parts[i].0, parts[i].1), spent),
{
    lemma_fine_decomposition_claims(rings, kis, pks, parts, spent, i);
    lemma_reduction_keeps_assignment(rings, pk_to_ki, parts[i].0, parts[i].1, spent);
}

/// Applying one of the sets to rings that kept the assignments keeps them.
pub proof fn lemma_step_keeps_assignments(
    before: Seq<Set<u32>>,
    mid: Seq<Set<u32>>,
    pk_to_ki: Seq<Seq<u32>>,
    sets: Seq<(Set<u32>, Set<u32>)>,
    i: int,
)
    requires
        keeps_assignments(before, mid),
        all_claim(before, sets),
        0 <= i < sets.len(),
    ensures
        keeps_assignments(before, closed_set_reduction(mid, pk_to_ki, sets[i].0, sets[i].1)),
{
    assert forall|spent: Seq<u32>| #[trigger] is_assignment(before, spent) implies is_assignment(
        closed_set_reduction(mid, pk_to_ki, sets[i].0, sets[i].1),
        spent,
    ) by {
        assert(is_assignment(mid, spent));
        assert(claims(sets[i].0, sets[i].1, spent));
        lemma_reduction_keeps_assignment(mid, pk_to_ki, sets[i].0, sets[i].1, spent);
    }
}

/// In every assignment, each part of the fine decomposition of a closed
/// set claims its public keys.
pub proof fn lemma_fine_decomposition_all_claim(
    rings: Seq<Set<u32>>,
    kis: Set<u32>,
    pks: Set<u32>,
    parts: Seq<(Set<u32>, Set<u32>)>,
)
    requires
        is_closed_set(rings, kis, pks),
        has_fine_decomposition(rings, kis, pks, parts),
    ensures
        all_claim(rings, parts),
{
    assert forall|spent: Seq<u32>, i: int|
        #[trigger] is_assignment(rings, spent) && 0 <= i < parts.len() implies claims(
        (#[trigger] parts[i]).0,
        parts[i].1,
        spent,
    ) by {
        lemma_fine_decomposition_claims(rings, kis, pks, parts, spent, i);
    }
}

/// Soundness of a run of reductions: applying sets that claim their public
/// keys, one after the other, keeps every assignment.
pub proof fn lemma_reductions_are_sound(
    rings: Seq<Set<u32>>,
    pk_to_ki: Seq<Seq<u32>>,
    sets: Seq<(Set<u32>, Set<u32>)>,
)
    requires
        all_claim(rings, sets),
    ensures
        keeps_assignments(rings, reduction_by_all(rings, pk_to_ki, sets)),
    decreases sets.len(),
{
    if sets.len() > 0 {
        let front = sets.drop_last();
        assert(all_claim(rings, front)) by {
            assert forall|spent: Seq<u32>, i: int|
                #[trigger] is_assignment(rings, spent) && 0 <= i < front.len() implies claims(
                (#[trigger] front[i]).0,
                front[i].1,
                spent,
            ) by {
                assert(front[i] == sets[i]);
            }
        }
        lemma_reductions_are_sound(rings, pk_to_ki, front);
        lemma_step_keeps_assignments(
            rings,
            reduction_by_all(rings, pk_to_ki, front),
            pk_to_ki,
            sets,
            sets.len() - 1,
        );
    }
}

/// A sound reduction keeps the traced rings traced: where the rings have an
/// assignment, every ring that had a single member before a reduction that
/// keeps the assignments has the same single member after it.  This holds
/// of the cascade, of the clustering and of the decomposition alike, so
/// each traces what was traced before it ran.
pub proof fn lemma_traced_stay_traced(
    before: Seq<Set<u32>>,
    after: Seq<Set<u32>>,
    spent: Seq<u32>,
    ki: int,
)
    requires
        rings_within(after, before),
        rings_finite(before),
        keeps_assignments(before, after),
        is_assignment(before, spent),
        0 <= ki < before.len(),
        before[ki].len() == 1,
    ensures
        after[ki] == before[ki],
        after[ki].len() == 1,
{
    lemma_single_rings_persist(after, before, spent, ki);
}

/// The rings have an assignment.
pub open spec fn has_assignment(rings: Seq<Set<u32>>) -> bool {
    exists|spent: Seq<u32>| is_assignment(rings, spent)
}

/// Within a closed set, an assignment is a perfect matching.
pub proof fn lemma_assignment_matches_closed_set(
    rings: Seq<Set<u32>>,
    kis: Set<u32>,
    pks: Set<u32>,
    spent: Seq<u32>,
)
    requires
        is_closed_set(rings, kis, pks),
        is_assignment(rings, spent),
    ensures
        is_perfect_matching(
            rings,
            kis,
            pks,
            Map::new(|ki: u32| kis.contains(ki), |ki: u32| spent[ki as int]),
        ),
{
    let mate = Map::new(|ki: u32| kis.contains(ki), |ki: u32| spent[ki as int]);
    lemma_closed_set_claims(rings, kis, pks, spent);
    assert forall|ki: u32| #[trigger] kis.contains(ki) implies ki < rings.len() && mate.dom().contains(
        ki,
    ) && pks.contains(mate[ki]) && rings[ki as int].contains(mate[ki]) by {
        assert(rings[ki as int].subset_of(pks));
        assert(rings[ki as int].contains(spent[ki as int]));
    }
    assert forall|a: u32, b: u32|
        #[trigger] kis.contains(a) && #[trigger] kis.contains(b) && a != b implies mate[a]
        != mate[b] by {
        if a < b {
            assert(spent[a as int] != spent[b as int]);
        } else {
            assert(spent[b as int] != spent[a as int]);
        }
    }
    assert forall|pk: u32| pks.contains(pk) implies exists|ki: u32| #[trigger]
        kis.contains(ki) && mate[ki] == pk by {
        let ki = choose|ki: u32| #[trigger] kis.contains(ki) && spent[ki as int] == pk;
        assert(kis.contains(ki) && mate[ki] == pk);
    }
}

} // verus!

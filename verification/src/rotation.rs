//! Why the parts of a fine decomposition are sound.
//!
//! Take a closed set with a perfect matching, and any assignment.  Within
//! the closed set the assignment is a second perfect matching, and going
//! from a public key to the mate of the key image that spent it is a
//! permutation of the public keys.  A permutation of a finite set runs in
//! cycles, and each step of a cycle is an edge of the rotation graph, so a
//! cycle never leaves a strongly connected component: the key images
//! matched to the public keys of a component are those that spent them.

use vstd::prelude::*;
use crate::graphs::{is_step, is_walk, parts_are_components, parts_cover, reaches};
use crate::model::{is_assignment, is_closed_set, is_perfect_matching, mates_of};
use crate::soundness::{claims, lemma_closed_set_claims};

verus! {

/// The key image of the set that spent `pk`.
pub open spec fn owner(kis: Set<u32>, spent: Seq<u32>, pk: u32) -> u32 {
    choose|ki: u32| #[trigger] kis.contains(ki) && spent[ki as int] == pk
}

/// The mate of the key image that spent `pk`.
pub open spec fn turn(kis: Set<u32>, mate: Map<u32, u32>, spent: Seq<u32>, pk: u32) -> u32 {
    mate[owner(kis, spent, pk)]
}

/// `n` turns from `pk`.
pub open spec fn turns(kis: Set<u32>, mate: Map<u32, u32>, spent: Seq<u32>, pk: u32, n: nat) -> u32
    decreases n,
{
    if n == 0 {
        pk
    } else {
        turn(kis, mate, spent, turns(kis, mate, spent, pk, (n - 1) as nat))
    }
}

/// What the lemmas of this module start from: a closed set, a perfect
/// matching of it, and an assignment of the rings.
#[verifier::opaque]
pub open spec fn rotation_setting(
    rings: Seq<Set<u32>>,
    kis: Set<u32>,
    pks: Set<u32>,
    mate: Map<u32, u32>,
    spent: Seq<u32>,
) -> bool {
    &&& is_closed_set(rings, kis, pks)
    &&& is_perfect_matching(rings, kis, pks, mate)
    &&& is_assignment(rings, spent)
}

/// The owner of a public key of the set is the one key image of the set
/// that spent it.
proof fn lemma_owner(
    rings: Seq<Set<u32>>,
    kis: Set<u32>,
    pks: Set<u32>,
    mate: Map<u32, u32>,
    spent: Seq<u32>,
    pk: u32,
)
    requires
        rotation_setting(rings, kis, pks, mate, spent),
        pks.contains(pk),
    ensures
        kis.contains(owner(kis, spent, pk)),
        owner(kis, spent, pk) < rings.len(),
        spent[owner(kis, spent, pk) as int] == pk,
        rings[owner(kis, spent, pk) as int].contains(pk),
        pks.contains(turn(kis, mate, spent, pk)),
{
    reveal(rotation_setting);
    lemma_closed_set_claims(rings, kis, pks, spent);
    let o = owner(kis, spent, pk);
    assert(kis.contains(o) && spent[o as int] == pk);
    assert(rings[o as int].contains(spent[o as int]));
}

/// A key image of the set that spent a public key is its owner.
proof fn lemma_owner_is(
    rings: Seq<Set<u32>>,
    kis: Set<u32>,
    pks: Set<u32>,
    mate: Map<u32, u32>,
    spent: Seq<u32>,
    pk: u32,
    ki: u32,
)
    requires
        rotation_setting(rings, kis, pks, mate, spent),
        pks.contains(pk),
        kis.contains(ki),
        spent[ki as int] == pk,
    ensures
        ki == owner(kis, spent, pk),
{
    lemma_owner(rings, kis, pks, mate, spent, pk);
    reveal(rotation_setting);
    let o = owner(kis, spent, pk);
    if ki != o {
        if ki < o {
            assert(spent[ki as int] != spent[o as int]);
        } else {
            assert(spent[o as int] != spent[ki as int]);
        }
    }
}

/// A turn is one to one.
proof fn lemma_turn_injective(
    rings: Seq<Set<u32>>,
    kis: Set<u32>,
    pks: Set<u32>,
    mate: Map<u32, u32>,
    spent: Seq<u32>,
    x: u32,
    y: u32,
)
    requires
        rotation_setting(rings, kis, pks, mate, spent),
        pks.contains(x),
        pks.contains(y),
        turn(kis, mate, spent, x) == turn(kis, mate, spent, y),
    ensures
        x == y,
{
    lemma_owner(rings, kis, pks, mate, spent, x);
    lemma_owner(rings, kis, pks, mate, spent, y);
    reveal(rotation_setting);
}

/// Turns stay within the public keys of the set.
proof fn lemma_turns_stay(
    rings: Seq<Set<u32>>,
    kis: Set<u32>,
    pks: Set<u32>,
    mate: Map<u32, u32>,
    spent: Seq<u32>,
    pk: u32,
    n: nat,
)
    requires
        rotation_setting(rings, kis, pks, mate, spent),
        pks.contains(pk),
    ensures
        pks.contains(turns(kis, mate, spent, pk, n)),
    decreases n,
{
    if n > 0 {
        lemma_turns_stay(rings, kis, pks, mate, spent, pk, (n - 1) as nat);
        lemma_owner(rings, kis, pks, mate, spent, turns(kis, mate, spent, pk, (n - 1) as nat));
    }
}

/// Where `a` turns and `b` turns lead to the same public key, `b - a` turns
/// lead back to the start.
proof fn lemma_turns_back(
    rings: Seq<Set<u32>>,
    kis: Set<u32>,
    pks: Set<u32>,
    mate: Map<u32, u32>,
    spent: Seq<u32>,
    pk: u32,
    a: nat,
    b: nat,
)
    requires
        rotation_setting(rings, kis, pks, mate, spent),
        pks.contains(pk),
        a <= b,
        turns(kis, mate, spent, pk, a) == turns(kis, mate, spent, pk, b),
    ensures
        turns(kis, mate, spent, pk, (b - a) as nat) == pk,
    decreases a,
{
    if a > 0 {
        lemma_turns_stay(rings, kis, pks, mate, spent, pk, (a - 1) as nat);
        lemma_turns_stay(rings, kis, pks, mate, spent, pk, (b - 1) as nat);
        lemma_turn_injective(
            rings,
            kis,
            pks,
            mate,
            spent,
            turns(kis, mate, spent, pk, (a - 1) as nat),
            turns(kis, mate, spent, pk, (b - 1) as nat),
        );
        lemma_turns_back(rings, kis, pks, mate, spent, pk, (a - 1) as nat, (b - 1) as nat);
    }
}

/// Some number of turns, at least one, leads back to the start.
proof fn lemma_cycle(
    rings: Seq<Set<u32>>,
    kis: Set<u32>,
    pks: Set<u32>,
    mate: Map<u32, u32>,
    spent: Seq<u32>,
    pk: u32,
) -> (n: nat)
    requires
        rotation_setting(rings, kis, pks, mate, spent),
        pks.contains(pk),
    ensures
        n >= 1,
        turns(kis, mate, spent, pk, n) == pk,
{
    assert(pks.finite()) by {
        reveal(rotation_setting);
    }
    let m = pks.len() + 1;
    let s = Seq::new(m, |i: int| turns(kis, mate, spent, pk, i as nat));
    assert forall|i: int| 0 <= i < s.len() implies pks.contains(#[trigger] s[i]) by {
        lemma_turns_stay(rings, kis, pks, mate, spent, pk, i as nat);
    }
    if s.no_duplicates() {
        s.unique_seq_to_set();
        assert(s.to_set().subset_of(pks)) by {
            assert forall|x: u32| s.to_set().contains(x) implies pks.contains(x) by {
                let i = choose|i: int| 0 <= i < s.len() && s[i] == x;
                assert(pks.contains(s[i]));
            }
        }
        vstd::set_lib::lemma_len_subset(s.to_set(), pks);
        assert(false);
    }
    let (a, b) = choose|a: int, b: int| 0 <= a < s.len() && 0 <= b < s.len() && a != b && s[a] == s[b];
    let lo = if a < b { a } else { b };
    let hi = if a < b { b } else { a };
    assert(s[lo] == s[hi]);
    lemma_turns_back(rings, kis, pks, mate, spent, pk, lo as nat, hi as nat);
    (hi - lo) as nat
}

/// From a public key that a turn leaves in place, no number of turns leads
/// away.
proof fn lemma_fixed(kis: Set<u32>, mate: Map<u32, u32>, spent: Seq<u32>, pk: u32, j: nat, m: nat)
    requires
        j <= m,
        turn(kis, mate, spent, turns(kis, mate, spent, pk, j)) == turns(kis, mate, spent, pk, j),
    ensures
        turns(kis, mate, spent, pk, m) == turns(kis, mate, spent, pk, j),
    decreases m,
{
    if m > j {
        lemma_fixed(kis, mate, spent, pk, j, (m - 1) as nat);
    }
}

/// The edges lead along the turns: from every public key of the set to
/// the mate of the key image that spent it, where that is another.
#[verifier::opaque]
pub open spec fn edges_follow_turns(
    edges: Set<(u32, u32)>,
    rings: Seq<Set<u32>>,
    kis: Set<u32>,
    mate: Map<u32, u32>,
) -> bool {
    forall|ki: u32, pk: u32|
        #[trigger] kis.contains(ki) && ki < rings.len() && #[trigger] rings[ki as int].contains(pk)
            && mate[ki] != pk ==> edges.contains((pk, mate[ki]))
}

/// The edges lead against the turns.
#[verifier::opaque]
pub open spec fn edges_oppose_turns(
    edges: Set<(u32, u32)>,
    rings: Seq<Set<u32>>,
    kis: Set<u32>,
    mate: Map<u32, u32>,
) -> bool {
    forall|ki: u32, pk: u32|
        #[trigger] kis.contains(ki) && ki < rings.len() && #[trigger] rings[ki as int].contains(pk)
            && mate[ki] != pk ==> edges.contains((mate[ki], pk))
}

/// Each step of a cycle that is not a single public key is a turn to
/// another public key.
proof fn lemma_cycle_moves(
    rings: Seq<Set<u32>>,
    kis: Set<u32>,
    pks: Set<u32>,
    mate: Map<u32, u32>,
    spent: Seq<u32>,
    pk: u32,
    n: nat,
    k: nat,
)
    requires
        rotation_setting(rings, kis, pks, mate, spent),
        pks.contains(pk),
        turns(kis, mate, spent, pk, n) == pk,
        turn(kis, mate, spent, pk) != pk,
        k < n,
    ensures
        turns(kis, mate, spent, pk, k + 1) != turns(kis, mate, spent, pk, k),
        pks.contains(turns(kis, mate, spent, pk, k)),
        kis.contains(owner(kis, spent, turns(kis, mate, spent, pk, k))),
        owner(kis, spent, turns(kis, mate, spent, pk, k)) < rings.len(),
        rings[owner(kis, spent, turns(kis, mate, spent, pk, k)) as int].contains(
            turns(kis, mate, spent, pk, k),
        ),
        mate[owner(kis, spent, turns(kis, mate, spent, pk, k))] == turns(
            kis,
            mate,
            spent,
            pk,
            k + 1,
        ),
{
    let x = turns(kis, mate, spent, pk, k);
    lemma_turns_stay(rings, kis, pks, mate, spent, pk, k);
    lemma_owner(rings, kis, pks, mate, spent, x);
    if turns(kis, mate, spent, pk, k + 1) == x {
        lemma_fixed(kis, mate, spent, pk, k, n);
        lemma_fixed(kis, mate, spent, pk, k, k + 1);
        assert(x == pk);
        assert(turns(kis, mate, spent, pk, 1) == turn(kis, mate, spent, turns(kis, mate, spent, pk, 0)));
    }
}

/// Where the edges follow the turns, a public key and the one a turn leads
/// to reach each other.
proof fn lemma_turn_reaches_forward(
    edges: Set<(u32, u32)>,
    rings: Seq<Set<u32>>,
    kis: Set<u32>,
    pks: Set<u32>,
    mate: Map<u32, u32>,
    spent: Seq<u32>,
    pk: u32,
)
    requires
        rotation_setting(rings, kis, pks, mate, spent),
        edges_follow_turns(edges, rings, kis, mate),
        pks.contains(pk),
    ensures
        reaches(edges, pk, turn(kis, mate, spent, pk)),
        reaches(edges, turn(kis, mate, spent, pk), pk),
{
    let next = turn(kis, mate, spent, pk);
    if next == pk {
        let w = seq![pk];
        assert(is_walk(edges, w));
        assert(w[0] == pk && w.last() == pk);
    } else {
        reveal(edges_follow_turns);
        let n = lemma_cycle(rings, kis, pks, mate, spent, pk);
        assert(turns(kis, mate, spent, pk, 1) == turn(kis, mate, spent, turns(kis, mate, spent, pk, 0)));
        // The walk of the whole cycle, from `pk` to `pk`.
        let w = Seq::new(n + 1, |k: int| turns(kis, mate, spent, pk, k as nat));
        assert forall|k: int| 0 <= k < w.len() - 1 implies #[trigger] is_step(edges, w, k) by {
            lemma_cycle_moves(rings, kis, pks, mate, spent, pk, n, k as nat);
            let o = owner(kis, spent, w[k]);
            assert(kis.contains(o) && rings[o as int].contains(w[k]));
            assert(mate[o] == w[k + 1]);
        }
        let first = w.take(2);
        assert(is_walk(edges, first)) by {
            assert forall|k: int| 0 <= k < first.len() - 1 implies #[trigger] is_step(
                edges,
                first,
                k,
            ) by {
                assert(is_step(edges, w, k));
            }
        }
        assert(first[0] == pk && first.last() == next);
        let rest = w.skip(1);
        assert(is_walk(edges, rest)) by {
            assert forall|k: int| 0 <= k < rest.len() - 1 implies #[trigger] is_step(
                edges,
                rest,
                k,
            ) by {
                assert(is_step(edges, w, k + 1));
            }
        }
        assert(rest[0] == next && rest.last() == pk);
    }
}

/// Where the edges oppose the turns, a public key and the one a turn leads
/// to reach each other.
proof fn lemma_turn_reaches_backward(
    edges: Set<(u32, u32)>,
    rings: Seq<Set<u32>>,
    kis: Set<u32>,
    pks: Set<u32>,
    mate: Map<u32, u32>,
    spent: Seq<u32>,
    pk: u32,
)
    requires
        rotation_setting(rings, kis, pks, mate, spent),
        edges_oppose_turns(edges, rings, kis, mate),
        pks.contains(pk),
    ensures
        reaches(edges, pk, turn(kis, mate, spent, pk)),
        reaches(edges, turn(kis, mate, spent, pk), pk),
{
    let next = turn(kis, mate, spent, pk);
    if next == pk {
        let w = seq![pk];
        assert(is_walk(edges, w));
        assert(w[0] == pk && w.last() == pk);
    } else {
        reveal(edges_oppose_turns);
        let n = lemma_cycle(rings, kis, pks, mate, spent, pk);
        assert(turns(kis, mate, spent, pk, 1) == turn(kis, mate, spent, turns(kis, mate, spent, pk, 0)));
        // The walk of the whole cycle against the turns, from `pk` to `pk`.
        let w = Seq::new(n + 1, |k: int| turns(kis, mate, spent, pk, (n - k) as nat));
        assert forall|k: int| 0 <= k < w.len() - 1 implies #[trigger] is_step(edges, w, k) by {
            let j = (n - k - 1) as nat;
            lemma_cycle_moves(rings, kis, pks, mate, spent, pk, n, j);
            let o = owner(kis, spent, w[k + 1]);
            assert(w[k + 1] == turns(kis, mate, spent, pk, j));
            assert(w[k] == turns(kis, mate, spent, pk, j + 1));
            assert(kis.contains(o) && rings[o as int].contains(w[k + 1]));
            assert(mate[o] == w[k]);
        }
        let last = w.skip(n as int - 1);
        assert(is_walk(edges, last)) by {
            assert forall|k: int| 0 <= k < last.len() - 1 implies #[trigger] is_step(
                edges,
                last,
                k,
            ) by {
                assert(is_step(edges, w, n - 1 + k));
            }
        }
        assert(last[0] == next && last.last() == pk);
        let front = w.take(n as int);
        assert(is_walk(edges, front)) by {
            assert forall|k: int| 0 <= k < front.len() - 1 implies #[trigger] is_step(
                edges,
                front,
                k,
            ) by {
                assert(is_step(edges, w, k));
            }
        }
        assert(front[0] == pk && front.last() == next);
    }
}

/// In the setting of this module, whoever spent a public key of the closed
/// set is a key image of the set.
proof fn lemma_spender_is_inside(
    rings: Seq<Set<u32>>,
    kis: Set<u32>,
    pks: Set<u32>,
    mate: Map<u32, u32>,
    spent: Seq<u32>,
    kj: int,
)
    requires
        rotation_setting(rings, kis, pks, mate, spent),
        0 <= kj < spent.len(),
        pks.contains(spent[kj]),
    ensures
        kj <= u32::MAX,
        kis.contains(kj as u32),
{
    reveal(rotation_setting);
    lemma_closed_set_claims(rings, kis, pks, spent);
}

/// A member of a part is a node, and a node is a member of some part.
proof fn lemma_part_of(nodes: Set<u32>, parts: Seq<Set<u32>>, x: u32) -> (j: int)
    requires
        parts_cover(nodes, parts),
        nodes.contains(x),
    ensures
        0 <= j < parts.len(),
        parts[j].contains(x),
{
    choose|j: int| 0 <= j < parts.len() && #[trigger] parts[j].contains(x)
}

/// Whoever spent a public key of a part is matched to a public key of that
/// part.
pub proof fn lemma_spender_is_mate(
    edges: Set<(u32, u32)>,
    rings: Seq<Set<u32>>,
    kis: Set<u32>,
    pks: Set<u32>,
    mate: Map<u32, u32>,
    spent: Seq<u32>,
    parts: Seq<Set<u32>>,
    i: int,
    kj: int,
)
    requires
        rotation_setting(rings, kis, pks, mate, spent),
        edges_follow_turns(edges, rings, kis, mate) || edges_oppose_turns(edges, rings, kis, mate),
        parts_cover(pks, parts),
        parts_are_components(edges, parts),
        0 <= i < parts.len(),
        0 <= kj < spent.len(),
        parts[i].contains(spent[kj]),
    ensures
        kj <= u32::MAX,
        kis.contains(kj as u32),
        parts[i].contains(mate[kj as u32]),
{
    let pk = spent[kj];
    assert(pks.contains(pk));
    lemma_spender_is_inside(rings, kis, pks, mate, spent, kj);
    lemma_owner(rings, kis, pks, mate, spent, pk);
    lemma_owner_is(rings, kis, pks, mate, spent, pk, kj as u32);
    let next = turn(kis, mate, spent, pk);
    if edges_follow_turns(edges, rings, kis, mate) {
        lemma_turn_reaches_forward(edges, rings, kis, pks, mate, spent, pk);
    } else {
        lemma_turn_reaches_backward(edges, rings, kis, pks, mate, spent, pk);
    }
    let j = lemma_part_of(pks, parts, next);
    lemma_same_part(edges, parts, i, j, pk, next);
}

/// The parts of a fine decomposition claim their public keys: in every
/// assignment, whoever spent a public key of a part is one of the key
/// images matched to the public keys of that part.
pub proof fn lemma_part_claims(
    edges: Set<(u32, u32)>,
    rings: Seq<Set<u32>>,
    kis: Set<u32>,
    pks: Set<u32>,
    mate: Map<u32, u32>,
    spent: Seq<u32>,
    parts: Seq<Set<u32>>,
    i: int,
)
    requires
        rotation_setting(rings, kis, pks, mate, spent),
        edges_follow_turns(edges, rings, kis, mate) || edges_oppose_turns(edges, rings, kis, mate),
        parts_cover(pks, parts),
        parts_are_components(edges, parts),
        0 <= i < parts.len(),
    ensures
        claims(mates_of(kis, mate, parts[i]), parts[i], spent),
{
    assert forall|kj: int| 0 <= kj < spent.len() && parts[i].contains(#[trigger] spent[kj]) implies kj
        <= u32::MAX && mates_of(kis, mate, parts[i]).contains(kj as u32) by {
        lemma_spender_is_mate(edges, rings, kis, pks, mate, spent, parts, i, kj);
    }
}

/// Two nodes that reach each other are in the same part.
proof fn lemma_same_part(
    edges: Set<(u32, u32)>,
    parts: Seq<Set<u32>>,
    i: int,
    j: int,
    x: u32,
    y: u32,
)
    requires
        parts_are_components(edges, parts),
        0 <= i < parts.len(),
        0 <= j < parts.len(),
        parts[i].contains(x),
        parts[j].contains(y),
        reaches(edges, x, y),
        reaches(edges, y, x),
    ensures
        i == j,
{
    reveal(parts_are_components);
}

} // verus!

//! Helpers for walking hash sets in verified code.

use vstd::prelude::*;
use vstd::std_specs::iter::IteratorSpec;
use std::collections::HashSet;

verus! {

broadcast use vstd::std_specs::hash::group_hash_axioms;

/// The members of a set, each once, in the order in which the set hands
/// them out.
pub fn members(s: &HashSet<u32>) -> (v: Vec<u32>)
    ensures
        v@.to_set() == s@,
        v@.no_duplicates(),
        v@.len() == s@.len(),
        s@.finite(),
{
    let mut v: Vec<u32> = Vec::new();
    let ghost keys = s.iter().remaining();
    for x in it: s.iter()
        invariant
            it.seq() == keys,
            keys == s.iter().remaining(),
            v@ == keys.unref().take(it.index() as int),
    {
        v.push(*x);
    }
    proof {
        assert(v@ == keys.unref());
        assert forall|i: int, j: int| 0 <= i < j < v@.len() implies v@[i] != v@[j] by {
            assert(keys[i] != keys[j]);
        }
        vstd::seq_lib::seq_to_set_is_finite(v@);
    }
    v
}

/// The members of `a` that are not in `b`, each once.
pub fn difference(a: &HashSet<u32>, b: &HashSet<u32>) -> (v: Vec<u32>)
    ensures
        v@.to_set() == a@.difference(b@),
        v@.no_duplicates(),
        v@.len() == a@.difference(b@).len(),
        a@.difference(b@).finite(),
{
    let all = members(a);
    let mut v: Vec<u32> = Vec::new();
    let mut i: usize = 0;
    while i < all.len()
        invariant
            i <= all.len(),
            all@.no_duplicates(),
            all@.to_set() == a@,
            forall|k: int| 0 <= k < v.len() ==> a@.contains(#[trigger] v@[k]) && !b@.contains(v@[k]),
            forall|k: int| 0 <= k < v.len() ==> all@.take(i as int).contains(#[trigger] v@[k]),
            forall|t: int|
                0 <= t < i && !b@.contains(#[trigger] all@[t]) ==> v@.contains(all@[t]),
            v@.no_duplicates(),
        decreases all.len() - i,
    {
        let x = all[i];
        if !b.contains(&x) {
            let ghost prev = v@;
            v.push(x);
            proof {
                assert(all@.to_set().contains(x));
                assert forall|t: int| 0 <= t < i + 1 && !b@.contains(#[trigger] all@[t]) implies v@.contains(
                    all@[t],
                ) by {
                    if t < i {
                        let k = choose|k: int| 0 <= k < prev.len() && prev[k] == all@[t];
                        assert(v@[k] == all@[t]);
                    } else {
                        assert(v@[prev.len() as int] == x);
                    }
                }
                assert forall|k1: int, k2: int| 0 <= k1 < k2 < v.len() implies v@[k1] != v@[k2] by {
                    if k2 == prev.len() {
                        assert(all@.take(i as int).contains(prev[k1]));
                        let t = choose|t: int|
                            0 <= t < all@.take(i as int).len() && all@.take(i as int)[t] == prev[k1];
                        assert(all@[t] == prev[k1]);
                    }
                }
            }
        }
        proof {
            assert forall|k: int| 0 <= k < v.len() implies all@.take(i as int + 1).contains(
                #[trigger] v@[k],
            ) by {
                if all@.take(i as int).contains(v@[k]) {
                    let t = choose|t: int|
                        0 <= t < all@.take(i as int).len() && all@.take(i as int)[t] == v@[k];
                    assert(all@.take(i as int + 1)[t] == v@[k]);
                } else {
                    assert(all@.take(i as int + 1)[i as int] == v@[k]);
                }
            }
        }
        i += 1;
    }
    proof {
        assert forall|x: u32| v@.to_set().contains(x) <==> a@.difference(b@).contains(x) by {
            if a@.contains(x) && !b@.contains(x) {
                assert(all@.contains(x));
                let t = choose|t: int| 0 <= t < all@.len() && all@[t] == x;
                assert(v@.contains(all@[t]));
            }
        }
        assert(v@.to_set() =~= a@.difference(b@));
        vstd::seq_lib::seq_to_set_is_finite(v@);
        v@.unique_seq_to_set();
    }
    v
}

/// A list without repetitions of numbers below `n` has at most `n` entries.
pub proof fn lemma_bounded_list(s: Seq<u32>, n: nat)
    requires
        s.no_duplicates(),
        forall|i: int| 0 <= i < s.len() ==> (#[trigger] s[i]) < n,
    ensures
        s.len() <= n,
{
    let t = Seq::new(s.len(), |i: int| s[i] as int);
    assert(t.no_duplicates());
    t.unique_seq_to_set();
    vstd::set_lib::lemma_int_range(0, n as int);
    assert(t.to_set().subset_of(vstd::set_lib::set_int_range(0, n as int))) by {
        assert forall|x: int| t.to_set().contains(x) implies vstd::set_lib::set_int_range(
            0,
            n as int,
        ).contains(x) by {
            let i = choose|i: int| 0 <= i < t.len() && t[i] == x;
            assert(s[i] < n);
        }
    }
    vstd::set_lib::lemma_len_subset(t.to_set(), vstd::set_lib::set_int_range(0, n as int));
}

/// Pushing `x` onto a sequence adds `x` to its set of members.
pub proof fn lemma_push_to_set(a: Seq<u32>, x: u32)
    ensures
        a.push(x).to_set() == a.to_set().insert(x),
{
    let b = a.push(x);
    assert forall|y: u32| b.to_set().contains(y) <==> a.to_set().insert(x).contains(y) by {
        if b.contains(y) {
            let k = choose|k: int| 0 <= k < b.len() && b[k] == y;
            if k < a.len() {
                assert(a[k] == y);
            }
        }
        if a.contains(y) {
            let k = choose|k: int| 0 <= k < a.len() && a[k] == y;
            assert(b[k] == y);
        }
        if y == x {
            assert(b[a.len() as int] == y);
        }
    }
    assert(b.to_set() =~= a.to_set().insert(x));
}

/// The set of the members of a list.
pub fn set_of(v: &Vec<u32>) -> (s: HashSet<u32>)
    ensures
        s@ == v@.to_set(),
{
    let mut s: HashSet<u32> = HashSet::new();
    let mut i: usize = 0;
    proof {
        assert(v@.take(0).to_set() =~= Set::<u32>::empty());
    }
    while i < v.len()
        invariant
            i <= v.len(),
            s@ == v@.take(i as int).to_set(),
        decreases v.len() - i,
    {
        s.insert(v[i]);
        proof {
            assert(v@.take(i as int + 1) == v@.take(i as int).push(v@[i as int]));
            lemma_push_to_set(v@.take(i as int), v@[i as int]);
        }
        i += 1;
    }
    proof {
        assert(v@.take(v.len() as int) == v@);
    }
    s
}

/// A set with the same members as `s`.
pub fn copy_of(s: &HashSet<u32>) -> (c: HashSet<u32>)
    ensures
        c@ == s@,
{
    let v = members(s);
    set_of(&v)
}

/// The position of `x` in `order`.
pub open spec fn position(order: Seq<u32>, x: u32) -> int {
    choose|i: int| 0 <= i < order.len() && order[i] == x
}

/// In a list without repetitions, every member has one position.
pub proof fn lemma_position(order: Seq<u32>, i: int)
    requires
        order.no_duplicates(),
        0 <= i < order.len(),
    ensures
        position(order, order[i]) == i,
{
    let j = position(order, order[i]);
    assert(0 <= j < order.len() && order[j] == order[i]);
}

/// A member of a list stands at its position.
pub proof fn lemma_position_of_member(order: Seq<u32>, x: u32)
    requires
        order.contains(x),
    ensures
        0 <= position(order, x) < order.len(),
        order[position(order, x)] == x,
{
}

/// The positions at which a list of flags is not set.
pub open spec fn unset(flags: Seq<bool>) -> Set<int> {
    Set::new(|i: int| 0 <= i < flags.len() && !flags[i])
}

/// The positions at which a list of flags is not set are finitely many.
pub proof fn lemma_unset_finite(flags: Seq<bool>)
    ensures
        unset(flags).finite(),
        unset(flags).len() <= flags.len(),
{
    vstd::set_lib::lemma_int_range(0, flags.len() as int);
    assert(unset(flags).subset_of(vstd::set_lib::set_int_range(0, flags.len() as int)));
    vstd::set_lib::lemma_len_subset(
        unset(flags),
        vstd::set_lib::set_int_range(0, flags.len() as int),
    );
}

/// Setting a flag that was not set leaves fewer flags not set.
pub proof fn lemma_set_flag(flags: Seq<bool>, i: int)
    requires
        0 <= i < flags.len(),
        !flags[i],
    ensures
        unset(flags.update(i, true)).len() < unset(flags).len(),
{
    lemma_unset_finite(flags);
    assert(unset(flags.update(i, true)) =~= unset(flags).remove(i));
    assert(unset(flags).contains(i));
}

/// The number of flags that are not set.
pub fn count_unset(flags: &Vec<bool>) -> (count: usize)
    ensures
        count == unset(flags@).len(),
{
    let mut count: usize = 0;
    let mut i: usize = 0;
    proof {
        assert(unset(flags@.take(0)) =~= Set::<int>::empty());
    }
    while i < flags.len()
        invariant
            i <= flags.len(),
            count <= i,
            count == unset(flags@.take(i as int)).len(),
        decreases flags.len() - i,
    {
        proof {
            lemma_unset_finite(flags@.take(i as int));
            if flags@[i as int] {
                assert(unset(flags@.take(i as int + 1)) =~= unset(flags@.take(i as int)));
            } else {
                assert(unset(flags@.take(i as int + 1)) =~= unset(flags@.take(i as int)).insert(
                    i as int,
                ));
            }
        }
        if !flags[i] {
            count += 1;
        }
        i += 1;
    }
    proof {
        assert(flags@.take(flags.len() as int) == flags@);
    }
    count
}

/// A list with the same entries as `v`.
pub fn copy_list(v: &Vec<u32>) -> (c: Vec<u32>)
    ensures
        c@ == v@,
{
    let mut c: Vec<u32> = Vec::new();
    let mut i: usize = 0;
    while i < v.len()
        invariant
            i <= v.len(),
            c@ == v@.take(i as int),
        decreases v.len() - i,
    {
        c.push(v[i]);
        proof {
            assert(v@.take(i as int + 1) == v@.take(i as int).push(v@[i as int]));
        }
        i += 1;
    }
    proof {
        assert(v@.take(v.len() as int) == v@);
    }
    c
}

/// A hash set holds finitely many members.
pub proof fn lemma_hash_set_finite(s: &HashSet<u32>)
    ensures
        s@.finite(),
{
    let keys = vstd::std_specs::hash::spec_hash_keys_iter(s).remaining();
    assert(keys.unref().to_set() == s@);
    vstd::seq_lib::seq_to_set_is_finite(keys.unref());
}

/// A finite set of numbers below `n` has at most `n` members.
pub proof fn lemma_bounded_set(s: Set<u32>, n: nat)
    requires
        s.finite(),
        forall|x: u32| #[trigger] s.contains(x) ==> x < n,
    ensures
        s.len() <= n,
{
    let f = |x: u32| x as int;
    let image = s.map(f);
    assert(vstd::relations::injective_on(f, s));
    vstd::set_lib::lemma_map_size(s, image, f);
    vstd::set_lib::lemma_int_range(0, n as int);
    assert(image.subset_of(vstd::set_lib::set_int_range(0, n as int))) by {
        assert forall|y: int| image.contains(y) implies vstd::set_lib::set_int_range(
            0,
            n as int,
        ).contains(y) by {
            let x = choose|x: u32| s.contains(x) && y == f(x);
            assert(s.contains(x));
        }
    }
    vstd::set_lib::lemma_len_subset(image, vstd::set_lib::set_int_range(0, n as int));
}

} // verus!

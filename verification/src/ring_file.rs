//! The text of a ring file, read and written, and the text of an edge file,
//! written.

use vstd::prelude::*;
use std::collections::HashSet;
use crate::error::Error;
use crate::loader::{fields, records, records_of};
use crate::model::{lists_of, ring_sets};
use crate::sets::members;
use crate::text::{
    byte_lists, decimal, decimal_value, is_number, parse_number, push_decimal, split_bytes, NEWLINE,
    SPACE,
};

verus! {

broadcast use vstd::std_specs::hash::group_hash_axioms;

/// The record is the first of a ring file: it starts with the number of
/// key images and the number of public keys.
pub open spec fn is_header(record: Seq<u8>) -> bool {
    &&& fields(record).len() >= 2
    &&& is_number(fields(record)[0], u32::MAX as nat)
    &&& is_number(fields(record)[1], usize::MAX as nat)
}

/// The number of key images that a header gives.
pub open spec fn header_kis(record: Seq<u8>) -> nat {
    decimal_value(fields(record)[0])
}

/// The number of public keys that a header gives.
pub open spec fn header_pks(record: Seq<u8>) -> nat {
    decimal_value(fields(record)[1])
}

/// The record holds the ring of the key image `ki`: it starts with `ki`,
/// and every field after it is a public key below `num_pks`.
pub open spec fn is_ring_record(record: Seq<u8>, ki: nat, num_pks: nat) -> bool {
    &&& is_number(fields(record)[0], ki)
    &&& decimal_value(fields(record)[0]) == ki
    &&& forall|j: int|
        1 <= j < fields(record).len() ==> is_number(#[trigger] fields(record)[j], u32::MAX as nat)
            && decimal_value(fields(record)[j]) < num_pks
}

/// The ring that a ring record holds: its public keys, in their order.
pub open spec fn ring_of(record: Seq<u8>) -> Seq<u32> {
    Seq::new(
        (fields(record).len() - 1) as nat,
        |j: int| decimal_value(fields(record)[j + 1]) as u32,
    )
}

/// The text is that of a ring file: it has no record, or a header and
/// after it one ring record for each key image, in ascending order.
pub open spec fn is_ring_text(text: Seq<u8>) -> bool {
    let r = records(text);
    r.len() == 0 || {
        &&& is_header(r[0])
        &&& r.len() - 1 == header_kis(r[0])
        &&& forall|i: int|
            0 <= i < r.len() - 1 ==> is_ring_record(#[trigger] r[i + 1], i as nat, header_pks(r[0]))
    }
}

/// The rings that a ring text holds.
pub open spec fn rings_of_text(text: Seq<u8>) -> Seq<Seq<u32>> {
    let r = records(text);
    if r.len() == 0 {
        Seq::empty()
    } else {
        Seq::new((r.len() - 1) as nat, |i: int| ring_of(r[i + 1]))
    }
}

/// The number of public keys that a ring text gives.
pub open spec fn pks_of_text(text: Seq<u8>) -> nat {
    if records(text).len() == 0 {
        0
    } else {
        header_pks(records(text)[0])
    }
}

/// `ki`, as often as `pk` occurs in the ring.
pub open spec fn hits(ring: Seq<u32>, pk: int, ki: u32) -> Seq<u32>
    decreases ring.len(),
{
    if ring.len() == 0 {
        Seq::empty()
    } else if ring.last() == pk {
        hits(ring.drop_last(), pk, ki).push(ki)
    } else {
        hits(ring.drop_last(), pk, ki)
    }
}

/// The key images in whose ring `pk` occurs, in ascending order, each as
/// often as `pk` occurs in its ring.
pub open spec fn named_under(rings: Seq<Seq<u32>>, pk: int) -> Seq<u32>
    decreases rings.len(),
{
    if rings.len() == 0 {
        Seq::empty()
    } else {
        named_under(rings.drop_last(), pk) + hits(rings.last(), pk, (rings.len() - 1) as u32)
    }
}

/// The reverse lists of the rings, for `num_pks` public keys.
pub open spec fn reverse_lists(rings: Seq<Seq<u32>>, num_pks: nat) -> Seq<Seq<u32>> {
    Seq::new(num_pks, |pk: int| named_under(rings, pk))
}

/// Reads one ring record.
fn read_ring(record: &Vec<u8>, ki: usize, num_pks: usize, pk_to_ki_map: &mut Vec<Vec<u32>>) -> (res:
    Option<Vec<u32>>)
    requires
        ki <= u32::MAX,
        old(pk_to_ki_map).len() == num_pks,
    ensures
        final(pk_to_ki_map).len() == num_pks,
        res is Some <==> is_ring_record(record@, ki as nat, num_pks as nat),
        res matches Some(ring) ==> ring@ == ring_of(record@) && forall|pk: int|
            0 <= pk < num_pks ==> #[trigger] lists_of(final(pk_to_ki_map)@)[pk] == lists_of(
                old(pk_to_ki_map)@,
            )[pk] + hits(ring@, pk, ki as u32),
{
    let items = split_bytes(record.as_slice(), SPACE);
    let ghost f = fields(record@);
    proof {
        crate::text::lemma_pieces_nonempty(record@, SPACE, 0, 0);
        assert(byte_lists(items@)[0] == items@[0]@);
    }
    match parse_number(&items[0], ki as u64) {
        Some(v) => {
            if v != ki as u64 {
                return None;
            }
        },
        None => {
            return None;
        },
    }
    let mut ring: Vec<u32> = Vec::new();
    let ghost before = lists_of(pk_to_ki_map@);
    let mut j: usize = 1;
    proof {
        assert forall|pk: int| 0 <= pk < num_pks implies #[trigger] lists_of(pk_to_ki_map@)[pk]
            == before[pk] + hits(ring@, pk, ki as u32) by {
            assert(before[pk] + Seq::<u32>::empty() =~= before[pk]);
        }
    }
    while j < items.len()
        invariant
            1 <= j <= items.len(),
            ki <= u32::MAX,
            byte_lists(items@) == f,
            f == fields(record@),
            pk_to_ki_map.len() == num_pks,
            before.len() == num_pks,
            ring.len() == j - 1,
            forall|t: int|
                1 <= t < j ==> is_number(#[trigger] f[t], u32::MAX as nat) && decimal_value(f[t])
                    < num_pks,
            forall|t: int| 0 <= t < j - 1 ==> #[trigger] ring@[t] == decimal_value(f[t + 1]) as u32,
            forall|pk: int|
                0 <= pk < num_pks ==> #[trigger] lists_of(pk_to_ki_map@)[pk] == before[pk] + hits(
                    ring@,
                    pk,
                    ki as u32,
                ),
        decreases items.len() - j,
    {
        proof {
            assert(byte_lists(items@)[j as int] == items@[j as int]@);
        }
        let pk_index = match parse_number(&items[j], 0xFFFF_FFFF) {
            Some(v) => v as u32,
            None => {
                return None;
            },
        };
        if pk_index as usize >= num_pks {
            return None;
        }
        let ghost ring_before = ring@;
        let ghost lists_before = lists_of(pk_to_ki_map@);
        ring.push(pk_index);
        pk_to_ki_map[pk_index as usize].push(ki as u32);
        proof {
            assert(ring@.drop_last() == ring_before);
            assert forall|pk: int| 0 <= pk < num_pks implies #[trigger] lists_of(pk_to_ki_map@)[pk]
                == before[pk] + hits(ring@, pk, ki as u32) by {
                assert(lists_before[pk] == before[pk] + hits(ring_before, pk, ki as u32));
                if pk == pk_index {
                    assert(lists_of(pk_to_ki_map@)[pk] == lists_before[pk].push(ki as u32));
                    assert((before[pk] + hits(ring_before, pk, ki as u32)).push(ki as u32)
                        =~= before[pk] + hits(ring_before, pk, ki as u32).push(ki as u32));
                } else {
                    assert(lists_of(pk_to_ki_map@)[pk] == lists_before[pk]);
                }
            }
        }
        j += 1;
    }
    proof {
        assert(ring@ =~= ring_of(record@));
    }
    Some(ring)
}

/// Reads the text of a ring file.
///
/// Returns the ring of each key image, as the list of its public keys in
/// the order of the line, and for each public key the list of the key images
/// in whose ring it occurs.  A text without a record gives no rings and no
/// lists.  The text is refused when its first record does not give the two
/// numbers, when it does not hold one record for each key image, in
/// ascending order from 0, and when a record holds anything but public keys
/// below their number.
pub fn read_rings(text: &[u8]) -> (res: Result<(Vec<Vec<u32>>, Vec<Vec<u32>>), Error>)
    ensures
        res is Ok <==> is_ring_text(text@),
        res matches Err(e) ==> e == Error::MalformedRing,
        res matches Ok(read) ==> lists_of(read.0@) == rings_of_text(text@) && lists_of(read.1@)
            == reverse_lists(rings_of_text(text@), pks_of_text(text@)),
{
    let recs = records_of(text);
    let ghost r = records(text@);
    let mut tx_rings: Vec<Vec<u32>> = Vec::new();
    let mut pk_to_ki_map: Vec<Vec<u32>> = Vec::new();
    if recs.len() == 0 {
        proof {
            assert(lists_of(tx_rings@) =~= rings_of_text(text@));
            assert(lists_of(pk_to_ki_map@) =~= reverse_lists(rings_of_text(text@), 0));
        }
        return Ok((tx_rings, pk_to_ki_map));
    }
    proof {
        assert(byte_lists(recs@)[0] == recs@[0]@);
    }
    let items = split_bytes(recs[0].as_slice(), SPACE);
    if items.len() < 2 {
        return Err(Error::MalformedRing);
    }
    proof {
        assert(byte_lists(items@)[0] == items@[0]@);
        assert(byte_lists(items@)[1] == items@[1]@);
    }
    let num_keyimages = match parse_number(&items[0], 0xFFFF_FFFF) {
        Some(v) => v as usize,
        None => {
            return Err(Error::MalformedRing);
        },
    };
    let num_pks = match parse_number(&items[1], usize::MAX as u64) {
        Some(v) => v as usize,
        None => {
            return Err(Error::MalformedRing);
        },
    };
    if recs.len() - 1 != num_keyimages {
        return Err(Error::MalformedRing);
    }
    let mut p: usize = 0;
    while p < num_pks
        invariant
            p <= num_pks,
            pk_to_ki_map.len() == p,
            forall|i: int| 0 <= i < p ==> (#[trigger] pk_to_ki_map@[i])@ == Seq::<u32>::empty(),
        decreases num_pks - p,
    {
        pk_to_ki_map.push(Vec::new());
        p += 1;
    }
    let mut i: usize = 0;
    while i < num_keyimages
        invariant
            i <= num_keyimages,
            num_keyimages <= u32::MAX,
            r == records(text@),
            byte_lists(recs@) == r,
            recs.len() - 1 == num_keyimages,
            num_pks == header_pks(r[0]),
            pk_to_ki_map.len() == num_pks,
            tx_rings.len() == i,
            forall|k: int|
                0 <= k < i ==> is_ring_record(#[trigger] r[k + 1], k as nat, num_pks as nat),
            forall|k: int| 0 <= k < i ==> (#[trigger] tx_rings@[k])@ == ring_of(r[k + 1]),
            forall|pk: int|
                0 <= pk < num_pks ==> #[trigger] lists_of(pk_to_ki_map@)[pk] == named_under(
                    lists_of(tx_rings@),
                    pk,
                ),
        decreases num_keyimages - i,
    {
        proof {
            assert(byte_lists(recs@)[i + 1] == recs@[i + 1]@);
        }
        let ghost lists_before = lists_of(pk_to_ki_map@);
        let ghost rings_before = lists_of(tx_rings@);
        match read_ring(&recs[i + 1], i, num_pks, &mut pk_to_ki_map) {
            Some(ring) => {
                tx_rings.push(ring);
                proof {
                    let rings = lists_of(tx_rings@);
                    assert(rings.drop_last() =~= rings_before);
                    assert(rings.last() == ring@);
                    assert forall|pk: int| 0 <= pk < num_pks implies #[trigger] lists_of(
                        pk_to_ki_map@,
                    )[pk] == named_under(rings, pk) by {
                        assert(lists_before[pk] == named_under(rings_before, pk));
                    }
                }
            },
            None => {
                return Err(Error::MalformedRing);
            },
        }
        i += 1;
    }
    proof {
        assert(lists_of(tx_rings@) =~= rings_of_text(text@));
        assert(lists_of(pk_to_ki_map@) =~= reverse_lists(rings_of_text(text@), pks_of_text(text@)));
    }
    Ok((tx_rings, pk_to_ki_map))
}

/// What follows the key image in the line of a ring: each public key after
/// one space.
pub open spec fn ring_tail(ring: Seq<u32>) -> Seq<u8>
    decreases ring.len(),
{
    if ring.len() == 0 {
        Seq::empty()
    } else {
        ring_tail(ring.drop_last()) + seq![SPACE] + decimal(ring.last() as nat)
    }
}

/// The line of the ring of the key image `ki`.
pub open spec fn ring_line(ki: nat, ring: Seq<u32>) -> Seq<u8> {
    decimal(ki) + ring_tail(ring) + seq![NEWLINE]
}

/// The lines of the rings, one for each key image in ascending order.
pub open spec fn ring_lines(rings: Seq<Seq<u32>>) -> Seq<u8>
    decreases rings.len(),
{
    if rings.len() == 0 {
        Seq::empty()
    } else {
        ring_lines(rings.drop_last()) + ring_line((rings.len() - 1) as nat, rings.last())
    }
}

/// The text of the ring file of the rings: the header, then the lines of
/// the rings.
pub open spec fn ring_file(rings: Seq<Seq<u32>>, num_pks: nat) -> Seq<u8> {
    decimal(rings.len()) + seq![SPACE] + decimal(num_pks) + seq![NEWLINE] + ring_lines(rings)
}

/// Appends the line of a ring.
fn push_ring_line(out: &mut Vec<u8>, ki: usize, ring: &Vec<u32>)
    ensures
        final(out)@ == old(out)@ + ring_line(ki as nat, ring@),
{
    push_decimal(out, ki as u64);
    let ghost start = out@;
    let mut j: usize = 0;
    proof {
        assert(ring@.take(0) =~= Seq::<u32>::empty());
        assert(start + ring_tail(ring@.take(0)) =~= start);
    }
    while j < ring.len()
        invariant
            j <= ring.len(),
            out@ == start + ring_tail(ring@.take(j as int)),
        decreases ring.len() - j,
    {
        let ghost before = out@;
        out.push(SPACE);
        push_decimal(out, ring[j] as u64);
        proof {
            assert(ring@.take(j + 1).drop_last() == ring@.take(j as int));
            assert(ring@.take(j + 1).last() == ring@[j as int]);
            assert(out@ =~= start + ring_tail(ring@.take(j + 1)));
        }
        j += 1;
    }
    out.push(NEWLINE);
    proof {
        assert(ring@.take(ring.len() as int) == ring@);
        assert(out@ =~= old(out)@ + ring_line(ki as nat, ring@));
    }
}

/// Writes the text of the ring file of the rings.
pub fn write_rings(tx_rings: &Vec<Vec<u32>>, num_pks: usize) -> (out: Vec<u8>)
    ensures
        out@ == ring_file(lists_of(tx_rings@), num_pks as nat),
{
    let ghost rings = lists_of(tx_rings@);
    let mut out: Vec<u8> = Vec::new();
    push_decimal(&mut out, tx_rings.len() as u64);
    out.push(SPACE);
    push_decimal(&mut out, num_pks as u64);
    out.push(NEWLINE);
    let ghost head = out@;
    let mut ki_index: usize = 0;
    proof {
        assert(head =~= decimal(rings.len()) + seq![SPACE] + decimal(num_pks as nat) + seq![NEWLINE]);
        assert(rings.take(0) =~= Seq::<Seq<u32>>::empty());
        assert(head + ring_lines(rings.take(0)) =~= head);
    }
    while ki_index < tx_rings.len()
        invariant
            ki_index <= tx_rings.len(),
            rings == lists_of(tx_rings@),
            out@ == head + ring_lines(rings.take(ki_index as int)),
        decreases tx_rings.len() - ki_index,
    {
        push_ring_line(&mut out, ki_index, &tx_rings[ki_index]);
        proof {
            assert(rings.take(ki_index + 1).drop_last() == rings.take(ki_index as int));
            assert(rings.take(ki_index + 1).last() == tx_rings@[ki_index as int]@);
            assert(out@ =~= head + ring_lines(rings.take(ki_index + 1)));
        }
        ki_index += 1;
    }
    proof {
        assert(rings.take(tx_rings.len() as int) == rings);
    }
    out
}

/// Each number of the list is less than the next.
pub open spec fn is_ascending(list: Seq<u32>) -> bool {
    forall|i: int, j: int| 0 <= i < j < list.len() ==> #[trigger] list[i] < #[trigger] list[j]
}

/// `lists` holds the members of each set in ascending order.
pub open spec fn are_ascending_members(lists: Seq<Seq<u32>>, sets: Seq<Set<u32>>) -> bool {
    &&& lists.len() == sets.len()
    &&& forall|i: int|
        0 <= i < lists.len() ==> is_ascending(#[trigger] lists[i]) && lists[i].to_set() == sets[i]
}

/// The members of a set, in ascending order.
pub fn sorted_members(s: &HashSet<u32>) -> (v: Vec<u32>)
    ensures
        is_ascending(v@),
        v@.to_set() == s@,
{
    let all = members(s);
    let mut v: Vec<u32> = Vec::new();
    let mut i: usize = 0;
    proof {
        assert(v@.to_set() =~= all@.take(0).to_set());
    }
    while i < all.len()
        invariant
            i <= all.len(),
            all@.no_duplicates(),
            all@.to_set() == s@,
            is_ascending(v@),
            v@.to_set() == all@.take(i as int).to_set(),
        decreases all.len() - i,
    {
        let x = all[i];
        let mut pos: usize = 0;
        while pos < v.len() && v[pos] < x
            invariant
                pos <= v.len(),
                forall|k: int| 0 <= k < pos ==> (#[trigger] v@[k]) < x,
            decreases v.len() - pos,
        {
            pos += 1;
        }
        let ghost before = v@;
        proof {
            assert(!before.contains(x)) by {
                if before.contains(x) {
                    assert(all@.take(i as int).to_set().contains(x));
                    let t = choose|t: int|
                        0 <= t < all@.take(i as int).len() && all@.take(i as int)[t] == x;
                    assert(all@[t] == all@[i as int]);
                }
            }
        }
        v.insert(pos, x);
        proof {
            assert forall|a: int, b: int| 0 <= a < b < v.len() implies #[trigger] v@[a]
                < #[trigger] v@[b] by {
                if b == pos {
                    assert(v@[a] == before[a]);
                } else if a == pos {
                    assert(v@[b] == before[b - 1]);
                    assert(before[pos as int] >= x);
                    if b - 1 > pos {
                        assert(before[pos as int] < before[b - 1]);
                    }
                    assert(before.contains(before[b - 1]));
                } else {
                    let a0 = if a < pos { a } else { a - 1 };
                    let b0 = if b < pos { b } else { b - 1 };
                    assert(v@[a] == before[a0]);
                    assert(v@[b] == before[b0]);
                }
            }
            assert(all@.take(i + 1) == all@.take(i as int).push(x));
            crate::sets::lemma_push_to_set(all@.take(i as int), x);
            assert(v@.to_set() =~= before.to_set().insert(x)) by {
                assert forall|y: u32| v@.to_set().contains(y) <==> before.to_set().insert(x).contains(
                    y,
                ) by {
                    if v@.contains(y) {
                        let k = choose|k: int| 0 <= k < v@.len() && v@[k] == y;
                        if k < pos {
                            assert(before[k] == y);
                        } else if k > pos {
                            assert(before[k - 1] == y);
                        }
                    }
                    if before.contains(y) {
                        let k = choose|k: int| 0 <= k < before.len() && before[k] == y;
                        if k < pos {
                            assert(v@[k] == y);
                        } else {
                            assert(v@[k + 1] == y);
                        }
                    }
                    if y == x {
                        assert(v@[pos as int] == y);
                    }
                }
            }
        }
        i += 1;
    }
    proof {
        assert(all@.take(all.len() as int) == all@);
    }
    v
}

/// The members of each ring, in ascending order.
pub fn sorted_rings(tx_ring_sets: &Vec<HashSet<u32>>) -> (lists: Vec<Vec<u32>>)
    ensures
        are_ascending_members(lists_of(lists@), ring_sets(tx_ring_sets@)),
{
    let mut lists: Vec<Vec<u32>> = Vec::new();
    let mut i: usize = 0;
    while i < tx_ring_sets.len()
        invariant
            i <= tx_ring_sets.len(),
            lists.len() == i,
            forall|k: int|
                0 <= k < i ==> is_ascending((#[trigger] lists@[k])@) && lists@[k]@.to_set()
                    == tx_ring_sets@[k]@,
        decreases tx_ring_sets.len() - i,
    {
        lists.push(sorted_members(&tx_ring_sets[i]));
        i += 1;
    }
    proof {
        assert forall|k: int| 0 <= k < lists.len() implies is_ascending(
            #[trigger] lists_of(lists@)[k],
        ) && lists_of(lists@)[k].to_set() == ring_sets(tx_ring_sets@)[k] by {
            assert(is_ascending(lists@[k]@));
        }
    }
    lists
}

/// `text` is the ring file of the rings, the members of each in ascending
/// order.
pub open spec fn is_ring_set_file(text: Seq<u8>, rings: Seq<Set<u32>>, num_pks: nat) -> bool {
    exists|lists: Seq<Seq<u32>>|
        #![auto]
        are_ascending_members(lists, rings) && text == ring_file(lists, num_pks)
}

/// Writes the text of the ring file of the rings, the members of each ring
/// in ascending order.
pub fn write_ring_sets(tx_ring_sets: &Vec<HashSet<u32>>, num_pks: usize) -> (out: Vec<u8>)
    ensures
        is_ring_set_file(out@, ring_sets(tx_ring_sets@), num_pks as nat),
{
    let lists = sorted_rings(tx_ring_sets);
    write_rings(&lists, num_pks)
}

/// The lines of the edges of one key image: for each public key of its
/// ring, the key image, a space and the public key.
pub open spec fn edge_lines_of(ki: nat, ring: Seq<u32>) -> Seq<u8>
    decreases ring.len(),
{
    if ring.len() == 0 {
        Seq::empty()
    } else {
        edge_lines_of(ki, ring.drop_last()) + decimal(ki) + seq![SPACE] + decimal(
            ring.last() as nat,
        ) + seq![NEWLINE]
    }
}

/// The text of the edge file of the rings: the lines of the edges of each
/// key image, in ascending order.
pub open spec fn edge_file(rings: Seq<Seq<u32>>) -> Seq<u8>
    decreases rings.len(),
{
    if rings.len() == 0 {
        Seq::empty()
    } else {
        edge_file(rings.drop_last()) + edge_lines_of((rings.len() - 1) as nat, rings.last())
    }
}

/// `text` is the edge file of the rings, the members of each in ascending
/// order.
pub open spec fn is_ring_set_edge_file(text: Seq<u8>, rings: Seq<Set<u32>>) -> bool {
    exists|lists: Seq<Seq<u32>>|
        #![auto]
        are_ascending_members(lists, rings) && text == edge_file(lists)
}

/// Writes the text of the edge file of the rings: one line for each member
/// of each ring, by ascending key image and public key.
pub fn write_edges(tx_ring_sets: Vec<HashSet<u32>>) -> (out: Vec<u8>)
    ensures
        is_ring_set_edge_file(out@, ring_sets(tx_ring_sets@)),
{
    let lists = sorted_rings(&tx_ring_sets);
    let ghost rings = lists_of(lists@);
    let mut out: Vec<u8> = Vec::new();
    let mut ki_index: usize = 0;
    proof {
        assert(rings.take(0) =~= Seq::<Seq<u32>>::empty());
    }
    while ki_index < lists.len()
        invariant
            ki_index <= lists.len(),
            rings == lists_of(lists@),
            out@ == edge_file(rings.take(ki_index as int)),
        decreases lists.len() - ki_index,
    {
        let ring = &lists[ki_index];
        let ghost start = out@;
        let mut j: usize = 0;
        proof {
            assert(ring@.take(0) =~= Seq::<u32>::empty());
            assert(start + edge_lines_of(ki_index as nat, ring@.take(0)) =~= start);
        }
        while j < ring.len()
            invariant
                j <= ring.len(),
                out@ == start + edge_lines_of(ki_index as nat, ring@.take(j as int)),
            decreases ring.len() - j,
        {
            push_decimal(&mut out, ki_index as u64);
            out.push(SPACE);
            push_decimal(&mut out, ring[j] as u64);
            out.push(NEWLINE);
            proof {
                assert(ring@.take(j + 1).drop_last() == ring@.take(j as int));
                assert(ring@.take(j + 1).last() == ring@[j as int]);
                assert(out@ =~= start + edge_lines_of(ki_index as nat, ring@.take(j + 1)));
            }
            j += 1;
        }
        proof {
            assert(ring@.take(ring.len() as int) == ring@);
            assert(rings.take(ki_index + 1).drop_last() == rings.take(ki_index as int));
            assert(rings.take(ki_index + 1).last() == ring@);
        }
        ki_index += 1;
    }
    proof {
        assert(rings.take(lists.len() as int) == rings);
    }
    out
}

} // verus!

//! Reading the text of an edge file or a ring file, and building the rings
//! from the edges.
//!
//! An edge file holds one edge per line: the key image, a space, the public
//! key; what follows a second space is ignored.  A ring file starts with a
//! line that holds the number of key images and the number of public keys;
//! then comes one line per key image, in ascending order from 0: the key
//! image, and after it the public keys of its ring, each after one space.
//! Empty lines at the end of either file are passed over.

use vstd::prelude::*;
use std::collections::HashSet;
use crate::error::Error;
use crate::model::{
    lists_cover_rings, lists_in_range, lists_key_image, lists_of, ring_sets, rings_in_range,
};
use crate::text::{
    byte_lists, decimal_value, is_number, lines, lines_of, parse_number, split, split_bytes, trim,
    trim_bytes, SPACE,
};

verus! {

broadcast use vstd::std_specs::hash::group_hash_axioms;

/// The lines without those at the end that are empty.
pub open spec fn drop_empty_tail(ls: Seq<Seq<u8>>) -> Seq<Seq<u8>>
    decreases ls.len(),
{
    if ls.len() > 0 && ls.last().len() == 0 {
        drop_empty_tail(ls.drop_last())
    } else {
        ls
    }
}

/// Each line without the white space at its two ends.
pub open spec fn trimmed(ls: Seq<Seq<u8>>) -> Seq<Seq<u8>> {
    Seq::new(ls.len(), |i: int| trim(ls[i]))
}

/// The records of a text: its lines, each without the white space at its
/// two ends, up to the last that is not empty.
pub open spec fn records(text: Seq<u8>) -> Seq<Seq<u8>> {
    drop_empty_tail(trimmed(lines(text)))
}

/// The fields of a record: its pieces between spaces.
pub open spec fn fields(record: Seq<u8>) -> Seq<Seq<u8>> {
    split(record, SPACE)
}

/// The record holds an edge: it starts with two numbers that fit 32 bits.
pub open spec fn is_edge_record(record: Seq<u8>) -> bool {
    &&& fields(record).len() >= 2
    &&& is_number(fields(record)[0], u32::MAX as nat)
    &&& is_number(fields(record)[1], u32::MAX as nat)
}

/// The key image of an edge record.
pub open spec fn edge_ki(record: Seq<u8>) -> nat {
    decimal_value(fields(record)[0])
}

/// The public key of an edge record.
pub open spec fn edge_pk(record: Seq<u8>) -> nat {
    decimal_value(fields(record)[1])
}

/// `max` is the greatest of the numbers, or 0 where there are none.
pub open spec fn is_greatest(numbers: Seq<u32>, max: u32) -> bool {
    &&& forall|i: int| 0 <= i < numbers.len() ==> (#[trigger] numbers[i]) <= max
    &&& numbers.len() == 0 ==> max == 0
    &&& numbers.len() > 0 ==> exists|i: int| 0 <= i < numbers.len() && #[trigger] numbers[i] == max
}

/// The records of a text.
pub fn records_of(text: &[u8]) -> (found: Vec<Vec<u8>>)
    ensures
        byte_lists(found@) == records(text@),
{
    let ls = lines_of(text);
    let mut found: Vec<Vec<u8>> = Vec::new();
    let mut i: usize = 0;
    while i < ls.len()
        invariant
            i <= ls.len(),
            byte_lists(ls@) == lines(text@),
            found.len() == i,
            forall|k: int| 0 <= k < i ==> (#[trigger] found@[k])@ == trim(ls@[k]@),
        decreases ls.len() - i,
    {
        found.push(trim_bytes(&ls[i]));
        i += 1;
    }
    proof {
        assert(byte_lists(found@) =~= trimmed(lines(text@))) by {
            assert forall|k: int| 0 <= k < found.len() implies byte_lists(found@)[k] == trimmed(
                lines(text@),
            )[k] by {
                assert(byte_lists(ls@)[k] == ls@[k]@);
            }
        }
    }
    let ghost all = byte_lists(found@);
    while found.len() > 0 && found[found.len() - 1].len() == 0
        invariant
            drop_empty_tail(byte_lists(found@)) == drop_empty_tail(all),
        decreases found.len(),
    {
        let ghost before = byte_lists(found@);
        found.pop();
        proof {
            assert(byte_lists(found@) =~= before.drop_last());
            assert(before.last().len() == 0);
        }
    }
    proof {
        let ls = byte_lists(found@);
        if ls.len() > 0 {
            assert(ls.last() == found@[found.len() - 1]@);
        }
    }
    found
}

/// Reads the text of an edge file.
///
/// Returns the public keys and the key images of the edges, in the order of
/// the lines, the greatest public key and the greatest key image.  A line
/// that occurs twice gives two edges.  The text is refused when a record
/// does not start with two numbers that fit 32 bits.
pub fn read_edges(text: &[u8]) -> (res: Result<(Vec<u32>, Vec<u32>, u32, u32), Error>)
    ensures
        res is Ok <==> forall|i: int|
            0 <= i < records(text@).len() ==> is_edge_record(#[trigger] records(text@)[i]),
        res matches Err(e) ==> e == Error::MalformedEdge,
        res matches Ok(edges) ==> {
            &&& edges.0.len() == records(text@).len()
            &&& edges.1.len() == records(text@).len()
            &&& forall|i: int|
                0 <= i < records(text@).len() ==> (#[trigger] edges.0@[i]) == edge_pk(
                    records(text@)[i],
                ) && edges.1@[i] == edge_ki(records(text@)[i])
            &&& is_greatest(edges.0@, edges.2)
            &&& is_greatest(edges.1@, edges.3)
        },
{
    let recs = records_of(text);
    let mut row_indices: Vec<u32> = Vec::new();
    let mut col_indices: Vec<u32> = Vec::new();
    let mut max_row_index: u32 = 0;
    let mut max_col_index: u32 = 0;
    let mut i: usize = 0;
    while i < recs.len()
        invariant
            i <= recs.len(),
            byte_lists(recs@) == records(text@),
            row_indices.len() == i,
            col_indices.len() == i,
            forall|k: int| 0 <= k < i ==> is_edge_record(#[trigger] records(text@)[k]),
            forall|k: int|
                0 <= k < i ==> (#[trigger] row_indices@[k]) == edge_pk(records(text@)[k])
                    && col_indices@[k] == edge_ki(records(text@)[k]),
            is_greatest(row_indices@, max_row_index),
            is_greatest(col_indices@, max_col_index),
        decreases recs.len() - i,
    {
        proof {
            assert(byte_lists(recs@)[i as int] == recs@[i as int]@);
        }
        let items = split_bytes(recs[i].as_slice(), SPACE);
        proof {
            assert(byte_lists(items@) == fields(records(text@)[i as int]));
        }
        if items.len() < 2 {
            return Err(Error::MalformedEdge);
        }
        proof {
            assert(byte_lists(items@)[0] == items@[0]@);
            assert(byte_lists(items@)[1] == items@[1]@);
        }
        let keyimage_index = match parse_number(&items[0], 0xFFFF_FFFF) {
            Some(v) => v as u32,
            None => {
                return Err(Error::MalformedEdge);
            },
        };
        let pubkey_index = match parse_number(&items[1], 0xFFFF_FFFF) {
            Some(v) => v as u32,
            None => {
                return Err(Error::MalformedEdge);
            },
        };
        let ghost rows_before = row_indices@;
        let ghost cols_before = col_indices@;
        col_indices.push(keyimage_index);
        row_indices.push(pubkey_index);
        if keyimage_index > max_col_index {
            max_col_index = keyimage_index;
        }
        if pubkey_index > max_row_index {
            max_row_index = pubkey_index;
        }
        proof {
            assert(is_greatest(row_indices@, max_row_index)) by {
                if pubkey_index == max_row_index {
                    assert(row_indices@[i as int] == max_row_index);
                } else {
                    let k = choose|k: int|
                        0 <= k < rows_before.len() && #[trigger] rows_before[k] == max_row_index;
                    assert(row_indices@[k] == max_row_index);
                }
            }
            assert(is_greatest(col_indices@, max_col_index)) by {
                if keyimage_index == max_col_index {
                    assert(col_indices@[i as int] == max_col_index);
                } else {
                    let k = choose|k: int|
                        0 <= k < cols_before.len() && #[trigger] cols_before[k] == max_col_index;
                    assert(col_indices@[k] == max_col_index);
                }
            }
        }
        i += 1;
    }
    Ok((row_indices, col_indices, max_row_index, max_col_index))
}

/// The key images of the edges whose public key is `pk`, in the order of the
/// edges.
pub open spec fn key_images_at(pk_indices: Seq<u32>, ki_indices: Seq<u32>, pk: int) -> Seq<u32>
    decreases pk_indices.len(),
{
    if pk_indices.len() == 0 || ki_indices.len() == 0 {
        Seq::empty()
    } else {
        let rest = key_images_at(pk_indices.drop_last(), ki_indices.drop_last(), pk);
        if pk_indices.last() == pk {
            rest.push(ki_indices.last())
        } else {
            rest
        }
    }
}

/// The public keys of the edges whose key image is `ki`.
pub open spec fn public_keys_at(pk_indices: Seq<u32>, ki_indices: Seq<u32>, ki: int) -> Set<u32> {
    Set::new(
        |pk: u32|
            exists|i: int|
                0 <= i < pk_indices.len() && i < ki_indices.len() && #[trigger] ki_indices[i] == ki
                    && pk_indices[i] == pk,
    )
}

/// The rings and the reverse lists are those of the edges: the ring of a
/// key image holds the public keys of its edges, each once however often
/// the edge occurs, and the reverse list of a public key names the key
/// images of its edges in their order, as often as they occur.
pub open spec fn are_rings_of(
    rings: Seq<Set<u32>>,
    pk_to_ki: Seq<Seq<u32>>,
    num_kis: nat,
    num_pks: nat,
    ki_indices: Seq<u32>,
    pk_indices: Seq<u32>,
) -> bool {
    &&& rings.len() == num_kis
    &&& pk_to_ki.len() == num_pks
    &&& forall|ki: int|
        0 <= ki < num_kis ==> #[trigger] rings[ki] == public_keys_at(pk_indices, ki_indices, ki)
    &&& forall|pk: int|
        0 <= pk < num_pks ==> #[trigger] pk_to_ki[pk] == key_images_at(pk_indices, ki_indices, pk)
}

/// Every key image named under `pk` has `pk` in its ring.
proof fn lemma_key_images_at(pk_indices: Seq<u32>, ki_indices: Seq<u32>, pk: int, ki: int)
    requires
        pk_indices.len() == ki_indices.len(),
    ensures
        (exists|j: int|
            0 <= j < key_images_at(pk_indices, ki_indices, pk).len() && #[trigger] key_images_at(
                pk_indices,
                ki_indices,
                pk,
            )[j] == ki) <==> (exists|i: int|
            0 <= i < pk_indices.len() && #[trigger] ki_indices[i] == ki && pk_indices[i] == pk),
    decreases pk_indices.len(),
{
    let list = key_images_at(pk_indices, ki_indices, pk);
    if pk_indices.len() == 0 {
    } else {
        let ps = pk_indices.drop_last();
        let ks = ki_indices.drop_last();
        let rest = key_images_at(ps, ks, pk);
        lemma_key_images_at(ps, ks, pk, ki);
        let n = pk_indices.len() - 1;
        if exists|j: int| 0 <= j < list.len() && #[trigger] list[j] == ki {
            let j = choose|j: int| 0 <= j < list.len() && #[trigger] list[j] == ki;
            if j < rest.len() {
                assert(rest[j] == ki);
                let i = choose|i: int| 0 <= i < ps.len() && #[trigger] ks[i] == ki && ps[i] == pk;
                assert(ki_indices[i] == ki && pk_indices[i] == pk);
            } else {
                assert(ki_indices[n] == ki && pk_indices[n] == pk);
            }
        }
        if exists|i: int| 0 <= i < pk_indices.len() && #[trigger] ki_indices[i] == ki && pk_indices[i] == pk {
            let i = choose|i: int|
                0 <= i < pk_indices.len() && #[trigger] ki_indices[i] == ki && pk_indices[i] == pk;
            if i < n {
                assert(ks[i] == ki && ps[i] == pk);
                let j = choose|j: int| 0 <= j < rest.len() && #[trigger] rest[j] == ki;
                assert(list[j] == ki);
            } else {
                assert(list[rest.len() as int] == ki);
            }
        }
    }
}

/// Builds the rings and the reverse lists from the edges (`ki_indices[i]`,
/// `pk_indices[i]`).
///
/// The edges are refused as inconsistent where the two lists differ in
/// length and where an index lies outside the given numbers of key images
/// and public keys.
pub fn rings_from_edges(
    num_kis: usize,
    num_pks: usize,
    ki_indices: &Vec<u32>,
    pk_indices: &Vec<u32>,
) -> (res: Result<(Vec<HashSet<u32>>, Vec<Vec<u32>>), Error>)
    ensures
        res is Ok <==> ki_indices.len() == pk_indices.len() && (forall|i: int|
            0 <= i < ki_indices.len() ==> (#[trigger] ki_indices@[i]) < num_kis) && (forall|i: int|
            0 <= i < pk_indices.len() ==> (#[trigger] pk_indices@[i]) < num_pks),
        res matches Err(e) ==> e == Error::Inconsistency,
        res matches Ok(built) ==> {
            &&& are_rings_of(
                ring_sets(built.0@),
                lists_of(built.1@),
                num_kis as nat,
                num_pks as nat,
                ki_indices@,
                pk_indices@,
            )
            &&& rings_in_range(ring_sets(built.0@), num_pks as nat)
            &&& lists_in_range(lists_of(built.1@), num_kis as nat)
            &&& lists_cover_rings(ring_sets(built.0@), lists_of(built.1@))
        },
{
    if ki_indices.len() != pk_indices.len() {
        return Err(Error::Inconsistency);
    }
    let mut tx_ring_sets: Vec<HashSet<u32>> = Vec::new();
    let mut k: usize = 0;
    while k < num_kis
        invariant
            k <= num_kis,
            tx_ring_sets.len() == k,
            forall|i: int| 0 <= i < k ==> (#[trigger] tx_ring_sets@[i])@ == Set::<u32>::empty(),
        decreases num_kis - k,
    {
        tx_ring_sets.push(HashSet::new());
        k += 1;
    }
    let mut pk_to_ki_map: Vec<Vec<u32>> = Vec::new();
    let mut p: usize = 0;
    while p < num_pks
        invariant
            p <= num_pks,
            pk_to_ki_map.len() == p,
            forall|i: int| 0 <= i < p ==> (#[trigger] pk_to_ki_map@[i])@ == Seq::<u32>::empty(),
        decreases num_pks - p,
    {
        pk_to_ki_map.push(Vec::new());
        p += 1;
    }
    let mut i: usize = 0;
    proof {
        assert forall|ki: int| 0 <= ki < num_kis implies #[trigger] ring_sets(tx_ring_sets@)[ki]
            == public_keys_at(pk_indices@.take(0), ki_indices@.take(0), ki) by {
            assert(public_keys_at(pk_indices@.take(0), ki_indices@.take(0), ki) =~= Set::<u32>::empty());
        }
    }
    while i < ki_indices.len()
        invariant
            i <= ki_indices.len(),
            ki_indices.len() == pk_indices.len(),
            tx_ring_sets.len() == num_kis,
            pk_to_ki_map.len() == num_pks,
            forall|t: int| 0 <= t < i ==> (#[trigger] ki_indices@[t]) < num_kis,
            forall|t: int| 0 <= t < i ==> (#[trigger] pk_indices@[t]) < num_pks,
            forall|ki: int|
                0 <= ki < num_kis ==> #[trigger] ring_sets(tx_ring_sets@)[ki] == public_keys_at(
                    pk_indices@.take(i as int),
                    ki_indices@.take(i as int),
                    ki,
                ),
            forall|pk: int|
                0 <= pk < num_pks ==> #[trigger] lists_of(pk_to_ki_map@)[pk] == key_images_at(
                    pk_indices@.take(i as int),
                    ki_indices@.take(i as int),
                    pk,
                ),
        decreases ki_indices.len() - i,
    {
        let ki = ki_indices[i];
        let pk = pk_indices[i];
        if ki as usize >= num_kis || pk as usize >= num_pks {
            return Err(Error::Inconsistency);
        }
        let ghost rings_before = ring_sets(tx_ring_sets@);
        let ghost lists_before = lists_of(pk_to_ki_map@);
        tx_ring_sets[ki as usize].insert(pk);
        pk_to_ki_map[pk as usize].push(ki);
        proof {
            let ps = pk_indices@.take(i as int);
            let ks = ki_indices@.take(i as int);
            let ps2 = pk_indices@.take(i + 1);
            let ks2 = ki_indices@.take(i + 1);
            assert(ps2.drop_last() == ps);
            assert(ks2.drop_last() == ks);
            assert(ps2.last() == pk);
            assert(ks2.last() == ki);
            assert forall|k2: int| 0 <= k2 < num_kis implies #[trigger] ring_sets(tx_ring_sets@)[k2]
                == public_keys_at(ps2, ks2, k2) by {
                assert(rings_before[k2] == public_keys_at(ps, ks, k2));
                let want = public_keys_at(ps2, ks2, k2);
                let have = ring_sets(tx_ring_sets@)[k2];
                assert forall|q: u32| have.contains(q) <==> want.contains(q) by {
                    if public_keys_at(ps, ks, k2).contains(q) {
                        let t = choose|t: int|
                            0 <= t < ps.len() && t < ks.len() && #[trigger] ks[t] == k2 && ps[t] == q;
                        assert(ks2[t] == k2 && ps2[t] == q);
                    }
                    if want.contains(q) {
                        let t = choose|t: int|
                            0 <= t < ps2.len() && t < ks2.len() && #[trigger] ks2[t] == k2 && ps2[t]
                                == q;
                        if t < i {
                            assert(ks[t] == k2 && ps[t] == q);
                        }
                    }
                    if k2 == ki && q == pk {
                        assert(ks2[i as int] == k2 && ps2[i as int] == q);
                    }
                }
                assert(have =~= want);
            }
            assert forall|p2: int| 0 <= p2 < num_pks implies #[trigger] lists_of(pk_to_ki_map@)[p2]
                == key_images_at(ps2, ks2, p2) by {
                assert(lists_before[p2] == key_images_at(ps, ks, p2));
            }
        }
        i += 1;
    }
    proof {
        assert(pk_indices@.take(ki_indices.len() as int) == pk_indices@);
        assert(ki_indices@.take(ki_indices.len() as int) == ki_indices@);
        let rings = ring_sets(tx_ring_sets@);
        let lists = lists_of(pk_to_ki_map@);
        assert forall|ki: int, pk: u32| 0 <= ki < rings.len() && #[trigger] rings[ki].contains(
            pk,
        ) implies pk < num_pks && lists_key_image(lists, pk, ki) by {
            assert(rings[ki] == public_keys_at(pk_indices@, ki_indices@, ki));
            let t = choose|t: int|
                0 <= t < pk_indices@.len() && t < ki_indices@.len() && #[trigger] ki_indices@[t]
                    == ki && pk_indices@[t] == pk;
            assert(pk_indices@[t] < num_pks);
            lemma_key_images_at(pk_indices@, ki_indices@, pk as int, ki);
            assert(lists[pk as int] == key_images_at(pk_indices@, ki_indices@, pk as int));
        }
        assert forall|pk: int, j: int|
            0 <= pk < lists.len() && 0 <= j < lists[pk].len() implies (#[trigger] lists[pk][j])
            < num_kis by {
            let ki = lists[pk][j];
            assert(lists[pk] == key_images_at(pk_indices@, ki_indices@, pk));
            lemma_key_images_at(pk_indices@, ki_indices@, pk, ki as int);
            let t = choose|t: int|
                0 <= t < pk_indices@.len() && #[trigger] ki_indices@[t] == ki && pk_indices@[t] == pk;
            assert(ki_indices@[t] < num_kis);
        }
    }
    Ok((tx_ring_sets, pk_to_ki_map))
}

} // verus!

//! Reading back what was written: the text that [`write_rings`] writes is
//! a ring text, and holds the rings it was written from.
//!
//! [`write_rings`]: crate::ring_file::write_rings

use vstd::prelude::*;
use crate::loader::{drop_empty_tail, fields, records, trimmed};
use crate::ring_file::{
    are_ascending_members, is_ring_set_file, header_kis, header_pks, is_header, is_ring_record, is_ring_text, pks_of_text, ring_file,
    ring_line, ring_lines, ring_of, ring_tail, rings_of_text,
};
use crate::text::{
    back_blank, decimal, decimal_value, is_digit, is_number, is_numeral, lines, pieces,
    skip_blank, split, trim, NEWLINE, SPACE,
};

verus! {

/// The digits of a number are digits, and write the number.
pub proof fn lemma_decimal(n: nat)
    ensures
        is_numeral(decimal(n)),
        decimal_value(decimal(n)) == n,
    decreases n,
{
    if n < 10 {
        let s = decimal(n);
        assert(s.len() == 1);
        assert(s.drop_last() =~= Seq::<u8>::empty());
        assert(decimal_value(s.drop_last()) == 0);
    } else {
        lemma_decimal(n / 10);
        let s = decimal(n);
        let front = decimal(n / 10);
        assert(s.drop_last() =~= front);
        assert(s.last() == (48 + n % 10) as u8);
        assert forall|i: int| 0 <= i < s.len() implies is_digit(#[trigger] s[i]) by {
            if i < front.len() {
                assert(s[i] == front[i]);
            }
        }
    }
}

/// No byte of `s` is the separator.
pub open spec fn is_plain(s: Seq<u8>, sep: u8) -> bool {
    forall|i: int| 0 <= i < s.len() ==> #[trigger] s[i] != sep
}

/// From a position after which no separator comes, one piece is left.
proof fn lemma_pieces_plain(s: Seq<u8>, sep: u8, start: int, pos: int)
    requires
        0 <= start <= pos <= s.len(),
        forall|i: int| pos <= i < s.len() ==> #[trigger] s[i] != sep,
    ensures
        pieces(s, sep, start, pos) == seq![s.subrange(start, s.len() as int)],
    decreases s.len() - pos,
{
    if pos < s.len() {
        lemma_pieces_plain(s, sep, start, pos + 1);
    }
}

/// A sequence without separator is a single piece.
pub proof fn lemma_split_plain(s: Seq<u8>, sep: u8)
    requires
        is_plain(s, sep),
    ensures
        split(s, sep) == seq![s],
{
    lemma_pieces_plain(s, sep, 0, 0);
    assert(s.subrange(0, s.len() as int) =~= s);
}

/// The pieces from a position on are those of what is left of the sequence
/// from an earlier position on.
proof fn lemma_pieces_shift(s: Seq<u8>, sep: u8, m: int, start: int, pos: int)
    requires
        0 <= m <= start <= pos <= s.len(),
    ensures
        pieces(s, sep, start, pos) == pieces(s.skip(m), sep, start - m, pos - m),
    decreases s.len() - pos,
{
    let t = s.skip(m);
    if pos >= s.len() {
        assert(s.subrange(start, s.len() as int) =~= t.subrange(start - m, t.len() as int));
    } else if s[pos] == sep {
        assert(t[pos - m] == s[pos]);
        lemma_pieces_shift(s, sep, m, pos + 1, pos + 1);
        assert(s.subrange(start, pos) =~= t.subrange(start - m, pos - m));
    } else {
        assert(t[pos - m] == s[pos]);
        lemma_pieces_shift(s, sep, m, start, pos + 1);
    }
}

/// Within the first of two sequences joined by a separator, the pieces are
/// those of the first, and after them those of the second.
proof fn lemma_pieces_concat(a: Seq<u8>, b: Seq<u8>, sep: u8, start: int, pos: int)
    requires
        0 <= start <= pos <= a.len(),
    ensures
        pieces(a + seq![sep] + b, sep, start, pos) == pieces(a, sep, start, pos) + split(b, sep),
    decreases a.len() - pos,
{
    let s = a + seq![sep] + b;
    let m = a.len() as int + 1;
    if pos == a.len() {
        assert(s[pos] == sep);
        lemma_pieces_shift(s, sep, m, m, m);
        assert(s.skip(m) =~= b);
        assert(s.subrange(start, pos) =~= a.subrange(start, a.len() as int));
        assert(seq![s.subrange(start, pos)] + pieces(s, sep, pos + 1, pos + 1) =~= seq![
            a.subrange(start, a.len() as int),
        ] + split(b, sep));
    } else {
        assert(s[pos] == a[pos]);
        if a[pos] == sep {
            lemma_pieces_concat(a, b, sep, pos + 1, pos + 1);
            assert(s.subrange(start, pos) =~= a.subrange(start, pos));
            assert(seq![s.subrange(start, pos)] + (pieces(a, sep, pos + 1, pos + 1) + split(b, sep))
                =~= (seq![a.subrange(start, pos)] + pieces(a, sep, pos + 1, pos + 1)) + split(
                b,
                sep,
            ));
        } else {
            lemma_pieces_concat(a, b, sep, start, pos + 1);
        }
    }
}

/// The pieces of two sequences joined by a separator are those of the
/// first, then those of the second.
pub proof fn lemma_split_concat(a: Seq<u8>, b: Seq<u8>, sep: u8)
    ensures
        split(a + seq![sep] + b, sep) == split(a, sep) + split(b, sep),
{
    lemma_pieces_concat(a, b, sep, 0, 0);
}

/// The lines, each followed by a line feed.
pub open spec fn joined(ls: Seq<Seq<u8>>) -> Seq<u8>
    decreases ls.len(),
{
    if ls.len() == 0 {
        Seq::empty()
    } else {
        ls.first() + seq![NEWLINE] + joined(ls.drop_first())
    }
}

/// One more line at the end.
proof fn lemma_joined_push(ls: Seq<Seq<u8>>, l: Seq<u8>)
    ensures
        joined(ls.push(l)) == joined(ls) + l + seq![NEWLINE],
    decreases ls.len(),
{
    if ls.len() == 0 {
        let p = ls.push(l);
        assert(p.first() == l);
        assert(p.drop_first() =~= Seq::<Seq<u8>>::empty());
        assert(joined(p.drop_first()) =~= Seq::<u8>::empty());
        assert(joined(p) == p.first() + seq![NEWLINE] + joined(p.drop_first()));
        assert(joined(ls) =~= Seq::<u8>::empty());
        assert(joined(p) =~= joined(ls) + l + seq![NEWLINE]);
    } else {
        lemma_joined_push(ls.drop_first(), l);
        assert(ls.push(l).drop_first() =~= ls.drop_first().push(l));
        assert(ls.push(l).first() == ls.first());
        assert(joined(ls.push(l)) =~= joined(ls) + l + seq![NEWLINE]);
    }
}

/// Lines without line feed, each followed by one, are split into
/// themselves and one empty piece.
proof fn lemma_split_joined(ls: Seq<Seq<u8>>)
    requires
        forall|i: int| 0 <= i < ls.len() ==> is_plain(#[trigger] ls[i], NEWLINE),
    ensures
        split(joined(ls), NEWLINE) == ls.push(Seq::<u8>::empty()),
    decreases ls.len(),
{
    if ls.len() == 0 {
        lemma_split_plain(Seq::<u8>::empty(), NEWLINE);
        assert(ls.push(Seq::<u8>::empty()) =~= seq![Seq::<u8>::empty()]);
    } else {
        let rest = ls.drop_first();
        assert forall|i: int| 0 <= i < rest.len() implies is_plain(#[trigger] rest[i], NEWLINE) by {
            assert(rest[i] == ls[i + 1]);
        }
        lemma_split_joined(rest);
        lemma_split_concat(ls.first(), joined(rest), NEWLINE);
        lemma_split_plain(ls.first(), NEWLINE);
        assert(seq![ls.first()] + rest.push(Seq::<u8>::empty()) =~= ls.push(Seq::<u8>::empty()));
    }
}

/// The lines of lines without line feed, each followed by one, are the
/// lines.
pub proof fn lemma_lines_of_joined(ls: Seq<Seq<u8>>)
    requires
        forall|i: int| 0 <= i < ls.len() ==> is_plain(#[trigger] ls[i], NEWLINE),
    ensures
        lines(joined(ls)) == ls,
{
    lemma_split_joined(ls);
    assert(ls.push(Seq::<u8>::empty()).drop_last() =~= ls);
}

/// A sequence that starts and ends with a digit has no white space to lose.
pub proof fn lemma_trim_numeral_ends(s: Seq<u8>)
    requires
        s.len() > 0,
        is_digit(s.first()),
        is_digit(s.last()),
    ensures
        trim(s) == s,
{
    assert(skip_blank(s, 0) == 0);
    assert(back_blank(s, 0, s.len() as int) == s.len());
    assert(s.subrange(0, s.len() as int) =~= s);
}

/// The line of a ring, without its line feed.
pub open spec fn ring_record(ki: nat, ring: Seq<u32>) -> Seq<u8> {
    decimal(ki) + ring_tail(ring)
}

/// The digits of each public key of a ring.
pub open spec fn ring_fields(ring: Seq<u32>) -> Seq<Seq<u8>> {
    Seq::new(ring.len(), |j: int| decimal(ring[j] as nat))
}

/// The line of a ring is made of digits and spaces, and ends with a digit
/// where the ring is not empty.
proof fn lemma_ring_tail_bytes(ring: Seq<u32>)
    ensures
        forall|i: int|
            0 <= i < ring_tail(ring).len() ==> is_digit(#[trigger] ring_tail(ring)[i])
                || ring_tail(ring)[i] == SPACE,
        ring.len() > 0 ==> ring_tail(ring).len() > 0 && is_digit(ring_tail(ring).last()),
    decreases ring.len(),
{
    if ring.len() > 0 {
        lemma_ring_tail_bytes(ring.drop_last());
        lemma_decimal(ring.last() as nat);
        let front = ring_tail(ring.drop_last());
        let d = decimal(ring.last() as nat);
        let t = ring_tail(ring);
        assert(t =~= front + seq![SPACE] + d);
        assert forall|i: int| 0 <= i < t.len() implies is_digit(#[trigger] t[i]) || t[i] == SPACE by {
            if i < front.len() {
                assert(t[i] == front[i]);
            } else if i == front.len() {
            } else {
                assert(t[i] == d[i - front.len() - 1]);
            }
        }
        assert(t.last() == d.last());
    }
}

/// The fields of the line of a ring are the digits of the key image and
/// those of each public key.
proof fn lemma_ring_record_fields(ki: nat, ring: Seq<u32>)
    ensures
        fields(ring_record(ki, ring)) == seq![decimal(ki)] + ring_fields(ring),
    decreases ring.len(),
{
    lemma_decimal(ki);
    if ring.len() == 0 {
        assert(ring_record(ki, ring) =~= decimal(ki));
        assert(is_plain(decimal(ki), SPACE));
        lemma_split_plain(decimal(ki), SPACE);
        assert(seq![decimal(ki)] + ring_fields(ring) =~= seq![decimal(ki)]);
    } else {
        let front = ring.drop_last();
        let d = decimal(ring.last() as nat);
        lemma_ring_record_fields(ki, front);
        lemma_decimal(ring.last() as nat);
        assert(ring_record(ki, ring) =~= ring_record(ki, front) + seq![SPACE] + d);
        lemma_split_concat(ring_record(ki, front), d, SPACE);
        assert(is_plain(d, SPACE));
        lemma_split_plain(d, SPACE);
        assert(seq![decimal(ki)] + ring_fields(front) + seq![d] =~= seq![decimal(ki)] + ring_fields(
            ring,
        ));
    }
}

/// The line of a ring is a ring record that holds the ring.
proof fn lemma_ring_record(ki: nat, ring: Seq<u32>, num_pks: nat)
    requires
        forall|j: int| 0 <= j < ring.len() ==> (#[trigger] ring[j]) < num_pks,
    ensures
        is_ring_record(ring_record(ki, ring), ki, num_pks),
        ring_of(ring_record(ki, ring)) == ring,
        is_plain(ring_record(ki, ring), NEWLINE),
        trim(ring_record(ki, ring)) == ring_record(ki, ring),
        ring_record(ki, ring).len() > 0,
{
    let r = ring_record(ki, ring);
    let f = fields(r);
    lemma_ring_record_fields(ki, ring);
    lemma_decimal(ki);
    assert(f[0] == decimal(ki));
    assert forall|j: int| 1 <= j < f.len() implies is_number(#[trigger] f[j], u32::MAX as nat)
        && decimal_value(f[j]) < num_pks by {
        assert(f[j] == ring_fields(ring)[j - 1]);
        lemma_decimal(ring[j - 1] as nat);
    }
    assert(ring_of(r) =~= ring) by {
        assert forall|j: int| 0 <= j < ring.len() implies ring_of(r)[j] == ring[j] by {
            assert(f[j + 1] == ring_fields(ring)[j]);
            lemma_decimal(ring[j] as nat);
        }
    }
    lemma_ring_tail_bytes(ring);
    let d = decimal(ki);
    let t = ring_tail(ring);
    assert forall|i: int| 0 <= i < r.len() implies #[trigger] r[i] != NEWLINE by {
        if i < d.len() {
            assert(r[i] == d[i]);
        } else {
            assert(r[i] == t[i - d.len()]);
        }
    }
    assert(r.first() == d.first());
    if ring.len() > 0 {
        assert(r.last() == t.last());
    } else {
        assert(r =~= d);
    }
    lemma_trim_numeral_ends(r);
}

/// The header of a ring file, without its line feed.
pub open spec fn header_record(num_kis: nat, num_pks: nat) -> Seq<u8> {
    decimal(num_kis) + seq![SPACE] + decimal(num_pks)
}

/// The header line is a header that holds the two numbers.
proof fn lemma_header_record(num_kis: nat, num_pks: nat)
    requires
        num_kis <= u32::MAX,
        num_pks <= usize::MAX,
    ensures
        is_header(header_record(num_kis, num_pks)),
        header_kis(header_record(num_kis, num_pks)) == num_kis,
        header_pks(header_record(num_kis, num_pks)) == num_pks,
        is_plain(header_record(num_kis, num_pks), NEWLINE),
        trim(header_record(num_kis, num_pks)) == header_record(num_kis, num_pks),
        header_record(num_kis, num_pks).len() > 0,
{
    let a = decimal(num_kis);
    let b = decimal(num_pks);
    let h = header_record(num_kis, num_pks);
    lemma_decimal(num_kis);
    lemma_decimal(num_pks);
    lemma_split_concat(a, b, SPACE);
    assert(is_plain(a, SPACE));
    assert(is_plain(b, SPACE));
    lemma_split_plain(a, SPACE);
    lemma_split_plain(b, SPACE);
    assert(fields(h) =~= seq![a, b]);
    assert forall|i: int| 0 <= i < h.len() implies #[trigger] h[i] != NEWLINE by {
        if i < a.len() {
            assert(h[i] == a[i]);
        } else if i > a.len() {
            assert(h[i] == b[i - a.len() - 1]);
        }
    }
    assert(h.first() == a.first());
    assert(h.last() == b.last());
    lemma_trim_numeral_ends(h);
}

/// The lines of the rings, without their line feeds.
pub open spec fn ring_records(rings: Seq<Seq<u32>>) -> Seq<Seq<u8>> {
    Seq::new(rings.len(), |i: int| ring_record(i as nat, rings[i]))
}

/// The lines of the rings are their records, each followed by a line feed.
proof fn lemma_ring_lines_joined(rings: Seq<Seq<u32>>)
    ensures
        ring_lines(rings) == joined(ring_records(rings)),
    decreases rings.len(),
{
    if rings.len() == 0 {
        assert(ring_records(rings) =~= Seq::<Seq<u8>>::empty());
    } else {
        let front = rings.drop_last();
        lemma_ring_lines_joined(front);
        let last = ring_record((rings.len() - 1) as nat, rings.last());
        lemma_joined_push(ring_records(front), last);
        assert(ring_records(rings) =~= ring_records(front).push(last));
        assert(ring_line((rings.len() - 1) as nat, rings.last()) =~= last + seq![NEWLINE]);
        assert(ring_lines(front) + (last + seq![NEWLINE]) =~= joined(ring_records(front)) + last
            + seq![NEWLINE]);
    }
}

/// Lines that end with something are all kept.
proof fn lemma_full_tail(ls: Seq<Seq<u8>>)
    requires
        ls.len() == 0 || ls.last().len() > 0,
    ensures
        drop_empty_tail(ls) == ls,
{
}

/// The records of the text of a ring file are its header and the records
/// of its rings.
proof fn lemma_records_of_ring_file(rings: Seq<Seq<u32>>, num_pks: nat)
    requires
        rings.len() <= u32::MAX,
        num_pks <= usize::MAX,
        forall|ki: int, j: int|
            0 <= ki < rings.len() && 0 <= j < rings[ki].len() ==> (#[trigger] rings[ki][j])
                < num_pks,
    ensures
        records(ring_file(rings, num_pks)) == seq![header_record(rings.len(), num_pks)]
            + ring_records(rings),
{
    let h = header_record(rings.len(), num_pks);
    let body = ring_records(rings);
    let all = seq![h] + body;
    lemma_header_record(rings.len(), num_pks);
    lemma_ring_lines_joined(rings);
    assert forall|i: int| 0 <= i < all.len() implies is_plain(#[trigger] all[i], NEWLINE) && trim(
        all[i],
    ) == all[i] && all[i].len() > 0 by {
        if i > 0 {
            assert(all[i] == ring_record((i - 1) as nat, rings[i - 1]));
            lemma_ring_record((i - 1) as nat, rings[i - 1], num_pks);
        }
    }
    assert(joined(all) =~= h + seq![NEWLINE] + joined(body)) by {
        assert(all.first() == h);
        assert(all.drop_first() =~= body);
    }
    assert(ring_file(rings, num_pks) =~= joined(all));
    lemma_lines_of_joined(all);
    assert(trimmed(all) =~= all);
    lemma_full_tail(all);
}

/// Reading back what was written: the text of the ring file of the rings
/// is a ring text, and holds the rings and the number of public keys that
/// it was written from.
pub proof fn lemma_ring_file_round_trip(rings: Seq<Seq<u32>>, num_pks: nat)
    requires
        rings.len() <= u32::MAX,
        num_pks <= usize::MAX,
        forall|ki: int, j: int|
            0 <= ki < rings.len() && 0 <= j < rings[ki].len() ==> (#[trigger] rings[ki][j])
                < num_pks,
    ensures
        is_ring_text(ring_file(rings, num_pks)),
        rings_of_text(ring_file(rings, num_pks)) == rings,
        pks_of_text(ring_file(rings, num_pks)) == num_pks,
{
    let text = ring_file(rings, num_pks);
    let h = header_record(rings.len(), num_pks);
    let body = ring_records(rings);
    let r = records(text);
    lemma_records_of_ring_file(rings, num_pks);
    lemma_header_record(rings.len(), num_pks);
    assert(r[0] == h);
    assert forall|i: int| 0 <= i < r.len() - 1 implies is_ring_record(
        #[trigger] r[i + 1],
        i as nat,
        header_pks(r[0]),
    ) && ring_of(r[i + 1]) == rings[i] by {
        assert(r[i + 1] == body[i]);
        lemma_ring_record(i as nat, rings[i], num_pks);
    }
    assert(rings_of_text(text) =~= rings);
}

/// Writing what was read: a text that is the ring file of some rings is
/// the ring file of the rings and the number of public keys that it holds.
pub proof fn lemma_written_text_is_kept(text: Seq<u8>, rings: Seq<Seq<u32>>, num_pks: nat)
    requires
        rings.len() <= u32::MAX,
        num_pks <= usize::MAX,
        forall|ki: int, j: int|
            0 <= ki < rings.len() && 0 <= j < rings[ki].len() ==> (#[trigger] rings[ki][j])
                < num_pks,
        text == ring_file(rings, num_pks),
    ensures
        is_ring_text(text),
        ring_file(rings_of_text(text), pks_of_text(text)) == text,
{
    lemma_ring_file_round_trip(rings, num_pks);
}

/// Reading back the rings of sets: the text that holds rings as sets, the
/// members of each in ascending order, is a ring text, and the members of
/// each ring it holds are those of the set.
pub proof fn lemma_ring_set_file_round_trip(text: Seq<u8>, rings: Seq<Set<u32>>, num_pks: nat)
    requires
        rings.len() <= u32::MAX,
        num_pks <= usize::MAX,
        forall|ki: int, pk: u32|
            0 <= ki < rings.len() && #[trigger] rings[ki].contains(pk) ==> pk < num_pks,
        is_ring_set_file(text, rings, num_pks),
    ensures
        is_ring_text(text),
        pks_of_text(text) == num_pks,
        rings_of_text(text).len() == rings.len(),
        forall|ki: int|
            0 <= ki < rings.len() ==> (#[trigger] rings_of_text(text)[ki]).to_set() == rings[ki],
{
    let lists = choose|lists: Seq<Seq<u32>>|
        #![auto]
        are_ascending_members(lists, rings) && text == ring_file(lists, num_pks);
    assert forall|ki: int, j: int| 0 <= ki < lists.len() && 0 <= j < lists[ki].len() implies (
    #[trigger] lists[ki][j]) < num_pks by {
        assert(lists[ki].to_set() == rings[ki]);
        assert(lists[ki].contains(lists[ki][j]));
        assert(rings[ki].contains(lists[ki][j]));
    }
    lemma_ring_file_round_trip(lists, num_pks);
}

} // verus!

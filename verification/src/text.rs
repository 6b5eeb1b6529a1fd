//! The text of the files: lines, fields and decimal numbers, as bytes.

use vstd::prelude::*;

verus! {

/// The byte that ends a line.
pub const NEWLINE: u8 = 10;

/// The byte that separates the fields of a line.
pub const SPACE: u8 = 32;

/// A decimal digit.
pub open spec fn is_digit(b: u8) -> bool {
    48 <= b <= 57
}

/// White space: a space, or one of tab, line feed, vertical tab, form feed
/// and carriage return.
pub open spec fn is_blank(b: u8) -> bool {
    b == 32 || 9 <= b <= 13
}

/// The byte sequences held by a vector of byte vectors.
pub open spec fn byte_lists(v: Seq<Vec<u8>>) -> Seq<Seq<u8>> {
    Seq::new(v.len(), |i: int| v[i]@)
}

/// The pieces of `s` between the separators, from the piece that starts at
/// `start` and has been read up to `pos`.
pub open spec fn pieces(s: Seq<u8>, sep: u8, start: int, pos: int) -> Seq<Seq<u8>>
    decreases s.len() - pos,
{
    if pos >= s.len() {
        seq![s.subrange(start, s.len() as int)]
    } else if s[pos] == sep {
        seq![s.subrange(start, pos)] + pieces(s, sep, pos + 1, pos + 1)
    } else {
        pieces(s, sep, start, pos + 1)
    }
}

/// The pieces of `s` between the separators.  There is one piece more than
/// there are separators; a piece may be empty.
pub open spec fn split(s: Seq<u8>, sep: u8) -> Seq<Seq<u8>> {
    pieces(s, sep, 0, 0)
}

/// The lines of a text: its pieces between line feeds, without the empty
/// piece after a last line feed.
pub open spec fn lines(s: Seq<u8>) -> Seq<Seq<u8>> {
    let p = split(s, NEWLINE);
    if p.last().len() == 0 {
        p.drop_last()
    } else {
        p
    }
}

/// The first position at or after `pos` that holds no white space.
pub open spec fn skip_blank(s: Seq<u8>, pos: int) -> int
    decreases s.len() - pos,
{
    if 0 <= pos < s.len() && is_blank(s[pos]) {
        skip_blank(s, pos + 1)
    } else {
        pos
    }
}

/// The end of what is left of `s[lo .. end]` without the white space at its
/// end.
pub open spec fn back_blank(s: Seq<u8>, lo: int, end: int) -> int
    decreases end,
{
    if 0 <= lo < end <= s.len() && is_blank(s[end - 1]) {
        back_blank(s, lo, end - 1)
    } else {
        end
    }
}

/// `s` without the white space at its two ends.
pub open spec fn trim(s: Seq<u8>) -> Seq<u8> {
    let a = skip_blank(s, 0);
    s.subrange(a, back_blank(s, a, s.len() as int))
}

/// The number that a sequence of digits writes.
pub open spec fn decimal_value(s: Seq<u8>) -> nat
    decreases s.len(),
{
    if s.len() == 0 {
        0
    } else {
        decimal_value(s.drop_last()) * 10 + (s.last() - 48) as nat
    }
}

/// `s` writes a number: it is made of digits, at least one.
pub open spec fn is_numeral(s: Seq<u8>) -> bool {
    s.len() > 0 && forall|i: int| 0 <= i < s.len() ==> is_digit(#[trigger] s[i])
}

/// `s` writes a number that is at most `max`.
pub open spec fn is_number(s: Seq<u8>, max: nat) -> bool {
    is_numeral(s) && decimal_value(s) <= max
}

/// The digits that write `n`, without leading zeros.
pub open spec fn decimal(n: nat) -> Seq<u8>
    decreases n,
{
    if n < 10 {
        seq![(48 + n) as u8]
    } else {
        decimal(n / 10).push((48 + n % 10) as u8)
    }
}

/// More digits never write less.
pub proof fn lemma_value_grows(s: Seq<u8>, k: int)
    requires
        0 <= k <= s.len(),
        forall|i: int| 0 <= i < s.len() ==> is_digit(#[trigger] s[i]),
    ensures
        decimal_value(s.take(k)) <= decimal_value(s),
    decreases s.len() - k,
{
    if k < s.len() {
        lemma_value_grows(s, k + 1);
        assert(s.take(k + 1).drop_last() == s.take(k));
        assert(s.take(k + 1).last() == s[k]);
    } else {
        assert(s.take(k) == s);
    }
}

/// The pieces of `s` between the separators.
pub fn split_bytes(s: &[u8], sep: u8) -> (parts: Vec<Vec<u8>>)
    ensures
        byte_lists(parts@) == split(s@, sep),
{
    let mut parts: Vec<Vec<u8>> = Vec::new();
    let mut piece: Vec<u8> = Vec::new();
    let mut pos: usize = 0;
    let ghost mut start: int = 0;
    proof {
        assert(byte_lists(parts@) =~= Seq::<Seq<u8>>::empty());
        assert(piece@ =~= s@.subrange(0, 0));
    }
    while pos < s.len()
        invariant
            0 <= start <= pos <= s.len(),
            piece@ == s@.subrange(start, pos as int),
            byte_lists(parts@) + pieces(s@, sep, start, pos as int) == split(s@, sep),
        decreases s.len() - pos,
    {
        let b = s[pos];
        if b == sep {
            let ghost before = byte_lists(parts@);
            parts.push(piece);
            piece = Vec::new();
            proof {
                assert(byte_lists(parts@) =~= before.push(s@.subrange(start, pos as int)));
                assert(before.push(s@.subrange(start, pos as int)) + pieces(
                    s@,
                    sep,
                    pos + 1,
                    pos + 1,
                ) =~= before + (seq![s@.subrange(start, pos as int)] + pieces(
                    s@,
                    sep,
                    pos + 1,
                    pos + 1,
                )));
                start = pos + 1;
                assert(piece@ =~= s@.subrange(start, pos + 1));
            }
        } else {
            piece.push(b);
            proof {
                assert(piece@ =~= s@.subrange(start, pos + 1));
            }
        }
        pos += 1;
    }
    let ghost before = byte_lists(parts@);
    parts.push(piece);
    proof {
        assert(byte_lists(parts@) =~= before.push(s@.subrange(start, s@.len() as int)));
        assert(before.push(s@.subrange(start, s@.len() as int)) =~= before + seq![
            s@.subrange(start, s@.len() as int),
        ]);
    }
    parts
}

/// The lines of a text.
pub fn lines_of(s: &[u8]) -> (found: Vec<Vec<u8>>)
    ensures
        byte_lists(found@) == lines(s@),
{
    let mut parts = split_bytes(s, NEWLINE);
    proof {
        lemma_pieces_nonempty(s@, NEWLINE, 0, 0);
    }
    let last = parts.len() - 1;
    if parts[last].len() == 0 {
        let ghost before = byte_lists(parts@);
        parts.pop();
        proof {
            assert(byte_lists(parts@) =~= before.drop_last());
        }
    }
    parts
}

/// Splitting gives at least one piece.
pub proof fn lemma_pieces_nonempty(s: Seq<u8>, sep: u8, start: int, pos: int)
    ensures
        pieces(s, sep, start, pos).len() >= 1,
    decreases s.len() - pos,
{
    if pos >= s.len() {
    } else if s[pos] == sep {
        lemma_pieces_nonempty(s, sep, pos + 1, pos + 1);
    } else {
        lemma_pieces_nonempty(s, sep, start, pos + 1);
    }
}

/// Whether a byte is white space.
pub fn blank(b: u8) -> (r: bool)
    ensures
        r == is_blank(b),
{
    b == 32 || (9 <= b && b <= 13)
}

/// The bytes of `s` without the white space at its two ends.
pub fn trim_bytes(s: &Vec<u8>) -> (t: Vec<u8>)
    ensures
        t@ == trim(s@),
{
    let mut a: usize = 0;
    while a < s.len() && blank(s[a])
        invariant
            a <= s.len(),
            skip_blank(s@, 0) == skip_blank(s@, a as int),
        decreases s.len() - a,
    {
        a += 1;
    }
    let mut b: usize = s.len();
    while a < b && blank(s[b - 1])
        invariant
            a <= b <= s.len(),
            back_blank(s@, a as int, s@.len() as int) == back_blank(s@, a as int, b as int),
        decreases b,
    {
        b -= 1;
    }
    let mut t: Vec<u8> = Vec::new();
    let mut i: usize = a;
    while i < b
        invariant
            a <= i <= b <= s.len(),
            t@ == s@.subrange(a as int, i as int),
        decreases b - i,
    {
        t.push(s[i]);
        proof {
            assert(s@.subrange(a as int, i + 1) =~= s@.subrange(a as int, i as int).push(s@[i as int]));
        }
        i += 1;
    }
    t
}

/// The number that `s` writes, if it writes one that is at most `max`.
pub fn parse_number(s: &Vec<u8>, max: u64) -> (n: Option<u64>)
    ensures
        n is Some <==> is_number(s@, max as nat),
        n matches Some(v) ==> v == decimal_value(s@),
{
    if s.len() == 0 {
        return None;
    }
    let mut value: u64 = 0;
    let mut i: usize = 0;
    proof {
        assert(s@.take(0) =~= Seq::<u8>::empty());
    }
    while i < s.len()
        invariant
            i <= s.len(),
            forall|k: int| 0 <= k < i ==> is_digit(#[trigger] s@[k]),
            value == decimal_value(s@.take(i as int)),
            value <= max,
        decreases s.len() - i,
    {
        let b = s[i];
        if b < 48 || b > 57 {
            return None;
        }
        let digit = (b - 48) as u64;
        proof {
            assert(s@.take(i + 1).drop_last() == s@.take(i as int));
            assert(s@.take(i + 1).last() == b);
        }
        if digit > max || value > (max - digit) / 10 {
            proof {
                assert(decimal_value(s@.take(i + 1)) > max) by {
                    assert(value * 10 + digit > max) by (nonlinear_arith)
                        requires
                            digit > max || value > (max - digit) / 10,
                            digit <= 9,
                    ;
                }
                if is_number(s@, max as nat) {
                    lemma_value_grows(s@, i + 1);
                }
            }
            return None;
        }
        proof {
            assert(value * 10 + digit <= max) by (nonlinear_arith)
                requires
                    digit <= max,
                    value <= (max - digit) / 10,
            ;
        }
        value = value * 10 + digit;
        i += 1;
    }
    proof {
        assert(s@.take(s.len() as int) == s@);
    }
    Some(value)
}

/// Appends the digits of `n` to `out`.
pub fn push_decimal(out: &mut Vec<u8>, n: u64)
    ensures
        final(out)@ == old(out)@ + decimal(n as nat),
{
    let mut digits: Vec<u8> = Vec::new();
    let mut rest = n;
    proof {
        assert(decimal(rest as nat) + digits@.reverse() =~= decimal(n as nat));
    }
    while rest >= 10
        invariant
            decimal(n as nat) == decimal(rest as nat) + digits@.reverse(),
        decreases rest,
    {
        let ghost before = digits@;
        let ghost was = rest;
        digits.push((48 + rest % 10) as u8);
        rest = rest / 10;
        proof {
            assert(decimal(was as nat) == decimal(rest as nat).push((48 + was % 10) as u8));
            assert(digits@.reverse() =~= seq![(48 + was % 10) as u8] + before.reverse());
            assert(decimal(rest as nat) + digits@.reverse() =~= decimal(was as nat)
                + before.reverse());
        }
    }
    out.push((48 + rest) as u8);
    let ghost start = out@;
    let mut k: usize = digits.len();
    proof {
        assert(decimal(rest as nat) =~= seq![(48 + rest) as u8]);
        assert(start + digits@.reverse().take(0) =~= start);
    }
    while k > 0
        invariant
            k <= digits.len(),
            out@ == start + digits@.reverse().take(digits.len() - k),
        decreases k,
    {
        k -= 1;
        out.push(digits[k]);
        proof {
            let r = digits@.reverse();
            let done = digits.len() - k - 1;
            assert(r[done] == digits@[k as int]);
            assert(r.take(done + 1) =~= r.take(done).push(r[done]));
            assert(start + r.take(done + 1) =~= (start + r.take(done)).push(r[done]));
        }
    }
    proof {
        let r = digits@.reverse();
        assert(r.take(digits.len() as int) == r);
        assert(start =~= old(out)@ + decimal(rest as nat));
        assert(out@ =~= old(out)@ + decimal(n as nat));
    }
}

} // verus!

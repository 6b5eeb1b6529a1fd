//! The text of the two files that list the closed sets of a decomposition:
//! their sizes, and their members.

use vstd::prelude::*;
use crate::text::{decimal, push_decimal, NEWLINE, SPACE};

verus! {

/// The numbers, written one after the other with a space between each two.
pub open spec fn spaced(numbers: Seq<nat>) -> Seq<u8>
    decreases numbers.len(),
{
    if numbers.len() == 0 {
        Seq::empty()
    } else if numbers.len() == 1 {
        decimal(numbers[0])
    } else {
        spaced(numbers.drop_last()) + seq![SPACE] + decimal(numbers.last())
    }
}

/// A line of numbers.
pub open spec fn number_line(numbers: Seq<nat>) -> Seq<u8> {
    spaced(numbers) + seq![NEWLINE]
}

/// The numbers of a list.
pub open spec fn naturals(list: Seq<u32>) -> Seq<nat> {
    Seq::new(list.len(), |i: int| list[i] as nat)
}

/// The size of each closed set: the number of its public keys.
pub open spec fn set_sizes(sets: Seq<(Vec<u32>, Vec<u32>)>) -> Seq<nat> {
    Seq::new(sets.len(), |i: int| sets[i].1@.len())
}

/// The text of the sizes file: one line with the size of each closed set.
pub open spec fn sizes_file(sets: Seq<(Vec<u32>, Vec<u32>)>) -> Seq<u8> {
    number_line(set_sizes(sets))
}

/// The lines of the closed sets: for each its size, its public keys and its
/// key images.
pub open spec fn block_lines(sets: Seq<(Vec<u32>, Vec<u32>)>) -> Seq<u8>
    decreases sets.len(),
{
    if sets.len() == 0 {
        Seq::empty()
    } else {
        block_lines(sets.drop_last()) + decimal(sets.last().1@.len()) + seq![NEWLINE] + number_line(
            naturals(sets.last().1@),
        ) + number_line(naturals(sets.last().0@))
    }
}

/// The text of the fine decomposition file: the number of closed sets, then
/// the lines of each.
pub open spec fn fine_file(sets: Seq<(Vec<u32>, Vec<u32>)>) -> Seq<u8> {
    decimal(sets.len()) + seq![NEWLINE] + block_lines(sets)
}

/// Appends a line of the numbers of a list.
fn push_number_line(out: &mut Vec<u8>, list: &Vec<u32>)
    ensures
        final(out)@ == old(out)@ + number_line(naturals(list@)),
{
    let ghost start = out@;
    let ghost numbers = naturals(list@);
    let mut j: usize = 0;
    proof {
        assert(numbers.take(0) =~= Seq::<nat>::empty());
        assert(start + spaced(numbers.take(0)) =~= start);
    }
    while j < list.len()
        invariant
            j <= list.len(),
            numbers == naturals(list@),
            out@ == start + spaced(numbers.take(j as int)),
        decreases list.len() - j,
    {
        if j > 0 {
            out.push(SPACE);
        }
        push_decimal(out, list[j] as u64);
        proof {
            assert(numbers.take(j + 1).drop_last() == numbers.take(j as int));
            assert(numbers.take(j + 1).last() == list@[j as int] as nat);
            if j == 0 {
                assert(numbers.take(1)[0] == list@[0] as nat);
                assert(out@ =~= start + spaced(numbers.take(1)));
            } else {
                assert(out@ =~= start + spaced(numbers.take(j + 1)));
            }
        }
        j += 1;
    }
    out.push(NEWLINE);
    proof {
        assert(numbers.take(list.len() as int) == numbers);
        assert(out@ =~= old(out)@ + number_line(numbers));
    }
}

/// Writes the text of the sizes file of the closed sets.
pub fn write_closed_set_sizes(closed_sets: &Vec<(Vec<u32>, Vec<u32>)>) -> (out: Vec<u8>)
    ensures
        out@ == sizes_file(closed_sets@),
{
    let ghost sizes = set_sizes(closed_sets@);
    let mut out: Vec<u8> = Vec::new();
    let mut i: usize = 0;
    proof {
        assert(sizes.take(0) =~= Seq::<nat>::empty());
        assert(out@ =~= spaced(sizes.take(0)));
    }
    while i < closed_sets.len()
        invariant
            i <= closed_sets.len(),
            sizes == set_sizes(closed_sets@),
            out@ == spaced(sizes.take(i as int)),
        decreases closed_sets.len() - i,
    {
        if i > 0 {
            out.push(SPACE);
        }
        push_decimal(&mut out, closed_sets[i].1.len() as u64);
        proof {
            assert(sizes.take(i + 1).drop_last() == sizes.take(i as int));
            assert(sizes.take(i + 1).last() == closed_sets@[i as int].1@.len());
            if i == 0 {
                assert(sizes.take(1)[0] == closed_sets@[0].1@.len());
                assert(out@ =~= spaced(sizes.take(1)));
            } else {
                assert(out@ =~= spaced(sizes.take(i + 1)));
            }
        }
        i += 1;
    }
    out.push(NEWLINE);
    proof {
        assert(sizes.take(closed_sets.len() as int) == sizes);
    }
    out
}

/// Writes the text of the fine decomposition file of the closed sets.
pub fn write_fine_decomposition(closed_sets: &Vec<(Vec<u32>, Vec<u32>)>) -> (out: Vec<u8>)
    ensures
        out@ == fine_file(closed_sets@),
{
    let mut out: Vec<u8> = Vec::new();
    push_decimal(&mut out, closed_sets.len() as u64);
    out.push(NEWLINE);
    let ghost head = out@;
    let mut i: usize = 0;
    proof {
        assert(head =~= decimal(closed_sets@.len()) + seq![NEWLINE]);
        assert(closed_sets@.take(0) =~= Seq::<(Vec<u32>, Vec<u32>)>::empty());
        assert(head + block_lines(closed_sets@.take(0)) =~= head);
    }
    while i < closed_sets.len()
        invariant
            i <= closed_sets.len(),
            out@ == head + block_lines(closed_sets@.take(i as int)),
        decreases closed_sets.len() - i,
    {
        push_decimal(&mut out, closed_sets[i].1.len() as u64);
        out.push(NEWLINE);
        push_number_line(&mut out, &closed_sets[i].1);
        push_number_line(&mut out, &closed_sets[i].0);
        proof {
            let sets = closed_sets@;
            assert(sets.take(i + 1).drop_last() == sets.take(i as int));
            assert(sets.take(i + 1).last() == sets[i as int]);
            assert(out@ =~= head + block_lines(sets.take(i + 1)));
        }
        i += 1;
    }
    proof {
        assert(closed_sets@.take(closed_sets.len() as int) == closed_sets@);
    }
    out
}

} // verus!

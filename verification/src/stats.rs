//! Histograms of ring sizes.
//!
//! A histogram for the greatest size `max` has `max + 1` places: place
//! `size - 1` counts the rings of that size, for the sizes from 1 to `max`,
//! and the last place counts the larger rings.  Empty rings are not counted.

use vstd::prelude::*;

verus! {

/// The ring size falls into place `place` of a histogram for the greatest
/// size `max`.
pub open spec fn falls_into(size: usize, max: usize, place: int) -> bool {
    if size > max {
        place == max
    } else {
        size >= 1 && place == size - 1
    }
}

/// The number of the sizes of `counted` that fall into `place`, where
/// `counted[i]` says whether the size at `i` is counted at all.
pub open spec fn count_in_place(sizes: Seq<usize>, counted: Seq<bool>, max: usize, place: int) -> nat
    decreases sizes.len(),
{
    if sizes.len() == 0 || counted.len() == 0 {
        0
    } else {
        count_in_place(sizes.drop_last(), counted.drop_last(), max, place) + if counted.last()
            && falls_into(sizes.last(), max, place) {
            1nat
        } else {
            0nat
        }
    }
}

/// No place counts more than there are sizes.
proof fn lemma_count_bound(sizes: Seq<usize>, counted: Seq<bool>, max: usize, place: int)
    requires
        sizes.len() == counted.len(),
    ensures
        count_in_place(sizes, counted, max, place) <= sizes.len(),
    decreases sizes.len(),
{
    if sizes.len() > 0 {
        lemma_count_bound(sizes.drop_last(), counted.drop_last(), max, place);
    }
}

/// The histogram of those of the sizes that are counted.
fn histogram_of(sizes: &Vec<usize>, counted: &Vec<bool>, max_ring_size: usize) -> (histogram: Vec<
    usize,
>)
    requires
        sizes.len() == counted.len(),
        max_ring_size < usize::MAX,
    ensures
        histogram.len() == max_ring_size + 1,
        forall|place: int|
            0 <= place <= max_ring_size ==> #[trigger] histogram@[place] == count_in_place(
                sizes@,
                counted@,
                max_ring_size,
                place,
            ),
{
    let mut histogram: Vec<usize> = vec![0usize; max_ring_size + 1];
    let mut i: usize = 0;
    proof {
        assert(sizes@.take(0) =~= Seq::<usize>::empty());
    }
    while i < sizes.len()
        invariant
            i <= sizes.len(),
            sizes.len() == counted.len(),
            max_ring_size < usize::MAX,
            histogram.len() == max_ring_size + 1,
            forall|place: int|
                0 <= place <= max_ring_size ==> #[trigger] histogram@[place] == count_in_place(
                    sizes@.take(i as int),
                    counted@.take(i as int),
                    max_ring_size,
                    place,
                ),
        decreases sizes.len() - i,
    {
        let size = sizes[i];
        let ghost before = histogram@;
        proof {
            assert(sizes@.take(i + 1).drop_last() == sizes@.take(i as int));
            assert(counted@.take(i + 1).drop_last() == counted@.take(i as int));
            assert(sizes@.take(i + 1).last() == size);
            assert(counted@.take(i + 1).last() == counted@[i as int]);
        }
        if counted[i] && size >= 1 {
            let place = if size > max_ring_size {
                max_ring_size
            } else {
                size - 1
            };
            proof {
                lemma_count_bound(
                    sizes@.take(i as int),
                    counted@.take(i as int),
                    max_ring_size,
                    place as int,
                );
            }
            let count = histogram[place];
            histogram.set(place, count + 1);
        }
        i += 1;
    }
    proof {
        assert(sizes@.take(sizes.len() as int) == sizes@);
        assert(counted@.take(sizes.len() as int) == counted@);
    }
    histogram
}

/// Every size is counted.
pub open spec fn all_counted(n: nat) -> Seq<bool> {
    Seq::new(n, |i: int| true)
}

/// The sizes at the places where `after` is 1 are counted.
pub open spec fn traced_counted(after: Seq<usize>) -> Seq<bool> {
    Seq::new(after.len(), |i: int| after[i] == 1)
}

/// The histogram of the ring sizes.
pub fn ring_size_histogram(sizes: &Vec<usize>, max_ring_size: usize) -> (histogram: Vec<usize>)
    requires
        max_ring_size < usize::MAX,
    ensures
        histogram.len() == max_ring_size + 1,
        forall|place: int|
            0 <= place <= max_ring_size ==> #[trigger] histogram@[place] == count_in_place(
                sizes@,
                all_counted(sizes@.len()),
                max_ring_size,
                place,
            ),
{
    let counted: Vec<bool> = vec![true; sizes.len()];
    proof {
        assert(counted@ =~= all_counted(sizes@.len()));
    }
    histogram_of(sizes, &counted, max_ring_size)
}

/// The histogram, by their size before an attack, of the rings that the
/// attack left with a single member.
pub fn traced_ring_histogram(before: &Vec<usize>, after: &Vec<usize>, max_ring_size: usize) -> (histogram:
    Vec<usize>)
    requires
        before.len() == after.len(),
        max_ring_size < usize::MAX,
    ensures
        histogram.len() == max_ring_size + 1,
        forall|place: int|
            0 <= place <= max_ring_size ==> #[trigger] histogram@[place] == count_in_place(
                before@,
                traced_counted(after@),
                max_ring_size,
                place,
            ),
{
    let mut counted: Vec<bool> = Vec::new();
    let mut i: usize = 0;
    while i < after.len()
        invariant
            i <= after.len(),
            counted.len() == i,
            forall|k: int| 0 <= k < i ==> #[trigger] counted@[k] == (after@[k] == 1),
        decreases after.len() - i,
    {
        counted.push(after[i] == 1);
        i += 1;
    }
    proof {
        assert(counted@ =~= traced_counted(after@));
    }
    histogram_of(before, &counted, max_ring_size)
}

} // verus!

//! Byte-frequency histogram: counts occurrences of each byte value in a
//! buffer, accumulating into a 256-bin vector.

use vstd::prelude::*;

verus! {

/// The number of bins in a byte histogram: one per byte value.
pub const HISTOGRAM_BINS: usize = 256;

/// How many times byte `b` occurs in `s`.
pub open spec fn count_byte(s: Seq<u8>, b: u8) -> nat
    decreases s.len(),
{
    if s.len() == 0 {
        0
    } else {
        count_byte(s.drop_last(), b) + if s.last() == b {
            1nat
        } else {
            0nat
        }
    }
}

/// The sum of `count_byte(s, b)` over all byte values `b < b_hi`.
pub open spec fn sum_counts_below(s: Seq<u8>, b_hi: int) -> nat
    decreases b_hi,
{
    if b_hi <= 0 {
        0
    } else {
        sum_counts_below(s, b_hi - 1) + count_byte(s, (b_hi - 1) as u8)
    }
}

/// Appending one byte raises exactly one count by one.
proof fn lemma_count_byte_push(s: Seq<u8>, x: u8, b: u8)
    ensures
        count_byte(s.push(x), b) == count_byte(s, b) + if x == b {
            1nat
        } else {
            0nat
        },
{
    assert(s.push(x).drop_last() =~= s);
    assert(s.push(x).last() == x);
}

proof fn lemma_sum_counts_below_push(s: Seq<u8>, x: u8, b_hi: int)
    requires
        0 <= b_hi <= 256,
    ensures
        sum_counts_below(s.push(x), b_hi) == sum_counts_below(s, b_hi) + if (x as int) < b_hi {
            1nat
        } else {
            0nat
        },
    decreases b_hi,
{
    if b_hi > 0 {
        lemma_sum_counts_below_push(s, x, b_hi - 1);
        lemma_count_byte_push(s, x, (b_hi - 1) as u8);
    }
}

/// The histogram bins of a buffer sum to the buffer's length.
pub proof fn lemma_histogram_sum(s: Seq<u8>)
    ensures
        sum_counts_below(s, 256) == s.len(),
    decreases s.len(),
{
    if s.len() == 0 {
        assert forall|b_hi: int| 0 <= b_hi <= 256 implies sum_counts_below(s, b_hi) == 0 by {
            lemma_sum_counts_below_zero(s, b_hi);
        }
    } else {
        let prefix = s.drop_last();
        lemma_histogram_sum(prefix);
        lemma_sum_counts_below_push(prefix, s.last(), 256);
        assert(prefix.push(s.last()) =~= s);
    }
}

proof fn lemma_sum_counts_below_zero(s: Seq<u8>, b_hi: int)
    requires
        s.len() == 0,
    ensures
        sum_counts_below(s, b_hi) == 0,
    decreases b_hi,
{
    if b_hi > 0 {
        lemma_sum_counts_below_zero(s, b_hi - 1);
    }
}

/// Count the number of instances of each byte value within `data`, adding
/// the counts into `frequencies`, which must have one bin per byte value.
pub fn count_byte_frequencies(data: &[u8], frequencies: &mut Vec<usize>)
    requires
        old(frequencies)@.len() == HISTOGRAM_BINS,
        forall|b: u8|
            #[trigger] old(frequencies)@[b as int] + data@.len() <= usize::MAX,
    ensures
        final(frequencies)@.len() == HISTOGRAM_BINS,
        forall|b: u8|
            #[trigger] final(frequencies)@[b as int] == old(frequencies)@[b as int]
                + count_byte(data@, b),
{
    let ghost orig = frequencies@;
    let mut i: usize = 0;
    while i < data.len()
        invariant
            i <= data@.len(),
            frequencies@.len() == HISTOGRAM_BINS,
            orig.len() == HISTOGRAM_BINS,
            forall|b: u8| #[trigger] orig[b as int] + data@.len() <= usize::MAX,
            forall|b: u8|
                #[trigger] frequencies@[b as int] == orig[b as int]
                    + count_byte(data@.take(i as int), b),
        decreases data@.len() - i,
    {
        let b = data[i];
        proof {
            assert forall|c: u8| count_byte(data@.take(i as int), c) <= i by {
                lemma_count_byte_le_len(data@.take(i as int), c);
            }
            assert forall|c: u8|
                #[trigger] count_byte(data@.take(i + 1int), c) == count_byte(
                    data@.take(i as int),
                    c,
                ) + if b == c {
                    1nat
                } else {
                    0nat
                } by {
                lemma_count_byte_push(data@.take(i as int), b, c);
                assert(data@.take(i as int).push(b) =~= data@.take(i + 1int));
            }
        }
        let idx = b as usize;
        let cur = frequencies[idx];
        frequencies.set(idx, cur + 1);
        i += 1;
    }
    proof {
        assert(data@.take(data@.len() as int) =~= data@);
    }
}

/// A single byte's count never exceeds the buffer's length.
proof fn lemma_count_byte_le_len(s: Seq<u8>, b: u8)
    ensures
        count_byte(s, b) <= s.len(),
    decreases s.len(),
{
    if s.len() > 0 {
        lemma_count_byte_le_len(s.drop_last(), b);
    }
}

/// A fresh all-zero histogram.
pub fn new_histogram() -> (r: Vec<usize>)
    ensures
        r@.len() == HISTOGRAM_BINS,
        forall|i: int| 0 <= i < r@.len() ==> r@[i] == 0,
{
    let mut v: Vec<usize> = Vec::new();
    let mut i: usize = 0;
    while i < HISTOGRAM_BINS
        invariant
            i <= HISTOGRAM_BINS,
            v@.len() == i,
            forall|j: int| 0 <= j < i ==> v@[j] == 0,
        decreases HISTOGRAM_BINS - i,
    {
        v.push(0);
        i += 1;
    }
    v
}

} // verus!

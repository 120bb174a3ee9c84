//! Values that the render server exchanges with its clients and with the graphics card.
use vstd::prelude::*;

verus! {

/// The answer to a render request: the rendered pixels, the resolution they were rendered at
/// and the error that occurred, if any.
#[derive(Debug)]
pub struct PullReqeustSendPackage {
    pub title: String,
    pub description: String,
    pub resolution: (u16, u16),
    pub color_list: Vec<u8>,
    pub error: String,
}

/// The resolution a request is rendered at: each side rounded down to a multiple of 64, then
/// taken modulo 2^16.
pub fn fit_resolution(resolution: (u64, u64)) -> (fitted: (u16, u16))
    ensures
        fitted.0 == (resolution.0 - resolution.0 % 64) as u16,
        fitted.1 == (resolution.1 - resolution.1 % 64) as u16,
{
    ((resolution.0 - resolution.0 % 64) as u16, (resolution.1 - resolution.1 % 64) as u16)
}

/// The sum of the numbers.
pub open spec fn total(s: Seq<u32>) -> int
    decreases s.len(),
{
    if s.len() == 0 {
        0
    } else {
        total(s.drop_last()) + s.last()
    }
}

proof fn lemma_total_prefix(s: Seq<u32>, i: int)
    requires
        0 <= i <= s.len(),
    ensures
        0 <= total(s.take(i)) <= total(s),
    decreases s.len() - i,
{
    if i < s.len() {
        lemma_total_prefix(s, i + 1);
        assert(s.take(i + 1).drop_last() =~= s.take(i));
    } else {
        assert(s.take(i) =~= s);
    }
    lemma_total_nonneg(s.take(i));
}

proof fn lemma_total_nonneg(s: Seq<u32>)
    ensures
        total(s) >= 0,
    decreases s.len(),
{
    if s.len() > 0 {
        lemma_total_nonneg(s.drop_last());
    }
}

/// The bytes that the grouping stage of the graphics card produced: `row_lengths` holds how
/// many four-byte entries each row of the output has, and the output is their first
/// `4 * total(row_lengths)` bytes.
pub fn grouped_bytes(row_lengths: &Vec<u32>, output: &Vec<u8>) -> (grouped: Vec<u8>)
    requires
        4 * total(row_lengths@) <= u32::MAX,
        4 * total(row_lengths@) <= output.len(),
    ensures
        grouped@ == output@.take(4 * total(row_lengths@)),
{
    let mut abs_length: u32 = 0;
    let mut i: usize = 0;
    while i < row_lengths.len()
        invariant
            i <= row_lengths.len(),
            abs_length == total(row_lengths@.take(i as int)),
            4 * total(row_lengths@) <= u32::MAX,
        decreases row_lengths.len() - i,
    {
        proof {
            assert(row_lengths@.take(i as int + 1).drop_last() =~= row_lengths@.take(i as int));
            lemma_total_prefix(row_lengths@, i as int + 1);
        }
        abs_length = abs_length + row_lengths[i];
        i = i + 1;
    }
    assert(row_lengths@.take(row_lengths.len() as int) =~= row_lengths@);
    let end = (abs_length * 4) as usize;
    let mut grouped: Vec<u8> = Vec::new();
    let mut j: usize = 0;
    while j < end
        invariant
            j <= end,
            end == 4 * total(row_lengths@),
            end <= output.len(),
            grouped@ == output@.take(j as int),
        decreases end - j,
    {
        grouped.push(output[j]);
        j = j + 1;
        proof {
            assert(grouped@ =~= output@.take(j as int));
        }
    }
    grouped
}

} // verus!

//! Which FFT bins make up each spectrum band. The spectrum itself is floating
//! point and is computed outside; the bin bookkeeping is here.

use vstd::prelude::*;

verus! {

/// A band edge as a bin index, held to the usable bins `1..=nyq_bin`.
pub fn band_edge_bin(raw: usize, nyq_bin: usize) -> (bin: usize)
    requires
        1 <= nyq_bin,
    ensures
        bin == (if raw < 1 { 1 } else if raw > nyq_bin { nyq_bin } else { raw }),
        1 <= bin <= nyq_bin,
{
    if raw < 1 {
        1
    } else if raw > nyq_bin {
        nyq_bin
    } else {
        raw
    }
}

pub open spec fn band_range_spec(lo: usize, hi: usize) -> (usize, usize) {
    (lo, if hi > lo + 1 { hi } else { (lo + 1) as usize })
}

/// The half-open bin range of each band between consecutive edges. A band
/// whose edges coincide still takes the one bin at its lower edge.
pub fn band_bin_ranges(edges: &Vec<usize>) -> (ranges: Vec<(usize, usize)>)
    requires
        edges@.len() >= 1,
        forall|i: int| 0 <= i < edges@.len() ==> #[trigger] edges@[i] < usize::MAX,
    ensures
        ranges@.len() == edges@.len() - 1,
        forall|b: int| 0 <= b < ranges@.len() ==> #[trigger] ranges@[b] == band_range_spec(edges@[b], edges@[b + 1]),
{
    let mut ranges: Vec<(usize, usize)> = Vec::new();
    let n = edges.len() - 1;
    for b in 0..n
        invariant
            n == edges@.len() - 1,
            forall|i: int| 0 <= i < edges@.len() ==> #[trigger] edges@[i] < usize::MAX,
            ranges@.len() == b,
            forall|k: int| 0 <= k < b ==> #[trigger] ranges@[k] == band_range_spec(edges@[k], edges@[k + 1]),
    {
        let lo = edges[b];
        let hi = if edges[b + 1] > lo + 1 { edges[b + 1] } else { lo + 1 };
        ranges.push((lo, hi));
    }
    ranges
}

/// Law: every band averages at least one bin, and with the edges held to
/// `1..=nyq_bin` every bin read lies in `1..=nyq_bin`, inside a spectrum of
/// `2 * nyq_bin` bins.
pub proof fn law_bands_in_bounds(edges: Seq<usize>, nyq_bin: usize, b: int)
    requires
        1 <= nyq_bin < usize::MAX,
        forall|i: int| 0 <= i < edges.len() ==> 1 <= #[trigger] edges[i] <= nyq_bin,
        0 <= b < edges.len() - 1,
    ensures
        band_range_spec(edges[b], edges[b + 1]).0 < band_range_spec(edges[b], edges[b + 1]).1,
        1 <= band_range_spec(edges[b], edges[b + 1]).0,
        band_range_spec(edges[b], edges[b + 1]).1 <= nyq_bin + 1,
{
    assert(1 <= edges[b] <= nyq_bin);
    assert(1 <= edges[b + 1] <= nyq_bin);
}

} // verus!

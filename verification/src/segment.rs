//! Fixed-duration audio segmentation: partitions a sample index range into
//! consecutive, non-overlapping windows of `rate * duration` samples, the
//! final window truncated to the remaining sample count.
use vstd::prelude::*;

verus! {

/// Start of segment `i`.
pub open spec fn seg_start(step: int, i: int) -> int {
    i * step
}

/// End of segment `i`: one step further, clipped to the sample count.
pub open spec fn seg_end(n: int, step: int, i: int) -> int {
    if (i + 1) * step <= n {
        (i + 1) * step
    } else {
        n
    }
}

/// Segment `i` of a track of `n` samples is exactly `[i*step, min((i+1)*step, n))`,
/// and is non-empty.
pub open spec fn seg_ok(n: int, step: int, i: int, s: (usize, usize)) -> bool {
    &&& s.0 == seg_start(step, i)
    &&& s.1 == seg_end(n, step, i)
    &&& s.0 < s.1
}

/// Partitions `0..sample_count` into windows of
/// `sample_rate * segment_duration_secs` samples. Ensures exactly the shape
/// that fixed-duration segmentation promises: segment `i` covers
/// `[i*step, min((i+1)*step, n))`; the count is `ceil(n / step)`; the final
/// segment ends at `n`; segments are contiguous and non-overlapping.
pub fn segment_audio_counts(
    sample_count: usize,
    sample_rate: u32,
    segment_duration_secs: u32,
) -> (r: Vec<(usize, usize)>)
    requires
        sample_rate >= 1,
        segment_duration_secs >= 1,
        sample_rate as int * segment_duration_secs as int <= usize::MAX as int,
    ensures
        ({
            let n = sample_count as int;
            let step = sample_rate as int * segment_duration_secs as int;
            &&& forall|i: int| 0 <= i < r@.len() ==> seg_ok(n, step, i, #[trigger] r@[i])
            &&& n == 0 ==> r@.len() == 0
            &&& n > 0 ==> r@.len() == (n + step - 1) / step && r@.last().1 == n
            &&& forall|i: int| 0 <= i < r@.len() - 1 ==> (#[trigger] r@[i]).1 == r@[i + 1].0
        }),
{
    let ghost n = sample_count as int;
    proof {
        assert(sample_rate as int * segment_duration_secs as int >= 1) by (nonlinear_arith)
            requires
                sample_rate >= 1,
                segment_duration_secs >= 1,
        ;
    }
    let step: usize = (sample_rate as usize) * (segment_duration_secs as usize);
    let ghost stepg = step as int;
    let mut segs: Vec<(usize, usize)> = Vec::new();
    let mut start: usize = 0;
    while start < sample_count
        invariant
            stepg == step as int,
            stepg == sample_rate as int * segment_duration_secs as int,
            step >= 1,
            start <= sample_count,
            n == sample_count as int,
            segs@.len() == 0 ==> start == 0,
            segs@.len() > 0 ==> start == segs@.last().1,
            forall|i: int| 0 <= i < segs@.len() ==> seg_ok(n, stepg, i, #[trigger] segs@[i]),
        decreases sample_count - start,
    {
        proof {
            let len = segs@.len() as int;
            if len > 0 {
                // the loop is still running, so the last segment was not
                // clipped: its end is exactly len * step
                assert(seg_ok(n, stepg, len - 1, segs@[len - 1]));
                assert(start < n);
                assert(start as int == len * stepg);
            } else {
                assert(len * stepg == 0) by (nonlinear_arith)
                    requires
                        len == 0,
                ;
            }
        }
        let end = if sample_count - start <= step {
            sample_count
        } else {
            start + step
        };
        proof {
            let len = segs@.len() as int;
            assert((len + 1) * stepg == len * stepg + stepg) by (nonlinear_arith);
            assert(start as int == len * stepg);
            assert(end as int == seg_end(n, stepg, len));
        }
        segs.push((start, end));
        start = end;
    }
    proof {
        let len = segs@.len() as int;
        if n > 0 {
            assert(len > 0);
            assert(start as int == n);
            assert(seg_ok(n, stepg, len - 1, segs@[len - 1]));
            assert((len - 1) * stepg < n);
            assert(n <= len * stepg);
            assert(len == (n + stepg - 1) / stepg) by (nonlinear_arith)
                requires
                    stepg >= 1,
                    (len - 1) * stepg < n,
                    n <= len * stepg,
            ;
        }
        assert forall|i: int| 0 <= i < segs@.len() - 1 implies (#[trigger] segs@[i]).1 == segs@[i
            + 1].0 by {
            assert(seg_ok(n, stepg, i, segs@[i]));
            assert(seg_ok(n, stepg, i + 1, segs@[i + 1]));
            assert(segs@[i + 1].0 < segs@[i + 1].1);
            assert(segs@[i + 1].1 <= n);
            assert((i + 1) * stepg < n);
        }
    }
    segs
}

} // verus!

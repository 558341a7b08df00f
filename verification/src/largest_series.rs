//! The run of consecutive values, of a given length, whose sum is largest.

use crate::error::InvalidArgument;
use vstd::prelude::*;

verus! {

/// The sum of the values of `s`.
pub open spec fn series_sum(s: Seq<u32>) -> int
    decreases s.len(),
{
    if s.len() == 0 {
        0
    } else {
        series_sum(s.drop_last()) + s.last()
    }
}

/// The run of `span` values of `series` that begins at `start`.
pub open spec fn window(series: Seq<u32>, start: int, span: int) -> Seq<u32> {
    series.subrange(start, start + span)
}

/// The sum of the run of `span` values of `series` that begins at `start`.
pub open spec fn window_sum(series: Seq<u32>, start: int, span: int) -> int {
    series_sum(window(series, start, span))
}

/// Whether a run of `span` values can begin at `start` and stay inside `series`.
pub open spec fn is_window_start(series: Seq<u32>, span: int, start: int) -> bool {
    0 <= start && start + span <= series.len()
}

/// Whether the run that begins at `start` is the one to report: no run of
/// `span` values has a larger sum, and every run that begins earlier has a
/// smaller one.
pub open spec fn is_first_largest(series: Seq<u32>, span: int, start: int) -> bool {
    &&& is_window_start(series, span, start)
    &&& forall|t: int|
        is_window_start(series, span, t) ==> #[trigger] window_sum(series, t, span) <= window_sum(
            series,
            start,
            span,
        )
    &&& forall|t: int|
        0 <= t < start ==> #[trigger] window_sum(series, t, span) < window_sum(series, start, span)
}

/// A sum of `u32` values is at least zero and at most the largest `u32`
/// times their number.
pub proof fn lemma_sum_bounds(s: Seq<u32>)
    ensures
        0 <= series_sum(s) <= s.len() * 0xFFFF_FFFF,
    decreases s.len(),
{
    if s.len() > 0 {
        lemma_sum_bounds(s.drop_last());
    }
}

/// The sum of a series is its first value plus the sum of the rest.
pub proof fn lemma_sum_first(s: Seq<u32>)
    requires
        s.len() > 0,
    ensures
        series_sum(s) == s[0] + series_sum(s.subrange(1, s.len() as int)),
    decreases s.len(),
{
    let rest = s.subrange(1, s.len() as int);
    if s.len() == 1 {
        assert(series_sum(s.drop_last()) == 0);
    } else {
        lemma_sum_first(s.drop_last());
        assert(s.drop_last().subrange(1, s.len() - 1) =~= rest.drop_last());
    }
}

/// A run that grows by one value at its end grows its sum by that value.
pub proof fn lemma_window_extend(series: Seq<u32>, start: int, span: int)
    requires
        0 <= start,
        0 <= span,
        start + span < series.len(),
    ensures
        window_sum(series, start, span + 1) == window_sum(series, start, span) + series[start
            + span],
{
    assert(window(series, start, span + 1).drop_last() =~= window(series, start, span));
}

/// Moving a run one place to the right takes its first value out of the sum
/// and brings the value behind its end in.
pub proof fn lemma_window_slide(series: Seq<u32>, start: int, span: int)
    requires
        0 <= start,
        0 <= span,
        start + span < series.len(),
    ensures
        window_sum(series, start + 1, span) == window_sum(series, start, span) - series[start]
            + series[start + span],
{
    let wide = window(series, start, span + 1);
    lemma_window_extend(series, start, span);
    lemma_sum_first(wide);
    assert(wide.subrange(1, wide.len() as int) =~= window(series, start + 1, span));
}

/// Only one run is the first of the largest.
pub proof fn lemma_first_largest_unique(series: Seq<u32>, span: int, a: int, b: int)
    requires
        is_first_largest(series, span, a),
        is_first_largest(series, span, b),
    ensures
        a == b,
{
    if a < b {
        assert(window_sum(series, b, span) <= window_sum(series, a, span));
    } else if b < a {
        assert(window_sum(series, a, span) <= window_sum(series, b, span));
    }
}

/// Finds the run of `span` consecutive values of `series` whose sum is
/// largest; of several such runs, the one that begins first.
///
/// A `span` of zero, or one longer than the series, is refused. The running
/// sum is kept in 128 bits, which no series that fits in memory can overflow.
pub fn get_largest_series(series: &[u32], span: usize) -> (result: Result<&[u32], InvalidArgument>)
    ensures
        match result {
            Ok(run) => {
                &&& 1 <= span <= series@.len()
                &&& run@.len() == span
                &&& exists|start: int|
                    is_first_largest(series@, span as int, start) && run@ == #[trigger] window(
                        series@,
                        start,
                        span as int,
                    )
                &&& forall|t: int|
                    is_window_start(series@, span as int, t) ==> #[trigger] window_sum(
                        series@,
                        t,
                        span as int,
                    ) <= series_sum(run@)
                &&& span == series@.len() ==> run@ == series@
            },
            Err(e) => {
                &&& span == 0 || span > series@.len()
                &&& e == (InvalidArgument::SpanOutOfRange { span, length: series@.len() as usize })
            },
        },
{
    let length = series.len();
    if span == 0 || span > length {
        return Err(InvalidArgument::SpanOutOfRange { span, length });
    }
    let mut current_sum: u128 = 0;
    let mut filled: usize = 0;
    while filled < span
        invariant
            filled <= span <= length,
            length == series@.len(),
            current_sum == window_sum(series@, 0, filled as int),
        decreases span - filled,
    {
        proof {
            lemma_window_extend(series@, 0, filled as int);
            lemma_sum_bounds(window(series@, 0, filled as int));
        }
        current_sum = current_sum + series[filled] as u128;
        filled += 1;
    }
    let mut largest_start: usize = 0;
    let mut largest_sum: u128 = current_sum;
    let mut current_start: usize = 0;
    while current_start + span < length
        invariant
            1 <= span,
            current_start + span <= length,
            length == series@.len(),
            largest_start <= current_start,
            current_sum == window_sum(series@, current_start as int, span as int),
            largest_sum == window_sum(series@, largest_start as int, span as int),
            forall|t: int|
                0 <= t <= current_start ==> #[trigger] window_sum(series@, t, span as int)
                    <= largest_sum,
            forall|t: int|
                0 <= t < largest_start ==> #[trigger] window_sum(series@, t, span as int)
                    < largest_sum,
        decreases length - current_start,
    {
        let leaving = series[current_start];
        let entering = series[current_start + span];
        proof {
            lemma_window_slide(series@, current_start as int, span as int);
            lemma_sum_bounds(window(series@, current_start as int, span as int));
            lemma_sum_bounds(window(series@, current_start + 1, span as int));
        }
        current_sum = current_sum + entering as u128 - leaving as u128;
        current_start += 1;
        if current_sum > largest_sum {
            largest_sum = current_sum;
            largest_start = current_start;
        }
    }
    let run = &series[largest_start..largest_start + span];
    proof {
        assert(is_first_largest(series@, span as int, largest_start as int));
    }
    Ok(run)
}

} // verus!

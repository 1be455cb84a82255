use vstd::prelude::*;
use crate::extractor::TIME_SUM_UPPER;
use crate::locator::{
    binary_search_position, count_le, lemma_count_bounded, lemma_count_monotonic,
    lemma_count_parts_sorted, lemma_parts_at_is_count, sorted,
};

verus! {

/// Raised when the residual of some windowed pair does not fit in an `isize`.
#[derive(Debug, Clone, Copy, PartialEq, Eq)]
pub enum TimeSumError {
    ResidualOutOfRange,
}

/// Every value of `s` fits in an `isize`.
pub open spec fn all_fit(s: Seq<int>) -> bool {
    forall|k: int| 0 <= k < s.len() ==> isize::MIN <= #[trigger] s[k] <= isize::MAX
}

/// `a` is a prefix of `b`.
pub open spec fn is_prefix(a: Seq<int>, b: Seq<int>) -> bool {
    a.len() <= b.len() && forall|k: int| 0 <= k < a.len() ==> #[trigger] a[k] == b[k]
}

/// The hits of the ascending `s` that the calibrator pairs with reference hit `r`: those
/// after `r - offset` and before `r + TIME_SUM_UPPER`.
pub open spec fn calibration_window(s: Seq<usize>, r: int, offset: int) -> Seq<usize> {
    s.subrange(count_le(s, r - offset) as int, count_le(s, r + TIME_SUM_UPPER - 1) as int)
}

/// The residuals `a + b - 2r` for a fixed end-1 hit `a` and each end-2 hit `b` of `w2`.
pub open spec fn shifted(w2: Seq<usize>, a: int, r: int) -> Seq<int> {
    w2.map_values(|b: usize| a + b - 2 * r)
}

/// The residuals of every pair of `w1` and `w2`, end-1 hit major.
pub open spec fn pair_samples(w1: Seq<usize>, w2: Seq<usize>, r: int) -> Seq<int>
    decreases w1.len(),
{
    if w1.len() == 0 {
        Seq::empty()
    } else {
        pair_samples(w1.drop_last(), w2, r) + shifted(w2, w1.last() as int, r)
    }
}

/// The time-sum residuals of all windowed pairs, reference hit by reference hit.
pub open spec fn timesums(refs: Seq<usize>, end_1: Seq<usize>, end_2: Seq<usize>, offset: int) -> Seq<int>
    decreases refs.len(),
{
    if refs.len() == 0 {
        Seq::empty()
    } else {
        let r = refs.last() as int;
        timesums(refs.drop_last(), end_1, end_2, offset) + pair_samples(
            calibration_window(end_1, r, offset),
            calibration_window(end_2, r, offset),
            r,
        )
    }
}

/// The values of `v` as integers.
pub open spec fn as_ints(v: Seq<isize>) -> Seq<int> {
    v.map_values(|x: isize| x as int)
}

proof fn lemma_pair_step(w1: Seq<usize>, w2: Seq<usize>, r: int, j: int)
    requires
        0 <= j < w1.len(),
    ensures
        pair_samples(w1.take(j + 1), w2, r) == pair_samples(w1.take(j), w2, r) + shifted(w2, w1[j] as int, r),
{
    assert(w1.take(j + 1).drop_last() =~= w1.take(j));
}

proof fn lemma_pair_prefix(w1: Seq<usize>, w2: Seq<usize>, r: int, j: int)
    requires
        0 <= j <= w1.len(),
    ensures
        is_prefix(pair_samples(w1.take(j), w2, r), pair_samples(w1, w2, r)),
    decreases w1.len(),
{
    if j == w1.len() {
        assert(w1.take(j) =~= w1);
    } else {
        let d = w1.drop_last();
        assert(w1.take(j) =~= d.take(j));
        lemma_pair_prefix(d, w2, r, j);
    }
}

proof fn lemma_timesums_prefix(refs: Seq<usize>, end_1: Seq<usize>, end_2: Seq<usize>, offset: int, i: int)
    requires
        0 <= i <= refs.len(),
    ensures
        is_prefix(timesums(refs.take(i), end_1, end_2, offset), timesums(refs, end_1, end_2, offset)),
    decreases refs.len(),
{
    if i == refs.len() {
        assert(refs.take(i) =~= refs);
    } else {
        let d = refs.drop_last();
        assert(refs.take(i) =~= d.take(i));
        lemma_timesums_prefix(d, end_1, end_2, offset, i);
    }
}

/// The residual of the `k`-th end-2 hit with the `j`-th end-1 hit of reference `i` stands
/// in the whole sequence of residuals right after those of the pairs enumerated before it.
proof fn lemma_residual_in_timesums(
    refs: Seq<usize>,
    end_1: Seq<usize>,
    end_2: Seq<usize>,
    offset: int,
    i: int,
    j: int,
    k: int,
)
    requires
        0 <= i < refs.len(),
        0 <= j < calibration_window(end_1, refs[i] as int, offset).len(),
        0 <= k < calibration_window(end_2, refs[i] as int, offset).len(),
    ensures
        ({
            let r = refs[i] as int;
            let w1 = calibration_window(end_1, r, offset);
            let w2 = calibration_window(end_2, r, offset);
            let idx = timesums(refs.take(i), end_1, end_2, offset).len() + pair_samples(w1.take(j), w2, r).len() + k;
            &&& idx < timesums(refs, end_1, end_2, offset).len()
            &&& timesums(refs, end_1, end_2, offset)[idx] == w1[j] + w2[k] - 2 * r
        }),
{
    let r = refs[i] as int;
    let w1 = calibration_window(end_1, r, offset);
    let w2 = calibration_window(end_2, r, offset);
    let t = timesums(refs.take(i), end_1, end_2, offset);
    let p = pair_samples(w1.take(j), w2, r);
    assert(refs.take(i + 1).drop_last() =~= refs.take(i));
    assert(timesums(refs.take(i + 1), end_1, end_2, offset) == t + pair_samples(w1, w2, r));
    lemma_pair_step(w1, w2, r, j);
    lemma_pair_prefix(w1, w2, r, j + 1);
    lemma_timesums_prefix(refs, end_1, end_2, offset, i + 1);
    let idx = t.len() + p.len() + k;
    assert(shifted(w2, w1[j] as int, r)[k] == w1[j] + w2[k] - 2 * r);
    assert(pair_samples(w1.take(j + 1), w2, r)[p.len() + k] == w1[j] + w2[k] - 2 * r);
    assert(pair_samples(w1, w2, r)[p.len() + k] == w1[j] + w2[k] - 2 * r);
    assert(timesums(refs.take(i + 1), end_1, end_2, offset)[idx] == w1[j] + w2[k] - 2 * r);
}

/// Collects, for each reference hit `r`, the residual `e1 + e2 - 2r` of every pair of an
/// end-1 hit `e1` and an end-2 hit `e2` that lie after `r - tsum_tol` and before
/// `r + TIME_SUM_UPPER`. All pairs are kept, not only a best one. Fails only where one of
/// those residuals does not fit in an `isize`.
pub fn timesum_extractor(
    mcp_data: &Vec<usize>,
    end_1_data: &Vec<usize>,
    end_2_data: &Vec<usize>,
    tsum_tol: usize,
) -> (r: Result<Vec<isize>, TimeSumError>)
    requires
        sorted(end_1_data@),
        sorted(end_2_data@),
    ensures
        r is Err <==> !all_fit(timesums(mcp_data@, end_1_data@, end_2_data@, tsum_tol as int)),
        r matches Ok(samples) ==> as_ints(samples@) == timesums(mcp_data@, end_1_data@, end_2_data@, tsum_tol as int),
{
    let ghost off = tsum_tol as int;
    let n: usize = mcp_data.len();
    let mut end_1_indices: Vec<usize> = Vec::new();
    let mut end_2_indices: Vec<usize> = Vec::new();
    let mut i: usize = 0;
    while i < n
        invariant
            n == mcp_data.len(),
            i <= n,
            off == tsum_tol,
            sorted(end_1_data@),
            sorted(end_2_data@),
            end_1_indices.len() == i,
            end_2_indices.len() == i,
            forall|k: int| 0 <= k < i ==> {
                let r = #[trigger] mcp_data@[k] as int;
                &&& end_1_indices@[k] == count_le(end_1_data@, r - off)
                &&& end_2_indices@[k] == count_le(end_2_data@, r - off)
            },
        decreases n - i,
    {
        let mcp_hit: usize = mcp_data[i];
        if mcp_hit < tsum_tol {
            proof {
                lemma_parts_at_is_count(end_1_data@, mcp_hit - off, 0);
                lemma_parts_at_is_count(end_2_data@, mcp_hit - off, 0);
            }
            end_1_indices.push(0);
            end_2_indices.push(0);
        } else {
            end_1_indices.push(binary_search_position(end_1_data, mcp_hit - tsum_tol));
            end_2_indices.push(binary_search_position(end_2_data, mcp_hit - tsum_tol));
        }
        i = i + 1;
    }

    let mut samples: Vec<isize> = Vec::new();
    let mut i: usize = 0;
    while i < n
        invariant
            n == mcp_data.len(),
            i <= n,
            off == tsum_tol,
            sorted(end_1_data@),
            sorted(end_2_data@),
            end_1_indices.len() == n,
            end_2_indices.len() == n,
            forall|k: int| 0 <= k < n ==> {
                let r = #[trigger] mcp_data@[k] as int;
                &&& end_1_indices@[k] == count_le(end_1_data@, r - off)
                &&& end_2_indices@[k] == count_le(end_2_data@, r - off)
            },
            as_ints(samples@) == timesums(mcp_data@.take(i as int), end_1_data@, end_2_data@, off),
        decreases n - i,
    {
        let mcp_hit: usize = mcp_data[i];
        let ghost r = mcp_hit as int;
        let ghost hi = r + TIME_SUM_UPPER - 1;
        let unbounded: bool = mcp_hit > usize::MAX - TIME_SUM_UPPER;
        let end_1_start: usize = end_1_indices[i];
        let end_2_start: usize = end_2_indices[i];
        let ghost w1 = calibration_window(end_1_data@, r, off);
        let ghost w2 = calibration_window(end_2_data@, r, off);
        let ghost c1 = count_le(end_1_data@, hi) as int;
        let ghost c2 = count_le(end_2_data@, hi) as int;
        let ghost base = as_ints(samples@);
        proof {
            lemma_count_monotonic(end_1_data@, r - off, hi);
            lemma_count_monotonic(end_2_data@, r - off, hi);
            lemma_count_bounded(end_1_data@, hi);
            lemma_count_bounded(end_2_data@, hi);
            lemma_count_parts_sorted(end_1_data@, hi);
            lemma_count_parts_sorted(end_2_data@, hi);
            lemma_count_parts_sorted(end_1_data@, r - off);
            lemma_count_parts_sorted(end_2_data@, r - off);
            assert(mcp_data@.take(i + 1).drop_last() =~= mcp_data@.take(i as int));
            assert(w1.take(0) =~= Seq::<usize>::empty());
        }
        let mut end_1_focus: usize = end_1_start;
        while end_1_focus < end_1_data.len() && (unbounded || end_1_data[end_1_focus] < mcp_hit + TIME_SUM_UPPER)
            invariant
                end_1_start == count_le(end_1_data@, r - off),
                end_2_start == count_le(end_2_data@, r - off),
                end_1_start <= end_1_focus <= c1,
                end_2_start <= c2 <= end_2_data.len(),
                c1 <= end_1_data.len(),
                r == mcp_hit,
                off == tsum_tol,
                    hi == r + TIME_SUM_UPPER - 1,
                unbounded == (mcp_hit > usize::MAX - TIME_SUM_UPPER),
                w1 == end_1_data@.subrange(end_1_start as int, c1),
                w2 == end_2_data@.subrange(end_2_start as int, c2),
                forall|j: int| 0 <= j < c1 ==> end_1_data@[j] as int <= hi,
                forall|j: int| c1 <= j < end_1_data.len() ==> end_1_data@[j] as int > hi,
                forall|j: int| 0 <= j < c2 ==> end_2_data@[j] as int <= hi,
                forall|j: int| c2 <= j < end_2_data.len() ==> end_2_data@[j] as int > hi,
                forall|j: int| end_1_start <= j < end_1_data.len() ==> end_1_data@[j] as int > r - off,
                forall|j: int| end_2_start <= j < end_2_data.len() ==> end_2_data@[j] as int > r - off,
                as_ints(samples@) == base + pair_samples(w1.take(end_1_focus - end_1_start), w2, r),
                i < n,
                n == mcp_data.len(),
                mcp_data@[i as int] == mcp_hit,
                w1 == calibration_window(end_1_data@, r, off),
                w2 == calibration_window(end_2_data@, r, off),
                base == timesums(mcp_data@.take(i as int), end_1_data@, end_2_data@, off),
            decreases end_1_data.len() - end_1_focus,
        {
            let e1: usize = end_1_data[end_1_focus];
            let d1: i128 = e1 as i128 - mcp_hit as i128;
            let ghost before = as_ints(samples@);
            let mut end_2_focus: usize = end_2_start;
            proof {
                assert(w2.take(0) =~= Seq::<usize>::empty());
                assert(before =~= before + shifted(w2.take(0), e1 as int, r));
            }
            while end_2_focus < end_2_data.len() && (unbounded || end_2_data[end_2_focus] < mcp_hit + TIME_SUM_UPPER)
                invariant
                    end_2_start <= end_2_focus <= c2,
                    end_2_start == count_le(end_2_data@, r - off),
                    c2 <= end_2_data.len(),
                    r == mcp_hit,
                    off == tsum_tol,
                            hi == r + TIME_SUM_UPPER - 1,
                    unbounded == (mcp_hit > usize::MAX - TIME_SUM_UPPER),
                    d1 == e1 - r,
                    i < n,
                    n == mcp_data.len(),
                    mcp_data@[i as int] == mcp_hit,
                    end_1_start <= end_1_focus < c1,
                    c1 <= end_1_data.len(),
                    e1 == end_1_data@[end_1_focus as int],
                    w1 == end_1_data@.subrange(end_1_start as int, c1),
                    w1 == calibration_window(end_1_data@, r, off),
                    w2 == calibration_window(end_2_data@, r, off),
                    base == timesums(mcp_data@.take(i as int), end_1_data@, end_2_data@, off),
                    before == base + pair_samples(w1.take(end_1_focus - end_1_start), w2, r),
                    w2 == end_2_data@.subrange(end_2_start as int, c2),
                    forall|j: int| 0 <= j < c2 ==> end_2_data@[j] as int <= hi,
                    forall|j: int| c2 <= j < end_2_data.len() ==> end_2_data@[j] as int > hi,
                    forall|j: int| end_2_start <= j < end_2_data.len() ==> end_2_data@[j] as int > r - off,
                    as_ints(samples@) == before + shifted(w2.take(end_2_focus - end_2_start), e1 as int, r),
                decreases end_2_data.len() - end_2_focus,
            {
                let e2: usize = end_2_data[end_2_focus];
                let residual: i128 = d1 + (e2 as i128 - mcp_hit as i128);
                if residual < isize::MIN as i128 || residual > isize::MAX as i128 {
                    proof {
                        let j = end_1_focus - end_1_start;
                        let k = end_2_focus - end_2_start;
                        lemma_residual_in_timesums(mcp_data@, end_1_data@, end_2_data@, off, i as int, j, k);
                        let full = timesums(mcp_data@, end_1_data@, end_2_data@, off);
                        let idx = base.len() + pair_samples(w1.take(j), w2, r).len() + k;
                        assert(w1[j] == e1);
                        assert(w2[k] == e2);
                        assert(!(isize::MIN <= full[idx] <= isize::MAX));
                    }
                    return Err(TimeSumError::ResidualOutOfRange);
                }
                let ghost prev = samples@;
                samples.push(residual as isize);
                proof {
                    let k = end_2_focus - end_2_start;
                    assert(as_ints(samples@) =~= as_ints(prev).push(residual as int));
                    assert(shifted(w2.take(k + 1), e1 as int, r) =~= shifted(w2.take(k), e1 as int, r).push(e1 + e2 - 2 * r));
                    assert(w2[k] == e2);
                }
                end_2_focus = end_2_focus + 1;
            }
            proof {
                assert(end_2_focus == c2);
                assert(w2.take(c2 - end_2_start) =~= w2);
                let j = end_1_focus - end_1_start;
                assert(w1[j] == e1);
                lemma_pair_step(w1, w2, r, j);
            }
            end_1_focus = end_1_focus + 1;
        }
        proof {
            assert(end_1_focus == c1);
            assert(w1.take(c1 - end_1_start) =~= w1);
        }
        i = i + 1;
    }
    proof {
        assert(mcp_data@.take(n as int) =~= mcp_data@);
        assert forall|k: int| 0 <= k < samples.len() implies isize::MIN <= #[trigger] as_ints(samples@)[k] <= isize::MAX by {
            assert(as_ints(samples@)[k] == samples@[k] as int);
        }
    }
    Ok(samples)
}

} // verus!

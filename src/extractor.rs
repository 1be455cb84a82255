use vstd::prelude::*;
use vstd::slice::slice_subrange;
use crate::locator::{
    binary_search_position, count_le, lemma_count_all, lemma_count_bounded,
    lemma_count_monotonic, lemma_count_parts_sorted, parts_at, sorted,
};

verus! {

/// Slack below a reference hit: an end hit must come strictly after `reference - slack`.
pub const HIT_TIME_TOLERANCE: usize = 0;

/// Width of the coincidence window above a reference hit, in ticks.
pub const TIME_SUM_UPPER: usize = 4000;

/// Raised when a hit taken from a window lies before its reference hit, which only a
/// defect in the window search could cause.
#[derive(Debug, Clone, Copy, PartialEq, Eq)]
pub enum ExtractorError {
    InternalInvariantViolation,
}

/// The elements of the ascending `s` that lie in `(lo, hi]`, as the index range
/// `[upper_bound(lo), upper_bound(hi))`.
pub open spec fn window(s: Seq<usize>, lo: int, hi: int) -> Seq<usize> {
    s.subrange(count_le(s, lo) as int, count_le(s, hi) as int)
}

/// The end hits that may belong to the reference hit `r`.
pub open spec fn candidates(s: Seq<usize>, r: int) -> Seq<usize> {
    window(s, r - HIT_TIME_TOLERANCE, r + TIME_SUM_UPPER)
}

/// `|x|` over the integers.
pub open spec fn abs(x: int) -> int {
    if x < 0 { -x } else { x }
}

/// A reference hit `r` is matched when each end has exactly one candidate and their
/// time-sum lies within `tol` of `tsum`.
pub open spec fn is_match(r: int, c1: Seq<usize>, c2: Seq<usize>, tsum: int, tol: int) -> bool {
    &&& c1.len() == 1
    &&& c2.len() == 1
    &&& abs((c1[0] - r) + (c2[0] - r) - tsum) <= tol
}

/// The coordinate reported for `r`: the difference of the two relative end times when
/// matched, else zero.
pub open spec fn coordinate(r: int, c1: Seq<usize>, c2: Seq<usize>, tsum: int, tol: int) -> int {
    if is_match(r, c1, c2, tsum, tol) {
        (c1[0] - r) - (c2[0] - r)
    } else {
        0
    }
}

/// Whether reference hit `r` finds a match on the ascending timelines `end_1` and `end_2`.
pub open spec fn matched_at(r: int, end_1: Seq<usize>, end_2: Seq<usize>, tsum: int, tol: int) -> bool {
    is_match(r, candidates(end_1, r), candidates(end_2, r), tsum, tol)
}

/// The coordinate reconstructed for reference hit `r`.
pub open spec fn coordinate_at(r: int, end_1: Seq<usize>, end_2: Seq<usize>, tsum: int, tol: int) -> int {
    coordinate(r, candidates(end_1, r), candidates(end_2, r), tsum, tol)
}

/// For each reference hit, finds its unique candidate on each end, if there is one, and
/// accepts the pair when its time-sum lies within `tsum_tolerance` of `tsum`. Returns the
/// coordinates (zero where unmatched) and the match flags, one of each per reference hit.
pub fn extractor(
    mcp_data: &Vec<usize>,
    end_1_data: &Vec<usize>,
    end_2_data: &Vec<usize>,
    tsum: usize,
    tsum_tolerance: usize,
) -> (r: Result<(Vec<isize>, Vec<bool>), ExtractorError>)
    requires
        sorted(end_1_data@),
        sorted(end_2_data@),
    ensures
        r is Ok,
        r matches Ok((reconstructed, mask)) && {
            &&& reconstructed.len() == mcp_data.len()
            &&& mask.len() == mcp_data.len()
            &&& forall|i: int| 0 <= i < mcp_data.len() ==>
                mask@[i] == matched_at(mcp_data@[i] as int, end_1_data@, end_2_data@, tsum as int, tsum_tolerance as int)
            &&& forall|i: int| 0 <= i < mcp_data.len() ==>
                reconstructed@[i] as int == coordinate_at(mcp_data@[i] as int, end_1_data@, end_2_data@, tsum as int, tsum_tolerance as int)
        },
{
    let n: usize = mcp_data.len();
    let mut end_1_start: Vec<usize> = Vec::new();
    let mut end_1_end: Vec<usize> = Vec::new();
    let mut end_2_start: Vec<usize> = Vec::new();
    let mut end_2_end: Vec<usize> = Vec::new();
    // Locate, for each reference hit, the window of candidates on each end.
    let mut i: usize = 0;
    while i < n
        invariant
            n == mcp_data.len(),
            i <= n,
            sorted(end_1_data@),
            sorted(end_2_data@),
            end_1_start.len() == i,
            end_1_end.len() == i,
            end_2_start.len() == i,
            end_2_end.len() == i,
            forall|k: int| 0 <= k < i ==>
                #[trigger] end_1_start@[k] == count_le(end_1_data@, mcp_data@[k] - HIT_TIME_TOLERANCE),
            forall|k: int| 0 <= k < i ==>
                #[trigger] end_1_end@[k] == count_le(end_1_data@, mcp_data@[k] + TIME_SUM_UPPER),
            forall|k: int| 0 <= k < i ==>
                #[trigger] end_2_start@[k] == count_le(end_2_data@, mcp_data@[k] - HIT_TIME_TOLERANCE),
            forall|k: int| 0 <= k < i ==>
                #[trigger] end_2_end@[k] == count_le(end_2_data@, mcp_data@[k] + TIME_SUM_UPPER),
            forall|k: int| 0 <= k < i ==> #[trigger] end_1_start@[k] <= end_1_end@[k] <= end_1_data.len(),
            forall|k: int| 0 <= k < i ==> #[trigger] end_2_start@[k] <= end_2_end@[k] <= end_2_data.len(),
        decreases n - i,
    {
        let mcp_hit: usize = mcp_data[i];
        let lower: usize = mcp_hit - HIT_TIME_TOLERANCE;
        let upper: usize = mcp_hit.saturating_add(TIME_SUM_UPPER);
        proof {
            let hi = mcp_hit + TIME_SUM_UPPER;
            if hi > usize::MAX {
                lemma_count_all(end_1_data@, upper as int);
                lemma_count_all(end_1_data@, hi);
                lemma_count_all(end_2_data@, upper as int);
                lemma_count_all(end_2_data@, hi);
            }
            lemma_count_monotonic(end_1_data@, lower as int, hi);
            lemma_count_monotonic(end_2_data@, lower as int, hi);
            lemma_count_bounded(end_1_data@, hi);
            lemma_count_bounded(end_2_data@, hi);
        }
        end_1_start.push(binary_search_position(end_1_data, lower));
        end_1_end.push(binary_search_position(end_1_data, upper));
        end_2_start.push(binary_search_position(end_2_data, lower));
        end_2_end.push(binary_search_position(end_2_data, upper));
        i = i + 1;
    }

    let end_1_extracted = get_extracted_hits(&end_1_start, &end_1_end, end_1_data);
    let end_2_extracted = get_extracted_hits(&end_2_start, &end_2_end, end_2_data);

    let mut reconstructed: Vec<isize> = Vec::new();
    let mut mask: Vec<bool> = Vec::new();
    let mut i: usize = 0;
    while i < n
        invariant
            n == mcp_data.len(),
            i <= n,
            sorted(end_1_data@),
            sorted(end_2_data@),
            end_1_extracted.len() == n,
            end_2_extracted.len() == n,
            forall|k: int| 0 <= k < n ==> {
                let r = #[trigger] mcp_data@[k] as int;
                &&& end_1_extracted@[k]@ == candidates(end_1_data@, r)
                &&& end_2_extracted@[k]@ == candidates(end_2_data@, r)
                &&& count_le(end_1_data@, r - HIT_TIME_TOLERANCE) <= count_le(end_1_data@, r + TIME_SUM_UPPER) <= end_1_data.len()
                &&& count_le(end_2_data@, r - HIT_TIME_TOLERANCE) <= count_le(end_2_data@, r + TIME_SUM_UPPER) <= end_2_data.len()
            },
            reconstructed.len() == i,
            mask.len() == i,
            forall|k: int| 0 <= k < i ==>
                mask@[k] == matched_at(mcp_data@[k] as int, end_1_data@, end_2_data@, tsum as int, tsum_tolerance as int),
            forall|k: int| 0 <= k < i ==>
                reconstructed@[k] as int == coordinate_at(mcp_data@[k] as int, end_1_data@, end_2_data@, tsum as int, tsum_tolerance as int),
        decreases n - i,
    {
        let mcp_hit: usize = mcp_data[i];
        let end_1_hits: &[usize] = end_1_extracted[i];
        let end_2_hits: &[usize] = end_2_extracted[i];
        let ghost r = mcp_hit as int;
        let mut matched: bool = false;
        let mut position: isize = 0;
        if end_1_hits.len() == 1 && end_2_hits.len() == 1 {
            proof {
                lemma_count_parts_sorted(end_1_data@, r);
                lemma_count_parts_sorted(end_1_data@, r + TIME_SUM_UPPER);
                lemma_count_parts_sorted(end_2_data@, r);
                lemma_count_parts_sorted(end_2_data@, r + TIME_SUM_UPPER);
                assert(end_1_hits@[0] == end_1_data@[count_le(end_1_data@, r) as int]);
                assert(end_2_hits@[0] == end_2_data@[count_le(end_2_data@, r) as int]);
            }
            let end_1_hit: usize = match end_1_hits[0].checked_sub(mcp_hit) {
                Some(k) => k,
                None => return Err(ExtractorError::InternalInvariantViolation),
            };
            let end_2_hit: usize = match end_2_hits[0].checked_sub(mcp_hit) {
                Some(k) => k,
                None => return Err(ExtractorError::InternalInvariantViolation),
            };
            let time_sum: usize = end_1_hit + end_2_hit;
            let deviation: usize = if time_sum >= tsum { time_sum - tsum } else { tsum - time_sum };
            if deviation <= tsum_tolerance {
                matched = true;
                position = end_1_hit as isize - end_2_hit as isize;
            }
        }
        mask.push(matched);
        reconstructed.push(position);
        i = i + 1;
    }
    Ok((reconstructed, mask))
}

/// For each pair of a start and an end index, the part of `hit_data` between them; pairs
/// are formed up to the end of the shorter index list.
pub fn get_extracted_hits<'a>(
    start_indices: &Vec<usize>,
    end_indices: &Vec<usize>,
    hit_data: &'a Vec<usize>,
) -> (r: Vec<&'a [usize]>)
    requires
        forall|k: int| 0 <= k < start_indices.len() && k < end_indices.len() ==>
            #[trigger] start_indices@[k] <= end_indices@[k] <= hit_data.len(),
    ensures
        r.len() == if start_indices.len() <= end_indices.len() { start_indices.len() } else { end_indices.len() },
        forall|k: int| 0 <= k < r.len() ==>
            r@[k]@ == hit_data@.subrange(start_indices@[k] as int, end_indices@[k] as int),
{
    let mut collected_hits: Vec<&'a [usize]> = Vec::new();
    let pairs: usize = if start_indices.len() <= end_indices.len() { start_indices.len() } else { end_indices.len() };
    let mut i: usize = 0;
    while i < pairs
        invariant
            pairs <= start_indices.len(),
            pairs <= end_indices.len(),
            forall|k: int| 0 <= k < start_indices.len() && k < end_indices.len() ==>
                #[trigger] start_indices@[k] <= end_indices@[k] <= hit_data.len(),
            i <= pairs,
            collected_hits.len() == i,
            forall|k: int| 0 <= k < i ==>
                collected_hits@[k]@ == hit_data@.subrange(start_indices@[k] as int, end_indices@[k] as int),
        decreases pairs - i,
    {
        let data: &'a [usize] = slice_subrange(hit_data.as_slice(), start_indices[i], end_indices[i]);
        collected_hits.push(data);
        i = i + 1;
    }
    collected_hits
}

} // verus!

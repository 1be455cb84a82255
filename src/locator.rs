use vstd::prelude::*;

verus! {

/// A timeline is ascending when no element exceeds a later one.
pub open spec fn sorted(s: Seq<usize>) -> bool {
    forall|i: int, j: int| 0 <= i <= j < s.len() ==> s[i] <= s[j]
}

/// The number of elements of `s` that are at most `q`.
pub open spec fn count_le(s: Seq<usize>, q: int) -> nat
    decreases s.len(),
{
    if s.len() == 0 {
        0
    } else {
        count_le(s.drop_last(), q) + if s.last() as int <= q { 1nat } else { 0nat }
    }
}

/// An index `i` that parts `s` into the elements at most `q` (before `i`) and the
/// elements above `q` (from `i` on).
pub open spec fn parts_at(s: Seq<usize>, q: int, i: int) -> bool {
    &&& 0 <= i <= s.len()
    &&& forall|j: int| 0 <= j < i ==> s[j] as int <= q
    &&& forall|j: int| i <= j < s.len() ==> s[j] as int > q
}

/// In any sequence, an index that parts it at `q` is the count of elements at most `q`.
pub proof fn lemma_parts_at_is_count(s: Seq<usize>, q: int, i: int)
    requires
        parts_at(s, q, i),
    ensures
        count_le(s, q) == i,
    decreases s.len(),
{
    if s.len() > 0 {
        let t = s.drop_last();
        if i == s.len() {
            assert(parts_at(t, q, i - 1));
            lemma_parts_at_is_count(t, q, i - 1);
        } else {
            assert(parts_at(t, q, i));
            lemma_parts_at_is_count(t, q, i);
        }
    }
}

/// In an ascending sequence the count of elements at most `q` parts it at `q`.
pub proof fn lemma_count_parts_sorted(s: Seq<usize>, q: int)
    requires
        sorted(s),
    ensures
        parts_at(s, q, count_le(s, q) as int),
    decreases s.len(),
{
    if s.len() > 0 {
        let t = s.drop_last();
        assert(sorted(t));
        lemma_count_parts_sorted(t, q);
        let c = count_le(t, q) as int;
        if s.last() as int <= q {
            assert forall|j: int| 0 <= j < t.len() implies t[j] as int <= q by {
                assert(s[j] <= s[s.len() - 1]);
            }
            assert(c == t.len()) by {
                if c < t.len() {
                    assert(t[c] as int > q);
                    assert(s[c] <= s[s.len() - 1]);
                }
            }
            assert forall|j: int| 0 <= j < s.len() implies s[j] as int <= q by {
                if j < t.len() {
                    assert(s[j] == t[j]);
                }
            }
        } else {
            assert forall|j: int| c <= j < s.len() implies s[j] as int > q by {
                if j < t.len() {
                    assert(s[j] == t[j]);
                }
            }
            assert forall|j: int| 0 <= j < c implies s[j] as int <= q by {
                assert(s[j] == t[j]);
            }
        }
    }
}

/// No element exceeds `usize::MAX`, so a bound at or above it counts every element.
pub proof fn lemma_count_all(s: Seq<usize>, q: int)
    requires
        q >= usize::MAX,
    ensures
        count_le(s, q) == s.len(),
    decreases s.len(),
{
    if s.len() > 0 {
        lemma_count_all(s.drop_last(), q);
    }
}

/// The count of elements at most `q` never falls as `q` grows.
pub proof fn lemma_count_monotonic(s: Seq<usize>, p: int, q: int)
    requires
        p <= q,
    ensures
        count_le(s, p) <= count_le(s, q),
    decreases s.len(),
{
    if s.len() > 0 {
        lemma_count_monotonic(s.drop_last(), p, q);
    }
}

/// The count never exceeds the length.
pub proof fn lemma_count_bounded(s: Seq<usize>, q: int)
    ensures
        count_le(s, q) <= s.len(),
    decreases s.len(),
{
    if s.len() > 0 {
        lemma_count_bounded(s.drop_last(), q);
    }
}

/// The upper bound of `q` in an ascending timeline: it is the count of elements at most
/// `q`, it never falls as `q` grows, it is zero exactly when the timeline is empty or `q`
/// precedes its first element, and it is the length exactly when `q` reaches its last.
pub proof fn law_upper_bound(s: Seq<usize>, p: int, q: int)
    requires
        sorted(s),
        p <= q,
    ensures
        parts_at(s, q, count_le(s, q) as int),
        count_le(s, p) <= count_le(s, q),
        count_le(s, q) == 0 <==> (s.len() == 0 || q < s[0] as int),
        count_le(s, q) == s.len() <==> (s.len() == 0 || q >= s.last() as int),
{
    lemma_count_parts_sorted(s, q);
    lemma_count_monotonic(s, p, q);
}

/// Returns the upper bound of `item` in the ascending `data`: the smallest index `i` such
/// that every element before `i` is at most `item` and every element from `i` on exceeds
/// it, which is the number of elements at most `item` (zero for an empty timeline).
pub fn binary_search_position(data: &Vec<usize>, item: usize) -> (r: usize)
    requires
        sorted(data@),
    ensures
        parts_at(data@, item as int, r as int),
        r == count_le(data@, item as int),
{
    let mut left: usize = 0;
    let mut right: usize = data.len();
    while left < right
        invariant
            0 <= left <= right <= data.len(),
            sorted(data@),
            forall|j: int| 0 <= j < left ==> data@[j] <= item,
            forall|j: int| right <= j < data.len() ==> data@[j] > item,
        decreases right - left,
    {
        let mid: usize = left + (right - left) / 2;
        if data[mid] <= item {
            left = mid + 1;
        } else {
            right = mid;
        }
    }
    proof {
        lemma_parts_at_is_count(data@, item as int, left as int);
    }
    left
}

/// Reports whether `data` is ascending.
pub fn is_sorted(data: &Vec<usize>) -> (r: bool)
    ensures
        r == sorted(data@),
{
    let n: usize = data.len();
    if n == 0 {
        return true;
    }
    let mut index: usize = 1;
    while index < n
        invariant
            n == data.len(),
            1 <= index <= n,
            sorted(data@.take(index as int)),
        decreases n - index,
    {
        if data[index - 1] > data[index] {
            assert(!sorted(data@));
            return false;
        }
        assert forall|i: int, j: int| 0 <= i <= j < index + 1 implies data@[i] <= data@[j] by {
            if j == index as int && i < j {
                assert(data@.take(index as int)[i] <= data@.take(index as int)[index - 1]);
            } else if i < j {
                assert(data@.take(index as int)[i] <= data@.take(index as int)[j]);
            }
        }
        assert(sorted(data@.take(index + 1)));
        index = index + 1;
    }
    assert(data@.take(n as int) =~= data@);
    true
}

} // verus!

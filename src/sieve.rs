use vstd::prelude::*;
use crate::locator::{is_sorted, sorted};

verus! {

broadcast use vstd::seq_lib::group_to_multiset_ensures;

/// The trigger channel of the reference detector setup.
pub const TRIGGER_CHANNEL: usize = 7;

/// The least number of timelines a batch is split into: the reference setup's channels
/// `0` to `TRIGGER_CHANNEL`.
pub const NUMBER_OF_CHANNELS: usize = 8;

/// Why a batch of records could not be split into timelines.
#[derive(Debug, Clone, Copy, PartialEq, Eq)]
pub enum SieveError {
    /// The batch is empty or its first record is not on the trigger channel.
    MissingTrigger,
    /// A record to be routed precedes the trigger.
    InputFormat,
}

/// The batch starts with a record on the trigger channel.
pub open spec fn has_trigger(records: Seq<(usize, usize)>, trigger_channel: usize) -> bool {
    records.len() > 0 && records[0].0 == trigger_channel
}

/// A record that the noise skip discards: another trigger, or one that comes
/// `tolerance` ticks or more after the origin.
pub open spec fn is_noise(record: (usize, usize), trigger_channel: usize, origin: int, tolerance: int) -> bool {
    record.0 == trigger_channel || record.1 - origin >= tolerance
}

/// The index of the first record from `i` on that is not noise, or the length if none is.
pub open spec fn skip_end(records: Seq<(usize, usize)>, trigger_channel: usize, origin: int, tolerance: int, i: int) -> int
    decreases records.len() - i,
{
    if i >= records.len() {
        records.len() as int
    } else if !is_noise(records[i], trigger_channel, origin, tolerance) {
        i
    } else {
        skip_end(records, trigger_channel, origin, tolerance, i + 1)
    }
}

/// The records that are routed to timelines: all from the end of the noise skip on.
pub open spec fn routed(records: Seq<(usize, usize)>, trigger_channel: usize, tolerance: int) -> Seq<(usize, usize)> {
    records.subrange(skip_end(records, trigger_channel, records[0].1 as int, tolerance, 1), records.len() as int)
}

/// A routed record does not precede the origin.
pub open spec fn well_formed(record: (usize, usize), origin: int) -> bool {
    record.1 >= origin
}

/// The number of timelines that the routed records `rs` are split into: one for each
/// channel up to the largest channel id among them, and at least `NUMBER_OF_CHANNELS`.
pub open spec fn timeline_count(rs: Seq<(usize, usize)>) -> int
    decreases rs.len(),
{
    if rs.len() == 0 {
        NUMBER_OF_CHANNELS as int
    } else {
        let rest = timeline_count(rs.drop_last());
        if rs.last().0 + 1 > rest {
            rs.last().0 + 1
        } else {
            rest
        }
    }
}

/// Every routed record has a timeline of its own channel.
pub proof fn lemma_timeline_count_covers(rs: Seq<(usize, usize)>)
    ensures
        timeline_count(rs) >= NUMBER_OF_CHANNELS,
        forall|j: int| 0 <= j < rs.len() ==> (#[trigger] rs[j]).0 < timeline_count(rs),
    decreases rs.len(),
{
    if rs.len() > 0 {
        let t = rs.drop_last();
        lemma_timeline_count_covers(t);
        assert forall|j: int| 0 <= j < rs.len() implies (#[trigger] rs[j]).0 < timeline_count(rs) by {
            if j < t.len() {
                assert(rs[j] == t[j]);
            }
        }
    }
}

/// Every routed record of the batch is well formed.
pub open spec fn routable(records: Seq<(usize, usize)>, trigger_channel: usize, tolerance: int) -> bool {
    forall|j: int| 0 <= j < routed(records, trigger_channel, tolerance).len() ==>
        well_formed(#[trigger] routed(records, trigger_channel, tolerance)[j], records[0].1 as int)
}

/// The times, relative to `origin`, of the records of `rs` on channel `c`, in record order.
pub open spec fn channel_times(rs: Seq<(usize, usize)>, c: int, origin: int) -> Seq<usize>
    decreases rs.len(),
{
    if rs.len() == 0 {
        Seq::empty()
    } else {
        let rest = channel_times(rs.drop_last(), c, origin);
        if rs.last().0 == c {
            rest.push((rs.last().1 - origin) as usize)
        } else {
            rest
        }
    }
}

/// `ts` is a split of the batch: one ascending timeline per channel, holding that
/// channel's routed relative times, and in record order where those are ascending.
pub open spec fn demultiplexed(records: Seq<(usize, usize)>, trigger_channel: usize, tolerance: int, ts: Seq<Seq<usize>>) -> bool {
    &&& ts.len() == timeline_count(routed(records, trigger_channel, tolerance))
    &&& forall|c: int| 0 <= c < ts.len() ==> {
        let times = channel_times(routed(records, trigger_channel, tolerance), c, records[0].1 as int);
        &&& sorted(#[trigger] ts[c])
        &&& ts[c].to_multiset() == times.to_multiset()
        &&& sorted(times) ==> ts[c] == times
    }
}

/// The contents of each timeline.
pub open spec fn timelines_view(ts: Seq<Vec<usize>>) -> Seq<Seq<usize>> {
    ts.map_values(|t: Vec<usize>| t@)
}

/// The total number of times over all timelines.
pub open spec fn total_len(ts: Seq<Seq<usize>>) -> nat
    decreases ts.len(),
{
    if ts.len() == 0 {
        0
    } else {
        total_len(ts.drop_last()) + ts.last().len()
    }
}

/// The number of records of `rs` on channels below `n`.
pub open spec fn channel_total(rs: Seq<(usize, usize)>, origin: int, n: int) -> nat
    decreases n,
{
    if n <= 0 {
        0
    } else {
        channel_total(rs, origin, n - 1) + channel_times(rs, n - 1, origin).len()
    }
}

proof fn lemma_channel_total_step(rs: Seq<(usize, usize)>, origin: int, n: int)
    requires
        rs.len() > 0,
        n >= 0,
    ensures
        channel_total(rs, origin, n) == channel_total(rs.drop_last(), origin, n)
            + if rs.last().0 < n { 1nat } else { 0nat },
    decreases n,
{
    if n > 0 {
        lemma_channel_total_step(rs, origin, n - 1);
    }
}

proof fn lemma_channel_total_empty(rs: Seq<(usize, usize)>, origin: int, n: int)
    requires
        rs.len() == 0,
    ensures
        channel_total(rs, origin, n) == 0,
    decreases n,
{
    if n > 0 {
        lemma_channel_total_empty(rs, origin, n - 1);
    }
}

proof fn lemma_channel_total_all(rs: Seq<(usize, usize)>, origin: int, n: int)
    requires
        n >= 0,
        forall|j: int| 0 <= j < rs.len() ==> (#[trigger] rs[j]).0 < n,
    ensures
        channel_total(rs, origin, n) == rs.len(),
    decreases rs.len(),
{
    if rs.len() > 0 {
        let t = rs.drop_last();
        assert forall|j: int| 0 <= j < t.len() implies (#[trigger] t[j]).0 < n by {
            assert(t[j] == rs[j]);
        }
        lemma_channel_total_all(t, origin, n);
        lemma_channel_total_step(rs, origin, n);
        assert(rs.last() == rs[rs.len() - 1]);
    } else {
        lemma_channel_total_empty(rs, origin, n);
    }
}

proof fn lemma_total_len_prefix(ts: Seq<Seq<usize>>, rs: Seq<(usize, usize)>, origin: int, m: int)
    requires
        0 <= m <= ts.len(),
        forall|c: int| 0 <= c < ts.len() ==> (#[trigger] ts[c]).len() == channel_times(rs, c, origin).len(),
    ensures
        total_len(ts.take(m)) == channel_total(rs, origin, m),
    decreases m,
{
    if m > 0 {
        assert(ts.take(m).drop_last() =~= ts.take(m - 1));
        lemma_total_len_prefix(ts, rs, origin, m - 1);
        assert(ts.take(m).last() == ts[m - 1]);
    }
}

/// Splitting a batch neither loses nor invents records: the timelines, the trigger
/// channel's included, hold as many times in all as there are routed records.
pub proof fn law_records_conserved(records: Seq<(usize, usize)>, trigger_channel: usize, tolerance: int, ts: Seq<Seq<usize>>)
    requires
        has_trigger(records, trigger_channel),
        routable(records, trigger_channel, tolerance),
        demultiplexed(records, trigger_channel, tolerance, ts),
    ensures
        total_len(ts) == routed(records, trigger_channel, tolerance).len(),
{
    let rs = routed(records, trigger_channel, tolerance);
    let origin = records[0].1 as int;
    assert forall|c: int| 0 <= c < ts.len() implies (#[trigger] ts[c]).len() == channel_times(rs, c, origin).len() by {
        assert(ts[c].to_multiset().len() == ts[c].len());
        assert(channel_times(rs, c, origin).to_multiset().len() == channel_times(rs, c, origin).len());
    }
    lemma_timeline_count_covers(rs);
    lemma_total_len_prefix(ts, rs, origin, ts.len() as int);
    lemma_channel_total_all(rs, origin, ts.len() as int);
    assert(ts.take(ts.len() as int) =~= ts);
}

/// Relies on `slice::sort`: it leaves the values ascending and keeps each of them.
#[verifier::external_body]
fn sort_ascending(data: &mut Vec<usize>)
    ensures
        sorted(final(data)@),
        final(data)@.to_multiset() == old(data)@.to_multiset(),
{
    data.sort();
}

/// Brings a timeline into ascending order; one that is already ascending is left as it is.
pub fn sort_timeline(data: &mut Vec<usize>)
    ensures
        sorted(final(data)@),
        final(data)@.to_multiset() == old(data)@.to_multiset(),
        sorted(old(data)@) ==> final(data)@ == old(data)@,
{
    if !is_sorted(data) {
        sort_ascending(data);
    }
}

/// Reads the batch's time origin from its first record, which must be on the trigger
/// channel.
pub fn get_trigger(records: &Vec<(usize, usize)>, trigger_channel: usize) -> (r: Result<usize, SieveError>)
    ensures
        has_trigger(records@, trigger_channel) ==> r == Ok::<usize, SieveError>(records@[0].1),
        !has_trigger(records@, trigger_channel) ==> r == Err::<usize, SieveError>(SieveError::MissingTrigger),
{
    if records.len() == 0 {
        return Err(SieveError::MissingTrigger);
    }
    let (channel, event_time) = records[0];
    if channel == trigger_channel {
        Ok(event_time)
    } else {
        Err(SieveError::MissingTrigger)
    }
}

/// Skips, from the record after the trigger on, further triggers and records that come
/// `trigger_tolerance` ticks or more after `trigger`. Returns the index of the first
/// record kept, which is routed like those after it.
pub fn skip_false_counts(records: &Vec<(usize, usize)>, trigger_channel: usize, trigger: usize, trigger_tolerance: usize) -> (r: usize)
    ensures
        r == skip_end(records@, trigger_channel, trigger as int, trigger_tolerance as int, 1),
{
    let mut i: usize = 1;
    if records.len() == 0 {
        return 0;
    }
    while i < records.len()
        invariant
            1 <= i <= records.len(),
            skip_end(records@, trigger_channel, trigger as int, trigger_tolerance as int, i as int)
                == skip_end(records@, trigger_channel, trigger as int, trigger_tolerance as int, 1),
        decreases records.len() - i,
    {
        let (channel, event_time) = records[i];
        if channel != trigger_channel && (event_time < trigger || event_time - trigger < trigger_tolerance) {
            return i;
        }
        i = i + 1;
    }
    i
}

proof fn lemma_skip_end_bounds(records: Seq<(usize, usize)>, trigger_channel: usize, origin: int, tolerance: int, i: int)
    requires
        0 <= i <= records.len(),
    ensures
        i <= skip_end(records, trigger_channel, origin, tolerance, i) <= records.len(),
    decreases records.len() - i,
{
    if i < records.len() && is_noise(records[i], trigger_channel, origin, tolerance) {
        lemma_skip_end_bounds(records, trigger_channel, origin, tolerance, i + 1);
    }
}

/// Splits a batch of `(channel, timestamp)` records into one timeline per channel.
/// The first record must be on the trigger channel; its timestamp is the origin. After
/// it, further triggers and records `trigger_tolerance` ticks or more after the origin
/// are skipped up to the first record that is neither; that record and all after it are
/// routed, as times relative to the origin, to their channel's timeline, and each
/// timeline is then brought into ascending order. There is a timeline for every channel
/// up to the largest routed channel id, and at least `NUMBER_OF_CHANNELS` of them.
pub fn sieve(records: &Vec<(usize, usize)>, trigger_channel: usize, trigger_tolerance: usize) -> (r: Result<Vec<Vec<usize>>, SieveError>)
    requires
        forall|j: int| 0 <= j < records.len() ==> (#[trigger] records@[j]).0 < usize::MAX,
    ensures
        !has_trigger(records@, trigger_channel) ==> r == Err::<Vec<Vec<usize>>, SieveError>(SieveError::MissingTrigger),
        has_trigger(records@, trigger_channel) && !routable(records@, trigger_channel, trigger_tolerance as int)
            ==> r == Err::<Vec<Vec<usize>>, SieveError>(SieveError::InputFormat),
        has_trigger(records@, trigger_channel) && routable(records@, trigger_channel, trigger_tolerance as int) ==> (r matches Ok(ts)
            && demultiplexed(records@, trigger_channel, trigger_tolerance as int, timelines_view(ts@))),
{
    let trigger: usize = match get_trigger(records, trigger_channel) {
        Ok(t) => t,
        Err(e) => return Err(e),
    };
    let ghost origin = trigger as int;
    let ghost tol = trigger_tolerance as int;
    let start: usize = skip_false_counts(records, trigger_channel, trigger, trigger_tolerance);
    let n: usize = records.len();
    proof {
        lemma_skip_end_bounds(records@, trigger_channel, origin, tol, 1);
    }
    let ghost rs = routed(records@, trigger_channel, tol);
    assert(rs =~= records@.subrange(start as int, n as int));

    let mut count: usize = NUMBER_OF_CHANNELS;
    let mut j: usize = start;
    assert(records@.subrange(start as int, start as int) =~= Seq::<(usize, usize)>::empty());
    while j < n
        invariant
            n == records.len(),
            start <= j <= n,
            forall|k: int| 0 <= k < records.len() ==> (#[trigger] records@[k]).0 < usize::MAX,
            count == timeline_count(records@.subrange(start as int, j as int)),
            rs == records@.subrange(start as int, n as int),
            rs == routed(records@, trigger_channel, tol),
            has_trigger(records@, trigger_channel),
            records@[0].1 == trigger,
            tol == trigger_tolerance,
            origin == trigger,
            forall|k: int| start <= k < j ==> well_formed(#[trigger] records@[k], origin),
        decreases n - j,
    {
        let (channel, event_time) = records[j];
        proof {
            let sub = records@.subrange(start as int, j + 1);
            assert(sub.drop_last() =~= records@.subrange(start as int, j as int));
            assert(sub.last() == records@[j as int]);
        }
        if event_time < trigger {
            assert(rs[j - start] == records@[j as int]);
            assert(!well_formed(rs[j - start], origin));
            assert(!routable(records@, trigger_channel, tol));
            return Err(SieveError::InputFormat);
        }
        if channel + 1 > count {
            count = channel + 1;
        }
        j = j + 1;
    }
    assert(routable(records@, trigger_channel, tol)) by {
        assert forall|k: int| 0 <= k < rs.len() implies well_formed(#[trigger] rs[k], origin) by {
            assert(rs[k] == records@[start + k]);
        }
    }

    let mut timelines: Vec<Vec<usize>> = Vec::new();
    let mut c: usize = 0;
    while c < count
        invariant
            count == timeline_count(rs),
            n == records.len(),
            start <= n,
            rs == records@.subrange(start as int, n as int),
            origin == trigger,
            forall|k: int| start <= k < n ==> well_formed(#[trigger] records@[k], origin),
            c <= count,
            timelines.len() == c,
            forall|d: int| 0 <= d < c ==> {
                let times = channel_times(rs, d, origin);
                &&& sorted((#[trigger] timelines@[d])@)
                &&& timelines@[d]@.to_multiset() == times.to_multiset()
                &&& sorted(times) ==> timelines@[d]@ == times
            },
        decreases count - c,
    {
        let mut timeline: Vec<usize> = Vec::new();
        let mut j: usize = start;
        assert(records@.subrange(start as int, start as int) =~= Seq::<(usize, usize)>::empty());
        while j < n
            invariant
                n == records.len(),
                start <= j <= n,
                origin == trigger,
                forall|k: int| start <= k < n ==> well_formed(#[trigger] records@[k], origin),
                timeline@ == channel_times(records@.subrange(start as int, j as int), c as int, origin),
            decreases n - j,
        {
            let (channel, event_time) = records[j];
            proof {
                let sub = records@.subrange(start as int, j + 1);
                assert(sub.drop_last() =~= records@.subrange(start as int, j as int));
                assert(sub.last() == records@[j as int]);
                assert(well_formed(records@[j as int], origin));
            }
            if channel == c {
                timeline.push(event_time - trigger);
            }
            j = j + 1;
        }
        sort_timeline(&mut timeline);
        timelines.push(timeline);
        c = c + 1;
    }
    proof {
        let view = timelines_view(timelines@);
        assert forall|d: int| 0 <= d < count implies view[d] == (#[trigger] timelines@[d])@ by {}
    }
    Ok(timelines)
}

} // verus!

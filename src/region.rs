//! The region: one log stream made of ordered segments. It assigns sequence
//! numbers, rotates segments, serves range reads and enforces retention.
use vstd::prelude::*;
use vstd::slice::slice_to_vec;

use crate::record::{fits, Error, RecordEncoding};
use crate::segment::{records_of, scan_from, Segment};

verus! {

/// Lifecycle of a region.
#[derive(Debug, Clone, Copy, PartialEq, Eq, Structural)]
pub enum RegionState {
    Active,
    Closed,
    Fatal,
}

#[derive(Debug, Clone, Copy, PartialEq, Eq)]
pub enum RegionError {
    /// The record could not be framed.
    Record(Error),
    /// The requested sequence range is not readable.
    RangeError { from: u64, to: u64 },
    /// The region failed beyond repair; it has to be reopened.
    RegionFatal,
    /// The region was closed.
    Closed,
    /// Every sequence number has been assigned.
    SequenceExhausted,
}

/// One entry of a range read: its sequence number, key and value.
pub type Entry = (u64, Vec<u8>, Vec<u8>);

pub struct Region {
    segments: Vec<Segment>,
    high_watermark: u64,
    low_watermark: u64,
    rotation_threshold: usize,
    state: RegionState,
    log: Ghost<Seq<(Seq<u8>, Seq<u8>)>>,
}

/// Where `x` falls inside `[lo, hi]`.
pub open spec fn clamp(x: int, lo: int, hi: int) -> int {
    if x < lo {
        lo
    } else if x > hi {
        hi
    } else {
        x
    }
}


/// Segments that each hold their frames, follow one another without a gap in
/// identifiers or sequence numbers, end at `high`, start at or below `low`,
/// and hold the entries of `log` at their sequence numbers.
pub closed spec fn segments_wf(
    segs: Seq<Segment>,
    log: Seq<(Seq<u8>, Seq<u8>)>,
    high: u64,
    low: u64,
) -> bool {
    &&& segs.len() >= 1
    &&& forall|i: int| 0 <= i < segs.len() ==> (#[trigger] segs[i]).wf()
    &&& forall|i: int|
        0 <= i < segs.len() - 1 ==> (#[trigger] segs[i]).end_seq() == segs[i + 1].start_seq()
            && segs[i].id() < segs[i + 1].id()
    &&& segs[segs.len() - 1].end_seq() == high
    &&& segs[0].start_seq() <= low <= high
    &&& log.len() == high
    &&& forall|i: int, j: int|
        0 <= i < segs.len() && 0 <= j < segs[i].entries().len() ==> #[trigger] segs[i].entries()[j]
            == log[segs[i].start_seq() + j]
}


pub proof fn lemma_push_segment(
    segs: Seq<Segment>,
    log: Seq<(Seq<u8>, Seq<u8>)>,
    high: u64,
    low: u64,
    s: Segment,
)
    requires
        (segs.len() == 0 && log.len() == high && low == high) || segments_wf(segs, log, high, low),
        s.wf(),
        s.start_seq() == high,
        segs.len() > 0 ==> s.id() > segs[segs.len() - 1].id(),
        high + s.entries().len() <= u64::MAX,
    ensures
        segments_wf(segs.push(s), log + s.entries(), (high + s.entries().len()) as u64, low),
{
    let t = segs.push(s);
    let l = log + s.entries();
    assert forall|i: int, j: int|
        0 <= i < t.len() && 0 <= j < t[i].entries().len() implies #[trigger] t[i].entries()[j]
        == l[t[i].start_seq() + j] by {
        if i < segs.len() {
            assert(segs[i].entries()[j] == log[segs[i].start_seq() + j]);
            lemma_ends_ordered(segs, log, high, low, i);
        }
    }
    assert forall|i: int| 0 <= i < t.len() - 1 implies (#[trigger] t[i]).end_seq() == t[i + 1].start_seq()
        && t[i].id() < t[i + 1].id() by {
        if i < segs.len() - 1 {
            assert(segs[i].end_seq() == segs[i + 1].start_seq());
        }
    }
    assert forall|i: int| 0 <= i < t.len() implies (#[trigger] t[i]).wf() by {
        if i < segs.len() {
            assert(segs[i].wf());
        }
    }
}

proof fn lemma_update_last(
    segs: Seq<Segment>,
    log: Seq<(Seq<u8>, Seq<u8>)>,
    high: u64,
    low: u64,
    s: Segment,
    e: (Seq<u8>, Seq<u8>),
)
    requires
        segments_wf(segs, log, high, low),
        high < u64::MAX,
        s.wf(),
        s.id() == segs[segs.len() - 1].id(),
        s.start_seq() == segs[segs.len() - 1].start_seq(),
        s.entries() == segs[segs.len() - 1].entries().push(e),
    ensures
        segments_wf(segs.update(segs.len() - 1, s), log.push(e), (high + 1) as u64, low),
{
    let n = segs.len() - 1;
    let t = segs.update(n, s);
    let l = log.push(e);
    assert forall|i: int, j: int|
        0 <= i < t.len() && 0 <= j < t[i].entries().len() implies #[trigger] t[i].entries()[j]
        == l[t[i].start_seq() + j] by {
        if i < n {
            assert(t[i] == segs[i]);
            assert(segs[i].entries()[j] == log[segs[i].start_seq() + j]);
            assert(segs[i].start_seq() + j < high) by {
                if i < n - 1 {
                    assert(segs[i].end_seq() <= segs[n].start_seq()) by {
                        lemma_ends_ordered(segs, log, high, low, i);
                    }
                }
            }
        } else {
            assert(t[i] == s);
            if j < segs[n].entries().len() {
                assert(s.entries()[j] == segs[n].entries()[j]);
                assert(segs[n].entries()[j] == log[segs[n].start_seq() + j]);
            } else {
                assert(s.entries()[j] == e);
            }
        }
    }
    assert forall|i: int| 0 <= i < t.len() - 1 implies (#[trigger] t[i]).end_seq() == t[i + 1].start_seq()
        && t[i].id() < t[i + 1].id() by {
        assert(segs[i].end_seq() == segs[i + 1].start_seq());
    }
    assert forall|i: int| 0 <= i < t.len() implies (#[trigger] t[i]).wf() by {
        if i < n {
            assert(segs[i].wf());
        }
    }
}


proof fn lemma_ends_monotone(
    segs: Seq<Segment>,
    log: Seq<(Seq<u8>, Seq<u8>)>,
    high: u64,
    low: u64,
    i: int,
    j: int,
)
    requires
        segments_wf(segs, log, high, low),
        0 <= i <= j < segs.len(),
    ensures
        segs[i].end_seq() <= segs[j].end_seq(),
    decreases j - i,
{
    if i < j {
        lemma_ends_monotone(segs, log, high, low, i + 1, j);
        assert(segs[i].end_seq() == segs[i + 1].start_seq());
    }
}

proof fn lemma_ends_ordered(
    segs: Seq<Segment>,
    log: Seq<(Seq<u8>, Seq<u8>)>,
    high: u64,
    low: u64,
    i: int,
)
    requires
        segments_wf(segs, log, high, low),
        0 <= i < segs.len(),
    ensures
        segs[i].end_seq() <= segs[segs.len() - 1].start_seq() || i == segs.len() - 1,
        segs[i].end_seq() <= high,
    decreases segs.len() - i,
{
    if i < segs.len() - 1 {
        lemma_ends_ordered(segs, log, high, low, i + 1);
        assert(segs[i].end_seq() == segs[i + 1].start_seq());
    }
}

proof fn lemma_push_empty(
    segs: Seq<Segment>,
    log: Seq<(Seq<u8>, Seq<u8>)>,
    high: u64,
    low: u64,
    s: Segment,
)
    requires
        segments_wf(segs, log, high, low),
        s.wf(),
        s.id() > segs[segs.len() - 1].id(),
        s.start_seq() == high,
        s.entries().len() == 0,
    ensures
        segments_wf(segs.push(s), log, high, low),
{
    let t = segs.push(s);
    assert forall|i: int, j: int|
        0 <= i < t.len() && 0 <= j < t[i].entries().len() implies #[trigger] t[i].entries()[j]
        == log[t[i].start_seq() + j] by {
        assert(segs[i].entries()[j] == log[segs[i].start_seq() + j]);
    }
    assert forall|i: int| 0 <= i < t.len() - 1 implies (#[trigger] t[i]).end_seq() == t[i + 1].start_seq()
        && t[i].id() < t[i + 1].id() by {
        if i < segs.len() - 1 {
            assert(segs[i].end_seq() == segs[i + 1].start_seq());
        }
    }
}


proof fn lemma_raise_low(
    segs: Seq<Segment>,
    log: Seq<(Seq<u8>, Seq<u8>)>,
    high: u64,
    low: u64,
    low2: u64,
)
    requires
        segments_wf(segs, log, high, low),
        low <= low2 <= high,
    ensures
        segments_wf(segs, log, high, low2),
{
}

proof fn lemma_drop_first(segs: Seq<Segment>, log: Seq<(Seq<u8>, Seq<u8>)>, high: u64, low: u64)
    requires
        segments_wf(segs, log, high, low),
        segs.len() > 1,
        segs[1].start_seq() <= low,
    ensures
        segments_wf(segs.subrange(1, segs.len() as int), log, high, low),
{
    let t = segs.subrange(1, segs.len() as int);
    assert forall|i: int, j: int|
        0 <= i < t.len() && 0 <= j < t[i].entries().len() implies #[trigger] t[i].entries()[j]
        == log[t[i].start_seq() + j] by {
        assert(t[i] == segs[i + 1]);
        assert(segs[i + 1].entries()[j] == log[segs[i + 1].start_seq() + j]);
    }
    assert forall|i: int| 0 <= i < t.len() - 1 implies (#[trigger] t[i]).end_seq() == t[i + 1].start_seq()
        && t[i].id() < t[i + 1].id() by {
        assert(segs[i + 1].end_seq() == segs[i + 2].start_seq());
    }
    assert forall|i: int| 0 <= i < t.len() implies (#[trigger] t[i]).wf() by {
        assert(segs[i + 1].wf());
    }
}

impl Region {
    /// Every entry ever appended, indexed by sequence number; those below
    /// the first segment are no longer held.
    pub closed spec fn log(&self) -> Seq<(Seq<u8>, Seq<u8>)> {
        self.log@
    }

    /// The next sequence number to assign.
    pub closed spec fn high(&self) -> u64 {
        self.high_watermark
    }

    /// The lowest retained sequence number.
    pub closed spec fn low(&self) -> u64 {
        self.low_watermark
    }

    pub closed spec fn spec_state(&self) -> RegionState {
        self.state
    }

    /// The size above which the active segment is sealed.
    pub closed spec fn threshold(&self) -> usize {
        self.rotation_threshold
    }

    /// The segments, oldest first; the last one is the active segment.
    pub closed spec fn segs(&self) -> Seq<Segment> {
        self.segments@
    }

    /// Identifier, first sequence number and end sequence number of each
    /// segment, oldest first.
    pub open spec fn spans(&self) -> Seq<(u64, u64, int)> {
        self.segs().map_values(|s: Segment| (s.id(), s.start_seq(), s.end_seq()))
    }

    pub closed spec fn wf(&self) -> bool {
        segments_wf(self.segments@, self.log@, self.high_watermark, self.low_watermark)
    }

    /// An empty region whose only segment is the active segment 0.
    pub fn new(rotation_threshold: usize) -> (r: Region)
        ensures
            r.wf(),
            r.log() == Seq::<(Seq<u8>, Seq<u8>)>::empty(),
            r.high() == 0,
            r.low() == 0,
            r.state() == RegionState::Active,
            r.threshold() == rotation_threshold,
            r.spans() == seq![(0u64, 0u64, 0int)],
    {
        let mut segments: Vec<Segment> = Vec::new();
        segments.push(Segment::new(0, 0));
        let r = Region {
            segments,
            high_watermark: 0,
            low_watermark: 0,
            rotation_threshold,
            state: RegionState::Active,
            log: Ghost(Seq::empty()),
        };
        assert(r.spans() =~= seq![(0u64, 0u64, 0int)]);
        r
    }

    pub fn high_watermark(&self) -> (r: u64)
        ensures
            r == self.high(),
    {
        self.high_watermark
    }

    pub fn low_watermark(&self) -> (r: u64)
        ensures
            r == self.low(),
    {
        self.low_watermark
    }

    #[verifier::when_used_as_spec(spec_state)]
    pub fn state(&self) -> (r: RegionState)
        ensures
            r == self.spec_state(),
    {
        self.state
    }

    /// The number of segments.
    pub fn segment_count(&self) -> (r: usize)
        ensures
            r == self.segs().len(),
    {
        self.segments.len()
    }

    /// What `delete_up_to(seq)` leaves of `before` when it drops the `k`
    /// oldest segments.
    pub open spec fn retained(before: &Region, after: &Region, seq: u64, k: int) -> bool {
        let n = before.spans().len();
        &&& 0 <= k < n
        &&& after.spans() == before.spans().subrange(k, n as int)
        &&& forall|i: int| 0 <= i < k ==> (#[trigger] before.spans()[i]).2 <= seq
        &&& (k == n - 1 || before.spans()[k].2 > seq)
        &&& after.low() == if before.low() < seq {
            seq
        } else {
            before.low()
        }
        &&& after.log() == before.log()
        &&& after.high() == before.high()
        &&& after.state() == before.state()
        &&& after.threshold() == before.threshold()
    }

    /// Whether `read(from, to)` serves the range.
    pub open spec fn readable(&self, from: u64, to: u64) -> bool {
        self.state() == RegionState::Active && self.low() <= from <= to <= self.high()
    }

    /// Retention: `delete_up_to(seq)` drops exactly the oldest segments whose
    /// entries all lie below `seq`, keeping the active one; afterwards a read
    /// that starts below the new low watermark is refused, and one that starts
    /// at or above it and ends at or below the high watermark is served.
    pub proof fn lemma_retention(before: &Region, after: &Region, seq: u64, k: int)
        requires
            before.wf(),
            Self::retained(before, after, seq, k),
            before.state() == RegionState::Active,
        ensures
            forall|i: int|
                0 <= i < before.spans().len() - 1 ==> (i < k <==> (#[trigger] before.spans()[i]).2
                    <= seq),
            forall|from: u64, to: u64| from < seq ==> !(#[trigger] after.readable(from, to)),
            forall|from: u64, to: u64|
                after.low() <= from <= to <= after.high() ==> #[trigger] after.readable(from, to),
    {
        let segs = before.segments@;
        assert forall|i: int| 0 <= i < before.spans().len() - 1 implies (i < k <==> (
        #[trigger] before.spans()[i]).2 <= seq) by {
            if i >= k {
                lemma_ends_monotone(segs, before.log@, before.high_watermark, before.low_watermark, k, i);
            }
        }
    }

    /// Whether two regions hold the same entries, watermarks, state and
    /// segments.
    pub open spec fn same(a: &Region, b: &Region) -> bool {
        &&& a.log() == b.log()
        &&& a.high() == b.high()
        &&& a.low() == b.low()
        &&& a.state() == b.state()
        &&& a.threshold() == b.threshold()
        &&& a.spans() == b.spans()
    }

    /// Appends an entry to the active segment and returns its sequence
    /// number, the high watermark before the call. When the active segment
    /// then holds more bytes than the threshold, it is sealed and an empty
    /// active segment follows it, with the next identifier.
    pub fn append(&mut self, key: &[u8], value: &[u8]) -> (r: Result<u64, RegionError>)
        requires
            old(self).wf(),
        ensures
            final(self).wf(),
            old(self).state() == RegionState::Closed ==> r == Err::<u64, RegionError>(
                RegionError::Closed,
            ),
            old(self).state() == RegionState::Fatal ==> r == Err::<u64, RegionError>(
                RegionError::RegionFatal,
            ),
            old(self).state() == RegionState::Active && old(self).high() == u64::MAX ==> r == Err::<
                u64,
                RegionError,
            >(RegionError::SequenceExhausted),
            old(self).state() == RegionState::Active && old(self).high() < u64::MAX && !fits(
                key@,
                value@,
            ) ==> r == Err::<u64, RegionError>(
                RegionError::Record(
                    Error::Encoding {
                        key_len: key@.len() as usize,
                        value_len: value@.len() as usize,
                    },
                ),
            ),
            r is Err ==> Self::same(&*final(self), &*old(self)),
            old(self).state() == RegionState::Active && old(self).high() < u64::MAX && fits(
                key@,
                value@,
            ) ==> r == Ok::<u64, RegionError>(old(self).high()),
            r is Ok ==> {
                let n = old(self).spans().len();
                let last = old(self).spans()[n - 1];
                &&& final(self).log() == old(self).log().push((key@, value@))
                &&& final(self).high() == old(self).high() + 1
                &&& final(self).low() == old(self).low()
                &&& final(self).state() == old(self).state()
                &&& final(self).threshold() == old(self).threshold()
                &&& final(self).spans().subrange(0, n - 1) == old(self).spans().subrange(0, n - 1)
                &&& final(self).spans()[n - 1] == (last.0, last.1, last.2 + 1)
                &&& if final(self).segs()[n - 1].bytes().len() > old(self).threshold() && last.0
                    < u64::MAX {
                    final(self).spans().len() == n + 1 && final(self).spans()[n as int] == (
                        (last.0 + 1) as u64,
                        final(self).high(),
                        final(self).high() as int,
                    )
                } else {
                    final(self).spans().len() == n
                }
            },
    {
        if self.state == RegionState::Closed {
            return Err(RegionError::Closed);
        }
        if self.state == RegionState::Fatal {
            return Err(RegionError::RegionFatal);
        }
        if self.high_watermark == u64::MAX {
            return Err(RegionError::SequenceExhausted);
        }
        let ghost old_segs = self.segments@;
        let n = self.segments.len();
        let mut seg = self.segments.pop().unwrap();
        assert(self.segments@ =~= old_segs.subrange(0, n - 1));
        match seg.append(key, value) {
            Ok(_) => {},
            Err(e) => {
                self.segments.push(seg);
                assert(self.segments@ =~= old_segs);
                return Err(RegionError::Record(e));
            },
        }
        let seq = self.high_watermark;
        proof {
            lemma_update_last(old_segs, self.log@, seq, self.low_watermark, seg, (key@, value@));
        }
        self.high_watermark = seq + 1;
        self.log = Ghost(self.log@.push((key@, value@)));
        let rotate = seg.size() > self.rotation_threshold && seg.id() < u64::MAX;
        let next_id = if rotate {
            seg.id() + 1
        } else {
            0
        };
        self.segments.push(seg);
        assert(self.segments@ =~= old_segs.update(n - 1, seg));
        let ghost mid = self.segments@;
        if rotate {
            let fresh = Segment::new(next_id, self.high_watermark);
            proof {
                lemma_push_empty(mid, self.log@, self.high_watermark, self.low_watermark, fresh);
            }
            self.segments.push(fresh);
        }
        proof {
            assert(self.spans().subrange(0, n - 1) =~= old(self).spans().subrange(0, n - 1));
        }
        Ok(seq)
    }

    /// The entries with sequence numbers `from .. to`, in order, copied out.
    /// A range that starts below the low watermark, ends above the high
    /// watermark or is reversed is refused.
    pub fn read(&self, from: u64, to: u64) -> (r: Result<Vec<Entry>, RegionError>)
        requires
            self.wf(),
        ensures
            self.state() == RegionState::Closed ==> r == Err::<Vec<Entry>, RegionError>(
                RegionError::Closed,
            ),
            self.state() == RegionState::Fatal ==> r == Err::<Vec<Entry>, RegionError>(
                RegionError::RegionFatal,
            ),
            r is Ok <==> self.readable(from, to),
            self.state() == RegionState::Active && r is Err ==> r == Err::<Vec<Entry>, RegionError>(
                RegionError::RangeError { from, to },
            ),
            r matches Ok(out) ==> {
                &&& out@.len() == to - from
                &&& forall|k: int|
                    0 <= k < out@.len() ==> (#[trigger] out@[k]).0 == from + k && out@[k].1@
                        == self.log()[from + k].0 && out@[k].2@ == self.log()[from + k].1
            },
    {
        if self.state == RegionState::Closed {
            return Err(RegionError::Closed);
        }
        if self.state == RegionState::Fatal {
            return Err(RegionError::RegionFatal);
        }
        if from < self.low_watermark || to > self.high_watermark || from > to {
            return Err(RegionError::RangeError { from, to });
        }
        let ghost segs = self.segments@;
        let ghost log = self.log@;
        let encoding = RecordEncoding::newest();
        let mut out: Vec<Entry> = Vec::new();
        let mut i: usize = 0;
        while i < self.segments.len()
            invariant
                self.wf(),
                segs == self.segments@,
                log == self.log@,
                encoding.version() == crate::record::NEWEST_RECORD_ENCODING_VERSION,
                self.low_watermark <= from <= to <= self.high_watermark,
                0 <= i <= segs.len(),
                out@.len() == clamp(
                    if i < segs.len() {
                        segs[i as int].start_seq() as int
                    } else {
                        self.high_watermark as int
                    },
                    from as int,
                    to as int,
                ) - from,
                forall|k: int|
                    0 <= k < out@.len() ==> (#[trigger] out@[k]).0 == from + k && out@[k].1@
                        == log[from + k].0 && out@[k].2@ == log[from + k].1,
            decreases segs.len() - i,
        {
            let seg = &self.segments[i];
            let (recs, _) = scan_from(&encoding, seg.data(), 0);
            let start = seg.start_seq();
            proof {
                assert(seg.wf());
                seg.lemma_contents();
                lemma_ends_ordered(segs, log, self.high_watermark, self.low_watermark, i as int);
                assert(recs@.len() == seg.entries().len()) by {
                    assert(crate::segment::views(recs@).len() == recs@.len());
                }
            }
            let mut j: usize = 0;
            while j < recs.len()
                invariant
                    self.wf(),
                    segs == self.segments@,
                    log == self.log@,
                    0 <= i < segs.len(),
                    seg == segs[i as int],
                    start == seg.start_seq(),
                    seg.end_seq() <= self.high_watermark,
                    crate::segment::views(recs@) == records_of(seg.entries()),
                    recs@.len() == seg.entries().len(),
                    0 <= j <= recs@.len(),
                    self.low_watermark <= from <= to <= self.high_watermark,
                    out@.len() == clamp(start + j, from as int, to as int) - from,
                    forall|k: int|
                        0 <= k < out@.len() ==> (#[trigger] out@[k]).0 == from + k && out@[k].1@
                            == log[from + k].0 && out@[k].2@ == log[from + k].1,
                decreases recs@.len() - j,
            {
                let seq = start + j as u64;
                if from <= seq && seq < to {
                    proof {
                        assert(crate::segment::views(recs@)[j as int] == recs@[j as int]@);
                        assert(seg.entries()[j as int] == log[seg.start_seq() + j]);
                    }
                    let key = slice_to_vec(recs[j].key);
                    let value = slice_to_vec(recs[j].value);
                    out.push((seq, key, value));
                }
                j = j + 1;
            }
            proof {
                if i + 1 < segs.len() {
                    assert(segs[i as int].end_seq() == segs[i + 1].start_seq());
                }
            }
            i = i + 1;
        }
        Ok(out)
    }

    /// Drops every segment whose entries all lie below `seq`, never the
    /// active segment, raises the low watermark to `seq` if it is below, and
    /// returns how many segments were dropped: they are the oldest ones. A
    /// `seq` above the high watermark is refused.
    pub fn delete_up_to(&mut self, seq: u64) -> (r: Result<usize, RegionError>)
        requires
            old(self).wf(),
        ensures
            final(self).wf(),
            old(self).state() == RegionState::Closed ==> r == Err::<usize, RegionError>(
                RegionError::Closed,
            ),
            old(self).state() == RegionState::Fatal ==> r == Err::<usize, RegionError>(
                RegionError::RegionFatal,
            ),
            old(self).state() == RegionState::Active && seq > old(self).high() ==> r == Err::<
                usize,
                RegionError,
            >(RegionError::RangeError { from: seq, to: old(self).high() }),
            r is Err ==> Self::same(&*final(self), &*old(self)),
            old(self).state() == RegionState::Active && seq <= old(self).high() ==> r is Ok,
            r matches Ok(k) ==> Self::retained(&*old(self), &*final(self), seq, k as int),
    {
        if self.state == RegionState::Closed {
            return Err(RegionError::Closed);
        }
        if self.state == RegionState::Fatal {
            return Err(RegionError::RegionFatal);
        }
        if seq > self.high_watermark {
            return Err(RegionError::RangeError { from: seq, to: self.high_watermark });
        }
        let ghost old_segs = self.segments@;
        let n = self.segments.len();
        if self.low_watermark < seq {
            proof {
                lemma_raise_low(self.segments@, self.log@, self.high_watermark, self.low_watermark, seq);
            }
            self.low_watermark = seq;
        }
        let mut k: usize = 0;
        while self.segments.len() > 1 && self.segments[1].start_seq() <= seq
            invariant
                segments_wf(self.segments@, self.log@, self.high_watermark, self.low_watermark),
                self.log@ == old(self).log@,
                self.high_watermark == old(self).high_watermark,
                self.state == old(self).state,
                self.rotation_threshold == old(self).rotation_threshold,
                self.low_watermark == if old(self).low_watermark < seq {
                    seq
                } else {
                    old(self).low_watermark
                },
                old_segs == old(self).segments@,
                n == old_segs.len(),
                0 <= k < n,
                self.segments@ == old_segs.subrange(k as int, n as int),
                forall|i: int| 0 <= i < k ==> (#[trigger] old_segs[i]).end_seq() <= seq,
            decreases self.segments@.len(),
        {
            proof {
                let segs = self.segments@;
                assert(segs[0].end_seq() == segs[1].start_seq());
                lemma_drop_first(segs, self.log@, self.high_watermark, self.low_watermark);
            }
            self.segments.remove(0);
            k = k + 1;
            assert(self.segments@ =~= old_segs.subrange(k as int, n as int));
        }
        proof {
            assert(self.segments@.len() == n - k);
            assert(self.segments@[0] == old_segs[k as int]);
            if k < n - 1 {
                assert(self.segments@[0].end_seq() == self.segments@[1].start_seq());
                assert(old(self).spans()[k as int].2 == old_segs[k as int].end_seq());
            }
            assert(self.spans() =~= old(self).spans().subrange(k as int, n as int));
            assert forall|i: int| 0 <= i < k implies (#[trigger] old(self).spans()[i]).2 <= seq by {
                assert(old_segs[i].end_seq() <= seq);
            }
            assert(k < old(self).spans().len());
            assert(k == n - 1 || old(self).spans()[k as int].2 > seq);
        }
        Ok(k)
    }

    /// Accepts no further operation.
    pub fn close(&mut self) -> (r: Result<(), RegionError>)
        requires
            old(self).wf(),
        ensures
            final(self).wf(),
            old(self).state() == RegionState::Active ==> r is Ok && final(self).state()
                == RegionState::Closed,
            old(self).state() == RegionState::Closed ==> r == Err::<(), RegionError>(
                RegionError::Closed,
            ),
            old(self).state() == RegionState::Fatal ==> r == Err::<(), RegionError>(
                RegionError::RegionFatal,
            ),
            r is Err ==> final(self).state() == old(self).state(),
            final(self).log() == old(self).log(),
            final(self).high() == old(self).high(),
            final(self).low() == old(self).low(),
            final(self).spans() == old(self).spans(),
    {
        match self.state {
            RegionState::Active => {
                self.state = RegionState::Closed;
                Ok(())
            },
            RegionState::Closed => Err(RegionError::Closed),
            RegionState::Fatal => Err(RegionError::RegionFatal),
        }
    }

    /// Moves the region to the fatal state after a failure of the storage
    /// that it cannot recover from; every later operation fails.
    pub fn mark_fatal(&mut self)
        requires
            old(self).wf(),
        ensures
            final(self).wf(),
            final(self).state() == RegionState::Fatal,
            final(self).log() == old(self).log(),
            final(self).high() == old(self).high(),
            final(self).low() == old(self).low(),
            final(self).spans() == old(self).spans(),
    {
        self.state = RegionState::Fatal;
    }

    /// Appends the entries in order as one unit and returns their sequence
    /// numbers, consecutive from the high watermark. If one entry cannot be
    /// framed, or the sequence numbers would run out, nothing is appended.
    pub fn append_batch(&mut self, entries: &Vec<(Vec<u8>, Vec<u8>)>) -> (r: Result<
        Vec<u64>,
        RegionError,
    >)
        requires
            old(self).wf(),
        ensures
            final(self).wf(),
            old(self).state() == RegionState::Closed ==> r == Err::<Vec<u64>, RegionError>(
                RegionError::Closed,
            ),
            old(self).state() == RegionState::Fatal ==> r == Err::<Vec<u64>, RegionError>(
                RegionError::RegionFatal,
            ),
            old(self).state() == RegionState::Active && old(self).high() + entries@.len()
                > u64::MAX ==> r == Err::<Vec<u64>, RegionError>(RegionError::SequenceExhausted),
            old(self).state() == RegionState::Active && old(self).high() + entries@.len()
                <= u64::MAX ==> (r is Ok <==> forall|i: int|
                0 <= i < entries@.len() ==> fits(
                    (#[trigger] entries@[i]).0@,
                    entries@[i].1@,
                )),
            r is Err ==> Self::same(&*final(self), &*old(self)),
            r matches Ok(seqs) ==> {
                &&& seqs@.len() == entries@.len()
                &&& forall|i: int|
                    0 <= i < seqs@.len() ==> #[trigger] seqs@[i] == old(self).high() + i
                &&& final(self).log().len() == old(self).log().len() + entries@.len()
                &&& final(self).log().subrange(0, old(self).log().len() as int) == old(
                    self,
                ).log()
                &&& forall|i: int|
                    0 <= i < entries@.len() ==> #[trigger] final(self).log()[old(self).high() + i]
                        == (entries@[i].0@, entries@[i].1@)
                &&& final(self).high() == old(self).high() + entries@.len()
                &&& final(self).low() == old(self).low()
                &&& final(self).state() == old(self).state()
            },
    {
        if self.state == RegionState::Closed {
            return Err(RegionError::Closed);
        }
        if self.state == RegionState::Fatal {
            return Err(RegionError::RegionFatal);
        }
        let n = entries.len();
        if n as u64 > u64::MAX - self.high_watermark {
            return Err(RegionError::SequenceExhausted);
        }
        let mut i: usize = 0;
        while i < n
            invariant
                n == entries@.len(),
                0 <= i <= n,
                *self == *old(self),
                self.wf(),
                self.state == RegionState::Active,
                self.high_watermark + n <= u64::MAX,
                forall|k: int| 0 <= k < i ==> fits((#[trigger] entries@[k]).0@, entries@[k].1@),
            decreases n - i,
        {
            let key = entries[i].0.as_slice();
            let value = entries[i].1.as_slice();
            if key.len() as u64 > crate::record::MAX_FIELD - 8 || value.len() as u64
                > crate::record::MAX_FIELD - 8 - key.len() as u64 {
                return Err(
                    RegionError::Record(Error::Encoding { key_len: key.len(), value_len: value.len() }),
                );
            }
            i = i + 1;
        }
        let ghost start = self.high_watermark;
        let ghost old_log = self.log@;
        let mut seqs: Vec<u64> = Vec::new();
        let mut i: usize = 0;
        while i < n
            invariant
                self.wf(),
                n == entries@.len(),
                0 <= i <= n,
                forall|k: int| 0 <= k < n ==> fits((#[trigger] entries@[k]).0@, entries@[k].1@),
                start + n <= u64::MAX,
                self.high() == start + i,
                self.low() == old(self).low(),
                self.state() == RegionState::Active,
                self.log().len() == old_log.len() + i,
                old_log == old(self).log(),
                start == old(self).high(),
                self.log().subrange(0, old_log.len() as int) == old_log,
                forall|k: int| 0 <= k < i ==> #[trigger] self.log()[start + k] == (
                    entries@[k].0@,
                    entries@[k].1@,
                ),
                seqs@.len() == i,
                forall|k: int| 0 <= k < i ==> #[trigger] seqs@[k] == start + k,
            decreases n - i,
        {
            assert(fits(entries@[i as int].0@, entries@[i as int].1@));
            let ghost before = self.log();
            let seq = match self.append(entries[i].0.as_slice(), entries[i].1.as_slice()) {
                Ok(seq) => seq,
                Err(_) => {
                    return Err(RegionError::SequenceExhausted);
                },
            };
            seqs.push(seq);
            proof {
                assert(self.log() == before.push((entries@[i as int].0@, entries@[i as int].1@)));
                assert(self.log().subrange(0, old_log.len() as int) =~= old_log);
                assert forall|k: int| 0 <= k < i + 1 implies #[trigger] self.log()[start + k] == (
                    entries@[k].0@,
                    entries@[k].1@,
                ) by {
                    if k < i {
                        assert(before[start + k] == (entries@[k].0@, entries@[k].1@));
                    }
                }
            }
            i = i + 1;
        }
        Ok(seqs)
    }

    /// A region made of segments that satisfy the region's invariant.
    pub(crate) fn from_parts(
        segments: Vec<Segment>,
        high: u64,
        low: u64,
        rotation_threshold: usize,
        log: Ghost<Seq<(Seq<u8>, Seq<u8>)>>,
    ) -> (r: Region)
        requires
            segments_wf(segments@, log@, high, low),
        ensures
            r.wf(),
            r.segs() == segments@,
            r.high() == high,
            r.low() == low,
            r.threshold() == rotation_threshold,
            r.state() == RegionState::Active,
            r.log() == log@,
    {
        Region {
            segments,
            high_watermark: high,
            low_watermark: low,
            rotation_threshold,
            state: RegionState::Active,
            log,
        }
    }

    /// The segments of a well-formed region each hold their frames, follow
    /// one another without a gap and end at the high watermark.
    pub proof fn lemma_wf_segments(&self)
        requires
            self.wf(),
        ensures
            self.segs().len() >= 1,
            forall|i: int| 0 <= i < self.segs().len() ==> (#[trigger] self.segs()[i]).wf(),
            forall|i: int|
                0 <= i < self.segs().len() - 1 ==> (#[trigger] self.segs()[i]).end_seq()
                    == self.segs()[i + 1].start_seq() && self.segs()[i].id() < self.segs()[i + 1].id(),
            self.segs()[self.segs().len() - 1].end_seq() == self.high(),
            forall|i: int, j: int|
                0 <= i < self.segs().len() && 0 <= j < self.segs()[i].entries().len()
                    ==> #[trigger] self.segs()[i].entries()[j] == self.log()[self.segs()[i].start_seq() + j],
    {
    }

    /// The segments of a region, their bytes copied out.
    pub fn segment_data(&self) -> (r: Vec<(u64, u64, Vec<u8>)>)
        requires
            self.wf(),
        ensures
            r@.len() == self.segs().len(),
            forall|k: int|
                0 <= k < r@.len() ==> (#[trigger] r@[k]).0 == self.segs()[k].id() && r@[k].1
                    == self.segs()[k].start_seq() && r@[k].2@ == self.segs()[k].bytes(),
    {
        let mut out: Vec<(u64, u64, Vec<u8>)> = Vec::new();
        let mut i: usize = 0;
        while i < self.segments.len()
            invariant
                0 <= i <= self.segments@.len(),
                out@.len() == i,
                forall|k: int|
                    0 <= k < i ==> (#[trigger] out@[k]).0 == self.segs()[k].id() && out@[k].1
                        == self.segs()[k].start_seq() && out@[k].2@ == self.segs()[k].bytes(),
            decreases self.segments@.len() - i,
        {
            let seg = &self.segments[i];
            out.push((seg.id(), seg.start_seq(), slice_to_vec(seg.data())));
            i = i + 1;
        }
        out
    }

    /// The segment at position `i`, oldest first.
    pub fn segment(&self, i: usize) -> (r: &Segment)
        requires
            i < self.segs().len(),
        ensures
            *r == self.segs()[i as int],
    {
        &self.segments[i]
    }
}

} // verus!

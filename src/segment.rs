//! Scanning a run of frames, as a segment holds them, and the segment itself:
//! an append-only buffer of frames with consecutive sequence numbers.
use vstd::prelude::*;
use vstd::slice::slice_subrange;

use crate::record::{
    decode_spec, declared_body, declared_length, fits, frame, frame_size, lemma_decoded_is_built, lemma_round_trip,
    record_of, Error, Record, RecordEncoding, RecordView, HEADER_SIZE, NEWEST_RECORD_ENCODING_VERSION,
};

verus! {

/// The offset where the run of valid frames that starts at `off` ends: the
/// first frame that fails to decode, or the end of `buf`.
pub open spec fn valid_end(version: u8, buf: Seq<u8>, off: int) -> int
    decreases buf.len() - off,
{
    if off < 0 || off >= buf.len() {
        off
    } else {
        match decode_spec(version, buf.subrange(off, buf.len() as int)) {
            Ok(r) => if off + HEADER_SIZE + r.length <= buf.len() {
                valid_end(version, buf, off + HEADER_SIZE + r.length)
            } else {
                off
            },
            Err(_) => off,
        }
    }
}

/// The records of the run of valid frames that starts at `off`, in order.
pub open spec fn scan_records(version: u8, buf: Seq<u8>, off: int) -> Seq<RecordView>
    decreases buf.len() - off,
{
    if off < 0 || off >= buf.len() {
        Seq::empty()
    } else {
        match decode_spec(version, buf.subrange(off, buf.len() as int)) {
            Ok(r) => if off + HEADER_SIZE + r.length <= buf.len() {
                seq![r] + scan_records(version, buf, off + HEADER_SIZE + r.length)
            } else {
                Seq::empty()
            },
            Err(_) => Seq::empty(),
        }
    }
}

/// A frame that decodes keeps decoding the same way whatever follows it.
pub proof fn lemma_decode_prefix_stable(v: u8, s: Seq<u8>, t: Seq<u8>)
    requires
        decode_spec(v, s) is Ok,
    ensures
        decode_spec(v, s + t) == decode_spec(v, s),
{
    let u = s + t;
    assert(u.subrange(1, 5) =~= s.subrange(1, 5));
    assert(u.subrange(5, 9) =~= s.subrange(5, 9));
    assert(declared_body(u) =~= declared_body(s));
}

/// Bytes appended behind a run of valid frames leave the records of that run
/// as they were; scanning goes on where the run ended.
pub proof fn lemma_scan_append(v: u8, buf: Seq<u8>, off: int, tail: Seq<u8>)
    requires
        0 <= off <= buf.len(),
        valid_end(v, buf, off) == buf.len(),
    ensures
        scan_records(v, buf + tail, off) == scan_records(v, buf, off) + scan_records(
            v,
            buf + tail,
            buf.len() as int,
        ),
        valid_end(v, buf + tail, off) == valid_end(v, buf + tail, buf.len() as int),
    decreases buf.len() - off,
{
    let u = buf + tail;
    if off == buf.len() {
        assert(scan_records(v, buf, off) =~= Seq::<RecordView>::empty());
        assert(scan_records(v, buf, off) + scan_records(v, u, off) =~= scan_records(v, u, off));
    } else {
        let s = buf.subrange(off, buf.len() as int);
        assert(u.subrange(off, u.len() as int) =~= s + tail);
        lemma_decode_prefix_stable(v, s, tail);
        let r = decode_spec(v, s)->Ok_0;
        let next = off + HEADER_SIZE + r.length;
        lemma_scan_append(v, buf, next, tail);
        assert(scan_records(v, u, off) == seq![r] + scan_records(v, u, next));
        assert(scan_records(v, buf, off) == seq![r] + scan_records(v, buf, next));
        assert(seq![r] + scan_records(v, buf, next) + scan_records(v, u, buf.len() as int)
            =~= seq![r] + (scan_records(v, buf, next) + scan_records(v, u, buf.len() as int)));
    }
}

/// Appending the frame of a key and a value behind a run of valid frames adds
/// exactly that record, and the run then ends at the new end.
pub proof fn lemma_scan_push(buf: Seq<u8>, key: Seq<u8>, value: Seq<u8>)
    requires
        valid_end(NEWEST_RECORD_ENCODING_VERSION, buf, 0) == buf.len(),
        fits(key, value),
    ensures
        scan_records(NEWEST_RECORD_ENCODING_VERSION, buf + frame(key, value), 0) == scan_records(
            NEWEST_RECORD_ENCODING_VERSION,
            buf,
            0,
        ).push(record_of(key, value)),
        valid_end(NEWEST_RECORD_ENCODING_VERSION, buf + frame(key, value), 0) == buf.len()
            + frame(key, value).len(),
{
    let v = NEWEST_RECORD_ENCODING_VERSION;
    let f = frame(key, value);
    let u = buf + f;
    lemma_scan_append(v, buf, 0, f);
    lemma_round_trip(key, value, Seq::empty());
    assert(u.subrange(buf.len() as int, u.len() as int) =~= f + Seq::<u8>::empty());
    let end = u.len() as int;
    assert(scan_records(v, u, end) =~= Seq::<RecordView>::empty());
    assert(scan_records(v, u, buf.len() as int) =~= seq![record_of(key, value)]);
    assert(valid_end(v, u, end) == end);
    assert(valid_end(v, u, buf.len() as int) == end);
    assert(scan_records(v, buf, 0) + seq![record_of(key, value)] =~= scan_records(v, buf, 0).push(
        record_of(key, value),
    ));
}

/// A strict, non-empty prefix of a frame does not decode.
pub proof fn lemma_partial_frame_fails(key: Seq<u8>, value: Seq<u8>, cut: int)
    requires
        fits(key, value),
        0 < cut < frame(key, value).len(),
    ensures
        decode_spec(NEWEST_RECORD_ENCODING_VERSION, frame(key, value).subrange(0, cut)) is Err,
{
    let f = frame(key, value);
    let p = f.subrange(0, cut);
    lemma_round_trip(key, value, Seq::empty());
    reveal(frame);
    assert(f + Seq::<u8>::empty() =~= f);
    if cut >= HEADER_SIZE {
        assert(p.subrange(5, 9) =~= f.subrange(5, 9));
    }
}

/// One whole frame followed by a frame cut anywhere strictly inside: scanning
/// accepts exactly the first record and valid data ends right after the first
/// frame; scanning again what is left after truncating there gives the same
/// record and nothing more.
pub proof fn lemma_truncation_recovery(
    key: Seq<u8>,
    value: Seq<u8>,
    key2: Seq<u8>,
    value2: Seq<u8>,
    cut: int,
)
    requires
        fits(key, value),
        fits(key2, value2),
        0 < cut < frame(key2, value2).len(),
    ensures
        ({
            let v = NEWEST_RECORD_ENCODING_VERSION;
            let buf = frame(key, value) + frame(key2, value2).subrange(0, cut);
            let kept = buf.subrange(0, frame(key, value).len() as int);
            &&& valid_end(v, buf, 0) == frame(key, value).len()
            &&& scan_records(v, buf, 0) == seq![record_of(key, value)]
            &&& kept == frame(key, value)
            &&& valid_end(v, kept, 0) == kept.len()
            &&& scan_records(v, kept, 0) == seq![record_of(key, value)]
        }),
{
    let v = NEWEST_RECORD_ENCODING_VERSION;
    let f = frame(key, value);
    let p = frame(key2, value2).subrange(0, cut);
    let buf = f + p;
    let n = f.len() as int;
    lemma_round_trip(key, value, p);
    lemma_round_trip(key, value, Seq::empty());
    lemma_partial_frame_fails(key2, value2, cut);
    assert(buf.subrange(0, buf.len() as int) =~= buf);
    assert(buf.subrange(n, buf.len() as int) =~= p);
    assert(scan_records(v, buf, n) =~= Seq::<RecordView>::empty());
    assert(scan_records(v, buf, 0) =~= seq![record_of(key, value)]);
    assert(valid_end(v, buf, n) == n);
    assert(valid_end(v, buf, 0) == n);
    let kept = buf.subrange(0, n);
    assert(kept =~= f);
    assert(kept.subrange(0, kept.len() as int) =~= f + Seq::<u8>::empty());
    assert(scan_records(v, kept, n) =~= Seq::<RecordView>::empty());
    assert(scan_records(v, kept, 0) =~= seq![record_of(key, value)]);
    assert(valid_end(v, kept, n) == n);
    assert(valid_end(v, kept, 0) == n);
}


/// Cutting the bytes behind a decodable frame keeps it decoding the same way.
pub proof fn lemma_decode_shorten(v: u8, s: Seq<u8>, m: int)
    requires
        decode_spec(v, s) is Ok,
        frame_size(s) <= m <= s.len(),
    ensures
        decode_spec(v, s.subrange(0, m)) == decode_spec(v, s),
{
    let u = s.subrange(0, m);
    assert(u.subrange(1, 5) =~= s.subrange(1, 5));
    assert(u.subrange(5, 9) =~= s.subrange(5, 9));
    assert(declared_body(u) =~= declared_body(s));
}

/// Truncating the bytes where valid data ends keeps every record and leaves
/// no invalid tail.
pub proof fn lemma_scan_truncate(v: u8, buf: Seq<u8>, off: int)
    requires
        0 <= off <= buf.len(),
    ensures
        off <= valid_end(v, buf, off) <= buf.len(),
        valid_end(v, buf.subrange(0, valid_end(v, buf, off)), off) == valid_end(v, buf, off),
        scan_records(v, buf.subrange(0, valid_end(v, buf, off)), off) == scan_records(v, buf, off),
    decreases buf.len() - off,
{
    let e = valid_end(v, buf, off);
    if off < buf.len() {
        let s = buf.subrange(off, buf.len() as int);
        match decode_spec(v, s) {
            Ok(r) => {
                let next = off + HEADER_SIZE + r.length;
                lemma_scan_truncate(v, buf, next);
                let sub = buf.subrange(0, e);
                assert(sub.subrange(off, sub.len() as int) =~= s.subrange(0, e - off));
                lemma_decode_shorten(v, s, e - off);
            },
            Err(_) => {
                assert(buf.subrange(0, e).len() == off);
            },
        }
    } else {
        assert(buf.subrange(0, e).len() == off);
    }
}

/// Every record that a scan gives is the record built for its key and value.
pub proof fn lemma_scan_built(buf: Seq<u8>, off: int)
    ensures
        forall|i: int|
            0 <= i < scan_records(NEWEST_RECORD_ENCODING_VERSION, buf, off).len() ==> {
                let r = #[trigger] scan_records(NEWEST_RECORD_ENCODING_VERSION, buf, off)[i];
                fits(r.key, r.value) && r == record_of(r.key, r.value)
            },
    decreases buf.len() - off,
{
    let v = NEWEST_RECORD_ENCODING_VERSION;
    if 0 <= off < buf.len() {
        let s = buf.subrange(off, buf.len() as int);
        if decode_spec(v, s) is Ok {
            let r = decode_spec(v, s)->Ok_0;
            let next = off + HEADER_SIZE + r.length;
            lemma_decoded_is_built(s);
            lemma_scan_built(buf, next);
            assert forall|i: int| 0 <= i < scan_records(v, buf, off).len() implies {
                let r = #[trigger] scan_records(v, buf, off)[i];
                fits(r.key, r.value) && r == record_of(r.key, r.value)
            } by {
                if i > 0 {
                    assert(scan_records(v, buf, off)[i] == scan_records(v, buf, next)[i - 1]);
                }
            }
        }
    }
}

/// The key and value of each record.
pub open spec fn pairs_of(recs: Seq<RecordView>) -> Seq<(Seq<u8>, Seq<u8>)> {
    recs.map_values(|r: RecordView| (r.key, r.value))
}

/// The views of a sequence of records.
pub open spec fn views(recs: Seq<Record>) -> Seq<RecordView> {
    recs.map_values(|r: Record| r@)
}

/// Decodes the frames of `buf` from `offset` on, and stops, without an error,
/// at the first frame that fails to decode or at the end of `buf`. Returns the
/// records and the offset where valid data ends.
pub fn scan_from<'a>(encoding: &RecordEncoding, buf: &'a [u8], offset: usize) -> (r: (
    Vec<Record<'a>>,
    usize,
))
    requires
        offset <= buf@.len(),
    ensures
        views(r.0@) == scan_records(encoding.version(), buf@, offset as int),
        r.1 == valid_end(encoding.version(), buf@, offset as int),
{
    let ghost v = encoding.version();
    let mut recs: Vec<Record<'a>> = Vec::new();
    let mut off = offset;
    let n = buf.len();
    let mut stopped = false;
    while off < n && !stopped
        invariant
            stopped ==> scan_records(v, buf@, off as int) == Seq::<RecordView>::empty()
                && valid_end(v, buf@, off as int) == off,
            n == buf@.len(),
            v == encoding.version(),
            offset <= off <= n,
            valid_end(v, buf@, off as int) == valid_end(v, buf@, offset as int),
            views(recs@) + scan_records(v, buf@, off as int) == scan_records(v, buf@, offset as int),
        decreases n - off + (if stopped { 0int } else { 1int }),
    {
        let tail = slice_subrange(buf, off, n);
        let res = encoding.decode(tail);
        match res {
            Ok(rec) => {
                let next = off + rec.len();
                let ghost old_recs = recs@;
                let ghost rv = rec@;
                assert(tail@ == buf@.subrange(off as int, n as int));
                assert(decode_spec(v, tail@) == Ok::<RecordView, crate::record::Error>(rv));
                assert(rv.length == declared_length(tail@));
                assert(off + HEADER_SIZE + rv.length <= n);
                assert(scan_records(v, buf@, off as int) == seq![rv] + scan_records(v, buf@, next as int));
                assert(valid_end(v, buf@, off as int) == valid_end(v, buf@, next as int));
                recs.push(rec);
                assert(views(recs@) =~= views(old_recs) + seq![rv]);
                assert(views(recs@) + scan_records(v, buf@, next as int) =~= views(old_recs) + (seq![rv] + scan_records(v, buf@, next as int)));
                off = next;
            },
            Err(_) => {
                assert(scan_records(v, buf@, off as int) =~= Seq::<RecordView>::empty());
                assert(views(recs@) + scan_records(v, buf@, off as int) =~= views(recs@));
                stopped = true;
            },
        }
    }
    assert(scan_records(v, buf@, off as int) =~= Seq::<RecordView>::empty());
    assert(views(recs@) =~= scan_records(v, buf@, offset as int));
    (recs, off)
}

/// The record that each entry of a log is framed as.
pub open spec fn records_of(entries: Seq<(Seq<u8>, Seq<u8>)>) -> Seq<RecordView> {
    entries.map_values(|e: (Seq<u8>, Seq<u8>)| record_of(e.0, e.1))
}

/// An append-only buffer of frames holding the entries with sequence numbers
/// `start_seq ..` in order, with no gap.
pub struct Segment {
    id: u64,
    start_seq: u64,
    data: Vec<u8>,
    entries: Ghost<Seq<(Seq<u8>, Seq<u8>)>>,
}

impl Segment {
    /// Determines the order of segments: a later segment has a larger one.
    pub closed spec fn spec_id(&self) -> u64 {
        self.id
    }

    /// The sequence number of the first entry.
    pub closed spec fn spec_start_seq(&self) -> u64 {
        self.start_seq
    }

    /// The entries, key and value, in sequence order.
    pub closed spec fn entries(&self) -> Seq<(Seq<u8>, Seq<u8>)> {
        self.entries@
    }

    /// The bytes of the segment.
    pub closed spec fn bytes(&self) -> Seq<u8> {
        self.data@
    }

    /// One past the sequence number of the last entry.
    pub open spec fn end_seq(&self) -> int {
        self.start_seq() + self.entries().len()
    }

    /// The bytes are exactly the frames of the entries, one after another.
    pub closed spec fn wf(&self) -> bool {
        &&& valid_end(NEWEST_RECORD_ENCODING_VERSION, self.data@, 0) == self.data@.len()
        &&& scan_records(NEWEST_RECORD_ENCODING_VERSION, self.data@, 0) == records_of(
            self.entries@,
        )
    }

    /// Scanning a well-formed segment from its start gives exactly the
    /// records of its entries and reaches its end.
    pub proof fn lemma_contents(&self)
        requires
            self.wf(),
        ensures
            scan_records(NEWEST_RECORD_ENCODING_VERSION, self.bytes(), 0) == records_of(
                self.entries(),
            ),
            valid_end(NEWEST_RECORD_ENCODING_VERSION, self.bytes(), 0) == self.bytes().len(),
    {
    }

    /// The segment over bytes that hold valid frames up to their end, as
    /// recovery finds them; its entries are the records that a scan gives.
    pub fn from_bytes(id: u64, start_seq: u64, data: Vec<u8>) -> (r: Segment)
        requires
            valid_end(NEWEST_RECORD_ENCODING_VERSION, data@, 0) == data@.len(),
        ensures
            r.wf(),
            r.id() == id,
            r.start_seq() == start_seq,
            r.bytes() == data@,
            r.entries() == pairs_of(scan_records(NEWEST_RECORD_ENCODING_VERSION, data@, 0)),
    {
        let ghost recs = scan_records(NEWEST_RECORD_ENCODING_VERSION, data@, 0);
        proof {
            lemma_scan_built(data@, 0);
            assert(records_of(pairs_of(recs)) =~= recs);
        }
        Segment { id, start_seq, data, entries: Ghost(pairs_of(recs)) }
    }

    /// An empty segment.
    pub fn new(id: u64, start_seq: u64) -> (r: Segment)
        ensures
            r.wf(),
            r.id() == id,
            r.start_seq() == start_seq,
            r.entries() == Seq::<(Seq<u8>, Seq<u8>)>::empty(),
            r.bytes() == Seq::<u8>::empty(),
    {
        let r = Segment { id, start_seq, data: Vec::new(), entries: Ghost(Seq::empty()) };
        assert(records_of(Seq::empty()) =~= Seq::<RecordView>::empty());
        r
    }

    #[verifier::when_used_as_spec(spec_id)]
    pub fn id(&self) -> (r: u64)
        ensures
            r == self.spec_id(),
    {
        self.id
    }

    #[verifier::when_used_as_spec(spec_start_seq)]
    pub fn start_seq(&self) -> (r: u64)
        ensures
            r == self.spec_start_seq(),
    {
        self.start_seq
    }

    /// The current length in bytes.
    pub fn size(&self) -> (r: usize)
        ensures
            r == self.bytes().len(),
    {
        self.data.len()
    }

    /// The bytes of the segment.
    pub fn data(&self) -> (r: &[u8])
        ensures
            r@ == self.bytes(),
    {
        self.data.as_slice()
    }

    /// Appends the frame of a key and a value at the end and returns the
    /// offset where it starts. A key and value too long for the frame's length
    /// fields are refused and leave the segment as it was.
    pub fn append(&mut self, key: &[u8], value: &[u8]) -> (r: Result<usize, Error>)
        requires
            old(self).wf(),
        ensures
            final(self).wf(),
            final(self).id() == old(self).id(),
            final(self).start_seq() == old(self).start_seq(),
            fits(key@, value@) ==> r == Ok::<usize, Error>(old(self).bytes().len() as usize)
                && final(self).entries() == old(self).entries().push((key@, value@))
                && final(self).bytes() == old(self).bytes() + frame(key@, value@),
            !fits(key@, value@) ==> r == Err::<usize, Error>(
                Error::Encoding { key_len: key@.len() as usize, value_len: value@.len() as usize },
            ) && *final(self) == *old(self),
    {
        let rec = match Record::new(key, value) {
            Ok(rec) => rec,
            Err(e) => {
                return Err(e);
            },
        };
        let off = self.data.len();
        let encoding = RecordEncoding::newest();
        let _ = encoding.encode(&mut self.data, &rec);
        proof {
            reveal(frame);
            lemma_scan_push(old(self).data@, key@, value@);
            let e = old(self).entries@;
            assert(records_of(e.push((key@, value@))) =~= records_of(e).push(
                record_of(key@, value@),
            ));
            self.entries = Ghost(e.push((key@, value@)));
        }
        Ok(off)
    }
}

} // verus!

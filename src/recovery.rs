//! Recovery: rebuilding a region from the bytes of its segment files after a
//! restart, keeping the valid prefix of the last file.
use vstd::prelude::*;
use vstd::slice::{slice_subrange, slice_to_vec};

use crate::record::{RecordEncoding, NEWEST_RECORD_ENCODING_VERSION};
use crate::region::{lemma_push_segment, segments_wf, Region, RegionError, RegionState};
use crate::segment::{lemma_scan_truncate, pairs_of, scan_from, scan_records, valid_end, Segment};

verus! {

/// The bytes of one segment file as found on disk, with the identifier and
/// first sequence number that its file name carries.
pub struct SegmentFile {
    pub id: u64,
    pub start_seq: u64,
    pub data: Vec<u8>,
}

/// What recovery found: the next sequence number to assign, how many
/// records it recovered and how many bytes of invalid tail it cut from the
/// last segment.
#[derive(Debug, Clone, Copy, PartialEq, Eq, Structural)]
pub struct RecoveryReport {
    pub next_sequence: u64,
    pub recovered_records: u64,
    pub truncated_bytes: usize,
}

/// Identifier, first sequence number and bytes of each file.
pub open spec fn file_views(files: Seq<SegmentFile>) -> Seq<(u64, u64, Seq<u8>)> {
    files.map_values(|f: SegmentFile| (f.id, f.start_seq, f.data@))
}

/// The number of records that a scan of `data` from its start gives.
pub open spec fn scan_count(data: Seq<u8>) -> int {
    scan_records(NEWEST_RECORD_ENCODING_VERSION, data, 0).len() as int
}

/// Whether segment files can be recovered: every file but the last holds
/// valid frames up to its end, each file starts where the one before it
/// ends, identifiers increase, and sequence numbers do not run out.
pub open spec fn recovery_ok(fs: Seq<(u64, u64, Seq<u8>)>) -> bool {
    &&& forall|i: int|
        0 <= i < fs.len() - 1 ==> valid_end(NEWEST_RECORD_ENCODING_VERSION, (#[trigger] fs[i]).2, 0)
            == fs[i].2.len()
    &&& forall|i: int|
        0 <= i < fs.len() - 1 ==> (#[trigger] fs[i]).1 + scan_count(fs[i].2) == fs[i + 1].1
            && fs[i].0 < fs[i + 1].0
    &&& fs.len() > 0 ==> fs[fs.len() - 1].1 + scan_count(fs[fs.len() - 1].2) <= u64::MAX
}

/// The next sequence number after recovering the files.
pub open spec fn recovered_next(fs: Seq<(u64, u64, Seq<u8>)>) -> int {
    if fs.len() == 0 {
        0
    } else {
        fs[fs.len() - 1].1 + scan_count(fs[fs.len() - 1].2)
    }
}


/// The conditions of recovery hold for the files before `i`.
#[verifier::opaque]
pub open spec fn files_ok_upto(fs: Seq<(u64, u64, Seq<u8>)>, i: int) -> bool {
    forall|k: int|
        0 <= k < i && k < fs.len() - 1 ==> valid_end(NEWEST_RECORD_ENCODING_VERSION, (#[trigger] fs[k]).2, 0)
            == fs[k].2.len() && fs[k].1 + scan_count(fs[k].2) == fs[k + 1].1 && fs[k].0 < fs[k + 1].0
}

/// The bytes that recovery keeps of file `k`.
pub open spec fn kept_bytes(fs: Seq<(u64, u64, Seq<u8>)>, k: int) -> Seq<u8> {
    if k < fs.len() - 1 {
        fs[k].2
    } else {
        fs[k].2.subrange(0, valid_end(NEWEST_RECORD_ENCODING_VERSION, fs[k].2, 0))
    }
}

/// The segments before `i` stand for the files before `i`.
#[verifier::opaque]
pub open spec fn segs_match(segs: Seq<Segment>, fs: Seq<(u64, u64, Seq<u8>)>, i: int) -> bool {
    forall|k: int|
        0 <= k < i ==> (#[trigger] segs[k]).id() == fs[k].0 && segs[k].start_seq() == fs[k].1
            && segs[k].bytes() == kept_bytes(fs, k) && segs[k].entries() == pairs_of(
            scan_records(NEWEST_RECORD_ENCODING_VERSION, fs[k].2, 0),
        )
}

proof fn lemma_files_ok_extend(fs: Seq<(u64, u64, Seq<u8>)>, i: int)
    requires
        files_ok_upto(fs, i),
        0 <= i,
        i < fs.len() - 1 ==> valid_end(NEWEST_RECORD_ENCODING_VERSION, fs[i].2, 0) == fs[i].2.len()
            && fs[i].1 + scan_count(fs[i].2) == fs[i + 1].1 && fs[i].0 < fs[i + 1].0,
    ensures
        files_ok_upto(fs, i + 1),
{
    reveal(files_ok_upto);
}

proof fn lemma_files_ok_fails(fs: Seq<(u64, u64, Seq<u8>)>, i: int)
    requires
        0 <= i < fs.len() - 1,
        !(valid_end(NEWEST_RECORD_ENCODING_VERSION, fs[i].2, 0) == fs[i].2.len() && fs[i].1
            + scan_count(fs[i].2) == fs[i + 1].1 && fs[i].0 < fs[i + 1].0),
    ensures
        !recovery_ok(fs),
{
    assert(0 <= i < fs.len() - 1);
    if recovery_ok(fs) {
        assert(valid_end(NEWEST_RECORD_ENCODING_VERSION, fs[i].2, 0) == fs[i].2.len());
        assert(fs[i].1 + scan_count(fs[i].2) == fs[i + 1].1 && fs[i].0 < fs[i + 1].0);
    }
}

proof fn lemma_files_ok_all(fs: Seq<(u64, u64, Seq<u8>)>)
    requires
        fs.len() > 0,
        files_ok_upto(fs, fs.len() as int),
        fs[fs.len() - 1].1 + scan_count(fs[fs.len() - 1].2) <= u64::MAX,
    ensures
        recovery_ok(fs),
{
    reveal(files_ok_upto);
    assert forall|i: int| 0 <= i < fs.len() - 1 implies valid_end(
        NEWEST_RECORD_ENCODING_VERSION,
        (#[trigger] fs[i]).2,
        0,
    ) == fs[i].2.len() by {
        assert(0 <= i < fs.len() && i < fs.len() - 1);
    }
}

proof fn lemma_segs_match_extend(
    segs: Seq<Segment>,
    fs: Seq<(u64, u64, Seq<u8>)>,
    i: int,
    s: Segment,
)
    requires
        segs_match(segs, fs, i),
        segs.len() == i,
        s.id() == fs[i].0,
        s.start_seq() == fs[i].1,
        s.bytes() == kept_bytes(fs, i),
        s.entries() == pairs_of(scan_records(NEWEST_RECORD_ENCODING_VERSION, fs[i].2, 0)),
    ensures
        segs_match(segs.push(s), fs, i + 1),
{
    reveal(segs_match);
    let t = segs.push(s);
    assert forall|k: int| 0 <= k < i + 1 implies (#[trigger] t[k]).id() == fs[k].0 && t[k].start_seq()
        == fs[k].1 && t[k].bytes() == kept_bytes(fs, k) && t[k].entries() == pairs_of(
        scan_records(NEWEST_RECORD_ENCODING_VERSION, fs[k].2, 0),
    ) by {
        if k < i {
            assert(t[k] == segs[k]);
        }
    }
}

impl Region {
    /// Identifier, first sequence number and bytes of each segment, oldest
    /// first: what the segment files hold.
    pub open spec fn files(&self) -> Seq<(u64, u64, Seq<u8>)> {
        self.segs().map_values(|s: Segment| (s.id(), s.start_seq(), s.bytes()))
    }

    /// Rebuilds a region from its segment files, oldest first. Each file but
    /// the last must hold valid frames up to its end, else the log is corrupt.
    /// The last one keeps its valid prefix: the first frame that fails to
    /// decode marks where it is cut. Sequence numbers go on from the last
    /// recovered record. With no file at all the region starts empty.
    pub fn recover(files: &Vec<SegmentFile>, rotation_threshold: usize) -> (r: Result<
        (Region, RecoveryReport),
        RegionError,
    >)
        ensures
            r is Ok <==> recovery_ok(file_views(files@)),
            r is Err ==> r == Err::<(Region, RecoveryReport), RegionError>(RegionError::RegionFatal),
            r matches Ok((region, report)) ==> {
                let fs = file_views(files@);
                let n = fs.len();
                &&& region.wf()
                &&& region.state() == RegionState::Active
                &&& region.threshold() == rotation_threshold
                &&& region.high() == recovered_next(fs)
                &&& region.low() == if n == 0 {
                    0
                } else {
                    fs[0].1
                }
                &&& report.next_sequence == region.high()
                &&& report.recovered_records == region.high() - region.low()
                &&& report.truncated_bytes == if n == 0 {
                    0
                } else {
                    fs[n - 1].2.len() - valid_end(NEWEST_RECORD_ENCODING_VERSION, fs[n - 1].2, 0)
                }
                &&& n > 0 ==> region.segs().len() == n
                &&& forall|i: int|
                    0 <= i < n ==> (#[trigger] region.segs()[i]).id() == fs[i].0
                        && region.segs()[i].start_seq() == fs[i].1 && region.segs()[i].bytes()
                        == kept_bytes(fs, i)
                &&& forall|i: int, j: int|
                    0 <= i < n && 0 <= j < scan_count(fs[i].2) ==> region.log()[fs[i].1 + j]
                        == #[trigger] pairs_of(scan_records(NEWEST_RECORD_ENCODING_VERSION, fs[i].2, 0))[j]
            },
    {
        let ghost fs = file_views(files@);
        let n = files.len();
        if n == 0 {
            let region = Region::new(rotation_threshold);
            return Ok((region, RecoveryReport { next_sequence: 0, recovered_records: 0, truncated_bytes: 0 }));
        }
        let encoding = RecordEncoding::newest();
        let low = files[0].start_seq;
        let mut high = low;
        let ghost mut log: Seq<(Seq<u8>, Seq<u8>)> = Seq::new(low as nat, |k: int| (Seq::empty(), Seq::empty()));
        let mut segments: Vec<Segment> = Vec::new();
        let mut truncated: usize = 0;
        let mut i: usize = 0;
        proof {
            reveal(files_ok_upto);
            reveal(segs_match);
        }
        while i < n
            invariant
                n == files@.len(),
                fs == file_views(files@),
                encoding.version() == NEWEST_RECORD_ENCODING_VERSION,
                0 <= i <= n,
                low == fs[0].1,
                low <= high,
                segments@.len() == i,
                i == 0 ==> high == low && log.len() == low,
                i > 0 ==> segments_wf(segments@, log, high, low),
                i > 0 && i < n ==> high == fs[i as int].1 ,
                files_ok_upto(fs, i as int),
                i == n ==> fs[n - 1].1 + scan_count(fs[n - 1].2) <= u64::MAX && high == fs[n - 1].1
                    + scan_count(fs[n - 1].2) && truncated == fs[n - 1].2.len() - valid_end(
                    NEWEST_RECORD_ENCODING_VERSION,
                    fs[n - 1].2,
                    0,
                ),
                segs_match(segments@, fs, i as int),
                i > 0 ==> segments@[i - 1].id() == fs[i - 1].0,
                0 < i < n ==> fs[i - 1].0 < fs[i as int].0,
            decreases n - i,
        {
            let file = &files[i];
            assert(fs[i as int] == (file.id, file.start_seq, file.data@));
            let data = file.data.as_slice();
            let (recs, end) = scan_from(&encoding, data, 0);
            let count = recs.len();
            proof {
                lemma_scan_truncate(NEWEST_RECORD_ENCODING_VERSION, data@, 0);
                assert(crate::segment::views(recs@).len() == recs@.len());
            }
            if i + 1 < n {
                assert(fs[i + 1] == (files@[i + 1].id, files@[i + 1].start_seq, files@[i + 1].data@));
                if end != data.len() || count as u64 > u64::MAX - file.start_seq
                    || file.start_seq + count as u64 != files[i + 1].start_seq
                    || file.id >= files[i + 1].id {
                    proof {
                        lemma_files_ok_fails(fs, i as int);
                    }
                    return Err(RegionError::RegionFatal);
                }
            } else {
                if count as u64 > u64::MAX - file.start_seq {
                    return Err(RegionError::RegionFatal);
                }
                truncated = data.len() - end;
            }
            let kept = slice_to_vec(slice_subrange(data, 0, end));
            assert(data@.subrange(0, end as int) == data@ ==> kept@ == data@);
            assert(end == data@.len() ==> data@.subrange(0, end as int) =~= data@);
            let seg = Segment::from_bytes(file.id, file.start_seq, kept);
            proof {
                assert(seg.entries().len() == count);
                lemma_push_segment(segments@, log, high, low, seg);
                lemma_files_ok_extend(fs, i as int);
                lemma_segs_match_extend(segments@, fs, i as int, seg);
                log = log + seg.entries();
            }
            segments.push(seg);
            high = file.start_seq + count as u64;
            i = i + 1;
        }
        proof {
            lemma_files_ok_all(fs);
            reveal(segs_match);
        }
        let region = Region::from_parts(segments, high, low, rotation_threshold, Ghost(log));
        proof {
            region.lemma_wf_segments();
            assert forall|i: int, j: int|
                0 <= i < n && 0 <= j < scan_count(fs[i].2) implies region.log()[fs[i].1 + j]
                == #[trigger] pairs_of(scan_records(NEWEST_RECORD_ENCODING_VERSION, fs[i].2, 0))[j] by {
                assert(region.segs()[i].entries()[j] == region.log()[region.segs()[i].start_seq() + j]);
            }
        }
        Ok((region, RecoveryReport { next_sequence: high, recovered_records: high - low, truncated_bytes: truncated }))
    }

    /// Reopening a region from the files of its segments succeeds, cuts
    /// nothing, and goes on with the sequence number that the region would
    /// have assigned next: after appends that got `0 .. N - 1`, recovery
    /// reports `N`.
    pub proof fn lemma_reopen(&self)
        requires
            self.wf(),
        ensures
            recovery_ok(self.files()),
            recovered_next(self.files()) == self.high(),
            forall|i: int|
                0 <= i < self.files().len() ==> kept_bytes(self.files(), i) == (
                #[trigger] self.files()[i]).2,
    {
        let fs = self.files();
        let segs = self.segs();
        self.lemma_wf_segments();
        assert forall|i: int| 0 <= i < fs.len() implies valid_end(
            NEWEST_RECORD_ENCODING_VERSION,
            (#[trigger] fs[i]).2,
            0,
        ) == fs[i].2.len() && scan_count(fs[i].2) == segs[i].entries().len() by {
            assert(segs[i].wf());
            segs[i].lemma_contents();
        }
        assert forall|i: int| 0 <= i < fs.len() - 1 implies (#[trigger] fs[i]).1 + scan_count(fs[i].2)
            == fs[i + 1].1 && fs[i].0 < fs[i + 1].0 by {
            assert(segs[i].end_seq() == segs[i + 1].start_seq());
            assert(valid_end(NEWEST_RECORD_ENCODING_VERSION, fs[i].2, 0) == fs[i].2.len());
            assert(valid_end(NEWEST_RECORD_ENCODING_VERSION, fs[i + 1].2, 0) == fs[i + 1].2.len());
        }
        let last = fs.len() - 1;
        assert(valid_end(NEWEST_RECORD_ENCODING_VERSION, fs[last].2, 0) == fs[last].2.len());
        assert forall|i: int| 0 <= i < fs.len() implies kept_bytes(fs, i) == (#[trigger] fs[i]).2 by {
            assert(valid_end(NEWEST_RECORD_ENCODING_VERSION, fs[i].2, 0) == fs[i].2.len());
            assert(fs[i].2.subrange(0, fs[i].2.len() as int) =~= fs[i].2);
        }
    }

    /// The segment files of the region, their bytes copied out.
    pub fn segment_files(&self) -> (r: Vec<SegmentFile>)
        requires
            self.wf(),
        ensures
            file_views(r@) == self.files(),
    {
        let parts = self.segment_data();
        let mut out: Vec<SegmentFile> = Vec::new();
        let mut i: usize = 0;
        while i < parts.len()
            invariant
                0 <= i <= parts@.len(),
                parts@.len() == self.segs().len(),
                forall|k: int|
                    0 <= k < parts@.len() ==> (#[trigger] parts@[k]).0 == self.segs()[k].id() && parts@[k].1
                        == self.segs()[k].start_seq() && parts@[k].2@ == self.segs()[k].bytes(),
                out@.len() == i,
                forall|k: int| 0 <= k < i ==> #[trigger] file_views(out@)[k] == self.files()[k],
            decreases parts@.len() - i,
        {
            let part = &parts[i];
            let file = SegmentFile { id: part.0, start_seq: part.1, data: slice_to_vec(part.2.as_slice()) };
            let ghost before = out@;
            out.push(file);
            proof {
                assert forall|k: int| 0 <= k < i + 1 implies #[trigger] file_views(out@)[k] == self.files()[k] by {
                    if k < i {
                        assert(out@[k] == before[k]);
                        assert(file_views(before)[k] == self.files()[k]);
                    } else {
                        assert(out@[k] == file);
                    }
                }
            }
            i = i + 1;
        }
        assert(file_views(out@) =~= self.files());
        out
    }
}

} // verus!

use vstd::prelude::*;
use crate::error::RecordError;
use crate::frames::{
    append_outcome, ascending, frames_view, lemma_without_day_subset, window, without_day, Frame, FrameStore,
};
use crate::range::{
    between_spec, close_outcome, closed_state, covers, find_id, lemma_find_id, locate_spec, marked_state,
    open_outcome, opened_state,
    RangeIndex, RangeRecord, RangeTime,
};

verus! {

/// Is the instant `ts` inside some session of `s` (an open one reaching to infinity)?
pub open spec fn covered(s: Seq<RangeRecord>, ts: int) -> bool {
    exists|i: int| 0 <= i < s.len() && covers(#[trigger] s[i], ts)
}

/// The instant of the latest frame, 0 when there is none.
pub open spec fn last_frame_spec(f: Seq<(u64, Seq<u8>)>) -> i64 {
    if f.len() == 0 {
        0
    } else {
        f.last().0 as i64
    }
}

/// What opening a session at `now` answers once frames exist: a recovery
/// close may not cut off frames already written.
pub open spec fn start_outcome(
    s: Seq<RangeRecord>,
    next_id: u64,
    f: Seq<(u64, Seq<u8>)>,
    now: i64,
) -> Result<u64, RecordError> {
    if f.len() > 0 && (now as int) < f.last().0 {
        Err(RecordError::InvalidTimestamp)
    } else {
        open_outcome(s, next_id, now)
    }
}

/// What closing session `id` at `now` answers: the end may not precede the
/// latest frame.
pub open spec fn stop_outcome(s: Seq<RangeRecord>, f: Seq<(u64, Seq<u8>)>, id: u64, now: i64) -> Result<(), RecordError> {
    if close_outcome(s, id, now) is Ok && f.len() > 0 && (now as int) < f.last().0 {
        Err(RecordError::InvalidTimestamp)
    } else {
        close_outcome(s, id, now)
    }
}

/// What appending a frame at `ts` answers: it needs an open session that
/// started no later than `ts`, and instants that keep ascending.
pub open spec fn record_outcome(s: Seq<RangeRecord>, f: Seq<(u64, Seq<u8>)>, ts: i64) -> Result<(), RecordError> {
    if s.len() == 0 || s.last().end != 0 {
        Err(RecordError::NotFound)
    } else if ts < s.last().start {
        Err(RecordError::InvalidTimestamp)
    } else {
        append_outcome(f, ts as u64)
    }
}

/// The recording state of one camera: its session log and its frames.
pub struct CameraLog {
    ranges: RangeIndex,
    frames: FrameStore,
}

impl CameraLog {
    pub closed spec fn index(&self) -> RangeIndex {
        self.ranges
    }

    pub closed spec fn frames(&self) -> Seq<(u64, Seq<u8>)> {
        self.frames.view()
    }

    /// Both parts are well formed, and every frame lies inside a session.
    pub open spec fn well_formed(&self) -> bool {
        &&& self.index().well_formed()
        &&& ascending(self.frames())
        &&& forall|k: int|
            0 <= k < self.frames().len() ==> #[trigger] self.frames()[k].0 <= i64::MAX && covered(
                self.index().ranges(),
                self.frames()[k].0 as int,
            )
    }

    pub fn new() -> (r: CameraLog)
        ensures
            r.well_formed(),
            r.index().ranges().len() == 0,
            r.index().next_id_spec() == 1,
            r.frames().len() == 0,
    {
        CameraLog { ranges: RangeIndex::new(), frames: FrameStore::new() }
    }

    fn last_frame(&self) -> (r: i64)
        requires
            self.well_formed(),
        ensures
            r == last_frame_spec(self.frames()),
    {
        match self.frames.last_instant() {
            Some(t) => {
                assert(self.frames()[self.frames().len() - 1].0 <= i64::MAX);
                t as i64
            },
            None => 0,
        }
    }

    /// Opens a session at `now` (see `RangeIndex::open_session`); refused with
    /// `InvalidTimestamp` when `now` precedes the latest frame.
    pub fn open_session(&mut self, now: i64) -> (r: Result<u64, RecordError>)
        requires
            old(self).well_formed(),
        ensures
            final(self).well_formed(),
            r == start_outcome(old(self).index().ranges(), old(self).index().next_id_spec(), old(self).frames(), now),
            r is Ok ==> final(self).index().ranges() == opened_state(
                old(self).index().ranges(),
                old(self).index().next_id_spec(),
                now,
            ),
            r is Ok ==> final(self).index().next_id_spec() == old(self).index().next_id_spec() + 1,
            r is Err ==> final(self).index().ranges() == old(self).index().ranges()
                && final(self).index().next_id_spec() == old(self).index().next_id_spec(),
            final(self).frames() == old(self).frames(),
    {
        let last = self.last_frame();
        if self.frames.len() > 0 && now < last {
            return Err(RecordError::InvalidTimestamp);
        }
        let ghost s = self.ranges.ranges();
        let ghost f = self.frames();
        let r = self.ranges.open_session(now);
        proof {
            let t = self.ranges.ranges();
            assert forall|k: int| 0 <= k < f.len() implies #[trigger] f[k].0 <= i64::MAX && covered(t, f[k].0 as int) by {
                let j = choose|j: int| 0 <= j < s.len() && covers(#[trigger] s[j], f[k].0 as int);
                if k < f.len() - 1 {
                    assert(f[k].0 < f[f.len() - 1].0);
                }
                if r is Ok {
                    if j < s.len() - 1 || s[j].end != 0 {
                        assert(t[j] == s[j]);
                    } else {
                        assert(t[j].start == s[j].start && t[j].end == now);
                    }
                    assert(covers(t[j], f[k].0 as int));
                }
            }
        }
        r
    }

    /// Closes session `id` at `now` (see `RangeIndex::close_session`); refused
    /// with `InvalidTimestamp` when `now` precedes the latest frame.
    pub fn close_session(&mut self, id: u64, now: i64) -> (r: Result<(), RecordError>)
        requires
            old(self).well_formed(),
        ensures
            final(self).well_formed(),
            r == stop_outcome(old(self).index().ranges(), old(self).frames(), id, now),
            r is Ok ==> final(self).index().ranges() == closed_state(old(self).index().ranges(), id, now),
            r is Err ==> final(self).index().ranges() == old(self).index().ranges(),
            final(self).index().next_id_spec() == old(self).index().next_id_spec(),
            final(self).frames() == old(self).frames(),
    {
        let last = self.last_frame();
        let ghost s = self.ranges.ranges();
        let ghost f = self.frames();
        proof {
            lemma_find_id(s, id);
        }
        if self.frames.len() > 0 && now < last {
            match self.ranges.check_close(id, now) {
                Ok(()) => {
                    return Err(RecordError::InvalidTimestamp);
                },
                Err(e) => {
                    return Err(e);
                },
            }
        }
        let r = self.ranges.close_session(id, now);
        proof {
            let t = self.ranges.ranges();
            assert forall|k: int| 0 <= k < f.len() implies #[trigger] f[k].0 <= i64::MAX && covered(t, f[k].0 as int) by {
                let j = choose|j: int| 0 <= j < s.len() && covers(#[trigger] s[j], f[k].0 as int);
                if k < f.len() - 1 {
                    assert(f[k].0 < f[f.len() - 1].0);
                }
                assert(t[j].start == s[j].start);
                assert(covers(t[j], f[k].0 as int));
            }
        }
        r
    }

    /// Appends the frame captured at `ts` to the open session. Refused with
    /// `NotFound` when no session is open, with `InvalidTimestamp` when `ts`
    /// precedes the session's start or does not follow the latest frame.
    pub fn append_frame(&mut self, ts: i64, payload: Vec<u8>) -> (r: Result<(), RecordError>)
        requires
            old(self).well_formed(),
        ensures
            final(self).well_formed(),
            r == record_outcome(old(self).index().ranges(), old(self).frames(), ts),
            r is Ok ==> final(self).frames() == old(self).frames().push((ts as u64, payload@)),
            r is Err ==> final(self).frames() == old(self).frames(),
            final(self).index() == old(self).index(),
    {
        let n = self.ranges.len();
        if n == 0 {
            return Err(RecordError::NotFound);
        }
        let last = self.ranges.get(n - 1);
        if last.end != 0 {
            return Err(RecordError::NotFound);
        }
        if ts < last.start {
            return Err(RecordError::InvalidTimestamp);
        }
        let ghost f = self.frames();
        let ghost s = self.ranges.ranges();
        proof {
            assert(s[n - 1].start > 0);
        }
        let r = self.frames.append_frame(ts as u64, payload);
        proof {
            let g = self.frames();
            assert forall|k: int| 0 <= k < g.len() implies #[trigger] g[k].0 <= i64::MAX && covered(s, g[k].0 as int) by {
                if k < f.len() {
                    assert(g[k] == f[k]);
                } else {
                    assert(covers(s[n - 1], g[k].0 as int));
                }
            }
        }
        r
    }

    /// Sets the cloud flag of session `id` (see `RangeIndex::mark_cloud`).
    pub fn mark_cloud(&mut self, id: u64, flag: bool) -> (r: Result<(), RecordError>)
        requires
            old(self).well_formed(),
        ensures
            final(self).well_formed(),
            r is Err <==> find_id(old(self).index().ranges(), id) < 0,
            r is Err ==> r == Err::<(), RecordError>(RecordError::NotFound),
            final(self).index().ranges() == marked_state(old(self).index().ranges(), id, flag),
            final(self).index().next_id_spec() == old(self).index().next_id_spec(),
            final(self).frames() == old(self).frames(),
    {
        let ghost s = self.ranges.ranges();
        let ghost f = self.frames();
        let r = self.ranges.mark_cloud(id, flag);
        proof {
            lemma_find_id(s, id);
            let t = self.ranges.ranges();
            assert forall|k: int| 0 <= k < f.len() implies #[trigger] f[k].0 <= i64::MAX && covered(t, f[k].0 as int) by {
                let j = choose|j: int| 0 <= j < s.len() && covers(#[trigger] s[j], f[k].0 as int);
                assert(t[j].start == s[j].start && t[j].end == s[j].end);
                assert(covers(t[j], f[k].0 as int));
            }
        }
        r
    }

    /// The session covering `ts` (see `RangeIndex::locate`).
    pub fn locate(&self, ts: i64, last_frame: i64) -> (r: RangeTime)
        requires
            self.well_formed(),
        ensures
            r == locate_spec(self.index().ranges(), ts as int, last_frame),
            r.start != 0 ==> r.start <= ts,
    {
        self.ranges.locate(ts, last_frame)
    }

    /// The session covering `ts`, an open end filled with the latest frame.
    pub fn resolve(&self, ts: i64) -> (r: RangeTime)
        requires
            self.well_formed(),
        ensures
            r == locate_spec(self.index().ranges(), ts as int, last_frame_spec(self.frames())),
    {
        let last = self.last_frame();
        self.ranges.locate(ts, last)
    }

    /// The sessions starting within `[lo, hi]`, in ascending order of start.
    pub fn between(&self, lo: i64, hi: i64) -> (r: Vec<RangeTime>)
        ensures
            r@ == between_spec(self.index().ranges(), lo as int, hi as int),
    {
        self.ranges.between(lo, hi)
    }

    /// Removes the frames of UTC day `day`; the sessions stay.
    pub fn drop_day(&mut self, day: u64)
        requires
            old(self).well_formed(),
        ensures
            final(self).well_formed(),
            final(self).frames() == without_day(old(self).frames(), day),
            final(self).index() == old(self).index(),
    {
        let ghost f = self.frames();
        self.frames.drop_day(day);
        proof {
            lemma_without_day_subset(f, day);
            let g = self.frames();
            assert forall|k: int| 0 <= k < g.len() implies #[trigger] g[k].0 <= i64::MAX && covered(
                self.ranges.ranges(),
                g[k].0 as int,
            ) by {
                let j = choose|j: int| 0 <= j < f.len() && #[trigger] g[k] == f[j];
                assert(f[j].0 <= i64::MAX);
            }
        }
    }

    /// The frames captured within `[lo, hi]`, in order, across day boundaries.
    pub fn playback(&self, lo: u64, hi: u64) -> (r: Vec<Frame>)
        ensures
            frames_view(r@) == window(self.frames(), lo, hi),
    {
        self.frames.playback(lo, hi)
    }
}

/// Every frame of a camera lies inside one of its sessions, an open session
/// reaching to infinity.
pub proof fn lemma_frames_inside_sessions(log: CameraLog)
    requires
        log.well_formed(),
    ensures
        forall|k: int|
            0 <= k < log.frames().len() ==> covered(log.index().ranges(), #[trigger] log.frames()[k].0 as int),
{
    assert forall|k: int| 0 <= k < log.frames().len() implies covered(
        log.index().ranges(),
        #[trigger] log.frames()[k].0 as int,
    ) by {
        assert(log.frames()[k].0 <= i64::MAX);
    }
}

} // verus!

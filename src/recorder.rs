use vstd::prelude::*;
use crate::error::RecordError;
use crate::frames::{frames_view, window, without_day, Frame};
use crate::range::{
    between_spec, closed_state, locate_spec, marked_state, find_id, opened_state, RangeRecord, RangeTime,
};
use crate::recording::{last_frame_spec, record_outcome, start_outcome, stop_outcome, CameraLog};

verus! {

/// Position of camera `cam` in `names`, searching from the newest; -1 if absent.
pub open spec fn find_name(names: Seq<Seq<char>>, cam: Seq<char>) -> int
    decreases names.len(),
{
    if names.len() == 0 {
        -1
    } else if names.last() == cam {
        names.len() - 1
    } else {
        find_name(names.drop_last(), cam)
    }
}

proof fn lemma_find_name(names: Seq<Seq<char>>, cam: Seq<char>)
    ensures
        -1 <= find_name(names, cam) < names.len(),
        find_name(names, cam) >= 0 ==> names[find_name(names, cam)] == cam,
        find_name(names, cam) < 0 ==> forall|k: int| 0 <= k < names.len() ==> #[trigger] names[k] != cam,
    decreases names.len(),
{
    if names.len() > 0 {
        lemma_find_name(names.drop_last(), cam);
        assert forall|k: int| 0 <= k < names.len() - 1 implies #[trigger] names[k] == names.drop_last()[k] by {}
    }
}

/// The recording state of every camera, each under its id.
pub struct Recorder {
    cameras: Vec<String>,
    logs: Vec<CameraLog>,
}

impl Recorder {
    pub closed spec fn names(&self) -> Seq<Seq<char>> {
        self.cameras@.map_values(|s: String| s@)
    }

    pub closed spec fn logs(&self) -> Seq<CameraLog> {
        self.logs@
    }

    /// One well-formed log per camera id, ids distinct.
    pub open spec fn well_formed(&self) -> bool {
        &&& self.names().len() == self.logs().len()
        &&& forall|i: int, j: int|
            0 <= i < self.names().len() && 0 <= j < self.names().len() && i != j ==> #[trigger] self.names()[i]
                != #[trigger] self.names()[j]
        &&& forall|i: int| 0 <= i < self.logs().len() ==> #[trigger] self.logs()[i].well_formed()
    }

    /// The log of camera `cam`, if it has recorded anything.
    pub open spec fn log_of(&self, cam: Seq<char>) -> Option<CameraLog> {
        let i = find_name(self.names(), cam);
        if i >= 0 {
            Some(self.logs()[i])
        } else {
            None
        }
    }

    /// The sessions of camera `cam`; none for an unknown camera.
    pub open spec fn ranges_of(&self, cam: Seq<char>) -> Seq<RangeRecord> {
        match self.log_of(cam) {
            Some(l) => l.index().ranges(),
            None => Seq::empty(),
        }
    }

    /// The id that the next session of camera `cam` receives.
    pub open spec fn next_id_of(&self, cam: Seq<char>) -> u64 {
        match self.log_of(cam) {
            Some(l) => l.index().next_id_spec(),
            None => 1,
        }
    }

    /// The frames of camera `cam`; none for an unknown camera.
    pub open spec fn frames_of(&self, cam: Seq<char>) -> Seq<(u64, Seq<u8>)> {
        match self.log_of(cam) {
            Some(l) => l.frames(),
            None => Seq::empty(),
        }
    }

    /// Every camera but `cam` keeps its log.
    pub open spec fn others_unchanged(&self, other: &Recorder, cam: Seq<char>) -> bool {
        forall|c: Seq<char>| c != cam ==> #[trigger] self.log_of(c) == other.log_of(c)
    }

    pub fn new() -> (r: Recorder)
        ensures
            r.well_formed(),
            forall|c: Seq<char>| #[trigger] r.log_of(c) is None,
    {
        let r = Recorder { cameras: Vec::new(), logs: Vec::new() };
        assert(r.names() =~= Seq::<Seq<char>>::empty());
        r
    }

    fn position(&self, cam: &String) -> (r: Option<usize>)
        requires
            self.well_formed(),
        ensures
            match r {
                Some(i) => i as int == find_name(self.names(), cam@) && i < self.logs().len(),
                None => find_name(self.names(), cam@) < 0,
            },
    {
        let mut i: usize = self.cameras.len();
        proof {
            assert(self.names().subrange(0, i as int) =~= self.names());
        }
        while i > 0
            invariant
                i <= self.cameras@.len(),
                self.names().len() == self.cameras@.len(),
                self.names().len() == self.logs().len(),
                find_name(self.names(), cam@) == find_name(self.names().subrange(0, i as int), cam@),
            decreases i,
        {
            proof {
                let s = self.names().subrange(0, i as int);
                assert(s.drop_last() =~= self.names().subrange(0, i - 1));
                assert(s.last() == self.cameras@[i - 1]@);
            }
            if self.cameras[i - 1] == *cam {
                return Some(i - 1);
            }
            i = i - 1;
        }
        None
    }

    /// Position of camera `cam`, registering it with an empty log when unknown.
    fn register(&mut self, cam: &String) -> (r: usize)
        requires
            old(self).well_formed(),
        ensures
            final(self).well_formed(),
            r as int == find_name(final(self).names(), cam@),
            r < final(self).logs().len(),
            final(self).names().len() == final(self).logs().len(),
            old(self).log_of(cam@) is Some ==> *final(self) == *old(self),
            old(self).log_of(cam@) is None ==> final(self).ranges_of(cam@).len() == 0
                && final(self).next_id_of(cam@) == 1 && final(self).frames_of(cam@).len() == 0,
            final(self).others_unchanged(old(self), cam@),
    {
        proof {
            lemma_find_name(self.names(), cam@);
        }
        match self.position(cam) {
            Some(i) => i,
            None => {
                let ghost names = self.names();
                self.cameras.push(cam.clone());
                self.logs.push(CameraLog::new());
                proof {
                    let t = self.names();
                    assert(t =~= names.push(cam@));
                    assert(t.drop_last() =~= names);
                    assert forall|c: Seq<char>| c != cam@ implies #[trigger] self.log_of(c) == old(self).log_of(c) by {
                        lemma_find_name(names, c);
                        if find_name(names, c) >= 0 {
                            assert(self.logs()[find_name(names, c)] == old(self).logs()[find_name(names, c)]);
                        }
                    }
                    assert forall|a: int, b: int| 0 <= a < t.len() && 0 <= b < t.len() && a != b implies #[trigger] t[a]
                        != #[trigger] t[b] by {
                        if a < names.len() && b < names.len() {
                            assert(names[a] != names[b]);
                        } else if a < names.len() {
                            assert(names[a] != cam@);
                        } else {
                            assert(names[b] != cam@);
                        }
                    }
                }
                self.cameras.len() - 1
            },
        }
    }

    /// Puts back the log taken from position `i`.
    proof fn lemma_replaced(before: Recorder, after: Recorder, i: int, cam: Seq<char>)
        requires
            before.well_formed(),
            i == find_name(before.names(), cam),
            0 <= i < before.logs().len(),
            after.names() == before.names(),
            after.logs() == before.logs().update(i, after.logs()[i]),
            after.logs()[i].well_formed(),
        ensures
            after.well_formed(),
            after.log_of(cam) == Some(after.logs()[i]),
            after.others_unchanged(&before, cam),
    {
        assert forall|c: Seq<char>| c != cam implies #[trigger] after.log_of(c) == before.log_of(c) by {
            lemma_find_name(before.names(), c);
            lemma_find_name(before.names(), cam);
        }
        assert forall|k: int| 0 <= k < after.logs().len() implies #[trigger] after.logs()[k].well_formed() by {
            if k != i {
                assert(after.logs()[k] == before.logs()[k]);
            }
        }
    }

    /// Opens a session of camera `cam` at `now` (see `CameraLog::open_session`),
    /// registering the camera when it is new.
    pub fn open_session(&mut self, cam: &String, now: i64) -> (r: Result<u64, RecordError>)
        requires
            old(self).well_formed(),
        ensures
            final(self).well_formed(),
            r == start_outcome(old(self).ranges_of(cam@), old(self).next_id_of(cam@), old(self).frames_of(cam@), now),
            r is Ok ==> final(self).ranges_of(cam@) == opened_state(
                old(self).ranges_of(cam@),
                old(self).next_id_of(cam@),
                now,
            ) && final(self).next_id_of(cam@) == old(self).next_id_of(cam@) + 1,
            r is Err ==> final(self).ranges_of(cam@) == old(self).ranges_of(cam@)
                && final(self).next_id_of(cam@) == old(self).next_id_of(cam@),
            final(self).frames_of(cam@) == old(self).frames_of(cam@),
            final(self).log_of(cam@) is Some,
            final(self).others_unchanged(old(self), cam@),
    {
        let i = self.register(cam);
        let ghost mid = *self;
        let mut log = self.logs.remove(i);
        let r = log.open_session(now);
        self.logs.insert(i, log);
        proof {
            assert(self.logs@ =~= mid.logs@.update(i as int, log));
            Self::lemma_replaced(mid, *self, i as int, cam@);
        }
        r
    }

    /// Closes session `id` of camera `cam` at `now` (see
    /// `CameraLog::close_session`); `NotFound` for an unknown camera.
    pub fn close_session(&mut self, cam: &String, id: u64, now: i64) -> (r: Result<(), RecordError>)
        requires
            old(self).well_formed(),
        ensures
            final(self).well_formed(),
            r == stop_outcome(old(self).ranges_of(cam@), old(self).frames_of(cam@), id, now),
            r is Ok ==> final(self).ranges_of(cam@) == closed_state(old(self).ranges_of(cam@), id, now),
            r is Err ==> final(self).ranges_of(cam@) == old(self).ranges_of(cam@),
            final(self).frames_of(cam@) == old(self).frames_of(cam@),
            final(self).next_id_of(cam@) == old(self).next_id_of(cam@),
            final(self).others_unchanged(old(self), cam@),
            old(self).log_of(cam@) is None ==> *final(self) == *old(self),
    {
        proof {
            lemma_find_name(self.names(), cam@);
        }
        match self.position(cam) {
            None => {
                proof {
                    assert(find_id(Seq::<RangeRecord>::empty(), id) == -1);
                }
                Err(RecordError::NotFound)
            },
            Some(i) => {
                let ghost mid = *self;
                let mut log = self.logs.remove(i);
                let r = log.close_session(id, now);
                self.logs.insert(i, log);
                proof {
                    assert(self.logs@ =~= mid.logs@.update(i as int, log));
                    Self::lemma_replaced(mid, *self, i as int, cam@);
                }
                r
            },
        }
    }

    /// Sets the cloud flag of session `id` of camera `cam`; `NotFound` when
    /// either is unknown.
    pub fn mark_cloud(&mut self, cam: &String, id: u64, flag: bool) -> (r: Result<(), RecordError>)
        requires
            old(self).well_formed(),
        ensures
            final(self).well_formed(),
            r is Err <==> find_id(old(self).ranges_of(cam@), id) < 0,
            r is Err ==> r == Err::<(), RecordError>(RecordError::NotFound),
            final(self).ranges_of(cam@) == marked_state(old(self).ranges_of(cam@), id, flag),
            final(self).frames_of(cam@) == old(self).frames_of(cam@),
            final(self).next_id_of(cam@) == old(self).next_id_of(cam@),
            final(self).others_unchanged(old(self), cam@),
    {
        proof {
            lemma_find_name(self.names(), cam@);
        }
        match self.position(cam) {
            None => {
                proof {
                    assert(find_id(Seq::<RangeRecord>::empty(), id) == -1);
                }
                Err(RecordError::NotFound)
            },
            Some(i) => {
                let ghost mid = *self;
                let mut log = self.logs.remove(i);
                let r = log.mark_cloud(id, flag);
                self.logs.insert(i, log);
                proof {
                    assert(self.logs@ =~= mid.logs@.update(i as int, log));
                    Self::lemma_replaced(mid, *self, i as int, cam@);
                }
                r
            },
        }
    }

    /// Appends a frame of camera `cam` (see `CameraLog::append_frame`);
    /// `NotFound` for an unknown camera.
    pub fn append_frame(&mut self, cam: &String, ts: i64, payload: Vec<u8>) -> (r: Result<(), RecordError>)
        requires
            old(self).well_formed(),
        ensures
            final(self).well_formed(),
            r == record_outcome(old(self).ranges_of(cam@), old(self).frames_of(cam@), ts),
            r is Ok ==> final(self).frames_of(cam@) == old(self).frames_of(cam@).push((ts as u64, payload@)),
            r is Err ==> final(self).frames_of(cam@) == old(self).frames_of(cam@),
            final(self).ranges_of(cam@) == old(self).ranges_of(cam@),
            final(self).next_id_of(cam@) == old(self).next_id_of(cam@),
            final(self).others_unchanged(old(self), cam@),
    {
        proof {
            lemma_find_name(self.names(), cam@);
        }
        match self.position(cam) {
            None => Err(RecordError::NotFound),
            Some(i) => {
                let ghost mid = *self;
                let mut log = self.logs.remove(i);
                let r = log.append_frame(ts, payload);
                self.logs.insert(i, log);
                proof {
                    assert(self.logs@ =~= mid.logs@.update(i as int, log));
                    Self::lemma_replaced(mid, *self, i as int, cam@);
                }
                r
            },
        }
    }

    /// Drops the archive of UTC day `day` of camera `cam`; nothing happens
    /// for an unknown camera.
    pub fn drop_day(&mut self, cam: &String, day: u64)
        requires
            old(self).well_formed(),
        ensures
            final(self).well_formed(),
            final(self).frames_of(cam@) == without_day(old(self).frames_of(cam@), day),
            final(self).ranges_of(cam@) == old(self).ranges_of(cam@),
            final(self).next_id_of(cam@) == old(self).next_id_of(cam@),
            final(self).others_unchanged(old(self), cam@),
    {
        proof {
            lemma_find_name(self.names(), cam@);
        }
        match self.position(cam) {
            None => {
                proof {
                    assert(without_day(Seq::<(u64, Seq<u8>)>::empty(), day) =~= Seq::<(u64, Seq<u8>)>::empty());
                }
            },
            Some(i) => {
                let ghost mid = *self;
                let mut log = self.logs.remove(i);
                log.drop_day(day);
                self.logs.insert(i, log);
                proof {
                    assert(self.logs@ =~= mid.logs@.update(i as int, log));
                    Self::lemma_replaced(mid, *self, i as int, cam@);
                }
            },
        }
    }

    /// The session of camera `cam` covering `ts` (see `RangeIndex::locate`);
    /// `{0, 0}` for an unknown camera.
    pub fn locate(&self, cam: &String, ts: i64, last_frame: i64) -> (r: RangeTime)
        requires
            self.well_formed(),
        ensures
            r == locate_spec(self.ranges_of(cam@), ts as int, last_frame),
            r.start != 0 ==> r.start <= ts,
    {
        match self.position(cam) {
            None => RangeTime::new(),
            Some(i) => self.logs[i].locate(ts, last_frame),
        }
    }

    /// The session of camera `cam` covering `ts`, an open end filled with the
    /// camera's latest frame; `{0, 0}` for an unknown camera.
    pub fn resolve(&self, cam: &String, ts: i64) -> (r: RangeTime)
        requires
            self.well_formed(),
        ensures
            r == locate_spec(self.ranges_of(cam@), ts as int, last_frame_spec(self.frames_of(cam@))),
    {
        match self.position(cam) {
            None => RangeTime::new(),
            Some(i) => self.logs[i].resolve(ts),
        }
    }

    /// The sessions of camera `cam` starting within `[lo, hi]`, in start order.
    pub fn between(&self, cam: &String, lo: i64, hi: i64) -> (r: Vec<RangeTime>)
        requires
            self.well_formed(),
        ensures
            r@ == between_spec(self.ranges_of(cam@), lo as int, hi as int),
    {
        match self.position(cam) {
            None => Vec::new(),
            Some(i) => self.logs[i].between(lo, hi),
        }
    }

    /// The frames of camera `cam` captured within `[lo, hi]`, in order.
    pub fn playback(&self, cam: &String, lo: u64, hi: u64) -> (r: Vec<Frame>)
        requires
            self.well_formed(),
        ensures
            frames_view(r@) == window(self.frames_of(cam@), lo, hi),
    {
        match self.position(cam) {
            None => {
                let r: Vec<Frame> = Vec::new();
                assert(frames_view(r@) =~= Seq::<(u64, Seq<u8>)>::empty());
                r
            },
            Some(i) => self.logs[i].playback(lo, hi),
        }
    }
}

} // verus!

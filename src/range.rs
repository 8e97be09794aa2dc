use vstd::prelude::*;
use crate::error::RecordError;

verus! {

/// A contiguous recording interval as the playback side sees it.
/// `end == 0` stands for a session that is still open.
#[derive(Clone, Copy, Debug, PartialEq, Eq, Structural)]
pub struct RangeTime {
    pub start: i64,
    pub end: i64,
}

impl RangeTime {
    /// The empty answer `{0, 0}`.
    pub fn new() -> (r: RangeTime)
        ensures
            r.start == 0,
            r.end == 0,
    {
        RangeTime { start: 0, end: 0 }
    }
}

impl Default for RangeTime {
    fn default() -> (r: RangeTime)
        ensures
            r.start == 0,
            r.end == 0,
    {
        RangeTime::new()
    }
}

/// One recording session of a camera.
#[derive(Clone, Copy, Debug, PartialEq, Eq, Structural)]
pub struct RangeRecord {
    pub id: u64,
    pub start: i64,
    pub end: i64,
    pub record_cloud: bool,
}

/// The session log of one camera, kept in ascending order of `start`.
pub struct RangeIndex {
    records: Vec<RangeRecord>,
    next_id: u64,
}

pub open spec fn is_open(r: RangeRecord) -> bool {
    r.end == 0
}

/// Well-formed session logs: positive starts, closed ranges never end before
/// they start, starts strictly ascending, every range but the last closed, and
/// each closed range ending no later than any later range starts.
pub open spec fn valid_ranges(s: Seq<RangeRecord>) -> bool {
    &&& forall|i: int|
        0 <= i < s.len() ==> #[trigger] s[i].start > 0 && (s[i].end == 0 || s[i].end >= s[i].start)
    &&& forall|i: int, j: int|
        0 <= i < j < s.len() ==> #[trigger] s[i].start < #[trigger] s[j].start && s[i].end != 0
            && s[i].end <= s[j].start
}

pub open spec fn unique_ids(s: Seq<RangeRecord>, next_id: u64) -> bool {
    &&& forall|i: int| 0 <= i < s.len() ==> #[trigger] s[i].id < next_id
    &&& forall|i: int, j: int|
        0 <= i < s.len() && 0 <= j < s.len() && i != j ==> #[trigger] s[i].id != #[trigger] s[j].id
}

/// Does the range cover `ts`? An open range reaches to infinity.
pub open spec fn covers(r: RangeRecord, ts: int) -> bool {
    r.start <= ts && (r.end >= ts || r.end == 0)
}

/// The covering range with the greatest start, in a log sorted by start.
pub open spec fn latest_covering(s: Seq<RangeRecord>, ts: int) -> Option<RangeRecord>
    decreases s.len(),
{
    if s.len() == 0 {
        None
    } else if covers(s.last(), ts) {
        Some(s.last())
    } else {
        latest_covering(s.drop_last(), ts)
    }
}

/// The answer of a point lookup: the covering range, its open end replaced
/// by the latest persisted frame, or `{0, 0}` when nothing covers `ts`.
pub open spec fn locate_spec(s: Seq<RangeRecord>, ts: int, last_frame: i64) -> RangeTime {
    match latest_covering(s, ts) {
        Some(r) => RangeTime { start: r.start, end: if r.end == 0 { last_frame } else { r.end } },
        None => RangeTime { start: 0, end: 0 },
    }
}

pub open spec fn as_range_time(r: RangeRecord) -> RangeTime {
    RangeTime { start: r.start, end: r.end }
}

/// The ranges whose start lies in `[lo, hi]`, in log order.
pub open spec fn between_spec(s: Seq<RangeRecord>, lo: int, hi: int) -> Seq<RangeTime>
    decreases s.len(),
{
    if s.len() == 0 {
        Seq::empty()
    } else {
        let prefix = between_spec(s.drop_last(), lo, hi);
        if lo <= s.last().start <= hi {
            prefix.push(as_range_time(s.last()))
        } else {
            prefix
        }
    }
}


/// Position of the session with id `id`, searching from the newest; -1 if none.
pub open spec fn find_id(s: Seq<RangeRecord>, id: u64) -> int
    decreases s.len(),
{
    if s.len() == 0 {
        -1
    } else if s.last().id == id {
        s.len() - 1
    } else {
        find_id(s.drop_last(), id)
    }
}

/// What closing session `id` at `now` answers.
pub open spec fn close_outcome(s: Seq<RangeRecord>, id: u64, now: i64) -> Result<(), RecordError> {
    let i = find_id(s, id);
    if i < 0 {
        Err(RecordError::NotFound)
    } else if s[i].end != 0 {
        Err(RecordError::AlreadyClosed)
    } else if now < s[i].start {
        Err(RecordError::InvalidTimestamp)
    } else {
        Ok(())
    }
}

/// The log after closing session `id` at `now` (unchanged when that fails).
pub open spec fn closed_state(s: Seq<RangeRecord>, id: u64, now: i64) -> Seq<RangeRecord> {
    let i = find_id(s, id);
    if close_outcome(s, id, now) is Ok {
        s.update(i, RangeRecord { end: now, ..s[i] })
    } else {
        s
    }
}

/// The log after setting the cloud flag of session `id` (unchanged if absent).
pub open spec fn marked_state(s: Seq<RangeRecord>, id: u64, flag: bool) -> Seq<RangeRecord> {
    let i = find_id(s, id);
    if i < 0 {
        s
    } else {
        s.update(i, RangeRecord { record_cloud: flag, ..s[i] })
    }
}

/// What opening a session at `now` answers: the new id, or why it is refused.
pub open spec fn open_outcome(s: Seq<RangeRecord>, next_id: u64, now: i64) -> Result<u64, RecordError> {
    if now <= 0 {
        Err(RecordError::InvalidTimestamp)
    } else if s.len() > 0 && (now < s.last().start || (s.last().end != 0 && s.last().end > now)) {
        Err(RecordError::InvalidTimestamp)
    } else if s.len() > 0 && s.last().start == now && now == i64::MAX {
        Err(RecordError::Conflict)
    } else if next_id == u64::MAX {
        Err(RecordError::Conflict)
    } else {
        Ok(next_id)
    }
}

/// The log with a dangling open session closed at `now`.
pub open spec fn recovered(s: Seq<RangeRecord>, now: i64) -> Seq<RangeRecord> {
    if s.len() > 0 && s.last().end == 0 {
        s.update(s.len() - 1, RangeRecord { end: now, ..s.last() })
    } else {
        s
    }
}

/// Start of a session opened at `now`: bumped by one nanosecond when the
/// latest session started at the same instant.
pub open spec fn session_start(s: Seq<RangeRecord>, now: i64) -> int {
    if s.len() > 0 && s.last().start == now {
        now + 1
    } else {
        now as int
    }
}

/// The log after a successful `open_session` at `now`.
pub open spec fn opened_state(s: Seq<RangeRecord>, next_id: u64, now: i64) -> Seq<RangeRecord> {
    recovered(s, now).push(
        RangeRecord { id: next_id, start: session_start(s, now) as i64, end: 0, record_cloud: false },
    )
}

/// Number of sessions that start before `start`, in a log sorted by start.
pub open spec fn insert_pos(s: Seq<RangeRecord>, start: i64) -> int
    decreases s.len(),
{
    if s.len() == 0 {
        0
    } else if s.last().start < start {
        s.len() as int
    } else {
        insert_pos(s.drop_last(), start)
    }
}

/// Can `[start, end]` be placed at position `p` without breaking the order?
pub open spec fn fits_at(s: Seq<RangeRecord>, p: int, start: i64, end: i64) -> bool {
    &&& (p == 0 || (s[p - 1].end != 0 && s[p - 1].end <= start))
    &&& (p == s.len() || (s[p].start > start && end != 0 && end <= s[p].start))
}

/// What inserting the range `[start, end]` answers.
pub open spec fn insert_outcome(s: Seq<RangeRecord>, next_id: u64, start: i64, end: i64) -> Result<u64, RecordError> {
    if start <= 0 || (end != 0 && end < start) {
        Err(RecordError::InvalidTimestamp)
    } else if !fits_at(s, insert_pos(s, start), start, end) || next_id == u64::MAX {
        Err(RecordError::Conflict)
    } else {
        Ok(next_id)
    }
}

/// The log after a successful `insert_range`.
pub open spec fn inserted_state(s: Seq<RangeRecord>, next_id: u64, start: i64, end: i64) -> Seq<RangeRecord> {
    s.insert(insert_pos(s, start), RangeRecord { id: next_id, start, end, record_cloud: false })
}

pub proof fn lemma_insert_pos(s: Seq<RangeRecord>, start: i64)
    requires
        valid_ranges(s),
    ensures
        0 <= insert_pos(s, start) <= s.len(),
        forall|k: int| 0 <= k < insert_pos(s, start) ==> #[trigger] s[k].start < start,
        forall|k: int| insert_pos(s, start) <= k < s.len() ==> #[trigger] s[k].start >= start,
    decreases s.len(),
{
    if s.len() > 0 {
        let t = s.drop_last();
        assert(valid_ranges(t)) by {
            assert forall|i: int, j: int| 0 <= i < j < t.len() implies #[trigger] t[i].start < #[trigger] t[j].start
                && t[i].end != 0 && t[i].end <= t[j].start by {
                assert(t[i] == s[i] && t[j] == s[j]);
            }
        }
        lemma_insert_pos(t, start);
        assert forall|k: int| 0 <= k < t.len() implies #[trigger] s[k] == t[k] by {}
        if s.last().start < start {
            assert forall|k: int| 0 <= k < s.len() implies #[trigger] s[k].start < start by {
                if k < s.len() - 1 {
                    assert(s[k].start < s[s.len() - 1].start);
                }
            }
        }
    }
}

pub proof fn lemma_find_id(s: Seq<RangeRecord>, id: u64)
    ensures
        -1 <= find_id(s, id) < s.len(),
        find_id(s, id) >= 0 ==> s[find_id(s, id)].id == id,
        find_id(s, id) < 0 ==> forall|k: int| 0 <= k < s.len() ==> #[trigger] s[k].id != id,
    decreases s.len(),
{
    if s.len() > 0 {
        lemma_find_id(s.drop_last(), id);
        assert forall|k: int| 0 <= k < s.len() - 1 implies #[trigger] s[k] == s.drop_last()[k] by {}
    }
}

impl RangeIndex {
    /// The sessions, in ascending order of start.
    pub closed spec fn ranges(&self) -> Seq<RangeRecord> {
        self.records@
    }

    /// The id that the next inserted session receives.
    pub closed spec fn next_id_spec(&self) -> u64 {
        self.next_id
    }

    pub open spec fn well_formed(&self) -> bool {
        &&& valid_ranges(self.ranges())
        &&& unique_ids(self.ranges(), self.next_id_spec())
        &&& self.next_id_spec() >= 1
    }

    /// An empty log whose first session gets id 1.
    pub fn new() -> (r: RangeIndex)
        ensures
            r.well_formed(),
            r.ranges().len() == 0,
            r.next_id_spec() == 1,
    {
        RangeIndex { records: Vec::new(), next_id: 1 }
    }

    pub fn len(&self) -> (r: usize)
        ensures
            r == self.ranges().len(),
    {
        self.records.len()
    }

    /// The session at position `i` in start order.
    pub fn get(&self, i: usize) -> (r: RangeRecord)
        requires
            i < self.ranges().len(),
        ensures
            r == self.ranges()[i as int],
    {
        self.records[i]
    }

    /// The range covering `ts` with the greatest start; an open range has its
    /// end replaced by `last_frame`; `{0, 0}` when no range covers `ts`.
    pub fn locate(&self, ts: i64, last_frame: i64) -> (r: RangeTime)
        requires
            self.well_formed(),
        ensures
            r == locate_spec(self.ranges(), ts as int, last_frame),
            r.start != 0 ==> r.start <= ts,
    {
        let mut i: usize = self.records.len();
        proof {
            assert(self.records@.subrange(0, i as int) =~= self.records@);
        }
        while i > 0
            invariant
                i <= self.records@.len(),
                valid_ranges(self.records@),
                latest_covering(self.records@, ts as int) == latest_covering(
                    self.records@.subrange(0, i as int),
                    ts as int,
                ),
            decreases i,
        {
            let rec = self.records[i - 1];
            proof {
                let s = self.records@.subrange(0, i as int);
                assert(s.drop_last() =~= self.records@.subrange(0, i - 1));
            }
            if rec.start <= ts && (rec.end >= ts || rec.end == 0) {
                let end = if rec.end == 0 { last_frame } else { rec.end };
                return RangeTime { start: rec.start, end };
            }
            i = i - 1;
        }
        proof {
            assert(self.records@.subrange(0, 0) =~= Seq::<RangeRecord>::empty());
        }
        RangeTime::new()
    }


    /// Position of the session with id `id`, searching from the newest.
    fn position_of(&self, id: u64) -> (r: Option<usize>)
        ensures
            match r {
                Some(i) => i as int == find_id(self.ranges(), id),
                None => find_id(self.ranges(), id) < 0,
            },
    {
        let mut i: usize = self.records.len();
        proof {
            assert(self.records@.subrange(0, i as int) =~= self.records@);
        }
        while i > 0
            invariant
                i <= self.records@.len(),
                find_id(self.records@, id) == find_id(self.records@.subrange(0, i as int), id),
            decreases i,
        {
            proof {
                let s = self.records@.subrange(0, i as int);
                assert(s.drop_last() =~= self.records@.subrange(0, i - 1));
            }
            if self.records[i - 1].id == id {
                return Some(i - 1);
            }
            i = i - 1;
        }
        None
    }


    /// Opens a session at `now`. A dangling open session is first closed at
    /// `now`; a start equal to the latest session's start is bumped by one
    /// nanosecond so that starts stay unique. Refused with `InvalidTimestamp`
    /// when `now` is not positive or precedes the latest session, with
    /// `Conflict` when no unique start or id is left; a refusal changes nothing.
    pub fn open_session(&mut self, now: i64) -> (r: Result<u64, RecordError>)
        requires
            old(self).well_formed(),
        ensures
            final(self).well_formed(),
            r == open_outcome(old(self).ranges(), old(self).next_id_spec(), now),
            r is Ok ==> final(self).ranges() == opened_state(old(self).ranges(), old(self).next_id_spec(), now)
                && final(self).next_id_spec() == old(self).next_id_spec() + 1,
            r is Err ==> final(self).ranges() == old(self).ranges()
                && final(self).next_id_spec() == old(self).next_id_spec(),
    {
        let n = self.records.len();
        if now <= 0 {
            return Err(RecordError::InvalidTimestamp);
        }
        let mut start = now;
        if n > 0 {
            let last = self.records[n - 1];
            if now < last.start || (last.end != 0 && last.end > now) {
                return Err(RecordError::InvalidTimestamp);
            }
            if last.start == now {
                if now == i64::MAX {
                    return Err(RecordError::Conflict);
                }
                start = now + 1;
            }
        }
        if self.next_id == u64::MAX {
            return Err(RecordError::Conflict);
        }
        let ghost s = self.records@;
        if n > 0 && self.records[n - 1].end == 0 {
            let last = self.records[n - 1];
            self.records.set(n - 1, RangeRecord { end: now, ..last });
        }
        assert(self.records@ == recovered(s, now));
        let id = self.next_id;
        self.records.push(RangeRecord { id, start, end: 0, record_cloud: false });
        self.next_id = self.next_id + 1;
        proof {
            let t = self.records@;
            assert(t == opened_state(s, id, now));
            assert forall|a: int| 0 <= a < t.len() implies #[trigger] t[a].start > 0 && (t[a].end == 0
                || t[a].end >= t[a].start) by {
                if a < n {
                    assert(s[a].start > 0);
                }
            }
            assert forall|a: int, b: int| 0 <= a < b < t.len() implies #[trigger] t[a].start
                < #[trigger] t[b].start && t[a].end != 0 && t[a].end <= t[b].start by {
                if b < n {
                    assert(s[a].start < s[b].start && s[a].end != 0 && s[a].end <= s[b].start);
                } else if a < n - 1 {
                    assert(s[a].start < s[n - 1].start && s[a].end != 0 && s[a].end <= s[n - 1].start);
                }
            }
            assert forall|a: int, b: int| 0 <= a < t.len() && 0 <= b < t.len() && a != b
                implies #[trigger] t[a].id != #[trigger] t[b].id by {
                if a < n && b < n {
                    assert(s[a].id != s[b].id);
                } else if a < n {
                    assert(s[a].id < id);
                } else if b < n {
                    assert(s[b].id < id);
                }
            }
            assert forall|a: int| 0 <= a < t.len() implies #[trigger] t[a].id < self.next_id by {
                if a < n {
                    assert(s[a].id < id);
                }
            }
        }
        Ok(id)
    }

    /// Inserts the range `[start, end]` (`end == 0`: still open) at its place
    /// in start order, as when a log is reloaded from storage. Refused with
    /// `InvalidTimestamp` when `start` is not positive or a closed range ends
    /// before it starts, with `Conflict` when it would share a start with,
    /// overlap or follow an open range, or no id is left; a refusal changes nothing.
    pub fn insert_range(&mut self, start: i64, end: i64) -> (r: Result<u64, RecordError>)
        requires
            old(self).well_formed(),
        ensures
            final(self).well_formed(),
            r == insert_outcome(old(self).ranges(), old(self).next_id_spec(), start, end),
            r is Ok ==> final(self).ranges() == inserted_state(old(self).ranges(), old(self).next_id_spec(), start, end)
                && final(self).next_id_spec() == old(self).next_id_spec() + 1,
            r is Err ==> final(self).ranges() == old(self).ranges()
                && final(self).next_id_spec() == old(self).next_id_spec(),
    {
        if start <= 0 || (end != 0 && end < start) {
            return Err(RecordError::InvalidTimestamp);
        }
        let ghost s = self.records@;
        let n = self.records.len();
        let mut p: usize = n;
        proof {
            assert(s.subrange(0, p as int) =~= s);
        }
        while p > 0 && self.records[p - 1].start >= start
            invariant
                p <= n,
                n == s.len(),
                self.records@ == s,
                insert_pos(s, start) == insert_pos(s.subrange(0, p as int), start),
            decreases p,
        {
            proof {
                let t = s.subrange(0, p as int);
                assert(t.drop_last() =~= s.subrange(0, p - 1));
            }
            p = p - 1;
        }
        proof {
            if p > 0 {
                let t = s.subrange(0, p as int);
                assert(t.last() == s[p - 1]);
            }
            lemma_insert_pos(s, start);
        }
        assert(p == insert_pos(s, start));
        if p > 0 {
            let prev = self.records[p - 1];
            if prev.end == 0 || prev.end > start {
                return Err(RecordError::Conflict);
            }
        }
        if p < n {
            let next = self.records[p];
            if next.start == start || end == 0 || end > next.start {
                return Err(RecordError::Conflict);
            }
        }
        if self.next_id == u64::MAX {
            return Err(RecordError::Conflict);
        }
        let id = self.next_id;
        let rec = RangeRecord { id, start, end, record_cloud: false };
        self.records.insert(p, rec);
        self.next_id = self.next_id + 1;
        proof {
            let t = self.records@;
            assert(t == inserted_state(s, id, start, end));
            assert forall|a: int| 0 <= a < t.len() implies #[trigger] t[a].start > 0 && (t[a].end == 0
                || t[a].end >= t[a].start) && t[a].id < self.next_id by {
                if a < p {
                    assert(t[a] == s[a]);
                } else if a > p {
                    assert(t[a] == s[a - 1]);
                }
            }
            assert forall|a: int, b: int| 0 <= a < b < t.len() implies #[trigger] t[a].start
                < #[trigger] t[b].start && t[a].end != 0 && t[a].end <= t[b].start by {
                assert(t[p as int] == rec);
                if b < p {
                    assert(t[a] == s[a] && t[b] == s[b]);
                } else if b == p {
                    assert(t[a] == s[a]);
                    assert(s[a].start < start);
                    if a < p - 1 {
                        assert(s[a].end <= s[p - 1].start);
                        assert(s[p - 1].start < start);
                    }
                } else if a < p {
                    assert(t[a] == s[a] && t[b] == s[b - 1]);
                    assert(s[a].start < s[b - 1].start && s[a].end != 0 && s[a].end <= s[b - 1].start);
                } else if a == p {
                    assert(t[b] == s[b - 1]);
                    assert(s[p as int].start > start && end != 0 && end <= s[p as int].start);
                    if b - 1 > p {
                        assert(s[p as int].start < s[b - 1].start);
                    }
                } else {
                    assert(t[a] == s[a - 1] && t[b] == s[b - 1]);
                }
            }
            assert forall|a: int, b: int| 0 <= a < t.len() && 0 <= b < t.len() && a != b
                implies #[trigger] t[a].id != #[trigger] t[b].id by {
                let sa = if a < p { a } else { a - 1 };
                let sb = if b < p { b } else { b - 1 };
                if a != p && b != p {
                    assert(t[a] == s[sa] && t[b] == s[sb]);
                } else if a != p {
                    assert(t[a] == s[sa]);
                } else {
                    assert(t[b] == s[sb]);
                }
            }
        }
        Ok(id)
    }

    /// What `close_session(id, now)` would answer, without closing anything.
    pub fn check_close(&self, id: u64, now: i64) -> (r: Result<(), RecordError>)
        ensures
            r == close_outcome(self.ranges(), id, now),
    {
        proof {
            lemma_find_id(self.records@, id);
        }
        match self.position_of(id) {
            None => Err(RecordError::NotFound),
            Some(i) => {
                if self.records[i].end != 0 {
                    Err(RecordError::AlreadyClosed)
                } else if now < self.records[i].start {
                    Err(RecordError::InvalidTimestamp)
                } else {
                    Ok(())
                }
            },
        }
    }

    /// Closes session `id` with end `now`. Fails with `NotFound` when no
    /// session has that id, `AlreadyClosed` when it has an end already, and
    /// `InvalidTimestamp` when `now` precedes its start; a failure changes nothing.
    pub fn close_session(&mut self, id: u64, now: i64) -> (r: Result<(), RecordError>)
        requires
            old(self).well_formed(),
        ensures
            final(self).well_formed(),
            r == close_outcome(old(self).ranges(), id, now),
            final(self).ranges() == closed_state(old(self).ranges(), id, now),
            final(self).next_id_spec() == old(self).next_id_spec(),
    {
        proof {
            lemma_find_id(self.records@, id);
        }
        match self.position_of(id) {
            None => Err(RecordError::NotFound),
            Some(i) => {
                let rec = self.records[i];
                if rec.end != 0 {
                    Err(RecordError::AlreadyClosed)
                } else if now < rec.start {
                    Err(RecordError::InvalidTimestamp)
                } else {
                    let ghost s = self.records@;
                    self.records.set(i, RangeRecord { end: now, ..rec });
                    proof {
                        let t = self.records@;
                        assert forall|a: int, b: int| 0 <= a < b < t.len() implies #[trigger] t[a].start
                            < #[trigger] t[b].start && t[a].end != 0 && t[a].end <= t[b].start by {
                            assert(s[a].start < s[b].start && s[a].end != 0);
                        }
                        assert forall|a: int, b: int| 0 <= a < t.len() && 0 <= b < t.len() && a != b
                            implies #[trigger] t[a].id != #[trigger] t[b].id by {
                            assert(s[a].id != s[b].id);
                        }
                        assert forall|a: int| 0 <= a < t.len() implies #[trigger] t[a].id < self.next_id by {
                            assert(s[a].id < self.next_id);
                        }
                    }
                    Ok(())
                }
            },
        }
    }

    /// Sets the cloud flag of session `id`; `NotFound` when no session has that id.
    pub fn mark_cloud(&mut self, id: u64, flag: bool) -> (r: Result<(), RecordError>)
        requires
            old(self).well_formed(),
        ensures
            final(self).well_formed(),
            r is Err <==> find_id(old(self).ranges(), id) < 0,
            r is Err ==> r == Err::<(), RecordError>(RecordError::NotFound),
            final(self).ranges() == marked_state(old(self).ranges(), id, flag),
            final(self).next_id_spec() == old(self).next_id_spec(),
    {
        proof {
            lemma_find_id(self.records@, id);
        }
        match self.position_of(id) {
            None => Err(RecordError::NotFound),
            Some(i) => {
                let rec = self.records[i];
                let ghost s = self.records@;
                self.records.set(i, RangeRecord { record_cloud: flag, ..rec });
                proof {
                    let t = self.records@;
                    assert forall|a: int| 0 <= a < t.len() implies #[trigger] t[a].start > 0 && (t[a].end == 0
                        || t[a].end >= t[a].start) by {
                        assert(s[a].start > 0);
                    }
                    assert forall|a: int, b: int| 0 <= a < b < t.len() implies #[trigger] t[a].start
                        < #[trigger] t[b].start && t[a].end != 0 && t[a].end <= t[b].start by {
                        assert(s[a].start < s[b].start && s[a].end != 0);
                    }
                    assert forall|a: int, b: int| 0 <= a < t.len() && 0 <= b < t.len() && a != b
                        implies #[trigger] t[a].id != #[trigger] t[b].id by {
                        assert(s[a].id != s[b].id);
                    }
                    assert forall|a: int| 0 <= a < t.len() implies #[trigger] t[a].id < self.next_id by {
                        assert(s[a].id < self.next_id);
                    }
                }
                Ok(())
            },
        }
    }

    /// The ranges whose start lies in `[lo, hi]`, in ascending order of start.
    pub fn between(&self, lo: i64, hi: i64) -> (r: Vec<RangeTime>)
        ensures
            r@ == between_spec(self.ranges(), lo as int, hi as int),
    {
        let mut out: Vec<RangeTime> = Vec::new();
        let mut i: usize = 0;
        while i < self.records.len()
            invariant
                i <= self.records@.len(),
                out@ == between_spec(self.records@.subrange(0, i as int), lo as int, hi as int),
            decreases self.records@.len() - i,
        {
            let rec = self.records[i];
            proof {
                let s = self.records@.subrange(0, i + 1);
                assert(s.drop_last() =~= self.records@.subrange(0, i as int));
            }
            if lo <= rec.start && rec.start <= hi {
                out.push(RangeTime { start: rec.start, end: rec.end });
            }
            i = i + 1;
        }
        proof {
            assert(self.records@.subrange(0, i as int) =~= self.records@);
        }
        out
    }
}

} // verus!

verus! {

/// At any instant a camera has at most one open session.
pub proof fn lemma_at_most_one_open(idx: RangeIndex)
    requires
        idx.well_formed(),
    ensures
        forall|i: int, j: int|
            0 <= i < idx.ranges().len() && 0 <= j < idx.ranges().len() && is_open(#[trigger] idx.ranges()[i])
                && is_open(#[trigger] idx.ranges()[j]) ==> i == j,
{
    let s = idx.ranges();
    assert forall|i: int, j: int|
        0 <= i < s.len() && 0 <= j < s.len() && is_open(#[trigger] s[i]) && is_open(#[trigger] s[j]) implies i == j by {
        if i < j {
            assert(s[i].start < s[j].start);
        } else if j < i {
            assert(s[j].start < s[i].start);
        }
    }
}

/// Closed sessions never overlap: of two closed sessions, the one that starts
/// first ends no later than the other starts.
pub proof fn lemma_closed_ranges_disjoint(idx: RangeIndex)
    requires
        idx.well_formed(),
    ensures
        forall|i: int, j: int|
            0 <= i < idx.ranges().len() && 0 <= j < idx.ranges().len() && !is_open(#[trigger] idx.ranges()[i])
                && !is_open(#[trigger] idx.ranges()[j]) && idx.ranges()[i].start < idx.ranges()[j].start
                ==> idx.ranges()[i].end <= idx.ranges()[j].start,
{
    let s = idx.ranges();
    assert forall|i: int, j: int|
        0 <= i < s.len() && 0 <= j < s.len() && !is_open(#[trigger] s[i]) && !is_open(#[trigger] s[j])
            && s[i].start < s[j].start implies s[i].end <= s[j].start by {
        if j < i {
            assert(s[j].start < s[i].start);
        } else if i < j {
            assert(s[i].end <= s[j].start);
        }
    }
}

/// Every session starts at a positive instant and is either open or ends no
/// earlier than it starts.
pub proof fn lemma_range_bounds(idx: RangeIndex)
    requires
        idx.well_formed(),
    ensures
        forall|i: int|
            0 <= i < idx.ranges().len() ==> #[trigger] idx.ranges()[i].start > 0 && (idx.ranges()[i].end == 0
                || idx.ranges()[i].end >= idx.ranges()[i].start),
{
}

/// Closing a session that was closed already answers `AlreadyClosed` and
/// leaves its end as the first close set it.
pub proof fn lemma_close_idempotent(idx: RangeIndex, id: u64, t1: i64, t2: i64)
    requires
        idx.well_formed(),
        close_outcome(idx.ranges(), id, t1) is Ok,
    ensures
        close_outcome(closed_state(idx.ranges(), id, t1), id, t2) == Err::<(), RecordError>(RecordError::AlreadyClosed),
        closed_state(closed_state(idx.ranges(), id, t1), id, t2) == closed_state(idx.ranges(), id, t1),
{
    let s = idx.ranges();
    let t = closed_state(s, id, t1);
    lemma_find_id(s, id);
    lemma_find_id(t, id);
    let i = find_id(s, id);
    assert(t[i].id == id && t[i].end == t1 && t1 >= s[i].start && s[i].start > 0);
    let k = find_id(t, id);
    if k != i {
        assert(t[k] == s[k]);
        assert(s[k].id != s[i].id);
    }
}

} // verus!

verus! {

/// The recording range that covers `timestamp` in a camera's session log;
/// an open range ends at `last_record_frame`; `{0, 0}` when none covers it.
pub fn record_specific_time_range_query(index: &RangeIndex, timestamp: i64, last_record_frame: i64) -> (r: RangeTime)
    requires
        index.well_formed(),
    ensures
        r == locate_spec(index.ranges(), timestamp as int, last_record_frame),
        r.start != 0 ==> r.start <= timestamp,
{
    index.locate(timestamp, last_record_frame)
}

} // verus!

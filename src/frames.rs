use vstd::prelude::*;
use crate::error::RecordError;

verus! {

/// Nanoseconds in one UTC day.
pub const NANOS_PER_DAY: u64 = 86_400_000_000_000;

/// The UTC day (days since the Unix epoch) that holds the instant `ts`.
pub open spec fn day_spec(ts: u64) -> u64 {
    ts / NANOS_PER_DAY
}

/// The archive day of a frame captured at `ts` nanoseconds.
pub fn day_of(ts: u64) -> (d: u64)
    ensures
        d == day_spec(ts),
{
    ts / NANOS_PER_DAY
}

/// The 16-byte big-endian key of the instant `ts`.
pub open spec fn key_of(ts: u64) -> Seq<u8> {
    seq![
        0u8, 0u8, 0u8, 0u8, 0u8, 0u8, 0u8, 0u8,
        (ts >> 56u64) as u8, (ts >> 48u64) as u8, (ts >> 40u64) as u8, (ts >> 32u64) as u8,
        (ts >> 24u64) as u8, (ts >> 16u64) as u8, (ts >> 8u64) as u8, ts as u8,
    ]
}

/// Encodes a frame timestamp as the key under which the frame is stored, so
/// that byte order of keys is numeric order of timestamps.
pub fn frame_key(ts: u64) -> (k: Vec<u8>)
    ensures
        k@ == key_of(ts),
{
    let k = vec![
        0u8, 0u8, 0u8, 0u8, 0u8, 0u8, 0u8, 0u8,
        (ts >> 56u64) as u8, (ts >> 48u64) as u8, (ts >> 40u64) as u8, (ts >> 32u64) as u8,
        (ts >> 24u64) as u8, (ts >> 16u64) as u8, (ts >> 8u64) as u8, ts as u8,
    ];
    assert(k@ =~= key_of(ts));
    k
}

/// Decodes a stored frame key; `None` when the bytes are no key of any instant.
pub fn key_timestamp(k: &[u8]) -> (r: Option<u64>)
    ensures
        match r {
            Some(t) => key_of(t) == k@,
            None => forall|t: u64| key_of(t) != k@,
    },
{
    if k.len() != 16 {
        proof {
            assert forall|t: u64| key_of(t) != k@ by {
                assert(key_of(t).len() == 16);
            }
        }
        return None;
    }
    let mut i: usize = 0;
    while i < 8
        invariant
            i <= 8,
            k@.len() == 16,
            forall|j: int| 0 <= j < i ==> k@[j] == 0u8,
        decreases 8 - i,
    {
        if k[i] != 0 {
            proof {
                assert forall|t: u64| key_of(t) != k@ by {
                    assert(key_of(t)[i as int] == 0u8);
                }
            }
            return None;
        }
        i = i + 1;
    }
    let b0 = k[8] as u64;
    let b1 = k[9] as u64;
    let b2 = k[10] as u64;
    let b3 = k[11] as u64;
    let b4 = k[12] as u64;
    let b5 = k[13] as u64;
    let b6 = k[14] as u64;
    let b7 = k[15] as u64;
    let t: u64 = (b0 << 56u64) | (b1 << 48u64) | (b2 << 40u64) | (b3 << 32u64) | (b4 << 24u64)
        | (b5 << 16u64) | (b6 << 8u64) | b7;
    assert(
        b0 < 256 && b1 < 256 && b2 < 256 && b3 < 256 && b4 < 256 && b5 < 256 && b6 < 256 && b7 < 256
        && t == ((b0 << 56u64) | (b1 << 48u64) | (b2 << 40u64) | (b3 << 32u64) | (b4 << 24u64)
        | (b5 << 16u64) | (b6 << 8u64) | b7) ==> (t >> 56u64) as u8 == b0 as u8 && (t >> 48u64) as u8
        == b1 as u8 && (t >> 40u64) as u8 == b2 as u8 && (t >> 32u64) as u8 == b3 as u8 && (t
        >> 24u64) as u8 == b4 as u8 && (t >> 16u64) as u8 == b5 as u8 && (t >> 8u64) as u8 == b6
        as u8 && t as u8 == b7 as u8
    ) by (bit_vector);
    assert(key_of(t) =~= k@);
    Some(t)
}


/// One captured frame: its instant and its encoded payload.
pub struct Frame {
    pub ts: u64,
    pub payload: Vec<u8>,
}

pub open spec fn frame_view(f: Frame) -> (u64, Seq<u8>) {
    (f.ts, f.payload@)
}

pub open spec fn frames_view(s: Seq<Frame>) -> Seq<(u64, Seq<u8>)> {
    s.map_values(|f: Frame| frame_view(f))
}

/// The frames of `s` captured within `[lo, hi]`, in order.
pub open spec fn window(s: Seq<(u64, Seq<u8>)>, lo: u64, hi: u64) -> Seq<(u64, Seq<u8>)>
    decreases s.len(),
{
    if s.len() == 0 {
        Seq::empty()
    } else {
        let prefix = window(s.drop_last(), lo, hi);
        if lo <= s.last().0 <= hi {
            prefix.push(s.last())
        } else {
            prefix
        }
    }
}

/// The frames of `s` outside UTC day `day`, in order.
pub open spec fn without_day(s: Seq<(u64, Seq<u8>)>, day: u64) -> Seq<(u64, Seq<u8>)>
    decreases s.len(),
{
    if s.len() == 0 {
        Seq::empty()
    } else {
        let prefix = without_day(s.drop_last(), day);
        if day_spec(s.last().0) == day {
            prefix
        } else {
            prefix.push(s.last())
        }
    }
}

/// Frame sequences with positive, strictly ascending instants.
pub open spec fn ascending(s: Seq<(u64, Seq<u8>)>) -> bool {
    &&& forall|i: int| 0 <= i < s.len() ==> #[trigger] s[i].0 > 0
    &&& forall|i: int, j: int| 0 <= i < j < s.len() ==> #[trigger] s[i].0 < #[trigger] s[j].0
}

/// What appending a frame at `ts` answers.
pub open spec fn append_outcome(s: Seq<(u64, Seq<u8>)>, ts: u64) -> Result<(), RecordError> {
    if ts == 0 || (s.len() > 0 && ts <= s.last().0) {
        Err(RecordError::InvalidTimestamp)
    } else {
        Ok(())
    }
}

/// The frame archive of one camera, in ascending order of capture instant;
/// the frames of one UTC day form that day's archive.
pub struct FrameStore {
    frames: Vec<Frame>,
}

fn copy_bytes(b: &Vec<u8>) -> (r: Vec<u8>)
    ensures
        r@ == b@,
{
    let mut r: Vec<u8> = Vec::new();
    let mut i: usize = 0;
    while i < b.len()
        invariant
            i <= b@.len(),
            r@ == b@.subrange(0, i as int),
        decreases b@.len() - i,
    {
        r.push(b[i]);
        i = i + 1;
        assert(r@ =~= b@.subrange(0, i as int));
    }
    assert(b@.subrange(0, i as int) =~= b@);
    r
}

impl FrameStore {
    /// The stored frames as (instant, payload) pairs, in ascending order.
    pub closed spec fn view(&self) -> Seq<(u64, Seq<u8>)> {
        frames_view(self.frames@)
    }

    pub open spec fn well_formed(&self) -> bool {
        ascending(self.view())
    }

    pub fn new() -> (r: FrameStore)
        ensures
            r.well_formed(),
            r.view() == Seq::<(u64, Seq<u8>)>::empty(),
    {
        let r = FrameStore { frames: Vec::new() };
        assert(r.view() =~= Seq::<(u64, Seq<u8>)>::empty());
        r
    }

    pub fn len(&self) -> (r: usize)
        ensures
            r == self.view().len(),
    {
        self.frames.len()
    }

    /// The instant of the latest frame, if any.
    pub fn last_instant(&self) -> (r: Option<u64>)
        ensures
            r == if self.view().len() == 0 {
                None
            } else {
                Some(self.view().last().0)
            },
    {
        let n = self.frames.len();
        if n == 0 {
            None
        } else {
            Some(self.frames[n - 1].ts)
        }
    }

    /// Appends the frame captured at `ts`. Instants must be positive and
    /// strictly ascending: a duplicate or older instant is refused with
    /// `InvalidTimestamp` and nothing changes.
    pub fn append_frame(&mut self, ts: u64, payload: Vec<u8>) -> (r: Result<(), RecordError>)
        requires
            old(self).well_formed(),
        ensures
            final(self).well_formed(),
            r == append_outcome(old(self).view(), ts),
            r is Ok ==> final(self).view() == old(self).view().push((ts, payload@)),
            r is Err ==> final(self).view() == old(self).view(),
    {
        let n = self.frames.len();
        if ts == 0 || (n > 0 && ts <= self.frames[n - 1].ts) {
            return Err(RecordError::InvalidTimestamp);
        }
        let ghost s = self.view();
        self.frames.push(Frame { ts, payload });
        proof {
            assert(self.view() =~= s.push((ts, payload@)));
            let t = self.view();
            assert forall|i: int, j: int| 0 <= i < j < t.len() implies #[trigger] t[i].0 < #[trigger] t[j].0 by {
                if j < n {
                    assert(s[i].0 < s[j].0);
                } else if i < n - 1 {
                    assert(s[i].0 < s[n - 1].0);
                }
            }
        }
        Ok(())
    }

    /// The frames captured within `[lo, hi]`, in ascending order of instant,
    /// across day boundaries.
    pub fn playback(&self, lo: u64, hi: u64) -> (r: Vec<Frame>)
        ensures
            frames_view(r@) == window(self.view(), lo, hi),
    {
        let mut out: Vec<Frame> = Vec::new();
        let mut i: usize = 0;
        while i < self.frames.len()
            invariant
                i <= self.frames@.len(),
                frames_view(out@) == window(frames_view(self.frames@.subrange(0, i as int)), lo, hi),
            decreases self.frames@.len() - i,
        {
            let f = &self.frames[i];
            proof {
                let s = frames_view(self.frames@.subrange(0, i + 1));
                assert(s.drop_last() =~= frames_view(self.frames@.subrange(0, i as int)));
            }
            if lo <= f.ts && f.ts <= hi {
                let ghost before = out@;
                out.push(Frame { ts: f.ts, payload: copy_bytes(&f.payload) });
                assert(frames_view(out@) =~= frames_view(before).push(frame_view(*f)));
            }
            i = i + 1;
        }
        proof {
            assert(self.frames@.subrange(0, i as int) =~= self.frames@);
        }
        out
    }

    /// Removes the archive of UTC day `day`.
    pub fn drop_day(&mut self, day: u64)
        requires
            old(self).well_formed(),
        ensures
            final(self).well_formed(),
            final(self).view() == without_day(old(self).view(), day),
    {
        let mut kept: Vec<Frame> = Vec::new();
        let ghost s = self.view();
        let mut i: usize = 0;
        while i < self.frames.len()
            invariant
                i <= self.frames@.len(),
                s == frames_view(self.frames@),
                ascending(s),
                frames_view(kept@) == without_day(frames_view(self.frames@.subrange(0, i as int)), day),
                forall|j: int| 0 <= j < kept@.len() ==> exists|k: int| 0 <= k < i && #[trigger] kept@[j].ts == s[k].0,
                ascending(frames_view(kept@)),
            decreases self.frames@.len() - i,
        {
            let f = &self.frames[i];
            proof {
                let p = frames_view(self.frames@.subrange(0, i + 1));
                assert(p.drop_last() =~= frames_view(self.frames@.subrange(0, i as int)));
            }
            if f.ts / NANOS_PER_DAY != day {
                let ghost before = kept@;
                kept.push(Frame { ts: f.ts, payload: copy_bytes(&f.payload) });
                proof {
                    assert(frames_view(kept@) =~= frames_view(before).push(frame_view(*f)));
                    assert(s[i as int] == frame_view(*f));
                    let t = frames_view(kept@);
                    assert forall|a: int, b: int| 0 <= a < b < t.len() implies #[trigger] t[a].0 < #[trigger] t[b].0 by {
                        if b == t.len() - 1 {
                            assert(kept@[a].ts == t[a].0);
                            let k = choose|k: int| 0 <= k < i && #[trigger] kept@[a].ts == s[k].0;
                            assert(s[k].0 < s[i as int].0);
                        } else {
                            assert(frames_view(before)[a].0 < frames_view(before)[b].0);
                        }
                    }
                    assert forall|j: int| 0 <= j < kept@.len() implies exists|k: int| 0 <= k < i + 1 && #[trigger] kept@[j].ts == s[k].0 by {
                        if j < kept@.len() - 1 {
                            let k = choose|k: int| 0 <= k < i && #[trigger] before[j].ts == s[k].0;
                            assert(kept@[j] == before[j]);
                            assert(kept@[j].ts == s[k].0);
                        } else {
                            assert(kept@[j].ts == s[i as int].0);
                        }
                    }
                }
            }
            i = i + 1;
        }
        proof {
            assert(self.frames@.subrange(0, i as int) =~= self.frames@);
        }
        self.frames = kept;
    }
}

/// Decoding the key of an instant gives the instant back.
pub proof fn lemma_key_round_trip(ts: u64, t: u64)
    requires
        key_of(t) == key_of(ts),
    ensures
        t == ts,
{
    let a = key_of(t);
    let b = key_of(ts);
    assert(a[8] == b[8] && a[9] == b[9] && a[10] == b[10] && a[11] == b[11]);
    assert(a[12] == b[12] && a[13] == b[13] && a[14] == b[14] && a[15] == b[15]);
    assert(
        (t >> 56u64) as u8 == (ts >> 56u64) as u8 && (t >> 48u64) as u8 == (ts >> 48u64) as u8 && (t
        >> 40u64) as u8 == (ts >> 40u64) as u8 && (t >> 32u64) as u8 == (ts >> 32u64) as u8 && (t
        >> 24u64) as u8 == (ts >> 24u64) as u8 && (t >> 16u64) as u8 == (ts >> 16u64) as u8 && (t
        >> 8u64) as u8 == (ts >> 8u64) as u8 && t as u8 == ts as u8 ==> t == ts
    ) by (bit_vector);
}

} // verus!

verus! {

proof fn lemma_window_below(s: Seq<(u64, Seq<u8>)>, ts: u64)
    requires
        forall|i: int| 0 <= i < s.len() ==> #[trigger] s[i].0 < ts,
    ensures
        window(s, ts, ts) == Seq::<(u64, Seq<u8>)>::empty(),
    decreases s.len(),
{
    if s.len() > 0 {
        let t = s.drop_last();
        assert forall|i: int| 0 <= i < t.len() implies #[trigger] t[i].0 < ts by {
            assert(t[i] == s[i]);
        }
        lemma_window_below(t, ts);
        assert(s[s.len() - 1].0 < ts);
    }
}

/// Appending a frame at `ts` and then playing back `[ts, ts]` yields exactly
/// that frame.
pub proof fn lemma_append_then_playback(store: FrameStore, ts: u64, payload: Seq<u8>)
    requires
        store.well_formed(),
        append_outcome(store.view(), ts) is Ok,
    ensures
        window(store.view().push((ts, payload)), ts, ts) == seq![(ts, payload)],
{
    let s = store.view();
    assert forall|i: int| 0 <= i < s.len() implies #[trigger] s[i].0 < ts by {
        if i < s.len() - 1 {
            assert(s[i].0 < s[s.len() - 1].0);
        }
    }
    lemma_window_below(s, ts);
    assert(s.push((ts, payload)).drop_last() =~= s);
    assert(window(s.push((ts, payload)), ts, ts) =~= seq![(ts, payload)]);
}

} // verus!

verus! {

/// The UTC days from the day of `lo` to the day of `hi`, ascending: the
/// archives that a playback of `[lo, hi]` reads.
pub fn days_between(lo: u64, hi: u64) -> (r: Vec<u64>)
    ensures
        lo <= hi ==> r@.len() == day_spec(hi) - day_spec(lo) + 1,
        lo > hi ==> r@.len() == 0,
        forall|k: int| 0 <= k < r@.len() ==> #[trigger] r@[k] == day_spec(lo) + k,
{
    let mut out: Vec<u64> = Vec::new();
    if lo > hi {
        return out;
    }
    let first = day_of(lo);
    let last = day_of(hi);
    assert(first <= last) by (nonlinear_arith)
        requires
            lo <= hi,
            first == lo / NANOS_PER_DAY,
            last == hi / NANOS_PER_DAY,
    ;
    let mut d = first;
    while d <= last
        invariant
            first <= d <= last + 1,
            last < u64::MAX,
            out@.len() == d - first,
            forall|k: int| 0 <= k < out@.len() ==> #[trigger] out@[k] == first + k,
        decreases last + 1 - d,
    {
        out.push(d);
        d = d + 1;
    }
    out
}

} // verus!

verus! {

/// Every frame left after dropping a day was there before.
pub proof fn lemma_without_day_subset(s: Seq<(u64, Seq<u8>)>, day: u64)
    ensures
        forall|k: int|
            0 <= k < without_day(s, day).len() ==> exists|j: int| 0 <= j < s.len() && #[trigger] without_day(s, day)[k] == s[j],
    decreases s.len(),
{
    if s.len() > 0 {
        let t = s.drop_last();
        lemma_without_day_subset(t, day);
        let w = without_day(s, day);
        let p = without_day(t, day);
        assert forall|k: int| 0 <= k < w.len() implies exists|j: int| 0 <= j < s.len() && #[trigger] w[k] == s[j] by {
            if k < p.len() {
                let j = choose|j: int| 0 <= j < t.len() && #[trigger] p[k] == t[j];
                assert(w[k] == p[k]);
                assert(s[j] == t[j]);
            } else {
                assert(w[k] == s[s.len() - 1]);
            }
        }
    }
}

} // verus!

use lexhub_record::error::RecordError;
use lexhub_record::frames::{day_of, days_between, frame_key, key_timestamp, FrameStore, NANOS_PER_DAY};
use lexhub_record::recording::CameraLog;

#[test]
fn day_rollover_in_playback() {
    let a_ts: i64 = 1_704_153_599_900_000_000;
    let b_ts: i64 = 1_704_153_600_100_000_000;
    assert_ne!(day_of(a_ts as u64), day_of(b_ts as u64));
    let mut e = CameraLog::new();
    assert_eq!(e.open_session(a_ts), Ok(1));
    assert_eq!(e.append_frame(a_ts, b"a".to_vec()), Ok(()));
    assert_eq!(e.append_frame(b_ts, b"b".to_vec()), Ok(()));
    let out = e.playback(a_ts as u64 - 1, b_ts as u64 + 1);
    assert_eq!(out.len(), 2);
    assert_eq!((out[0].ts, out[0].payload.clone()), (a_ts as u64, b"a".to_vec()));
    assert_eq!((out[1].ts, out[1].payload.clone()), (b_ts as u64, b"b".to_vec()));
    assert_eq!(days_between(a_ts as u64, b_ts as u64), vec![19_723, 19_724]);
}

#[test]
fn append_then_playback_round_trip() {
    let mut s = FrameStore::new();
    assert_eq!(s.append_frame(500, vec![9, 8]), Ok(()));
    assert_eq!(s.append_frame(700, vec![7]), Ok(()));
    let out = s.playback(700, 700);
    assert_eq!(out.len(), 1);
    assert_eq!(out[0].ts, 700);
    assert_eq!(out[0].payload, vec![7]);
    assert_eq!(s.last_instant(), Some(700));
}

#[test]
fn append_rejects_duplicates() {
    let mut s = FrameStore::new();
    assert_eq!(s.append_frame(0, vec![]), Err(RecordError::InvalidTimestamp));
    assert_eq!(s.append_frame(10, vec![]), Ok(()));
    assert_eq!(s.append_frame(10, vec![]), Err(RecordError::InvalidTimestamp));
    assert_eq!(s.append_frame(9, vec![]), Err(RecordError::InvalidTimestamp));
    assert_eq!(s.len(), 1);
}

#[test]
fn drop_day_removes_one_archive() {
    let mut s = FrameStore::new();
    let d = NANOS_PER_DAY;
    assert_eq!(s.append_frame(d - 1, vec![1]), Ok(()));
    assert_eq!(s.append_frame(d, vec![2]), Ok(()));
    assert_eq!(s.append_frame(2 * d + 5, vec![3]), Ok(()));
    s.drop_day(1);
    let out = s.playback(0, u64::MAX);
    let ts: Vec<u64> = out.iter().map(|f| f.ts).collect();
    assert_eq!(ts, vec![d - 1, 2 * d + 5]);
}

#[test]
fn frame_key_is_big_endian() {
    let k = frame_key(0x0102_0304_0506_0708);
    assert_eq!(k, vec![0, 0, 0, 0, 0, 0, 0, 0, 1, 2, 3, 4, 5, 6, 7, 8]);
    assert_eq!(k, (0x0102_0304_0506_0708u128).to_be_bytes().to_vec());
    assert_eq!(key_timestamp(&k), Some(0x0102_0304_0506_0708));
    assert!(frame_key(999) < frame_key(1000));
    assert_eq!(key_timestamp(&[0u8; 15]), None);
    let mut high = vec![0u8; 16];
    high[0] = 1;
    assert_eq!(key_timestamp(&high), None);
}

#[test]
fn day_of_utc_days() {
    assert_eq!(day_of(0), 0);
    assert_eq!(day_of(NANOS_PER_DAY - 1), 0);
    assert_eq!(day_of(NANOS_PER_DAY), 1);
    assert_eq!(days_between(5, 4), Vec::<u64>::new());
}

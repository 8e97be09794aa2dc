use lexhub_record::error::RecordError;
use lexhub_record::range::RangeTime;
use lexhub_record::recorder::Recorder;

fn cam(s: &str) -> String {
    s.to_string()
}

#[test]
fn recorder_scenarios_per_camera() {
    let mut rec = Recorder::new();
    let a = cam("A");
    assert_eq!(rec.open_session(&a, 1_000), Ok(1));
    assert_eq!(rec.append_frame(&a, 1_100, b"x".to_vec()), Ok(()));
    assert_eq!(rec.close_session(&a, 1, 2_000), Ok(()));
    assert_eq!(rec.locate(&a, 1_500, 0), RangeTime { start: 1_000, end: 2_000 });
    assert_eq!(rec.open_session(&a, 5_000), Ok(2));
    assert_eq!(rec.append_frame(&a, 5_300, b"y".to_vec()), Ok(()));
    assert_eq!(rec.locate(&a, 5_400, 5_300), RangeTime { start: 5_000, end: 5_300 });

    let b = cam("B");
    assert_eq!(rec.open_session(&b, 42), Ok(1));
    assert_eq!(rec.open_session(&b, 42), Ok(2));
    assert_eq!(
        rec.between(&b, 0, 100),
        vec![RangeTime { start: 42, end: 42 }, RangeTime { start: 43, end: 0 }]
    );

    let c = cam("C");
    assert_eq!(rec.locate(&c, 100, 0), RangeTime { start: 0, end: 0 });
    assert_eq!(rec.between(&c, 0, 100), Vec::<RangeTime>::new());
    assert!(rec.playback(&c, 0, 100).is_empty());
    assert_eq!(rec.close_session(&c, 1, 100), Err(RecordError::NotFound));
    assert_eq!(rec.append_frame(&c, 100, vec![]), Err(RecordError::NotFound));
    assert_eq!(rec.mark_cloud(&c, 1, true), Err(RecordError::NotFound));

    let frames = rec.playback(&a, 1_100, 1_100);
    assert_eq!(frames.len(), 1);
    assert_eq!((frames[0].ts, frames[0].payload.clone()), (1_100, b"x".to_vec()));
    assert_eq!(rec.mark_cloud(&a, 2, true), Ok(()));
    assert_eq!(rec.close_session(&a, 2, 5_300), Ok(()));
    assert_eq!(rec.close_session(&a, 2, 6_000), Err(RecordError::AlreadyClosed));
    assert_eq!(rec.locate(&a, 5_300, 0), RangeTime { start: 5_000, end: 5_300 });
}

#[test]
fn recorder_day_rollover() {
    let mut rec = Recorder::new();
    let e = cam("E");
    let a_ts: i64 = 1_704_153_599_900_000_000;
    let b_ts: i64 = 1_704_153_600_100_000_000;
    assert_eq!(rec.open_session(&e, a_ts), Ok(1));
    assert_eq!(rec.append_frame(&e, a_ts, b"a".to_vec()), Ok(()));
    assert_eq!(rec.append_frame(&e, b_ts, b"b".to_vec()), Ok(()));
    let out = rec.playback(&e, 1_704_153_599_000_000_000, 1_704_153_601_000_000_000);
    let payloads: Vec<Vec<u8>> = out.iter().map(|f| f.payload.clone()).collect();
    assert_eq!(payloads, vec![b"a".to_vec(), b"b".to_vec()]);
}

#[test]
fn recorder_resolve_and_drop_day() {
    let mut rec = Recorder::new();
    let f = cam("F");
    let day: i64 = 86_400_000_000_000;
    assert_eq!(rec.resolve(&f, 10), RangeTime { start: 0, end: 0 });
    assert_eq!(rec.open_session(&f, day - 10), Ok(1));
    assert_eq!(rec.append_frame(&f, day - 5, vec![1]), Ok(()));
    assert_eq!(rec.append_frame(&f, day + 5, vec![2]), Ok(()));
    assert_eq!(rec.resolve(&f, day), RangeTime { start: day - 10, end: day + 5 });
    rec.drop_day(&f, 0);
    let left: Vec<u64> = rec.playback(&f, 0, u64::MAX).iter().map(|x| x.ts).collect();
    assert_eq!(left, vec![(day + 5) as u64]);
    assert_eq!(rec.between(&f, 0, 2 * day), vec![RangeTime { start: day - 10, end: 0 }]);
}

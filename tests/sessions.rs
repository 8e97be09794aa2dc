use lexhub_record::error::RecordError;
use lexhub_record::range::{record_specific_time_range_query, RangeIndex, RangeTime};
use lexhub_record::recording::CameraLog;

fn rt(start: i64, end: i64) -> RangeTime {
    RangeTime { start, end }
}

#[test]
fn open_close_basic() {
    let mut a = CameraLog::new();
    assert_eq!(a.open_session(1_000), Ok(1));
    assert_eq!(a.append_frame(1_100, b"x".to_vec()), Ok(()));
    assert_eq!(a.close_session(1, 2_000), Ok(()));
    assert_eq!(a.locate(1_500, 0), rt(1_000, 2_000));
}

#[test]
fn open_session_still_running() {
    let mut a = CameraLog::new();
    assert_eq!(a.open_session(1_000), Ok(1));
    assert_eq!(a.append_frame(1_100, b"x".to_vec()), Ok(()));
    assert_eq!(a.close_session(1, 2_000), Ok(()));
    assert_eq!(a.open_session(5_000), Ok(2));
    assert_eq!(a.append_frame(5_300, b"y".to_vec()), Ok(()));
    assert_eq!(a.locate(5_400, 5_300), rt(5_000, 5_300));
    assert_eq!(a.resolve(5_400), rt(5_000, 5_300));
}

#[test]
fn unique_start_collision() {
    let mut b = RangeIndex::new();
    assert_eq!(b.open_session(42), Ok(1));
    assert_eq!(b.open_session(42), Ok(2));
    assert_eq!(b.between(0, 100), vec![rt(42, 42), rt(43, 0)]);
    assert_eq!(b.get(0).end, 42);
    assert_eq!(b.get(1).start, 43);
}

#[test]
fn point_outside_any_range() {
    let c = RangeIndex::new();
    assert_eq!(c.locate(100, 0), rt(0, 0));
    assert_eq!(record_specific_time_range_query(&c, 100, 0), rt(0, 0));
}

#[test]
fn between_query_ordering() {
    let mut d = RangeIndex::new();
    assert_eq!(d.insert_range(300, 350), Ok(1));
    assert_eq!(d.insert_range(100, 150), Ok(2));
    assert_eq!(d.insert_range(200, 250), Ok(3));
    let starts: Vec<i64> = d.between(0, 1_000).iter().map(|r| r.start).collect();
    assert_eq!(starts, vec![100, 200, 300]);
    assert_eq!(d.between(150, 250), vec![rt(200, 250)]);
}

#[test]
fn close_twice_reports_already_closed() {
    let mut idx = RangeIndex::new();
    assert_eq!(idx.open_session(10), Ok(1));
    assert_eq!(idx.close_session(1, 20), Ok(()));
    assert_eq!(idx.close_session(1, 30), Err(RecordError::AlreadyClosed));
    assert_eq!(idx.get(0).end, 20);
}

#[test]
fn close_errors() {
    let mut idx = RangeIndex::new();
    assert_eq!(idx.close_session(7, 20), Err(RecordError::NotFound));
    assert_eq!(idx.open_session(100), Ok(1));
    assert_eq!(idx.close_session(1, 50), Err(RecordError::InvalidTimestamp));
    assert_eq!(idx.get(0).end, 0);
}

#[test]
fn open_refuses_bad_instants() {
    let mut idx = RangeIndex::new();
    assert_eq!(idx.open_session(0), Err(RecordError::InvalidTimestamp));
    assert_eq!(idx.open_session(-5), Err(RecordError::InvalidTimestamp));
    assert_eq!(idx.open_session(100), Ok(1));
    assert_eq!(idx.open_session(50), Err(RecordError::InvalidTimestamp));
    assert_eq!(idx.close_session(1, 200), Ok(()));
    assert_eq!(idx.open_session(150), Err(RecordError::InvalidTimestamp));
    assert_eq!(idx.len(), 1);
    assert_eq!(idx.open_session(i64::MAX), Ok(2));
    assert_eq!(idx.open_session(i64::MAX), Err(RecordError::Conflict));
}

#[test]
fn recovery_close_of_dangling_session() {
    let mut idx = RangeIndex::new();
    assert_eq!(idx.open_session(1_000), Ok(1));
    assert_eq!(idx.open_session(3_000), Ok(2));
    assert_eq!(idx.between(0, 10_000), vec![rt(1_000, 3_000), rt(3_000, 0)]);
    assert_eq!(idx.locate(3_000, 3_500), rt(3_000, 3_500));
}

#[test]
fn at_most_one_open_session() {
    let mut idx = RangeIndex::new();
    for t in [10i64, 20, 20, 40, 55] {
        let _ = idx.open_session(t);
        let open = (0..idx.len()).filter(|&i| idx.get(i).end == 0).count();
        assert!(open <= 1);
    }
}

#[test]
fn closed_ranges_do_not_overlap() {
    let mut idx = RangeIndex::new();
    assert_eq!(idx.insert_range(100, 200), Ok(1));
    assert_eq!(idx.insert_range(150, 160), Err(RecordError::Conflict));
    assert_eq!(idx.insert_range(190, 300), Err(RecordError::Conflict));
    assert_eq!(idx.insert_range(100, 100), Err(RecordError::Conflict));
    assert_eq!(idx.insert_range(200, 200), Ok(2));
    assert_eq!(idx.insert_range(50, 0), Err(RecordError::Conflict));
    assert_eq!(idx.insert_range(300, 250), Err(RecordError::InvalidTimestamp));
    assert_eq!(idx.insert_range(0, 10), Err(RecordError::InvalidTimestamp));
    for i in 0..idx.len() {
        for j in 0..idx.len() {
            let (a, b) = (idx.get(i), idx.get(j));
            if a.start < b.start {
                assert!(a.end <= b.start);
            }
        }
    }
}

#[test]
fn locate_prefers_latest_start() {
    let mut idx = RangeIndex::new();
    assert_eq!(idx.insert_range(100, 200), Ok(1));
    assert_eq!(idx.open_session(200), Ok(2));
    assert_eq!(idx.between(0, 1_000), vec![rt(100, 200), rt(200, 0)]);
    assert_eq!(idx.locate(200, 0), rt(200, 0));
    assert_eq!(idx.locate(199, 250), rt(100, 200));
    assert_eq!(idx.locate(201, 250), rt(200, 250));
    let r = idx.locate(150, 0);
    assert!(r.start <= 150);
}

#[test]
fn mark_cloud_sets_flag() {
    let mut idx = RangeIndex::new();
    assert_eq!(idx.mark_cloud(1, true), Err(RecordError::NotFound));
    assert_eq!(idx.open_session(5), Ok(1));
    assert_eq!(idx.mark_cloud(1, true), Ok(()));
    assert!(idx.get(0).record_cloud);
}

#[test]
fn range_time_new_is_zero() {
    assert_eq!(RangeTime::new(), rt(0, 0));
    assert_eq!(RangeTime::default(), rt(0, 0));
}

#[test]
fn camera_log_guards() {
    let mut log = CameraLog::new();
    assert_eq!(log.append_frame(5, vec![1]), Err(RecordError::NotFound));
    assert_eq!(log.open_session(10), Ok(1));
    assert_eq!(log.append_frame(5, vec![1]), Err(RecordError::InvalidTimestamp));
    assert_eq!(log.append_frame(20, vec![1]), Ok(()));
    assert_eq!(log.append_frame(20, vec![2]), Err(RecordError::InvalidTimestamp));
    assert_eq!(log.close_session(1, 15), Err(RecordError::InvalidTimestamp));
    assert_eq!(log.open_session(15), Err(RecordError::InvalidTimestamp));
    assert_eq!(log.close_session(1, 20), Ok(()));
    assert_eq!(log.close_session(1, 25), Err(RecordError::AlreadyClosed));
    assert_eq!(log.append_frame(30, vec![3]), Err(RecordError::NotFound));
    assert_eq!(log.mark_cloud(1, true), Ok(()));
    assert_eq!(log.between(0, 100), vec![rt(10, 20)]);
}

use utrakr::record::LogEvent;
use utrakr::ulid::Ulid;
use utrakr::views::{get_views_data, ViewsAccumulator, ViewsError, ViewsRequest};

const START: i64 = 1_599_998_400; // a whole hour, in seconds

fn redirect_at(millis: i64, random: u64) -> LogEvent {
    at(millis, random, "redirect")
}

fn at(millis: i64, random: u64, category: &str) -> LogEvent {
    LogEvent {
        id: Ulid::from_datetime_with_source(millis, 0, random),
        app: "utrakr-api".to_string(),
        category: category.to_string(),
        event: "{}".to_string(),
    }
}

fn hour_request() -> ViewsRequest {
    ViewsRequest {
        from_date: START * 1000,
        to_date: (START + 3600) * 1000,
        group_by_duration: None,
    }
}

#[test]
fn ten_redirects_in_one_hour() {
    let events: Vec<LogEvent> = (0..10).map(|i| redirect_at((START + i) * 1000, i as u64)).collect();
    let data = get_views_data(&events, "redirect", &hour_request()).unwrap();
    assert_eq!(data.x, vec![START]);
    assert_eq!(data.y, vec![10]);
}

#[test]
fn two_writers_merge_into_one_bucket() {
    // two writer instances, read back in an order that is not chronological
    let first: Vec<LogEvent> = (0..5).map(|i| redirect_at((START + i) * 1000, 1)).collect();
    let second: Vec<LogEvent> = (5..10).map(|i| redirect_at((START + i) * 1000, 2)).collect();
    let mut events = Vec::new();
    let mut interleaved = Vec::new();
    for e in second.into_iter().chain(first.into_iter()) {
        interleaved.push(e);
    }
    events.push(at(START * 1000, 3, "create"));
    events.push(redirect_at((START + 3600) * 1000, 4));
    events.push(redirect_at(START * 1000 - 1, 5));
    events.extend(interleaved);
    let data = get_views_data(&events, "redirect", &hour_request()).unwrap();
    assert_eq!(data.x, vec![START]);
    assert_eq!(data.y, vec![10]);
}

#[test]
fn buckets_come_out_in_increasing_order() {
    let events = vec![
        redirect_at((START + 125) * 1000, 1),
        redirect_at((START + 5) * 1000, 2),
        redirect_at((START + 61) * 1000 + 999, 3),
        redirect_at((START + 130) * 1000, 4),
    ];
    let request = ViewsRequest {
        from_date: START * 1000,
        to_date: (START + 3600) * 1000,
        group_by_duration: Some(60),
    };
    let data = get_views_data(&events, "redirect", &request).unwrap();
    assert_eq!(data.x, vec![START, START + 60, START + 120]);
    assert_eq!(data.y, vec![1, 1, 2]);
}

#[test]
fn no_events_no_buckets() {
    let data = get_views_data(&Vec::new(), "redirect", &hour_request()).unwrap();
    assert!(data.x.is_empty());
    assert!(data.y.is_empty());
}

#[test]
fn duration_must_be_positive() {
    let request = ViewsRequest {
        from_date: 0,
        to_date: 1,
        group_by_duration: Some(0),
    };
    assert_eq!(
        get_views_data(&Vec::new(), "redirect", &request).err(),
        Some(ViewsError::InvalidDuration)
    );
}

#[test]
fn bucket_for_event() {
    let request = hour_request();
    assert_eq!(request.duration(), 3600);
    let e = redirect_at((START + 1799) * 1000 + 500, 0);
    assert_eq!(request.bucket_for("redirect", &e), Some(START));
    assert_eq!(request.bucket_for("create", &e), None);
}

#[test]
fn accumulator_counts_in_any_order() {
    let mut acc = ViewsAccumulator::new();
    for b in [30i64, 10, 20, 10, 30, 30].iter() {
        acc.add(*b);
    }
    assert_eq!(acc.len(), 6);
    let data = acc.finish();
    assert_eq!(data.x, vec![10, 20, 30]);
    assert_eq!(data.y, vec![2, 1, 3]);
}

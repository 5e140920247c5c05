use asteroidtracker::calendar::CalendarDate;
use asteroidtracker::feed::{
    api_key_or_demo, check_status, feed_request_url, feed_url, is_success_status, FetchError, NeoCache,
};
use asteroidtracker::neo::{
    CloseApproach, DiameterRange, EstimatedDiameter, MissDistance, NearEarthObject,
    RelativeVelocity,
};

fn neo(name: &str) -> NearEarthObject {
    NearEarthObject {
        name: name.to_string(),
        estimated_diameter: EstimatedDiameter {
            meters: DiameterRange { estimated_diameter_min: 0, estimated_diameter_max: 0 },
        },
        close_approach_data: vec![CloseApproach {
            close_approach_date: "2024-03-05".to_string(),
            close_approach_date_full: "2024-Mar-05 12:00".to_string(),
            epoch_date_close_approach: 1709640000000,
            relative_velocity: RelativeVelocity { kilometers_per_hour: "1000".to_string() },
            miss_distance: MissDistance { lunar: "10".to_string() },
        }],
        is_potentially_hazardous_asteroid: false,
    }
}

fn names(feed: &Vec<NearEarthObject>) -> Vec<String> {
    feed.iter().map(|n| n.name.clone()).collect()
}

#[test]
fn api_key_defaults_to_demo_key() {
    assert_eq!(api_key_or_demo(None), "DEMO_KEY");
    assert_eq!(api_key_or_demo(Some("abc123".to_string())), "abc123");
}

#[test]
fn feed_url_names_dates_and_key() {
    assert_eq!(
        feed_url("2024-03-05", "2024-03-12", "DEMO_KEY"),
        "https://api.nasa.gov/neo/rest/v1/feed?start_date=2024-03-05&end_date=2024-03-12&api_key=DEMO_KEY"
    );
}

#[test]
fn feed_request_url_covers_a_week() {
    let today = CalendarDate { year: 2024, month: 2, day: 27 };
    assert_eq!(
        feed_request_url(today, "k"),
        Some(
            "https://api.nasa.gov/neo/rest/v1/feed?start_date=2024-02-27&end_date=2024-03-05&api_key=k"
                .to_string()
        )
    );
    let invalid = CalendarDate { year: 2024, month: 2, day: 30 };
    assert_eq!(feed_request_url(invalid, "k"), None);
}

#[test]
fn success_statuses_are_the_2xx_class() {
    assert!(!is_success_status(199));
    assert!(is_success_status(200));
    assert!(is_success_status(204));
    assert!(is_success_status(299));
    assert!(!is_success_status(300));
    assert!(!is_success_status(404));
    assert!(!is_success_status(500));
}

#[test]
fn fetch_error_messages() {
    assert_eq!(
        FetchError::RequestFailed("timed out".to_string()).message(),
        "NASA request failed: timed out"
    );
    assert_eq!(
        FetchError::BadStatus("429 Too Many Requests".to_string()).message(),
        "NASA API returned 429 Too Many Requests"
    );
    assert_eq!(
        FetchError::InvalidJson("expected value".to_string()).message(),
        "Invalid JSON: expected value"
    );
}

#[test]
fn empty_cache_serves_nothing() {
    let cache = NeoCache::new();
    assert!(cache.lookup(CalendarDate { year: 2024, month: 3, day: 5 }).is_none());
}

#[test]
fn cache_serves_recorded_feed_for_its_day_only() {
    let today = CalendarDate { year: 2024, month: 3, day: 5 };
    let tomorrow = CalendarDate { year: 2024, month: 3, day: 6 };
    let mut cache = NeoCache::new();
    cache.record(today, vec![neo("a"), neo("b")]);
    assert_eq!(names(cache.lookup(today).unwrap()), vec!["a", "b"]);
    assert!(cache.lookup(tomorrow).is_none());
    cache.record(today, vec![neo("c")]);
    assert_eq!(names(cache.lookup(today).unwrap()), vec!["c"]);
}

#[test]
fn cache_does_not_keep_empty_feeds() {
    let today = CalendarDate { year: 2024, month: 3, day: 5 };
    let mut cache = NeoCache::new();
    cache.record(today, Vec::new());
    assert!(cache.lookup(today).is_none());
    cache.record(today, vec![neo("a")]);
    cache.record(today, Vec::new());
    assert_eq!(names(cache.lookup(today).unwrap()), vec!["a"]);
}

#[test]
fn cache_keeps_dates_with_equal_digits_apart() {
    let a = CalendarDate { year: 2024, month: 1, day: 11 };
    let b = CalendarDate { year: 2024, month: 11, day: 1 };
    let mut cache = NeoCache::new();
    cache.record(a, vec![neo("a")]);
    assert!(cache.lookup(b).is_none());
}

#[test]
fn status_check_reports_failures() {
    assert!(check_status(200, "200 OK".to_string()).is_ok());
    match check_status(503, "503 Service Unavailable".to_string()) {
        Err(e) => assert_eq!(e.message(), "NASA API returned 503 Service Unavailable"),
        Ok(()) => panic!("a 503 answer was accepted"),
    }
}

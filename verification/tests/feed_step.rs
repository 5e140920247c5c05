use asteroidtracker::calendar::CalendarDate;
use asteroidtracker::feed::{feed_step, FeedAction, FeedEvent, FetchError, NeoCache};
use asteroidtracker::neo::{
    CloseApproach, DiameterRange, EstimatedDiameter, MissDistance, NearEarthObject,
    RelativeVelocity,
};

fn neo(name: &str, epoch: i64) -> NearEarthObject {
    NearEarthObject {
        name: name.to_string(),
        estimated_diameter: EstimatedDiameter {
            meters: DiameterRange { estimated_diameter_min: 0, estimated_diameter_max: 0 },
        },
        close_approach_data: vec![CloseApproach {
            close_approach_date: "2024-03-05".to_string(),
            close_approach_date_full: "2024-Mar-05 12:00".to_string(),
            epoch_date_close_approach: epoch,
            relative_velocity: RelativeVelocity { kilometers_per_hour: "1000".to_string() },
            miss_distance: MissDistance { lunar: "10".to_string() },
        }],
        is_potentially_hazardous_asteroid: false,
    }
}

fn day() -> CalendarDate {
    CalendarDate { year: 2024, month: 3, day: 5 }
}

fn request(key: Option<&str>) -> FeedEvent {
    FeedEvent::Requested { today: day(), configured_key: key.map(|k| k.to_string()) }
}

#[test]
fn first_request_goes_to_the_feed() {
    let mut cache = NeoCache::new();
    match feed_step(&mut cache, request(None)) {
        FeedAction::Request(url) => assert_eq!(
            url,
            "https://api.nasa.gov/neo/rest/v1/feed?start_date=2024-03-05&end_date=2024-03-12&api_key=DEMO_KEY"
        ),
        _ => panic!("expected a request"),
    }
    match feed_step(&mut cache, request(Some("abc"))) {
        FeedAction::Request(url) => assert!(url.ends_with("&api_key=abc")),
        _ => panic!("expected a request"),
    }
}

#[test]
fn request_without_end_date_is_out_of_range() {
    let mut cache = NeoCache::new();
    let event = FeedEvent::Requested {
        today: CalendarDate { year: 262142, month: 12, day: 30 },
        configured_key: None,
    };
    assert!(matches!(feed_step(&mut cache, event), FeedAction::DateOutOfRange));
}

#[test]
fn answers_are_checked() {
    let mut cache = NeoCache::new();
    let ok = FeedEvent::Answered { status: 200, status_text: "200 OK".to_string() };
    assert!(matches!(feed_step(&mut cache, ok), FeedAction::ReadBody));
    let bad = FeedEvent::Answered { status: 500, status_text: "500 Internal Server Error".to_string() };
    match feed_step(&mut cache, bad) {
        FeedAction::Fail(e) => assert_eq!(e.message(), "NASA API returned 500 Internal Server Error"),
        _ => panic!("expected a failure"),
    }
    let failed = FeedEvent::RequestFailed { error: "connection refused".to_string() };
    match feed_step(&mut cache, failed) {
        FeedAction::Fail(FetchError::RequestFailed(e)) => assert_eq!(e, "connection refused"),
        _ => panic!("expected a failure"),
    }
    let unreadable = FeedEvent::BodyRead { today: day(), body: Err("EOF".to_string()) };
    match feed_step(&mut cache, unreadable) {
        FeedAction::Fail(e) => assert_eq!(e.message(), "Invalid JSON: EOF"),
        _ => panic!("expected a failure"),
    }
}

#[test]
fn accepted_feed_is_served_again_without_a_request() {
    let mut cache = NeoCache::new();
    let body = Some(vec![Some(vec![Some(neo("later", 20)), Some(neo("sooner", 10))])]);
    let accepted = feed_step(&mut cache, FeedEvent::BodyRead { today: day(), body: Ok(body) });
    assert!(matches!(accepted, FeedAction::ServeCached));
    let served: Vec<String> =
        cache.lookup(day()).unwrap().iter().map(|n| n.name.clone()).collect();
    assert_eq!(served, vec!["sooner", "later"]);
    assert!(matches!(feed_step(&mut cache, request(None)), FeedAction::ServeCached));
}

#[test]
fn empty_feed_is_served_but_not_kept() {
    let mut cache = NeoCache::new();
    let body = Some(vec![Some(vec![None])]);
    let accepted = feed_step(&mut cache, FeedEvent::BodyRead { today: day(), body: Ok(body) });
    assert!(matches!(accepted, FeedAction::ServeEmpty));
    assert!(cache.lookup(day()).is_none());
    assert!(matches!(feed_step(&mut cache, request(None)), FeedAction::Request(_)));
}

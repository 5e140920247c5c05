use asteroidtracker::neo::{
    approach_key_of, assemble_feed, collect_days, CloseApproach, DiameterRange,
    EstimatedDiameter, MissDistance, NearEarthObject, RelativeVelocity,
};

fn neo(name: &str, epochs: &[i64]) -> NearEarthObject {
    NearEarthObject {
        name: name.to_string(),
        estimated_diameter: EstimatedDiameter {
            meters: DiameterRange {
                estimated_diameter_min: 10.5f64.to_bits(),
                estimated_diameter_max: 23.4f64.to_bits(),
            },
        },
        close_approach_data: epochs
            .iter()
            .map(|e| CloseApproach {
                close_approach_date: "2024-03-05".to_string(),
                close_approach_date_full: "2024-Mar-05 12:00".to_string(),
                epoch_date_close_approach: *e,
                relative_velocity: RelativeVelocity { kilometers_per_hour: "1000".to_string() },
                miss_distance: MissDistance { lunar: "10".to_string() },
            })
            .collect(),
        is_potentially_hazardous_asteroid: false,
    }
}

fn names(feed: &[NearEarthObject]) -> Vec<String> {
    feed.iter().map(|n| n.name.clone()).collect()
}

#[test]
fn approach_key_is_first_epoch() {
    assert_eq!(approach_key_of(&neo("a", &[30, 10])), 30);
    assert_eq!(approach_key_of(&neo("b", &[])), i64::MAX);
}

#[test]
fn collect_days_skips_unreadable_entries() {
    let days = vec![
        Some(vec![Some(neo("a", &[1])), None, Some(neo("b", &[2]))]),
        Some(vec![]),
        None,
        Some(vec![None]),
        Some(vec![Some(neo("c", &[3]))]),
    ];
    assert_eq!(names(&collect_days(Some(days))), vec!["a", "b", "c"]);
}

#[test]
fn assembled_feed_is_ordered_by_first_approach() {
    let days = vec![
        Some(vec![Some(neo("late", &[300])), Some(neo("none", &[])), None]),
        None,
        Some(vec![Some(neo("early", &[100, 500])), Some(neo("mid", &[200]))]),
    ];
    assert_eq!(names(&assemble_feed(Some(days))), vec!["early", "mid", "late", "none"]);
}

#[test]
fn assembled_feed_keeps_day_order_among_equal_approaches() {
    let days = vec![
        Some(vec![Some(neo("first", &[100])), Some(neo("x", &[])), Some(neo("second", &[100]))]),
        Some(vec![Some(neo("y", &[])), Some(neo("third", &[100]))]),
    ];
    assert_eq!(names(&assemble_feed(Some(days))), vec!["first", "second", "third", "x", "y"]);
}

#[test]
fn assembled_feed_of_nothing_is_empty() {
    assert!(assemble_feed(None).is_empty());
    assert!(assemble_feed(Some(Vec::new())).is_empty());
    assert!(assemble_feed(Some(vec![Some(vec![None, None]), None])).is_empty());
}

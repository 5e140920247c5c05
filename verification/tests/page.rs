use asteroidtracker::neo::{
    CloseApproach, DiameterRange, EstimatedDiameter, MissDistance, NearEarthObject,
    RelativeVelocity,
};
use asteroidtracker::page::{
    feed_view, neo_row, table_headers, table_rows, unavailable_message, FeedView, MeasuredValues,
};
use asteroidtracker::table::SortKey;

fn neo(name: &str, with_approach: bool, hazardous: bool) -> NearEarthObject {
    NearEarthObject {
        name: name.to_string(),
        estimated_diameter: EstimatedDiameter {
            meters: DiameterRange {
                estimated_diameter_min: 120.4f64.to_bits(),
                estimated_diameter_max: 269.6f64.to_bits(),
            },
        },
        close_approach_data: if with_approach {
            vec![CloseApproach {
                close_approach_date: "2024-03-05".to_string(),
                close_approach_date_full: "2024-Mar-05 12:34".to_string(),
                epoch_date_close_approach: 1709642040000,
                relative_velocity: RelativeVelocity {
                    kilometers_per_hour: "54321.123".to_string(),
                },
                miss_distance: MissDistance { lunar: "12.3456".to_string() },
            }]
        } else {
            Vec::new()
        },
        is_potentially_hazardous_asteroid: hazardous,
    }
}

fn measured() -> MeasuredValues {
    MeasuredValues {
        diameter_min: 120,
        diameter_max: 270,
        velocity_text: "54321.12".to_string(),
        velocity_key: 77,
        miss_text: "12.35".to_string(),
        miss_key: 5,
    }
}

fn number(key: &SortKey) -> i64 {
    match key {
        SortKey::Number(n) => *n,
        SortKey::Text(_) => panic!("expected a number key"),
    }
}

#[test]
fn table_has_six_headers() {
    assert_eq!(
        table_headers(),
        vec![
            "Name",
            "Approach Date (UTC)",
            "Diameter (m)",
            "Velocity (km/h)",
            "Miss Distance (LD)",
            "Hazardous"
        ]
    );
}

#[test]
fn row_shows_object() {
    let r = neo_row(&neo("(2024 AB)", true, true), &measured());
    let shown: Vec<&str> = r.iter().map(|c| c.display.as_str()).collect();
    assert_eq!(
        shown,
        vec!["(2024 AB)", "2024-Mar-05 12:34", "120 - 270", "54,321.12", "12.35", "YES"]
    );
    assert!(matches!(r[0].sort_key, SortKey::Text(ref s) if s == "(2024 AB)"));
    assert_eq!(number(&r[1].sort_key), 1709642040000);
    assert_eq!(number(&r[2].sort_key), 120);
    assert_eq!(number(&r[3].sort_key), 77);
    assert_eq!(number(&r[4].sort_key), 5);
    assert_eq!(number(&r[5].sort_key), 1);
}

#[test]
fn row_without_approach() {
    let m = MeasuredValues {
        diameter_min: -3,
        diameter_max: 0,
        velocity_text: "0.00".to_string(),
        velocity_key: 0,
        miss_text: "0.00".to_string(),
        miss_key: 0,
    };
    let r = neo_row(&neo("quiet", false, false), &m);
    let shown: Vec<&str> = r.iter().map(|c| c.display.as_str()).collect();
    assert_eq!(shown, vec!["quiet", "", "-3 - 0", "0.00", "0.00", "No"]);
    assert_eq!(number(&r[1].sort_key), 0);
    assert_eq!(number(&r[5].sort_key), 0);
}

#[test]
fn rows_follow_objects() {
    let neos = vec![neo("a", true, false), neo("b", false, true)];
    let rows = table_rows(&neos, &vec![measured(), measured()]);
    assert_eq!(rows.len(), 2);
    assert_eq!(rows[0][0].display, "a");
    assert_eq!(rows[1][0].display, "b");
    assert_eq!(rows[1][5].display, "YES");
}

#[test]
fn page_shows_table_only_for_loaded_objects() {
    assert_eq!(feed_view(&Ok(vec![neo("a", true, false)])), FeedView::Table);
    assert_eq!(feed_view(&Ok(Vec::new())), FeedView::Unavailable);
    assert_eq!(feed_view(&Err("NASA API returned 500".to_string())), FeedView::Unavailable);
    assert_eq!(unavailable_message(), "Error loading asteroid data. Please try again later.");
}

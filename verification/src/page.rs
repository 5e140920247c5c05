//! The home page's table of near-earth objects: its headers, one row of
//! cells for each object, and whether there is a table to show at all.

use vstd::prelude::*;

use crate::neo::NearEarthObject;
use crate::table::{key_comparison, Cell, SortKey};
use crate::text::Comparison;
use crate::text::{
    decimal_i64, extend_chars, insert_thousands_separators, signed_decimal, string_of,
    with_thousands_separators,
};

verus! {

/// What the page computes from an object's floating-point data: the
/// diameter bounds rounded to whole meters, and the velocity (km/h) and
/// miss distance (lunar distances) of the first close approach, each
/// written with two decimals and given an integer ordered as the value is.
#[derive(Clone, Debug)]
pub struct MeasuredValues {
    pub diameter_min: i64,
    pub diameter_max: i64,
    pub velocity_text: String,
    pub velocity_key: i64,
    pub miss_text: String,
    pub miss_key: i64,
}

/// The headers of the table's columns.
pub open spec fn header_texts() -> Seq<Seq<char>> {
    seq![
        "Name"@,
        "Approach Date (UTC)"@,
        "Diameter (m)"@,
        "Velocity (km/h)"@,
        "Miss Distance (LD)"@,
        "Hazardous"@,
    ]
}

/// The headers of the table's columns.
pub fn table_headers() -> (r: Vec<String>)
    ensures
        r@.len() == 6,
        forall|i: int| 0 <= i < 6 ==> #[trigger] r@[i]@ == header_texts()[i],
{
    let r = vec![
        String::from_str("Name"),
        String::from_str("Approach Date (UTC)"),
        String::from_str("Diameter (m)"),
        String::from_str("Velocity (km/h)"),
        String::from_str("Miss Distance (LD)"),
        String::from_str("Hazardous"),
    ];
    r
}

/// The full date of the first close approach, or nothing without one.
pub open spec fn approach_display(neo: NearEarthObject) -> Seq<char> {
    if neo.close_approach_data@.len() > 0 {
        neo.close_approach_data@[0].close_approach_date_full@
    } else {
        Seq::empty()
    }
}

/// The epoch of the first close approach, or 0 without one.
pub open spec fn approach_epoch(neo: NearEarthObject) -> i64 {
    if neo.close_approach_data@.len() > 0 {
        neo.close_approach_data@[0].epoch_date_close_approach
    } else {
        0
    }
}

/// The diameter range as `min - max`.
pub open spec fn diameter_text(min: i64, max: i64) -> Seq<char> {
    signed_decimal(min as int) + " - "@ + signed_decimal(max as int)
}

/// The row of the table that shows `neo`.
pub open spec fn is_neo_row(neo: NearEarthObject, m: MeasuredValues, row: Seq<Cell>) -> bool {
    &&& row.len() == 6
    &&& row[0].display == neo.name && row[0].sort_key == SortKey::Text(neo.name)
    &&& row[1].display@ == approach_display(neo) && row[1].sort_key == SortKey::Number(
        approach_epoch(neo),
    )
    &&& row[2].display@ == diameter_text(m.diameter_min, m.diameter_max) && row[2].sort_key
        == SortKey::Number(m.diameter_min)
    &&& row[3].display@ == with_thousands_separators(m.velocity_text@) && row[3].sort_key
        == SortKey::Number(m.velocity_key)
    &&& row[4].display == m.miss_text && row[4].sort_key == SortKey::Number(m.miss_key)
    &&& row[5].display@ == (if neo.is_potentially_hazardous_asteroid {
        "YES"@
    } else {
        "No"@
    }) && row[5].sort_key == SortKey::Number(
        if neo.is_potentially_hazardous_asteroid {
            1
        } else {
            0
        },
    )
}

/// The row of the table that shows `neo`, given what was computed from its
/// floating-point data.
pub fn neo_row(neo: &NearEarthObject, m: &MeasuredValues) -> (r: Vec<Cell>)
    ensures
        is_neo_row(*neo, *m, r@),
{
    let name = Cell::text(neo.name.clone());
    let approach = if neo.close_approach_data.len() > 0 {
        let first = &neo.close_approach_data[0];
        Cell::number(first.close_approach_date_full.clone(), first.epoch_date_close_approach)
    } else {
        Cell::number(String::new(), 0)
    };
    let mut diameter_chars = decimal_i64(m.diameter_min);
    let separator = vec![' ', '-', ' '];
    extend_chars(&mut diameter_chars, &separator);
    let max_chars = decimal_i64(m.diameter_max);
    extend_chars(&mut diameter_chars, &max_chars);
    proof {
        reveal_strlit(" - ");
        assert(separator@ =~= " - "@);
    }
    let diameter = Cell::number(string_of(&diameter_chars), m.diameter_min);
    let velocity = Cell::number(
        insert_thousands_separators(m.velocity_text.as_str()),
        m.velocity_key,
    );
    let miss = Cell::number(m.miss_text.clone(), m.miss_key);
    let hazardous = if neo.is_potentially_hazardous_asteroid {
        Cell::number(String::from_str("YES"), 1)
    } else {
        Cell::number(String::from_str("No"), 0)
    };
    vec![name, approach, diameter, velocity, miss, hazardous]
}

/// The rows of the table, one for each object, in the order of the objects.
pub fn table_rows(neos: &Vec<NearEarthObject>, measured: &Vec<MeasuredValues>) -> (r: Vec<Vec<Cell>>)
    requires
        measured@.len() == neos@.len(),
    ensures
        r@.len() == neos@.len(),
        forall|i: int| 0 <= i < r@.len() ==> is_neo_row(neos@[i], measured@[i], #[trigger] r@[i]@),
{
    let mut rows: Vec<Vec<Cell>> = Vec::new();
    let mut i: usize = 0;
    while i < neos.len()
        invariant
            i <= neos@.len(),
            measured@.len() == neos@.len(),
            rows@.len() == i,
            forall|j: int| 0 <= j < i ==> is_neo_row(neos@[j], measured@[j], #[trigger] rows@[j]@),
        decreases neos@.len() - i,
    {
        rows.push(neo_row(&neos[i], &measured[i]));
        i = i + 1;
    }
    rows
}

/// What the page shows below its introduction.
#[derive(Clone, Copy, Debug, PartialEq, Eq, Structural)]
pub enum FeedView {
    /// The table of objects.
    Table,
    /// The message that the data could not be loaded.
    Unavailable,
}

/// The page shows the table when objects were loaded, and the message that
/// the data is unavailable when loading failed or gave no object.
pub fn feed_view(loaded: &Result<Vec<NearEarthObject>, String>) -> (r: FeedView)
    ensures
        r == (match loaded {
            Ok(neos) => if neos@.len() > 0 {
                FeedView::Table
            } else {
                FeedView::Unavailable
            },
            Err(_) => FeedView::Unavailable,
        }),
{
    match loaded {
        Ok(neos) => if neos.len() > 0 {
            FeedView::Table
        } else {
            FeedView::Unavailable
        },
        Err(_) => FeedView::Unavailable,
    }
}

/// The message shown when the data is unavailable.
pub fn unavailable_message() -> (r: String)
    ensures
        r@ == "Error loading asteroid data. Please try again later."@,
{
    String::from_str("Error loading asteroid data. Please try again later.")
}

/// Rows of two objects sort, in the approach column, as the raw epochs of
/// their first close approaches (0 for none) do; in the diameter column as
/// their rounded minimum diameters do; and in the hazardous column with
/// every object that is not potentially hazardous before every one that is.
pub proof fn lemma_rows_sort_by_their_objects(
    a: NearEarthObject,
    ma: MeasuredValues,
    ra: Seq<Cell>,
    b: NearEarthObject,
    mb: MeasuredValues,
    rb: Seq<Cell>,
)
    requires
        is_neo_row(a, ma, ra),
        is_neo_row(b, mb, rb),
    ensures
        (key_comparison(ra[1].sort_key, rb[1].sort_key) == Comparison::Less) == ((if a.close_approach_data@.len()
            > 0 {
            a.close_approach_data@[0].epoch_date_close_approach
        } else {
            0
        }) < (if b.close_approach_data@.len() > 0 {
            b.close_approach_data@[0].epoch_date_close_approach
        } else {
            0
        })),
        (key_comparison(ra[2].sort_key, rb[2].sort_key) == Comparison::Less) == (ma.diameter_min
            < mb.diameter_min),
        (key_comparison(ra[5].sort_key, rb[5].sort_key) == Comparison::Less) == (
        !a.is_potentially_hazardous_asteroid && b.is_potentially_hazardous_asteroid),
        (key_comparison(ra[5].sort_key, rb[5].sort_key) == Comparison::Equal) == (
        a.is_potentially_hazardous_asteroid == b.is_potentially_hazardous_asteroid),
{
}

} // verus!

//! Near-earth objects as the feed describes them, and the assembly of a
//! week's feed into one list in order of closest approach.

use vstd::prelude::*;

use crate::sorting::{is_stable_sort, lemma_stable_sort_output, stable_sort};

verus! {

/// One object of the feed.
#[derive(Clone, Debug)]
pub struct NearEarthObject {
    pub name: String,
    pub estimated_diameter: EstimatedDiameter,
    pub close_approach_data: Vec<CloseApproach>,
    pub is_potentially_hazardous_asteroid: bool,
}

#[derive(Clone, Debug)]
pub struct EstimatedDiameter {
    pub meters: DiameterRange,
}

/// The estimated diameter range in meters. Each bound is the bit pattern of
/// an IEEE 754 binary64 number (`f64::to_bits`); the library carries the
/// bounds without reading them.
#[derive(Clone, Debug)]
pub struct DiameterRange {
    pub estimated_diameter_min: u64,
    pub estimated_diameter_max: u64,
}

#[derive(Clone, Debug)]
pub struct CloseApproach {
    pub close_approach_date: String,
    pub close_approach_date_full: String,
    pub epoch_date_close_approach: i64,
    pub relative_velocity: RelativeVelocity,
    pub miss_distance: MissDistance,
}

#[derive(Clone, Debug)]
pub struct RelativeVelocity {
    pub kilometers_per_hour: String,
}

#[derive(Clone, Debug)]
pub struct MissDistance {
    pub lunar: String,
}

/// The epoch of the object's first close approach, or `i64::MAX` when it
/// has none, so that such objects come last.
pub open spec fn approach_key(neo: NearEarthObject) -> i64 {
    if neo.close_approach_data@.len() > 0 {
        neo.close_approach_data@[0].epoch_date_close_approach
    } else {
        i64::MAX
    }
}

pub open spec fn approach_keys(neos: Seq<NearEarthObject>) -> Seq<i64> {
    neos.map_values(|neo: NearEarthObject| approach_key(neo))
}

/// The objects that were read, in order; those that could not be read are
/// left out.
pub open spec fn present(entries: Seq<Option<NearEarthObject>>) -> Seq<NearEarthObject>
    decreases entries.len(),
{
    if entries.len() == 0 {
        Seq::empty()
    } else {
        let head = match entries[0] {
            Some(neo) => seq![neo],
            None => Seq::empty(),
        };
        head + present(entries.drop_first())
    }
}

/// The objects that were read from each day of the feed, day after day;
/// a day that was not a list (`None`) gives none.
pub open spec fn present_in_days(days: Seq<Option<Vec<Option<NearEarthObject>>>>) -> Seq<NearEarthObject>
    decreases days.len(),
{
    if days.len() == 0 {
        Seq::empty()
    } else {
        let head = match days[0] {
            Some(day) => present(day@),
            None => Seq::empty(),
        };
        head + present_in_days(days.drop_first())
    }
}

/// The objects of the feed's answer: none when the answer had no object of
/// days (`None`), else those that were read from its days.
pub open spec fn present_in_feed(feed: Option<Vec<Option<Vec<Option<NearEarthObject>>>>>) -> Seq<NearEarthObject> {
    match feed {
        Some(days) => present_in_days(days@),
        None => Seq::empty(),
    }
}

/// The key by which the feed is ordered.
pub fn approach_key_of(neo: &NearEarthObject) -> (k: i64)
    ensures
        k == approach_key(*neo),
        neo.close_approach_data@.len() > 0 ==> k == neo.close_approach_data@[0].epoch_date_close_approach,
        neo.close_approach_data@.len() == 0 ==> k == i64::MAX,
{
    if neo.close_approach_data.len() > 0 {
        neo.close_approach_data[0].epoch_date_close_approach
    } else {
        i64::MAX
    }
}

/// Joins the days of the feed's answer into one list, leaving out the days
/// that were not lists and the entries that could not be read.
pub fn collect_days(feed: Option<Vec<Option<Vec<Option<NearEarthObject>>>>>) -> (r: Vec<NearEarthObject>)
    ensures
        r@ == present_in_feed(feed),
{
    let mut days = match feed {
        Some(days) => days,
        None => {
            return Vec::new();
        },
    };
    let ghost all = days@;
    let mut out: Vec<NearEarthObject> = Vec::new();
    while days.len() > 0
        invariant
            out@ + present_in_days(days@) == present_in_days(all),
        decreases days@.len(),
    {
        let ghost rest_before = days@;
        let entry_day = days.remove(0);
        assert(days@ =~= rest_before.drop_first());
        match entry_day {
            Some(day) => {
                let mut day = day;
                while day.len() > 0
                    invariant
                        out@ + present(day@) + present_in_days(days@) == present_in_days(all),
                    decreases day@.len(),
                {
                    let ghost day_before = day@;
                    let ghost out_before = out@;
                    let entry = day.remove(0);
                    assert(day@ =~= day_before.drop_first());
                    match entry {
                        Some(neo) => {
                            out.push(neo);
                            assert(out_before + present(day_before) =~= out@ + present(day@));
                        },
                        None => {
                            assert(out_before + present(day_before) =~= out@ + present(day@));
                        },
                    }
                }
                assert(out@ + present(day@) =~= out@);
            },
            None => {
                assert(out@ + Seq::<NearEarthObject>::empty() =~= out@);
            },
        }
    }
    assert(out@ + present_in_days(days@) =~= out@);
    out
}

/// The feed as the tracker lists it: the readable objects of all days,
/// ordered by the epoch of their first close approach (objects without one
/// last); objects with equal keys keep the order in which the days listed
/// them.
pub fn assemble_feed(feed: Option<Vec<Option<Vec<Option<NearEarthObject>>>>>) -> (r: Vec<NearEarthObject>)
    ensures
        is_stable_sort(present_in_feed(feed), approach_keys(present_in_feed(feed)), r@, false),
{
    let neos = collect_days(feed);
    let mut keys: Vec<i64> = Vec::new();
    let mut i: usize = 0;
    while i < neos.len()
        invariant
            i <= neos@.len(),
            keys@ == approach_keys(neos@).take(i as int),
        decreases neos@.len() - i,
    {
        keys.push(approach_key_of(&neos[i]));
        assert(approach_keys(neos@).take(i + 1) =~= approach_keys(neos@).take(i as int).push(
            approach_key(neos@[i as int]),
        ));
        i = i + 1;
    }
    assert(approach_keys(neos@).take(i as int) =~= approach_keys(neos@));
    stable_sort(neos, keys, false)
}

/// The key by which the feed is ordered is the raw epoch of the object's
/// first close approach, and `i64::MAX` for an object without one.
pub proof fn lemma_approach_key_is_first_epoch(neo: NearEarthObject)
    ensures
        neo.close_approach_data@.len() > 0 ==> approach_key(neo)
            == neo.close_approach_data@[0].epoch_date_close_approach,
        neo.close_approach_data@.len() == 0 ==> approach_key(neo) == i64::MAX,
{
}

/// The assembled feed holds exactly the readable objects of its days, in
/// nondecreasing order of first approach, with the objects that have no
/// approach after all those whose first approach is earlier than
/// `i64::MAX`.
pub proof fn lemma_feed_in_approach_order(
    answer: Option<Vec<Option<Vec<Option<NearEarthObject>>>>>,
    feed: Seq<NearEarthObject>,
)
    requires
        is_stable_sort(present_in_feed(answer), approach_keys(present_in_feed(answer)), feed, false),
    ensures
        feed.len() == present_in_feed(answer).len(),
        forall|i: int, j: int|
            0 <= i < j < feed.len() ==> approach_key(#[trigger] feed[i]) <= approach_key(
                #[trigger] feed[j],
            ),
        forall|i: int, j: int|
            0 <= i < j < feed.len() && (#[trigger] feed[i]).close_approach_data@.len() == 0
                ==> approach_key(#[trigger] feed[j]) == i64::MAX,
        forall|i: int| 0 <= i < feed.len() ==> present_in_feed(answer).contains(#[trigger] feed[i]),
        forall|i: int|
            0 <= i < present_in_feed(answer).len() ==> feed.contains(
                #[trigger] present_in_feed(answer)[i],
            ),
        // in the raw epoch of each object's first close approach
        forall|i: int, j: int|
            0 <= i < j < feed.len() ==> (if (#[trigger] feed[i]).close_approach_data@.len() > 0 {
                feed[i].close_approach_data@[0].epoch_date_close_approach
            } else {
                i64::MAX
            }) <= (if (#[trigger] feed[j]).close_approach_data@.len() > 0 {
                feed[j].close_approach_data@[0].epoch_date_close_approach
            } else {
                i64::MAX
            }),
{
    let input = present_in_feed(answer);
    let key_of = |neo: NearEarthObject| approach_key(neo);
    assert(approach_keys(input) =~= input.map_values(key_of));
    lemma_stable_sort_output(input, approach_keys(input), feed, false, key_of);
    assert forall|i: int, j: int|
        0 <= i < j < feed.len() implies approach_key(#[trigger] feed[i]) <= approach_key(
            #[trigger] feed[j],
        ) by {
        assert(key_of(feed[i]) <= key_of(feed[j]));
    }
    assert forall|i: int, j: int|
        0 <= i < j < feed.len() implies (if (#[trigger] feed[i]).close_approach_data@.len() > 0 {
        feed[i].close_approach_data@[0].epoch_date_close_approach
    } else {
        i64::MAX
    }) <= (if (#[trigger] feed[j]).close_approach_data@.len() > 0 {
        feed[j].close_approach_data@[0].epoch_date_close_approach
    } else {
        i64::MAX
    }) by {
        assert(approach_key(feed[i]) <= approach_key(feed[j]));
        lemma_approach_key_is_first_epoch(feed[i]);
        lemma_approach_key_is_first_epoch(feed[j]);
    }
}

/// An object is among the objects read from `entries` exactly when some
/// entry read as it; no more objects are read than there are entries.
pub proof fn lemma_present_is_the_readable_entries(
    entries: Seq<Option<NearEarthObject>>,
    neo: NearEarthObject,
)
    ensures
        present(entries).contains(neo) == entries.contains(Some(neo)),
        present(entries).len() <= entries.len(),
    decreases entries.len(),
{
    if entries.len() > 0 {
        let rest = entries.drop_first();
        lemma_present_is_the_readable_entries(rest, neo);
        let head = match entries[0] {
            Some(n) => seq![n],
            None => Seq::<NearEarthObject>::empty(),
        };
        let p = present(entries);
        assert(p == head + present(rest));
        if entries.contains(Some(neo)) {
            let i = choose|i: int| 0 <= i < entries.len() && entries[i] == Some(neo);
            if i == 0 {
                assert(p[0] == neo);
            } else {
                assert(rest[i - 1] == Some(neo));
                let j = choose|j: int| 0 <= j < present(rest).len() && present(rest)[j] == neo;
                assert(p[head.len() + j] == neo);
            }
        }
        if p.contains(neo) {
            let j = choose|j: int| 0 <= j < p.len() && p[j] == neo;
            if j < head.len() {
                assert(entries[0] == Some(neo));
            } else {
                assert(present(rest)[j - head.len()] == neo);
                assert(present(rest).contains(neo));
                let i = choose|i: int| 0 <= i < rest.len() && rest[i] == Some(neo);
                assert(entries[i + 1] == Some(neo));
            }
        }
    }
}

/// The day `day` of the feed read as `neo`.
pub open spec fn day_reads(day: Option<Vec<Option<NearEarthObject>>>, neo: NearEarthObject) -> bool {
    match day {
        Some(entries) => entries@.contains(Some(neo)),
        None => false,
    }
}

/// An object is in the feed's list exactly when one of the days that were
/// lists has an entry that read as it.
pub proof fn lemma_feed_holds_readable_entries(
    days: Seq<Option<Vec<Option<NearEarthObject>>>>,
    neo: NearEarthObject,
)
    ensures
        present_in_days(days).contains(neo) == (exists|d: int|
            0 <= d < days.len() && #[trigger] day_reads(days[d], neo)),
    decreases days.len(),
{
    if days.len() > 0 {
        let rest = days.drop_first();
        lemma_feed_holds_readable_entries(rest, neo);
        let head = match days[0] {
            Some(day) => present(day@),
            None => Seq::<NearEarthObject>::empty(),
        };
        if let Some(day) = days[0] {
            lemma_present_is_the_readable_entries(day@, neo);
        }
        let p = present_in_days(days);
        assert(p == head + present_in_days(rest));
        if exists|d: int| 0 <= d < days.len() && #[trigger] day_reads(days[d], neo) {
            let d = choose|d: int| 0 <= d < days.len() && #[trigger] day_reads(days[d], neo);
            if d == 0 {
                let j = choose|j: int| 0 <= j < head.len() && head[j] == neo;
                assert(p[j] == neo);
            } else {
                assert(rest[d - 1] == days[d]);
                assert(day_reads(rest[d - 1], neo));
                let j = choose|j: int|
                    0 <= j < present_in_days(rest).len() && present_in_days(rest)[j] == neo;
                assert(p[head.len() + j] == neo);
            }
        }
        if p.contains(neo) {
            let j = choose|j: int| 0 <= j < p.len() && p[j] == neo;
            if j < head.len() {
                assert(head.contains(neo));
                assert(day_reads(days[0], neo));
            } else {
                assert(present_in_days(rest)[j - head.len()] == neo);
                assert(present_in_days(rest).contains(neo));
                let d = choose|d: int| 0 <= d < rest.len() && #[trigger] day_reads(rest[d], neo);
                assert(days[d + 1] == rest[d]);
                assert(day_reads(days[d + 1], neo));
            }
        }
    } else {
        assert(present_in_days(days) =~= Seq::<NearEarthObject>::empty());
    }
}

} // verus!

//! The request for a week of the NASA near-earth-object feed, the checks on
//! its answer, and the per-day cache of assembled feeds.

use std::collections::HashMap;

use vstd::prelude::*;

use crate::calendar::{chrono_days_after, date_of, feed_end_date, iso_date, iso_date_text, CalendarDate};
use crate::neo::{approach_keys, assemble_feed, present_in_feed, NearEarthObject};
use crate::sorting::is_stable_sort;

verus! {

broadcast use vstd::std_specs::hash::group_hash_axioms;

/// The key under which no API key is configured.
pub open spec fn demo_key() -> Seq<char> {
    "DEMO_KEY"@
}

/// The configured API key, or `DEMO_KEY` when none is configured.
pub fn api_key_or_demo(configured: Option<String>) -> (r: String)
    ensures
        match configured {
            Some(key) => r@ == key@,
            None => r@ == demo_key(),
        },
{
    match configured {
        Some(key) => key,
        None => String::from_str("DEMO_KEY"),
    }
}

/// The address of the feed from `start` to `end` (dates in ISO form).
pub open spec fn feed_url_text(start: Seq<char>, end: Seq<char>, api_key: Seq<char>) -> Seq<char> {
    "https://api.nasa.gov/neo/rest/v1/feed?start_date="@ + start + "&end_date="@ + end
        + "&api_key="@ + api_key
}

/// The address of the feed from `start` to `end` with the given API key.
pub fn feed_url(start: &str, end: &str, api_key: &str) -> (r: String)
    ensures
        r@ == feed_url_text(start@, end@, api_key@),
{
    let mut url = String::from_str("https://api.nasa.gov/neo/rest/v1/feed?start_date=");
    url.append(start);
    url.append("&end_date=");
    url.append(end);
    url.append("&api_key=");
    url.append(api_key);
    url
}

/// The address of the week-long feed that starts on `today`, or `None`
/// where chrono has no date a week after `today`.
pub fn feed_request_url(today: CalendarDate, api_key: &str) -> (r: Option<String>)
    ensures
        match date_of(chrono_days_after(today.year, today.month, today.day, 7)) {
            Some(end) => r matches Some(url) && url@ == feed_url_text(
                iso_date_text(today),
                iso_date_text(end),
                api_key@,
            ),
            None => r is None,
        },
{
    match feed_end_date(today) {
        Some(end) => {
            let start_text = iso_date(today);
            let end_text = iso_date(end);
            Some(feed_url(start_text.as_str(), end_text.as_str(), api_key))
        },
        None => None,
    }
}

/// An HTTP status code of the 2xx class, as `http::StatusCode::is_success`
/// tells it.
pub open spec fn is_success_code(code: u16) -> bool {
    200 <= code <= 299
}

/// Whether the feed answered with a success status.
pub fn is_success_status(code: u16) -> (r: bool)
    ensures
        r == is_success_code(code),
{
    200 <= code && code <= 299
}

/// Accepts an answer of the feed with a success status; any other status is
/// the error `BadStatus`, with the status as HTTP names it.
pub fn check_status(code: u16, status_text: String) -> (r: Result<(), FetchError>)
    ensures
        is_success_code(code) ==> r is Ok,
        !is_success_code(code) ==> r == Err::<(), FetchError>(FetchError::BadStatus(status_text)),
{
    if is_success_status(code) {
        Ok(())
    } else {
        Err(FetchError::BadStatus(status_text))
    }
}

/// Why the feed could not be had.
#[derive(Clone, Debug)]
pub enum FetchError {
    /// The request failed; the text describes the failure.
    RequestFailed(String),
    /// The feed answered with a status other than success; the text is the
    /// status as HTTP names it (such as `404 Not Found`).
    BadStatus(String),
    /// The answer was not JSON; the text describes the error.
    InvalidJson(String),
}

impl FetchError {
    pub open spec fn message_text(self) -> Seq<char> {
        match self {
            FetchError::RequestFailed(e) => "NASA request failed: "@ + e@,
            FetchError::BadStatus(s) => "NASA API returned "@ + s@,
            FetchError::InvalidJson(e) => "Invalid JSON: "@ + e@,
        }
    }

    /// The message with which the tracker reports the error.
    pub fn message(&self) -> (r: String)
        ensures
            r@ == self.message_text(),
    {
        match self {
            FetchError::RequestFailed(e) => {
                let mut m = String::from_str("NASA request failed: ");
                m.append(e.as_str());
                m
            },
            FetchError::BadStatus(s) => {
                let mut m = String::from_str("NASA API returned ");
                m.append(s.as_str());
                m
            },
            FetchError::InvalidJson(e) => {
                let mut m = String::from_str("Invalid JSON: ");
                m.append(e.as_str());
                m
            },
        }
    }
}

/// The key under which the cache keeps the feed of a day; distinct dates
/// have distinct keys.
pub open spec fn day_key(date: CalendarDate) -> int {
    (date.year as i128) * 0x1_0000_0000_0000_0000 + (date.month as i128) * 0x1_0000_0000 + (
    date.day as i128)
}

pub proof fn lemma_day_key_injective(a: CalendarDate, b: CalendarDate)
    ensures
        day_key(a) == day_key(b) ==> a == b,
{
}

fn day_key_of(date: CalendarDate) -> (k: i128)
    ensures
        k as int == day_key(date),
{
    (date.year as i128) * 0x1_0000_0000_0000_0000 + (date.month as i128) * 0x1_0000_0000 + (
    date.day as i128)
}

/// The feeds assembled so far, one for each day on which a non-empty feed
/// was had.
pub struct NeoCache {
    feeds: HashMap<i128, Vec<NearEarthObject>>,
}

/// The cache after the feed `feed` of day `day` was recorded: an empty
/// feed is not kept.
pub open spec fn after_record(
    cache: Map<CalendarDate, Seq<NearEarthObject>>,
    day: CalendarDate,
    feed: Seq<NearEarthObject>,
) -> Map<CalendarDate, Seq<NearEarthObject>> {
    if feed.len() > 0 {
        cache.insert(day, feed)
    } else {
        cache
    }
}

impl View for NeoCache {
    type V = Map<CalendarDate, Seq<NearEarthObject>>;

    closed spec fn view(&self) -> Map<CalendarDate, Seq<NearEarthObject>> {
        Map::new(
            |d: CalendarDate| self.feeds@.contains_key(day_key(d) as i128),
            |d: CalendarDate| self.feeds@[day_key(d) as i128]@,
        )
    }
}

impl NeoCache {
    /// A cache that holds no feed.
    pub fn new() -> (r: NeoCache)
        ensures
            r@ == Map::<CalendarDate, Seq<NearEarthObject>>::empty(),
    {
        let r = NeoCache { feeds: HashMap::new() };
        assert(r@ =~= Map::<CalendarDate, Seq<NearEarthObject>>::empty());
        r
    }

    /// The feed recorded for `day`, if any.
    pub fn lookup(&self, day: CalendarDate) -> (r: Option<&Vec<NearEarthObject>>)
        ensures
            match r {
                Some(feed) => self@.contains_key(day) && feed@ == self@[day],
                None => !self@.contains_key(day),
            },
    {
        let key = day_key_of(day);
        self.feeds.get(&key)
    }

    /// Records the feed of `day`, unless it is empty.
    pub fn record(&mut self, day: CalendarDate, feed: Vec<NearEarthObject>)
        ensures
            final(self)@ == after_record(old(self)@, day, feed@),
    {
        if feed.len() > 0 {
            let ghost before = self@;
            let key = day_key_of(day);
            self.feeds.insert(key, feed);
            proof {
                assert forall|d: CalendarDate| #[trigger] self@.contains_key(d) == before.insert(
                    day,
                    feed@,
                ).contains_key(d) by {
                    lemma_day_key_injective(d, day);
                }
                assert forall|d: CalendarDate| #[trigger] self@.contains_key(d) implies self@[d]
                    == before.insert(day, feed@)[d] by {
                    lemma_day_key_injective(d, day);
                }
                assert(self@ =~= before.insert(day, feed@));
            }
        }
    }
}

/// A feed recorded for a day is what the cache serves for that day
/// afterwards, unless it was empty; the other days are served what they
/// were served before.
pub proof fn lemma_cache_serves_recorded_feed(
    cache: Map<CalendarDate, Seq<NearEarthObject>>,
    day: CalendarDate,
    feed: Seq<NearEarthObject>,
    other: CalendarDate,
)
    ensures
        feed.len() > 0 ==> after_record(cache, day, feed).contains_key(day) && after_record(
            cache,
            day,
            feed,
        )[day] == feed,
        feed.len() == 0 ==> after_record(cache, day, feed) == cache,
        other != day ==> after_record(cache, day, feed).contains_key(other) == cache.contains_key(
            other,
        ) && after_record(cache, day, feed)[other] == cache[other],
{
}

/// The API key's text: the configured key, or `DEMO_KEY`.
pub open spec fn key_text(configured_key: Option<String>) -> Seq<char> {
    match configured_key {
        Some(key) => key@,
        None => demo_key(),
    }
}

/// What happens while a week of the feed is being had.
pub enum FeedEvent {
    /// The feed of `today` was asked for; `configured_key` is the API key
    /// that is configured, if any.
    Requested { today: CalendarDate, configured_key: Option<String> },
    /// The request to the feed failed; the text describes the failure.
    RequestFailed { error: String },
    /// The feed answered with `status`, which HTTP names `status_text`.
    Answered { status: u16, status_text: String },
    /// The body of the answer to the request for `today` was read: the feed
    /// as read (see `assemble_feed`), or the text of the JSON error.
    BodyRead {
        today: CalendarDate,
        body: Result<Option<Vec<Option<Vec<Option<NearEarthObject>>>>>, String>,
    },
}

/// What to do next.
pub enum FeedAction {
    /// No date lies a week after the day asked for.
    DateOutOfRange,
    /// Serve the feed that the cache holds for the day asked for.
    ServeCached,
    /// Ask the feed at this address.
    Request(String),
    /// Read the body of the answer.
    ReadBody,
    /// Serve a feed without objects.
    ServeEmpty,
    /// Report the error.
    Fail(FetchError),
}

/// How one step of the feed handler goes from the cache `old` and the event
/// to the action and the cache `new`.
pub open spec fn feed_step_post(
    old: Map<CalendarDate, Seq<NearEarthObject>>,
    event: FeedEvent,
    action: FeedAction,
    new: Map<CalendarDate, Seq<NearEarthObject>>,
) -> bool {
    match event {
        FeedEvent::Requested { today, configured_key } => new == old && match date_of(
            chrono_days_after(today.year, today.month, today.day, 7),
        ) {
            None => action == FeedAction::DateOutOfRange,
            Some(end) => if old.contains_key(today) {
                action == FeedAction::ServeCached
            } else {
                action matches FeedAction::Request(url) && url@ == feed_url_text(
                    iso_date_text(today),
                    iso_date_text(end),
                    key_text(configured_key),
                )
            },
        },
        FeedEvent::RequestFailed { error } => new == old && action == FeedAction::Fail(
            FetchError::RequestFailed(error),
        ),
        FeedEvent::Answered { status, status_text } => new == old && if is_success_code(status) {
            action == FeedAction::ReadBody
        } else {
            action == FeedAction::Fail(FetchError::BadStatus(status_text))
        },
        FeedEvent::BodyRead { today, body } => match body {
            Err(error) => new == old && action == FeedAction::Fail(FetchError::InvalidJson(error)),
            Ok(answer) => if present_in_feed(answer).len() > 0 {
                &&& action == FeedAction::ServeCached
                &&& exists|feed: Seq<NearEarthObject>|
                    #[trigger] old.insert(today, feed) == new && is_stable_sort(
                        present_in_feed(answer),
                        approach_keys(present_in_feed(answer)),
                        feed,
                        false,
                    )
            } else {
                new == old && action == FeedAction::ServeEmpty
            },
        },
    }
}

/// One step of the feed handler: a request is served from the cache when
/// the cache holds the day, else sent to the feed; an answer with a success
/// status has its body read; a body that reads as JSON is assembled, and
/// its feed recorded and served from the cache when it has objects.
pub fn feed_step(cache: &mut NeoCache, event: FeedEvent) -> (action: FeedAction)
    ensures
        feed_step_post(old(cache)@, event, action, final(cache)@),
{
    match event {
        FeedEvent::Requested { today, configured_key } => {
            if feed_end_date(today).is_none() {
                return FeedAction::DateOutOfRange;
            }
            if cache.lookup(today).is_some() {
                return FeedAction::ServeCached;
            }
            let key = api_key_or_demo(configured_key);
            match feed_request_url(today, key.as_str()) {
                Some(url) => FeedAction::Request(url),
                None => FeedAction::DateOutOfRange,
            }
        },
        FeedEvent::RequestFailed { error } => FeedAction::Fail(FetchError::RequestFailed(error)),
        FeedEvent::Answered { status, status_text } => {
            match check_status(status, status_text) {
                Ok(()) => FeedAction::ReadBody,
                Err(e) => FeedAction::Fail(e),
            }
        },
        FeedEvent::BodyRead { today, body } => {
            match body {
                Err(error) => FeedAction::Fail(FetchError::InvalidJson(error)),
                Ok(answer) => {
                    let ghost before = cache@;
                    let feed = assemble_feed(answer);
                    if feed.len() > 0 {
                        let ghost recorded = feed@;
                        cache.record(today, feed);
                        assert(before.insert(today, recorded) == cache@);
                        FeedAction::ServeCached
                    } else {
                        FeedAction::ServeEmpty
                    }
                },
            }
        },
    }
}

/// Once a body whose feed has objects was accepted for a day, the next
/// request for that day is served from the cache and sends no request to
/// the feed, and what the cache serves is the feed that was accepted.
pub proof fn lemma_accepted_feed_served_again(
    first: Map<CalendarDate, Seq<NearEarthObject>>,
    second: Map<CalendarDate, Seq<NearEarthObject>>,
    third: Map<CalendarDate, Seq<NearEarthObject>>,
    today: CalendarDate,
    answer: Option<Vec<Option<Vec<Option<NearEarthObject>>>>>,
    configured_key: Option<String>,
    accept_action: FeedAction,
    request_action: FeedAction,
)
    requires
        feed_step_post(first, FeedEvent::BodyRead { today, body: Ok(answer) }, accept_action, second),
        present_in_feed(answer).len() > 0,
        feed_step_post(second, FeedEvent::Requested { today, configured_key }, request_action, third),
        chrono_days_after(today.year, today.month, today.day, 7) is Some,
    ensures
        accept_action == FeedAction::ServeCached,
        request_action == FeedAction::ServeCached,
        third == second,
        third.contains_key(today),
        is_stable_sort(
            present_in_feed(answer),
            approach_keys(present_in_feed(answer)),
            third[today],
            false,
        ),
{
    let feed = choose|feed: Seq<NearEarthObject>|
        #[trigger] first.insert(today, feed) == second && is_stable_sort(
            present_in_feed(answer),
            approach_keys(present_in_feed(answer)),
            feed,
            false,
        );
    assert(second.contains_key(today) && second[today] == feed);
}

} // verus!

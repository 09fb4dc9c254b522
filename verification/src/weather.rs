//! The weather cache policy: a state machine over the cached report text and
//! the timestamp of the last successful fetch. The decision function never
//! performs network work itself; it tells the caller what to do, so the
//! interactive path is never blocked by network latency.

use vstd::prelude::*;

use crate::store::{as_int_view, as_str_view, Store, Value, ValueView};
use crate::text::{chars_to_string, dec_digits, push_dec_u64, push_str_chars, str_to_chars};

verus! {

/// The refresh window in seconds: a cached report older than this is stale.
/// Fifteen minutes keeps a displayed report from going badly out of date
/// while letting shell launches close together reuse the cache.
pub const REFRESH_THRESHOLD_SECS: i64 = 900;

/// The document key holding the cached report text.
pub open spec fn cached_key() -> Seq<char> {
    "weather-cached"@
}

/// The document key holding the unix time of the last successful fetch.
pub open spec fn timestamp_key() -> Seq<char> {
    "weather-timestamp"@
}

/// The document key holding the user's chosen location, where one is set.
pub open spec fn location_key() -> Seq<char> {
    "weather-specific-location"@
}

/// Mathematical model of a weather decision.
pub ghost enum WeatherOutcome {
    Cached(Seq<char>),
    Stale(Seq<char>),
    Fetch,
    CacheError,
}

/// What a weather query decides, given the cache state and the clock.
#[derive(Debug, PartialEq, Eq)]
pub enum WeatherDecision {
    /// The cache is fresh: this stored text is returned unmodified, with no
    /// network activity.
    Cached(String),
    /// The cache is stale or missing: this annotated text is returned at
    /// once, and the caller is asked to start a detached background refresh
    /// instead of blocking.
    Stale(String),
    /// First query ever, or a forced refresh: the caller must fetch
    /// synchronously, blocking until the report arrives or fails.
    Fetch,
    /// The timestamp is fresh but no cached text can be read: reported as an
    /// explicit failure, never as silent emptiness.
    CacheError,
}

impl View for WeatherDecision {
    type V = WeatherOutcome;

    open spec fn view(&self) -> WeatherOutcome {
        match self {
            WeatherDecision::Cached(s) => WeatherOutcome::Cached(s@),
            WeatherDecision::Stale(s) => WeatherOutcome::Stale(s@),
            WeatherDecision::Fetch => WeatherOutcome::Fetch,
            WeatherDecision::CacheError => WeatherOutcome::CacheError,
        }
    }
}

/// A cached text annotated with how many minutes outdated it is.
pub open spec fn annotated_view(s: Seq<char>, minutes: nat) -> Seq<char> {
    s + " ("@ + dec_digits(minutes) + " min outdated, will be updated on next launch)"@
}

/// The decision the cache policy takes: no timestamp ever recorded or a
/// forced refresh fetches synchronously; a stale or missing cache returns
/// the annotated old text at once and requests a background refresh; a fresh
/// cache returns the stored text exactly.
pub open spec fn spec_weather_decision(store: Store, force_refresh: bool, now: int) -> WeatherOutcome {
    match as_int_view(store.gets(timestamp_key())) {
        Option::None => WeatherOutcome::Fetch,
        Option::Some(ts) => {
            if force_refresh {
                WeatherOutcome::Fetch
            } else if now - ts > REFRESH_THRESHOLD_SECS as int || store.gets(cached_key()) is None {
                match as_str_view(store.gets(cached_key())) {
                    Option::Some(s) => WeatherOutcome::Stale(
                        annotated_view(s, (((now - ts) / 60)) as nat),
                    ),
                    Option::None => WeatherOutcome::Stale(Seq::empty()),
                }
            } else {
                match as_str_view(store.gets(cached_key())) {
                    Option::Some(s) => WeatherOutcome::Cached(s),
                    Option::None => WeatherOutcome::CacheError,
                }
            }
        },
    }
}

/// The cached text with the outdated-minutes note appended.
pub fn annotate_outdated(s: &String, minutes: u64) -> (r: String)
    ensures
        r@ == annotated_view(s@, minutes as nat),
{
    let mut out = str_to_chars(s.as_str());
    push_str_chars(" (", &mut out);
    push_dec_u64(minutes, &mut out);
    push_str_chars(" min outdated, will be updated on next launch)", &mut out);
    proof {
        assert(out@ =~= annotated_view(s@, minutes as nat));
    }
    chars_to_string(&out)
}

/// Decides a weather query from the stored cache state, the force flag and
/// the current unix time, without doing any of the work itself.
pub fn weather_decision(store: &Store, force_refresh: bool, now: i64) -> (r: WeatherDecision)
    ensures
        r@ == spec_weather_decision(*store, force_refresh, now as int),
{
    match store.get_int("weather-timestamp") {
        None => WeatherDecision::Fetch,
        Some(ts) => {
            if force_refresh {
                WeatherDecision::Fetch
            } else {
                let age: i128 = now as i128 - ts as i128;
                let has_cache = store.has_key("weather-cached");
                if age > REFRESH_THRESHOLD_SECS as i128 || !has_cache {
                    match store.get_str("weather-cached") {
                        Some(s) => {
                            proof {
                                assert(age > REFRESH_THRESHOLD_SECS as i128);
                            }
                            let age_u: u64 = age as u64;
                            let minutes: u64 = age_u / 60;
                            WeatherDecision::Stale(annotate_outdated(&s, minutes))
                        },
                        None => WeatherDecision::Stale(String::new()),
                    }
                } else {
                    match store.get_str("weather-cached") {
                        Some(s) => WeatherDecision::Cached(s),
                        None => WeatherDecision::CacheError,
                    }
                }
            }
        },
    }
}

/// Stores a fetched report and its fetch time together: from the caller's
/// point of view the two fields change atomically, and every other key keeps
/// its value.
pub fn record_fetch(store: &mut Store, text: &String, now: i64)
    requires
        old(store).wf(),
    ensures
        final(store).wf(),
        final(store).gets(cached_key()) == Some(ValueView::Str(text@)),
        final(store).gets(timestamp_key()) == Some(ValueView::Int(now as int)),
        forall|k2: Seq<char>|
            k2 != cached_key() && k2 != timestamp_key() ==> final(store).gets(k2) == old(
                store,
            ).gets(k2),
{
    proof {
        reveal_strlit("weather-cached");
        reveal_strlit("weather-timestamp");
        assert(cached_key().len() == 14);
        assert(timestamp_key().len() == 17);
        assert(cached_key() != timestamp_key());
    }
    store.set("weather-cached", Value::Str(text.clone()));
    store.set("weather-timestamp", Value::Int(now));
}

/// The user's chosen location, or the empty string where none is set; the
/// empty string makes the weather service geolocate by network address.
pub fn weather_location(store: &Store) -> (r: String)
    ensures
        r@ == (match as_str_view(store.gets(location_key())) {
            Option::Some(s) => s,
            Option::None => Seq::<char>::empty(),
        }),
{
    match store.get_str("weather-specific-location") {
        Some(s) => s,
        None => String::new(),
    }
}

/// The one weather request the program makes: the fixed text endpoint with
/// the location as a path segment and a terse format string asking for
/// condition, temperature, feel and rainfall.
pub fn weather_url(location: &String) -> (r: String)
    ensures
        r@ == "https://wttr.in/"@ + location@
            + "?format=+%C+%c+%t+feels+like+%f+Rainfall:+%p"@,
{
    let mut out = str_to_chars("https://wttr.in/");
    push_str_chars(location.as_str(), &mut out);
    push_str_chars("?format=+%C+%c+%t+feels+like+%f+Rainfall:+%p", &mut out);
    chars_to_string(&out)
}

} // verus!

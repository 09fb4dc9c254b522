use pls::greet::greeting_for_hour;
use pls::store::{Store, Value};
use pls::weather::{
    annotate_outdated, record_fetch, weather_decision, weather_location, weather_url,
    WeatherDecision, REFRESH_THRESHOLD_SECS,
};

#[test]
fn fresh_cache_is_returned_exactly() {
    let now: i64 = 1700000000;
    let mut db = Store::new();
    record_fetch(&mut db, &" Sunny +20C".into(), now - 100);
    assert_eq!(
        weather_decision(&db, false, now),
        WeatherDecision::Cached(" Sunny +20C".into())
    );
}

#[test]
fn cache_at_threshold_is_still_fresh() {
    let now: i64 = 1700000000;
    let mut db = Store::new();
    record_fetch(&mut db, &"cloudy".into(), now - REFRESH_THRESHOLD_SECS);
    assert_eq!(weather_decision(&db, false, now), WeatherDecision::Cached("cloudy".into()));
}

#[test]
fn stale_cache_returns_annotated_text_at_once() {
    let now: i64 = 1700000000;
    let mut db = Store::new();
    record_fetch(&mut db, &"sunny".into(), now - 1000);
    assert_eq!(
        weather_decision(&db, false, now),
        WeatherDecision::Stale(
            "sunny (16 min outdated, will be updated on next launch)".into()
        )
    );
}

#[test]
fn stale_without_cached_text_returns_empty() {
    let now: i64 = 1700000000;
    let mut db = Store::new();
    db.set("weather-timestamp", Value::Int(now - 100));
    assert_eq!(weather_decision(&db, false, now), WeatherDecision::Stale("".into()));
}

#[test]
fn forced_refresh_always_fetches() {
    let now: i64 = 1700000000;
    let mut db = Store::new();
    record_fetch(&mut db, &"sunny".into(), now);
    assert_eq!(weather_decision(&db, true, now), WeatherDecision::Fetch);
}

#[test]
fn first_query_fetches() {
    let db = Store::new();
    assert_eq!(weather_decision(&db, false, 1700000000), WeatherDecision::Fetch);
}

#[test]
fn fresh_timestamp_with_unreadable_text_is_an_error() {
    let now: i64 = 1700000000;
    let mut db = Store::new();
    db.set("weather-timestamp", Value::Int(now - 100));
    db.set("weather-cached", Value::Int(3));
    assert_eq!(weather_decision(&db, false, now), WeatherDecision::CacheError);
}

#[test]
fn record_fetch_sets_both_fields_together() {
    let mut db = Store::new();
    db.set("name", Value::Str("Ada".into()));
    record_fetch(&mut db, &"rain".into(), 42);
    assert_eq!(db.get_str("weather-cached"), Some("rain".into()));
    assert_eq!(db.get_int("weather-timestamp"), Some(42));
    assert_eq!(db.get_str("name"), Some("Ada".into()));
}

#[test]
fn annotation_text_is_exact() {
    assert_eq!(
        annotate_outdated(&"misty".into(), 120),
        "misty (120 min outdated, will be updated on next launch)"
    );
    assert_eq!(
        annotate_outdated(&"".into(), 16),
        " (16 min outdated, will be updated on next launch)"
    );
}

#[test]
fn url_places_the_location() {
    assert_eq!(
        weather_url(&"".into()),
        "https://wttr.in/?format=+%C+%c+%t+feels+like+%f+Rainfall:+%p"
    );
    assert_eq!(
        weather_url(&"Paris".into()),
        "https://wttr.in/Paris?format=+%C+%c+%t+feels+like+%f+Rainfall:+%p"
    );
}

#[test]
fn location_defaults_to_empty() {
    let mut db = Store::new();
    assert_eq!(weather_location(&db), "");
    db.set("weather-specific-location", Value::Str("Oslo".into()));
    assert_eq!(weather_location(&db), "Oslo");
}

#[test]
fn greeting_follows_the_hour() {
    assert_eq!(greeting_for_hour(5), "good morning");
    assert_eq!(greeting_for_hour(12), "good morning");
    assert_eq!(greeting_for_hour(13), "good afternoon");
    assert_eq!(greeting_for_hour(17), "good afternoon");
    assert_eq!(greeting_for_hour(18), "good evening");
    assert_eq!(greeting_for_hour(23), "good evening");
    assert_eq!(greeting_for_hour(0), "good evening");
    assert_eq!(greeting_for_hour(4), "good evening");
    assert_eq!(greeting_for_hour(25), "good day");
}

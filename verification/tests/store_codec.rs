use pls::codec::{decode_store, encode_store};
use pls::repo::{add_task, get_tasks};
use pls::store::{Store, Value};
use pls::tasks::Task;

#[test]
fn store_get_set_remove() {
    let mut db = Store::new();
    assert!(!db.has_key("name"));
    assert!(db.get("name").is_none());
    db.set("name", Value::Str("Ada".into()));
    assert!(db.has_key("name"));
    assert_eq!(db.get_str("name"), Some("Ada".into()));
    db.set("name", Value::Str("Grace".into()));
    assert_eq!(db.get_str("name"), Some("Grace".into()));
    db.set("weather", Value::Bool(true));
    assert_eq!(db.get_bool("weather"), Some(true));
    db.set("weather-timestamp", Value::Int(-5));
    assert_eq!(db.get_int("weather-timestamp"), Some(-5));
    assert!(db.remove("name"));
    assert!(!db.has_key("name"));
    assert!(!db.remove("name"));
    assert_eq!(db.get_bool("weather"), Some(true));
}

#[test]
fn typed_read_of_wrong_type_is_absent() {
    let mut db = Store::new();
    db.set("weather-cached", Value::Int(7));
    assert_eq!(db.get_str("weather-cached"), None);
    assert_eq!(db.get_bool("weather-cached"), None);
    assert_eq!(db.get_int("weather-cached"), Some(7));
    assert!(db.get_task_list("weather-cached").is_none());
}

#[test]
fn encode_empty_store() {
    let db = Store::new();
    assert_eq!(encode_store(&db), "{}");
}

#[test]
fn encode_exact_document() {
    let mut db = Store::new();
    db.set("name", Value::Str("Ada".into()));
    db.set("weather", Value::Bool(true));
    db.set("weather-timestamp", Value::Int(1700000000));
    db.set(
        "tasks",
        Value::Tasks(vec![Task::new(&"buy milk".into()), Task::new_completed(&"mow lawn".into())]),
    );
    let expected = "{\"name\":\"Ada\",\"weather\":true,\"weather-timestamp\":1700000000,\"tasks\":[{\"title\":\"buy milk\",\"completed\":false},{\"title\":\"mow lawn\",\"completed\":true}]}";
    assert_eq!(encode_store(&db), expected);
}

#[test]
fn encode_escapes_specials() {
    let mut db = Store::new();
    db.set("name", Value::Str("a\"b\\c\nd".into()));
    assert_eq!(encode_store(&db), "{\"name\":\"a\\\"b\\\\c\\nd\"}");
}

#[test]
fn round_trip_preserves_everything() {
    let mut db = Store::new();
    db.set("name", Value::Str("Ada \"the\" first\t\\\r\n".into()));
    db.set("weather", Value::Bool(false));
    db.set("weather-timestamp", Value::Int(i64::MIN));
    db.set("weather-specific-location", Value::Str("".into()));
    add_task(&mut db, &"task, with ]{ punctuation".into());
    add_task(&mut db, &"".into());

    let text = encode_store(&db);
    let back = decode_store(&text).expect("canonical document must decode");
    assert_eq!(back.get_str("name"), db.get_str("name"));
    assert_eq!(back.get_bool("weather"), Some(false));
    assert_eq!(back.get_int("weather-timestamp"), Some(i64::MIN));
    assert_eq!(back.get_str("weather-specific-location"), Some("".into()));
    assert_eq!(get_tasks(&back), get_tasks(&db));
    assert_eq!(encode_store(&back), text);
}

#[test]
fn decode_integer_bounds() {
    let max = decode_store("{\"weather-timestamp\":9223372036854775807}").unwrap();
    assert_eq!(max.get_int("weather-timestamp"), Some(i64::MAX));
    let min = decode_store("{\"weather-timestamp\":-9223372036854775808}").unwrap();
    assert_eq!(min.get_int("weather-timestamp"), Some(i64::MIN));
    assert!(decode_store("{\"weather-timestamp\":9223372036854775808}").is_none());
    assert!(decode_store("{\"weather-timestamp\":-9223372036854775809}").is_none());
}

#[test]
fn decode_rejects_malformed_documents() {
    assert!(decode_store("").is_none());
    assert!(decode_store("{").is_none());
    assert!(decode_store("{}x").is_none());
    assert!(decode_store("{\"a\":}").is_none());
    assert!(decode_store("{\"a\":1,}").is_none());
    assert!(decode_store("{\"a\":\"unterminated}").is_none());
    assert!(decode_store("{\"a\":\"bad\\escape\"}").is_none());
    assert!(decode_store("{\"a\":1}trailing").is_none());
    assert!(decode_store("[]").is_none());
}

#[test]
fn decode_rejects_repeated_keys() {
    assert!(decode_store("{\"a\":1,\"a\":2}").is_none());
    assert!(decode_store("{\"a\":1,\"b\":2}").is_some());
}

#[test]
fn decode_reads_tasks() {
    let db = decode_store(
        "{\"tasks\":[{\"title\":\"a\",\"completed\":true},{\"title\":\"b\",\"completed\":false}]}",
    )
    .unwrap();
    let ts = get_tasks(&db);
    assert_eq!(ts.len(), 2);
    assert_eq!(ts[0].title, "a");
    assert!(ts[0].completed);
    assert_eq!(ts[1].title, "b");
    assert!(!ts[1].completed);
}

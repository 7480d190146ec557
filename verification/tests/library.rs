use pi_chat::clock::{millis_of, now, time_of};
use pi_chat::config::{legacy_key, migrate_legacy_api_key, AppConfig};
use pi_chat::db::{
    conversation_row, create_conversation, derive_title, found, insert_message_full, mentions,
    message_row, renamed_title, search_conversations, store_message, updated_title, NewMessage,
    Talk,
};
use pi_chat::digits::{decimal_text, pad_zeros, parse_i32, parse_u8, signed_text};
use pi_chat::json;
use pi_chat::json::Json;
use pi_chat::keyed::{comes_before, put_under, remove_under, value_under};
use pi_chat::models::{
    catalog_listed, chat_models, endpoint, endpoint_listed, is_likely_chat, list_begins,
    model_ids, read_models, with_names, ListStep, ModelCache,
};
use pi_chat::retry::{after_status, Retry};
use pi_chat::secrets::{set_api_key, stored_key, KeyUpdate, Stored};
use pi_chat::text;

fn strings(v: &[&str]) -> Vec<String> {
    v.iter().map(|s| s.to_string()).collect()
}

fn message(role: &str, content: &str) -> NewMessage {
    NewMessage {
        conversation_id: "c".to_string(),
        role: role.to_string(),
        content: content.to_string(),
        model: Some("m".to_string()),
        provider: None,
        thinking_level: None,
        thinking: None,
        usage: None,
        stop_reason: None,
        attachments: None,
    }
}

// ---------- models ----------

#[test]
fn filters_non_chat_models() {
    let ids = [
        "accounts/fireworks/models/llama-v3p1-8b-instruct",
        "accounts/fireworks/models/nomic-embed-text",
        "accounts/fireworks/models/whisper-large-v3",
        "gpt-4o-mini",
    ];
    let chat: Vec<&str> = ids.iter().copied().filter(|id| is_likely_chat(id)).collect();
    assert_eq!(chat, ["accounts/fireworks/models/llama-v3p1-8b-instruct", "gpt-4o-mini"]);
}

#[test]
fn an_endpoint_lists_its_models() {
    let listing = r#"{"object":"list","data":[{"id":"b","x":1},{"id":"a"},{"id":"b"}]}"#;
    assert_eq!(read_models(listing), Ok(strings(&["b", "a", "b"])));
    assert_eq!(read_models(r#"{"data":[]}"#), Ok(Vec::new()));
    let error = Err("parse models: error decoding response body".to_string());
    for text in ["{", "[]", r#"{"data":{}}"#, r#"{"data":[{"id":"a"},{"id":1}]}"#, "{}"] {
        assert_eq!(read_models(text), error);
    }
    let root = json::parse(r#"{"data":[{"id":"a"},{"name":"b"}]}"#).unwrap();
    assert_eq!(model_ids(&root), None);
}

#[test]
fn cache_is_scoped_to_base_url() {
    let mut cache = ModelCache::default();
    cache.put("http://a/v1".into(), vec!["m1".into()]);
    assert_eq!(cache.get("http://a/v1").unwrap(), vec!["m1".to_string()]);
    assert!(cache.get("http://b/v1").is_none());
}

#[test]
fn the_cache_holds_one_endpoint_and_filters() {
    let mut cache = ModelCache::default();
    assert!(cache.get("a").is_none());
    cache.put("a".into(), strings(&["x", "TTS-1", "x"]));
    assert_eq!(cache.get("a").unwrap(), ["x", "x"]);
    cache.put("b".into(), Vec::new());
    assert!(cache.get("a").is_none());
}

#[test]
fn models_are_sorted_and_named() {
    let ids = chat_models(&strings(&["b", "a", "sdxl-turbo", "b", "ab"]));
    assert_eq!(ids, ["a", "ab", "b"]);
    let names = vec![("b".to_string(), "Bee".to_string())];
    let named = with_names(&ids, &names);
    assert_eq!(named[2].name.as_deref(), Some("Bee"));
    assert_eq!((named[0].id.as_str(), named[0].name.as_deref()), ("a", None));
}

#[test]
fn models_come_from_the_catalog_first() {
    let mut cache = ModelCache::default();
    assert_eq!(endpoint("http://a/v1//"), "http://a/v1");
    assert!(matches!(list_begins(&cache, "u", false), ListStep::Catalog));
    cache.put("u".into(), strings(&["b", "tts"]));
    assert!(matches!(list_begins(&cache, "u", false), ListStep::Show { ids } if ids == ["b"]));
    assert!(matches!(list_begins(&cache, "u", true), ListStep::Catalog));
    let listed = catalog_listed(&strings(&["b", "a", "b", "flux"]), Ok(None));
    assert!(matches!(listed, ListStep::Keep { ids } if ids == ["a", "b"]));
}

#[test]
fn an_endpoint_that_is_not_in_the_catalog_is_asked() {
    let none = strings(&["whisper-1"]);
    assert!(matches!(
        catalog_listed(&none, Ok(Some("k".into()))),
        ListStep::Ask { key } if key == "k"
    ));
    assert!(matches!(
        catalog_listed(&none, Ok(None)),
        ListStep::Fail { error } if error == "API key not set — open Settings and add your key."
    ));
    assert!(matches!(
        catalog_listed(&none, Err("locked".into())),
        ListStep::Fail { error } if error == "locked"
    ));
    assert!(matches!(
        endpoint_listed(Ok(strings(&["b", "a", "sd3"]))),
        ListStep::Keep { ids } if ids == ["a", "b"]
    ));
    assert!(matches!(
        endpoint_listed(Err("models HTTP 500: x".into())),
        ListStep::Fail { error } if error == "models HTTP 500: x"
    ));
}

// ---------- database ----------

#[test]
fn derive_title_uses_first_line_truncated() {
    assert_eq!(derive_title("Hello there\nsecond line"), "Hello there");
    let long = "x".repeat(100);
    assert_eq!(derive_title(&long), format!("{}…", "x".repeat(60)));
    assert_eq!(derive_title("  \n  spaced  "), "spaced");
    assert_eq!(derive_title(""), "New chat");
}

#[test]
fn the_first_message_names_a_conversation() {
    assert_eq!(updated_title("New chat".into(), "user", "Hello\nx"), "Hello");
    assert_eq!(updated_title(String::new(), "user", "Hello"), "Hello");
    assert_eq!(updated_title("Mine".into(), "user", "Hello"), "Mine");
    assert_eq!(updated_title("New chat".into(), "assistant", "Hello"), "New chat");
    assert_eq!(renamed_title("  x y "), "x y");
}

#[test]
fn rows_are_numbered() {
    let first = message_row(message("user", "a"), "i".into(), None, 5);
    assert_eq!((first.index, first.created_at, first.id.as_str()), (0, 5, "i"));
    let next = message_row(message("tool", "b"), "j".into(), Some(41), 6);
    assert_eq!(next.index, 42);
    assert_eq!(next.model.as_deref(), Some("m"));
    let c = conversation_row(Some("T".into()), "c".into(), 3);
    let (stored, changed) = insert_message_full(c, message("user", "c"), Some(0));
    assert_eq!((stored.index, stored.content.as_str(), stored.id.len()), (1, "c", 36));
    assert_eq!(changed.updated_at, stored.created_at);
    assert_eq!((changed.id.as_str(), changed.title.as_str(), changed.created_at), ("c", "T", 3));
    let c = conversation_row(None, "k".into(), 7);
    assert_eq!((c.title.as_str(), c.created_at, c.updated_at), ("New chat", 7, 7));
    let c = create_conversation(Some("T".into()));
    assert_eq!((c.title.as_str(), c.id.len()), ("T", 36));
    assert_eq!(c.created_at, c.updated_at);
}

#[test]
fn a_message_brings_its_conversation_up_to_date() {
    let c = conversation_row(None, "c".into(), 3);
    let (row, c) = store_message(c, message("user", "Hello\nthere"), "i".into(), None, 8);
    assert_eq!((row.index, row.created_at), (0, 8));
    assert_eq!((c.title.as_str(), c.created_at, c.updated_at), ("Hello", 3, 8));
    let (row, c) = store_message(c, message("assistant", "Hi"), "j".into(), Some(row.index), 9);
    assert_eq!((row.index, row.created_at), (1, 9));
    assert_eq!((c.title.as_str(), c.created_at, c.updated_at), ("Hello", 3, 9));
}

#[test]
fn searching_ignores_case() {
    assert!(mentions("  ÄPFEL ", "Rote Äpfel"));
    assert!(mentions("äpfel", "ROTE ÄPFEL"));
    assert!(!mentions("birnen", "ROTE ÄPFEL"));
    assert!(mentions("x", "X"));
    assert!(mentions("", ""));
}

#[test]
fn signs_of_a_query_stand_for_themselves() {
    assert!(mentions("50%", "at 50% off"));
    assert!(!mentions("50%", "at 500 off"));
    assert!(mentions("a_b", "A_B"));
    assert!(!mentions("a_b", "axb"));
    assert!(mentions("c:\\x", "C:\\X"));
}

#[test]
fn conversations_are_found_by_title_or_content() {
    let talk = |id: &str, title: &str, contents: &[&str], at: i64| Talk {
        conversation: conversation_row(Some(title.into()), id.into(), at),
        contents: strings(contents),
    };
    let talks = || {
        vec![
            talk("4", "Rust", &["borrowing", "more RUST"], 40),
            talk("3", "Dinner", &["soup"], 30),
            talk("2", "Odd", &["a", "I like rust"], 20),
            talk("1", "Empty", &[], 10),
        ]
    };
    let ids = |query: &str| -> Vec<String> {
        search_conversations(query, talks()).into_iter().map(|c| c.id).collect()
    };
    assert_eq!(ids(" Rust "), ["4", "2"]);
    assert_eq!(ids("empty"), ["1"]);
    assert_eq!(ids("nothing"), Vec::<String>::new());
    assert_eq!(ids("  "), ["4", "3", "2", "1"]);
    assert!(found("soup", "x", &strings(&["a", "Soup"])));
    assert!(!found("soup", "x", &strings(&["a"])));
}

// ---------- asking again ----------

#[test]
fn a_busy_provider_is_asked_again() {
    assert_eq!(after_status(429, 0), Retry::Again { millis: 500 });
    assert_eq!(after_status(500, 1), Retry::Again { millis: 1000 });
    assert_eq!(after_status(503, 2), Retry::Again { millis: 2000 });
    assert_eq!(after_status(599, 3), Retry::Again { millis: 4000 });
    assert_eq!(after_status(429, 4), Retry::Stop);
    assert_eq!(after_status(500, u32::MAX), Retry::Stop);
}

#[test]
fn other_refusals_stand() {
    for status in [400, 401, 404, 428, 430, 499, 600] {
        assert_eq!(after_status(status, 0), Retry::Stop);
    }
}

// ---------- configuration and secrets ----------

#[test]
fn missing_file_uses_defaults() {
    let cfg = AppConfig::default();
    assert_eq!(cfg.base_url, "https://api.fireworks.ai/inference/v1");
    assert_eq!(cfg.model, "accounts/fireworks/models/llama-v3p1-8b-instruct");
    assert!(cfg.echo_reasoning_content);
    assert!(cfg.model_overrides.is_empty());
}

#[test]
fn an_old_key_is_moved_once() {
    let raw = json::parse(r#"{"baseUrl":"http://x/v1","apiKey":"fw_legacy","model":"m"}"#).unwrap();
    assert_eq!(migrate_legacy_api_key(&raw, false).as_deref(), Some("fw_legacy"));
    assert_eq!(migrate_legacy_api_key(&raw, true), None);
    let blank = json::parse(r#"{"apiKey":"  "}"#).unwrap();
    assert_eq!(migrate_legacy_api_key(&blank, false), None);
    assert_eq!(migrate_legacy_api_key(&Json::Null, false), None);
    let old = r#"{"apiKey":"fw_legacy","model":"m"}"#;
    assert_eq!(legacy_key(old, false).as_deref(), Some("fw_legacy"));
    assert_eq!(legacy_key(old, true), None);
    assert_eq!(legacy_key(r#"{"model":"m"}"#, false), None);
    assert_eq!(legacy_key("{", false), None);
}

#[test]
fn keys_are_stored_or_removed() {
    assert!(matches!(set_api_key(Some(" k ")), KeyUpdate::Store(k) if k == "k"));
    assert!(matches!(set_api_key(Some("  ")), KeyUpdate::Remove));
    assert!(matches!(set_api_key(None), KeyUpdate::Remove));
    assert_eq!(stored_key(Stored::Key("k".into())), Ok(Some("k".to_string())));
    assert_eq!(stored_key(Stored::Nothing), Ok(None));
    assert_eq!(stored_key(Stored::Failed("x".into())), Err("keychain read: x".to_string()));
}

// ---------- JSON ----------

#[test]
fn documents_are_read_and_written() {
    let text = r#"{"b":[1,-2,true,null],"a":"\"ü\"","c":{"z":0,"y":1}}"#;
    let j = json::parse(text).unwrap();
    assert_eq!(
        json::to_text(&j),
        r#"{"a":"\"ü\"","b":[1,-2,true,null],"c":{"y":1,"z":0}}"#
    );
    assert!(json::parse("{").is_none());
    assert_eq!(j.get_array("b").unwrap().len(), 4);
    assert_eq!(j.get_str("a"), Some("\"ü\""));
    assert_eq!(j.get("c").unwrap().get_u64("y"), Some(1));
    assert_eq!(j.get_bool("a"), None);
    // Keys that occur twice keep the last value.
    assert_eq!(json::parse(r#"{"a":1,"a":2}"#).unwrap().get_i64("a"), Some(2));
}

#[test]
fn numbers_keep_their_kind() {
    let j = json::parse(r#"{"big":18446744073709551615,"neg":-5,"f":2.75,"e":1e3}"#).unwrap();
    assert_eq!(j.get_u64("big"), Some(u64::MAX));
    assert_eq!(j.get_i64("big"), None);
    assert_eq!(j.get_i64("neg"), Some(-5));
    assert_eq!(j.get_u64("neg"), None);
    assert_eq!(j.get_i64("f"), None);
    assert_eq!(json::int_of(j.get("f").unwrap()), Some(2));
    assert_eq!(json::int_of(j.get("e").unwrap()), Some(1000));
    assert_eq!(json::bits_of(j.get("f").unwrap()), Some(2.75f64.to_bits()));
    assert_eq!(json::bits_of(j.get("neg").unwrap()), Some((-5.0f64).to_bits()));
    assert_eq!(json::bits_of(&Json::Null), None);
    assert_eq!(json::to_text(&Json::signed(-7)), "-7");
    assert_eq!(json::to_text(&Json::unsigned(7)), "7");
}

#[test]
fn members_are_put() {
    let j = Json::empty().with("b", Json::truth(true)).with("a", Json::text("x"));
    assert_eq!(json::to_text(&j), r#"{"a":"x","b":true}"#);
    let j = Json::Null.with("a", Json::texts(&strings(&["1", "2"])));
    assert_eq!(json::to_text(&j), r#"{"a":["1","2"]}"#);
}

// ---------- text and numbers ----------

#[test]
fn text_functions() {
    assert_eq!(text::trim("\u{2003} a b \n"), "a b");
    assert_eq!(text::lines("a\r\nb\n\nc\r"), ["a", "b", "", "c\r"]);
    assert_eq!(text::split_words("  a\tb\u{a0}c "), ["a", "b", "c"]);
    assert_eq!(text::join(&strings(&["a", "b"]), ", "), "a, b");
    assert_eq!(text::to_lower("ÄBC"), "Äbc");
    assert_eq!(text::take_chars("äöü", 2), "äö");
    assert_eq!(text::skip_past("a://b", "://"), "b");
    assert_eq!(text::skip_past("ab", "://"), "ab");
    assert!(text::contains("abc", ""));
    assert!(!text::contains("ab", "abc"));
}

#[test]
fn numbers_in_text() {
    assert_eq!(decimal_text(0), "0");
    assert_eq!(decimal_text(u64::MAX), "18446744073709551615");
    assert_eq!(signed_text(i64::MIN), "-9223372036854775808");
    assert_eq!(pad_zeros("7".into(), 3), "007");
    assert_eq!(parse_u8("+255"), Some(255));
    assert_eq!(parse_u8("256"), None);
    assert_eq!(parse_u8(""), None);
    assert_eq!(parse_i32("-2147483648"), Some(i32::MIN));
    assert_eq!(parse_i32("2147483648"), None);
    assert_eq!(parse_i32("+"), None);
}

#[test]
fn keyed_lists() {
    let mut v: Vec<(String, i32)> = Vec::new();
    put_under(&mut v, "b", 1);
    put_under(&mut v, "a", 2);
    put_under(&mut v, "b", 3);
    assert_eq!(v, [("a".to_string(), 2), ("b".to_string(), 3)]);
    assert_eq!(value_under(&v, "a"), Some(&2));
    assert_eq!(remove_under(&mut v, "a"), Some(2));
    assert_eq!(remove_under(&mut v, "a"), None);
    assert!(comes_before("a", "ab"));
    assert!(!comes_before("b", "ab"));
    assert!(comes_before("z", "ä"));
}

#[test]
fn time_is_told_in_milliseconds() {
    assert_eq!(millis_of(1, 999_999), 1000);
    assert_eq!(millis_of(1_700_000_000, 123_456_789), 1_700_000_000_123);
    assert_eq!(time_of(Some((1_700_000_000, 123_456_789))), 1_700_000_000_123);
    assert_eq!(time_of(None), 0);
    assert!(now() > 1_600_000_000_000);
}

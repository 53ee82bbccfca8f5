use descargador::download::format_selector;
use descargador::json::{duration_string, parse_json, value_string, Json, JsonNumber};
use descargador::numbers::{clock_text, round_double};
use descargador::probe::{
    extract_resolutions, parse_entry, parse_probe_result, probe_args, probe_reply, probe_target,
};

fn number(n: u32) -> Json {
    Json::Number(JsonNumber {
        unsigned: Some(n as u64),
        double_bits: Some((n as f64).to_bits()),
    })
}

fn text(value: &str) -> Json {
    Json::Str(value.to_string())
}

fn object(members: Vec<(&str, Json)>) -> Json {
    Json::Object(members.into_iter().map(|(key, value)| (key.to_string(), value)).collect())
}

fn document(source: &str) -> Json {
    parse_json(source).unwrap()
}

#[test]
fn resolutions_are_unique_and_sorted_highest_first() {
    let value = object(vec![(
        "formats",
        Json::Array(vec![
            object(vec![("height", number(720)), ("vcodec", text("avc1"))]),
            object(vec![("height", number(1080)), ("vcodec", text("av01"))]),
            object(vec![("height", number(720)), ("vcodec", text("vp9"))]),
            object(vec![("vcodec", text("none"))]),
        ]),
    )]);

    assert_eq!(extract_resolutions(&value), [1080, 720]);
    assert!(format_selector(Some(720)).contains("height<=720"));
}

#[test]
fn only_heights_of_pictures_count() {
    let value = document(
        r#"{"formats": [
            {"height": 480, "vcodec": "none"},
            {"height": 0, "vcodec": "avc1"},
            {"height": -5, "vcodec": "avc1"},
            {"height": 4294967296, "vcodec": "avc1"},
            {"height": 4294967295, "vcodec": "avc1"},
            {"height": 360.0, "vcodec": "avc1"},
            {"height": 144},
            {"height": "240", "vcodec": "avc1"},
            {"height": 360, "vcodec": "avc1"},
            17
        ]}"#,
    );
    assert_eq!(extract_resolutions(&value), [4294967295, 360]);
    assert!(extract_resolutions(&document("{}")).is_empty());
    assert!(extract_resolutions(&document("[1]")).is_empty());
    assert!(extract_resolutions(&document(r#"{"formats": {}}"#)).is_empty());
}

#[test]
fn texts_are_read_without_white_space() {
    let value = document(r#"{"a": "  x y ", "b": "  ", "c": 5, "a": " z "}"#);
    assert_eq!(value_string(&value, "a").as_deref(), Some("z"));
    assert_eq!(value_string(&value, "b"), None);
    assert_eq!(value_string(&value, "c"), None);
    assert_eq!(value_string(&value, "d"), None);
}

#[test]
fn durations_read_as_a_clock() {
    let of = |source: &str| duration_string(&document(source));
    assert_eq!(of(r#"{"duration": 5}"#).as_deref(), Some("0:05"));
    assert_eq!(of(r#"{"duration": 65.4}"#).as_deref(), Some("1:05"));
    assert_eq!(of(r#"{"duration": 59.5}"#).as_deref(), Some("1:00"));
    assert_eq!(of(r#"{"duration": 3725}"#).as_deref(), Some("1:02:05"));
    assert_eq!(of(r#"{"duration": -3}"#).as_deref(), Some("0:00"));
    assert_eq!(of(r#"{"duration": 1e30}"#).as_deref(), Some("5124095576030431:00:15"));
    assert_eq!(of(r#"{"duration": "5"}"#), None);
    assert_eq!(of("{}"), None);
    assert_eq!(clock_text(3599), "59:59");
    assert_eq!(clock_text(3600), "1:00:00");
}

#[test]
fn doubles_round_half_away_from_zero() {
    for double in [
        0.0, -0.0, 0.25, 0.49999999999999994, 0.5, 0.75, 1.0, 1.5, 2.5, 3.4, 59.999, 1e15, 4503599627370495.5,
        9007199254740993.0, 1.8446744073709552e19, 1e300, -0.5, -1.5, -1e300, 5e-324, f64::MIN_POSITIVE,
        f64::INFINITY, f64::NEG_INFINITY, f64::NAN, f64::MAX, f64::MIN,
    ] {
        assert_eq!(round_double(double.to_bits()), double.round() as u64, "{double}");
    }
}

#[test]
fn a_playlist_gives_its_entries() {
    let value = document(
        r#"{"title": "List", "entries": [
            {"id": "1", "title": " One ", "url": "https://e.com/1", "duration": 61},
            {"webpage_url": "https://e.com/w", "url": "https://e.com/u"},
            {}
        ]}"#,
    );
    let result = parse_probe_result("https://e.com/list", value);
    assert_eq!(result.source_url, "https://e.com/list");
    assert_eq!(result.title.as_deref(), Some("List"));
    assert_eq!(result.entries.len(), 3);
    let first = &result.entries[0];
    assert_eq!(first.id.as_deref(), Some("1"));
    assert_eq!(first.title.as_deref(), Some("One"));
    assert_eq!(first.url, "https://e.com/1");
    assert_eq!(first.webpage_url, None);
    assert_eq!(first.duration.as_deref(), Some("1:01"));
    assert_eq!(first.kind.as_deref(), Some("yt-dlp"));
    assert_eq!(first.source.as_deref(), Some("extractor"));
    assert_eq!(result.entries[1].url, "https://e.com/w");
    assert_eq!(result.entries[1].webpage_url.as_deref(), Some("https://e.com/w"));
    assert_eq!(result.entries[2].url, "https://e.com/list");
}

#[test]
fn an_entry_without_an_address_is_left_out() {
    assert!(parse_entry("  ", &document("{}")).is_none());
    let entry = parse_entry("  ", &document(r#"{"url": "u"}"#)).unwrap();
    assert_eq!(entry.url, "u");
}

#[test]
fn a_single_video_is_its_own_entry() {
    let value = document(
        r#"{"id": "v", "title": "T", "url": "https://e.com/file", "entries": [],
            "formats": [{"height": 720, "vcodec": "avc1"}]}"#,
    );
    let result = parse_probe_result("https://e.com/v", value);
    assert_eq!(result.entries.len(), 1);
    let entry = &result.entries[0];
    assert_eq!(entry.id.as_deref(), Some("v"));
    assert_eq!(entry.title.as_deref(), Some("T"));
    assert_eq!(entry.url, "https://e.com/file");
    assert_eq!(entry.webpage_url.as_deref(), Some("https://e.com/file"));
    assert_eq!(entry.resolutions, [720]);

    let bare = parse_probe_result("https://e.com/v", Json::Null);
    assert_eq!(bare.entries[0].url, "https://e.com/v");
    assert_eq!(bare.title, None);
}

#[test]
fn a_target_is_a_text_that_is_not_empty() {
    assert_eq!(probe_target(" https://e.com \n").as_deref(), Ok("https://e.com"));
    assert_eq!(probe_target(" \t").unwrap_err(), "Pegá una URL válida.");
}

#[test]
fn a_question_ends_in_the_address() {
    assert_eq!(
        probe_args("https://e.com", Some("/n"), Some("brave")).unwrap(),
        [
            "--dump-single-json", "--flat-playlist", "--no-color", "--ignore-config",
            "--socket-timeout", "30", "--retries", "3", "--js-runtimes", "node:/n",
            "--cookies-from-browser", "brave", "https://e.com",
        ]
    );
    assert_eq!(
        probe_args("u", None, Some("lynx")).unwrap_err(),
        "Navegador de cookies no compatible."
    );
}

#[test]
fn a_reply_is_read_or_explained() {
    let read = probe_reply("u", true, br#"{"title": "T"}"#, b"").unwrap();
    assert_eq!(read.title.as_deref(), Some("T"));
    assert_eq!(read.source_url, "u");

    assert_eq!(
        probe_reply("u", false, b"{}", b" ERROR: no ").unwrap_err(),
        "ERROR: no"
    );
    assert_eq!(probe_reply("u", false, b"{}", b"").unwrap_err(), "No pude extraer esa URL.");

    let broken = serde_json::from_str::<serde_json::Value>("{").unwrap_err();
    assert_eq!(
        probe_reply("u", true, b"{", b"").unwrap_err(),
        format!("yt-dlp devolvió JSON inválido: {broken}")
    );
}

#[test]
fn a_document_keeps_its_values() {
    let value = document(r#"{"a": [null, true, "s", 7, -1, 1.5], "b": {"c": false}}"#);
    let items = value.get("a").unwrap().as_array().unwrap();
    assert!(matches!(items[0], Json::Null));
    assert!(matches!(items[1], Json::Bool(true)));
    assert_eq!(items[2].as_str(), Some("s"));
    assert!(matches!(items[3], Json::Number(JsonNumber { unsigned: Some(7), .. })));
    assert!(matches!(items[4], Json::Number(JsonNumber { unsigned: None, .. })));
    match &items[5] {
        Json::Number(n) => assert_eq!(n.double_bits, Some(1.5f64.to_bits())),
        other => panic!("{other:?}"),
    }
    assert!(matches!(value.get("b").unwrap().get("c"), Some(Json::Bool(false))));
    assert!(value.get("a").unwrap().get("c").is_none());
}

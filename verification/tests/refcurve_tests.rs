use vastar::refcurve::{find_bytes, find_chars, number_span, reference_layout, string_field, RefCurveError};

const SWEEP_JSON: &str = "{\n  \"schema_version\": \"1.0\",\n  \"params\": {\n    \"url\": \"http://localhost:4545/v1\",\n    \"method\": \"POST\",\n    \"baseline_c\": 1\n  },\n  \"baseline\": {\"concurrency\":1,\"repeats\":1,\"rps\":812.50,\"p50_ms\":1.200,\"p99_ms\":2.500,\"error_rate\":0.0000},\n  \"sweep_points\": [\n    {\"concurrency\":10,\"rps\":5000.00,\"p99_ms\":3.100},\n    {\"concurrency\":50,\"rps\":9000.00,\"p99_ms\":7.700}\n  ],\n  \"sweet_spot\": {\n    \"concurrency\": 50,\n    \"rps\": 9000.00\n  },\n  \"notes\": []\n}";

fn chars(s: &str) -> Vec<char> {
    s.chars().collect()
}

#[test]
fn finds_first_occurrence() {
    assert_eq!(find_bytes(b"abcabc", b"bc", 0), Some(1));
    assert_eq!(find_bytes(b"abcabc", b"bc", 2), Some(4));
    assert_eq!(find_bytes(b"abcabc", b"bd", 0), None);
    assert_eq!(find_bytes(b"ab", b"abc", 0), None);
    assert_eq!(find_bytes(b"abc", b"", 3), Some(3));
    assert_eq!(find_bytes(b"abc", b"", 4), None);
    assert_eq!(find_chars(&chars("héé"), &chars("é"), 0), Some(1));
    assert_eq!(find_chars(&chars("héé"), &chars("é"), 2), Some(2));
}

#[test]
fn number_spans() {
    let obj = b"{\"concurrency\":10,\"rps\":5000.00,\"p99_ms\":3.1}";
    assert_eq!(number_span(obj, b"concurrency"), Some((15, 17)));
    assert_eq!(number_span(obj, b"rps"), Some((24, 31)));
    assert_eq!(number_span(obj, b"p99_ms"), Some((41, 44)));
    assert_eq!(number_span(obj, b"p50_ms"), None);
    assert_eq!(number_span(b"\"x\": 7 ", b"x"), Some((4, 7)));
}

#[test]
fn string_fields() {
    let v = chars("{\"url\":  \"http://h/\", \"method\":\"GET\", \"bad\": 5}");
    assert_eq!(string_field(&v, "url"), Some("http://h/".to_string()));
    assert_eq!(string_field(&v, "method"), Some("GET".to_string()));
    assert_eq!(string_field(&v, "bad"), None);
    assert_eq!(string_field(&v, "missing"), None);
    assert_eq!(string_field(&chars("\"k\": \"open"), "k"), None);
}

#[test]
fn layout_of_a_sweep_result() {
    let l = reference_layout(SWEEP_JSON).unwrap();
    assert_eq!(l.url, "http://localhost:4545/v1");
    assert_eq!(l.method, Some("POST".to_string()));
    let (bs, be) = l.baseline;
    assert!(SWEEP_JSON[bs..].starts_with("\"baseline\":"));
    assert_eq!(be, SWEEP_JSON.len().min(bs + 400));
    assert_eq!(l.points.len(), 2);
    assert_eq!(&SWEEP_JSON[l.points[0].0..l.points[0].1], "\"concurrency\":10,\"rps\":5000.00,\"p99_ms\":3.100}");
    assert_eq!(&SWEEP_JSON[l.points[1].0..l.points[1].1], "\"concurrency\":50,\"rps\":9000.00,\"p99_ms\":7.700}");
}

#[test]
fn layout_without_method() {
    let text = "{\"url\":\"u\",\"baseline\":{},\"sweep_points\":[]}";
    let l = reference_layout(text).unwrap();
    assert_eq!(l.url, "u");
    assert_eq!(l.method, None);
    assert_eq!(l.baseline, (11, text.len()));
    assert!(l.points.is_empty());
}

#[test]
fn layout_errors() {
    assert_eq!(reference_layout("{\"baseline\":{},\"sweep_points\":[]}").err(), Some(RefCurveError::MissingUrl));
    assert_eq!(reference_layout("{\"url\":\"u\",\"sweep_points\":[]}").err(), Some(RefCurveError::MissingBaseline));
    assert_eq!(reference_layout("{\"url\":\"u\",\"baseline\":{}}").err(), Some(RefCurveError::MissingSweepPoints));
    assert_eq!(
        reference_layout("{\"url\":\"u\",\"baseline\":{},\"sweep_points\":[{\"concurrency\":1").err(),
        Some(RefCurveError::UnclosedPoint)
    );
    // The baseline section is 400 bytes; a two-byte character across its end splits it.
    let mut text = String::from("{\"url\":\"u\",\"baseline\":");
    let start = text.len() - "\"baseline\":".len();
    while text.len() < start + 399 {
        text.push(' ');
    }
    text.push('é');
    text.push_str(",\"sweep_points\":[]}");
    assert_eq!(reference_layout(&text).err(), Some(RefCurveError::BaselineSplitsChar));
}

#[test]
fn points_stop_at_the_array_end() {
    // The sweet-spot object after the array also carries `"concurrency":`; it is no point.
    let text = "{\"url\":\"u\",\"baseline\":{},\"sweep_points\":[{\"concurrency\":1}],\"sweet_spot\":{\"concurrency\":1}}";
    let l = reference_layout(text).unwrap();
    assert_eq!(l.points.len(), 1);
    assert_eq!(&text[l.points[0].0..l.points[0].1], "\"concurrency\":1}");
    let text = "{\"url\":\"u\",\"baseline\":{},\"sweep_points\":[],\"concurrency\":7}";
    assert!(reference_layout(text).unwrap().points.is_empty());
    // Without a closing `]` the points run to the end of the text.
    let text = "{\"url\":\"u\",\"baseline\":{},\"sweep_points\":[{\"concurrency\":2}";
    assert_eq!(reference_layout(text).unwrap().points.len(), 1);
}

#[test]
fn written_fields_read_back() {
    let url = "http://localhost:4545/v1/chat";
    let text = format!(
        "{{\"params\": {{\"url\": {}, \"method\": {}}}}}",
        vastar::sweep::json_string(url),
        vastar::sweep::json_string("POST")
    );
    let v = chars(&text);
    assert_eq!(string_field(&v, "url"), Some(url.to_string()));
    assert_eq!(string_field(&v, "method"), Some("POST".to_string()));
}

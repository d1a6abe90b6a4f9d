use bondriver_mirakurun::channels::Channels;
use bondriver_mirakurun::config::Config;
use bondriver_mirakurun::json::{JsonMember, JsonValue};

fn cfg(split: i32) -> Config {
    Config {
        server_host: "localhost".to_string(),
        server_port: "40772".to_string(),
        decode_b25: 0,
        priority: 0,
        service_split: split,
    }
}

const CHANNELS: &str = r#"[
  {"type":"GR","channel":"27","name":"NHK","services":[]},
  {"type":"GR","channel":"26","name":"ETV"},
  {"type":"BS","channel":"BS15_0","name":"BS1"},
  {"type":"CS","channel":"CS2","name":"CS A"}
]"#;

const SERVICES: &str = r#"[
  {"id":1,"serviceId":1024,"name":"NHK G","channel":{"type":"GR","channel":"27"}},
  {"id":2,"serviceId":101,"name":"NHK BS1","channel":{"type":"BS","channel":"BS15_0"}},
  {"id":3,"name":"No id","channel":{"type":"BS","channel":"BS15_1"}}
]"#;

#[test]
fn channels_from_channel_list() {
    let c = Channels::from_response(&cfg(0), CHANNELS);
    assert!(!c.is_empty());
    assert_eq!(c.enum_tuning_space(0), Some("GR"));
    assert_eq!(c.enum_tuning_space(1), Some("BS"));
    assert_eq!(c.enum_tuning_space(2), Some("CS"));
    assert_eq!(c.enum_tuning_space(3), None);
    assert_eq!(c.enum_channel_name(0, 0), Some("NHK"));
    assert_eq!(c.enum_channel_name(0, 1), Some("ETV"));
    assert_eq!(c.enum_channel_name(0, 2), None);
    assert_eq!(c.enum_channel_name(1, 0), Some("BS1"));
    assert_eq!(c.enum_channel_name(1, 1), None);
    assert_eq!(c.enum_channel_name(2, 0), Some("CS A"));
    assert_eq!(c.enum_channel_name(2, 1), None);
    let e = c.entry(0, 1).unwrap();
    assert_eq!(e.type_, "GR");
    assert_eq!(e.channel, "26");
    assert_eq!(e.service_id, None);
}

#[test]
fn channels_from_service_list() {
    let c = Channels::from_response(&cfg(1), SERVICES);
    assert_eq!(c.enum_tuning_space(0), Some("GR"));
    assert_eq!(c.enum_tuning_space(1), Some("BS"));
    let e = c.entry(1, 0).unwrap();
    assert_eq!(e.channel, "BS15_0");
    assert_eq!(e.name, "NHK BS1");
    assert_eq!(e.service_id, Some(101));
    let e = c.entry(1, 1).unwrap();
    assert_eq!(e.channel, "BS15_1");
    assert_eq!(e.service_id, None);
}

#[test]
fn unusable_documents_give_an_empty_list() {
    for body in ["", "not json", "{}", "[]", "42", "[1, 2"] {
        let c = Channels::from_response(&cfg(0), body);
        assert!(c.is_empty(), "{body}");
        assert_eq!(c.enum_tuning_space(0), None);
        assert_eq!(c.enum_channel_name(0, 0), None);
    }
    let c = Channels::default();
    assert!(c.is_empty());
}

#[test]
fn items_that_are_not_objects_give_blank_entries() {
    let c = Channels::from_response(&cfg(0), "[1, {\"type\": 5, \"name\": \"x\"}]");
    assert!(!c.is_empty());
    assert_eq!(c.enum_tuning_space(0), Some(""));
    assert_eq!(c.enum_channel_name(0, 0), Some(""));
    assert_eq!(c.enum_channel_name(0, 1), Some("x"));
}

#[test]
fn at_most_seven_tuning_spaces() {
    let types = ["A", "B", "C", "D", "E", "F", "G", "H", "I"];
    let items: Vec<String> = types
        .iter()
        .map(|t| format!("{{\"type\":\"{t}\",\"channel\":\"1\",\"name\":\"{t}1\"}}"))
        .collect();
    let body = format!("[{}]", items.join(","));
    let c = Channels::from_response(&cfg(0), &body);
    for (i, t) in types.iter().take(7).enumerate() {
        assert_eq!(c.enum_tuning_space(i as u32), Some(*t));
    }
    assert_eq!(c.enum_tuning_space(7), None);
    // The last space is not bounded by a following one.
    assert_eq!(c.enum_channel_name(6, 0), Some("G1"));
    assert_eq!(c.enum_channel_name(6, 1), Some("H1"));
    assert_eq!(c.enum_channel_name(6, 2), Some("I1"));
    assert_eq!(c.enum_channel_name(6, 3), None);
    assert_eq!(c.enum_channel_name(5, 1), None);
}

#[test]
fn a_type_that_comes_back_opens_a_new_space() {
    let body = r#"[{"type":"GR","name":"a"},{"type":"BS","name":"b"},{"type":"GR","name":"c"}]"#;
    let c = Channels::from_response(&cfg(0), body);
    assert_eq!(c.enum_tuning_space(0), Some("GR"));
    assert_eq!(c.enum_tuning_space(1), Some("BS"));
    assert_eq!(c.enum_tuning_space(2), Some("GR"));
    assert_eq!(c.enum_channel_name(2, 0), Some("c"));
}

#[test]
fn large_channel_numbers_are_refused() {
    let c = Channels::from_response(&cfg(0), CHANNELS);
    assert_eq!(c.enum_channel_name(2, u32::MAX), None);
    assert_eq!(c.enum_channel_name(u32::MAX, 0), None);
}

#[test]
fn list_path_depends_on_service_split() {
    assert_eq!(Channels::list_path(&cfg(1)), "/api/services");
    assert_eq!(Channels::list_path(&cfg(0)), "/api/channels");
    assert_eq!(Channels::list_path(&cfg(2)), "/api/channels");
}

#[test]
fn from_json_on_a_built_document() {
    let item = |t: &str, n: &str| {
        JsonValue::Object(vec![
            JsonMember { key: "name".to_string(), value: JsonValue::Str(n.to_string()) },
            JsonMember { key: "type".to_string(), value: JsonValue::Str(t.to_string()) },
        ])
    };
    let doc = Some(JsonValue::Array(vec![item("GR", "x"), item("GR", "y"), item("BS", "z")]));
    let c = Channels::from_json(&cfg(0), &doc);
    assert_eq!(c.enum_tuning_space(1), Some("BS"));
    assert_eq!(c.enum_channel_name(0, 1), Some("y"));
    assert_eq!(c.enum_channel_name(1, 0), Some("z"));
}

#[test]
fn every_entry_has_exactly_one_space_and_channel() {
    let body = r#"[{"type":"GR","name":"a"},{"type":"GR","name":"b"},{"type":"BS","name":"c"},
                  {"type":"CS","name":"d"},{"type":"CS","name":"e"},{"type":"CS","name":"f"}]"#;
    let c = Channels::from_response(&cfg(0), body);
    let mut seen: Vec<(u32, u32, String)> = Vec::new();
    for space in 0..4u32 {
        for channel in 0..8u32 {
            if let Some(name) = c.enum_channel_name(space, channel) {
                assert_eq!(c.entry(space, channel).unwrap().name, name);
                seen.push((space, channel, name.to_string()));
            } else {
                assert!(c.entry(space, channel).is_none());
            }
        }
    }
    let names: Vec<&str> = seen.iter().map(|s| s.2.as_str()).collect();
    assert_eq!(names, vec!["a", "b", "c", "d", "e", "f"]);
    assert_eq!(seen[2], (1, 0, "c".to_string()));
    assert_eq!(seen[5], (2, 2, "f".to_string()));
}

#[test]
fn json_reading_follows_serde_json() {
    // Numbers: only non-negative integers that fit a u64 are service ids.
    let body = r#"[{"serviceId":18446744073709551615,"name":"max","channel":{"type":"GR","channel":"1"}},
                  {"serviceId":-1,"name":"neg","channel":{"type":"GR","channel":"2"}},
                  {"serviceId":3.5,"name":"frac","channel":{"type":"GR","channel":"3"}},
                  {"serviceId":"7","name":"text","channel":{"type":"GR","channel":"4"}}]"#;
    let c = Channels::from_response(&cfg(1), body);
    assert_eq!(c.entry(0, 0).unwrap().service_id, Some(u64::MAX));
    assert_eq!(c.entry(0, 1).unwrap().service_id, None);
    assert_eq!(c.entry(0, 2).unwrap().service_id, None);
    assert_eq!(c.entry(0, 3).unwrap().service_id, None);
    // A key given twice keeps its last value; escapes are decoded.
    let c = Channels::from_response(&cfg(0), r#"[{"type":"GR","name":"old","name":"n\u00e9w"}]"#);
    assert_eq!(c.enum_channel_name(0, 0), Some("n\u{e9}w"));
    // Trailing characters make the document unreadable.
    let c = Channels::from_response(&cfg(0), r#"[{"type":"GR"}] x"#);
    assert!(c.is_empty());
}

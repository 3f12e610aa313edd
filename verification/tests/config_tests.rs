use clawpanel::config::{clean_loaded_config, has_ui_fields, patch_model_vision, strip_ui_fields};
use clawpanel::json::{Json, Member};

fn to_json(v: &serde_json::Value) -> Json {
    match v {
        serde_json::Value::Null => Json::Null,
        serde_json::Value::Bool(b) => Json::Bool(*b),
        serde_json::Value::Number(n) => Json::Number(n.to_string()),
        serde_json::Value::String(s) => Json::Str(s.clone()),
        serde_json::Value::Array(a) => Json::Array(a.iter().map(to_json).collect()),
        serde_json::Value::Object(m) => Json::Object(
            m.iter().map(|(k, v)| Member { key: k.clone(), value: to_json(v) }).collect(),
        ),
    }
}

fn to_value(j: &Json) -> serde_json::Value {
    match j {
        Json::Null => serde_json::Value::Null,
        Json::Bool(b) => serde_json::Value::Bool(*b),
        Json::Number(n) => serde_json::Value::Number(n.parse().unwrap()),
        Json::Str(s) => serde_json::Value::String(s.clone()),
        Json::Array(a) => serde_json::Value::Array(a.iter().map(to_value).collect()),
        Json::Object(ms) => {
            let mut m = serde_json::Map::new();
            for member in ms {
                m.insert(member.key.clone(), to_value(&member.value));
            }
            serde_json::Value::Object(m)
        }
    }
}

fn parse(text: &str) -> Json {
    to_json(&serde_json::from_str(text).unwrap())
}

fn value(text: &str) -> serde_json::Value {
    serde_json::from_str(text).unwrap()
}

const WITH_UI: &str = r#"{
  "gateway": {"port": 18789},
  "models": {
    "mode": "merge",
    "providers": {
      "a": {"baseUrl": "https://a", "models": [
        {"id": "m1", "latency": 120, "lastTestAt": 1700000000, "testStatus": "ok"},
        {"id": "m2", "name": "Model Two", "testError": "boom"},
        {"name": "no id"},
        "not an object"
      ]},
      "b": {"models": {"id": "not an array", "latency": 3}},
      "c": 7
    }
  }
}"#;

#[test]
fn strip_removes_ui_fields_and_names_models() {
    let out = strip_ui_fields(parse(WITH_UI));
    let expected = value(r#"{
      "gateway": {"port": 18789},
      "models": {
        "mode": "merge",
        "providers": {
          "a": {"baseUrl": "https://a", "models": [
            {"id": "m1", "name": "m1"},
            {"id": "m2", "name": "Model Two"},
            {"name": "no id"},
            "not an object"
          ]},
          "b": {"models": {"id": "not an array", "latency": 3}},
          "c": 7
        }
      }
    }"#);
    assert_eq!(to_value(&out), expected);
}

#[test]
fn strip_names_model_only_from_string_id() {
    let out = strip_ui_fields(parse(r#"{"models":{"providers":{"p":{"models":[{"id": 5}, {"id": "x", "latency": 1}]}}}}"#));
    assert_eq!(
        to_value(&out),
        value(r#"{"models":{"providers":{"p":{"models":[{"id": 5}, {"id": "x", "name": "x"}]}}}}"#)
    );
}

#[test]
fn strip_leaves_documents_without_models_alone() {
    for text in [r#"[1, 2]"#, r#""text""#, r#"{"gateway": {"port": 1}}"#, r#"{"models": []}"#, r#"{"models": {"providers": []}}"#] {
        assert_eq!(strip_ui_fields(parse(text)), parse(text));
    }
}

#[test]
fn has_ui_fields_finds_each_interface_field() {
    for key in ["lastTestAt", "latency", "testStatus", "testError"] {
        let text = format!(r#"{{"models":{{"providers":{{"p":{{"models":[{{"id":"m"}},{{"{key}": 1}}]}}}}}}}}"#);
        assert!(has_ui_fields(&parse(&text)), "{key}");
    }
}

#[test]
fn has_ui_fields_ignores_fields_elsewhere() {
    assert!(!has_ui_fields(&parse(r#"{"latency": 1, "models":{"latency": 2, "providers":{"p":{"latency": 3, "models":[{"id":"m"}]}}}}"#)));
    assert!(!has_ui_fields(&parse(r#"{"models":{"providers":{"p":{"models":{"latency": 3}}}}}"#)));
    assert!(!has_ui_fields(&parse("null")));
}

#[test]
fn stripped_config_has_no_ui_fields() {
    let c = parse(WITH_UI);
    assert!(has_ui_fields(&c));
    let out = strip_ui_fields(c);
    assert!(!has_ui_fields(&out));
}

#[test]
fn strip_twice_equals_strip_once() {
    let once = strip_ui_fields(parse(WITH_UI));
    let twice = strip_ui_fields(strip_ui_fields(parse(WITH_UI)));
    assert_eq!(once, twice);
}

#[test]
fn patch_model_vision_adds_input_once() {
    let c = parse(r#"{"models":{"providers":{"p":{"models":[{"id":"a"},{"id":"b","input":["text"]}]},"q":{"models":[]}}}}"#);
    let (patched, changed) = patch_model_vision(c);
    assert!(changed);
    assert_eq!(
        to_value(&patched),
        value(r#"{"models":{"providers":{"p":{"models":[{"id":"a","input":["text","image"]},{"id":"b","input":["text"]}]},"q":{"models":[]}}}}"#)
    );
    let (again, changed_again) = patch_model_vision(patched);
    assert!(!changed_again);
    assert_eq!(
        to_value(&again),
        value(r#"{"models":{"providers":{"p":{"models":[{"id":"a","input":["text","image"]},{"id":"b","input":["text"]}]},"q":{"models":[]}}}}"#)
    );
}

#[test]
fn patch_model_vision_reports_no_change_without_models() {
    let (out, changed) = patch_model_vision(parse(r#"{"models":{"providers":{"p":{"models":["x", 1]}}}}"#));
    assert!(!changed);
    assert_eq!(out, parse(r#"{"models":{"providers":{"p":{"models":["x", 1]}}}}"#));
}

#[test]
fn loaded_config_is_cleaned_only_when_it_holds_ui_fields() {
    let (cleaned, write_back) = clean_loaded_config(parse(WITH_UI));
    assert!(write_back);
    assert!(!has_ui_fields(&cleaned));
    // without interface fields the configuration is returned as read: no name is added
    let plain = r#"{"models":{"providers":{"p":{"models":[{"id":"m"}]}}}}"#;
    let (same, write_back) = clean_loaded_config(parse(plain));
    assert!(!write_back);
    assert_eq!(same, parse(plain));
}

#[test]
fn first_of_duplicate_keys_is_the_one_edited() {
    let c = Json::Object(vec![
        Member { key: "models".to_string(), value: parse(r#"{"providers":{"p":{"models":[{"latency":1}]}}}"#) },
        Member { key: "models".to_string(), value: parse(r#"{"providers":{"p":{"models":[{"latency":2}]}}}"#) },
    ]);
    let out = strip_ui_fields(c);
    assert_eq!(
        out,
        Json::Object(vec![
            Member { key: "models".to_string(), value: parse(r#"{"providers":{"p":{"models":[{}]}}}"#) },
            Member { key: "models".to_string(), value: parse(r#"{"providers":{"p":{"models":[{"latency":2}]}}}"#) },
        ])
    );
}

#[test]
fn written_config_reads_back_unchanged() {
    let written = strip_ui_fields(parse(WITH_UI));
    let expected = strip_ui_fields(parse(WITH_UI));
    let (read, write_back) = clean_loaded_config(written);
    assert!(!write_back);
    assert_eq!(read, expected);
}

fn keys_distinct(j: &Json) -> bool {
    match j {
        Json::Array(items) => items.iter().all(keys_distinct),
        Json::Object(ms) => {
            let mut seen = std::collections::HashSet::new();
            ms.iter().all(|m| seen.insert(m.key.clone()) && keys_distinct(&m.value))
        }
        _ => true,
    }
}

#[test]
fn edited_documents_keep_distinct_keys() {
    let stripped = strip_ui_fields(parse(WITH_UI));
    assert!(keys_distinct(&stripped));
    let (patched, _) = patch_model_vision(parse(WITH_UI));
    assert!(keys_distinct(&patched));
    let (patched, _) = patch_model_vision(stripped);
    assert!(keys_distinct(&patched));
}

use clawpanel::json::{Json, Member};
use clawpanel::remote::{
    bearer_header, chat_completions_url, chat_probe_body, chat_reply, chat_request_error,
    model_ids, models_request_error, models_status_error_message, models_url,
    panel_release_report, status_error_message, RequestFailure,
};

fn to_json(v: &serde_json::Value) -> Json {
    match v {
        serde_json::Value::Null => Json::Null,
        serde_json::Value::Bool(b) => Json::Bool(*b),
        serde_json::Value::Number(n) => Json::Number(n.to_string()),
        serde_json::Value::String(s) => Json::Str(s.clone()),
        serde_json::Value::Array(a) => Json::Array(a.iter().map(to_json).collect()),
        serde_json::Value::Object(m) => Json::Object(
            m.iter().map(|(k, v)| Member { key: k.clone(), value: to_json(v) }).collect(),
        ),
    }
}

fn to_value(j: &Json) -> serde_json::Value {
    match j {
        Json::Null => serde_json::Value::Null,
        Json::Bool(b) => serde_json::Value::Bool(*b),
        Json::Number(n) => serde_json::Value::Number(n.parse().unwrap()),
        Json::Str(s) => serde_json::Value::String(s.clone()),
        Json::Array(a) => serde_json::Value::Array(a.iter().map(to_value).collect()),
        Json::Object(ms) => {
            let mut m = serde_json::Map::new();
            for member in ms {
                m.insert(member.key.clone(), to_value(&member.value));
            }
            serde_json::Value::Object(m)
        }
    }
}

fn parse(text: &str) -> Json {
    to_json(&serde_json::from_str(text).unwrap())
}

#[test]
fn endpoints_drop_trailing_slashes() {
    assert_eq!(chat_completions_url("https://api.example.com/v1"), "https://api.example.com/v1/chat/completions");
    assert_eq!(chat_completions_url("https://api.example.com/v1///"), "https://api.example.com/v1/chat/completions");
    assert_eq!(models_url("https://api.example.com/v1/"), "https://api.example.com/v1/models");
    assert_eq!(models_url(""), "/models");
}

#[test]
fn bearer_only_for_a_key() {
    assert_eq!(bearer_header("sk-1"), Some("Bearer sk-1".to_string()));
    assert_eq!(bearer_header(""), None);
}

#[test]
fn probe_body_asks_for_a_short_reply() {
    let body = to_value(&chat_probe_body("qwen-plus"));
    let expected: serde_json::Value = serde_json::from_str(
        r#"{"model": "qwen-plus", "messages": [{"role": "user", "content": "Hi"}], "max_tokens": 16, "stream": false}"#,
    )
    .unwrap();
    assert_eq!(body, expected);
}

#[test]
fn request_failures_are_explained() {
    assert_eq!(chat_request_error(&RequestFailure::Timeout), "请求超时 (30s)");
    assert_eq!(chat_request_error(&RequestFailure::Connect("refused".to_string())), "连接失败: refused");
    assert_eq!(chat_request_error(&RequestFailure::Other("bad".to_string())), "请求失败: bad");
    assert_eq!(models_request_error(&RequestFailure::Timeout), "请求超时 (15s)，该服务商可能不支持模型列表接口");
    assert_eq!(
        models_request_error(&RequestFailure::Connect("refused".to_string())),
        "连接失败，请检查接口地址是否正确: refused"
    );
    assert_eq!(models_request_error(&RequestFailure::Other("bad".to_string())), "请求失败: bad");
}

#[test]
fn error_status_uses_the_provider_message() {
    let body = parse(r#"{"error": {"message": "invalid api key", "type": "auth"}}"#);
    assert_eq!(status_error_message(Some(&body), "401 Unauthorized"), "invalid api key");
    let body = parse(r#"{"error": "plain"}"#);
    assert_eq!(status_error_message(Some(&body), "500 Internal Server Error"), "HTTP 500 Internal Server Error");
    assert_eq!(status_error_message(None, "404 Not Found"), "HTTP 404 Not Found");
    assert_eq!(
        models_status_error_message(None, "404 Not Found"),
        "获取模型列表失败: HTTP 404 Not Found"
    );
}

#[test]
fn reply_prefers_content_then_reasoning() {
    let body = parse(r#"{"choices": [{"message": {"content": "Hello!", "reasoning_content": "think"}}]}"#);
    assert_eq!(chat_reply(Some(&body)), "Hello!");
    let body = parse(r#"{"choices": [{"message": {"content": "", "reasoning_content": "think"}}]}"#);
    assert_eq!(chat_reply(Some(&body)), "[reasoning] think");
    let body = parse(r#"{"choices": [{"message": {"content": null, "reasoning_content": "think"}}]}"#);
    assert_eq!(chat_reply(Some(&body)), "[reasoning] think");
    let body = parse(r#"{"choices": [{"message": {"content": "", "reasoning_content": ""}}]}"#);
    assert_eq!(chat_reply(Some(&body)), "（无回复内容）");
    let body = parse(r#"{"choices": []}"#);
    assert_eq!(chat_reply(Some(&body)), "（无回复内容）");
    let body = parse(r#"{"choices": {"0": {"message": {"content": "x"}}}}"#);
    assert_eq!(chat_reply(Some(&body)), "（无回复内容）");
    assert_eq!(chat_reply(None), "（无回复内容）");
}

#[test]
fn model_ids_are_sorted() {
    let body = parse(r#"{"data": [{"id": "qwen-max"}, {"id": "deepseek-chat"}, {"name": "no id"}, {"id": 3}, {"id": "Zeta"}, {"id": "deepseek-chat"}]}"#);
    assert_eq!(
        model_ids(Some(&body)),
        Ok(vec!["Zeta".to_string(), "deepseek-chat".to_string(), "deepseek-chat".to_string(), "qwen-max".to_string()])
    );
}

#[test]
fn empty_model_lists_are_refused() {
    let refusal = Err("该服务商返回了空的模型列表，可能不支持 /models 接口".to_string());
    assert_eq!(model_ids(Some(&parse(r#"{"data": []}"#))), refusal);
    assert_eq!(model_ids(Some(&parse(r#"{"data": [{"name": "x"}]}"#))), refusal);
    assert_eq!(model_ids(Some(&parse(r#"{"models": ["a"]}"#))), refusal);
    assert_eq!(model_ids(None), refusal);
}

#[test]
fn panel_release_report_strips_the_v() {
    let r = panel_release_report(parse(r#"{"tag_name": "vv0.4.1", "html_url": "https://github.com/x/releases/tag/v0.4.1"}"#));
    let expected: serde_json::Value =
        serde_json::from_str(r#"{"latest": "0.4.1", "url": "https://github.com/x/releases/tag/v0.4.1"}"#).unwrap();
    assert_eq!(to_value(&r), expected);
    let r = panel_release_report(parse(r#"{"tag_name": 4}"#));
    let expected: serde_json::Value =
        serde_json::from_str(r#"{"latest": "", "url": "https://github.com/qingchencloud/clawpanel/releases"}"#).unwrap();
    assert_eq!(to_value(&r), expected);
    let r = panel_release_report(parse(r#"{"html_url": null}"#));
    let expected: serde_json::Value = serde_json::from_str(r#"{"latest": "", "url": null}"#).unwrap();
    assert_eq!(to_value(&r), expected);
}

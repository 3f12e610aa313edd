use vstd::prelude::*;

use crate::json::{
    as_text, field, find_key, get_field, get_item, item, lemma_items_model_ops,
    lemma_members_model_ops, member, members_model, object_of, text_of, text_value, Json,
    JsonValue, Member,
};
use crate::text::{
    concat, is_char, lemma_text_less_irreflexive, lemma_text_less_total,
    lemma_text_less_transitive, text_before, text_less, trim_end_by, trim_end_char,
    trim_start_by, trim_start_char,
};

verus! {

// ---------------------------------------------------------------------------
// Addresses and requests

/// The provider's address with `path` appended, without the slashes that end the
/// address as the user gave it.
pub open spec fn endpoint(base_url: Seq<char>, path: Seq<char>) -> Seq<char> {
    trim_end_by(base_url, is_char('/')) + path
}

/// The chat completion endpoint of a provider.
pub fn chat_completions_url(base_url: &str) -> (r: String)
    ensures
        r@ == endpoint(base_url@, "/chat/completions"@),
{
    let b = trim_end_char(base_url, '/');
    concat(b.as_str(), "/chat/completions")
}

/// The model list endpoint of a provider.
pub fn models_url(base_url: &str) -> (r: String)
    ensures
        r@ == endpoint(base_url@, "/models"@),
{
    let b = trim_end_char(base_url, '/');
    concat(b.as_str(), "/models")
}

/// The `Authorization` header for an API key; none for an empty key.
pub fn bearer_header(api_key: &str) -> (r: Option<String>)
    ensures
        match r {
            Some(h) => api_key@.len() > 0 && h@ == "Bearer "@ + api_key@,
            None => api_key@.len() == 0,
        },
{
    if api_key.is_empty() {
        None
    } else {
        Some(concat("Bearer ", api_key))
    }
}

/// The request that tests a model: one short user message, at most 16 tokens back,
/// no streaming.
pub open spec fn probe_body(model_id: Seq<char>) -> JsonValue {
    JsonValue::Object(
        seq![
            ("max_tokens"@, JsonValue::Number("16"@)),
            ("messages"@, JsonValue::Array(seq![JsonValue::Object(seq![
                ("content"@, JsonValue::Str("Hi"@)),
                ("role"@, JsonValue::Str("user"@)),
            ])])),
            ("model"@, JsonValue::Str(model_id)),
            ("stream"@, JsonValue::Bool(false)),
        ],
    )
}

pub fn chat_probe_body(model_id: &str) -> (j: Json)
    ensures
        j@ == probe_body(model_id@),
{
    let mut msg: Vec<Member> = Vec::new();
    msg.push(member("content", text_value("Hi")));
    msg.push(member("role", text_value("user")));
    let mut items: Vec<Json> = Vec::new();
    let m = object_of(msg);
    items.push(m);
    let mut top: Vec<Member> = Vec::new();
    top.push(member("max_tokens", Json::Number(String::from_str("16"))));
    top.push(member("messages", Json::Array(items)));
    top.push(member("model", text_value(model_id)));
    top.push(member("stream", Json::Bool(false)));
    proof {
        lemma_members_model_ops(msg@);
        lemma_members_model_ops(top@);
        lemma_items_model_ops(items@);
        assert(members_model(msg@) =~= seq![
            ("content"@, JsonValue::Str("Hi"@)),
            ("role"@, JsonValue::Str("user"@)),
        ]);
        assert(crate::json::items_model(items@) =~= seq![m@]);
        assert(members_model(top@) =~= seq![
            ("max_tokens"@, JsonValue::Number("16"@)),
            ("messages"@, JsonValue::Array(seq![m@])),
            ("model"@, JsonValue::Str(model_id@)),
            ("stream"@, JsonValue::Bool(false)),
        ]);
    }
    object_of(top)
}

/// Why a request got no answer: it timed out, the connection failed, or something
/// else went wrong (with the error's text).
#[derive(Debug, PartialEq, Eq)]
pub enum RequestFailure {
    Timeout,
    Connect(String),
    Other(String),
}

/// The message for a model test that got no answer.
pub fn chat_request_error(f: &RequestFailure) -> (r: String)
    ensures
        r@ == match f {
            RequestFailure::Timeout => "请求超时 (30s)"@,
            RequestFailure::Connect(e) => "连接失败: "@ + e@,
            RequestFailure::Other(e) => "请求失败: "@ + e@,
        },
{
    match f {
        RequestFailure::Timeout => String::from_str("请求超时 (30s)"),
        RequestFailure::Connect(e) => concat("连接失败: ", e.as_str()),
        RequestFailure::Other(e) => concat("请求失败: ", e.as_str()),
    }
}

/// The message for a model list request that got no answer.
pub fn models_request_error(f: &RequestFailure) -> (r: String)
    ensures
        r@ == match f {
            RequestFailure::Timeout => "请求超时 (15s)，该服务商可能不支持模型列表接口"@,
            RequestFailure::Connect(e) => "连接失败，请检查接口地址是否正确: "@ + e@,
            RequestFailure::Other(e) => "请求失败: "@ + e@,
        },
{
    match f {
        RequestFailure::Timeout => String::from_str("请求超时 (15s)，该服务商可能不支持模型列表接口"),
        RequestFailure::Connect(e) => concat("连接失败，请检查接口地址是否正确: ", e.as_str()),
        RequestFailure::Other(e) => concat("请求失败: ", e.as_str()),
    }
}

// ---------------------------------------------------------------------------
// Answers

/// The value under `k` of an optional document.
pub open spec fn opt_field(j: Option<JsonValue>, k: Seq<char>) -> Option<JsonValue> {
    match j {
        Some(v) => field(v, k),
        None => None,
    }
}

pub open spec fn opt_view(j: Option<&Json>) -> Option<JsonValue> {
    match j {
        Some(v) => Some(v@),
        None => None,
    }
}

/// The message of an answer with an error status: the provider's `error.message`
/// where it gives one, else the status.
pub open spec fn status_error(body: Option<JsonValue>, status: Seq<char>) -> Seq<char> {
    match text_of(opt_field(opt_field(body, "error"@), "message"@)) {
        Some(m) => m,
        None => "HTTP "@ + status,
    }
}

fn field_of_opt<'a>(j: Option<&'a Json>, k: &str) -> (r: Option<&'a Json>)
    ensures
        opt_view(r) == opt_field(opt_view(j), k@),
{
    match j {
        Some(v) => get_field(v, k),
        None => None,
    }
}

/// The message for a model test answered with an error status (`status` as the HTTP
/// status is written, such as `404 Not Found`); `body` is the answer where it is JSON.
pub fn status_error_message(body: Option<&Json>, status: &str) -> (r: String)
    ensures
        r@ == status_error(opt_view(body), status@),
{
    let e = field_of_opt(body, "error");
    let m = field_of_opt(e, "message");
    match as_text(m) {
        Some(t) => t.clone(),
        None => concat("HTTP ", status),
    }
}

/// The message for a model list request answered with an error status.
pub fn models_status_error_message(body: Option<&Json>, status: &str) -> (r: String)
    ensures
        r@ == "获取模型列表失败: "@ + status_error(opt_view(body), status@),
{
    let m = status_error_message(body, status);
    concat("获取模型列表失败: ", m.as_str())
}

/// What a model test shows where the answer carries no reply.
pub open spec fn no_reply() -> Seq<char> {
    "（无回复内容）"@
}

/// The reply of a chat completion: the `content` of the first choice's message where
/// it is a non-empty string, else its non-empty `reasoning_content` marked as
/// reasoning, else a note that there was no reply.
pub open spec fn chat_reply_text(body: Option<JsonValue>) -> Seq<char> {
    let choice = match opt_field(body, "choices"@) {
        Some(cs) => item(cs, 0),
        None => None,
    };
    match opt_field(choice, "message"@) {
        None => no_reply(),
        Some(msg) => {
            let content = match text_of(field(msg, "content"@)) {
                Some(c) => c,
                None => Seq::empty(),
            };
            if content.len() > 0 {
                content
            } else {
                match text_of(field(msg, "reasoning_content"@)) {
                    Some(r) => if r.len() > 0 {
                        "[reasoning] "@ + r
                    } else {
                        no_reply()
                    },
                    None => no_reply(),
                }
            }
        },
    }
}

/// The reply that a model test shows.
pub fn chat_reply(body: Option<&Json>) -> (r: String)
    ensures
        r@ == chat_reply_text(opt_view(body)),
{
    let choices = field_of_opt(body, "choices");
    let choice = match choices {
        Some(cs) => get_item(cs, 0),
        None => None,
    };
    let msg = field_of_opt(choice, "message");
    match msg {
        None => String::from_str("（无回复内容）"),
        Some(m) => {
            match as_text(get_field(m, "content")) {
                Some(c) => {
                    if !c.as_str().is_empty() {
                        return c.clone();
                    }
                },
                None => {},
            }
            match as_text(get_field(m, "reasoning_content")) {
                Some(t) => if !t.as_str().is_empty() {
                    concat("[reasoning] ", t.as_str())
                } else {
                    String::from_str("（无回复内容）")
                },
                None => String::from_str("（无回复内容）"),
            }
        },
    }
}

// ---------------------------------------------------------------------------
// Model lists

/// The string `id`s of the entries of a model list, in order.
pub open spec fn ids_of(items: Seq<JsonValue>) -> Seq<Seq<char>>
    decreases items.len(),
{
    if items.len() == 0 {
        seq![]
    } else {
        ids_of(items.drop_last()) + match text_of(field(items.last(), "id"@)) {
            Some(t) => seq![t],
            None => seq![],
        }
    }
}

/// The model ids of an answer of the `/models` endpoint: those of its `data` array
/// (none where there is no such array).
pub open spec fn listed_ids(body: Option<JsonValue>) -> Seq<Seq<char>> {
    match opt_field(body, "data"@) {
        Some(JsonValue::Array(items)) => ids_of(items),
        _ => seq![],
    }
}

/// The refusal of an empty model list.
pub open spec fn empty_list_message() -> Seq<char> {
    "该服务商返回了空的模型列表，可能不支持 /models 接口"@
}

pub open spec fn views(v: Seq<String>) -> Seq<Seq<char>> {
    Seq::new(v.len(), |i: int| v[i]@)
}

/// Selects the texts equal to `w`.
pub open spec fn equal_to(w: Seq<char>) -> spec_fn(Seq<char>) -> bool {
    |x: Seq<char>| x == w
}

/// In the order of texts.
pub open spec fn ascending(s: Seq<Seq<char>>) -> bool {
    forall|i: int, j: int| 0 <= i < j < s.len() ==> !text_less(s[j], s[i])
}

proof fn lemma_filter_none_text(s: Seq<Seq<char>>, p: spec_fn(Seq<char>) -> bool)
    requires
        forall|i: int| 0 <= i < s.len() ==> !p(#[trigger] s[i]),
    ensures
        s.filter(p) == Seq::<Seq<char>>::empty(),
    decreases s.len(),
{
    reveal(Seq::filter);
    if s.len() > 0 {
        assert forall|i: int| 0 <= i < s.drop_last().len() implies !p(#[trigger] s.drop_last()[i]) by {
            assert(s.drop_last()[i] == s[i]);
        }
        lemma_filter_none_text(s.drop_last(), p);
    }
}

/// The texts in ascending order, each as often as it came.
pub fn sort_texts(texts: Vec<String>) -> (out: Vec<String>)
    ensures
        out@.len() == texts@.len(),
        ascending(views(out@)),
        forall|w: Seq<char>| #[trigger] views(out@).filter(equal_to(w)) == views(texts@).filter(equal_to(w)),
{
    broadcast use vstd::seq_lib::group_filter_ensures;
    let ghost src = views(texts@);
    let ghost srcv = texts@;
    let mut out: Vec<String> = Vec::new();
    for e in it: texts.into_iter()
        invariant
            it.seq() == srcv,
            src == views(srcv),
            out@.len() == it.index(),
            ascending(views(out@)),
            forall|w: Seq<char>| #[trigger] views(out@).filter(equal_to(w)) == src.take(it.index() as int).filter(equal_to(w)),
    {
        let ghost idx = it.index() as int;
        let ghost before = views(out@);
        let ghost before_v = out@;
        let mut p: usize = 0;
        while p < out.len() && !text_before(e.as_str(), out[p].as_str())
            invariant
                p <= out.len(),
                out@ == before_v,
                before == views(before_v),
                forall|k: int| 0 <= k < p ==> !text_less(e@, #[trigger] before[k]),
            decreases out.len() - p,
        {
            p = p + 1;
        }
        proof {
            assert forall|k: int| p <= k < before.len() implies text_less(e@, #[trigger] before[k]) by {
                assert(text_less(e@, before[p as int]));
                if k > p {
                    assert(!text_less(before[k], before[p as int]));
                    lemma_text_less_total(before[k], before[p as int]);
                    if text_less(before[p as int], before[k]) {
                        lemma_text_less_transitive(e@, before[p as int], before[k]);
                    }
                }
            }
        }
        out.insert(p, e);
        proof {
            let a = before.take(p as int);
            let b = before.skip(p as int);
            let now = views(out@);
            assert(before =~= a + b);
            assert(now =~= a + seq![e@] + b);
            assert(src[idx] == e@);
            assert(src.take(idx + 1) =~= src.take(idx).push(e@));
            assert forall|w: Seq<char>| #[trigger] now.filter(equal_to(w)) == src.take(idx + 1).filter(equal_to(w)) by {
                Seq::filter_distributes_over_add(a, b, equal_to(w));
                Seq::filter_distributes_over_add(a + seq![e@], b, equal_to(w));
                Seq::filter_distributes_over_add(a, seq![e@], equal_to(w));
                src.take(idx).lemma_filter_push(e@, equal_to(w));
                Seq::<Seq<char>>::empty().lemma_filter_push(e@, equal_to(w));
                assert(Seq::<Seq<char>>::empty().push(e@) =~= seq![e@]);
                reveal(Seq::filter);
                if w == e@ {
                    assert forall|k: int| 0 <= k < b.len() implies !equal_to(w)(#[trigger] b[k]) by {
                        assert(b[k] == before[p + k]);
                        assert(text_less(e@, before[p + k]));
                        lemma_text_less_irreflexive(e@);
                    }
                    lemma_filter_none_text(b, equal_to(w));
                    assert(before.filter(equal_to(w)) =~= a.filter(equal_to(w)));
                } else {
                    assert(seq![e@].filter(equal_to(w)) =~= Seq::<Seq<char>>::empty());
                }
            }
            assert forall|i: int, j: int| 0 <= i < j < now.len() implies !text_less(now[j], now[i]) by {
                if j < p {
                    assert(now[i] == before[i] && now[j] == before[j]);
                } else if j == p {
                    assert(now[i] == before[i]);
                } else if i < p {
                    assert(now[i] == before[i] && now[j] == before[j - 1]);
                    assert(!text_less(e@, before[i]));
                    assert(text_less(e@, before[j - 1]));
                    lemma_text_less_total(e@, before[i]);
                    if text_less(before[j - 1], before[i]) {
                        if text_less(before[i], e@) {
                            lemma_text_less_transitive(before[j - 1], before[i], e@);
                            lemma_text_less_transitive(e@, before[j - 1], e@);
                            lemma_text_less_irreflexive(e@);
                        } else {
                            lemma_text_less_transitive(e@, before[j - 1], before[i]);
                            lemma_text_less_irreflexive(e@);
                        }
                    }
                } else if i == p {
                    assert(now[j] == before[j - 1]);
                    assert(text_less(e@, before[j - 1]));
                    if text_less(before[j - 1], e@) {
                        lemma_text_less_transitive(e@, before[j - 1], e@);
                        lemma_text_less_irreflexive(e@);
                    }
                } else {
                    assert(now[i] == before[i - 1] && now[j] == before[j - 1]);
                }
            }
        }
    }
    proof {
        assert(src.take(src.len() as int) =~= src);
    }
    out
}

/// The sorted list holds every id of the answer and nothing else.
pub proof fn law_model_ids_keep_every_id(listed: Seq<Seq<char>>, sorted: Seq<Seq<char>>)
    requires
        forall|w: Seq<char>| #[trigger] sorted.filter(equal_to(w)) == listed.filter(equal_to(w)),
    ensures
        forall|w: Seq<char>| listed.contains(w) <==> sorted.contains(w),
{
    assert forall|w: Seq<char>| listed.contains(w) <==> sorted.contains(w) by {
        let p = equal_to(w);
        if listed.contains(w) {
            let i = choose|i: int| 0 <= i < listed.len() && listed[i] == w;
            listed.lemma_filter_contains(p, i);
            assert(sorted.filter(p) == listed.filter(p));
            sorted.lemma_filter_contains_rev(p, w);
        }
        if sorted.contains(w) {
            let i = choose|i: int| 0 <= i < sorted.len() && sorted[i] == w;
            sorted.lemma_filter_contains(p, i);
            assert(sorted.filter(p) == listed.filter(p));
            listed.lemma_filter_contains_rev(p, w);
        }
    }
}

/// The model ids of an answer of the `/models` endpoint, sorted; the refusal where
/// there are none.
pub fn model_ids(body: Option<&Json>) -> (r: Result<Vec<String>, String>)
    ensures
        match r {
            Ok(ids) => {
                &&& listed_ids(opt_view(body)).len() > 0
                &&& views(ids@).len() == listed_ids(opt_view(body)).len()
                &&& ascending(views(ids@))
                &&& forall|w: Seq<char>| #[trigger] views(ids@).filter(equal_to(w))
                    == listed_ids(opt_view(body)).filter(equal_to(w))
            },
            Err(e) => listed_ids(opt_view(body)).len() == 0 && e@ == empty_list_message(),
        },
{
    let data = field_of_opt(body, "data");
    let mut ids: Vec<String> = Vec::new();
    match data {
        Some(Json::Array(items)) => {
            let ghost xs = crate::json::items_model(items@);
            proof {
                lemma_items_model_ops(items@);
            }
            let mut i: usize = 0;
            while i < items.len()
                invariant
                    xs == crate::json::items_model(items@),
                    xs.len() == items@.len(),
                    forall|j: int| 0 <= j < items@.len() ==> #[trigger] xs[j] == items@[j]@,
                    i <= items.len(),
                    views(ids@) == ids_of(xs.take(i as int)),
                decreases items.len() - i,
            {
                let ghost before = ids@;
                proof {
                    assert(xs.take(i + 1).drop_last() =~= xs.take(i as int));
                    assert(xs.take(i + 1).last() == xs[i as int]);
                }
                match as_text(get_field(&items[i], "id")) {
                    Some(t) => {
                        ids.push(t.clone());
                        assert(views(ids@) =~= views(before) + seq![t@]);
                    },
                    None => {
                        assert(views(ids@) =~= views(before) + Seq::<Seq<char>>::empty());
                    },
                }
                i = i + 1;
            }
            proof {
                assert(xs.take(items.len() as int) =~= xs);
            }
        },
        _ => {
            assert(views(ids@) =~= Seq::<Seq<char>>::empty());
        },
    }
    if ids.len() == 0 {
        return Err(String::from_str("该服务商返回了空的模型列表，可能不支持 /models 接口"));
    }
    Ok(sort_texts(ids))
}

// ---------------------------------------------------------------------------
// Panel releases

/// Where the panel's releases are listed.
pub open spec fn releases_page() -> Seq<char> {
    "https://github.com/qingchencloud/clawpanel/releases"@
}

/// What the panel reports of its latest release: the tag without leading `v`s (empty
/// where the release has no tag), and the release's page (the release list where the
/// release names none).
pub open spec fn release_report(release: JsonValue) -> JsonValue {
    let tag = match text_of(field(release, "tag_name"@)) {
        Some(t) => t,
        None => Seq::empty(),
    };
    let url = match field(release, "html_url"@) {
        Some(u) => u,
        None => JsonValue::Str(releases_page()),
    };
    JsonValue::Object(seq![("latest"@, JsonValue::Str(trim_start_by(tag, is_char('v')))), ("url"@, url)])
}

/// The report on the panel's latest release, from the release as the GitHub API gives it.
pub fn panel_release_report(release: Json) -> (r: Json)
    ensures
        r@ == release_report(release@),
{
    let tag = match as_text(get_field(&release, "tag_name")) {
        Some(t) => trim_start_char(t.as_str(), 'v'),
        None => {
            let empty = String::new();
            proof {
                assert(trim_start_by(Seq::<char>::empty(), is_char('v')) =~= Seq::<char>::empty());
            }
            empty
        },
    };
    let ghost rel = release@;
    let url = match release {
        Json::Object(members) => {
            proof {
                lemma_members_model_ops(members@);
            }
            match find_key(&members, "html_url") {
                Some(i) => {
                    let mut members = members;
                    let m = members.remove(i);
                    m.value
                },
                None => text_value("https://github.com/qingchencloud/clawpanel/releases"),
            }
        },
        _ => text_value("https://github.com/qingchencloud/clawpanel/releases"),
    };
    let mut out: Vec<Member> = Vec::new();
    out.push(member("latest", Json::Str(tag)));
    out.push(member("url", url));
    proof {
        lemma_members_model_ops(out@);
        assert(members_model(out@) =~= seq![
            ("latest"@, JsonValue::Str(tag@)),
            ("url"@, url@),
        ]);
    }
    object_of(out)
}

} // verus!

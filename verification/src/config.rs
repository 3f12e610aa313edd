use vstd::prelude::*;

use crate::json::{
    distinct_keys, entry_value, field, find_key, has_key, items_model, key_pos, lemma_items_model_ops,
    lemma_key_pos, lemma_key_pos_push, lemma_members_model_ops, lemma_with_field,
    lemma_with_field_twice, lemma_with_field_well_formed, member, members_model, model_of,
    well_formed, with_field, Entry, Json, JsonValue, Member,
};
use crate::text::same_text;

verus! {

/// The two edits that the panel makes to every model entry of a configuration,
/// that is to every element of `models.providers.<name>.models`.
#[derive(Clone, Copy, Debug, PartialEq, Eq, Structural)]
pub enum ModelEdit {
    /// Remove the fields that only the panel's interface uses (test results),
    /// and give an entry without `name` the name of its `id`.
    StripUiFields,
    /// Declare text and image input for an entry that declares no input.
    AddVisionInput,
}

/// Keys that only the panel's interface writes into a model entry.
pub open spec fn is_ui_key(k: Seq<char>) -> bool {
    ||| k == "lastTestAt"@
    ||| k == "latency"@
    ||| k == "testStatus"@
    ||| k == "testError"@
}

/// Keeps an entry whose key is not a UI key.
pub open spec fn keep_entry() -> spec_fn(Entry) -> bool {
    |e: Entry| !is_ui_key(e.0)
}

/// The `input` value that declares text and image input.
pub open spec fn vision_input() -> JsonValue {
    JsonValue::Array(seq![JsonValue::Str("text"@), JsonValue::Str("image"@)])
}

/// One model entry after the edit.
pub open spec fn edit_entry(op: ModelEdit, e: JsonValue) -> JsonValue {
    match e {
        JsonValue::Object(ms) => match op {
            ModelEdit::StripUiFields => {
                let kept = ms.filter(keep_entry());
                if key_pos(kept, "name"@) < 0 {
                    match entry_value(kept, "id"@) {
                        Some(JsonValue::Str(id)) => JsonValue::Object(
                            kept.push(("name"@, JsonValue::Str(id))),
                        ),
                        _ => JsonValue::Object(kept),
                    }
                } else {
                    JsonValue::Object(kept)
                }
            },
            ModelEdit::AddVisionInput => {
                if key_pos(ms, "input"@) < 0 {
                    JsonValue::Object(ms.push(("input"@, vision_input())))
                } else {
                    e
                }
            },
        },
        _ => e,
    }
}

/// Whether some entry has a UI key.
pub open spec fn has_ui_entry(ms: Seq<Entry>) -> bool {
    exists|i: int| 0 <= i < ms.len() && is_ui_key(#[trigger] ms[i].0)
}

/// Whether the edit concerns this model entry: for `StripUiFields` it holds a UI
/// field, for `AddVisionInput` it is an object without `input`.
pub open spec fn entry_targeted(op: ModelEdit, e: JsonValue) -> bool {
    match e {
        JsonValue::Object(ms) => match op {
            ModelEdit::StripUiFields => has_ui_entry(ms),
            ModelEdit::AddVisionInput => key_pos(ms, "input"@) < 0,
        },
        _ => false,
    }
}

pub open spec fn any_entry_targeted(op: ModelEdit, items: Seq<JsonValue>) -> bool {
    exists|i: int| 0 <= i < items.len() && entry_targeted(op, #[trigger] items[i])
}

pub open spec fn any_provider_targeted(op: ModelEdit, ms: Seq<Entry>) -> bool {
    exists|i: int| 0 <= i < ms.len() && provider_targeted(op, #[trigger] ms[i].1)
}

pub open spec fn edit_entries(op: ModelEdit, items: Seq<JsonValue>) -> Seq<JsonValue> {
    Seq::new(items.len(), |i: int| edit_entry(op, items[i]))
}

/// A provider after the edit: the entries of its `models` array are edited, where
/// `models` is an array.
pub open spec fn edit_provider(op: ModelEdit, p: JsonValue) -> JsonValue {
    match field(p, "models"@) {
        Some(JsonValue::Array(items)) => with_field(p, "models"@, JsonValue::Array(edit_entries(op, items))),
        _ => p,
    }
}

pub open spec fn provider_targeted(op: ModelEdit, p: JsonValue) -> bool {
    match field(p, "models"@) {
        Some(JsonValue::Array(items)) => any_entry_targeted(op, items),
        _ => false,
    }
}

pub open spec fn edit_provider_entries(op: ModelEdit, ms: Seq<Entry>) -> Seq<Entry> {
    Seq::new(ms.len(), |i: int| (ms[i].0, edit_provider(op, ms[i].1)))
}

/// The `providers` object after the edit: every provider is edited.
pub open spec fn edit_providers(op: ModelEdit, j: JsonValue) -> JsonValue {
    match j {
        JsonValue::Object(ms) => JsonValue::Object(edit_provider_entries(op, ms)),
        _ => j,
    }
}

pub open spec fn providers_targeted(op: ModelEdit, j: JsonValue) -> bool {
    match j {
        JsonValue::Object(ms) => any_provider_targeted(op, ms),
        _ => false,
    }
}

/// The `models` section after the edit.
pub open spec fn edit_section(op: ModelEdit, s: JsonValue) -> JsonValue {
    match field(s, "providers"@) {
        Some(p) => with_field(s, "providers"@, edit_providers(op, p)),
        None => s,
    }
}

pub open spec fn section_targeted(op: ModelEdit, s: JsonValue) -> bool {
    match field(s, "providers"@) {
        Some(p) => providers_targeted(op, p),
        None => false,
    }
}

/// A whole configuration after the edit.
pub open spec fn edit_config(op: ModelEdit, c: JsonValue) -> JsonValue {
    match field(c, "models"@) {
        Some(s) => with_field(c, "models"@, edit_section(op, s)),
        None => c,
    }
}

/// Whether some model entry of the configuration is concerned by the edit.
pub open spec fn config_targeted(op: ModelEdit, c: JsonValue) -> bool {
    match field(c, "models"@) {
        Some(s) => section_targeted(op, s),
        None => false,
    }
}

// ---------------------------------------------------------------------------
// Executable traversal

fn is_ui_key_text(k: &str) -> (r: bool)
    ensures
        r == is_ui_key(k@),
{
    same_text(k, "lastTestAt") || same_text(k, "latency") || same_text(k, "testStatus")
        || same_text(k, "testError")
}

proof fn lemma_remove_insert(s: Seq<Member>, i: int, x: Member)
    requires
        0 <= i < s.len(),
    ensures
        s.remove(i).insert(i, x) == s.update(i, x),
        members_model(s.remove(i).insert(i, x)) == members_model(s).update(i, (x.key@, model_of(x.value))),
{
    assert(s.remove(i).insert(i, x) =~= s.update(i, x));
    lemma_members_model_ops(s);
}

/// The members of an object without its UI fields, and whether there were any.
fn drop_ui_members(members: Vec<Member>) -> (out: (Vec<Member>, bool))
    ensures
        members_model(out.0@) == members_model(members@).filter(keep_entry()),
        out.1 == exists|i: int| 0 <= i < members@.len() && is_ui_key(#[trigger] members_model(members@)[i].0),
{
    let ghost ms = members_model(members@);
    proof {
        lemma_members_model_ops(members@);
    }
    let ghost src = members@;
    let mut kept: Vec<Member> = Vec::new();
    let mut found = false;
    for m in it: members.into_iter()
        invariant
            it.seq() == src,
            ms == members_model(src),
            ms.len() == src.len(),
            forall|j: int| 0 <= j < src.len() ==> #[trigger] ms[j] == (src[j].key@, model_of(src[j].value)),
            members_model(kept@) == ms.take(it.index() as int).filter(keep_entry()),
            found == exists|i: int| 0 <= i < it.index() && is_ui_key(#[trigger] ms[i].0),
    {
        let ghost idx = it.index() as int;
        let ghost before = kept@;
        let ui = is_ui_key_text(m.key.as_str());
        proof {
            assert(ms.take(idx + 1).drop_last() =~= ms.take(idx));
            assert(ms.take(idx + 1).last() == ms[idx]);
            reveal(Seq::filter);
            lemma_members_model_ops(before);
        }
        if ui {
            found = true;
        } else {
            kept.push(m);
        }
    }
    proof {
        assert(ms.take(src.len() as int) =~= ms);
    }
    (kept, found)
}

/// The value that declares text and image input.
pub fn vision_input_json() -> (j: Json)
    ensures
        j@ == vision_input(),
{
    let mut items: Vec<Json> = Vec::new();
    items.push(Json::Str(String::from_str("text")));
    items.push(Json::Str(String::from_str("image")));
    let j = Json::Array(items);
    proof {
        lemma_items_model_ops(items@);
        assert(items_model(items@) =~= seq![JsonValue::Str("text"@), JsonValue::Str("image"@)]);
    }
    j
}

fn edit_entry_exec(op: ModelEdit, e: Json) -> (out: (Json, bool))
    ensures
        out.0@ == edit_entry(op, e@),
        out.1 == entry_targeted(op, e@),
{
    match e {
        Json::Object(members) => {
            let ghost ms = members_model(members@);
            match op {
                ModelEdit::StripUiFields => {
                    let (kept, had_ui) = drop_ui_members(members);
                    let mut kept = kept;
                    let ghost kept_m = members_model(kept@);
                    let mut id_text: Option<String> = None;
                    proof {
                        lemma_members_model_ops(kept@);
                    }
                    if find_key(&kept, "name").is_none() {
                        match find_key(&kept, "id") {
                            Some(i) => {
                                match &kept[i].value {
                                    Json::Str(s) => {
                                        id_text = Some(s.clone());
                                    },
                                    _ => {},
                                }
                            },
                            None => {},
                        }
                    }
                    proof {
                        match &id_text {
                            Some(s) => {
                                assert(key_pos(kept_m, "name"@) < 0);
                                assert(entry_value(kept_m, "id"@) == Some(JsonValue::Str(s@)));
                            },
                            None => {
                                assert(edit_entry(op, e@) == JsonValue::Object(kept_m));
                            },
                        }
                    }
                    match id_text {
                        Some(s) => {
                            let ghost before = kept@;
                            let nm = member("name", Json::Str(s));
                            kept.push(nm);
                            proof {
                                lemma_members_model_ops(before);
                                assert(members_model(kept@) == kept_m.push(("name"@, JsonValue::Str(s@))));
                            }
                        },
                        None => {},
                    }
                    assert(e@ == JsonValue::Object(ms));
                    assert(kept_m == ms.filter(keep_entry()));
                    (Json::Object(kept), had_ui)
                },
                ModelEdit::AddVisionInput => {
                    if find_key(&members, "input").is_none() {
                        let mut members = members;
                        let ghost before = members@;
                        let nm = member("input", vision_input_json());
                        members.push(nm);
                        proof {
                            lemma_members_model_ops(before);
                            assert(members_model(members@) == ms.push(("input"@, vision_input())));
                            assert(key_pos(ms, "input"@) < 0);
                            assert(edit_entry(op, e@) == JsonValue::Object(ms.push(("input"@, vision_input()))));
                        }
                        (Json::Object(members), true)
                    } else {
                        (Json::Object(members), false)
                    }
                },
            }
        },
        other => (other, false),
    }
}

fn edit_items(op: ModelEdit, items: Vec<Json>) -> (out: (Vec<Json>, bool))
    ensures
        items_model(out.0@) == edit_entries(op, items_model(items@)),
        out.1 == exists|i: int| 0 <= i < items@.len() && entry_targeted(op, #[trigger] items_model(items@)[i]),
{
    let ghost src = items@;
    let ghost xs = items_model(src);
    proof {
        lemma_items_model_ops(src);
    }
    let mut done: Vec<Json> = Vec::new();
    let mut found = false;
    for x in it: items.into_iter()
        invariant
            it.seq() == src,
            xs == items_model(src),
            xs.len() == src.len(),
            forall|j: int| 0 <= j < src.len() ==> #[trigger] xs[j] == model_of(src[j]),
            items_model(done@).len() == it.index(),
            forall|j: int| 0 <= j < it.index() ==> #[trigger] items_model(done@)[j] == edit_entry(op, xs[j]),
            found == exists|i: int| 0 <= i < it.index() && entry_targeted(op, #[trigger] xs[i]),
    {
        let ghost before = done@;
        let ghost idx = it.index() as int;
        proof {
            assert(xs[idx] == model_of(x));
        }
        let (y, t) = edit_entry_exec(op, x);
        done.push(y);
        proof {
            lemma_items_model_ops(before);
        }
        if t {
            found = true;
        }
        proof {
            if !t {
                assert forall|i: int| 0 <= i < idx + 1 && entry_targeted(op, #[trigger] xs[i]) implies i < idx by {}
            }
        }
    }
    proof {
        assert(items_model(done@) =~= edit_entries(op, xs));
    }
    (done, found)
}

fn edit_provider_exec(op: ModelEdit, p: Json) -> (out: (Json, bool))
    ensures
        out.0@ == edit_provider(op, p@),
        out.1 == provider_targeted(op, p@),
{
    match p {
        Json::Object(members) => {
            match find_key(&members, "models") {
                Some(i) => {
                    let mut members = members;
                    let ghost before = members@;
                    proof {
                        lemma_members_model_ops(before);
                        lemma_key_pos(members_model(before), "models"@);
                    }
                    let m = members.remove(i);
                    match m.value {
                        Json::Array(items) => {
                            let (items2, t) = edit_items(op, items);
                            let nm = Member { key: m.key, value: Json::Array(items2) };
                            members.insert(i, nm);
                            proof {
                                lemma_remove_insert(before, i as int, nm);
                                assert(members_model(before)[i as int].0 == "models"@);
                            }
                            (Json::Object(members), t)
                        },
                        other => {
                            let nm = Member { key: m.key, value: other };
                            members.insert(i, nm);
                            proof {
                                lemma_remove_insert(before, i as int, nm);
                                assert(before.update(i as int, nm) =~= before);
                                assert(members_model(before)[i as int].0 == "models"@);
                            }
                            (Json::Object(members), false)
                        },
                    }
                },
                None => (Json::Object(members), false),
            }
        },
        other => (other, false),
    }
}

fn edit_providers_exec(op: ModelEdit, j: Json) -> (out: (Json, bool))
    ensures
        out.0@ == edit_providers(op, j@),
        out.1 == providers_targeted(op, j@),
{
    match j {
        Json::Object(members) => {
            let ghost src = members@;
            let ghost ms = members_model(src);
            proof {
                lemma_members_model_ops(src);
            }
            let mut done: Vec<Member> = Vec::new();
            let mut found = false;
            for m in it: members.into_iter()
                invariant
                    it.seq() == src,
                    ms == members_model(src),
                    ms.len() == src.len(),
                    forall|k: int| 0 <= k < src.len() ==> #[trigger] ms[k] == (src[k].key@, model_of(src[k].value)),
                    members_model(done@).len() == it.index(),
                    forall|k: int| 0 <= k < it.index() ==> #[trigger] members_model(done@)[k] == (ms[k].0, edit_provider(op, ms[k].1)),
                    found == exists|i: int| 0 <= i < it.index() && provider_targeted(op, #[trigger] ms[i].1),
            {
                let ghost before = done@;
                let ghost idx = it.index() as int;
                proof {
                    assert(ms[idx] == (m.key@, model_of(m.value)));
                }
                let (v, t) = edit_provider_exec(op, m.value);
                done.push(Member { key: m.key, value: v });
                proof {
                    lemma_members_model_ops(before);
                }
                if t {
                    found = true;
                    proof {
                        assert(provider_targeted(op, ms[idx].1));
                    }
                }
                proof {
                    if !t {
                        assert forall|i: int| 0 <= i < idx + 1 && provider_targeted(op, #[trigger] ms[i].1) implies i < idx by {}
                    }
                }
            }
            proof {
                assert(members_model(done@) =~= edit_provider_entries(op, ms));
            }
            (Json::Object(done), found)
        },
        other => (other, false),
    }
}

fn edit_section_exec(op: ModelEdit, s: Json) -> (out: (Json, bool))
    ensures
        out.0@ == edit_section(op, s@),
        out.1 == section_targeted(op, s@),
{
    match s {
        Json::Object(members) => {
            match find_key(&members, "providers") {
                Some(i) => {
                    let mut members = members;
                    let ghost before = members@;
                    proof {
                        lemma_members_model_ops(before);
                        lemma_key_pos(members_model(before), "providers"@);
                    }
                    let m = members.remove(i);
                    let (v, t) = edit_providers_exec(op, m.value);
                    let nm = Member { key: m.key, value: v };
                    members.insert(i, nm);
                    proof {
                        lemma_remove_insert(before, i as int, nm);
                        assert(members_model(before)[i as int].0 == "providers"@);
                    }
                    (Json::Object(members), t)
                },
                None => (Json::Object(members), false),
            }
        },
        other => (other, false),
    }
}

fn edit_config_exec(op: ModelEdit, c: Json) -> (out: (Json, bool))
    ensures
        out.0@ == edit_config(op, c@),
        out.1 == config_targeted(op, c@),
{
    match c {
        Json::Object(members) => {
            match find_key(&members, "models") {
                Some(i) => {
                    let mut members = members;
                    let ghost before = members@;
                    proof {
                        lemma_members_model_ops(before);
                        lemma_key_pos(members_model(before), "models"@);
                    }
                    let m = members.remove(i);
                    let (v, t) = edit_section_exec(op, m.value);
                    let nm = Member { key: m.key, value: v };
                    members.insert(i, nm);
                    proof {
                        lemma_remove_insert(before, i as int, nm);
                        assert(members_model(before)[i as int].0 == "models"@);
                    }
                    (Json::Object(members), t)
                },
                None => (Json::Object(members), false),
            }
        },
        other => (other, false),
    }
}


// ---------------------------------------------------------------------------
// Read-only traversal

fn entry_targeted_ref(op: ModelEdit, e: &Json) -> (r: bool)
    ensures
        r == entry_targeted(op, e@),
{
    match e {
        Json::Object(members) => {
            let ghost ms = members_model(members@);
            proof {
                lemma_members_model_ops(members@);
            }
            match op {
                ModelEdit::StripUiFields => {
                    let mut i: usize = 0;
                    while i < members.len()
                        invariant
                            e@ == JsonValue::Object(ms),
                            op == ModelEdit::StripUiFields,
                            ms == members_model(members@),
                            ms.len() == members@.len(),
                            forall|j: int| 0 <= j < members@.len() ==> #[trigger] ms[j] == (members@[j].key@, model_of(members@[j].value)),
                            i <= members.len(),
                            forall|j: int| 0 <= j < i ==> !is_ui_key(#[trigger] ms[j].0),
                        decreases members.len() - i,
                    {
                        if is_ui_key_text(members[i].key.as_str()) {
                            assert(is_ui_key(ms[i as int].0));
                            return true;
                        }
                        i = i + 1;
                    }
                    false
                },
                ModelEdit::AddVisionInput => find_key(members, "input").is_none(),
            }
        },
        _ => false,
    }
}

fn provider_targeted_ref(op: ModelEdit, p: &Json) -> (r: bool)
    ensures
        r == provider_targeted(op, p@),
{
    match p {
        Json::Object(members) => {
            proof {
                lemma_members_model_ops(members@);
            }
            match find_key(members, "models") {
                Some(i) => match &members[i].value {
                    Json::Array(items) => {
                        let ghost xs = items_model(items@);
                        proof {
                            lemma_items_model_ops(items@);
                        }
                        let mut k: usize = 0;
                        while k < items.len()
                            invariant
                                field(p@, "models"@) == Some(JsonValue::Array(xs)),
                                xs == items_model(items@),
                                xs.len() == items@.len(),
                                forall|j: int| 0 <= j < items@.len() ==> #[trigger] xs[j] == model_of(items@[j]),
                                k <= items.len(),
                                forall|j: int| 0 <= j < k ==> !entry_targeted(op, #[trigger] xs[j]),
                            decreases items.len() - k,
                        {
                            if entry_targeted_ref(op, &items[k]) {
                                assert(entry_targeted(op, xs[k as int]));
                                return true;
                            }
                            k = k + 1;
                        }
                        false
                    },
                    _ => false,
                },
                None => false,
            }
        },
        _ => false,
    }
}

fn providers_targeted_ref(op: ModelEdit, j: &Json) -> (r: bool)
    ensures
        r == providers_targeted(op, j@),
{
    match j {
        Json::Object(members) => {
            let ghost ms = members_model(members@);
            proof {
                lemma_members_model_ops(members@);
            }
            let mut i: usize = 0;
            while i < members.len()
                invariant
                    j@ == JsonValue::Object(ms),
                    ms == members_model(members@),
                    ms.len() == members@.len(),
                    forall|k: int| 0 <= k < members@.len() ==> #[trigger] ms[k] == (members@[k].key@, model_of(members@[k].value)),
                    i <= members.len(),
                    forall|k: int| 0 <= k < i ==> !provider_targeted(op, #[trigger] ms[k].1),
                decreases members.len() - i,
            {
                if provider_targeted_ref(op, &members[i].value) {
                    assert(provider_targeted(op, ms[i as int].1));
                    return true;
                }
                i = i + 1;
            }
            false
        },
        _ => false,
    }
}

fn section_targeted_ref(op: ModelEdit, s: &Json) -> (r: bool)
    ensures
        r == section_targeted(op, s@),
{
    match s {
        Json::Object(members) => {
            proof {
                lemma_members_model_ops(members@);
            }
            match find_key(members, "providers") {
                Some(i) => providers_targeted_ref(op, &members[i].value),
                None => false,
            }
        },
        _ => false,
    }
}

fn config_targeted_ref(op: ModelEdit, c: &Json) -> (r: bool)
    ensures
        r == config_targeted(op, c@),
{
    match c {
        Json::Object(members) => {
            proof {
                lemma_members_model_ops(members@);
            }
            match find_key(members, "models") {
                Some(i) => section_targeted_ref(op, &members[i].value),
                None => false,
            }
        },
        _ => false,
    }
}

// ---------------------------------------------------------------------------
// The operations of the panel on a configuration

/// Whether some model entry (an element of `models.providers.<name>.models`) holds
/// one of the fields `lastTestAt`, `latency`, `testStatus`, `testError`, which only
/// the panel's interface uses and which the command line refuses.
pub fn has_ui_fields(val: &Json) -> (r: bool)
    ensures
        r == config_targeted(ModelEdit::StripUiFields, val@),
{
    config_targeted_ref(ModelEdit::StripUiFields, val)
}

/// The configuration without the interface's fields in its model entries; a model
/// entry without `name` whose `id` is a string gets that string as its `name`.
/// Everything else is kept as it was.
pub fn strip_ui_fields(val: Json) -> (out: Json)
    ensures
        out@ == edit_config(ModelEdit::StripUiFields, val@),
{
    edit_config_exec(ModelEdit::StripUiFields, val).0
}

/// Declares `input: ["text", "image"]` on every model entry that is an object without
/// `input`, and says whether there was any such entry.
pub fn patch_model_vision(config: Json) -> (out: (Json, bool))
    ensures
        out.0@ == edit_config(ModelEdit::AddVisionInput, config@),
        out.1 == config_targeted(ModelEdit::AddVisionInput, config@),
{
    edit_config_exec(ModelEdit::AddVisionInput, config)
}

/// A configuration as the panel hands it out after loading it, and whether it is to be
/// written back: one that holds interface fields is cleaned and written back; any
/// other is handed out untouched.
pub open spec fn loaded_config(c: JsonValue) -> (JsonValue, bool) {
    if config_targeted(ModelEdit::StripUiFields, c) {
        (edit_config(ModelEdit::StripUiFields, c), true)
    } else {
        (c, false)
    }
}

/// The configuration as loaded (see `loaded_config`).
pub fn clean_loaded_config(config: Json) -> (out: (Json, bool))
    ensures
        (out.0@, out.1) == loaded_config(config@),
{
    if has_ui_fields(&config) {
        (strip_ui_fields(config), true)
    } else {
        (config, false)
    }
}

// ---------------------------------------------------------------------------
// Laws

proof fn lemma_filter_all<A>(s: Seq<A>, p: spec_fn(A) -> bool)
    requires
        forall|i: int| 0 <= i < s.len() ==> p(#[trigger] s[i]),
    ensures
        s.filter(p) == s,
    decreases s.len(),
{
    reveal(Seq::filter);
    if s.len() > 0 {
        assert forall|i: int| 0 <= i < s.drop_last().len() implies p(#[trigger] s.drop_last()[i]) by {
            assert(s.drop_last()[i] == s[i]);
        }
        lemma_filter_all(s.drop_last(), p);
        assert(s.drop_last().push(s.last()) =~= s);
    }
}

proof fn lemma_entry_settles(op: ModelEdit, e: JsonValue)
    ensures
        edit_entry(op, edit_entry(op, e)) == edit_entry(op, e),
        !entry_targeted(op, edit_entry(op, e)),
{
    if let JsonValue::Object(ms) = e {
        match op {
            ModelEdit::StripUiFields => {
                reveal_strlit("name");
                reveal_strlit("lastTestAt");
                reveal_strlit("latency");
                reveal_strlit("testStatus");
                reveal_strlit("testError");
                let kept = ms.filter(keep_entry());
                broadcast use vstd::seq_lib::group_filter_ensures;
                assert("name"@.len() == 4);
                assert("lastTestAt"@.len() == 10);
                assert("latency"@.len() == 7);
                assert("testStatus"@.len() == 10);
                assert("testError"@.len() == 9);
                assert(!is_ui_key("name"@));
                let e2 = edit_entry(op, e);
                let k2 = match e2 {
                    JsonValue::Object(k) => k,
                    _ => kept,
                };
                assert(forall|i: int| 0 <= i < kept.len() ==> keep_entry()(#[trigger] kept[i]));
                assert forall|i: int| 0 <= i < k2.len() implies keep_entry()(#[trigger] k2[i]) by {
                    if i < kept.len() {
                        assert(keep_entry()(kept[i]));
                    }
                }
                lemma_filter_all(k2, keep_entry());
                if k2.len() > kept.len() {
                    lemma_key_pos_push(kept, k2.last(), "name"@);
                    assert(k2 == kept.push(k2.last()));
                }
            },
            ModelEdit::AddVisionInput => {
                if key_pos(ms, "input"@) < 0 {
                    lemma_key_pos_push(ms, ("input"@, vision_input()), "input"@);
                }
            },
        }
    }
}

proof fn lemma_provider_settles(op: ModelEdit, p: JsonValue)
    ensures
        edit_provider(op, edit_provider(op, p)) == edit_provider(op, p),
        !provider_targeted(op, edit_provider(op, p)),
{
    if let Some(JsonValue::Array(items)) = field(p, "models"@) {
        let v = JsonValue::Array(edit_entries(op, items));
        lemma_with_field(p, "models"@, v);
        let p2 = with_field(p, "models"@, v);
        let v2 = JsonValue::Array(edit_entries(op, edit_entries(op, items)));
        assert forall|i: int| 0 <= i < items.len() implies #[trigger] edit_entries(op, edit_entries(op, items))[i]
            == edit_entries(op, items)[i] by {
            lemma_entry_settles(op, items[i]);
        }
        assert(edit_entries(op, edit_entries(op, items)) =~= edit_entries(op, items));
        lemma_with_field_twice(p, "models"@, v, v2);
        assert forall|i: int| 0 <= i < edit_entries(op, items).len() implies !entry_targeted(op, #[trigger] edit_entries(op, items)[i]) by {
            lemma_entry_settles(op, items[i]);
        }
    }
}

proof fn lemma_providers_settle(op: ModelEdit, j: JsonValue)
    ensures
        edit_providers(op, edit_providers(op, j)) == edit_providers(op, j),
        !providers_targeted(op, edit_providers(op, j)),
{
    if let JsonValue::Object(ms) = j {
        let once = edit_provider_entries(op, ms);
        assert forall|i: int| 0 <= i < ms.len() implies #[trigger] edit_provider_entries(op, once)[i] == once[i] by {
            lemma_provider_settles(op, ms[i].1);
        }
        assert(edit_provider_entries(op, once) =~= once);
        assert forall|i: int| 0 <= i < once.len() implies !provider_targeted(op, #[trigger] once[i].1) by {
            lemma_provider_settles(op, ms[i].1);
        }
    }
}

proof fn lemma_section_settles(op: ModelEdit, s: JsonValue)
    ensures
        edit_section(op, edit_section(op, s)) == edit_section(op, s),
        !section_targeted(op, edit_section(op, s)),
{
    lemma_with_field(s, "providers"@, JsonValue::Null);
    if let Some(p) = field(s, "providers"@) {
        let v = edit_providers(op, p);
        lemma_with_field(s, "providers"@, v);
        lemma_providers_settle(op, p);
        lemma_with_field_twice(s, "providers"@, v, edit_providers(op, v));
    }
}

/// Editing a configuration twice gives what editing it once gives, and after the
/// edit no model entry is concerned by it any more.
pub proof fn lemma_edit_config_settles(op: ModelEdit, c: JsonValue)
    ensures
        edit_config(op, edit_config(op, c)) == edit_config(op, c),
        !config_targeted(op, edit_config(op, c)),
{
    lemma_with_field(c, "models"@, JsonValue::Null);
    if let Some(s) = field(c, "models"@) {
        let v = edit_section(op, s);
        lemma_with_field(c, "models"@, v);
        lemma_section_settles(op, s);
        lemma_with_field_twice(c, "models"@, v, edit_section(op, v));
    }
}

proof fn lemma_filter_well_formed(ms: Seq<Entry>, p: spec_fn(Entry) -> bool)
    requires
        distinct_keys(ms),
        forall|i: int| 0 <= i < ms.len() ==> well_formed(#[trigger] ms[i].1),
    ensures
        distinct_keys(ms.filter(p)),
        forall|i: int| 0 <= i < ms.filter(p).len() ==> well_formed(#[trigger] ms.filter(p)[i].1),
    decreases ms.len(),
{
    reveal(Seq::filter);
    if ms.len() > 0 {
        let rest = ms.drop_last();
        assert forall|a: int, b: int| 0 <= a < b < rest.len() implies rest[a].0 != rest[b].0 by {
            assert(rest[a] == ms[a] && rest[b] == ms[b]);
        }
        assert forall|i: int| 0 <= i < rest.len() implies well_formed(#[trigger] rest[i].1) by {
            assert(rest[i] == ms[i]);
        }
        lemma_filter_well_formed(rest, p);
        let f = rest.filter(p);
        if p(ms.last()) {
            assert forall|i: int| 0 <= i < f.len() implies f[i].0 != ms.last().0 by {
                assert(f.contains(f[i]));
                rest.lemma_filter_contains_rev(p, f[i]);
                let j = choose|j: int| 0 <= j < rest.len() && rest[j] == f[i];
                assert(ms[j] == rest[j]);
            }
            let g = f.push(ms.last());
            assert forall|a: int, b: int| 0 <= a < b < g.len() implies g[a].0 != g[b].0 by {
                if b < f.len() {
                    assert(g[a] == f[a] && g[b] == f[b]);
                } else {
                    assert(g[a] == f[a]);
                }
            }
            assert forall|i: int| 0 <= i < g.len() implies well_formed(#[trigger] g[i].1) by {
                if i < f.len() {
                    assert(g[i] == f[i]);
                }
            }
        }
    }
}

proof fn lemma_push_absent_key(ms: Seq<Entry>, e: Entry)
    requires
        distinct_keys(ms),
        forall|i: int| 0 <= i < ms.len() ==> well_formed(#[trigger] ms[i].1),
        key_pos(ms, e.0) < 0,
        well_formed(e.1),
    ensures
        well_formed(JsonValue::Object(ms.push(e))),
{
    lemma_key_pos(ms, e.0);
    let g = ms.push(e);
    assert forall|a: int, b: int| 0 <= a < b < g.len() implies g[a].0 != g[b].0 by {
        assert(g[a] == ms[a]);
        if b < ms.len() {
            assert(g[b] == ms[b]);
        }
    }
    assert forall|i: int| 0 <= i < g.len() implies well_formed(#[trigger] g[i].1) by {
        if i < ms.len() {
            assert(g[i] == ms[i]);
        }
    }
}

proof fn lemma_entry_well_formed(op: ModelEdit, e: JsonValue)
    requires
        well_formed(e),
    ensures
        well_formed(edit_entry(op, e)),
{
    if let JsonValue::Object(ms) = e {
        match op {
            ModelEdit::StripUiFields => {
                let kept = ms.filter(keep_entry());
                lemma_filter_well_formed(ms, keep_entry());
                if key_pos(kept, "name"@) < 0 {
                    if let Some(JsonValue::Str(id)) = entry_value(kept, "id"@) {
                        lemma_push_absent_key(kept, ("name"@, JsonValue::Str(id)));
                    }
                }
            },
            ModelEdit::AddVisionInput => {
                if key_pos(ms, "input"@) < 0 {
                    let v = vision_input();
                    if let JsonValue::Array(xs) = v {
                        assert forall|i: int| 0 <= i < xs.len() implies well_formed(#[trigger] xs[i]) by {}
                    }
                    lemma_push_absent_key(ms, ("input"@, v));
                }
            },
        }
    }
}

proof fn lemma_provider_well_formed(op: ModelEdit, p: JsonValue)
    requires
        well_formed(p),
    ensures
        well_formed(edit_provider(op, p)),
{
    if let Some(JsonValue::Array(items)) = field(p, "models"@) {
        if let JsonValue::Object(ms) = p {
            lemma_key_pos(ms, "models"@);
            assert(well_formed(ms[key_pos(ms, "models"@)].1));
        }
        let edited = edit_entries(op, items);
        assert forall|i: int| 0 <= i < edited.len() implies well_formed(#[trigger] edited[i]) by {
            lemma_entry_well_formed(op, items[i]);
        }
        lemma_with_field_well_formed(p, "models"@, JsonValue::Array(edited));
    }
}

proof fn lemma_providers_well_formed(op: ModelEdit, j: JsonValue)
    requires
        well_formed(j),
    ensures
        well_formed(edit_providers(op, j)),
{
    if let JsonValue::Object(ms) = j {
        let ms2 = edit_provider_entries(op, ms);
        assert forall|i: int| 0 <= i < ms2.len() implies well_formed(#[trigger] ms2[i].1) by {
            lemma_provider_well_formed(op, ms[i].1);
        }
        assert forall|a: int, b: int| 0 <= a < b < ms2.len() implies ms2[a].0 != ms2[b].0 by {}
    }
}

proof fn lemma_section_well_formed(op: ModelEdit, s: JsonValue)
    requires
        well_formed(s),
    ensures
        well_formed(edit_section(op, s)),
{
    if let Some(p) = field(s, "providers"@) {
        if let JsonValue::Object(ms) = s {
            lemma_key_pos(ms, "providers"@);
            assert(well_formed(ms[key_pos(ms, "providers"@)].1));
        }
        lemma_providers_well_formed(op, p);
        lemma_with_field_well_formed(s, "providers"@, edit_providers(op, p));
    }
}

/// The edits keep every object's keys distinct: a document that `serde_json` read stays
/// one that it can write without losing an entry.
pub proof fn law_edits_keep_documents_well_formed(op: ModelEdit, c: JsonValue)
    requires
        well_formed(c),
    ensures
        well_formed(edit_config(op, c)),
        well_formed(loaded_config(c).0),
{
    if let Some(s) = field(c, "models"@) {
        if let JsonValue::Object(ms) = c {
            lemma_key_pos(ms, "models"@);
            assert(well_formed(ms[key_pos(ms, "models"@)].1));
        }
        lemma_section_well_formed(op, s);
        lemma_with_field_well_formed(c, "models"@, edit_section(op, s));
    }
    if let Some(s) = field(c, "models"@) {
        if let JsonValue::Object(ms) = c {
            lemma_key_pos(ms, "models"@);
            assert(well_formed(ms[key_pos(ms, "models"@)].1));
        }
        lemma_section_well_formed(ModelEdit::StripUiFields, s);
        lemma_with_field_well_formed(c, "models"@, edit_section(ModelEdit::StripUiFields, s));
    }
}

/// After `strip_ui_fields`, `has_ui_fields` is false.
pub proof fn law_stripped_config_has_no_ui_fields(c: JsonValue)
    ensures
        !config_targeted(ModelEdit::StripUiFields, edit_config(ModelEdit::StripUiFields, c)),
{
    lemma_edit_config_settles(ModelEdit::StripUiFields, c);
}

/// `strip_ui_fields` is idempotent.
pub proof fn law_strip_ui_fields_idempotent(c: JsonValue)
    ensures
        edit_config(ModelEdit::StripUiFields, edit_config(ModelEdit::StripUiFields, c))
            == edit_config(ModelEdit::StripUiFields, c),
{
    lemma_edit_config_settles(ModelEdit::StripUiFields, c);
}

/// Patching for vision twice changes nothing the second time: the second call reports
/// no change and returns the configuration it was given.
pub proof fn law_patch_model_vision_settles(c: JsonValue)
    ensures
        !config_targeted(ModelEdit::AddVisionInput, edit_config(ModelEdit::AddVisionInput, c)),
        edit_config(ModelEdit::AddVisionInput, edit_config(ModelEdit::AddVisionInput, c))
            == edit_config(ModelEdit::AddVisionInput, c),
{
    lemma_edit_config_settles(ModelEdit::AddVisionInput, c);
}

/// A configuration as loaded never holds interface fields, whatever the file held.
pub proof fn law_loaded_config_has_no_ui_fields(c: JsonValue)
    ensures
        !config_targeted(ModelEdit::StripUiFields, loaded_config(c).0),
{
    lemma_edit_config_settles(ModelEdit::StripUiFields, c);
}

/// Reading a configuration that the panel wrote gives back what was written
/// (`strip_ui_fields` of the configuration given), and nothing is written back.
pub proof fn law_read_after_write(c: JsonValue)
    ensures
        loaded_config(edit_config(ModelEdit::StripUiFields, c)) == (edit_config(ModelEdit::StripUiFields, c), false),
{
    lemma_edit_config_settles(ModelEdit::StripUiFields, c);
}


// ---------------------------------------------------------------------------
// Where the model entries of a configuration stand

/// The `models` array of a provider, or nothing where it has none.
pub open spec fn models_of(p: JsonValue) -> Seq<JsonValue> {
    match field(p, "models"@) {
        Some(JsonValue::Array(items)) => items,
        _ => seq![],
    }
}

/// The providers of a configuration: the entries of the object `models.providers`.
pub open spec fn provider_entries(c: JsonValue) -> Seq<Entry> {
    match field(c, "models"@) {
        Some(s) => match field(s, "providers"@) {
            Some(JsonValue::Object(ps)) => ps,
            _ => seq![],
        },
        None => seq![],
    }
}

/// The model entries of the provider at position `i` of a configuration.
pub open spec fn model_items(c: JsonValue, i: int) -> Seq<JsonValue> {
    let ps = provider_entries(c);
    if 0 <= i < ps.len() {
        models_of(ps[i].1)
    } else {
        seq![]
    }
}

proof fn lemma_edit_provider_models(op: ModelEdit, p: JsonValue)
    ensures
        models_of(edit_provider(op, p)) == edit_entries(op, models_of(p)),
        provider_targeted(op, p) == any_entry_targeted(op, models_of(p)),
{
    lemma_with_field(p, "models"@, JsonValue::Null);
    match field(p, "models"@) {
        Some(JsonValue::Array(items)) => {
            lemma_with_field(p, "models"@, JsonValue::Array(edit_entries(op, items)));
        },
        _ => {
            assert(edit_entries(op, seq![]) =~= seq![]);
        },
    }
}

/// How an edit of a configuration reaches its model entries: the providers stay
/// where they are, the model entries of each are edited one by one, and the edit
/// concerns the configuration where it concerns an entry of some provider.
proof fn lemma_edit_config_items(op: ModelEdit, c: JsonValue)
    ensures
        provider_entries(edit_config(op, c)).len() == provider_entries(c).len(),
        forall|i: int| #[trigger] model_items(edit_config(op, c), i) == edit_entries(op, model_items(c, i)),
        config_targeted(op, c) <==> exists|i: int|
            0 <= i < provider_entries(c).len() && any_entry_targeted(op, #[trigger] model_items(c, i)),
{
    let e = edit_config(op, c);
    assert(edit_entries(op, seq![]) =~= seq![]);
    lemma_with_field(c, "models"@, JsonValue::Null);
    if let Some(s) = field(c, "models"@) {
        let es = edit_section(op, s);
        lemma_with_field(c, "models"@, es);
        lemma_with_field(s, "providers"@, JsonValue::Null);
        if let Some(p) = field(s, "providers"@) {
            let ep = edit_providers(op, p);
            lemma_with_field(s, "providers"@, ep);
            if let JsonValue::Object(ps) = p {
                let pes = edit_provider_entries(op, ps);
                assert(provider_entries(e) == pes);
                assert forall|i: int| #[trigger] model_items(e, i) == edit_entries(op, model_items(c, i)) by {
                    if 0 <= i < ps.len() {
                        lemma_edit_provider_models(op, ps[i].1);
                    }
                }
                assert(config_targeted(op, c) == any_provider_targeted(op, ps));
                if any_provider_targeted(op, ps) {
                    let i = choose|i: int| 0 <= i < ps.len() && provider_targeted(op, #[trigger] ps[i].1);
                    lemma_edit_provider_models(op, ps[i].1);
                    assert(any_entry_targeted(op, model_items(c, i)));
                }
                if exists|i: int| 0 <= i < provider_entries(c).len() && any_entry_targeted(op, #[trigger] model_items(c, i)) {
                    let i = choose|i: int| 0 <= i < provider_entries(c).len() && any_entry_targeted(op, #[trigger] model_items(c, i));
                    lemma_edit_provider_models(op, ps[i].1);
                    assert(provider_targeted(op, ps[i].1));
                }
            } else {
                assert(provider_entries(e) == Seq::<Entry>::empty());
            }
        }
    }
}

/// Filtering entries with a test that keeps every entry keyed `k` keeps the value of `k`.
proof fn lemma_filter_keeps_value(ms: Seq<Entry>, p: spec_fn(Entry) -> bool, k: Seq<char>)
    requires
        forall|e: Entry| e.0 == k ==> #[trigger] p(e),
    ensures
        entry_value(ms.filter(p), k) == entry_value(ms, k),
    decreases ms.len(),
{
    reveal(Seq::filter);
    if ms.len() > 0 {
        let m = ms.drop_last();
        let x = ms.last();
        lemma_filter_keeps_value(m, p, k);
        let fm = m.filter(p);
        assert(ms.filter(p) == if p(x) { fm.push(x) } else { fm });
        lemma_key_pos(m, k);
        lemma_key_pos(fm, k);
        lemma_key_pos_push(fm, x, k);
        if key_pos(m, k) >= 0 {
            assert(ms[key_pos(m, k)] == m[key_pos(m, k)]);
        }
        if key_pos(fm, k) >= 0 && p(x) {
            assert(fm.push(x)[key_pos(fm, k)] == fm[key_pos(fm, k)]);
        }
    }
}


/// Whether `k` is one of the keys that only the panel's interface writes.
pub open spec fn interface_key(k: Seq<char>) -> bool {
    k == "lastTestAt"@ || k == "latency"@ || k == "testStatus"@ || k == "testError"@
}

/// `strip_ui_fields` names every unnamed model after its id: a model entry (an
/// object in the `models` array of any provider under `models.providers`) that has
/// no `name` and whose `id` is a string gets that string as its `name`, whether or not
/// it held interface fields. The providers and their model lists keep their length.
pub proof fn law_strip_names_unnamed_models(c: JsonValue, i: int, k: int, ms: Seq<Entry>, id: Seq<char>)
    requires
        0 <= k < model_items(c, i).len(),
        model_items(c, i)[k] == JsonValue::Object(ms),
        !has_key(ms, "name"@),
        entry_value(ms, "id"@) == Some(JsonValue::Str(id)),
    ensures
        provider_entries(edit_config(ModelEdit::StripUiFields, c)).len() == provider_entries(c).len(),
        model_items(edit_config(ModelEdit::StripUiFields, c), i).len() == model_items(c, i).len(),
        field(model_items(edit_config(ModelEdit::StripUiFields, c), i)[k], "name"@) == Some(
            JsonValue::Str(id),
        ),
{
    let op = ModelEdit::StripUiFields;
    lemma_edit_config_items(op, c);
    assert(model_items(edit_config(op, c), i) == edit_entries(op, model_items(c, i)));
    reveal_strlit("name");
    reveal_strlit("id");
    reveal_strlit("lastTestAt");
    reveal_strlit("latency");
    reveal_strlit("testStatus");
    reveal_strlit("testError");
    let kept = ms.filter(keep_entry());
    assert forall|e: Entry| e.0 == "id"@ implies #[trigger] keep_entry()(e) by {
        assert(e.0.len() == 2);
    }
    lemma_filter_keeps_value(ms, keep_entry(), "id"@);
    broadcast use vstd::seq_lib::group_filter_ensures;
    lemma_key_pos(ms, "name"@);
    lemma_key_pos(kept, "name"@);
    if key_pos(kept, "name"@) >= 0 {
        let q = key_pos(kept, "name"@);
        assert(kept.contains(kept[q]));
        ms.lemma_filter_contains_rev(keep_entry(), kept[q]);
        let j = choose|j: int| 0 <= j < ms.len() && ms[j] == kept[q];
        assert(ms[j].0 == "name"@);
    }
    lemma_key_pos_push(kept, ("name"@, JsonValue::Str(id)), "name"@);
}

/// `strip_ui_fields` takes exactly the interface fields out of a model entry: what
/// comes back holds no interface field, and it begins with the other entries of the
/// model, in their order; at most a `name` follows them.
pub proof fn law_strip_keeps_other_fields(c: JsonValue, i: int, k: int, ms: Seq<Entry>)
    requires
        0 <= k < model_items(c, i).len(),
        model_items(c, i)[k] == JsonValue::Object(ms),
    ensures
        ({
            let kept = ms.filter(|e: Entry| !interface_key(e.0));
            let r = model_items(edit_config(ModelEdit::StripUiFields, c), i)[k];
            &&& r is Object
            &&& forall|j: int| 0 <= j < r->Object_0.len() ==> !interface_key(#[trigger] r->Object_0[j].0)
            &&& r->Object_0.take(kept.len() as int) == kept
            &&& kept.len() <= r->Object_0.len() <= kept.len() + 1
            &&& r->Object_0.len() == kept.len() + 1 ==> r->Object_0.last().0 == "name"@
        }),
{
    let op = ModelEdit::StripUiFields;
    lemma_edit_config_items(op, c);
    assert(model_items(edit_config(op, c), i) == edit_entries(op, model_items(c, i)));
    reveal_strlit("name");
    reveal_strlit("lastTestAt");
    reveal_strlit("latency");
    reveal_strlit("testStatus");
    reveal_strlit("testError");
    assert(keep_entry() =~= (|e: Entry| !interface_key(e.0)));
    let kept = ms.filter(keep_entry());
    broadcast use vstd::seq_lib::group_filter_ensures;
    let r = edit_entry(op, JsonValue::Object(ms));
    let rs = r->Object_0;
    assert(rs.take(kept.len() as int) =~= kept);
    assert("name"@.len() == 4);
    assert forall|j: int| 0 <= j < rs.len() implies !interface_key(#[trigger] rs[j].0) by {
        if j < kept.len() {
            assert(keep_entry()(kept[j]));
        }
    }
}

/// `has_ui_fields` looks at every model entry of every provider: it holds exactly when
/// some model entry, under any provider, has one of the interface keys. Loading a
/// configuration cleans it and writes it back exactly then.
pub proof fn law_ui_fields_found_in_any_provider(c: JsonValue)
    ensures
        config_targeted(ModelEdit::StripUiFields, c) <==> exists|i: int, k: int, j: int|
            0 <= i < provider_entries(c).len() && 0 <= k < #[trigger] model_items(c, i).len()
                && model_items(c, i)[k] is Object && 0 <= j < model_items(c, i)[k]->Object_0.len()
                && interface_key(#[trigger] model_items(c, i)[k]->Object_0[j].0),
        loaded_config(c).1 == config_targeted(ModelEdit::StripUiFields, c),
{
    let op = ModelEdit::StripUiFields;
    lemma_edit_config_items(op, c);
    if config_targeted(op, c) {
        let i = choose|i: int| 0 <= i < provider_entries(c).len() && any_entry_targeted(op, #[trigger] model_items(c, i));
        let items = model_items(c, i);
        let k = choose|k: int| 0 <= k < items.len() && entry_targeted(op, #[trigger] items[k]);
        let ms = items[k]->Object_0;
        let j = choose|j: int| 0 <= j < ms.len() && is_ui_key(#[trigger] ms[j].0);
        assert(interface_key(model_items(c, i)[k]->Object_0[j].0));
    }
    if exists|i: int, k: int, j: int|
            0 <= i < provider_entries(c).len() && 0 <= k < #[trigger] model_items(c, i).len()
                && model_items(c, i)[k] is Object && 0 <= j < model_items(c, i)[k]->Object_0.len()
                && interface_key(#[trigger] model_items(c, i)[k]->Object_0[j].0) {
        let (i, k, j) = choose|i: int, k: int, j: int|
            0 <= i < provider_entries(c).len() && 0 <= k < #[trigger] model_items(c, i).len()
                && model_items(c, i)[k] is Object && 0 <= j < model_items(c, i)[k]->Object_0.len()
                && interface_key(#[trigger] model_items(c, i)[k]->Object_0[j].0);
        let items = model_items(c, i);
        let ms = items[k]->Object_0;
        assert(is_ui_key(ms[j].0));
        assert(entry_targeted(op, items[k]));
        assert(any_entry_targeted(op, model_items(c, i)));
    }
}

/// `patch_model_vision` declares `input: ["text", "image"]` on every model entry that
/// declares no input, whatever else it holds (a `name` among it), and leaves an entry
/// that declares one as it was.
pub proof fn law_vision_input_on_every_model(c: JsonValue, i: int, k: int, ms: Seq<Entry>)
    requires
        0 <= k < model_items(c, i).len(),
        model_items(c, i)[k] == JsonValue::Object(ms),
    ensures
        model_items(edit_config(ModelEdit::AddVisionInput, c), i).len() == model_items(c, i).len(),
        !has_key(ms, "input"@) ==> model_items(edit_config(ModelEdit::AddVisionInput, c), i)[k]
            == JsonValue::Object(
            ms.push(("input"@, JsonValue::Array(seq![JsonValue::Str("text"@), JsonValue::Str("image"@)]))),
        ),
        has_key(ms, "input"@) ==> model_items(edit_config(ModelEdit::AddVisionInput, c), i)[k]
            == JsonValue::Object(ms),
{
    let op = ModelEdit::AddVisionInput;
    lemma_edit_config_items(op, c);
    assert(model_items(edit_config(op, c), i) == edit_entries(op, model_items(c, i)));
    lemma_key_pos(ms, "input"@);
}

/// `patch_model_vision` reports a change exactly when some model entry, under any
/// provider, is an object that declares no input.
pub proof fn law_vision_change_reported(c: JsonValue)
    ensures
        config_targeted(ModelEdit::AddVisionInput, c) <==> exists|i: int, k: int|
            0 <= i < provider_entries(c).len() && 0 <= k < model_items(c, i).len()
                && #[trigger] model_items(c, i)[k] is Object && !has_key(model_items(c, i)[k]->Object_0, "input"@),
{
    let op = ModelEdit::AddVisionInput;
    lemma_edit_config_items(op, c);
    if config_targeted(op, c) {
        let i = choose|i: int| 0 <= i < provider_entries(c).len() && any_entry_targeted(op, #[trigger] model_items(c, i));
        let items = model_items(c, i);
        let k = choose|k: int| 0 <= k < items.len() && entry_targeted(op, #[trigger] items[k]);
        lemma_key_pos(items[k]->Object_0, "input"@);
    }
    if exists|i: int, k: int|
            0 <= i < provider_entries(c).len() && 0 <= k < model_items(c, i).len()
                && #[trigger] model_items(c, i)[k] is Object && !has_key(model_items(c, i)[k]->Object_0, "input"@) {
        let (i, k) = choose|i: int, k: int|
            0 <= i < provider_entries(c).len() && 0 <= k < model_items(c, i).len()
                && #[trigger] model_items(c, i)[k] is Object && !has_key(model_items(c, i)[k]->Object_0, "input"@);
        let items = model_items(c, i);
        lemma_key_pos(items[k]->Object_0, "input"@);
        assert(entry_targeted(op, items[k]));
        assert(any_entry_targeted(op, model_items(c, i)));
    }
}

} // verus!

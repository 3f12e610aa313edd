use vstd::prelude::*;

use crate::text::same_text;

verus! {

/// A JSON document, as the configuration files of the panel hold it.
/// Numbers are kept as the text that denotes them.
#[derive(Debug, PartialEq, Eq)]
pub enum Json {
    Null,
    Bool(bool),
    Number(String),
    Str(String),
    Array(Vec<Json>),
    Object(Vec<Member>),
}

/// One `"key": value` entry of a JSON object.
#[derive(Debug, PartialEq, Eq)]
pub struct Member {
    pub key: String,
    pub value: Json,
}

/// One entry of an object in the model: its key and its value.
pub type Entry = (Seq<char>, JsonValue);

/// The mathematical value of a JSON document. An object is the sequence of its
/// entries; a lookup by key finds the first entry with that key.
pub enum JsonValue {
    Null,
    Bool(bool),
    Number(Seq<char>),
    Str(Seq<char>),
    Array(Seq<JsonValue>),
    Object(Seq<(Seq<char>, JsonValue)>),
}

pub open spec fn model_of(j: Json) -> JsonValue
    decreases j,
{
    match j {
        Json::Null => JsonValue::Null,
        Json::Bool(b) => JsonValue::Bool(b),
        Json::Number(n) => JsonValue::Number(n@),
        Json::Str(s) => JsonValue::Str(s@),
        Json::Array(items) => JsonValue::Array(items_model(items@)),
        Json::Object(members) => JsonValue::Object(members_model(members@)),
    }
}

/// The models of a sequence of documents.
pub open spec fn items_model(s: Seq<Json>) -> Seq<JsonValue>
    decreases s,
{
    Seq::new(
        s.len(),
        |i: int|
            if 0 <= i < s.len() {
                model_of(s[i])
            } else {
                JsonValue::Null
            },
    )
}

/// The models of a sequence of object members.
pub open spec fn members_model(s: Seq<Member>) -> Seq<Entry>
    decreases s,
{
    Seq::new(
        s.len(),
        |i: int|
            if 0 <= i < s.len() {
                (s[i].key@, model_of(s[i].value))
            } else {
                (Seq::empty(), JsonValue::Null)
            },
    )
}

impl View for Json {
    type V = JsonValue;

    open spec fn view(&self) -> JsonValue {
        model_of(*self)
    }
}

/// The position of the first entry with key `k`, or -1 where there is none.
pub open spec fn key_pos(ms: Seq<Entry>, k: Seq<char>) -> int
    decreases ms.len(),
{
    if ms.len() == 0 {
        -1
    } else {
        let p = key_pos(ms.drop_last(), k);
        if p >= 0 {
            p
        } else if ms.last().0 == k {
            ms.len() - 1
        } else {
            -1
        }
    }
}

/// Whether some entry has key `k`.
pub open spec fn has_key(ms: Seq<Entry>, k: Seq<char>) -> bool {
    exists|i: int| 0 <= i < ms.len() && ms[i].0 == k
}

/// The value under key `k` in the entries `ms` (the first such entry).
pub open spec fn entry_value(ms: Seq<Entry>, k: Seq<char>) -> Option<JsonValue> {
    let p = key_pos(ms, k);
    if p >= 0 {
        Some(ms[p].1)
    } else {
        None
    }
}

/// The value under key `k`, where `j` is an object that has one.
pub open spec fn field(j: JsonValue, k: Seq<char>) -> Option<JsonValue> {
    match j {
        JsonValue::Object(ms) => entry_value(ms, k),
        _ => None,
    }
}

/// `j` with the value under key `k` replaced by `v`, where `j` is an object that has
/// such a key; `j` itself otherwise.
pub open spec fn with_field(j: JsonValue, k: Seq<char>, v: JsonValue) -> JsonValue {
    match j {
        JsonValue::Object(ms) => {
            let p = key_pos(ms, k);
            if p >= 0 {
                JsonValue::Object(ms.update(p, (k, v)))
            } else {
                j
            }
        },
        _ => j,
    }
}

/// `key_pos` finds the first entry with the key, and -1 means that there is none.
pub proof fn lemma_key_pos(ms: Seq<Entry>, k: Seq<char>)
    ensures
        -1 <= key_pos(ms, k) < ms.len(),
        key_pos(ms, k) >= 0 ==> ms[key_pos(ms, k)].0 == k,
        forall|j: int| 0 <= j < key_pos(ms, k) ==> ms[j].0 != k,
        key_pos(ms, k) == -1 ==> forall|j: int| 0 <= j < ms.len() ==> ms[j].0 != k,
        has_key(ms, k) <==> key_pos(ms, k) >= 0,
    decreases ms.len(),
{
    if ms.len() > 0 {
        lemma_key_pos(ms.drop_last(), k);
        let p = key_pos(ms.drop_last(), k);
        assert forall|j: int| 0 <= j < key_pos(ms, k) implies ms[j].0 != k by {
            if p < 0 {
                assert(ms.drop_last()[j] == ms[j]);
            } else {
                assert(ms.drop_last()[j] == ms[j]);
            }
        }
        if key_pos(ms, k) == -1 {
            assert forall|j: int| 0 <= j < ms.len() implies ms[j].0 != k by {
                if j < ms.len() - 1 {
                    assert(ms.drop_last()[j] == ms[j]);
                }
            }
        }
        if key_pos(ms, k) >= 0 {
            if p >= 0 {
                assert(ms.drop_last()[p] == ms[p]);
            }
        }
    }
}

/// The position that `key_pos` gives depends on the keys alone.
pub proof fn lemma_key_pos_same_keys(a: Seq<Entry>, b: Seq<Entry>, k: Seq<char>)
    requires
        a.len() == b.len(),
        forall|i: int| 0 <= i < a.len() ==> a[i].0 == b[i].0,
    ensures
        key_pos(a, k) == key_pos(b, k),
{
    lemma_key_pos(a, k);
    lemma_key_pos(b, k);
    let pa = key_pos(a, k);
    let pb = key_pos(b, k);
    if pa >= 0 && pb >= 0 {
        if pa < pb {
            assert(b[pa].0 != k);
        } else if pb < pa {
            assert(a[pb].0 != k);
        }
    } else if pa >= 0 {
        assert(b[pa].0 != k);
    } else if pb >= 0 {
        assert(a[pb].0 != k);
    }
}

/// Appending an entry keeps the position of a key that is already there.
pub proof fn lemma_key_pos_push(ms: Seq<Entry>, e: Entry, k: Seq<char>)
    ensures
        key_pos(ms, k) >= 0 ==> key_pos(ms.push(e), k) == key_pos(ms, k),
        key_pos(ms, k) < 0 && e.0 == k ==> key_pos(ms.push(e), k) == ms.len(),
        key_pos(ms, k) < 0 && e.0 != k ==> key_pos(ms.push(e), k) == -1,
{
    assert(ms.push(e).drop_last() =~= ms);
}

/// Replacing the value of an entry keeps every key where it was.
pub proof fn lemma_with_field(j: JsonValue, k: Seq<char>, v: JsonValue)
    ensures
        field(j, k) is Some ==> field(with_field(j, k, v), k) == Some(v),
        field(j, k) is None ==> with_field(j, k, v) == j,
        forall|k2: Seq<char>| k2 != k ==> #[trigger] field(with_field(j, k, v), k2) == field(j, k2),
{
    if let JsonValue::Object(ms) = j {
        let p = key_pos(ms, k);
        lemma_key_pos(ms, k);
        if p >= 0 {
            let ms2 = ms.update(p, (k, v));
            lemma_key_pos_same_keys(ms, ms2, k);
            assert forall|k2: Seq<char>| k2 != k implies #[trigger] field(with_field(j, k, v), k2)
                == field(j, k2) by {
                lemma_key_pos_same_keys(ms, ms2, k2);
                lemma_key_pos(ms, k2);
            }
        }
    }
}

/// Setting the same key twice keeps the last value only.
pub proof fn lemma_with_field_twice(j: JsonValue, k: Seq<char>, v: JsonValue, w: JsonValue)
    ensures
        with_field(with_field(j, k, v), k, w) == with_field(j, k, w),
{
    if let JsonValue::Object(ms) = j {
        let p = key_pos(ms, k);
        if p >= 0 {
            lemma_key_pos(ms, k);
            let ms2 = ms.update(p, (k, v));
            lemma_key_pos_same_keys(ms, ms2, k);
            assert(ms2.update(p, (k, w)) =~= ms.update(p, (k, w)));
        }
    }
}

/// How the model of a member sequence follows the sequence operations.
pub proof fn lemma_members_model_ops(s: Seq<Member>)
    ensures
        members_model(s).len() == s.len(),
        forall|i: int| 0 <= i < s.len() ==> #[trigger] members_model(s)[i] == (s[i].key@, model_of(s[i].value)),
        forall|m: Member| #[trigger] members_model(s.push(m)) == members_model(s).push((m.key@, model_of(m.value))),
        forall|i: int, m: Member| 0 <= i < s.len() ==> #[trigger] members_model(s.update(i, m))
            == members_model(s).update(i, (m.key@, model_of(m.value))),
        forall|n: int| 0 <= n <= s.len() ==> #[trigger] members_model(s.take(n)) == members_model(s).take(n),
{
    assert forall|m: Member| #[trigger] members_model(s.push(m)) == members_model(s).push((m.key@, model_of(m.value))) by {
        assert(members_model(s.push(m)) =~= members_model(s).push((m.key@, model_of(m.value))));
    }
    assert forall|i: int, m: Member| 0 <= i < s.len() implies #[trigger] members_model(s.update(i, m))
        == members_model(s).update(i, (m.key@, model_of(m.value))) by {
        assert(members_model(s.update(i, m)) =~= members_model(s).update(i, (m.key@, model_of(m.value))));
    }
    assert forall|n: int| 0 <= n <= s.len() implies #[trigger] members_model(s.take(n)) == members_model(s).take(n) by {
        assert(members_model(s.take(n)) =~= members_model(s).take(n));
    }
}

/// How the model of a document sequence follows the sequence operations.
pub proof fn lemma_items_model_ops(s: Seq<Json>)
    ensures
        items_model(s).len() == s.len(),
        forall|i: int| 0 <= i < s.len() ==> #[trigger] items_model(s)[i] == model_of(s[i]),
        forall|x: Json| #[trigger] items_model(s.push(x)) == items_model(s).push(model_of(x)),
        forall|n: int| 0 <= n <= s.len() ==> #[trigger] items_model(s.take(n)) == items_model(s).take(n),
{
    assert forall|x: Json| #[trigger] items_model(s.push(x)) == items_model(s).push(model_of(x)) by {
        assert(items_model(s.push(x)) =~= items_model(s).push(model_of(x)));
    }
    assert forall|n: int| 0 <= n <= s.len() implies #[trigger] items_model(s.take(n)) == items_model(s).take(n) by {
        assert(items_model(s.take(n)) =~= items_model(s).take(n));
    }
}

/// The position of the first member with key `key`.
pub fn find_key(members: &Vec<Member>, key: &str) -> (r: Option<usize>)
    ensures
        match r {
            Some(i) => i == key_pos(members_model(members@), key@) && i < members@.len(),
            None => key_pos(members_model(members@), key@) == -1,
        },
{
    let ghost ms = members_model(members@);
    proof {
        lemma_members_model_ops(members@);
        lemma_key_pos(ms, key@);
    }
    let mut i: usize = 0;
    while i < members.len()
        invariant
            ms == members_model(members@),
            ms.len() == members@.len(),
            i <= members.len(),
            forall|j: int| 0 <= j < i ==> ms[j].0 != key@,
            forall|j: int| 0 <= j < members@.len() ==> #[trigger] ms[j] == (members@[j].key@, model_of(members@[j].value)),
            -1 <= key_pos(ms, key@) < ms.len(),
            key_pos(ms, key@) >= 0 ==> ms[key_pos(ms, key@)].0 == key@,
            forall|j: int| 0 <= j < key_pos(ms, key@) ==> ms[j].0 != key@,
            key_pos(ms, key@) == -1 ==> forall|j: int| 0 <= j < ms.len() ==> ms[j].0 != key@,
        decreases members.len() - i,
    {
        if same_text(members[i].key.as_str(), key) {
            assert(ms[i as int].0 == key@);
            return Some(i);
        }
        assert(ms[i as int].0 != key@);
        i = i + 1;
    }
    None
}

/// The element at position `i`, where `j` is an array that long.
pub open spec fn item(j: JsonValue, i: int) -> Option<JsonValue> {
    match j {
        JsonValue::Array(xs) => if 0 <= i < xs.len() {
            Some(xs[i])
        } else {
            None
        },
        _ => None,
    }
}

/// The text of `j`, where it is a string.
pub open spec fn text_of(j: Option<JsonValue>) -> Option<Seq<char>> {
    match j {
        Some(JsonValue::Str(s)) => Some(s),
        _ => None,
    }
}

/// The value under `key` (`Value::get` with a key).
pub fn get_field<'a>(j: &'a Json, key: &str) -> (r: Option<&'a Json>)
    ensures
        match r {
            Some(v) => field(j@, key@) == Some(v@),
            None => field(j@, key@) is None,
        },
{
    match j {
        Json::Object(members) => {
            proof {
                lemma_members_model_ops(members@);
            }
            match find_key(members, key) {
                Some(i) => Some(&members[i].value),
                None => None,
            }
        },
        _ => None,
    }
}

/// The element at position `i` (`Value::get` with an index).
pub fn get_item<'a>(j: &'a Json, i: usize) -> (r: Option<&'a Json>)
    ensures
        match r {
            Some(v) => item(j@, i as int) == Some(v@),
            None => item(j@, i as int) is None,
        },
{
    match j {
        Json::Array(items) => {
            proof {
                lemma_items_model_ops(items@);
            }
            if i < items.len() {
                Some(&items[i])
            } else {
                None
            }
        },
        _ => None,
    }
}

/// The text of a string value (`Value::as_str`).
pub fn as_text(j: Option<&Json>) -> (r: Option<&String>)
    ensures
        match r {
            Some(s) => text_of(
                match j {
                    Some(v) => Some(v@),
                    None => None,
                },
            ) == Some(s@),
            None => text_of(
                match j {
                    Some(v) => Some(v@),
                    None => None,
                },
            ) is None,
        },
{
    match j {
        Some(Json::Str(s)) => Some(s),
        _ => None,
    }
}

/// The model of an optional document.
pub open spec fn opt_model(j: Option<Json>) -> Option<JsonValue> {
    match j {
        Some(v) => Some(v@),
        None => None,
    }
}

/// A string value.
pub fn text_value(s: &str) -> (j: Json)
    ensures
        j@ == JsonValue::Str(s@),
{
    Json::Str(String::from_str(s))
}

/// An object made of the given members, in order.
pub fn object_of(members: Vec<Member>) -> (j: Json)
    ensures
        j@ == JsonValue::Object(members_model(members@)),
{
    Json::Object(members)
}

/// A member with a literal key.
pub fn member(key: &str, value: Json) -> (m: Member)
    ensures
        m.key@ == key@,
        m.value == value,
{
    Member { key: String::from_str(key), value }
}

} // verus!

verus! {

/// No two entries have the same key.
pub open spec fn distinct_keys(ms: Seq<Entry>) -> bool {
    forall|i: int, j: int| 0 <= i < j < ms.len() ==> ms[i].0 != ms[j].0
}

/// Every object of the document, at any depth, has distinct keys: the documents
/// that `serde_json` reads.
pub open spec fn well_formed(j: JsonValue) -> bool
    decreases j,
{
    match j {
        JsonValue::Array(xs) => forall|i: int| 0 <= i < xs.len() ==> well_formed(#[trigger] xs[i]),
        JsonValue::Object(ms) => distinct_keys(ms) && forall|i: int| 0 <= i < ms.len() ==> well_formed(#[trigger] ms[i].1),
        _ => true,
    }
}

} // verus!

verus! {

/// Replacing a value keeps a document well formed.
pub proof fn lemma_with_field_well_formed(j: JsonValue, k: Seq<char>, v: JsonValue)
    requires
        well_formed(j),
        well_formed(v),
    ensures
        well_formed(with_field(j, k, v)),
{
    if let JsonValue::Object(ms) = j {
        let p = key_pos(ms, k);
        if p >= 0 {
            lemma_key_pos(ms, k);
            let ms2 = ms.update(p, (k, v));
            assert forall|i: int| 0 <= i < ms2.len() implies well_formed(#[trigger] ms2[i].1) by {
                if i != p {
                    assert(ms2[i] == ms[i]);
                }
            }
            assert forall|a: int, b: int| 0 <= a < b < ms2.len() implies ms2[a].0 != ms2[b].0 by {
                assert(ms2[a].0 == ms[a].0);
                assert(ms2[b].0 == ms[b].0);
            }
        }
    }
}

} // verus!

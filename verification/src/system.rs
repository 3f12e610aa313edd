use vstd::prelude::*;

use crate::backup::{made_at, newest_first, sort_backups, BackupEntry};
use crate::json::{lemma_items_model_ops, lemma_members_model_ops, member, members_model, Json, JsonValue, Member};
use crate::text::{
    chars_of, concat, decimal, decimal_text, decode_output, is_digit, lossy_utf8, trim,
    trim_text,
};
use crate::version::run_value;

verus! {

// ---------------------------------------------------------------------------
// Reports

/// Whether the panel's configuration exists, and the panel's directory.
pub fn installation_report(installed: bool, dir: &str) -> (j: Json)
    ensures
        j@ == JsonValue::Object(seq![("installed"@, JsonValue::Bool(installed)), ("path"@, JsonValue::Str(dir@))]),
{
    let mut ms: Vec<Member> = Vec::new();
    ms.push(member("installed", Json::Bool(installed)));
    ms.push(member("path", Json::Str(String::from_str(dir))));
    proof {
        lemma_members_model_ops(ms@);
        assert(members_model(ms@) =~= seq![("installed"@, JsonValue::Bool(installed)), ("path"@, JsonValue::Str(dir@))]);
    }
    Json::Object(ms)
}

/// What `node --version` shows: its output without surrounding whitespace where it
/// succeeded (`output` holds what it printed), or that Node.js is missing.
pub open spec fn node_report_value(output: Option<Seq<u8>>) -> JsonValue {
    match output {
        Some(bytes) => JsonValue::Object(
            seq![("installed"@, JsonValue::Bool(true)), ("version"@, JsonValue::Str(trim(lossy_utf8(bytes))))],
        ),
        None => JsonValue::Object(seq![("installed"@, JsonValue::Bool(false)), ("version"@, JsonValue::Null)]),
    }
}

/// The report of `node --version` from the text it printed, where it succeeded.
pub fn node_report_from_text(output: Option<&str>) -> (j: Json)
    ensures
        j@ == match output {
            Some(t) => JsonValue::Object(
                seq![("installed"@, JsonValue::Bool(true)), ("version"@, JsonValue::Str(trim(t@)))],
            ),
            None => JsonValue::Object(seq![("installed"@, JsonValue::Bool(false)), ("version"@, JsonValue::Null)]),
        },
{
    let mut ms: Vec<Member> = Vec::new();
    match output {
        Some(text) => {
            let v = trim_text(text);
            ms.push(member("installed", Json::Bool(true)));
            ms.push(member("version", Json::Str(v)));
            proof {
                lemma_members_model_ops(ms@);
                assert(members_model(ms@) =~= seq![("installed"@, JsonValue::Bool(true)), ("version"@, JsonValue::Str(v@))]);
            }
        },
        None => {
            ms.push(member("installed", Json::Bool(false)));
            ms.push(member("version", Json::Null));
            proof {
                lemma_members_model_ops(ms@);
                assert(members_model(ms@) =~= seq![("installed"@, JsonValue::Bool(false)), ("version"@, JsonValue::Null)]);
            }
        },
    }
    Json::Object(ms)
}

/// The report of `node --version` from the bytes it printed, where it succeeded.
pub fn node_report(output: Option<&[u8]>) -> (j: Json)
    ensures
        j@ == node_report_value(
            match output {
                Some(b) => Some(b@),
                None => None,
            },
        ),
{
    match output {
        Some(bytes) => {
            let text = decode_output(bytes);
            node_report_from_text(Some(text.as_str()))
        },
        None => node_report_from_text(None),
    }
}

/// A count as a JSON number.
pub fn count_value(n: u64) -> (j: Json)
    ensures
        j@ == JsonValue::Number(decimal(n as nat)),
{
    Json::Number(decimal_text(n))
}

/// The report of a backup just made.
pub fn backup_report(name: String, size: u64) -> (j: Json)
    ensures
        j@ == JsonValue::Object(seq![("name"@, JsonValue::Str(name@)), ("size"@, JsonValue::Number(decimal(size as nat)))]),
{
    let ghost n = name@;
    let mut ms: Vec<Member> = Vec::new();
    ms.push(member("name", Json::Str(name)));
    ms.push(member("size", count_value(size)));
    proof {
        lemma_members_model_ops(ms@);
        assert(members_model(ms@) =~= seq![("name"@, JsonValue::Str(n)), ("size"@, JsonValue::Number(decimal(size as nat)))]);
    }
    Json::Object(ms)
}

/// One backup as the listing shows it.
pub open spec fn backup_value(e: BackupEntry) -> JsonValue {
    JsonValue::Object(
        seq![
            ("created_at"@, JsonValue::Number(decimal(e.created_at as nat))),
            ("name"@, JsonValue::Str(e.name@)),
            ("size"@, JsonValue::Number(decimal(e.size as nat))),
        ],
    )
}

/// The listing of backups: newest first, those made at the same time in the order they
/// came, each as its name, size and time.
pub fn backup_listing(entries: Vec<BackupEntry>) -> (j: Json)
    ensures
        exists|s: Seq<BackupEntry>|
            {
                &&& s.len() == entries@.len()
                &&& newest_first(s)
                &&& forall|t: u64| #[trigger] s.filter(made_at(t)) == entries@.filter(made_at(t))
                &&& j@ == JsonValue::Array(Seq::new(s.len(), |i: int| backup_value(s[i])))
            },
{
    let sorted = sort_backups(entries);
    let ghost s = sorted@;
    let mut items: Vec<Json> = Vec::new();
    for e in it: sorted.into_iter()
        invariant
            it.seq() == s,
            crate::json::items_model(items@).len() == it.index(),
            forall|k: int| 0 <= k < it.index() ==> #[trigger] crate::json::items_model(items@)[k] == backup_value(s[k]),
    {
        let ghost before = items@;
        let ghost e0 = e;
        let mut ms: Vec<Member> = Vec::new();
        ms.push(member("created_at", count_value(e.created_at)));
        ms.push(member("name", Json::Str(e.name)));
        ms.push(member("size", count_value(e.size)));
        proof {
            lemma_members_model_ops(ms@);
            assert(members_model(ms@) =~= seq![
                ("created_at"@, JsonValue::Number(decimal(e0.created_at as nat))),
                ("name"@, JsonValue::Str(e0.name@)),
                ("size"@, JsonValue::Number(decimal(e0.size as nat))),
            ]);
        }
        items.push(Json::Object(ms));
        proof {
            lemma_items_model_ops(before);
        }
    }
    proof {
        lemma_items_model_ops(items@);
        assert(crate::json::items_model(items@) =~= Seq::new(s.len(), |i: int| backup_value(s[i])));
    }
    Json::Array(items)
}

// ---------------------------------------------------------------------------
// The user id

/// Why a text is not a `u32`, as the standard library's parser tells.
#[derive(Debug, PartialEq, Eq, Structural)]
pub enum IntErrorKind {
    Empty,
    InvalidDigit,
    PosOverflow,
}

/// The first failure when the digits `d` are read from the left: a character that is
/// not a digit, or a value that outgrows `u32`, checked in that order at each place.
pub open spec fn digits_failure(d: Seq<char>) -> Option<IntErrorKind>
    decreases d.len(),
{
    if d.len() == 0 {
        None
    } else {
        match digits_failure(d.drop_last()) {
            Some(k) => Some(k),
            None => if !is_digit(d.last()) {
                Some(IntErrorKind::InvalidDigit)
            } else if run_value(d) > u32::MAX {
                Some(IntErrorKind::PosOverflow)
            } else {
                None
            },
        }
    }
}

/// `s.parse::<u32>()`: an optional `+`, then decimal digits.
pub open spec fn parse_u32_spec(s: Seq<char>) -> Result<u32, IntErrorKind> {
    if s.len() == 0 {
        Err(IntErrorKind::Empty)
    } else {
        let d = if s[0] == '+' {
            s.drop_first()
        } else {
            s
        };
        if d.len() == 0 {
            Err(IntErrorKind::InvalidDigit)
        } else {
            match digits_failure(d) {
                Some(k) => Err(k),
                None => Ok(run_value(d) as u32),
            }
        }
    }
}

/// Parses a decimal `u32` as `str::parse::<u32>` does.
pub fn parse_u32(s: &str) -> (r: Result<u32, IntErrorKind>)
    ensures
        r == parse_u32_spec(s@),
{
    let cs = chars_of(s);
    if cs.len() == 0 {
        return Err(IntErrorKind::Empty);
    }
    let start: usize = if cs[0] == '+' {
        1
    } else {
        0
    };
    let ghost d = if s@[0] == '+' {
        s@.drop_first()
    } else {
        s@
    };
    proof {
        assert(d =~= cs@.skip(start as int));
    }
    if start == cs.len() {
        return Err(IntErrorKind::InvalidDigit);
    }
    let mut value: u32 = 0;
    let mut i = start;
    while i < cs.len()
        invariant
            start <= i <= cs.len(),
            cs@ == s@,
            s@.len() > 0,
            d.len() > 0,
            d == (if s@[0] == '+' {
                s@.drop_first()
            } else {
                s@
            }),
            d == cs@.skip(start as int),
            digits_failure(d.take(i - start)) is None,
            value == run_value(d.take(i - start)),
            run_value(d.take(i - start)) <= u32::MAX,
            digits_failure(d) == digits_failure(d.take(i - start)) || digits_failure(d.take(i - start)) is None,
        decreases cs.len() - i,
    {
        let ghost t = d.take(i - start);
        let ghost t2 = d.take(i - start + 1);
        proof {
            assert(t2.drop_last() =~= t);
            assert(t2.last() == cs@[i as int]);
        }
        let c = cs[i];
        if !('0' <= c && c <= '9') {
            proof {
                assert(digits_failure(t2) == Some(IntErrorKind::InvalidDigit));
                lemma_failure_stays(d, i - start + 1);
            }
            return Err(IntErrorKind::InvalidDigit);
        }
        let next: u64 = (value as u64) * 10 + ((c as u32) - ('0' as u32)) as u64;
        proof {
            assert(run_value(t2) == 10 * run_value(t) + crate::version::digit_value(c));
        }
        if next > 0xffff_ffff {
            proof {
                assert(digits_failure(t2) == Some(IntErrorKind::PosOverflow));
                lemma_failure_stays(d, i - start + 1);
            }
            return Err(IntErrorKind::PosOverflow);
        }
        value = next as u32;
        i = i + 1;
    }
    proof {
        assert(d.take(d.len() as int) =~= d);
    }
    Ok(value)
}

/// A failure among the first `n` digits is the failure of all of them.
proof fn lemma_failure_stays(d: Seq<char>, n: int)
    requires
        0 <= n <= d.len(),
        digits_failure(d.take(n)) is Some,
    ensures
        digits_failure(d) == digits_failure(d.take(n)),
    decreases d.len() - n,
{
    if n < d.len() {
        assert(d.take(n + 1).drop_last() =~= d.take(n));
        lemma_failure_stays(d, n + 1);
    } else {
        assert(d.take(n) =~= d);
    }
}

/// The text of a parse failure, as the standard library writes it.
pub open spec fn int_error_text(k: IntErrorKind) -> Seq<char> {
    match k {
        IntErrorKind::Empty => "cannot parse integer from empty string"@,
        IntErrorKind::InvalidDigit => "invalid digit found in string"@,
        IntErrorKind::PosOverflow => "number too large to fit in target type"@,
    }
}

/// The user id in the text that `id -u` printed, or why there is none.
pub fn uid_from_text(text: &str) -> (r: Result<u32, String>)
    ensures
        match parse_u32_spec(trim(text@)) {
            Ok(v) => r == Ok::<u32, String>(v),
            Err(k) => r matches Err(e) && e@ == "解析 UID 失败: "@ + int_error_text(k),
        },
{
    let t = trim_text(text);
    match parse_u32(t.as_str()) {
        Ok(v) => Ok(v),
        Err(k) => {
            let why = match k {
                IntErrorKind::Empty => "cannot parse integer from empty string",
                IntErrorKind::InvalidDigit => "invalid digit found in string",
                IntErrorKind::PosOverflow => "number too large to fit in target type",
            };
            Err(concat("解析 UID 失败: ", why))
        },
    }
}

/// The user id that `id -u` printed, or why there is none.
pub fn parse_uid(output: &[u8]) -> (r: Result<u32, String>)
    ensures
        match parse_u32_spec(trim(lossy_utf8(output@))) {
            Ok(v) => r == Ok::<u32, String>(v),
            Err(k) => r matches Err(e) && e@ == "解析 UID 失败: "@ + int_error_text(k),
        },
{
    let text = decode_output(output);
    uid_from_text(text.as_str())
}

/// The launchd service target of the gateway for a user.
pub fn gateway_launchd_target(uid: u32) -> (r: String)
    ensures
        r@ == "gui/"@ + decimal(uid as nat) + "/ai.openclaw.gateway"@,
{
    let n = decimal_text(uid as u64);
    let mut r = concat("gui/", n.as_str());
    r.append("/ai.openclaw.gateway");
    r
}

} // verus!

use vstd::prelude::*;

use crate::json::{field, find_key, lemma_members_model_ops, members_model, Json, JsonValue};
use crate::text::{chars_of, decode_output, is_digit, last_word, last_word_of, lossy_utf8};

verus! {

// ---------------------------------------------------------------------------
// Version numbers

/// The value of the decimal digit `c`.
pub open spec fn digit_value(c: char) -> nat {
    ((c as u32) - ('0' as u32)) as nat
}

/// The value of a run of decimal digits.
pub open spec fn run_value(r: Seq<char>) -> nat
    decreases r.len(),
{
    if r.len() == 0 {
        0
    } else {
        10 * run_value(r.drop_last()) + digit_value(r.last())
    }
}

/// The run of digits at the end of `s`.
pub open spec fn current_run(s: Seq<char>) -> Seq<char>
    decreases s.len(),
{
    if s.len() == 0 {
        Seq::empty()
    } else if is_digit(s.last()) {
        current_run(s.drop_last()).push(s.last())
    } else {
        Seq::empty()
    }
}

/// The number of a run of digits: none for an empty run or one too large for `u32`.
pub open spec fn run_number(r: Seq<char>) -> Seq<u32> {
    if r.len() > 0 && run_value(r) <= u32::MAX {
        seq![run_value(r) as u32]
    } else {
        seq![]
    }
}

/// The numbers of the runs of digits of `s` that a non-digit closes.
pub open spec fn closed_numbers(s: Seq<char>) -> Seq<u32>
    decreases s.len(),
{
    if s.len() == 0 {
        seq![]
    } else if is_digit(s.last()) {
        closed_numbers(s.drop_last())
    } else {
        closed_numbers(s.drop_last()) + run_number(current_run(s.drop_last()))
    }
}

/// The numbers of a version text: the text is cut at every character that is not a
/// decimal digit, and each piece that is a `u32` in decimal gives one number, in
/// order. `"2026.3.13-zh.1"` gives `[2026, 3, 13, 1]`.
pub open spec fn version_numbers(s: Seq<char>) -> Seq<u32> {
    closed_numbers(s) + run_number(current_run(s))
}

/// Lexicographic order on number sequences, as `Vec<u32>` compares: the first
/// difference decides, and a proper prefix comes first.
pub open spec fn lex_less(a: Seq<u32>, b: Seq<u32>) -> bool
    decreases a.len(),
{
    if a.len() == 0 {
        b.len() > 0
    } else if b.len() == 0 {
        false
    } else if a[0] != b[0] {
        a[0] < b[0]
    } else {
        lex_less(a.drop_first(), b.drop_first())
    }
}

/// Whether `latest` is a newer version than `current`.
pub open spec fn version_newer(latest: Seq<char>, current: Seq<char>) -> bool {
    lex_less(version_numbers(current), version_numbers(latest))
}

fn digit_of(c: char) -> (r: Option<u32>)
    ensures
        match r {
            Some(d) => is_digit(c) && d == digit_value(c),
            None => !is_digit(c),
        },
{
    if '0' <= c && c <= '9' {
        Some((c as u32) - ('0' as u32))
    } else {
        None
    }
}

/// The numbers of a version text (see `version_numbers`).
pub fn parse_version(s: &str) -> (out: Vec<u32>)
    ensures
        out@ == version_numbers(s@),
{
    let cs = chars_of(s);
    let mut out: Vec<u32> = Vec::new();
    let mut in_run = false;
    let mut too_big = false;
    let mut value: u32 = 0;
    let mut i: usize = 0;
    while i < cs.len()
        invariant
            cs@ == s@,
            i <= cs.len(),
            out@ == closed_numbers(cs@.take(i as int)),
            in_run == (current_run(cs@.take(i as int)).len() > 0),
            too_big == (run_value(current_run(cs@.take(i as int))) > u32::MAX),
            !too_big ==> value == run_value(current_run(cs@.take(i as int))),
        decreases cs.len() - i,
    {
        let ghost t = cs@.take(i as int);
        let ghost t2 = cs@.take(i + 1);
        proof {
            assert(t2.drop_last() =~= t);
            assert(t2.last() == cs@[i as int]);
        }
        match digit_of(cs[i]) {
            Some(d) => {
                proof {
                    let r = current_run(t);
                    assert(current_run(t2) == r.push(cs@[i as int]));
                    assert(r.push(cs@[i as int]).drop_last() =~= r);
                    assert(run_value(r.push(cs@[i as int])) == 10 * run_value(r) + d);
                }
                if !too_big {
                    let next: u64 = (value as u64) * 10 + (d as u64);
                    if next > 0xffff_ffff {
                        too_big = true;
                    } else {
                        value = next as u32;
                    }
                }
                in_run = true;
            },
            None => {
                if in_run && !too_big {
                    out.push(value);
                }
                proof {
                    assert(run_number(current_run(t)) =~= (if in_run && !too_big { seq![value] } else { seq![] }));
                }
                in_run = false;
                too_big = false;
                value = 0;
            },
        }
        i = i + 1;
    }
    if in_run && !too_big {
        out.push(value);
    }
    proof {
        assert(cs@.take(cs.len() as int) =~= cs@);
    }
    out
}

/// Whether `a` comes before `b` lexicographically.
pub fn lex_before(a: &Vec<u32>, b: &Vec<u32>) -> (r: bool)
    ensures
        r == lex_less(a@, b@),
{
    let mut i: usize = 0;
    assert(a@.skip(0) =~= a@);
    assert(b@.skip(0) =~= b@);
    while i < a.len() && i < b.len()
        invariant
            i <= a.len(),
            i <= b.len(),
            lex_less(a@, b@) == lex_less(a@.skip(i as int), b@.skip(i as int)),
        decreases a.len() - i,
    {
        proof {
            assert(a@.skip(i as int).drop_first() =~= a@.skip(i + 1));
            assert(b@.skip(i as int).drop_first() =~= b@.skip(i + 1));
        }
        if a[i] != b[i] {
            return a[i] < b[i];
        }
        i = i + 1;
    }
    i < b.len()
}

/// Whether `latest` is a newer version than `current`: their numbers compared
/// lexicographically.
pub fn is_newer_version(latest: &str, current: &str) -> (r: bool)
    ensures
        r == version_newer(latest@, current@),
{
    let l = parse_version(latest);
    let c = parse_version(current);
    lex_before(&c, &l)
}

/// What the panel reports about the installed and the published version.
#[derive(Debug, PartialEq, Eq)]
pub struct VersionInfo {
    pub current: Option<String>,
    pub latest: Option<String>,
    pub update_available: bool,
    pub source: String,
}

/// The version report: an update is available exactly where both versions are known
/// and the published one is newer.
pub fn version_info(current: Option<String>, latest: Option<String>, source: String) -> (r: VersionInfo)
    ensures
        r.current == current,
        r.latest == latest,
        r.source == source,
        r.update_available == match (current, latest) {
            (Some(c), Some(l)) => version_newer(l@, c@),
            _ => false,
        },
{
    let update_available = match (&current, &latest) {
        (Some(c), Some(l)) => is_newer_version(l.as_str(), c.as_str()),
        _ => false,
    };
    VersionInfo { current, latest, update_available, source }
}

/// The version that a command line prints with `--version`: the last word of its
/// output, or none where the output holds no word.
pub fn cli_version(output: &str) -> (r: Option<String>)
    ensures
        match r {
            Some(v) => last_word(output@) == Some(v@),
            None => last_word(output@) is None,
        },
{
    last_word_of(output)
}

/// The `version` field of a package manifest or of a registry's answer, where it is
/// a string.
pub fn version_field(doc: &Json) -> (r: Option<String>)
    ensures
        match field(doc@, "version"@) {
            Some(JsonValue::Str(v)) => r matches Some(s) && s@ == v,
            _ => r is None,
        },
{
    match doc {
        Json::Object(members) => {
            proof {
                lemma_members_model_ops(members@);
            }
            match find_key(members, "version") {
                Some(i) => match &members[i].value {
                    Json::Str(v) => Some(v.clone()),
                    _ => None,
                },
                None => None,
            }
        },
        _ => None,
    }
}

/// The installed version from what `openclaw --version` printed.
pub fn installed_version_from_output(stdout: &[u8]) -> (r: Option<String>)
    ensures
        match r {
            Some(v) => last_word(lossy_utf8(stdout@)) == Some(v@),
            None => last_word(lossy_utf8(stdout@)) is None,
        },
{
    let text = decode_output(stdout);
    cli_version(text.as_str())
}

// ---------------------------------------------------------------------------
// Laws

proof fn lemma_lex_irreflexive(a: Seq<u32>)
    ensures
        !lex_less(a, a),
    decreases a.len(),
{
    if a.len() > 0 {
        lemma_lex_irreflexive(a.drop_first());
    }
}

proof fn lemma_lex_asymmetric(a: Seq<u32>, b: Seq<u32>)
    ensures
        lex_less(a, b) ==> !lex_less(b, a),
    decreases a.len(),
{
    if a.len() > 0 && b.len() > 0 && a[0] == b[0] {
        lemma_lex_asymmetric(a.drop_first(), b.drop_first());
    }
}

proof fn lemma_lex_transitive(a: Seq<u32>, b: Seq<u32>, c: Seq<u32>)
    requires
        lex_less(a, b),
        lex_less(b, c),
    ensures
        lex_less(a, c),
    decreases a.len(),
{
    if a.len() > 0 && b.len() > 0 && c.len() > 0 && a[0] == b[0] && b[0] == c[0] {
        lemma_lex_transitive(a.drop_first(), b.drop_first(), c.drop_first());
    }
}

proof fn lemma_lex_total(a: Seq<u32>, b: Seq<u32>)
    ensures
        lex_less(a, b) || lex_less(b, a) || a == b,
    decreases a.len(),
{
    if a.len() > 0 && b.len() > 0 && a[0] == b[0] {
        lemma_lex_total(a.drop_first(), b.drop_first());
        if a.drop_first() == b.drop_first() {
            assert(a =~= seq![a[0]] + a.drop_first());
            assert(b =~= seq![b[0]] + b.drop_first());
        }
    } else if a.len() == 0 && b.len() == 0 {
        assert(a =~= b);
    }
}

/// No version is newer than itself, so a version that is installed and published
/// alike never offers an update.
pub proof fn law_version_not_newer_than_itself(v: Seq<char>)
    ensures
        !version_newer(v, v),
{
    lemma_lex_irreflexive(version_numbers(v));
}

/// Of two versions, at most one is newer than the other.
pub proof fn law_version_newer_asymmetric(a: Seq<char>, b: Seq<char>)
    ensures
        version_newer(a, b) ==> !version_newer(b, a),
{
    lemma_lex_asymmetric(version_numbers(b), version_numbers(a));
}

/// Being newer is transitive.
pub proof fn law_version_newer_transitive(a: Seq<char>, b: Seq<char>, c: Seq<char>)
    requires
        version_newer(a, b),
        version_newer(b, c),
    ensures
        version_newer(a, c),
{
    lemma_lex_transitive(version_numbers(c), version_numbers(b), version_numbers(a));
}

/// Two versions with different numbers are ordered one way or the other.
pub proof fn law_version_order_total(a: Seq<char>, b: Seq<char>)
    ensures
        version_newer(a, b) || version_newer(b, a) || version_numbers(a) == version_numbers(b),
{
    lemma_lex_total(version_numbers(a), version_numbers(b));
}


proof fn lemma_lex_first_difference(a: Seq<u32>, b: Seq<u32>)
    ensures
        lex_less(a, b) <==> (
        (exists|i: int| 0 <= i < a.len() && i < b.len() && a.take(i) == b.take(i) && a[i] < b[i])
            || (a.len() < b.len() && b.take(a.len() as int) == a)),
    decreases a.len(),
{
    if a.len() == 0 {
        assert(b.take(0) =~= a);
    } else if b.len() == 0 {
    } else if a[0] != b[0] {
        if a[0] < b[0] {
            assert(a.take(0) =~= b.take(0));
        } else {
            assert forall|i: int| 0 <= i < a.len() && i < b.len() && a.take(i) == b.take(i) implies !(a[i] < b[i]) by {
                if i > 0 {
                    assert(a.take(i)[0] == b.take(i)[0]);
                }
            }
            if a.len() < b.len() && b.take(a.len() as int) == a {
                assert(b.take(a.len() as int)[0] == a[0]);
            }
        }
    } else {
        let a1 = a.drop_first();
        let b1 = b.drop_first();
        lemma_lex_first_difference(a1, b1);
        if exists|i: int| 0 <= i < a1.len() && i < b1.len() && a1.take(i) == b1.take(i) && a1[i] < b1[i] {
            let i = choose|i: int| 0 <= i < a1.len() && i < b1.len() && a1.take(i) == b1.take(i) && a1[i] < b1[i];
            assert(a.take(i + 1) =~= seq![a[0]] + a1.take(i));
            assert(b.take(i + 1) =~= seq![b[0]] + b1.take(i));
            assert(a.take(i + 1) == b.take(i + 1) && a[i + 1] < b[i + 1]);
        }
        if exists|i: int| 0 <= i < a.len() && i < b.len() && a.take(i) == b.take(i) && a[i] < b[i] {
            let i = choose|i: int| 0 <= i < a.len() && i < b.len() && a.take(i) == b.take(i) && a[i] < b[i];
            assert(i > 0);
            assert(a1.take(i - 1) =~= a.take(i).drop_first());
            assert(b1.take(i - 1) =~= b.take(i).drop_first());
            assert(a1[i - 1] < b1[i - 1]);
        }
        if a.len() < b.len() && b.take(a.len() as int) == a {
            assert(b1.take(a1.len() as int) =~= b.take(a.len() as int).drop_first());
        }
        if a1.len() < b1.len() && b1.take(a1.len() as int) == a1 {
            assert(b.take(a.len() as int) =~= seq![b[0]] + b1.take(a1.len() as int));
            assert(a =~= seq![a[0]] + a1);
        }
    }
}

/// A version is newer than another exactly when, reading their numbers from the
/// left, the first number in which they differ is larger in it, or when it has every
/// number of the other and more after them: `2.0` is newer than `1.9.9`, `1.10` than
/// `1.9.9`, and `1.2.1` than `1.2`.
pub proof fn law_version_newer_by_first_difference(latest: Seq<char>, current: Seq<char>)
    ensures
        ({
            let l = version_numbers(latest);
            let c = version_numbers(current);
            version_newer(latest, current) <==> (
            (exists|i: int| 0 <= i < c.len() && i < l.len() && c.take(i) == l.take(i) && c[i] < l[i])
                || (c.len() < l.len() && l.take(c.len() as int) == c))
        }),
{
    lemma_lex_first_difference(version_numbers(current), version_numbers(latest));
}

} // verus!

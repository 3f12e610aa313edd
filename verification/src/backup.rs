use vstd::prelude::*;

use crate::text::{
    concat, contains, contains_text, decimal, decimal_text, digit_char, is_digit, push_char,
};

verus! {

// ---------------------------------------------------------------------------
// Backup names

/// Whether a backup name could leave the backup directory: it holds `..`, `/` or `\`.
pub open spec fn unsafe_backup_name(name: Seq<char>) -> bool {
    ||| contains_text(name, ".."@)
    ||| contains_text(name, "/"@)
    ||| contains_text(name, "\\"@)
}

/// Whether a backup name could leave the backup directory.
pub fn is_unsafe_backup_name(name: &str) -> (r: bool)
    ensures
        r == unsafe_backup_name(name@),
{
    contains(name, "..") || contains(name, "/") || contains(name, "\\")
}

/// The refusal of a backup name that could leave the backup directory.
pub open spec fn illegal_name_message() -> Seq<char> {
    "非法文件名"@
}

/// Checks a backup name before a restore or a deletion uses it.
pub fn check_backup_name(name: &str) -> (r: Result<(), String>)
    ensures
        match r {
            Ok(()) => !unsafe_backup_name(name@),
            Err(e) => unsafe_backup_name(name@) && e@ == illegal_name_message(),
        },
{
    if is_unsafe_backup_name(name) {
        Err(String::from_str("非法文件名"))
    } else {
        Ok(())
    }
}

/// The message for a backup that does not exist.
pub fn missing_backup_message(name: &str) -> (r: String)
    ensures
        r@ == "备份文件不存在: "@ + name@,
{
    concat("备份文件不存在: ", name)
}

/// Whether a restore goes ahead, and whether it first backs up the configuration in
/// place: a restore refuses an unsafe name and a missing backup, and backs up the
/// current configuration where there is one.
pub fn restore_plan(name: &str, backup_exists: bool, config_exists: bool) -> (r: Result<bool, String>)
    ensures
        match r {
            Ok(backup_first) => !unsafe_backup_name(name@) && backup_exists && backup_first == config_exists,
            Err(e) => if unsafe_backup_name(name@) {
                e@ == illegal_name_message()
            } else {
                !backup_exists && e@ == "备份文件不存在: "@ + name@
            },
        },
{
    check_backup_name(name)?;
    if !backup_exists {
        return Err(missing_backup_message(name));
    }
    Ok(config_exists)
}

/// Whether a deletion goes ahead: it refuses an unsafe name and a missing backup.
pub fn delete_plan(name: &str, backup_exists: bool) -> (r: Result<(), String>)
    ensures
        match r {
            Ok(()) => !unsafe_backup_name(name@) && backup_exists,
            Err(e) => if unsafe_backup_name(name@) {
                e@ == illegal_name_message()
            } else {
                !backup_exists && e@ == "备份文件不存在: "@ + name@
            },
        },
{
    check_backup_name(name)?;
    if !backup_exists {
        return Err(missing_backup_message(name));
    }
    Ok(())
}

/// Whether a file name has the extension `json`, as `Path::extension` reads it: the
/// name ends in `.json` and something stands before that dot.
pub open spec fn json_extension(name: Seq<char>) -> bool {
    name.len() > 5 && name.skip(name.len() - 5) == ".json"@
}

/// Whether a file in the backup directory is a backup.
pub fn has_json_extension(name: &str) -> (r: bool)
    ensures
        r == json_extension(name@),
{
    let cs = crate::text::chars_of(name);
    proof {
        reveal_strlit(".json");
    }
    if cs.len() <= 5 {
        return false;
    }
    let n = cs.len();
    let r = cs[n - 5] == '.' && cs[n - 4] == 'j' && cs[n - 3] == 's' && cs[n - 2] == 'o' && cs[n - 1] == 'n';
    proof {
        let tail = cs@.skip(n - 5);
        if r {
            assert(tail =~= ".json"@);
        } else {
            if tail == ".json"@ {
                assert(tail[0] == cs@[n - 5]);
                assert(tail[1] == cs@[n - 4]);
                assert(tail[2] == cs@[n - 3]);
                assert(tail[3] == cs@[n - 2]);
                assert(tail[4] == cs@[n - 1]);
            }
        }
    }
    r
}

// ---------------------------------------------------------------------------
// The time stamp of a new backup

/// The local date and time as the clock gives them.
#[derive(Debug, PartialEq, Eq)]
pub struct ClockReading {
    pub year: i32,
    pub month: u32,
    pub day: u32,
    pub hour: u32,
    pub minute: u32,
    pub second: u32,
    /// Nanoseconds since the whole second; from one billion on, a leap second.
    pub nanosecond: u32,
}

/// What every reading of the clock satisfies.
pub open spec fn valid_reading(c: ClockReading) -> bool {
    &&& -262143 <= c.year <= 262142
    &&& 1 <= c.month <= 12
    &&& 1 <= c.day <= 31
    &&& c.hour <= 23
    &&& c.minute <= 59
    &&& c.second <= 59
    &&& c.nanosecond < 2_000_000_000
}

/// Whether `c` is a reading that a clock can give.
pub fn is_valid_reading(c: &ClockReading) -> (r: bool)
    ensures
        r == valid_reading(*c),
{
    -262143 <= c.year && c.year <= 262142 && 1 <= c.month && c.month <= 12 && 1 <= c.day
        && c.day <= 31 && c.hour <= 23 && c.minute <= 59 && c.second <= 59
        && c.nanosecond < 2_000_000_000
}

/// `d` with zeros in front up to `width` characters.
pub open spec fn zero_padded(d: Seq<char>, width: nat) -> Seq<char> {
    if d.len() < width {
        Seq::new((width - d.len()) as nat, |i: int| '0') + d
    } else {
        d
    }
}

/// A year as `%Y` writes it: four digits at least, with a sign outside 0 to 9999.
pub open spec fn year_text(y: int) -> Seq<char> {
    if 0 <= y <= 9999 {
        zero_padded(decimal(y as nat), 4)
    } else if y < 0 {
        seq!['-'] + zero_padded(decimal((-y) as nat), 4)
    } else {
        seq!['+'] + zero_padded(decimal(y as nat), 4)
    }
}

/// A number below 100 in two digits.
pub open spec fn two_digits(v: int) -> Seq<char> {
    seq![digit_char(v / 10), digit_char(v % 10)]
}

/// The second as `%S` writes it: 60 during a leap second.
pub open spec fn shown_second(c: ClockReading) -> int {
    c.second + c.nanosecond / 1_000_000_000
}

/// The stamp `%Y%m%d-%H%M%S` of a reading.
pub open spec fn stamp(c: ClockReading) -> Seq<char> {
    year_text(c.year as int) + two_digits(c.month as int) + two_digits(c.day as int) + seq!['-']
        + two_digits(c.hour as int) + two_digits(c.minute as int) + two_digits(shown_second(c))
}

/// The name of the backup made at the time of the reading.
pub open spec fn backup_name(c: ClockReading) -> Seq<char> {
    "openclaw-"@ + stamp(c) + ".json"@
}

fn pad_zeros(s: String, width: usize) -> (r: String)
    ensures
        r@ == zero_padded(s@, width as nat),
{
    let n = s.as_str().unicode_len();
    if n >= width {
        return s;
    }
    let mut r = String::new();
    let mut i: usize = 0;
    while i < width - n
        invariant
            n < width,
            i <= width - n,
            r@ == Seq::new(i as nat, |k: int| '0'),
        decreases width - n - i,
    {
        push_char(&mut r, '0');
        assert(r@ =~= Seq::new((i + 1) as nat, |k: int| '0'));
        i = i + 1;
    }
    r.append(s.as_str());
    r
}

fn push_two_digits(r: &mut String, v: u32)
    requires
        v < 100,
    ensures
        final(r)@ == old(r)@ + two_digits(v as int),
{
    push_char(r, crate::text::digit_char_of((v / 10) as u64));
    push_char(r, crate::text::digit_char_of((v % 10) as u64));
    assert(final(r)@ =~= old(r)@ + two_digits(v as int));
}

/// The name of a backup made at the time of the reading `c`.
pub fn backup_file_name(c: &ClockReading) -> (r: String)
    requires
        valid_reading(*c),
    ensures
        r@ == backup_name(*c),
{
    let mut r = String::from_str("openclaw-");
    if 0 <= c.year && c.year <= 9999 {
        let y = pad_zeros(decimal_text(c.year as u64), 4);
        r.append(y.as_str());
    } else if c.year < 0 {
        let magnitude: u64 = (0 - (c.year as i64)) as u64;
        push_char(&mut r, '-');
        let y = pad_zeros(decimal_text(magnitude), 4);
        r.append(y.as_str());
    } else {
        push_char(&mut r, '+');
        let y = pad_zeros(decimal_text(c.year as u64), 4);
        r.append(y.as_str());
    }
    push_two_digits(&mut r, c.month);
    push_two_digits(&mut r, c.day);
    push_char(&mut r, '-');
    push_two_digits(&mut r, c.hour);
    push_two_digits(&mut r, c.minute);
    push_two_digits(&mut r, c.second + c.nanosecond / 1_000_000_000);
    r.append(".json");
    proof {
        assert(r@ =~= backup_name(*c));
    }
    r
}

/// The name of a backup made at the time of the reading `c`, or `None` where `c` is
/// no reading that a clock can give.
pub fn backup_name_at(c: &ClockReading) -> (r: Option<String>)
    ensures
        match r {
            Some(name) => valid_reading(*c) && name@ == backup_name(*c),
            None => !valid_reading(*c),
        },
{
    if is_valid_reading(c) {
        Some(backup_file_name(c))
    } else {
        None
    }
}


// ---------------------------------------------------------------------------
// The backup listing

/// One backup in the listing.
#[derive(Debug, PartialEq, Eq)]
pub struct BackupEntry {
    pub name: String,
    pub size: u64,
    /// Seconds since 1970 at which the backup was made (0 where unknown).
    pub created_at: u64,
}

/// Selects the entries made at time `t`.
pub open spec fn made_at(t: u64) -> spec_fn(BackupEntry) -> bool {
    |e: BackupEntry| e.created_at == t
}

/// Newest first: no entry is older than one after it.
pub open spec fn newest_first(s: Seq<BackupEntry>) -> bool {
    forall|i: int, j: int| 0 <= i < j < s.len() ==> s[i].created_at >= s[j].created_at
}

proof fn lemma_filter_none(s: Seq<BackupEntry>, p: spec_fn(BackupEntry) -> bool)
    requires
        forall|i: int| 0 <= i < s.len() ==> !p(#[trigger] s[i]),
    ensures
        s.filter(p) == Seq::<BackupEntry>::empty(),
    decreases s.len(),
{
    reveal(Seq::filter);
    if s.len() > 0 {
        assert forall|i: int| 0 <= i < s.drop_last().len() implies !p(#[trigger] s.drop_last()[i]) by {
            assert(s.drop_last()[i] == s[i]);
        }
        lemma_filter_none(s.drop_last(), p);
    }
}

/// The listing in the order the panel shows it: newest first, and entries made at the
/// same time in the order in which they came (a stable sort).
pub fn sort_backups(entries: Vec<BackupEntry>) -> (out: Vec<BackupEntry>)
    ensures
        out@.len() == entries@.len(),
        newest_first(out@),
        forall|t: u64| #[trigger] out@.filter(made_at(t)) == entries@.filter(made_at(t)),
{
    broadcast use vstd::seq_lib::group_filter_ensures;
    let ghost src = entries@;
    let mut out: Vec<BackupEntry> = Vec::new();
    for e in it: entries.into_iter()
        invariant
            it.seq() == src,
            out@.len() == it.index(),
            newest_first(out@),
            forall|t: u64| #[trigger] out@.filter(made_at(t)) == src.take(it.index() as int).filter(made_at(t)),
    {
        let ghost idx = it.index() as int;
        let ghost before = out@;
        let mut p: usize = 0;
        while p < out.len() && out[p].created_at >= e.created_at
            invariant
                p <= out.len(),
                out@ == before,
                forall|k: int| 0 <= k < p ==> out@[k].created_at >= e.created_at,
            decreases out.len() - p,
        {
            p = p + 1;
        }
        proof {
            // every entry from `p` on is older than `e`, by the order of `before`
            assert forall|k: int| p <= k < before.len() implies #[trigger] before[k].created_at < e.created_at by {
                if p < before.len() {
                    assert(before[p as int].created_at < e.created_at);
                }
            }
        }
        out.insert(p, e);
        proof {
            let a = before.take(p as int);
            let b = before.skip(p as int);
            assert(before =~= a + b);
            assert(out@ =~= a + seq![e] + b);
            assert(src.take(idx + 1) =~= src.take(idx).push(e));
            assert forall|t: u64| #[trigger] out@.filter(made_at(t)) == src.take(idx + 1).filter(made_at(t)) by {
                Seq::filter_distributes_over_add(a, b, made_at(t));
                Seq::filter_distributes_over_add(a + seq![e], b, made_at(t));
                Seq::filter_distributes_over_add(a, seq![e], made_at(t));
                src.take(idx).lemma_filter_push(e, made_at(t));
                Seq::<BackupEntry>::empty().lemma_filter_push(e, made_at(t));
                assert(Seq::<BackupEntry>::empty().push(e) =~= seq![e]);
                reveal(Seq::filter);
                if t == e.created_at {
                    assert forall|k: int| 0 <= k < b.len() implies !made_at(t)(#[trigger] b[k]) by {
                        assert(b[k] == before[p + k]);
                    }
                    lemma_filter_none(b, made_at(t));
                    assert(before.filter(made_at(t)) =~= a.filter(made_at(t)));
                } else {
                    assert(seq![e].filter(made_at(t)) =~= Seq::<BackupEntry>::empty());
                }
            }
            assert forall|i: int, j: int| 0 <= i < j < out@.len() implies out@[i].created_at >= out@[j].created_at by {
                if j < p {
                    assert(out@[i] == before[i] && out@[j] == before[j]);
                } else if j == p {
                    assert(out@[i] == before[i]);
                } else if i < p {
                    assert(out@[i] == before[i] && out@[j] == before[j - 1]);
                } else if i == p {
                    assert(out@[j] == before[j - 1]);
                } else {
                    assert(out@[i] == before[i - 1] && out@[j] == before[j - 1]);
                }
            }
        }
    }
    proof {
        assert(src.take(src.len() as int) =~= src);
    }
    out
}

// ---------------------------------------------------------------------------
// Laws

proof fn lemma_decimal_digits(n: nat)
    ensures
        forall|k: int| 0 <= k < decimal(n).len() ==> is_digit(#[trigger] decimal(n)[k]),
    decreases n,
{
    if n >= 10 {
        lemma_decimal_digits(n / 10);
        let d = decimal(n / 10);
        assert forall|k: int| 0 <= k < decimal(n).len() implies is_digit(#[trigger] decimal(n)[k]) by {
            if k < d.len() {
                assert(decimal(n)[k] == d[k]);
            }
        }
    }
}

proof fn lemma_padded_digits(d: Seq<char>, width: nat)
    requires
        forall|k: int| 0 <= k < d.len() ==> is_digit(#[trigger] d[k]),
    ensures
        forall|k: int| 0 <= k < zero_padded(d, width).len() ==> is_digit(#[trigger] zero_padded(d, width)[k]),
{
    if d.len() < width {
        let z = Seq::new((width - d.len()) as nat, |i: int| '0');
        assert forall|k: int| 0 <= k < zero_padded(d, width).len() implies is_digit(#[trigger] zero_padded(d, width)[k]) by {
            if k < z.len() {
                assert(zero_padded(d, width)[k] == '0');
            } else {
                assert(zero_padded(d, width)[k] == d[k - z.len()]);
            }
        }
    }
}

/// A character that can stand in a time stamp.
pub open spec fn stamp_char(c: char) -> bool {
    is_digit(c) || c == '-' || c == '+'
}

proof fn lemma_stamp_chars(c: ClockReading)
    ensures
        forall|k: int| 0 <= k < stamp(c).len() ==> stamp_char(#[trigger] stamp(c)[k]),
{
    let y = c.year as int;
    let yd = if y < 0 { decimal((-y) as nat) } else { decimal(y as nat) };
    if y < 0 {
        lemma_decimal_digits((-y) as nat);
    } else {
        lemma_decimal_digits(y as nat);
    }
    lemma_padded_digits(yd, 4);
    let yt = year_text(y);
    assert forall|k: int| 0 <= k < yt.len() implies stamp_char(#[trigger] yt[k]) by {
        if 0 <= y <= 9999 {
            assert(is_digit(zero_padded(yd, 4)[k]));
        } else if k == 0 {
        } else {
            assert(yt[k] == zero_padded(yd, 4)[k - 1]);
            assert(is_digit(zero_padded(yd, 4)[k - 1]));
        }
    }
    let st = stamp(c);
    assert forall|k: int| 0 <= k < st.len() implies stamp_char(#[trigger] st[k]) by {
        if k < yt.len() {
            assert(st[k] == yt[k]);
        }
    }
}

/// A text in which `x` does not occur holds no pattern that begins with `x`.
proof fn lemma_absent_char(s: Seq<char>, x: char, pat: Seq<char>)
    requires
        forall|k: int| 0 <= k < s.len() ==> s[k] != x,
        pat.len() >= 1,
        pat[0] == x,
    ensures
        !contains_text(s, pat),
{
    assert forall|i: int| 0 <= i <= s.len() - pat.len() implies #[trigger] s.subrange(i, i + pat.len()) != pat by {
        assert(s.subrange(i, i + pat.len())[0] == s[i]);
    }
}

/// Every backup that the panel makes has a name that a restore or a deletion accepts,
/// and that the backup listing shows (it has the extension `json`).
pub proof fn law_backup_names_are_restorable(c: ClockReading)
    requires
        valid_reading(c),
    ensures
        !unsafe_backup_name(backup_name(c)),
        json_extension(backup_name(c)),
{
    reveal_strlit("openclaw-");
    reveal_strlit(".json");
    reveal_strlit("..");
    reveal_strlit("/");
    reveal_strlit("\\");
    let pre = "openclaw-"@;
    let st = stamp(c);
    let suf = ".json"@;
    let name = backup_name(c);
    lemma_stamp_chars(c);
    assert(name =~= pre + st + suf);
    let dot = name.len() - 5;
    assert forall|k: int| 0 <= k < name.len() && name[k] == '.' implies k == dot by {
        if k < pre.len() {
            assert(name[k] == pre[k]);
        } else if k < pre.len() + st.len() {
            assert(name[k] == st[k - pre.len()]);
            assert(stamp_char(st[k - pre.len()]));
        } else {
            assert(name[k] == suf[k - pre.len() - st.len()]);
        }
    }
    assert forall|k: int| 0 <= k < name.len() implies name[k] != '/' && name[k] != '\\' by {
        if k < pre.len() {
            assert(name[k] == pre[k]);
        } else if k < pre.len() + st.len() {
            assert(name[k] == st[k - pre.len()]);
            assert(stamp_char(st[k - pre.len()]));
        } else {
            assert(name[k] == suf[k - pre.len() - st.len()]);
        }
    }
    lemma_absent_char(name, '/', "/"@);
    lemma_absent_char(name, '\\', "\\"@);
    assert forall|i: int| 0 <= i <= name.len() - 2 implies #[trigger] name.subrange(i, i + ".."@.len()) != ".."@ by {
        if name.subrange(i, i + 2) == ".."@ {
            assert(name.subrange(i, i + 2)[0] == name[i]);
            assert(name.subrange(i, i + 2)[1] == name[i + 1]);
        }
    }
    assert(name.skip(name.len() - 5) =~= suf);
}

/// The listing shows every backup and nothing else: whatever is ordered by time with
/// the entries of each time kept as they came holds the same entries.
pub proof fn law_listing_keeps_every_backup(input: Seq<BackupEntry>, listed: Seq<BackupEntry>)
    requires
        forall|t: u64| #[trigger] listed.filter(made_at(t)) == input.filter(made_at(t)),
    ensures
        forall|e: BackupEntry| input.contains(e) <==> listed.contains(e),
{
    assert forall|e: BackupEntry| input.contains(e) <==> listed.contains(e) by {
        let p = made_at(e.created_at);
        if input.contains(e) {
            let i = choose|i: int| 0 <= i < input.len() && input[i] == e;
            input.lemma_filter_contains(p, i);
            assert(listed.filter(p) == input.filter(p));
            listed.lemma_filter_contains_rev(p, e);
        }
        if listed.contains(e) {
            let i = choose|i: int| 0 <= i < listed.len() && listed[i] == e;
            listed.lemma_filter_contains(p, i);
            assert(listed.filter(p) == input.filter(p));
            input.lemma_filter_contains_rev(p, e);
        }
    }
}


/// Every reading that the local clock can give names a backup: a year within chrono's
/// calendar, a month from 1 to 12, a day from 1 to 31, an hour to 23, a minute and a
/// second to 59, and nanoseconds below two billion (a leap second included).
pub proof fn law_every_clock_reading_names_a_backup(c: ClockReading)
    requires
        -262143 <= c.year && c.year <= 262142,
        1 <= c.month && c.month <= 12,
        1 <= c.day && c.day <= 31,
        c.hour <= 23,
        c.minute <= 59,
        c.second <= 59,
        c.nanosecond < 2_000_000_000,
    ensures
        valid_reading(c),
{
}

} // verus!

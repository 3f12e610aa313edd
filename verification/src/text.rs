use vstd::prelude::*;

verus! {

/// The characters of `s`, in order.
pub fn chars_of(s: &str) -> (out: Vec<char>)
    ensures
        out@ == s@,
{
    let mut out: Vec<char> = Vec::new();
    for c in it: s.chars()
        invariant
            out@ == it.seq().take(it.index() as int),
    {
        out.push(c);
    }
    out
}

/// Whether two texts hold the same characters.
pub fn same_text(a: &str, b: &str) -> (r: bool)
    ensures
        r == (a@ == b@),
{
    let x = chars_of(a);
    let y = chars_of(b);
    if x.len() != y.len() {
        return false;
    }
    let mut i: usize = 0;
    while i < x.len()
        invariant
            x@ == a@,
            y@ == b@,
            x.len() == y.len(),
            i <= x.len(),
            forall|j: int| 0 <= j < i ==> x@[j] == y@[j],
        decreases x.len() - i,
    {
        if x[i] != y[i] {
            return false;
        }
        i = i + 1;
    }
    assert(x@ =~= y@);
    true
}

/// Appends `c` to `s`: `String::push` of the standard library, which appends one
/// character. Its contract claims that the text grows by exactly that character.
#[verifier::external_body]
pub(crate) fn push_char(s: &mut String, c: char)
    ensures
        final(s)@ == old(s)@.push(c),
{
    s.push(c);
}

/// The text made of the characters `cs`.
pub fn string_from_chars(cs: &Vec<char>) -> (s: String)
    ensures
        s@ == cs@,
{
    let mut s = String::new();
    let mut i: usize = 0;
    while i < cs.len()
        invariant
            i <= cs.len(),
            s@ == cs@.take(i as int),
        decreases cs.len() - i,
    {
        push_char(&mut s, cs[i]);
        assert(cs@.take(i as int).push(cs@[i as int]) =~= cs@.take(i + 1));
        i = i + 1;
    }
    assert(cs@.take(cs.len() as int) =~= cs@);
    s
}

/// `s` followed by `t`.
pub fn concat(s: &str, t: &str) -> (r: String)
    ensures
        r@ == s@ + t@,
{
    let mut r = String::from_str(s);
    r.append(t);
    r
}

// ---------------------------------------------------------------------------
// Characters

/// Whether `c` has the Unicode `White_Space` property, as `char::is_whitespace` decides.
pub open spec fn is_white(c: char) -> bool {
    let n = c as u32;
    ||| 0x09 <= n <= 0x0d
    ||| n == 0x20
    ||| n == 0x85
    ||| n == 0xa0
    ||| n == 0x1680
    ||| 0x2000 <= n <= 0x200a
    ||| n == 0x2028
    ||| n == 0x2029
    ||| n == 0x202f
    ||| n == 0x205f
    ||| n == 0x3000
}

pub fn is_white_char(c: char) -> (r: bool)
    ensures
        r == is_white(c),
{
    let n = c as u32;
    (0x09 <= n && n <= 0x0d) || n == 0x20 || n == 0x85 || n == 0xa0 || n == 0x1680 || (0x2000 <= n
        && n <= 0x200a) || n == 0x2028 || n == 0x2029 || n == 0x202f || n == 0x205f || n == 0x3000
}

/// Whether `c` is one of `0` to `9`.
pub open spec fn is_digit(c: char) -> bool {
    '0' <= c <= '9'
}

pub open spec fn white() -> spec_fn(char) -> bool {
    |c: char| is_white(c)
}

pub open spec fn not_white() -> spec_fn(char) -> bool {
    |c: char| !is_white(c)
}

pub open spec fn is_char(x: char) -> spec_fn(char) -> bool {
    |c: char| c == x
}

/// The number of leading characters of `s` that satisfy `p`.
pub open spec fn lead_len(s: Seq<char>, p: spec_fn(char) -> bool) -> nat
    decreases s.len(),
{
    if s.len() > 0 && p(s[0]) {
        1 + lead_len(s.drop_first(), p)
    } else {
        0
    }
}

/// The number of trailing characters of `s` that satisfy `p`.
pub open spec fn trail_len(s: Seq<char>, p: spec_fn(char) -> bool) -> nat
    decreases s.len(),
{
    if s.len() > 0 && p(s.last()) {
        1 + trail_len(s.drop_last(), p)
    } else {
        0
    }
}

/// `s` without its leading characters that satisfy `p`.
pub open spec fn trim_start_by(s: Seq<char>, p: spec_fn(char) -> bool) -> Seq<char> {
    s.skip(lead_len(s, p) as int)
}

/// `s` without its trailing characters that satisfy `p`.
pub open spec fn trim_end_by(s: Seq<char>, p: spec_fn(char) -> bool) -> Seq<char> {
    s.take(s.len() - trail_len(s, p))
}

/// `s` without leading and trailing whitespace, as `str::trim` gives it.
pub open spec fn trim(s: Seq<char>) -> Seq<char> {
    trim_end_by(trim_start_by(s, white()), white())
}

pub proof fn lemma_lead_len(s: Seq<char>, p: spec_fn(char) -> bool)
    ensures
        lead_len(s, p) <= s.len(),
        forall|j: int| 0 <= j < lead_len(s, p) ==> p(#[trigger] s[j]),
        lead_len(s, p) < s.len() ==> !p(s[lead_len(s, p) as int]),
    decreases s.len(),
{
    if s.len() > 0 && p(s[0]) {
        lemma_lead_len(s.drop_first(), p);
        assert forall|j: int| 0 <= j < lead_len(s, p) implies p(#[trigger] s[j]) by {
            if j > 0 {
                assert(s.drop_first()[j - 1] == s[j]);
            }
        }
    }
}

pub proof fn lemma_trail_len(s: Seq<char>, p: spec_fn(char) -> bool)
    ensures
        trail_len(s, p) <= s.len(),
        forall|j: int| s.len() - trail_len(s, p) <= j < s.len() ==> p(#[trigger] s[j]),
        trail_len(s, p) < s.len() ==> !p(s[s.len() - trail_len(s, p) - 1]),
    decreases s.len(),
{
    if s.len() > 0 && p(s.last()) {
        lemma_trail_len(s.drop_last(), p);
        assert forall|j: int| s.len() - trail_len(s, p) <= j < s.len() implies p(#[trigger] s[j]) by {
            if j < s.len() - 1 {
                assert(s.drop_last()[j] == s[j]);
            }
        }
    }
}

/// The position of the first character of `cs` from `from` on that fails `p`,
/// where `p` is whitespace (`white`) or one character (`Some(x)`).
fn skip_forward(cs: &Vec<char>, from: usize, x: Option<char>) -> (i: usize)
    requires
        from <= cs.len(),
    ensures
        from <= i <= cs.len(),
        i - from == lead_len(cs@.skip(from as int), char_test(x)),
{
    let ghost p = char_test(x);
    let mut i = from;
    while i < cs.len()
        invariant
            from <= i <= cs.len(),
            p == char_test(x),
            lead_len(cs@.skip(from as int), p) == (i - from) + lead_len(cs@.skip(i as int), p),
        decreases cs.len() - i,
    {
        let c = cs[i];
        let hit = match x {
            Some(y) => c == y,
            None => is_white_char(c),
        };
        assert(cs@.skip(i as int)[0] == c);
        if !hit {
            return i;
        }
        assert(cs@.skip(i as int).drop_first() =~= cs@.skip(i + 1));
        i = i + 1;
    }
    i
}

/// The position after the last character of `cs[from..to]` that fails the test.
fn skip_backward(cs: &Vec<char>, from: usize, to: usize, x: Option<char>) -> (e: usize)
    requires
        from <= to <= cs.len(),
    ensures
        from <= e <= to,
        to - e == trail_len(cs@.subrange(from as int, to as int), char_test(x)),
{
    let ghost p = char_test(x);
    let mut e = to;
    while e > from
        invariant
            from <= e <= to,
            to <= cs.len(),
            p == char_test(x),
            trail_len(cs@.subrange(from as int, to as int), p) == (to - e) + trail_len(
                cs@.subrange(from as int, e as int),
                p,
            ),
        decreases e - from,
    {
        let c = cs[e - 1];
        let hit = match x {
            Some(y) => c == y,
            None => is_white_char(c),
        };
        assert(cs@.subrange(from as int, e as int).last() == c);
        if !hit {
            return e;
        }
        assert(cs@.subrange(from as int, e as int).drop_last() =~= cs@.subrange(from as int, e - 1));
        e = e - 1;
    }
    e
}

/// Whitespace (`None`) or the one character `x`.
pub open spec fn char_test(x: Option<char>) -> spec_fn(char) -> bool {
    match x {
        Some(y) => is_char(y),
        None => white(),
    }
}

/// `s` without leading and trailing whitespace (`str::trim`).
pub fn trim_text(s: &str) -> (r: String)
    ensures
        r@ == trim(s@),
{
    let cs = chars_of(s);
    let a = skip_forward(&cs, 0, None);
    let e = skip_backward(&cs, a, cs.len(), None);
    proof {
        assert(cs@.skip(0) =~= cs@);
        let rest = cs@.skip(a as int);
        assert(rest =~= cs@.subrange(a as int, cs.len() as int));
        assert(rest.take(rest.len() - trail_len(rest, white())) =~= cs@.subrange(a as int, e as int));
    }
    String::from_str(s.substring_char(a, e))
}

/// `s` without its trailing characters `x` (`str::trim_end_matches` with a character).
pub fn trim_end_char(s: &str, x: char) -> (r: String)
    ensures
        r@ == trim_end_by(s@, is_char(x)),
{
    let cs = chars_of(s);
    let e = skip_backward(&cs, 0, cs.len(), Some(x));
    proof {
        assert(cs@.subrange(0, cs.len() as int) =~= cs@);
        assert(cs@.take(e as int) =~= cs@.subrange(0, e as int));
    }
    String::from_str(s.substring_char(0, e))
}

/// `s` without its leading characters `x` (`str::trim_start_matches` with a character).
pub fn trim_start_char(s: &str, x: char) -> (r: String)
    ensures
        r@ == trim_start_by(s@, is_char(x)),
{
    let cs = chars_of(s);
    let a = skip_forward(&cs, 0, Some(x));
    proof {
        assert(cs@.skip(0) =~= cs@);
        assert(cs@.skip(a as int) =~= cs@.subrange(a as int, cs.len() as int));
    }
    String::from_str(s.substring_char(a, cs.len()))
}

/// The last word of `s`: its last maximal run of characters that are not whitespace,
/// as `s.split_whitespace().last()` gives it.
pub open spec fn last_word(s: Seq<char>) -> Option<Seq<char>> {
    let t = trim_end_by(s, white());
    if t.len() == 0 {
        None
    } else {
        Some(t.skip(t.len() - trail_len(t, not_white())))
    }
}

pub fn last_word_of(s: &str) -> (r: Option<String>)
    ensures
        match r {
            Some(w) => last_word(s@) == Some(w@),
            None => last_word(s@) is None,
        },
{
    let cs = chars_of(s);
    let e = skip_backward(&cs, 0, cs.len(), None);
    proof {
        assert(cs@.subrange(0, cs.len() as int) =~= cs@);
    }
    if e == 0 {
        return None;
    }
    // the run of non-whitespace characters that ends at `e`
    let mut b = e;
    while b > 0
        invariant
            b <= e <= cs.len(),
            cs@ == s@,
            trail_len(cs@.subrange(0, e as int), not_white()) == (e - b) + trail_len(
                cs@.subrange(0, b as int),
                not_white(),
            ),
        ensures
            b <= e,
            trail_len(cs@.subrange(0, e as int), not_white()) == e - b,
        decreases b,
    {
        let c = cs[b - 1];
        assert(cs@.subrange(0, b as int).last() == c);
        if is_white_char(c) {
            assert(trail_len(cs@.subrange(0, b as int), not_white()) == 0);
            break;
        }
        assert(cs@.subrange(0, b as int).drop_last() =~= cs@.subrange(0, b - 1));
        b = b - 1;
    }
    proof {
        let t = cs@.take(e as int);
        assert(t =~= cs@.subrange(0, e as int));
        assert(t.skip(t.len() - trail_len(t, not_white())) =~= cs@.subrange(b as int, e as int));
    }
    Some(String::from_str(s.substring_char(b, e)))
}

/// Whether `pat` occurs in `s`.
pub open spec fn contains_text(s: Seq<char>, pat: Seq<char>) -> bool {
    exists|i: int| 0 <= i <= s.len() - pat.len() && #[trigger] s.subrange(i, i + pat.len()) == pat
}

/// Whether `pat` occurs in `s` (`str::contains`).
pub fn contains(s: &str, pat: &str) -> (r: bool)
    ensures
        r == contains_text(s@, pat@),
{
    let cs = chars_of(s);
    let ps = chars_of(pat);
    if ps.len() > cs.len() {
        return false;
    }
    if ps.len() == 0 {
        assert(s@.subrange(0int, 0int + pat@.len()) =~= pat@);
        return true;
    }
    let last = cs.len() - ps.len();
    let mut i: usize = 0;
    while i <= last
        invariant
            cs@ == s@,
            ps@ == pat@,
            last == cs.len() - ps.len(),
            ps.len() > 0,
            i <= last + 1,
            forall|k: int| 0 <= k < i ==> #[trigger] cs@.subrange(k, k + ps.len()) != ps@,
        decreases last + 1 - i,
    {
        let mut j: usize = 0;
        let mut same = true;
        while j < ps.len()
            invariant
                cs@ == s@,
                ps@ == pat@,
                last == cs.len() - ps.len(),
                i <= last,
                j <= ps.len(),
                same ==> forall|k: int| 0 <= k < j ==> cs@[i + k] == ps@[k],
                !same ==> cs@.subrange(i as int, i + ps.len()) != ps@,
            ensures
                same ==> j == ps.len(),
                same ==> forall|k: int| 0 <= k < j ==> cs@[i + k] == ps@[k],
                !same ==> cs@.subrange(i as int, i + ps.len()) != ps@,
            decreases ps.len() - j,
        {
            if cs[i + j] != ps[j] {
                assert(cs@.subrange(i as int, i + ps.len())[j as int] == cs@[i + j]);
                same = false;
                break;
            }
            j = j + 1;
        }
        if same {
            assert(cs@.subrange(i as int, i + ps.len()) =~= ps@);
            return true;
        }
        i = i + 1;
    }
    false
}

/// Whether `s` begins with `p`.
pub open spec fn starts_with(s: Seq<char>, p: Seq<char>) -> bool {
    p.len() <= s.len() && s.take(p.len() as int) == p
}

/// Whether `s` begins with `p` (`str::starts_with`).
pub fn has_prefix(s: &str, p: &str) -> (r: bool)
    ensures
        r == starts_with(s@, p@),
{
    let cs = chars_of(s);
    let ps = chars_of(p);
    if ps.len() > cs.len() {
        return false;
    }
    let mut j: usize = 0;
    while j < ps.len()
        invariant
            cs@ == s@,
            ps@ == p@,
            ps.len() <= cs.len(),
            j <= ps.len(),
            forall|k: int| 0 <= k < j ==> cs@[k] == ps@[k],
        decreases ps.len() - j,
    {
        if cs[j] != ps[j] {
            assert(cs@.take(ps.len() as int)[j as int] == cs@[j as int]);
            return false;
        }
        j = j + 1;
    }
    assert(cs@.take(ps.len() as int) =~= ps@);
    true
}

// ---------------------------------------------------------------------------
// Numbers

/// The character of the decimal digit `d`.
pub open spec fn digit_char(d: int) -> char {
    if d == 0 {
        '0'
    } else if d == 1 {
        '1'
    } else if d == 2 {
        '2'
    } else if d == 3 {
        '3'
    } else if d == 4 {
        '4'
    } else if d == 5 {
        '5'
    } else if d == 6 {
        '6'
    } else if d == 7 {
        '7'
    } else if d == 8 {
        '8'
    } else {
        '9'
    }
}

pub fn digit_char_of(d: u64) -> (c: char)
    requires
        d < 10,
    ensures
        c == digit_char(d as int),
{
    if d == 0 {
        '0'
    } else if d == 1 {
        '1'
    } else if d == 2 {
        '2'
    } else if d == 3 {
        '3'
    } else if d == 4 {
        '4'
    } else if d == 5 {
        '5'
    } else if d == 6 {
        '6'
    } else if d == 7 {
        '7'
    } else if d == 8 {
        '8'
    } else {
        '9'
    }
}

/// The decimal notation of `n`, without leading zeros.
pub open spec fn decimal(n: nat) -> Seq<char>
    decreases n,
{
    if n < 10 {
        seq![digit_char(n as int)]
    } else {
        decimal(n / 10).push(digit_char((n % 10) as int))
    }
}

/// The decimal notation of `n` (`n.to_string()`).
pub fn decimal_text(n: u64) -> (s: String)
    ensures
        s@ == decimal(n as nat),
{
    // the digits, least significant first
    let mut rev: Vec<char> = Vec::new();
    let mut cur = n;
    while cur >= 10
        invariant
            decimal(n as nat) == decimal(cur as nat) + Seq::new(rev@.len(), |i: int| rev@[rev@.len() - 1 - i]),
        decreases cur,
    {
        let ghost before = rev@;
        rev.push(digit_char_of(cur % 10));
        proof {
            let rb = Seq::new(before.len(), |i: int| before[before.len() - 1 - i]);
            let ra = Seq::new(rev@.len(), |i: int| rev@[rev@.len() - 1 - i]);
            assert(ra =~= seq![digit_char((cur % 10) as int)] + rb);
            assert(decimal(cur as nat) == decimal((cur / 10) as nat).push(digit_char((cur % 10) as int)));
            assert(decimal((cur / 10) as nat).push(digit_char((cur % 10) as int)) + rb =~= decimal(
                (cur / 10) as nat,
            ) + ra);
        }
        cur = cur / 10;
    }
    let ghost before = rev@;
    rev.push(digit_char_of(cur));
    proof {
        let rb = Seq::new(before.len(), |i: int| before[before.len() - 1 - i]);
        let ra = Seq::new(rev@.len(), |i: int| rev@[rev@.len() - 1 - i]);
        assert(ra =~= seq![digit_char(cur as int)] + rb);
        assert(decimal(n as nat) =~= ra);
    }
    let mut s = String::new();
    let mut k = rev.len();
    while k > 0
        invariant
            k <= rev.len(),
            s@ =~= Seq::new((rev.len() - k) as nat, |i: int| rev@[rev@.len() - 1 - i]),
        decreases k,
    {
        push_char(&mut s, rev[k - 1]);
        k = k - 1;
    }
    s
}

} // verus!

verus! {

/// Trimming twice gives what trimming once gives.
pub proof fn lemma_trim_idempotent(s: Seq<char>)
    ensures
        trim(trim(s)) == trim(s),
{
    let a = lead_len(s, white());
    let r = s.skip(a as int);
    let t = trim(s);
    lemma_lead_len(s, white());
    lemma_trail_len(r, white());
    assert(t == r.take(r.len() - trail_len(r, white())));
    if t.len() > 0 {
        assert(t[0] == s[a as int]);
        assert(!white()(t[0]));
        assert(lead_len(t, white()) == 0);
        assert(t.skip(0) =~= t);
        assert(t.last() == r[r.len() - trail_len(r, white()) - 1]);
        assert(trail_len(t, white()) == 0);
        assert(t.take(t.len() as int) =~= t);
    } else {
        assert(lead_len(t, white()) == 0);
        assert(t.skip(0) =~= t);
        assert(trail_len(t.skip(0), white()) == 0);
        assert(t.take(0) =~= t);
    }
}

} // verus!

verus! {

/// The order of texts that `String`'s `Ord` gives: lexicographic on the characters'
/// code points (which is the order of their UTF-8 bytes).
pub open spec fn text_less(a: Seq<char>, b: Seq<char>) -> bool
    decreases a.len(),
{
    if a.len() == 0 {
        b.len() > 0
    } else if b.len() == 0 {
        false
    } else if a[0] != b[0] {
        a[0] < b[0]
    } else {
        text_less(a.drop_first(), b.drop_first())
    }
}

pub proof fn lemma_text_less_irreflexive(a: Seq<char>)
    ensures
        !text_less(a, a),
    decreases a.len(),
{
    if a.len() > 0 {
        lemma_text_less_irreflexive(a.drop_first());
    }
}

pub proof fn lemma_text_less_transitive(a: Seq<char>, b: Seq<char>, c: Seq<char>)
    requires
        text_less(a, b),
        text_less(b, c),
    ensures
        text_less(a, c),
    decreases a.len(),
{
    if a.len() > 0 && b.len() > 0 && c.len() > 0 && a[0] == b[0] && b[0] == c[0] {
        lemma_text_less_transitive(a.drop_first(), b.drop_first(), c.drop_first());
    }
}

pub proof fn lemma_text_less_total(a: Seq<char>, b: Seq<char>)
    ensures
        text_less(a, b) || text_less(b, a) || a == b,
    decreases a.len(),
{
    if a.len() > 0 && b.len() > 0 && a[0] == b[0] {
        lemma_text_less_total(a.drop_first(), b.drop_first());
        if a.drop_first() == b.drop_first() {
            assert(a =~= seq![a[0]] + a.drop_first());
            assert(b =~= seq![b[0]] + b.drop_first());
        }
    } else if a.len() == 0 && b.len() == 0 {
        assert(a =~= b);
    }
}

/// Whether `a` comes before `b` in the order of texts.
pub fn text_before(a: &str, b: &str) -> (r: bool)
    ensures
        r == text_less(a@, b@),
{
    let x = chars_of(a);
    let y = chars_of(b);
    let mut i: usize = 0;
    assert(x@.skip(0) =~= x@);
    assert(y@.skip(0) =~= y@);
    while i < x.len() && i < y.len()
        invariant
            x@ == a@,
            y@ == b@,
            i <= x.len(),
            i <= y.len(),
            text_less(a@, b@) == text_less(x@.skip(i as int), y@.skip(i as int)),
        decreases x.len() - i,
    {
        proof {
            assert(x@.skip(i as int).drop_first() =~= x@.skip(i + 1));
            assert(y@.skip(i as int).drop_first() =~= y@.skip(i + 1));
        }
        if x[i] != y[i] {
            return x[i] < y[i];
        }
        i = i + 1;
    }
    i < y.len()
}

} // verus!

verus! {

/// The text that `String::from_utf8_lossy` makes of `bytes`.
pub uninterp spec fn lossy_utf8(bytes: Seq<u8>) -> Seq<char>;

/// Decodes the output of a command: `String::from_utf8_lossy` of the standard
/// library, which decodes UTF-8 and puts U+FFFD in place of what is not UTF-8. The
/// contract names its result (`lossy_utf8`), and says that valid UTF-8 comes back
/// decoded as it is, which the documentation promises; where the bytes are not valid
/// UTF-8 it says nothing more.
#[verifier::external_body]
pub(crate) fn decode_output(bytes: &[u8]) -> (s: String)
    ensures
        s@ == lossy_utf8(bytes@),
        vstd::utf8::valid_utf8(bytes@) ==> s@ == vstd::utf8::decode_utf8(bytes@),
{
    String::from_utf8_lossy(bytes).to_string()
}

} // verus!

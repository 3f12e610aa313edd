use vstd::prelude::*;

use crate::text::{chars_of, concat, has_prefix, push_char, starts_with, string_from_chars};

verus! {

// ---------------------------------------------------------------------------
// The model of a path, as `std::path::Path` reads one on Unix (`windows == false`)
// and on Windows (`windows == true`). On Windows a leading drive such as `C:` is read
// as a prefix; the other Windows prefixes (UNC and verbatim paths, which begin with
// two separators) are not modelled: such a path is read as a rooted path, and
// `lies_under` refuses it.

/// Whether `c` separates components: `/` on either system, `\` on Windows too.
pub open spec fn is_separator(c: char, windows: bool) -> bool {
    c == '/' || (windows && c == '\\')
}

/// The separator that `Path::join` puts between two parts.
pub open spec fn main_separator(windows: bool) -> char {
    if windows {
        '\\'
    } else {
        '/'
    }
}

pub open spec fn is_ascii_letter(c: char) -> bool {
    ('a' <= c && c <= 'z') || ('A' <= c && c <= 'Z')
}

/// `c` with an ASCII lower-case letter made upper-case.
pub open spec fn ascii_upper(c: char) -> char {
    if 'a' <= c && c <= 'z' {
        ((c as int) - 32) as char
    } else {
        c
    }
}

/// The length of the drive prefix (a letter and `:`) that Windows reads at the start
/// of `s`; 0 where there is none, and always 0 on Unix.
pub open spec fn prefix_len(s: Seq<char>, windows: bool) -> int {
    if windows && s.len() >= 2 && is_ascii_letter(s[0]) && s[1] == ':' {
        2
    } else {
        0
    }
}

/// The drive prefix as a component: its letter in upper case (Windows compares
/// drives so), then `:`.
pub open spec fn prefix_component(s: Seq<char>, windows: bool) -> Seq<Seq<char>> {
    if prefix_len(s, windows) == 2 {
        seq![seq![ascii_upper(s[0]), ':']]
    } else {
        seq![]
    }
}

/// What follows the prefix.
pub open spec fn after_prefix(s: Seq<char>, windows: bool) -> Seq<char> {
    s.skip(prefix_len(s, windows))
}

/// Whether the path has a root: a separator right after the prefix.
pub open spec fn has_root(s: Seq<char>, windows: bool) -> bool {
    let r = after_prefix(s, windows);
    r.len() > 0 && is_separator(r[0], windows)
}

/// A path segment as a component: empty segments and `.` vanish.
pub open spec fn segment_component(seg: Seq<char>) -> Seq<Seq<char>> {
    if seg.len() == 0 || seg == seq!['.'] {
        seq![]
    } else {
        seq![seg]
    }
}

/// The segment after the last separator of `s`.
pub open spec fn open_segment(s: Seq<char>, windows: bool) -> Seq<char>
    decreases s.len(),
{
    if s.len() == 0 {
        seq![]
    } else if is_separator(s.last(), windows) {
        seq![]
    } else {
        open_segment(s.drop_last(), windows).push(s.last())
    }
}

/// The components of the segments of `s` that a separator closes.
pub open spec fn closed_components(s: Seq<char>, windows: bool) -> Seq<Seq<char>>
    decreases s.len(),
{
    if s.len() == 0 {
        seq![]
    } else if is_separator(s.last(), windows) {
        closed_components(s.drop_last(), windows) + segment_component(
            open_segment(s.drop_last(), windows),
        )
    } else {
        closed_components(s.drop_last(), windows)
    }
}

/// The component that stands before the segments of what follows the prefix: the root
/// (written `/` on either system), or `.` where that part begins with the segment `.`.
pub open spec fn head_component(s: Seq<char>, windows: bool) -> Seq<Seq<char>> {
    if s.len() > 0 && is_separator(s[0], windows) {
        seq![seq!['/']]
    } else if s == seq!['.'] || (s.len() >= 2 && s[0] == '.' && is_separator(s[1], windows)) {
        seq![seq!['.']]
    } else {
        seq![]
    }
}

/// The components of what follows the prefix.
pub open spec fn body_components(s: Seq<char>, windows: bool) -> Seq<Seq<char>> {
    head_component(s, windows) + closed_components(s, windows) + segment_component(
        open_segment(s, windows),
    )
}

/// The components of a path, as `Path::components` yields them: the drive prefix,
/// the root, then the segments; repeated separators and `.` segments are ignored (but
/// for a leading `.`), a trailing separator is ignored, `..` is kept.
pub open spec fn components(s: Seq<char>, windows: bool) -> Seq<Seq<char>> {
    prefix_component(s, windows) + body_components(after_prefix(s, windows), windows)
}

/// Whether `path` begins with `base`, as `Path::starts_with` decides: the components
/// of `base` begin those of `path`.
pub open spec fn path_starts_with(path: Seq<char>, base: Seq<char>, windows: bool) -> bool {
    let p = components(path, windows);
    let b = components(base, windows);
    b.len() <= p.len() && p.take(b.len() as int) == b
}

/// The component `..`.
pub open spec fn parent_dir() -> Seq<char> {
    seq!['.', '.']
}

/// Whether a component names a directory entry: neither the root, nor `.`, nor `..`.
pub open spec fn is_normal(c: Seq<char>) -> bool {
    c != seq!['/'] && c != seq!['.'] && c != parent_dir()
}

/// One step of lexical resolution: `..` cancels the entry before it, stays at the root,
/// and is kept where nothing can be cancelled (at the start of a relative path).
pub open spec fn resolve_step(done: Seq<Seq<char>>, c: Seq<char>) -> Seq<Seq<char>> {
    if c == parent_dir() {
        if done.len() > 0 && is_normal(done.last()) {
            done.drop_last()
        } else if done.len() > 0 && done.last() == seq!['/'] {
            done
        } else {
            done.push(c)
        }
    } else {
        done.push(c)
    }
}

/// The lexical resolution of a sequence of components (after the prefix).
pub open spec fn resolve(cs: Seq<Seq<char>>) -> Seq<Seq<char>>
    decreases cs.len(),
{
    if cs.len() == 0 {
        seq![]
    } else {
        resolve_step(resolve(cs.drop_last()), cs.last())
    }
}

/// The components of a path with its `..` resolved lexically.
pub open spec fn resolved_components(s: Seq<char>, windows: bool) -> Seq<Seq<char>> {
    prefix_component(s, windows) + resolve(body_components(after_prefix(s, windows), windows))
}

/// Whether a path begins with two separators on Windows: a network or verbatim path,
/// whose prefix this model does not read.
pub open spec fn network_form(s: Seq<char>, windows: bool) -> bool {
    windows && s.len() >= 2 && is_separator(s[0], windows) && is_separator(s[1], windows)
}

/// Whether the components `p` begin with the components `b`.
pub open spec fn begins_with(p: Seq<Seq<char>>, b: Seq<Seq<char>>) -> bool {
    b.len() <= p.len() && p.take(b.len() as int) == b
}

/// Whether `path` lies under `base`: it begins with `base` (`Path::starts_with`), and
/// so does it with its `..` resolved lexically, so that no `..` leads out of `base`.
/// On Windows neither may be a network or verbatim path.
pub open spec fn lies_under(path: Seq<char>, base: Seq<char>, windows: bool) -> bool {
    &&& !network_form(path, windows)
    &&& !network_form(base, windows)
    &&& path_starts_with(path, base, windows)
    &&& begins_with(resolved_components(path, windows), components(base, windows))
}

/// `base` joined with `rel`, as `Path::join` does it: a `rel` with a drive prefix, or
/// on Unix with a root, replaces `base`; on Windows a `rel` with a root but no prefix
/// keeps only the prefix of `base`; otherwise the main separator is put between them
/// where `base` is not empty, does not end in a separator and is not a bare drive.
pub open spec fn join(base: Seq<char>, rel: Seq<char>, windows: bool) -> Seq<char> {
    if prefix_len(rel, windows) > 0 || (!windows && has_root(rel, windows)) {
        rel
    } else if has_root(rel, windows) {
        base.take(prefix_len(base, windows)) + rel
    } else if base.len() > 0 && !is_separator(base.last(), windows) && !(prefix_len(base, windows)
        > 0 && prefix_len(base, windows) == base.len()) {
        base.push(main_separator(windows)) + rel
    } else {
        base + rel
    }
}

// ---------------------------------------------------------------------------
// Executable counterparts

pub open spec fn chars_model(v: Seq<Vec<char>>) -> Seq<Seq<char>> {
    Seq::new(v.len(), |i: int| v[i]@)
}

/// `c` in ASCII upper case: `char::to_ascii_uppercase` of the standard library, which
/// maps `a` to `z` onto `A` to `Z` and leaves every other character as it is.
#[verifier::external_body]
fn to_ascii_upper(c: char) -> (r: char)
    ensures
        r == ascii_upper(c),
{
    c.to_ascii_uppercase()
}

fn is_sep(c: char, windows: bool) -> (r: bool)
    ensures
        r == is_separator(c, windows),
{
    c == '/' || (windows && c == '\\')
}

fn drive_prefix_len(s: &Vec<char>, windows: bool) -> (r: usize)
    ensures
        r == prefix_len(s@, windows),
{
    if windows && s.len() >= 2 && (('a' <= s[0] && s[0] <= 'z') || ('A' <= s[0] && s[0] <= 'Z'))
        && s[1] == ':' {
        2
    } else {
        0
    }
}

fn same_chars(a: &Vec<char>, b: &Vec<char>) -> (r: bool)
    ensures
        r == (a@ == b@),
{
    if a.len() != b.len() {
        return false;
    }
    let mut i: usize = 0;
    while i < a.len()
        invariant
            a.len() == b.len(),
            i <= a.len(),
            forall|j: int| 0 <= j < i ==> a@[j] == b@[j],
        decreases a.len() - i,
    {
        if a[i] != b[i] {
            return false;
        }
        i = i + 1;
    }
    assert(a@ =~= b@);
    true
}

fn push_segment(comps: &mut Vec<Vec<char>>, seg: Vec<char>)
    ensures
        chars_model(final(comps)@) == chars_model(old(comps)@) + segment_component(seg@),
{
    let ghost before = comps@;
    let is_dot = seg.len() == 1 && seg[0] == '.';
    proof {
        if seg.len() == 1 && seg@[0] == '.' {
            assert(seg@ =~= seq!['.']);
        }
    }
    if seg.len() > 0 && !is_dot {
        comps.push(seg);
        assert(chars_model(comps@) =~= chars_model(before) + segment_component(seg@));
    } else {
        assert(chars_model(comps@) =~= chars_model(before) + segment_component(seg@));
    }
}

/// Appends to `comps` the components of `s`, a path after its prefix.
fn push_body_components(comps: &mut Vec<Vec<char>>, s: &Vec<char>, windows: bool)
    ensures
        chars_model(final(comps)@) == chars_model(old(comps)@) + body_components(s@, windows),
{
    let ghost start = chars_model(comps@);
    if s.len() > 0 && is_sep(s[0], windows) {
        let mut root: Vec<char> = Vec::new();
        root.push('/');
        comps.push(root);
    } else if (s.len() == 1 && s[0] == '.') || (s.len() >= 2 && s[0] == '.' && is_sep(s[1], windows)) {
        let mut dot: Vec<char> = Vec::new();
        dot.push('.');
        comps.push(dot);
    }
    proof {
        if s.len() == 1 && s@[0] == '.' {
            assert(s@ =~= seq!['.']);
        }
        assert(chars_model(comps@) =~= start + head_component(s@, windows));
        assert(closed_components(s@.take(0), windows) =~= seq![]);
        assert(open_segment(s@.take(0), windows) =~= seq![]);
    }
    let mut cur: Vec<char> = Vec::new();
    let mut i: usize = 0;
    while i < s.len()
        invariant
            i <= s.len(),
            chars_model(comps@) == start + head_component(s@, windows) + closed_components(
                s@.take(i as int),
                windows,
            ),
            cur@ == open_segment(s@.take(i as int), windows),
        decreases s.len() - i,
    {
        let ghost t = s@.take(i as int);
        proof {
            assert(s@.take(i + 1).drop_last() =~= t);
        }
        let c = s[i];
        if is_sep(c, windows) {
            let seg = cur;
            push_segment(comps, seg);
            cur = Vec::new();
            proof {
                assert(start + head_component(s@, windows) + closed_components(t, windows)
                    + segment_component(open_segment(t, windows)) =~= start + head_component(
                    s@,
                    windows,
                ) + (closed_components(t, windows) + segment_component(open_segment(t, windows))));
            }
        } else {
            cur.push(c);
        }
        i = i + 1;
    }
    push_segment(comps, cur);
    proof {
        assert(s@.take(s.len() as int) =~= s@);
        assert(chars_model(comps@) =~= start + body_components(s@, windows));
    }
}

fn copy_chars(v: &Vec<char>) -> (r: Vec<char>)
    ensures
        r@ == v@,
{
    let mut r: Vec<char> = Vec::new();
    let mut i: usize = 0;
    while i < v.len()
        invariant
            i <= v.len(),
            r@ == v@.take(i as int),
        decreases v.len() - i,
    {
        r.push(v[i]);
        assert(v@.take(i + 1) =~= v@.take(i as int).push(v@[i as int]));
        i = i + 1;
    }
    assert(v@.take(v.len() as int) =~= v@);
    r
}

/// The prefix component of `s` and the components after it.
fn split_components(s: &Vec<char>, windows: bool) -> (r: (Vec<Vec<char>>, Vec<Vec<char>>))
    ensures
        chars_model(r.0@) == prefix_component(s@, windows),
        chars_model(r.1@) == body_components(after_prefix(s@, windows), windows),
{
    let pl = drive_prefix_len(s, windows);
    let mut body: Vec<char> = Vec::new();
    let mut i: usize = pl;
    while i < s.len()
        invariant
            pl == prefix_len(s@, windows),
            pl <= i <= s.len(),
            body@ == s@.subrange(pl as int, i as int),
        decreases s.len() - i,
    {
        body.push(s[i]);
        assert(s@.subrange(pl as int, i + 1) =~= s@.subrange(pl as int, i as int).push(s@[i as int]));
        i = i + 1;
    }
    let mut prefix: Vec<Vec<char>> = Vec::new();
    if pl == 2 {
        let mut drive: Vec<char> = Vec::new();
        drive.push(to_ascii_upper(s[0]));
        drive.push(':');
        assert(drive@ =~= seq![ascii_upper(s@[0]), ':']);
        prefix.push(drive);
    }
    proof {
        assert(body@ =~= after_prefix(s@, windows));
        assert(chars_model(prefix@) =~~= prefix_component(s@, windows));
    }
    let mut rest: Vec<Vec<char>> = Vec::new();
    push_body_components(&mut rest, &body, windows);
    assert(chars_model(rest@) =~= body_components(after_prefix(s@, windows), windows));
    (prefix, rest)
}

/// The components of the path `s`.
pub fn path_components(s: &Vec<char>, windows: bool) -> (r: Vec<Vec<char>>)
    ensures
        chars_model(r@) == components(s@, windows),
{
    let (mut comps, mut rest) = split_components(s, windows);
    let ghost a = comps@;
    let ghost b = rest@;
    comps.append(&mut rest);
    assert(chars_model(comps@) =~= chars_model(a) + chars_model(b));
    comps
}

fn is_component(v: &Vec<char>, c: char) -> (r: bool)
    ensures
        r == (v@ == seq![c]),
{
    let r = v.len() == 1 && v[0] == c;
    proof {
        if r {
            assert(v@ =~= seq![c]);
        }
    }
    r
}

fn is_parent(v: &Vec<char>) -> (r: bool)
    ensures
        r == (v@ == parent_dir()),
{
    let r = v.len() == 2 && v[0] == '.' && v[1] == '.';
    proof {
        if r {
            assert(v@ =~= parent_dir());
        }
        if v@ == parent_dir() {
            assert(v@[0] == '.' && v@[1] == '.');
        }
    }
    r
}

proof fn lemma_chars_model_push(v: Seq<Vec<char>>, x: Vec<char>)
    ensures
        chars_model(v.push(x)) == chars_model(v).push(x@),
        v.len() > 0 ==> chars_model(v.drop_last()) == chars_model(v).drop_last(),
{
    assert(chars_model(v.push(x)) =~= chars_model(v).push(x@));
    if v.len() > 0 {
        assert(chars_model(v.drop_last()) =~= chars_model(v).drop_last());
    }
}

/// The components of the path `s` with its `..` resolved lexically.
pub fn resolved_path_components(s: &Vec<char>, windows: bool) -> (r: Vec<Vec<char>>)
    ensures
        chars_model(r@) == resolved_components(s@, windows),
{
    let (mut out, rest) = split_components(s, windows);
    let ghost pre = chars_model(out@);
    let ghost body = chars_model(rest@);
    let start = out.len();
    assert(resolve(body.take(0)) =~= Seq::<Seq<char>>::empty());
    assert(chars_model(out@) =~= pre + resolve(body.take(0)));
    let mut i: usize = 0;
    while i < rest.len()
        invariant
            i <= rest.len(),
            start == pre.len(),
            body == chars_model(rest@),
            start <= out.len(),
            chars_model(out@) == pre + resolve(body.take(i as int)),
        decreases rest.len() - i,
    {
        let ghost done = resolve(body.take(i as int));
        proof {
            assert(body.take(i + 1).drop_last() =~= body.take(i as int));
            assert(body.take(i + 1).last() == rest@[i as int]@);
            assert(resolve(body.take(i + 1)) == resolve_step(done, rest@[i as int]@));
        }
        let c = &rest[i];
        let ghost before = out@;
        proof {
            lemma_chars_model_push(before, rest@[i as int]);
        }
        if is_parent(c) && out.len() > start {
            let last = out.len() - 1;
            assert(done.len() == out.len() - start);
            assert(chars_model(out@)[last as int] == done.last());
            let top_root = is_component(&out[last], '/');
            let top_dot = is_component(&out[last], '.');
            let top_parent = is_parent(&out[last]);
            if !top_root && !top_dot && !top_parent {
                out.pop();
                assert(chars_model(out@) =~= pre + done.drop_last());
            } else if top_root {
            } else {
                out.push(copy_chars(c));
                assert(chars_model(out@) =~= pre + done.push(rest@[i as int]@));
            }
        } else {
            out.push(copy_chars(c));
            assert(chars_model(out@) =~= pre + done.push(rest@[i as int]@));
        }
        i = i + 1;
    }
    assert(body.take(rest.len() as int) =~= body);
    out
}

fn components_begin_with(p: &Vec<Vec<char>>, b: &Vec<Vec<char>>) -> (r: bool)
    ensures
        r == (b@.len() <= p@.len() && chars_model(p@).take(b@.len() as int) == chars_model(b@)),
{
    if b.len() > p.len() {
        return false;
    }
    let mut i: usize = 0;
    while i < b.len()
        invariant
            b.len() <= p.len(),
            i <= b.len(),
            forall|j: int| 0 <= j < i ==> p@[j]@ == b@[j]@,
        decreases b.len() - i,
    {
        if !same_chars(&p[i], &b[i]) {
            assert(chars_model(p@).take(b.len() as int)[i as int] == p@[i as int]@);
            assert(chars_model(b@)[i as int] == b@[i as int]@);
            return false;
        }
        i = i + 1;
    }
    assert(chars_model(p@).take(b.len() as int) =~= chars_model(b@));
    true
}

/// Whether the path `path` begins with the path `base` (`Path::starts_with`).
pub fn is_under(path: &str, base: &str, windows: bool) -> (r: bool)
    ensures
        r == path_starts_with(path@, base@, windows),
{
    let p = path_components(&chars_of(path), windows);
    let b = path_components(&chars_of(base), windows);
    components_begin_with(&p, &b)
}

/// Whether a path begins with two separators on Windows.
fn is_network_form(s: &Vec<char>, windows: bool) -> (r: bool)
    ensures
        r == network_form(s@, windows),
{
    windows && s.len() >= 2 && is_sep(s[0], windows) && is_sep(s[1], windows)
}

/// Whether the path `path` lies under the path `base`: it begins with `base`, and so
/// does it with its `..` resolved lexically; on Windows neither is a network path.
pub fn lies_inside(path: &str, base: &str, windows: bool) -> (r: bool)
    ensures
        r == lies_under(path@, base@, windows),
{
    let ps = chars_of(path);
    let bs = chars_of(base);
    if is_network_form(&ps, windows) || is_network_form(&bs, windows) {
        return false;
    }
    let p = path_components(&ps, windows);
    let b = path_components(&bs, windows);
    let resolved = resolved_path_components(&ps, windows);
    components_begin_with(&p, &b) && components_begin_with(&resolved, &b)
}

/// `base` joined with `rel` (`Path::join`).
pub fn join_paths(base: &str, rel: &str, windows: bool) -> (r: String)
    ensures
        r@ == join(base@, rel@, windows),
{
    let bs = chars_of(base);
    let rs = chars_of(rel);
    let rel_prefix = drive_prefix_len(&rs, windows);
    let base_prefix = drive_prefix_len(&bs, windows);
    let rel_root = rs.len() > rel_prefix && is_sep(rs[rel_prefix], windows);
    proof {
        assert(rel_root == has_root(rel@, windows));
    }
    if rel_prefix > 0 || (!windows && rel_root) {
        String::from_str(rel)
    } else if rel_root {
        let mut kept: Vec<char> = Vec::new();
        let mut i: usize = 0;
        while i < base_prefix
            invariant
                base_prefix == prefix_len(bs@, windows),
                base_prefix <= bs.len(),
                i <= base_prefix,
                kept@ == bs@.take(i as int),
            decreases base_prefix - i,
        {
            kept.push(bs[i]);
            assert(bs@.take(i + 1) =~= bs@.take(i as int).push(bs@[i as int]));
            i = i + 1;
        }
        let mut r = string_from_chars(&kept);
        r.append(rel);
        r
    } else if bs.len() > 0 && !is_sep(bs[bs.len() - 1], windows) && !(base_prefix > 0
        && base_prefix == bs.len()) {
        let mut r = String::from_str(base);
        push_char(&mut r, if windows { '\\' } else { '/' });
        r.append(rel);
        r
    } else {
        concat(base, rel)
    }
}

/// The directory that holds the configuration backups, inside the panel's directory.
pub fn backups_dir(openclaw_dir: &str, windows: bool) -> (r: String)
    ensures
        r@ == join(openclaw_dir@, "backups"@, windows),
{
    join_paths(openclaw_dir, "backups", windows)
}

// ---------------------------------------------------------------------------
// Environment files

/// The file that an environment file at `path` is written to: a path that begins with
/// `~/` is taken relative to the home directory.
pub open spec fn expanded_path(path: Seq<char>, home: Seq<char>, windows: bool) -> Seq<char> {
    if starts_with(path, seq!['~', '/']) {
        join(home, path.skip(2), windows)
    } else {
        path
    }
}

/// The refusal of a path outside the panel's directory.
pub open spec fn outside_panel_dir_message() -> Seq<char> {
    "只允许写入 ~/.openclaw/ 目录下的文件"@
}

/// Where an environment file may be written: the expanded path where it lies under the
/// panel's directory `base` (it begins with `base`, and no `..` leads out of it; on
/// Windows network and verbatim paths are refused), the refusal otherwise. `windows`
/// selects the path rules of Windows.
pub fn env_file_target(path: &str, home: &str, base: &str, windows: bool) -> (r: Result<String, String>)
    ensures
        match r {
            Ok(p) => p@ == expanded_path(path@, home@, windows) && lies_under(p@, base@, windows),
            Err(e) => !lies_under(expanded_path(path@, home@, windows), base@, windows)
                && e@ == outside_panel_dir_message(),
        },
{
    let expanded = if has_prefix(path, "~/") {
        let cs = chars_of(path);
        proof {
            reveal_strlit("~/");
            assert("~/"@ =~= seq!['~', '/']);
            assert(cs@.subrange(2, 2) =~= Seq::<char>::empty());
        }
        let mut rest: Vec<char> = Vec::new();
        let mut i: usize = 2;
        while i < cs.len()
            invariant
                2 <= i <= cs.len(),
                cs@ == path@,
                rest@ == cs@.subrange(2, i as int),
            decreases cs.len() - i,
        {
            rest.push(cs[i]);
            assert(cs@.subrange(2, i + 1) =~= cs@.subrange(2, i as int).push(cs@[i as int]));
            i = i + 1;
        }
        let rest = string_from_chars(&rest);
        proof {
            reveal_strlit("~/");
            assert("~/"@ =~= seq!['~', '/']);
            assert(rest@ =~= path@.skip(2));
        }
        join_paths(home, rest.as_str(), windows)
    } else {
        proof {
            reveal_strlit("~/");
            assert("~/"@ =~= seq!['~', '/']);
        }
        String::from_str(path)
    };
    if lies_inside(expanded.as_str(), base, windows) {
        Ok(expanded)
    } else {
        Err(String::from_str("只允许写入 ~/.openclaw/ 目录下的文件"))
    }
}

} // verus!

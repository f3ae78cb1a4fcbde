//! The rules of the note vault: paths, file names, wikilinks and image assets.
use vstd::prelude::*;

use crate::paths;
use crate::search::IndexOp;
use crate::text;
use crate::text::{
    ascii_alnum, char_is_whitespace, char_to_lowercase, chars_of, owned, push_str, str_eq,
    str_to_lowercase, string_of,
};

verus! {

// ---------------------------------------------------------------------------
// Paths inside the vault. Paths are `/`-separated strings, as on Unix.
// ---------------------------------------------------------------------------

/// A `..` component starts at `i`.
pub open spec fn parent_dir_at(p: Seq<char>, i: int) -> bool {
    &&& 0 <= i
    &&& i + 2 <= p.len()
    &&& p[i] == '.'
    &&& p[i + 1] == '.'
    &&& (i == 0 || p[i - 1] == '/')
    &&& (i + 2 == p.len() || p[i + 2] == '/')
}

/// The path has a `..` component.
pub open spec fn has_parent_dir(p: Seq<char>) -> bool {
    exists|i: int| parent_dir_at(p, i)
}

pub open spec fn invalid_path_message() -> Seq<char> {
    seq!['I', 'n', 'v', 'a', 'l', 'i', 'd', ' ', 'p', 'a', 't', 'h']
}

/// A string holding the characters of a literal whose content is given.
fn literal(s: &str, Ghost(content): Ghost<Seq<char>>) -> (r: String)
    requires
        s@ == content,
    ensures
        r@ == content,
{
    let cs = chars_of(s);
    string_of(&cs)
}

/// Resolves a path relative to the vault directory. Absolute paths and paths with a `..`
/// component are refused; a resolved path lies under the vault directory.
pub fn resolve_path(vault_dir: &str, rel_path: &str) -> (r: Result<String, String>)
    ensures
        r is Err <==> paths::is_absolute(rel_path@) || has_parent_dir(rel_path@),
        r matches Ok(p) ==> p@ == paths::join_path(vault_dir@, rel_path@),
        r matches Ok(p) ==> paths::strip_prefix(p@, vault_dir@) is Some,
        r matches Err(e) ==> e@ == invalid_path_message(),
{
    proof {
        paths::lemma_join_under_base(vault_dir@, rel_path@);
    }
    let rel = chars_of(rel_path);
    proof {
        reveal_strlit("Invalid path");
        assert("Invalid path"@ =~= invalid_path_message());
    }
    if rel.len() > 0 && rel[0] == '/' {
        return Err(literal("Invalid path", Ghost(invalid_path_message())));
    }
    let mut i: usize = 0;
    while i < rel.len()
        invariant
            i <= rel.len(),
            rel@ == rel_path@,
            "Invalid path"@ == invalid_path_message(),
            forall|k: int| 0 <= k < i ==> !parent_dir_at(rel@, k),
        decreases rel.len() - i,
    {
        if rel[i] == '.' && rel.len() - i >= 2 && rel[i + 1] == '.' && (i == 0 || rel[i - 1]
            == '/') && (rel.len() - i == 2 || rel[i + 2] == '/') {
            assert(parent_dir_at(rel@, i as int));
            return Err(literal("Invalid path", Ghost(invalid_path_message())));
        }
        i = i + 1;
    }
    assert(!has_parent_dir(rel_path@)) by {
        if has_parent_dir(rel_path@) {
            let k = choose|k: int| parent_dir_at(rel_path@, k);
            assert(k < rel.len());
        }
    }
    Ok(paths::join(vault_dir, rel_path))
}

// ---------------------------------------------------------------------------
// Note file names.
// ---------------------------------------------------------------------------

/// Characters that may not appear in a file name.
pub open spec fn illegal_name_char(c: char) -> bool {
    c == '/' || c == '\\' || c == ':' || c == '*' || c == '?' || c == '"' || c == '<' || c == '>'
        || c == '|'
}

fn is_illegal_name_char(c: char) -> (r: bool)
    ensures
        r == illegal_name_char(c),
{
    c == '/' || c == '\\' || c == ':' || c == '*' || c == '?' || c == '"' || c == '<' || c == '>'
        || c == '|'
}

/// One character of a note name: `(output, last pushed was a space, last pushed was a dash)`.
/// Illegal characters are dropped; runs of dashes collapse to one dash; runs of white space
/// and underscores collapse to one space unless a dash precedes; ASCII letters and digits are
/// kept; all else is dropped. Nothing but a letter or digit can begin the output.
pub open spec fn name_step(st: (Seq<char>, bool, bool), ch: char) -> (Seq<char>, bool, bool) {
    let (out, prev_space, prev_dash) = st;
    if illegal_name_char(ch) {
        st
    } else if ch == '-' {
        if !prev_dash && out.len() > 0 {
            (out.push('-'), false, true)
        } else {
            st
        }
    } else if text::is_ascii_alnum(ch) {
        (out.push(ch), false, false)
    } else if text::is_white_space(ch) || ch == '_' {
        if !prev_space && !prev_dash && out.len() > 0 {
            (out.push(' '), true, prev_dash)
        } else {
            st
        }
    } else {
        st
    }
}

/// The note-name scan over all of `s`.
pub open spec fn name_scan(s: Seq<char>) -> (Seq<char>, bool, bool)
    decreases s.len(),
{
    if s.len() == 0 {
        (seq![], false, false)
    } else {
        name_step(name_scan(s.drop_last()), s.last())
    }
}

pub open spec fn md_suffix() -> Seq<char> {
    seq!['.', 'm', 'd']
}

/// `s` less one trailing `.md`.
pub open spec fn strip_md(s: Seq<char>) -> Seq<char> {
    if s.len() >= 3 && s.subrange(s.len() - 3, s.len() as int) == md_suffix() {
        s.subrange(0, s.len() - 3)
    } else {
        s
    }
}

/// Dashes and spaces, trimmed from both ends of a note name.
pub open spec fn dash_or_space() -> spec_fn(char) -> bool {
    |c: char| c == '-' || c == ' '
}

pub open spec fn untitled() -> Seq<char> {
    seq!['u', 'n', 't', 'i', 't', 'l', 'e', 'd']
}

/// The file-name stem that a note title becomes.
pub open spec fn sanitized_name(name: Seq<char>) -> Seq<char> {
    let body = text::trim_by(name_scan(strip_md(text::trim(name))).0, dash_or_space());
    if body.len() == 0 {
        untitled()
    } else {
        body
    }
}

/// A clean note name: non-empty, made of ASCII letters and digits, spaces and dashes, begins
/// and ends with a letter or digit, and has no dash or space after a dash and no two spaces
/// in a row.
pub open spec fn clean_name(y: Seq<char>) -> bool {
    &&& y.len() > 0
    &&& text::is_ascii_alnum(y[0])
    &&& text::is_ascii_alnum(y.last())
    &&& forall|k: int|
        0 <= k < y.len() ==> text::is_ascii_alnum(#[trigger] y[k]) || y[k] == ' ' || y[k] == '-'
    &&& forall|k: int|
        0 <= k < y.len() - 1 && #[trigger] y[k] == '-' ==> y[k + 1] != '-' && y[k + 1] != ' '
    &&& forall|k: int| 0 <= k < y.len() - 1 && #[trigger] y[k] == ' ' ==> y[k + 1] != ' '
}

/// What the scan keeps: the output has only letters, digits, spaces and dashes, begins with a
/// letter or digit, has no bad pair, and the flags describe its last character.
pub open spec fn scan_shape(st: (Seq<char>, bool, bool)) -> bool {
    let (o, ps, pd) = st;
    &&& o.len() > 0 ==> text::is_ascii_alnum(o[0])
    &&& forall|k: int|
        0 <= k < o.len() ==> text::is_ascii_alnum(#[trigger] o[k]) || o[k] == ' ' || o[k] == '-'
    &&& forall|k: int|
        0 <= k < o.len() - 1 && #[trigger] o[k] == '-' ==> o[k + 1] != '-' && o[k + 1] != ' '
    &&& forall|k: int| 0 <= k < o.len() - 1 && #[trigger] o[k] == ' ' ==> o[k + 1] != ' '
    &&& ps == (o.len() > 0 && o.last() == ' ')
    &&& pd == (o.len() > 0 && o.last() == '-')
}

proof fn lemma_name_scan_shape(s: Seq<char>)
    ensures
        scan_shape(name_scan(s)),
    decreases s.len(),
{
    if s.len() > 0 {
        lemma_name_scan_shape(s.drop_last());
        let st = name_scan(s.drop_last());
        let n = name_step(st, s.last());
        let o = n.0;
        assert forall|k: int| 0 <= k < o.len() - 1 && #[trigger] o[k] == '-' implies o[k + 1]
            != '-' && o[k + 1] != ' ' by {
            if k < st.0.len() - 1 {
                assert(o[k] == st.0[k] && o[k + 1] == st.0[k + 1]);
            }
        }
        assert forall|k: int| 0 <= k < o.len() - 1 && #[trigger] o[k] == ' ' implies o[k + 1]
            != ' ' by {
            if k < st.0.len() - 1 {
                assert(o[k] == st.0[k] && o[k + 1] == st.0[k + 1]);
            }
        }
        assert forall|k: int| 0 <= k < o.len() implies text::is_ascii_alnum(#[trigger] o[k])
            || o[k] == ' ' || o[k] == '-' by {
            if k < st.0.len() {
                assert(o[k] == st.0[k]);
            }
        }
    }
}

/// Trimming dashes and spaces off a scan output leaves a clean name or nothing.
proof fn lemma_trimmed_clean(o: Seq<char>, ps: bool, pd: bool)
    requires
        scan_shape((o, ps, pd)),
    ensures
        text::trim_by(o, dash_or_space()).len() > 0 ==> clean_name(text::trim_by(o, dash_or_space())),
{
    let p = dash_or_space();
    text::lemma_first_from(o, 0, |c: char| !p(c));
    let a = text::leading_count(o, p);
    if o.len() > 0 {
        assert(!p(o[0]));
    }
    assert(a == 0);
    text::lemma_trailing_end(o, a, o.len() as int, p);
    let e = text::trailing_end(o, a, o.len() as int, p);
    let y = text::trim_by(o, p);
    assert(y =~= o.subrange(0, e));
    if y.len() > 0 {
        assert(y[0] == o[0]);
        assert(y.last() == o[e - 1]);
        assert(!p(o[e - 1]));
        assert forall|k: int| 0 <= k < y.len() - 1 && #[trigger] y[k] == '-' implies y[k + 1]
            != '-' && y[k + 1] != ' ' by {
            assert(y[k] == o[k] && y[k + 1] == o[k + 1]);
        }
        assert forall|k: int| 0 <= k < y.len() - 1 && #[trigger] y[k] == ' ' implies y[k + 1]
            != ' ' by {
            assert(y[k] == o[k] && y[k + 1] == o[k + 1]);
        }
        assert forall|k: int| 0 <= k < y.len() implies text::is_ascii_alnum(#[trigger] y[k])
            || y[k] == ' ' || y[k] == '-' by {
            assert(y[k] == o[k]);
        }
    }
}

/// Scanning a clean name gives it back, with flags for its last character.
proof fn lemma_scan_clean_prefix(y: Seq<char>, k: int)
    requires
        clean_name(y),
        0 <= k <= y.len(),
    ensures
        name_scan(y.take(k)) == (y.take(k), k > 0 && y[k - 1] == ' ', k > 0 && y[k - 1] == '-'),
    decreases k,
{
    if k > 0 {
        lemma_scan_clean_prefix(y, k - 1);
        assert(y.take(k).drop_last() =~= y.take(k - 1));
        assert(y.take(k).last() == y[k - 1]);
        let ch = y[k - 1];
        assert(text::is_ascii_alnum(ch) || ch == ' ' || ch == '-');
        if k - 1 == 0 {
            assert(text::is_ascii_alnum(ch));
        } else {
            let prev = y[k - 2];
            if ch == '-' {
                assert(prev != '-');
            }
            if ch == ' ' {
                assert(prev != ' ');
                assert(prev != '-');
            }
        }
        assert(y.take(k - 1).push(ch) =~= y.take(k));
    }
}

/// A clean name is its own sanitized form.
proof fn lemma_clean_name_fixed(y: Seq<char>)
    requires
        clean_name(y),
    ensures
        sanitized_name(y) == y,
{
    let ws = text::white_space();
    text::lemma_first_from(y, 0, |c: char| !ws(c));
    assert(!ws(y[0]));
    let a = text::leading_count(y, ws);
    assert(a == 0);
    assert(!ws(y[y.len() - 1]));
    assert(text::trailing_end(y, 0, y.len() as int, ws) == y.len());
    assert(text::trim(y) =~= y);
    if y.len() >= 3 && y.subrange(y.len() - 3, y.len() as int) == md_suffix() {
        assert(y.subrange(y.len() - 3, y.len() as int)[0] == y[y.len() - 3]);
    }
    assert(strip_md(y) == y);
    lemma_scan_clean_prefix(y, y.len() as int);
    assert(y.take(y.len() as int) =~= y);
    let p = dash_or_space();
    text::lemma_first_from(y, 0, |c: char| !p(c));
    assert(!p(y[0]));
    assert(!p(y[y.len() - 1]));
    assert(text::trailing_end(y, 0, y.len() as int, p) == y.len());
    assert(text::trim_by(y, p) =~= y);
}

proof fn lemma_untitled_clean()
    ensures
        clean_name(untitled()),
{
    let u = untitled();
    assert forall|k: int| 0 <= k < u.len() implies text::is_ascii_alnum(#[trigger] u[k]) by {}
}

/// The sanitized form of any title is a clean name.
pub proof fn lemma_sanitized_is_clean(name: Seq<char>)
    ensures
        clean_name(sanitized_name(name)),
{
    let st = name_scan(strip_md(text::trim(name)));
    lemma_name_scan_shape(strip_md(text::trim(name)));
    lemma_trimmed_clean(st.0, st.1, st.2);
    lemma_untitled_clean();
}

/// A character a note name drops without a trace: not an ASCII letter or digit, not `-`,
/// `_` or white space (an apostrophe, `.`, `é`, an illegal character, ...).
pub open spec fn dropped_title_char(c: char) -> bool {
    !text::is_ascii_alnum(c) && c != '-' && c != '_' && !text::is_white_space(c)
}

/// The note-name scan continued from state `st` over `t`.
pub open spec fn scan_from(st: (Seq<char>, bool, bool), t: Seq<char>) -> (Seq<char>, bool, bool)
    decreases t.len(),
{
    if t.len() == 0 {
        st
    } else {
        name_step(scan_from(st, t.drop_last()), t.last())
    }
}

/// The scanned name of `t`, dashes and spaces trimmed from both ends.
pub open spec fn scanned(t: Seq<char>) -> Seq<char> {
    text::trim_by(name_scan(t).0, dash_or_space())
}

proof fn lemma_scan_concat(u: Seq<char>, t: Seq<char>)
    ensures
        name_scan(u + t) == scan_from(name_scan(u), t),
    decreases t.len(),
{
    if t.len() == 0 {
        assert(u + t =~= u);
    } else {
        lemma_scan_concat(u, t.drop_last());
        assert((u + t).drop_last() =~= u + t.drop_last());
        assert((u + t).last() == t.last());
    }
}

proof fn lemma_scan_from_dropped(st: (Seq<char>, bool, bool), c: char, v: Seq<char>)
    requires
        dropped_title_char(c),
    ensures
        scan_from(st, seq![c] + v) == scan_from(st, v),
    decreases v.len(),
{
    if v.len() == 0 {
        let one = seq![c];
        assert(seq![c] + v =~= one);
        assert(one.drop_last() =~= Seq::<char>::empty());
        assert(scan_from(st, one.drop_last()) == st);
        assert(one.last() == c);
        assert(name_step(st, c) == st);
        assert(scan_from(st, one) == name_step(scan_from(st, one.drop_last()), one.last()));
        assert(scan_from(st, v) == st);
    } else {
        lemma_scan_from_dropped(st, c, v.drop_last());
        assert((seq![c] + v).drop_last() =~= seq![c] + v.drop_last());
        assert((seq![c] + v).last() == v.last());
    }
}

/// A dropped character leaves the scan as it is.
proof fn lemma_scan_dropped(u: Seq<char>, c: char, v: Seq<char>)
    requires
        dropped_title_char(c),
    ensures
        name_scan(u + seq![c] + v) == name_scan(u + v),
{
    assert(u + seq![c] + v =~= u + (seq![c] + v));
    lemma_scan_concat(u, seq![c] + v);
    lemma_scan_from_dropped(name_scan(u), c, v);
    lemma_scan_concat(u, v);
}

/// Leading white space leaves the scan as it is.
proof fn lemma_scan_white_prefix(w: Seq<char>, t: Seq<char>)
    requires
        forall|k: int| 0 <= k < w.len() ==> text::is_white_space(#[trigger] w[k]),
    ensures
        name_scan(w + t) == name_scan(t),
    decreases w.len(),
{
    lemma_scan_white_state(w);
    lemma_scan_concat(w, t);
    lemma_scan_concat(Seq::<char>::empty(), t);
    assert(Seq::<char>::empty() + t =~= t);
}

proof fn lemma_scan_white_state(w: Seq<char>)
    requires
        forall|k: int| 0 <= k < w.len() ==> text::is_white_space(#[trigger] w[k]),
    ensures
        name_scan(w) == (Seq::<char>::empty(), false, false),
    decreases w.len(),
{
    if w.len() > 0 {
        assert forall|k: int| 0 <= k < w.drop_last().len() implies text::is_white_space(
            #[trigger] w.drop_last()[k],
        ) by {
            assert(w.drop_last()[k] == w[k]);
        }
        lemma_scan_white_state(w.drop_last());
        assert(text::is_white_space(w[w.len() - 1]));
        assert(!text::is_ascii_alnum(w.last()));
    }
}

proof fn lemma_scan_from_white(st: (Seq<char>, bool, bool), w: Seq<char>)
    requires
        forall|k: int| 0 <= k < w.len() ==> text::is_white_space(#[trigger] w[k]),
    ensures
        scan_from(st, w) == st || scan_from(st, w) == (st.0.push(' '), true, st.2),
    decreases w.len(),
{
    if w.len() > 0 {
        assert forall|k: int| 0 <= k < w.drop_last().len() implies text::is_white_space(
            #[trigger] w.drop_last()[k],
        ) by {
            assert(w.drop_last()[k] == w[k]);
        }
        lemma_scan_from_white(st, w.drop_last());
        assert(text::is_white_space(w[w.len() - 1]));
        assert(!text::is_ascii_alnum(w.last()));
    }
}

proof fn lemma_trim_push_space(o: Seq<char>)
    ensures
        text::trim_by(o.push(' '), dash_or_space()) == text::trim_by(o, dash_or_space()),
{
    let p = dash_or_space();
    let op = o.push(' ');
    let nq = |c: char| !p(c);
    text::lemma_first_from(o, 0, nq);
    text::lemma_first_from_prefix(o, seq![' '], 0, nq);
    assert(op =~= o + seq![' ']);
    let a = text::first_from(o, 0, nq);
    if a >= o.len() {
        assert(!nq(op[o.len() as int]));
        text::lemma_first_from_at(op, o.len() as int, nq, op.len() as int);
        assert(text::trim_by(op, p).len() == 0);
        assert(text::trim_by(o, p).len() == 0);
    } else {
        text::lemma_trailing_end(o, a, o.len() as int, p);
        let e = text::trailing_end(o, a, o.len() as int, p);
        text::lemma_trailing_end_at(op, a, op.len() as int, p, e);
        assert(text::trim_by(op, p) =~= text::trim_by(o, p));
    }
}

/// Trailing white space leaves the scanned name as it is.
proof fn lemma_scanned_white_suffix(t: Seq<char>, w: Seq<char>)
    requires
        forall|k: int| 0 <= k < w.len() ==> text::is_white_space(#[trigger] w[k]),
    ensures
        scanned(t + w) == scanned(t),
{
    lemma_scan_concat(t, w);
    lemma_scan_from_white(name_scan(t), w);
    lemma_trim_push_space(name_scan(t).0);
}

/// The scanned name of a text is that of the text trimmed.
proof fn lemma_scanned_trim(s: Seq<char>)
    ensures
        scanned(s) == scanned(text::trim(s)),
{
    let ws = text::white_space();
    let nw = |c: char| !ws(c);
    text::lemma_first_from(s, 0, nw);
    let a = text::first_from(s, 0, nw);
    text::lemma_trailing_end(s, a, s.len() as int, ws);
    let e = text::trailing_end(s, a, s.len() as int, ws);
    let w1 = s.subrange(0, a);
    let m = s.subrange(a, e);
    let w2 = s.subrange(e, s.len() as int);
    assert(s =~= w1 + m + w2);
    assert(m == text::trim(s));
    assert forall|k: int| 0 <= k < w1.len() implies text::is_white_space(#[trigger] w1[k]) by {
        assert(!nw(s[k]));
    }
    assert forall|k: int| 0 <= k < w2.len() implies text::is_white_space(#[trigger] w2[k]) by {
        assert(ws(s[e + k]));
    }
    assert(w1 + m + w2 =~= w1 + (m + w2));
    lemma_scan_white_prefix(w1, m + w2);
    lemma_scanned_white_suffix(m, w2);
}

/// A character that is not an ASCII letter or digit, `-`, `_` or white space (an apostrophe,
/// a dot, an accented letter, an illegal character) is dropped without a trace: removing it
/// from a title does not change the title's file name, so `Bob's ideas` and `Bobs ideas` name
/// the same note. The one exception is where removing it makes or unmakes the `.md` suffix
/// that is stripped (`a.m'd` against `a.md`), which `requires` leaves out.
pub proof fn lemma_dropped_char_leaves_no_trace(a: Seq<char>, c: char, b: Seq<char>)
    requires
        dropped_title_char(c),
        paths::ends_with(text::trim(a + seq![c] + b), md_suffix()) == paths::ends_with(
            text::trim(a + b),
            md_suffix(),
        ),
    ensures
        sanitized_name(a + seq![c] + b) == sanitized_name(a + b),
{
    let x = a + seq![c] + b;
    let y = a + b;
    let tx = text::trim(x);
    let ty = text::trim(y);
    let md = md_suffix();
    if !paths::ends_with(tx, md) {
        assert(strip_md(tx) == tx);
        assert(strip_md(ty) == ty);
        lemma_scanned_trim(x);
        lemma_scanned_trim(y);
        lemma_scan_dropped(a, c, b);
        assert(scanned(strip_md(tx)) == scanned(strip_md(ty)));
    } else {
        let ws = text::white_space();
        let nw = |ch: char| !ws(ch);
        let n = x.len() as int;
        let p = a.len() as int;
        text::lemma_first_from(x, 0, nw);
        let aa = text::first_from(x, 0, nw);
        text::lemma_trailing_end(x, aa, n, ws);
        let e = text::trailing_end(x, aa, n, ws);
        assert(x[p] == c);
        assert(!ws(c));
        if aa > p {
            assert(!nw(x[p]));
        }
        if e <= p {
            assert(ws(x[p]));
        }
        assert(tx == x.subrange(aa, e));
        assert(tx.subrange(tx.len() - 3, tx.len() as int) == md);
        assert(x[e - 3] == tx.subrange(tx.len() - 3, tx.len() as int)[0]);
        assert(x[e - 2] == tx.subrange(tx.len() - 3, tx.len() as int)[1]);
        assert(x[e - 1] == tx.subrange(tx.len() - 3, tx.len() as int)[2]);
        assert(x[e - 3] == '.' && x[e - 2] == 'm' && x[e - 1] == 'd');
        assert(p != e - 2 && p != e - 1);
        assert forall|k: int| 0 <= k < p implies #[trigger] y[k] == x[k] by {}
        assert forall|k: int| p <= k < y.len() implies #[trigger] y[k] == x[k + 1] by {}
        text::lemma_first_from(y, 0, nw);
        let ay = text::first_from(y, 0, nw);
        if aa < p {
            assert forall|k: int| 0 <= k < aa implies !nw(#[trigger] y[k]) by {
                assert(y[k] == x[k]);
            }
            assert(y[aa] == x[aa]);
            text::lemma_first_from_at(y, 0, nw, aa);
            assert(ay == aa);
        } else {
            if ay < p {
                assert(y[ay] == x[ay]);
            }
            assert(ay >= p);
        }
        let qx = x.subrange(aa, e - 3);
        assert(strip_md(tx) =~= qx);
        if p < e - 3 {
            assert(y[e - 4] == x[e - 3]);
            if ay > e - 4 {
                assert(!nw(y[e - 4]));
            }
            assert forall|k: int| e - 1 <= k < y.len() implies ws(#[trigger] y[k]) by {
                assert(y[k] == x[k + 1]);
            }
            assert(y[e - 2] == x[e - 1]);
            text::lemma_trailing_end_at(y, ay, y.len() as int, ws, e - 1);
            assert(ty == y.subrange(ay, e - 1));
            let qy = y.subrange(ay, e - 4);
            assert(strip_md(ty) =~= qy);
            let v = x.subrange(p + 1, e - 3);
            if aa < p {
                let u = x.subrange(aa, p);
                assert(qx =~= u + seq![c] + v);
                assert(qy =~= u + v);
                lemma_scan_dropped(u, c, v);
            } else {
                let w = y.subrange(p, ay);
                assert(qx =~= Seq::<char>::empty() + seq![c] + v);
                assert(v =~= w + qy);
                lemma_scan_dropped(Seq::<char>::empty(), c, v);
                assert(Seq::<char>::empty() + v =~= v);
                assert forall|k: int| 0 <= k < w.len() implies text::is_white_space(#[trigger] w[k]) by {
                    assert(!nw(y[p + k]));
                }
                lemma_scan_white_prefix(w, qy);
            }
        } else {
            assert(p == e - 3);
            assert(c == '.');
            assert forall|k: int| e - 1 <= k < y.len() implies ws(#[trigger] y[k]) by {
                assert(y[k] == x[k + 1]);
            }
            assert(y[e - 2] == x[e - 1]);
            if aa < p {
                text::lemma_trailing_end_at(y, ay, y.len() as int, ws, e - 1);
                assert(ty == y.subrange(aa, e - 1));
                assert(ty.len() >= 3);
                assert(y[e - 4] == ty.subrange(ty.len() - 3, ty.len() as int)[0]);
                assert(x[e - 4] == '.');
                let qy = x.subrange(aa, e - 4);
                assert(strip_md(ty) =~= qy);
                assert(qx =~= qy + seq!['.'] + Seq::<char>::empty());
                lemma_scan_dropped(qy, '.', Seq::<char>::empty());
                assert(qy + Seq::<char>::empty() =~= qy);
            } else {
                assert(y[p] == x[p + 1]);
                assert(nw(y[p]));
                text::lemma_first_from_at(y, 0, nw, p);
                text::lemma_trailing_end_at(y, p, y.len() as int, ws, e - 1);
                assert(ty.len() == 2);
                assert(false);
            }
        }
    }
}

proof fn lemma_scan_from_swap(st: (Seq<char>, bool, bool), c: char, d: char, v: Seq<char>)
    requires
        forall|s0: (Seq<char>, bool, bool)| #[trigger] name_step(s0, c) == name_step(s0, d),
    ensures
        scan_from(st, seq![c] + v) == scan_from(st, seq![d] + v),
    decreases v.len(),
{
    if v.len() == 0 {
        let one = seq![c];
        let two = seq![d];
        assert(seq![c] + v =~= one);
        assert(seq![d] + v =~= two);
        assert(one.drop_last() =~= Seq::<char>::empty());
        assert(two.drop_last() =~= Seq::<char>::empty());
        assert(scan_from(st, one) == name_step(scan_from(st, one.drop_last()), one.last()));
        assert(scan_from(st, two) == name_step(scan_from(st, two.drop_last()), two.last()));
        assert(name_step(st, c) == name_step(st, d));
    } else {
        lemma_scan_from_swap(st, c, d, v.drop_last());
        assert((seq![c] + v).drop_last() =~= seq![c] + v.drop_last());
        assert((seq![d] + v).drop_last() =~= seq![d] + v.drop_last());
        assert((seq![c] + v).last() == v.last());
        assert((seq![d] + v).last() == v.last());
    }
}

/// Two characters the scan treats alike give the same scan wherever they stand.
proof fn lemma_scan_swap(u: Seq<char>, c: char, d: char, v: Seq<char>)
    requires
        forall|s0: (Seq<char>, bool, bool)| #[trigger] name_step(s0, c) == name_step(s0, d),
    ensures
        name_scan(u + seq![c] + v) == name_scan(u + seq![d] + v),
{
    assert(u + seq![c] + v =~= u + (seq![c] + v));
    assert(u + seq![d] + v =~= u + (seq![d] + v));
    lemma_scan_concat(u, seq![c] + v);
    lemma_scan_concat(u, seq![d] + v);
    lemma_scan_from_swap(name_scan(u), c, d, v);
}

/// Every white-space character, tab and the other control spaces included, separates words
/// in a note name just as a space does: putting a space in place of one does not change the
/// file name.
pub proof fn lemma_white_space_separates(u: Seq<char>, c: char, v: Seq<char>)
    requires
        text::is_white_space(c),
    ensures
        sanitized_name(u + seq![c] + v) == sanitized_name(u + seq![' '] + v),
{
    let x = u + seq![c] + v;
    let y = u + seq![' '] + v;
    let p = u.len() as int;
    let n = x.len() as int;
    let ws = text::white_space();
    let nw = |ch: char| !ws(ch);
    assert forall|s0: (Seq<char>, bool, bool)| #[trigger] name_step(s0, c) == name_step(s0, ' ') by {
        assert(!text::is_ascii_alnum(c));
    }
    assert forall|k: int| 0 <= k < n implies ws(#[trigger] x[k]) == ws(y[k]) by {
        if k != p {
            assert(x[k] == y[k]);
        }
    }
    text::lemma_first_from(x, 0, nw);
    let a = text::first_from(x, 0, nw);
    assert forall|k: int| 0 <= k < a implies !nw(#[trigger] y[k]) by {
        assert(!nw(x[k]));
        assert(ws(x[k]) == ws(y[k]));
    }
    if a < n {
        assert(ws(x[a]) == ws(y[a]));
    }
    text::lemma_first_from_at(y, 0, nw, a);
    text::lemma_trailing_end(x, a, n, ws);
    let e = text::trailing_end(x, a, n, ws);
    assert forall|k: int| e <= k < n implies ws(#[trigger] y[k]) by {
        assert(ws(x[k]));
        assert(ws(x[k]) == ws(y[k]));
    }
    if e > a {
        assert(ws(x[e - 1]) == ws(y[e - 1]));
    }
    text::lemma_trailing_end_at(y, a, n, ws, e);
    let tx = text::trim(x);
    let ty = text::trim(y);
    assert(tx == x.subrange(a, e));
    assert(ty == y.subrange(a, e));
    let md = md_suffix();
    if e - a >= 3 {
        if e - 3 <= p < e {
            assert(tx.subrange(tx.len() - 3, tx.len() as int)[p - (e - 3)] == x[p]);
            assert(ty.subrange(ty.len() - 3, ty.len() as int)[p - (e - 3)] == y[p]);
            assert(!paths::ends_with(tx, md));
            assert(!paths::ends_with(ty, md));
        } else {
            assert(tx.subrange(tx.len() - 3, tx.len() as int) =~= ty.subrange(
                ty.len() - 3,
                ty.len() as int,
            ));
        }
    }
    let e2 = if paths::ends_with(tx, md) {
        e - 3
    } else {
        e
    };
    assert(paths::ends_with(tx, md) == paths::ends_with(ty, md));
    assert(strip_md(tx) =~= x.subrange(a, e2));
    assert(strip_md(ty) =~= y.subrange(a, e2));
    if a <= p < e2 {
        let w = x.subrange(a, p);
        let z = x.subrange(p + 1, e2);
        assert(x.subrange(a, e2) =~= w + seq![c] + z);
        assert(y.subrange(a, e2) =~= w + seq![' '] + z);
        lemma_scan_swap(w, c, ' ', z);
    } else {
        assert(x.subrange(a, e2) =~= y.subrange(a, e2));
    }
}

/// An underscore separates words in a note name just as a space does: putting a space in
/// place of one does not change the file name. The one exception is where the space is then
/// trimmed off and uncovers a `.md` suffix that is stripped (`a.md_` against `a.md `), which
/// `requires` leaves out.
pub proof fn lemma_underscore_separates(u: Seq<char>, v: Seq<char>)
    requires
        paths::ends_with(text::trim(u + seq!['_'] + v), md_suffix()) == paths::ends_with(
            text::trim(u + seq![' '] + v),
            md_suffix(),
        ),
    ensures
        sanitized_name(u + seq!['_'] + v) == sanitized_name(u + seq![' '] + v),
{
    let x = u + seq!['_'] + v;
    let y = u + seq![' '] + v;
    let p = u.len() as int;
    let n = x.len() as int;
    let ws = text::white_space();
    let nw = |ch: char| !ws(ch);
    let md = md_suffix();
    assert forall|s0: (Seq<char>, bool, bool)| #[trigger] name_step(s0, '_') == name_step(
        s0,
        ' ',
    ) by {}
    let tx = text::trim(x);
    let ty = text::trim(y);
    if !paths::ends_with(tx, md) {
        lemma_scanned_trim(x);
        lemma_scanned_trim(y);
        lemma_scan_swap(u, '_', ' ', v);
        assert(strip_md(tx) == tx);
        assert(strip_md(ty) == ty);
    } else {
        text::lemma_first_from(x, 0, nw);
        let a = text::first_from(x, 0, nw);
        text::lemma_trailing_end(x, a, n, ws);
        let e = text::trailing_end(x, a, n, ws);
        assert(x[p] == '_');
        if a > p {
            assert(!nw(x[p]));
        }
        if e <= p {
            assert(ws(x[p]));
        }
        assert(tx == x.subrange(a, e));
        assert(x[e - 3] == tx.subrange(tx.len() - 3, tx.len() as int)[0]);
        assert(x[e - 2] == tx.subrange(tx.len() - 3, tx.len() as int)[1]);
        assert(x[e - 1] == tx.subrange(tx.len() - 3, tx.len() as int)[2]);
        assert(p < e - 3);
        assert forall|k: int| 0 <= k < n && k != p implies #[trigger] y[k] == x[k] by {}
        assert(y[p] == ' ');
        text::lemma_first_from(y, 0, nw);
        let ay = text::first_from(y, 0, nw);
        if a < p {
            assert forall|k: int| 0 <= k < a implies !nw(#[trigger] y[k]) by {
                assert(y[k] == x[k]);
            }
            assert(y[a] == x[a]);
            text::lemma_first_from_at(y, 0, nw, a);
        } else {
            if ay <= p {
                if ay < p {
                    assert(y[ay] == x[ay]);
                }
                assert(!nw(y[ay]));
            }
            assert(y[e - 3] == x[e - 3]);
            if ay > e - 3 {
                assert(!nw(y[e - 3]));
            }
        }
        assert forall|k: int| e <= k < n implies ws(#[trigger] y[k]) by {
            assert(y[k] == x[k]);
        }
        assert(y[e - 1] == x[e - 1]);
        text::lemma_trailing_end_at(y, ay, n, ws, e);
        assert(ty == y.subrange(ay, e));
        assert(strip_md(tx) =~= x.subrange(a, e - 3));
        assert(ty.subrange(ty.len() - 3, ty.len() as int) =~= x.subrange(e - 3, e));
        assert(strip_md(ty) =~= y.subrange(ay, e - 3));
        let z = x.subrange(p + 1, e - 3);
        if a < p {
            let w = x.subrange(a, p);
            assert(x.subrange(a, e - 3) =~= w + seq!['_'] + z);
            assert(y.subrange(ay, e - 3) =~= w + seq![' '] + z);
            lemma_scan_swap(w, '_', ' ', z);
        } else {
            let qy = y.subrange(ay, e - 3);
            let g = y.subrange(p, ay);
            assert(x.subrange(a, e - 3) =~= Seq::<char>::empty() + seq!['_'] + z);
            lemma_scan_swap(Seq::<char>::empty(), '_', ' ', z);
            assert(Seq::<char>::empty() + seq![' '] + z =~= g + qy);
            assert forall|k: int| 0 <= k < g.len() implies text::is_white_space(#[trigger] g[k]) by {
                if k > 0 {
                    assert(!nw(y[p + k]));
                }
            }
            lemma_scan_white_prefix(g, qy);
        }
    }
}

/// A title and the same title with `.md` after it name the same note, unless the title
/// itself already ends in `.md` (only one suffix is stripped).
pub proof fn lemma_md_suffix_stripped(t: Seq<char>)
    requires
        !paths::ends_with(text::trim(t), md_suffix()),
    ensures
        sanitized_name(t + md_suffix()) == sanitized_name(t),
{
    let x = t + md_suffix();
    let n = x.len() as int;
    let m = t.len() as int;
    let ws = text::white_space();
    let nw = |ch: char| !ws(ch);
    assert(x[m] == '.' && x[m + 1] == 'm' && x[m + 2] == 'd');
    text::lemma_first_from(x, 0, nw);
    let a = text::first_from(x, 0, nw);
    if a > m {
        assert(!nw(x[m]));
    }
    text::lemma_trailing_end_at(x, a, n, ws, n);
    let tx = text::trim(x);
    assert(tx == x.subrange(a, n));
    assert(tx.subrange(tx.len() - 3, tx.len() as int) =~= md_suffix());
    assert(strip_md(tx) =~= t.subrange(a, m));
    lemma_scanned_trim(t);
    assert(strip_md(text::trim(t)) == text::trim(t));
    let w = t.subrange(0, a);
    assert(t =~= w + t.subrange(a, m));
    assert forall|k: int| 0 <= k < w.len() implies text::is_white_space(#[trigger] w[k]) by {
        assert(!nw(x[k]));
        assert(x[k] == t[k]);
    }
    lemma_scan_white_prefix(w, t.subrange(a, m));
}

/// Sanitizing a note name twice gives what sanitizing it once gives.
pub proof fn lemma_sanitize_filename_idempotent(name: Seq<char>)
    ensures
        sanitized_name(sanitized_name(name)) == sanitized_name(name),
{
    lemma_sanitized_is_clean(name);
    lemma_clean_name_fixed(sanitized_name(name));
}

} // verus!

verus! {

/// `s` with `.md` removed from its end, if it is there.
fn strip_md_chars(s: Vec<char>) -> (r: Vec<char>)
    ensures
        r@ == strip_md(s@),
{
    let n = s.len();
    if n >= 3 && s[n - 3] == '.' && s[n - 2] == 'm' && s[n - 1] == 'd' {
        assert(s@.subrange(n - 3, n as int) =~= md_suffix());
        text::slice_chars(&s, 0, n - 3)
    } else {
        proof {
            if n >= 3 && s@.subrange(n - 3, n as int) == md_suffix() {
                assert(s@.subrange(n - 3, n as int)[0] == s@[n - 3]);
                assert(s@.subrange(n - 3, n as int)[1] == s@[n - 2]);
                assert(s@.subrange(n - 3, n as int)[2] == s@[n - 1]);
            }
        }
        s
    }
}

/// `s` with dashes and spaces trimmed from both ends.
fn trim_dash_space(s: &Vec<char>) -> (r: Vec<char>)
    ensures
        r@ == text::trim_by(s@, dash_or_space()),
{
    let ghost p = dash_or_space();
    let mut a: usize = 0;
    while a < s.len() && (s[a] == '-' || s[a] == ' ')
        invariant
            p == dash_or_space(),
            a <= s.len(),
            text::first_from(s@, 0, |c: char| !p(c)) == text::first_from(
                s@,
                a as int,
                |c: char| !p(c),
            ),
        decreases s.len() - a,
    {
        a = a + 1;
    }
    proof {
        text::lemma_first_from(s@, 0, |c: char| !p(c));
    }
    let mut e: usize = s.len();
    while e > a && (s[e - 1] == '-' || s[e - 1] == ' ')
        invariant
            p == dash_or_space(),
            a <= e <= s.len(),
            text::trailing_end(s@, a as int, s.len() as int, p) == text::trailing_end(
                s@,
                a as int,
                e as int,
                p,
            ),
        decreases e - a,
    {
        e = e - 1;
    }
    text::slice_chars(s, a, e)
}

/// Turns a note title into a safe file-name stem: surrounding white space and one trailing
/// `.md` are removed, illegal characters dropped, separators collapsed, and an empty result
/// becomes `untitled`.
pub fn sanitize_filename_impl(name: &str) -> (r: String)
    ensures
        r@ == sanitized_name(name@),
        clean_name(r@),
{
    let raw = chars_of(name);
    let trimmed = text::trim_chars(&raw);
    let s = strip_md_chars(trimmed);
    let mut out: Vec<char> = Vec::new();
    let mut prev_space = false;
    let mut prev_dash = false;
    let mut i: usize = 0;
    while i < s.len()
        invariant
            i <= s.len(),
            (out@, prev_space, prev_dash) == name_scan(s@.take(i as int)),
        decreases s.len() - i,
    {
        let ch = s[i];
        proof {
            assert(s@.take(i + 1).drop_last() =~= s@.take(i as int));
            assert(s@.take(i + 1).last() == ch);
        }
        i = i + 1;
        if is_illegal_name_char(ch) {
            continue;
        }
        if ch == '-' {
            if !prev_dash && out.len() > 0 {
                out.push('-');
                prev_dash = true;
                prev_space = false;
            }
            continue;
        }
        if char_is_whitespace(ch) || ch == '_' {
            if !prev_space && !prev_dash && out.len() > 0 {
                out.push(' ');
                prev_space = true;
            }
            continue;
        }
        if ascii_alnum(ch) {
            out.push(ch);
            prev_space = false;
            prev_dash = false;
        }
    }
    assert(s@.take(s.len() as int) =~= s@);
    let body = trim_dash_space(&out);
    proof {
        lemma_sanitized_is_clean(name@);
        reveal_strlit("untitled");
        assert("untitled"@ =~= untitled());
    }
    if body.len() == 0 {
        literal("untitled", Ghost(untitled()))
    } else {
        string_of(&body)
    }
}

/// The note name a title is saved under (the command's result is never an error).
pub fn sanitize_filename(name: String) -> (r: Result<String, String>)
    ensures
        r matches Ok(s) && s@ == sanitized_name(name@),
{
    Ok(sanitize_filename_impl(name.as_str()))
}

// ---------------------------------------------------------------------------
// Matching wikilink targets.
// ---------------------------------------------------------------------------

/// A separator in a link target: white space, `-` or `_`.
pub open spec fn match_separator(c: char) -> bool {
    text::is_white_space(c) || c == '-' || c == '_'
}

/// One character of the match form: `(output, last pushed was a dash)`.
pub open spec fn match_step(st: (Seq<char>, bool), ch: char) -> (Seq<char>, bool) {
    let (out, prev_dash) = st;
    if match_separator(ch) {
        if !prev_dash && out.len() > 0 {
            (out.push('-'), true)
        } else {
            st
        }
    } else {
        (out.push(ch), false)
    }
}

pub open spec fn match_scan(s: Seq<char>) -> (Seq<char>, bool)
    decreases s.len(),
{
    if s.len() == 0 {
        (seq![], false)
    } else {
        match_step(match_scan(s.drop_last()), s.last())
    }
}

/// The form in which link targets are compared: lowercased, each run of separators made one
/// dash, no dash at either end.
pub open spec fn normalized(s: Seq<char>) -> Seq<char> {
    text::trim_end_by(match_scan(text::lower_text(s)).0, text::is_char('-'))
}

/// The shape of a normalized target: no white space or underscore, no dash at either end, no
/// two dashes in a row.
pub open spec fn normal_form(y: Seq<char>) -> bool {
    &&& forall|k: int|
        0 <= k < y.len() ==> !text::is_white_space(#[trigger] y[k]) && y[k] != '_'
    &&& y.len() > 0 ==> y[0] != '-' && y.last() != '-'
    &&& forall|k: int| 0 <= k < y.len() - 1 && #[trigger] y[k] == '-' ==> y[k + 1] != '-'
}

proof fn lemma_match_scan_shape(s: Seq<char>)
    ensures
        ({
            let (o, pd) = match_scan(s);
            &&& forall|k: int|
                0 <= k < o.len() ==> !text::is_white_space(#[trigger] o[k]) && o[k] != '_'
            &&& o.len() > 0 ==> o[0] != '-'
            &&& forall|k: int| 0 <= k < o.len() - 1 && #[trigger] o[k] == '-' ==> o[k + 1] != '-'
            &&& pd == (o.len() > 0 && o.last() == '-')
        }),
    decreases s.len(),
{
    if s.len() > 0 {
        lemma_match_scan_shape(s.drop_last());
        let st = match_scan(s.drop_last());
        let o = match_scan(s).0;
        assert forall|k: int| 0 <= k < o.len() - 1 && #[trigger] o[k] == '-' implies o[k + 1]
            != '-' by {
            if k < st.0.len() - 1 {
                assert(o[k] == st.0[k] && o[k + 1] == st.0[k + 1]);
            }
        }
        assert forall|k: int| 0 <= k < o.len() implies !text::is_white_space(#[trigger] o[k])
            && o[k] != '_' by {
            if k < st.0.len() {
                assert(o[k] == st.0[k]);
            }
        }
    }
}

/// An ASCII character that is not a capital letter.
pub open spec fn small_ascii(c: char) -> bool {
    text::is_ascii(c) && !('A' <= c && c <= 'Z')
}

proof fn lemma_match_scan_small(t: Seq<char>)
    requires
        forall|k: int| 0 <= k < t.len() ==> small_ascii(#[trigger] t[k]),
    ensures
        forall|k: int| 0 <= k < match_scan(t).0.len() ==> small_ascii(#[trigger] match_scan(t).0[k]),
    decreases t.len(),
{
    if t.len() > 0 {
        let d = t.drop_last();
        assert forall|k: int| 0 <= k < d.len() implies small_ascii(#[trigger] d[k]) by {
            assert(d[k] == t[k]);
        }
        lemma_match_scan_small(d);
        let st = match_scan(d).0;
        let o = match_scan(t).0;
        assert(small_ascii(t[t.len() - 1]));
        assert forall|k: int| 0 <= k < o.len() implies small_ascii(#[trigger] o[k]) by {
            if k < st.len() {
                assert(o[k] == st[k]);
            }
        }
    }
}

proof fn lemma_match_scan_fixed(y: Seq<char>, k: int)
    requires
        normal_form(y),
        0 <= k <= y.len(),
    ensures
        match_scan(y.take(k)) == (y.take(k), k > 0 && y[k - 1] == '-'),
    decreases k,
{
    if k > 0 {
        lemma_match_scan_fixed(y, k - 1);
        assert(y.take(k).drop_last() =~= y.take(k - 1));
        assert(y.take(k).last() == y[k - 1]);
        if k >= 2 && y[k - 1] == '-' {
            assert(y[k - 2] != '-');
        }
        assert(y.take(k - 1).push(y[k - 1]) =~= y.take(k));
    }
}

/// For ASCII text, normalizing gives ASCII text that is already lowercase and already
/// normalized: a second pass changes nothing.
pub proof fn lemma_normalize_ascii_fixed_point(s: Seq<char>)
    requires
        text::all_ascii(s),
    ensures
        text::all_ascii(normalized(s)),
        text::lower_text(normalized(s)) == normalized(s),
        normalized(normalized(s)) == normalized(s),
{
    let l = text::lower_text(s);
    assert forall|k: int| 0 <= k < l.len() implies small_ascii(#[trigger] l[k]) by {
        assert(text::is_ascii(s[k]));
    }
    lemma_match_scan_small(l);
    lemma_match_scan_shape(l);
    let o = match_scan(l).0;
    let p = text::is_char('-');
    text::lemma_trailing_end(o, 0, o.len() as int, p);
    let e = text::trailing_end(o, 0, o.len() as int, p);
    let r = normalized(s);
    assert(r =~= o.subrange(0, e));
    assert forall|k: int| 0 <= k < r.len() implies small_ascii(#[trigger] r[k])
        && !text::is_white_space(r[k]) && r[k] != '_' by {
        assert(r[k] == o[k]);
    }
    assert forall|k: int| 0 <= k < r.len() - 1 && #[trigger] r[k] == '-' implies r[k + 1]
        != '-' by {
        assert(r[k] == o[k] && r[k + 1] == o[k + 1]);
    }
    if r.len() > 0 {
        assert(r[0] == o[0]);
        assert(r.last() == o[e - 1]);
    }
    assert(normal_form(r));
    assert(text::all_ascii(r));
    assert(r.map_values(|c: char| text::ascii_lower(c)) =~= r) by {
        assert forall|k: int| 0 <= k < r.len() implies #[trigger] text::ascii_lower(r[k]) == r[k] by {
            assert(small_ascii(r[k]));
        }
    }
    lemma_match_scan_fixed(r, r.len() as int);
    assert(r.take(r.len() as int) =~= r);
    text::lemma_trailing_end(r, 0, r.len() as int, p);
    if r.len() > 0 {
        assert(!p(r[r.len() - 1]));
    }
    assert(text::trim_end_by(r, p) =~= r);
}

/// `s` with each underscore replaced by a dash.
pub open spec fn underscores_to_dashes(s: Seq<char>) -> Seq<char> {
    s.map_values(|c: char| if c == '_' { '-' } else { c })
}

proof fn lemma_match_scan_underscores(t: Seq<char>)
    ensures
        match_scan(underscores_to_dashes(t)) == match_scan(t),
    decreases t.len(),
{
    if t.len() > 0 {
        lemma_match_scan_underscores(t.drop_last());
        assert(underscores_to_dashes(t).drop_last() =~= underscores_to_dashes(t.drop_last()));
    }
}

/// For ASCII text, underscores and dashes are the same to the match: replacing underscores by
/// dashes does not change the normalized form.
pub proof fn lemma_normalize_ignores_underscores(s: Seq<char>)
    requires
        text::all_ascii(s),
    ensures
        normalized(underscores_to_dashes(s)) == normalized(s),
{
    let u = underscores_to_dashes(s);
    assert(text::all_ascii(u)) by {
        assert forall|k: int| 0 <= k < u.len() implies text::is_ascii(#[trigger] u[k]) by {
            assert(text::is_ascii(s[k]));
        }
    }
    let l = text::lower_text(s);
    assert(text::lower_text(u) =~= underscores_to_dashes(l));
    lemma_match_scan_underscores(l);
}

proof fn lemma_match_scan_swap(u: Seq<char>, c: char, v: Seq<char>)
    requires
        match_separator(c),
    ensures
        match_scan(u + seq![c] + v) == match_scan(u + seq!['-'] + v),
    decreases v.len(),
{
    if v.len() == 0 {
        assert((u + seq![c] + v).drop_last() =~= u);
        assert((u + seq!['-'] + v).drop_last() =~= u);
    } else {
        lemma_match_scan_swap(u, c, v.drop_last());
        assert((u + seq![c] + v).drop_last() =~= u + seq![c] + v.drop_last());
        assert((u + seq!['-'] + v).drop_last() =~= u + seq!['-'] + v.drop_last());
    }
}

/// In ASCII text every separator of a link target (white space such as a tab, `_` or `-`)
/// counts as a dash: putting a dash in its place does not change the normalized form.
pub proof fn lemma_normalize_separators_alike(u: Seq<char>, c: char, v: Seq<char>)
    requires
        text::all_ascii(u + seq![c] + v),
        match_separator(c),
    ensures
        normalized(u + seq![c] + v) == normalized(u + seq!['-'] + v),
{
    let x = u + seq![c] + v;
    let y = u + seq!['-'] + v;
    assert(text::all_ascii(y)) by {
        assert forall|k: int| 0 <= k < y.len() implies text::is_ascii(#[trigger] y[k]) by {
            if k != u.len() {
                assert(y[k] == x[k]);
            }
        }
    }
    let lu = u.map_values(|ch: char| text::ascii_lower(ch));
    let lv = v.map_values(|ch: char| text::ascii_lower(ch));
    assert(text::lower_text(x) =~= lu + seq![c] + lv);
    assert(text::lower_text(y) =~= lu + seq!['-'] + lv);
    lemma_match_scan_swap(lu, c, lv);
}

/// Normalizes a wikilink target for comparison: lowercase, separators collapsed to one dash,
/// no trailing dash.
pub fn normalize_for_match(s: &str) -> (r: String)
    ensures
        r@ == normalized(s@),
        normal_form(r@),
{
    let lower_string = str_to_lowercase(s);
    let lower = chars_of(lower_string.as_str());
    let mut out: Vec<char> = Vec::new();
    let mut prev_dash = false;
    let mut i: usize = 0;
    while i < lower.len()
        invariant
            i <= lower.len(),
            lower@ == text::lower_text(s@),
            (out@, prev_dash) == match_scan(lower@.take(i as int)),
        decreases lower.len() - i,
    {
        let ch = lower[i];
        proof {
            assert(lower@.take(i + 1).drop_last() =~= lower@.take(i as int));
            assert(lower@.take(i + 1).last() == ch);
        }
        i = i + 1;
        if char_is_whitespace(ch) || ch == '-' || ch == '_' {
            if !prev_dash && out.len() > 0 {
                out.push('-');
                prev_dash = true;
            }
        } else {
            out.push(ch);
            prev_dash = false;
        }
    }
    assert(lower@.take(lower.len() as int) =~= lower@);
    let mut e: usize = out.len();
    while e > 0 && out[e - 1] == '-'
        invariant
            e <= out.len(),
            text::trailing_end(out@, 0, out.len() as int, text::is_char('-'))
                == text::trailing_end(out@, 0, e as int, text::is_char('-')),
        decreases e,
    {
        e = e - 1;
    }
    let body = text::slice_chars(&out, 0, e);
    proof {
        lemma_match_scan_shape(lower@);
        text::lemma_trailing_end(out@, 0, out.len() as int, text::is_char('-'));
        let y = body@;
        assert forall|k: int| 0 <= k < y.len() - 1 && #[trigger] y[k] == '-' implies y[k + 1]
            != '-' by {
            assert(y[k] == out@[k] && y[k + 1] == out@[k + 1]);
        }
        assert forall|k: int| 0 <= k < y.len() implies !text::is_white_space(#[trigger] y[k])
            && y[k] != '_' by {
            assert(y[k] == out@[k]);
        }
        if y.len() > 0 {
            assert(y[0] == out@[0]);
            assert(y.last() == out@[e - 1]);
        }
    }
    string_of(&body)
}

/// A sanitized stem in display form: dashes become spaces.
pub open spec fn display_form(stem: Seq<char>) -> Seq<char> {
    stem.map_values(|c: char| if c == '-' { ' ' } else { c })
}

/// The display form keeps the stem's length and every character of it, letter case
/// included, except that each dash becomes a space.
pub proof fn lemma_display_form(stem: Seq<char>)
    ensures
        display_form(stem).len() == stem.len(),
        forall|k: int|
            0 <= k < stem.len() && stem[k] != '-' ==> #[trigger] display_form(stem)[k] == stem[k],
        forall|k: int|
            0 <= k < stem.len() && stem[k] == '-' ==> #[trigger] display_form(stem)[k] == ' ',
{
}

/// Converts a sanitized stem back to display form: each dash becomes a space and every other
/// character, its case included, stays.
pub fn stem_to_display(stem: &str) -> (r: String)
    ensures
        r@ == display_form(stem@),
        r@.len() == stem@.len(),
        forall|k: int| 0 <= k < stem@.len() ==> #[trigger] r@[k] == (if stem@[k] == '-' {
            ' '
        } else {
            stem@[k]
        }),
{
    let cs = chars_of(stem);
    let mut out: Vec<char> = Vec::new();
    let mut i: usize = 0;
    while i < cs.len()
        invariant
            i <= cs.len(),
            out@ == display_form(cs@.take(i as int)),
        decreases cs.len() - i,
    {
        out.push(if cs[i] == '-' { ' ' } else { cs[i] });
        i = i + 1;
        assert(display_form(cs@.take(i as int)) =~= display_form(cs@.take((i - 1) as int)).push(
            if cs@[i - 1] == '-' { ' ' } else { cs@[i - 1] },
        ));
    }
    assert(cs@.take(cs.len() as int) =~= cs@);
    string_of(&out)
}

} // verus!

verus! {

// ---------------------------------------------------------------------------
// Wikilinks. Offsets are byte offsets into the UTF-8 encoding of the content.
// ---------------------------------------------------------------------------

/// The UTF-8 bytes of a string.
pub open spec fn utf8(s: Seq<char>) -> Seq<u8> {
    vstd::utf8::encode_utf8(s)
}

/// Scanning a link body from `j`: the first index where a newline or `]]` stands, or where
/// fewer than two bytes remain.
pub open spec fn link_close(b: Seq<u8>, j: int) -> int
    decreases b.len() - j,
{
    if j < 0 || j + 1 >= b.len() {
        j
    } else if b[j] == 10 || (b[j] == 93 && b[j + 1] == 93) {
        j
    } else {
        link_close(b, j + 1)
    }
}

pub proof fn lemma_link_close(b: Seq<u8>, j: int)
    requires
        0 <= j,
    ensures
        j <= link_close(b, j),
        link_close(b, j) + 1 < b.len() ==> (b[link_close(b, j)] == 10 || (b[link_close(b, j)] == 93
            && b[link_close(b, j) + 1] == 93)),
        link_close(b, j) > j ==> link_close(b, j) < b.len(),
        forall|k: int|
            j <= k < link_close(b, j) ==> #[trigger] b[k] != 10 && !(b[k] == 93 && b[k + 1] == 93),
    decreases b.len() - j,
{
    if j + 1 < b.len() && !(b[j] == 10 || (b[j] == 93 && b[j + 1] == 93)) {
        lemma_link_close(b, j + 1);
    }
}

/// The inner ranges `(start, end)` of the `[[...]]` links of `b` found by scanning from `i`.
/// A link may not span a newline; `[[]]` is no link.
pub open spec fn links_from(b: Seq<u8>, i: int) -> Seq<(int, int)>
    decreases b.len() - i,
{
    if i < 0 || i + 1 >= b.len() {
        seq![]
    } else if b[i] == 91 && b[i + 1] == 91 {
        let inner = i + 2;
        proof {
            lemma_link_close(b, inner);
        }
        let j = link_close(b, inner);
        if j + 1 < b.len() && b[j] == 93 {
            (if j > inner {
                seq![(inner, j)]
            } else {
                seq![]
            }) + links_from(b, j + 2)
        } else {
            links_from(
                b,
                if j + 1 <= b.len() {
                    j + 1
                } else {
                    b.len() as int
                },
            )
        }
    } else {
        links_from(b, i + 1)
    }
}

/// Offset pairs as integers.
pub open spec fn int_pairs(v: Seq<(usize, usize)>) -> Seq<(int, int)> {
    v.map_values(|p: (usize, usize)| (p.0 as int, p.1 as int))
}

/// The wikilinks of a text.
pub open spec fn wikilinks(b: Seq<u8>) -> Seq<(int, int)> {
    links_from(b, 0)
}

/// The shape of a link range `(s, e)` of `b`: `[[` just before, `]]` just after, a non-empty
/// body with no newline and no `]]` in it.
pub open spec fn link_shape(b: Seq<u8>, l: (int, int)) -> bool {
    &&& 2 <= l.0 < l.1
    &&& l.1 + 2 <= b.len()
    &&& b[l.0 - 2] == 91 && b[l.0 - 1] == 91
    &&& b[l.1] == 93 && b[l.1 + 1] == 93
    &&& forall|k: int| l.0 <= k < l.1 ==> #[trigger] b[k] != 10 && !(b[k] == 93 && b[k + 1] == 93)
}

/// Links are well formed, and each one ends (with its `]]`) before the next one's `[[`.
pub open spec fn links_well_formed(b: Seq<u8>, ls: Seq<(int, int)>, from: int) -> bool {
    &&& forall|k: int| 0 <= k < ls.len() ==> link_shape(b, #[trigger] ls[k])
    &&& forall|k: int| 0 <= k < ls.len() ==> from <= #[trigger] ls[k].0 - 2
    &&& forall|k: int, m: int|
        0 <= k < m < ls.len() ==> #[trigger] ls[k].1 + 2 <= #[trigger] ls[m].0 - 2
}

/// Every link found is well formed, and the links come in order without overlapping.
pub proof fn lemma_links_well_formed(b: Seq<u8>, i: int)
    requires
        0 <= i,
    ensures
        links_well_formed(b, links_from(b, i), i),
    decreases b.len() - i,
{
    if i + 1 >= b.len() {
    } else if b[i] == 91 && b[i + 1] == 91 {
        let inner = i + 2;
        lemma_link_close(b, inner);
        let j = link_close(b, inner);
        if j + 1 < b.len() && b[j] == 93 {
            lemma_links_well_formed(b, j + 2);
            let rest = links_from(b, j + 2);
            let head: Seq<(int, int)> = if j > inner {
                seq![(inner, j)]
            } else {
                seq![]
            };
            let all = head + rest;
            assert(all == links_from(b, i));
            assert forall|k: int| 0 <= k < all.len() implies link_shape(b, #[trigger] all[k])
                && i <= all[k].0 - 2 by {
                if k < head.len() {
                    assert(all[k] == (inner, j));
                } else {
                    assert(all[k] == rest[k - head.len()]);
                }
            }
            assert forall|k: int, m: int| 0 <= k < m < all.len() implies #[trigger] all[k].1 + 2
                <= #[trigger] all[m].0 - 2 by {
                if k < head.len() {
                    assert(all[m] == rest[m - head.len()]);
                } else {
                    assert(all[k] == rest[k - head.len()]);
                    assert(all[m] == rest[m - head.len()]);
                }
            }
        } else {
            let next = if j + 1 <= b.len() {
                j + 1
            } else {
                b.len() as int
            };
            lemma_links_well_formed(b, next);
        }
    } else {
        lemma_links_well_formed(b, i + 1);
    }
}

proof fn lemma_link_close_runs(b: Seq<u8>, j: int, e: int)
    requires
        0 <= j <= e,
        e + 1 < b.len(),
        b[e] == 93 && b[e + 1] == 93,
        forall|k: int| j <= k < e ==> b[k] != 10 && b[k] != 93,
    ensures
        link_close(b, j) == e,
    decreases e - j,
{
    if j < e {
        lemma_link_close_runs(b, j + 1, e);
    }
}

/// A text that is a single link `[[x]]`, its body non-empty and free of newlines and `]`,
/// has exactly that one link.
pub proof fn lemma_single_link(x: Seq<u8>)
    requires
        x.len() > 0,
        forall|k: int| 0 <= k < x.len() ==> x[k] != 10 && x[k] != 93,
    ensures
        wikilinks(seq![91u8, 91u8] + x + seq![93u8, 93u8]) == seq![(2int, 2 + x.len() as int)],
{
    let b = seq![91u8, 91u8] + x + seq![93u8, 93u8];
    let e: int = 2 + x.len() as int;
    assert forall|k: int| 2 <= k < e implies b[k] != 10 && b[k] != 93 by {
        assert(b[k] == x[k - 2]);
    }
    lemma_link_close_runs(b, 2, e);
    assert(links_from(b, e + 2) == Seq::<(int, int)>::empty());
    assert(links_from(b, 0) =~= seq![(2int, e)] + links_from(b, e + 2));
}

proof fn lemma_links_skip_prefix(b: Seq<u8>, a_len: int, i: int)
    requires
        0 <= i <= a_len,
        a_len + 1 < b.len(),
        forall|k: int| 0 <= k < a_len ==> !(b[k] == 91 && #[trigger] b[k + 1] == 91),
    ensures
        links_from(b, i) == links_from(b, a_len),
    decreases a_len - i,
{
    if i < a_len {
        assert(!(b[i] == 91 && b[i + 1] == 91));
        lemma_links_skip_prefix(b, a_len, i + 1);
    }
}

/// A link is found wherever it stands, whatever byte precedes it (an image embed's `!`
/// included): after any text that holds no `[[` and does not end in `[`, the link `[[x]]`
/// (body non-empty, without newline or `]`) is the one link found, at its place.
pub proof fn lemma_link_found_after(a: Seq<u8>, x: Seq<u8>)
    requires
        x.len() > 0,
        forall|k: int| 0 <= k < x.len() ==> x[k] != 10 && x[k] != 93,
        forall|k: int| 0 <= k < a.len() - 1 ==> !(a[k] == 91 && #[trigger] a[k + 1] == 91),
        a.len() > 0 ==> a.last() != 91,
    ensures
        wikilinks(a + seq![91u8, 91u8] + x + seq![93u8, 93u8]) == seq![
            (a.len() + 2int, a.len() + 2 + x.len() as int),
        ],
{
    let b = a + seq![91u8, 91u8] + x + seq![93u8, 93u8];
    let s: int = a.len() + 2int;
    let e: int = s + x.len();
    assert forall|k: int| 0 <= k < a.len() implies !(b[k] == 91 && #[trigger] b[k + 1] == 91) by {
        assert(b[k] == a[k]);
        if k + 1 < a.len() {
            assert(b[k + 1] == a[k + 1]);
        }
    }
    lemma_links_skip_prefix(b, a.len() as int, 0);
    assert forall|k: int| s <= k < e implies b[k] != 10 && b[k] != 93 by {
        assert(b[k] == x[k - s]);
    }
    assert(b[a.len() as int] == 91 && b[a.len() + 1int] == 91);
    assert(b[e] == 93 && b[e + 1] == 93);
    lemma_link_close_runs(b, s, e);
    assert(links_from(b, e + 2) == Seq::<(int, int)>::empty());
    assert(links_from(b, a.len() as int) =~= seq![(s, e)] + links_from(b, e + 2));
}

/// Link ranges moved `d` bytes on.
pub open spec fn shifted(ls: Seq<(int, int)>, d: int) -> Seq<(int, int)> {
    ls.map_values(|l: (int, int)| (l.0 + d, l.1 + d))
}

proof fn lemma_link_close_shift(x: Seq<u8>, y: Seq<u8>, j: int)
    requires
        0 <= j,
    ensures
        link_close(x + y, x.len() + j) == x.len() + link_close(y, j),
    decreases y.len() - j,
{
    let b = x + y;
    let k = x.len() + j;
    if j + 1 < y.len() {
        assert(b[k] == y[j] && b[k + 1] == y[j + 1]);
        if !(y[j] == 10 || (y[j] == 93 && y[j + 1] == 93)) {
            lemma_link_close_shift(x, y, j + 1);
        }
    }
}

proof fn lemma_links_shift(x: Seq<u8>, y: Seq<u8>, t: int)
    requires
        0 <= t <= y.len(),
    ensures
        links_from(x + y, x.len() + t) == shifted(links_from(y, t), x.len() as int),
    decreases y.len() - t,
{
    let b = x + y;
    let d = x.len() as int;
    let i = d + t;
    if t + 1 < y.len() {
        assert(b[i] == y[t] && b[i + 1] == y[t + 1]);
        if y[t] == 91 && y[t + 1] == 91 {
            lemma_link_close_shift(x, y, t + 2);
            lemma_link_close(y, t + 2);
            let j = link_close(y, t + 2);
            if j + 1 < y.len() && y[j] == 93 {
                assert(b[d + j] == y[j]);
                lemma_links_shift(x, y, j + 2);
                let head: Seq<(int, int)> = if j > t + 2 {
                    seq![(t + 2, j)]
                } else {
                    seq![]
                };
                assert(shifted(head + links_from(y, j + 2), d) =~= shifted(head, d) + shifted(
                    links_from(y, j + 2),
                    d,
                ));
            } else {
                let nx = if j + 1 <= y.len() {
                    j + 1
                } else {
                    y.len() as int
                };
                if j + 1 < y.len() {
                    assert(b[d + j] == y[j]);
                }
                lemma_links_shift(x, y, nx);
            }
        } else {
            lemma_links_shift(x, y, t + 1);
        }
    } else {
        assert(shifted(Seq::<(int, int)>::empty(), d) =~= Seq::<(int, int)>::empty());
    }
}

proof fn lemma_link_close_in_line(a: Seq<u8>, b: Seq<u8>, j: int)
    requires
        0 <= j < a.len(),
        a.last() == 10,
    ensures
        link_close(a + b, j) == link_close(a, j),
        link_close(a, j) < a.len(),
    decreases a.len() - j,
{
    let c = a + b;
    assert(c[j] == a[j]);
    if j + 1 < a.len() {
        assert(c[j + 1] == a[j + 1]);
        if !(a[j] == 10 || (a[j] == 93 && a[j + 1] == 93)) {
            lemma_link_close_in_line(a, b, j + 1);
        }
    }
}

proof fn lemma_links_lines(a: Seq<u8>, b: Seq<u8>, i: int)
    requires
        0 <= i <= a.len(),
        a.len() == 0 || a.last() == 10,
    ensures
        links_from(a + b, i) == links_from(a, i) + links_from(a + b, a.len() as int),
    decreases a.len() - i,
{
    let c = a + b;
    if i == a.len() {
        assert(links_from(a, i) =~= Seq::<(int, int)>::empty());
        assert(links_from(a, i) + links_from(c, i) =~= links_from(c, i));
    } else if i + 1 == a.len() {
        assert(c[i] == 10);
        assert(links_from(a, i) =~= Seq::<(int, int)>::empty());
        if i + 1 < c.len() {
            assert(links_from(c, i) == links_from(c, i + 1));
        }
        assert(links_from(a, i) + links_from(c, a.len() as int) =~= links_from(c, a.len() as int));
    } else {
        assert(c[i] == a[i] && c[i + 1] == a[i + 1]);
        if a[i] == 91 && a[i + 1] == 91 {
            assert(i + 2 < a.len());
            lemma_link_close_in_line(a, b, i + 2);
            lemma_link_close(a, i + 2);
            let j = link_close(a, i + 2);
            assert(c[j] == a[j]);
            if j + 1 < a.len() && a[j] == 93 {
                lemma_links_lines(a, b, j + 2);
                let head: Seq<(int, int)> = if j > i + 2 {
                    seq![(i + 2, j)]
                } else {
                    seq![]
                };
                assert(links_from(c, i) == head + links_from(c, j + 2));
                assert(links_from(a, i) == head + links_from(a, j + 2));
                assert(head + (links_from(a, j + 2) + links_from(c, a.len() as int)) =~= (head
                    + links_from(a, j + 2)) + links_from(c, a.len() as int));
            } else {
                if a[j] == 93 {
                    assert(j + 1 == a.len());
                    assert(a[j] == 10);
                }
                lemma_links_lines(a, b, j + 1);
                assert(links_from(c, i) == links_from(c, j + 1));
                assert(links_from(a, i) == links_from(a, j + 1));
            }
        } else {
            lemma_links_lines(a, b, i + 1);
        }
    }
}

/// Links never cross a line break: the links of a text made of `a`, ending in a newline, and
/// then `b` are the links of `a` followed by those of `b`, moved by the length of `a`.
pub proof fn lemma_links_of_lines(a: Seq<u8>, b: Seq<u8>)
    requires
        a.len() == 0 || a.last() == 10,
    ensures
        wikilinks(a + b) == wikilinks(a) + shifted(wikilinks(b), a.len() as int),
{
    lemma_links_lines(a, b, 0);
    lemma_links_shift(a, b, 0);
    assert(a.len() + 0int == a.len());
}

/// Returns byte offset ranges `(start, end)` of the inner text of each `[[...]]` wikilink.
pub fn find_wikilinks(content: &str) -> (r: Vec<(usize, usize)>)
    ensures
        int_pairs(r@) == wikilinks(utf8(content@)),
{
    let bytes = content.as_bytes();
    let ghost b = utf8(content@);
    assert(bytes@ == b);
    let len = bytes.len();
    let mut results: Vec<(usize, usize)> = Vec::new();
    let mut i: usize = 0;
    while i < len && len - i > 1
        invariant
            bytes@ == b,
            len == b.len(),
            int_pairs(results@) + links_from(
                b,
                i as int,
            ) == links_from(b, 0),
        decreases len - i,
    {
        let ghost before = int_pairs(results@);
        if bytes[i] == 91 && bytes[i + 1] == 91 {
            let inner_start = i + 2;
            let mut j = inner_start;
            while j < len && len - j > 1
                invariant
                    inner_start <= j <= len,
                    bytes@ == b,
                    len == b.len(),
                    link_close(b, inner_start as int) == link_close(b, j as int),
                ensures
                    inner_start <= j <= len,
                    link_close(b, inner_start as int) == j,
                decreases len - j,
            {
                if bytes[j] == 10 {
                    break;
                }
                if bytes[j] == 93 && bytes[j + 1] == 93 {
                    break;
                }
                j = j + 1;
            }
            proof {
                lemma_link_close(b, inner_start as int);
                assert(link_close(b, j as int) == j);
            }
            if len - j > 1 && bytes[j] == 93 {
                assert(links_from(b, i as int) == (if j > inner_start {
                    seq![(inner_start as int, j as int)]
                } else {
                    seq![]
                }) + links_from(b, j + 2));
                if j > inner_start {
                    results.push((inner_start, j));
                    proof {
                        assert(int_pairs(results@)
                            =~= before.push((inner_start as int, j as int)));
                        assert(before.push((inner_start as int, j as int)) + links_from(b, j + 2)
                            =~= before + (seq![(inner_start as int, j as int)] + links_from(
                            b,
                            j + 2,
                        )));
                    }
                } else {
                    assert(seq![] + links_from(b, j + 2) =~= links_from(b, j + 2));
                }
                i = j + 2;
            } else {
                i = if len - j >= 1 {
                    j + 1
                } else {
                    len
                };
            }
        } else {
            assert(links_from(b, i as int) == links_from(b, i + 1));
            i = i + 1;
        }
    }
    results
}

} // verus!

verus! {

/// In valid UTF-8, the byte after an ASCII byte begins a character.
proof fn lemma_no_continuation_after_ascii(b: Seq<u8>, i: int)
    requires
        vstd::utf8::valid_utf8(b),
        0 < i < b.len(),
        b[i - 1] < 0x80,
    ensures
        !vstd::utf8::is_continuation_byte(b[i]),
        vstd::utf8::is_char_boundary(b, i),
{
    vstd::utf8::is_char_boundary_iff_not_is_continuation_byte(b, i - 1);
    vstd::utf8::valid_utf8_split(b, i - 1);
    let tail = b.subrange(i - 1, b.len() as int);
    assert(tail[0] == b[i - 1]);
    assert(vstd::utf8::valid_utf8(vstd::utf8::pop_first_scalar(tail)));
    assert(vstd::utf8::pop_first_scalar(tail) =~= b.subrange(i, b.len() as int));
    let rest = b.subrange(i, b.len() as int);
    assert(vstd::utf8::valid_first_scalar(rest));
    assert(rest[0] == b[i]);
    vstd::utf8::is_char_boundary_iff_not_is_continuation_byte(b, i);
}

/// Both ends of a well-formed link lie on character boundaries.
proof fn lemma_link_boundaries(c: Seq<char>, l: (int, int))
    requires
        link_shape(utf8(c), l),
    ensures
        vstd::utf8::is_char_boundary(utf8(c), l.0),
        vstd::utf8::is_char_boundary(utf8(c), l.1),
        !vstd::utf8::is_continuation_byte(utf8(c)[l.0]),
{
    let b = utf8(c);
    vstd::utf8::encode_utf8_valid_utf8(c);
    lemma_no_continuation_after_ascii(b, l.0);
    vstd::utf8::is_char_boundary_iff_not_is_continuation_byte(b, l.1);
}

/// Calls `str` indexing `&s[start..end]`. Its documentation says it panics unless both ends
/// lie on character boundaries within the string (which `requires` excludes) and otherwise
/// gives the substring made of those bytes.
#[verifier::external_body]
fn str_slice(s: &str, start: usize, end: usize) -> (r: &str)
    requires
        start <= end <= utf8(s@).len(),
        vstd::utf8::is_char_boundary(utf8(s@), start as int),
        vstd::utf8::is_char_boundary(utf8(s@), end as int),
    ensures
        utf8(r@) == utf8(s@).subrange(start as int, end as int),
{
    &s[start..end]
}

/// Calls `String::replace_range`. Its documentation says it panics unless both ends lie on
/// character boundaries within the string (which `requires` excludes) and otherwise replaces
/// the bytes `start..end` by the replacement.
#[verifier::external_body]
fn string_replace_range(s: &mut String, start: usize, end: usize, rep: &str)
    requires
        start <= end <= utf8(old(s)@).len(),
        vstd::utf8::is_char_boundary(utf8(old(s)@), start as int),
        vstd::utf8::is_char_boundary(utf8(old(s)@), end as int),
    ensures
        utf8(final(s)@) == utf8(old(s)@).subrange(0, start as int) + utf8(rep@) + utf8(
            old(s)@,
        ).subrange(end as int, utf8(old(s)@).len() as int),
{
    s.replace_range(start..end, rep);
}

/// The text of a link.
pub open spec fn link_text(b: Seq<u8>, l: (int, int)) -> Seq<char> {
    vstd::utf8::decode_utf8(b.subrange(l.0, l.1))
}

/// The links among `ls` whose text normalizes to `target`, in order.
pub open spec fn matching_of(b: Seq<u8>, ls: Seq<(int, int)>, target: Seq<char>) -> Seq<
    (int, int),
>
    decreases ls.len(),
{
    if ls.len() == 0 {
        seq![]
    } else {
        let rest = matching_of(b, ls.drop_last(), target);
        if normalized(link_text(b, ls.last())) == target {
            rest.push(ls.last())
        } else {
            rest
        }
    }
}

/// The wikilinks of `content` whose target normalizes to `target`.
pub open spec fn matching_links(content: Seq<char>, target: Seq<char>) -> Seq<(int, int)> {
    matching_of(utf8(content), wikilinks(utf8(content)), target)
}

/// Each matching link is one of the links, and the matches keep the order of the links.
proof fn lemma_matching_well_formed(b: Seq<u8>, ls: Seq<(int, int)>, target: Seq<char>, from: int)
    requires
        links_well_formed(b, ls, from),
    ensures
        links_well_formed(b, matching_of(b, ls, target), from),
        forall|x: (int, int)| matching_of(b, ls, target).contains(x) ==> ls.contains(x),
    decreases ls.len(),
{
    if ls.len() > 0 {
        let init = ls.drop_last();
        assert(links_well_formed(b, init, from)) by {
            assert forall|k: int| 0 <= k < init.len() implies link_shape(b, #[trigger] init[k])
                && from <= init[k].0 - 2 by {
                assert(init[k] == ls[k]);
            }
            assert forall|k: int, m: int| 0 <= k < m < init.len() implies #[trigger] init[k].1 + 2
                <= #[trigger] init[m].0 - 2 by {
                assert(init[k] == ls[k] && init[m] == ls[m]);
            }
        }
        lemma_matching_well_formed(b, init, target, from);
        let rest = matching_of(b, init, target);
        let last = ls.last();
        assert forall|x: (int, int)| rest.contains(x) implies x.1 + 2 <= last.0 - 2 by {
            assert(init.contains(x));
            let k = choose|k: int| 0 <= k < init.len() && init[k] == x;
            assert(ls[k] == x);
        }
        assert forall|x: (int, int)| matching_of(b, ls, target).contains(x) implies ls.contains(
            x,
        ) by {
            if rest.contains(x) {
                assert(init.contains(x));
                let k = choose|k: int| 0 <= k < init.len() && init[k] == x;
                assert(ls[k] == x);
            } else {
                assert(x == last);
                assert(ls[ls.len() - 1] == x);
            }
        }
        if normalized(link_text(b, last)) == target {
            let all = rest.push(last);
            assert forall|k: int, m: int| 0 <= k < m < all.len() implies #[trigger] all[k].1 + 2
                <= #[trigger] all[m].0 - 2 by {
                if m == all.len() - 1 {
                    assert(rest.contains(all[k]));
                }
            }
        }
    }
}

/// The wikilinks of `content` whose target normalizes to `target_norm`.
pub fn matching_wikilinks(content: &str, target_norm: &str) -> (r: Vec<(usize, usize)>)
    ensures
        int_pairs(r@) == matching_links(content@, target_norm@),
        links_well_formed(utf8(content@), int_pairs(r@), 0),
{
    let ghost b = utf8(content@);
    let links = find_wikilinks(content);
    let ghost ls = int_pairs(links@);
    proof {
        lemma_links_well_formed(b, 0);
    }
    let target = string_of(&chars_of(target_norm));
    let mut out: Vec<(usize, usize)> = Vec::new();
    let mut k: usize = 0;
    while k < links.len()
        invariant
            k <= links.len(),
            ls == int_pairs(links@),
            ls == wikilinks(b),
            b == utf8(content@),
            target@ == target_norm@,
            links_well_formed(b, ls, 0),
            int_pairs(out@) == matching_of(b, ls.take(k as int), target_norm@),
        decreases links.len() - k,
    {
        let (start, end) = links[k];
        proof {
            assert(ls[k as int] == (start as int, end as int));
            assert(link_shape(b, ls[k as int]));
            lemma_link_boundaries(content@, ls[k as int]);
            assert(ls.take(k + 1).drop_last() =~= ls.take(k as int));
            assert(ls.take(k + 1).last() == (start as int, end as int));
        }
        let text = str_slice(content, start, end);
        proof {
            vstd::utf8::encode_utf8_decode_utf8(text@);
        }
        let norm = normalize_for_match(text);
        if norm == target {
            let ghost before = out@;
            out.push((start, end));
            proof {
                assert(int_pairs(out@) =~= int_pairs(before).push((start as int, end as int)));
            }
        }
        k = k + 1;
    }
    proof {
        assert(ls.take(links.len() as int) =~= ls);
        lemma_matching_well_formed(b, ls, target_norm@, 0);
    }
    out
}

/// How many wikilinks of `content` point at the note `old_stem` (compared in normalized
/// form).
pub fn count_wikilink_references(content: &str, old_stem: &str) -> (r: usize)
    ensures
        r == matching_links(content@, normalized(old_stem@)).len(),
{
    let target = normalize_for_match(old_stem);
    let matching = matching_wikilinks(content, target.as_str());
    assert(int_pairs(matching@).len() == matching@.len());
    matching.len()
}

/// A note that links to a given note, and how many times.
pub struct WikilinkReference {
    pub rel_path: String,
    pub count: usize,
}

/// The reference a note at `rel_path` with text `content` makes to the note `old_stem`: none
/// when no wikilink of it names that note.
pub fn wikilink_reference(rel_path: String, content: &str, old_stem: &str) -> (r: Option<
    WikilinkReference,
>)
    ensures
        r is None <==> matching_links(content@, normalized(old_stem@)).len() == 0,
        r matches Some(w) ==> w.rel_path == rel_path && w.count == matching_links(
            content@,
            normalized(old_stem@),
        ).len(),
{
    let count = count_wikilink_references(content, old_stem);
    if count > 0 {
        Some(WikilinkReference { rel_path, count })
    } else {
        None
    }
}

/// `b` with each range of `ms` (in order, not overlapping) replaced by `rep`.
pub open spec fn spliced(b: Seq<u8>, ms: Seq<(int, int)>, rep: Seq<u8>) -> Seq<u8>
    decreases ms.len(),
{
    if ms.len() == 0 {
        b
    } else {
        let l = ms.last();
        spliced(b.subrange(0, l.0), ms.drop_last(), rep) + rep + b.subrange(l.1, b.len() as int)
    }
}

/// Where `cur` is `b[..bound]` followed by other bytes, the ends of a link of `b` that lies
/// before `bound` are character boundaries of `cur` too.
proof fn lemma_boundaries_kept(
    b: Seq<u8>,
    bound: int,
    tail: Seq<u8>,
    c: Seq<char>,
    start: int,
    end: int,
)
    requires
        0 <= start < end < bound <= b.len(),
        utf8(c) == b.subrange(0, bound) + tail,
        !vstd::utf8::is_continuation_byte(b[start]),
        b[end] == 93,
    ensures
        end <= utf8(c).len(),
        vstd::utf8::is_char_boundary(utf8(c), start),
        vstd::utf8::is_char_boundary(utf8(c), end),
{
    let cur = utf8(c);
    vstd::utf8::encode_utf8_valid_utf8(c);
    assert(cur[start] == b[start]);
    assert(cur[end] == b[end]);
    vstd::utf8::is_char_boundary_iff_not_is_continuation_byte(cur, start);
    vstd::utf8::is_char_boundary_iff_not_is_continuation_byte(cur, end);
}

/// One replacement, from the last pending link backwards, keeps the splice invariant.
proof fn lemma_splice_step(
    b: Seq<u8>,
    ms: Seq<(int, int)>,
    rep: Seq<u8>,
    k: int,
    bound: int,
    tail: Seq<u8>,
    cur: Seq<u8>,
    next: Seq<u8>,
)
    requires
        0 <= k < ms.len(),
        0 <= ms[k].0 <= ms[k].1 <= bound <= b.len(),
        cur == b.subrange(0, bound) + tail,
        next == cur.subrange(0, ms[k].0) + rep + cur.subrange(ms[k].1, cur.len() as int),
        spliced(b, ms, rep) == spliced(b.subrange(0, bound), ms.take(k + 1), rep) + tail,
    ensures
        next == b.subrange(0, ms[k].0) + (rep + b.subrange(ms[k].1, bound) + tail),
        spliced(b, ms, rep) == spliced(b.subrange(0, ms[k].0), ms.take(k), rep) + (rep
            + b.subrange(ms[k].1, bound) + tail),
{
    let (start, end) = ms[k];
    let bb = b.subrange(0, bound);
    let mk = ms.take(k + 1);
    assert(mk.last() == ms[k]);
    assert(mk.drop_last() =~= ms.take(k));
    assert(bb.subrange(0, start) =~= b.subrange(0, start));
    assert(bb.subrange(end, bb.len() as int) =~= b.subrange(end, bound));
    assert(cur.subrange(0, start) =~= b.subrange(0, start));
    assert(cur.subrange(end, cur.len() as int) =~= b.subrange(end, bound) + tail);
    assert(next =~= b.subrange(0, start) + (rep + b.subrange(end, bound) + tail));
    assert(spliced(bb, mk, rep) == spliced(bb.subrange(0, start), ms.take(k), rep) + rep
        + bb.subrange(end, bb.len() as int));
    assert(spliced(bb, mk, rep) + tail =~= spliced(b.subrange(0, start), ms.take(k), rep) + (rep
        + b.subrange(end, bound) + tail));
}

/// Rewrites every wikilink of `content` that points at `old_stem` so that it points at
/// `new_stem` (in display form). `None` when no link points at `old_stem`.
pub fn replace_wikilink_references(content: &str, old_stem: &str, new_stem: &str) -> (r: Option<
    String,
>)
    ensures
        r is None <==> matching_links(content@, normalized(old_stem@)).len() == 0,
        r matches Some(c) ==> utf8(c@) == spliced(
            utf8(content@),
            matching_links(content@, normalized(old_stem@)),
            utf8(display_form(new_stem@)),
        ),
{
    let ghost b = utf8(content@);
    let target = normalize_for_match(old_stem);
    let replacement = stem_to_display(new_stem);
    let matching = matching_wikilinks(content, target.as_str());
    let ghost ms = int_pairs(matching@);
    let ghost rep = utf8(replacement@);
    if matching.len() == 0 {
        return None;
    }
    let mut new_content = string_of(&chars_of(content));
    let mut k: usize = matching.len();
    let ghost mut bound: int = b.len() as int;
    let ghost mut tail: Seq<u8> = seq![];
    assert(b.subrange(0, b.len() as int) =~= b);
    assert(ms.take(ms.len() as int) =~= ms);
    assert(b + seq![] =~= b);
    while k > 0
        invariant
            k <= matching.len(),
            ms == int_pairs(matching@),
            b == utf8(content@),
            rep == utf8(replacement@),
            links_well_formed(b, ms, 0),
            0 <= bound <= b.len(),
            k < matching.len() ==> bound == ms[k as int].0,
            k == matching.len() ==> bound == b.len(),
            utf8(new_content@) == b.subrange(0, bound) + tail,
            spliced(b, ms, rep) == spliced(b.subrange(0, bound), ms.take(k as int), rep) + tail,
        decreases k,
    {
        k = k - 1;
        let (start, end) = matching[k];
        let ghost cur = utf8(new_content@);
        proof {
            let l = ms[k as int];
            assert(l == (start as int, end as int));
            assert(link_shape(b, l));
            if k + 1 < matching.len() {
                assert(ms[k as int].1 + 2 <= ms[k + 1].0 - 2);
            }
            lemma_link_boundaries(content@, l);
            lemma_boundaries_kept(b, bound, tail, new_content@, start as int, end as int);
        }
        let rep_str = replacement.as_str();
        assert(rep_str@ == replacement@);
        string_replace_range(&mut new_content, start, end, rep_str);
        proof {
            lemma_splice_step(b, ms, rep, k as int, bound, tail, cur, utf8(new_content@));
            tail = rep + b.subrange(end as int, bound) + tail;
            bound = start as int;
        }
    }
    proof {
        assert(ms.take(0) =~= Seq::<(int, int)>::empty());
    }
    Some(new_content)
}

} // verus!

verus! {

// ---------------------------------------------------------------------------
// Image assets.
// ---------------------------------------------------------------------------

/// The image types that may be copied into the vault.
pub open spec fn allowed_image_extension(e: Seq<char>) -> bool {
    e == "png"@ || e == "jpg"@ || e == "jpeg"@ || e == "gif"@ || e == "webp"@ || e == "svg"@
        || e == "bmp"@ || e == "ico"@
}

/// Whether `ext` (already lowercase) names an allowed image type.
pub fn is_allowed_image_extension(ext: &str) -> (r: bool)
    ensures
        r == allowed_image_extension(ext@),
{
    str_eq(ext, "png") || str_eq(ext, "jpg") || str_eq(ext, "jpeg") || str_eq(ext, "gif")
        || str_eq(ext, "webp") || str_eq(ext, "svg") || str_eq(ext, "bmp") || str_eq(ext, "ico")
}

/// One character of an image stem: `(output, last pushed was a dash)`. Illegal characters are
/// dropped; runs of white space, `_` and `-` become one dash (none at the start); every other
/// character is replaced by its lowercase mapping.
pub open spec fn image_step(st: (Seq<char>, bool), ch: char) -> (Seq<char>, bool) {
    let (out, prev_dash) = st;
    if illegal_name_char(ch) {
        st
    } else if text::is_white_space(ch) || ch == '_' || ch == '-' {
        if !prev_dash && out.len() > 0 {
            (out.push('-'), true)
        } else {
            st
        }
    } else {
        (out + text::char_lower(ch), false)
    }
}

pub open spec fn image_scan(s: Seq<char>) -> (Seq<char>, bool)
    decreases s.len(),
{
    if s.len() == 0 {
        (seq![], false)
    } else {
        image_step(image_scan(s.drop_last()), s.last())
    }
}

/// The sanitized stem of an image: scanned, dashes trimmed from both ends, `image` if nothing
/// is left.
pub open spec fn sanitized_image_stem(stem: Seq<char>) -> Seq<char> {
    let body = text::trim_by(image_scan(stem).0, text::is_char('-'));
    if body.len() == 0 {
        "image"@
    } else {
        body
    }
}

/// A character an image stem may hold: not illegal in a file name, not a separator, not an
/// ASCII capital.
pub open spec fn image_stem_char(c: char) -> bool {
    !illegal_name_char(c) && !text::is_white_space(c) && c != '_' && !('A' <= c && c <= 'Z')
}

/// A clean image stem: non-empty, made of allowed characters, with single dashes between
/// words and none at either end.
pub open spec fn clean_image_stem(y: Seq<char>) -> bool {
    &&& y.len() > 0
    &&& y[0] != '-'
    &&& y.last() != '-'
    &&& forall|k: int| 0 <= k < y.len() ==> image_stem_char(#[trigger] y[k])
    &&& forall|k: int| 0 <= k < y.len() - 1 && #[trigger] y[k] == '-' ==> y[k + 1] != '-'
}

/// A character of an image stem that is kept (and lowercased): neither illegal nor a separator.
pub open spec fn kept_image_char(ch: char) -> bool {
    !illegal_name_char(ch) && !(text::is_white_space(ch) || ch == '_' || ch == '-')
}

/// The lowercase mapping of each kept non-ASCII character of `stem` is made of characters an
/// image stem may hold, none of them a dash. (ASCII characters map to ASCII small letters,
/// digits and marks, which always qualify.)
pub open spec fn lowering_keeps_stem_chars(stem: Seq<char>) -> bool {
    forall|k: int|
        0 <= k < stem.len() && kept_image_char(#[trigger] stem[k]) && !text::is_ascii(stem[k])
            ==> {
            let m = text::char_lowercase(stem[k]);
            &&& m.len() > 0
            &&& forall|j: int| 0 <= j < m.len() ==> image_stem_char(#[trigger] m[j]) && m[j] != '-'
        }
}

/// What the image scan keeps: allowed characters, no dash first, no two dashes in a row, and
/// the flag tells whether the last character is a dash.
pub open spec fn image_scan_shape(st: (Seq<char>, bool)) -> bool {
    let (o, pd) = st;
    &&& o.len() > 0 ==> o[0] != '-'
    &&& forall|k: int| 0 <= k < o.len() ==> image_stem_char(#[trigger] o[k])
    &&& forall|k: int| 0 <= k < o.len() - 1 && #[trigger] o[k] == '-' ==> o[k + 1] != '-'
    &&& pd == (o.len() > 0 && o.last() == '-')
}

proof fn lemma_image_scan_shape(s: Seq<char>)
    requires
        lowering_keeps_stem_chars(s),
    ensures
        image_scan_shape(image_scan(s)),
        text::all_ascii(s) ==> text::all_ascii(image_scan(s).0),
    decreases s.len(),
{
    if s.len() > 0 {
        let d = s.drop_last();
        assert forall|k: int|
            0 <= k < d.len() && kept_image_char(#[trigger] d[k]) && !text::is_ascii(d[k]) implies {
            let m = text::char_lowercase(d[k]);
            &&& m.len() > 0
            &&& forall|j: int| 0 <= j < m.len() ==> image_stem_char(#[trigger] m[j]) && m[j] != '-'
        } by {
            assert(d[k] == s[k]);
        }
        lemma_image_scan_shape(d);
        let st = image_scan(d);
        let ch = s.last();
        let o = image_step(st, ch).0;
        let m = text::char_lower(ch);
        if kept_image_char(ch) {
            if text::is_ascii(ch) {
                let c = text::ascii_lower(ch);
                assert(c != '-');
                assert(image_stem_char(c));
                assert(m[0] == c);
            } else {
                assert(kept_image_char(s[s.len() - 1]));
            }
            assert(m.len() > 0);
            assert forall|j: int| 0 <= j < m.len() implies image_stem_char(#[trigger] m[j])
                && m[j] != '-' by {}
            assert(o == st.0 + m);
        }
        assert forall|k: int| 0 <= k < o.len() implies image_stem_char(#[trigger] o[k]) by {
            if k < st.0.len() {
                assert(o[k] == st.0[k]);
            } else if kept_image_char(ch) {
                assert(o[k] == m[k - st.0.len()]);
            }
        }
        assert forall|k: int| 0 <= k < o.len() - 1 && #[trigger] o[k] == '-' implies o[k + 1]
            != '-' by {
            if k < st.0.len() - 1 {
                assert(o[k] == st.0[k] && o[k + 1] == st.0[k + 1]);
            } else if kept_image_char(ch) {
                assert(o[k + 1] == m[k + 1 - st.0.len()]);
            }
        }
        if kept_image_char(ch) {
            assert(o.last() == m[m.len() - 1]);
            if st.0.len() == 0 {
                assert(o[0] == m[0]);
            } else {
                assert(o[0] == st.0[0]);
            }
        }
        if text::all_ascii(s) {
            assert(text::is_ascii(s[s.len() - 1]));
            assert(text::all_ascii(d)) by {
                assert forall|k: int| 0 <= k < d.len() implies text::is_ascii(#[trigger] d[k]) by {
                    assert(d[k] == s[k]);
                }
            }
            assert forall|k: int| 0 <= k < o.len() implies text::is_ascii(#[trigger] o[k]) by {
                if k < st.0.len() {
                    assert(o[k] == st.0[k]);
                } else if kept_image_char(ch) {
                    assert(o[k] == m[k - st.0.len()]);
                }
            }
        }
    }
}

/// Every sanitized image stem is clean: the stem of a copied image never holds an illegal
/// character, white space, an underscore or an ASCII capital, never is empty, and never
/// begins or ends with a dash or holds two in a row. For an ASCII stem the result is ASCII and
/// lowercase: lowercasing it again changes nothing. Beyond ASCII this rests on the lowercase
/// mappings of the kept characters being stem characters other than `-`.
pub proof fn lemma_sanitized_image_stem_clean(stem: Seq<char>)
    requires
        lowering_keeps_stem_chars(stem),
    ensures
        clean_image_stem(sanitized_image_stem(stem)),
        text::all_ascii(stem) ==> text::all_ascii(sanitized_image_stem(stem))
            && text::lower_text(sanitized_image_stem(stem)) == sanitized_image_stem(stem),
{
    lemma_image_scan_shape(stem);
    let o = image_scan(stem).0;
    let p = text::is_char('-');
    text::lemma_first_from(o, 0, |c: char| !p(c));
    let a = text::leading_count(o, p);
    if o.len() > 0 {
        assert(!p(o[0]));
    }
    assert(a == 0);
    text::lemma_trailing_end(o, a, o.len() as int, p);
    let e = text::trailing_end(o, a, o.len() as int, p);
    let y = text::trim_by(o, p);
    assert(y =~= o.subrange(0, e));
    let r = sanitized_image_stem(stem);
    if y.len() > 0 {
        assert(y[0] == o[0]);
        assert(y.last() == o[e - 1]);
        assert forall|k: int| 0 <= k < y.len() implies image_stem_char(#[trigger] y[k]) by {
            assert(y[k] == o[k]);
        }
        assert forall|k: int| 0 <= k < y.len() - 1 && #[trigger] y[k] == '-' implies y[k + 1]
            != '-' by {
            assert(y[k] == o[k] && y[k + 1] == o[k + 1]);
        }
        if text::all_ascii(stem) {
            assert forall|k: int| 0 <= k < y.len() implies text::is_ascii(#[trigger] y[k]) by {
                assert(y[k] == o[k]);
            }
        }
    } else {
        let im = "image"@;
        reveal_strlit("image");
        assert forall|k: int| 0 <= k < im.len() implies image_stem_char(#[trigger] im[k]) by {}
        assert forall|k: int| 0 <= k < im.len() implies text::is_ascii(#[trigger] im[k]) by {}
    }
    if text::all_ascii(stem) {
        assert(r.map_values(|c: char| text::ascii_lower(c)) =~= r) by {
            assert forall|k: int| 0 <= k < r.len() implies #[trigger] text::ascii_lower(r[k])
                == r[k] by {
                assert(image_stem_char(r[k]));
            }
        }
    }
}

/// What `sanitize_image_filename` gives for `name`.
pub open spec fn image_name_result(name: Seq<char>) -> Result<(Seq<char>, Seq<char>), Seq<char>> {
    match paths::extension(name) {
        None => Err("File has no extension"@),
        Some(e) => {
            let ext = text::lower_text(e);
            if !allowed_image_extension(ext) {
                Err("Unsupported image type: ."@ + ext)
            } else {
                Ok((sanitized_image_stem(paths::file_stem(name).unwrap()), ext))
            }
        },
    }
}

/// The view of a `sanitize_image_filename` result.
pub open spec fn image_result_view(r: Result<(String, String), String>) -> Result<
    (Seq<char>, Seq<char>),
    Seq<char>,
> {
    match r {
        Ok(p) => Ok((p.0@, p.1@)),
        Err(e) => Err(e@),
    }
}

/// Sanitizes an image file name: `(sanitized stem, lowercase extension)`. The stem is
/// lowercased, illegal characters are stripped and separators collapse to single dashes; the
/// extension must be one of the allowed image types.
pub fn sanitize_image_filename(name: &str) -> (r: Result<(String, String), String>)
    ensures
        image_result_view(r) == image_name_result(name@),
{
    let n = chars_of(name);
    let file = match paths::file_name_of(&n) {
        Some(f) => f,
        None => return Err(owned("File has no extension")),
    };
    let raw_ext = match paths::name_extension_of(&file) {
        Some(e) => e,
        None => return Err(owned("File has no extension")),
    };
    let raw_ext_s = string_of(&raw_ext);
    let ext = str_to_lowercase(raw_ext_s.as_str());
    if !is_allowed_image_extension(ext.as_str()) {
        let mut msg = owned("Unsupported image type: .");
        push_str(&mut msg, ext.as_str());
        return Err(msg);
    }
    let stem = paths::name_stem_of(&file);
    let mut out: Vec<char> = Vec::new();
    let mut prev_dash = false;
    let mut i: usize = 0;
    while i < stem.len()
        invariant
            i <= stem.len(),
            (out@, prev_dash) == image_scan(stem@.take(i as int)),
        decreases stem.len() - i,
    {
        let ch = stem[i];
        proof {
            assert(stem@.take(i + 1).drop_last() =~= stem@.take(i as int));
            assert(stem@.take(i + 1).last() == ch);
        }
        i = i + 1;
        if is_illegal_name_char(ch) {
            continue;
        }
        if char_is_whitespace(ch) || ch == '_' || ch == '-' {
            if !prev_dash && out.len() > 0 {
                out.push('-');
                prev_dash = true;
            }
            continue;
        }
        let low = chars_of(char_to_lowercase(ch).as_str());
        let ghost before = out@;
        let mut j: usize = 0;
        while j < low.len()
            invariant
                j <= low.len(),
                out@ == before + low@.take(j as int),
            decreases low.len() - j,
        {
            out.push(low[j]);
            j = j + 1;
            assert(before + low@.take(j as int) =~= (before + low@.take((j - 1) as int)).push(
                low@[j - 1],
            ));
        }
        assert(low@.take(low.len() as int) =~= low@);
        prev_dash = false;
    }
    assert(stem@.take(stem.len() as int) =~= stem@);
    let body = trim_dashes(&out);
    let sanitized = if body.len() == 0 {
        owned("image")
    } else {
        string_of(&body)
    };
    Ok((sanitized, ext))
}

/// `s` with dashes trimmed from both ends.
fn trim_dashes(s: &Vec<char>) -> (r: Vec<char>)
    ensures
        r@ == text::trim_by(s@, text::is_char('-')),
{
    let ghost p = text::is_char('-');
    let mut a: usize = 0;
    while a < s.len() && s[a] == '-'
        invariant
            p == text::is_char('-'),
            a <= s.len(),
            text::first_from(s@, 0, |c: char| !p(c)) == text::first_from(
                s@,
                a as int,
                |c: char| !p(c),
            ),
        decreases s.len() - a,
    {
        a = a + 1;
    }
    proof {
        text::lemma_first_from(s@, 0, |c: char| !p(c));
    }
    let mut e: usize = s.len();
    while e > a && s[e - 1] == '-'
        invariant
            p == text::is_char('-'),
            a <= e <= s.len(),
            text::trailing_end(s@, a as int, s.len() as int, p) == text::trailing_end(
                s@,
                a as int,
                e as int,
                p,
            ),
        decreases e - a,
    {
        e = e - 1;
    }
    text::slice_chars(s, a, e)
}

/// The largest image that may be copied into the vault: 200 MB.
pub const MAX_IMAGE_BYTES: u64 = 209715200;

/// What checking an image source gives.
pub open spec fn source_check(source_path: Seq<char>) -> Result<(), Seq<char>> {
    match paths::extension(source_path) {
        None => Err("Source file has no extension"@),
        Some(x) => if allowed_image_extension(text::lower_text(x)) {
            Ok(())
        } else {
            Err("Source file type not allowed: ."@ + text::lower_text(x))
        },
    }
}

/// The view of a check's result.
pub open spec fn check_view(r: Result<(), String>) -> Result<(), Seq<char>> {
    match r {
        Ok(u) => Ok(u),
        Err(e) => Err(e@),
    }
}

/// Checks an image source before it is copied: its extension, lowercased, must be an allowed
/// image type.
pub fn check_image_source(source_path: &str) -> (r: Result<(), String>)
    ensures
        check_view(r) == source_check(source_path@),
{
    let p = chars_of(source_path);
    let file = match paths::file_name_of(&p) {
        Some(f) => f,
        None => return Err(owned("Source file has no extension")),
    };
    let raw_ext = match paths::name_extension_of(&file) {
        Some(e) => e,
        None => return Err(owned("Source file has no extension")),
    };
    let raw_ext_s = string_of(&raw_ext);
    let ext = str_to_lowercase(raw_ext_s.as_str());
    if !is_allowed_image_extension(ext.as_str()) {
        let mut msg = owned("Source file type not allowed: .");
        push_str(&mut msg, ext.as_str());
        return Err(msg);
    }
    Ok(())
}

/// Checks the size of an image source: at most `MAX_IMAGE_BYTES`.
pub fn check_image_size(len: u64) -> (r: Result<(), String>)
    ensures
        r is Ok <==> len <= MAX_IMAGE_BYTES,
        r matches Err(e) ==> e@ == "Image exceeds maximum size of 200 MB"@,
{
    if len > MAX_IMAGE_BYTES {
        return Err(owned("Image exceeds maximum size of 200 MB"));
    }
    Ok(())
}

/// The link to a copied image, relative to the vault.
pub fn asset_link(dest_name: &str) -> (r: String)
    ensures
        r@ == "_assets/"@ + dest_name@,
{
    let mut out = owned("_assets/");
    push_str(&mut out, dest_name);
    out
}

// ---------------------------------------------------------------------------
// Unique names for copied images.
// ---------------------------------------------------------------------------

/// The decimal digit `d`.
pub open spec fn digit_char(d: int) -> char {
    (48 + d) as char
}

/// The decimal representation of `n`, without leading zeros.
pub open spec fn decimal(n: nat) -> Seq<char>
    decreases n,
{
    if n < 10 {
        seq![digit_char(n as int)]
    } else {
        decimal(n / 10) + seq![digit_char((n % 10) as int)]
    }
}

/// The number a string of decimal digits spells.
pub open spec fn decimal_value(s: Seq<char>) -> int
    decreases s.len(),
{
    if s.len() == 0 {
        0
    } else {
        decimal_value(s.drop_last()) * 10 + (s.last() as int - 48)
    }
}

pub proof fn lemma_decimal(n: nat)
    ensures
        decimal_value(decimal(n)) == n,
        decimal(n).len() > 0,
        forall|k: int| 0 <= k < decimal(n).len() ==> '0' <= #[trigger] decimal(n)[k] <= '9',
    decreases n,
{
    if n < 10 {
        let d = decimal(n);
        assert(d.drop_last() =~= Seq::<char>::empty());
        assert(decimal_value(d.drop_last()) == 0);
        assert(digit_char(n as int) as int == 48 + n);
        assert(decimal_value(d) == decimal_value(d.drop_last()) * 10 + (d.last() as int - 48));
    } else {
        lemma_decimal(n / 10);
        let d = decimal(n);
        assert(d.drop_last() =~= decimal(n / 10));
        assert(d.last() == digit_char((n % 10) as int));
        assert(digit_char((n % 10) as int) as int == 48 + n % 10);
        assert((n / 10) * 10 + n % 10 == n) by (nonlinear_arith);
        assert(decimal_value(d) == decimal_value(d.drop_last()) * 10 + (d.last() as int - 48));
        assert(decimal_value(d.drop_last()) == n / 10);
        assert forall|k: int| 0 <= k < d.len() implies '0' <= #[trigger] d[k] <= '9' by {
            if k < d.len() - 1 {
                assert(d[k] == decimal(n / 10)[k]);
            }
        }
    }
}

/// The decimal representation of `n`.
pub fn decimal_of(n: u32) -> (r: Vec<char>)
    ensures
        r@ == decimal(n as nat),
    decreases n,
{
    if n < 10 {
        let d = ((n as u8) + 48) as char;
        assert(d == digit_char(n as int));
        vec![d]
    } else {
        let mut v = decimal_of(n / 10);
        let d = (((n % 10) as u8) + 48) as char;
        assert(d == digit_char((n % 10) as int));
        v.push(d);
        v
    }
}

/// The name tried for the `counter`-th copy of an image: `{stem}.{ext}` first, then
/// `{stem}-{counter}.{ext}`.
pub open spec fn candidate_name(stem: Seq<char>, ext: Seq<char>, counter: nat) -> Seq<char> {
    if counter == 0 {
        stem + seq!['.'] + ext
    } else {
        stem + seq!['-'] + decimal(counter) + seq!['.'] + ext
    }
}

/// The name tried for the `counter`-th attempt at copying an image into the assets folder.
pub fn copy_candidate_name(stem: &str, ext: &str, counter: u32) -> (r: String)
    ensures
        r@ == candidate_name(stem@, ext@, counter as nat),
{
    let mut out = owned(stem);
    if counter > 0 {
        out.push('-');
        let digits = decimal_of(counter);
        let ds = string_of(&digits);
        push_str(&mut out, ds.as_str());
    }
    out.push('.');
    push_str(&mut out, ext);
    out
}

/// Different attempts try different names, so the attempts never run in a circle.
pub proof fn lemma_candidate_names_distinct(stem: Seq<char>, ext: Seq<char>, n: nat, m: nat)
    requires
        n != m,
    ensures
        candidate_name(stem, ext, n) != candidate_name(stem, ext, m),
{
    let a = candidate_name(stem, ext, n);
    let b = candidate_name(stem, ext, m);
    if a == b {
        if n == 0 || m == 0 {
            let i = stem.len() as int;
            assert(a[i] != b[i]);
        } else {
            lemma_decimal(n);
            lemma_decimal(m);
            let dn = decimal(n);
            let dm = decimal(m);
            let base = stem.len() as int + 1;
            if dn.len() < dm.len() {
                let i = base + dn.len() as int;
                assert(a[i] == '.');
                assert(b[i] == dm[dn.len() as int]);
            } else if dm.len() < dn.len() {
                let i = base + dm.len() as int;
                assert(b[i] == '.');
                assert(a[i] == dn[dm.len() as int]);
            } else {
                assert forall|k: int| 0 <= k < dn.len() implies dn[k] == dm[k] by {
                    assert(a[base + k] == dn[k]);
                    assert(b[base + k] == dm[k]);
                }
                assert(dn =~= dm);
            }
        }
    }
}

// ---------------------------------------------------------------------------
// Writing and listing notes.
// ---------------------------------------------------------------------------

/// The name of the temporary file an atomic write goes through: `.{name}.pithy-tmp`.
pub fn temp_file_name(file_name: &str) -> (r: String)
    ensures
        r@ == "."@ + file_name@ + ".pithy-tmp"@,
{
    let mut out = owned(".");
    push_str(&mut out, file_name);
    push_str(&mut out, ".pithy-tmp");
    out
}

/// A directory entry the vault walk descends into or lists: its name does not begin with `.`.
pub fn walk_admits(name: &str) -> (r: bool)
    ensures
        r == !(name@.len() > 0 && name@[0] == '.'),
{
    let n = chars_of(name);
    !(n.len() > 0 && n[0] == '.')
}

/// A markdown note: the path's extension is `md`.
pub fn is_note_path(path: &str) -> (r: bool)
    ensures
        r == (paths::extension(path@) == Some(seq!['m', 'd'])),
{
    let p = chars_of(path);
    match paths::file_name_of(&p) {
        Some(f) => match paths::name_extension_of(&f) {
            Some(e) => {
                let r = e.len() == 2 && e[0] == 'm' && e[1] == 'd';
                proof {
                    if r {
                        assert(e@ =~= seq!['m', 'd']);
                    }
                    if e@ == seq!['m', 'd'] {
                        assert(e@[0] == 'm' && e@[1] == 'd');
                    }
                }
                r
            },
            None => false,
        },
        None => false,
    }
}

/// The note list the switcher shows: the notes found in ascending order, or just the welcome
/// note when there were none (it has then just been written).
pub fn finish_listing(files: Vec<String>) -> (r: Vec<String>)
    ensures
        files@.len() == 0 ==> text::views(r@) == seq!["welcome.md"@],
        files@.len() > 0 ==> text::sorted(text::views(r@)) && text::views(r@).to_multiset()
            == text::views(files@).to_multiset(),
{
    if files.len() == 0 {
        let mut out: Vec<String> = Vec::new();
        out.push(owned("welcome.md"));
        assert(text::views(out@) =~= seq!["welcome.md"@]);
        return out;
    }
    text::sort_strings(files)
}

// ---------------------------------------------------------------------------
// Deleting and renaming notes.
// ---------------------------------------------------------------------------

/// A note may be sent to the trash only when it exists.
pub fn check_delete(exists: bool) -> (r: Result<(), String>)
    ensures
        r is Ok <==> exists,
        r matches Err(e) ==> e@ == "File does not exist"@,
{
    if !exists {
        return Err(owned("File does not exist"));
    }
    Ok(())
}

/// A note may be renamed only when it exists and nothing is at the new name.
pub fn check_rename(old_exists: bool, new_exists: bool) -> (r: Result<(), String>)
    ensures
        r is Ok <==> old_exists && !new_exists,
        !old_exists ==> (r matches Err(e) && e@ == "Source file does not exist"@),
        old_exists && new_exists ==> (r matches Err(e) && e@
            == "A note with that name already exists"@),
{
    if !old_exists {
        return Err(owned("Source file does not exist"));
    }
    if new_exists {
        return Err(owned("A note with that name already exists"));
    }
    Ok(())
}

/// What the index is told after a rename: the old note is gone, the new one is to be indexed.
pub fn rename_ops(old_rel_path: String, new_rel_path: String) -> (r: (IndexOp, IndexOp))
    ensures
        r.0 == (IndexOp::Delete { rel_path: old_rel_path }),
        r.1 == (IndexOp::Upsert { rel_path: new_rel_path }),
{
    (IndexOp::Delete { rel_path: old_rel_path }, IndexOp::Upsert { rel_path: new_rel_path })
}

/// The text of the note written into an empty vault.
pub const WELCOME_NOTE: &'static str = "# Welcome to Pithy\n\nStart writing.\n";

} // verus!


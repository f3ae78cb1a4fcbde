//! `#tag` extraction from markdown text.
use vstd::prelude::*;

use crate::text;
use crate::text::{
    char_is_alphanumeric, char_is_whitespace, chars_eq, chars_lt, chars_of, find_char_from, run_end,
    skip_white_space, slice_chars, str_to_lowercase, string_of,
};

verus! {

// ---------------------------------------------------------------------------
// What a tag is.
// ---------------------------------------------------------------------------

/// A character that may continue a tag: alphanumeric, `-`, `_` or `/`.
pub open spec fn tag_char(c: char) -> bool {
    text::alphanumeric(c) || c == '-' || c == '_' || c == '/'
}

/// The predicate "ends a tag".
pub open spec fn not_tag_char() -> spec_fn(char) -> bool {
    |c: char| !tag_char(c)
}

/// The predicate "ends a URL": white space or `)`.
pub open spec fn url_stop() -> spec_fn(char) -> bool {
    |c: char| text::is_white_space(c) || c == ')'
}

/// The predicate "is `-` or `/`": characters trimmed from the end of a tag.
pub open spec fn tag_tail() -> spec_fn(char) -> bool {
    |c: char| c == '-' || c == '/'
}

/// `s[start..]` begins with `prefix`.
pub open spec fn starts_with_at_spec(s: Seq<char>, start: int, prefix: Seq<char>) -> bool {
    &&& 0 <= start
    &&& start + prefix.len() <= s.len()
    &&& s.subrange(start, start + prefix.len()) == prefix
}

pub open spec fn http_prefix() -> Seq<char> {
    seq!['h', 't', 't', 'p', ':', '/', '/']
}

pub open spec fn https_prefix() -> Seq<char> {
    seq!['h', 't', 't', 'p', 's', ':', '/', '/']
}

/// A URL (`http://` or `https://` with at least one more character) starts at `i`.
pub open spec fn url_at(line: Seq<char>, i: int) -> bool {
    (i + 7 < line.len() && starts_with_at_spec(line, i, http_prefix())) || (i + 8 < line.len()
        && starts_with_at_spec(line, i, https_prefix()))
}

/// The `#` at `i` begins the line or follows white space or an opening bracket.
pub open spec fn tag_boundary(line: Seq<char>, i: int) -> bool {
    i == 0 || text::is_white_space(line[i - 1]) || line[i - 1] == '(' || line[i - 1] == '[' || line[i
        - 1] == '{'
}

/// A tag starts at the `#` at `i`: a boundary before it, and a letter, digit or `_` after it.
pub open spec fn tag_start_at(line: Seq<char>, i: int) -> bool {
    &&& line[i] == '#'
    &&& tag_boundary(line, i)
    &&& i + 1 < line.len()
    &&& (text::alphanumeric(line[i + 1]) || line[i + 1] == '_')
}

/// Index just past the first `close` at or after `from` (the end of the line if none).
pub open spec fn past_closing(line: Seq<char>, from: int, close: char) -> int {
    let j = text::first_from(line, from, text::is_char(close));
    if j < line.len() {
        j + 1
    } else {
        j
    }
}

/// The tags of `line` found by scanning from index `i`, in order of occurrence and with their
/// case kept. Inline code spans, `http(s)://` URLs and markdown link destinations `](...)` are
/// passed over; a tag runs over tag characters, less trailing `-` and `/`.
pub open spec fn line_tags_from(line: Seq<char>, i: int) -> Seq<Seq<char>>
    decreases line.len() - i,
{
    if i < 0 || i >= line.len() {
        seq![]
    } else if line[i] == '`' {
        proof {
            text::lemma_first_from(line, i + 1, text::is_char('`'));
        }
        line_tags_from(line, past_closing(line, i + 1, '`'))
    } else if url_at(line, i) {
        proof {
            assert(line[i] == line.subrange(i, i + 7)[0]);
            text::lemma_first_from(line, i + 1, url_stop());
        }
        line_tags_from(line, text::first_from(line, i, url_stop()))
    } else if line[i] == ']' && i + 1 < line.len() && line[i + 1] == '(' {
        proof {
            text::lemma_first_from(line, i + 2, text::is_char(')'));
        }
        line_tags_from(line, past_closing(line, i + 2, ')'))
    } else if tag_start_at(line, i) {
        proof {
            text::lemma_first_from(line, i + 1, not_tag_char());
        }
        let j = text::first_from(line, i + 1, not_tag_char());
        let end = text::trailing_end(line, i + 1, j, tag_tail());
        (if end > i + 1 {
            seq![line.subrange(i + 1, end)]
        } else {
            seq![]
        }) + line_tags_from(line, j)
    } else {
        line_tags_from(line, i + 1)
    }
}

/// The tags of one line, case kept.
pub open spec fn line_tags(line: Seq<char>) -> Seq<Seq<char>> {
    line_tags_from(line, 0)
}

/// The lowercase form of each tag.
pub open spec fn lowered(ts: Seq<Seq<char>>) -> Seq<Seq<char>> {
    ts.map_values(|t: Seq<char>| text::lower_text(t))
}

// ---------------------------------------------------------------------------
// Lines and fenced code blocks.
// ---------------------------------------------------------------------------

/// The line of `text` that starts at `start` and ends before the newline at `nl` (or at the
/// end of the text), less a `\r` that stands just before that newline (`str::lines`).
pub open spec fn line_at(text: Seq<char>, start: int, nl: int) -> Seq<char> {
    let raw = text.subrange(start, nl);
    if nl < text.len() && raw.len() > 0 && raw.last() == '\r' {
        raw.drop_last()
    } else {
        raw
    }
}

/// A fence opens a code block: `(fence character, run length)` when the trimmed line begins
/// with three or more backticks or tildes.
pub open spec fn fence_start_spec(t: Seq<char>) -> Option<(char, int)> {
    if t.len() == 0 || (t[0] != '`' && t[0] != '~') {
        None
    } else {
        let n = text::first_from(t, 0, text::not_char(t[0]));
        if n >= 3 {
            Some((t[0], n))
        } else {
            None
        }
    }
}

/// The trimmed line closes a block opened by `n` characters `c`: it begins with at least `n`
/// of them and nothing but white space follows the run.
pub open spec fn closes_fence(t: Seq<char>, c: char, n: int) -> bool {
    let count = text::first_from(t, 0, text::not_char(c));
    &&& count >= n
    &&& forall|k: int| count <= k < t.len() ==> text::is_white_space(#[trigger] t[k])
}

/// The tags of `text` from the line starting at `pos` on, with `fence` the code block that is
/// open there (`None` outside any block). Lines inside a block, and the fence lines
/// themselves, contribute nothing.
pub open spec fn text_tags_from(text: Seq<char>, pos: int, fence: Option<(char, int)>) -> Seq<
    Seq<char>,
>
    decreases text.len() - pos,
{
    if pos < 0 || pos >= text.len() {
        seq![]
    } else {
        let nl = text::first_from(text, pos, text::is_char('\n'));
        proof {
            text::lemma_first_from(text, pos, text::is_char('\n'));
        }
        let next = if nl < text.len() {
            nl + 1
        } else {
            text.len() as int
        };
        let line = line_at(text, pos, nl);
        let t = text::trim_start(line);
        let opened = fence_start_spec(t);
        if fence is None {
            if opened is Some {
                text_tags_from(text, next, opened)
            } else {
                line_tags(line) + text_tags_from(text, next, None)
            }
        } else if closes_fence(t, fence.unwrap().0, fence.unwrap().1) {
            text_tags_from(text, next, None)
        } else {
            text_tags_from(text, next, fence)
        }
    }
}

/// Every tag occurrence of `text`, in order, case kept.
pub open spec fn raw_tags(text: Seq<char>) -> Seq<Seq<char>> {
    text_tags_from(text, 0, None)
}

/// The shape of a tag as found: non-empty, made of tag characters, not ending in `-` or `/`.
pub open spec fn tag_shape(t: Seq<char>) -> bool {
    &&& t.len() > 0
    &&& forall|k: int| 0 <= k < t.len() ==> tag_char(#[trigger] t[k])
    &&& t.last() != '-' && t.last() != '/'
}

/// A tag of ASCII text as the index keeps it: non-empty, made of small letters, digits, `-`,
/// `_` and `/`, not ending in `-` or `/`, and already lowercase.
pub open spec fn ascii_tag(t: Seq<char>) -> bool {
    &&& t.len() > 0
    &&& forall|k: int|
        0 <= k < t.len() ==> ('a' <= #[trigger] t[k] <= 'z' || '0' <= t[k] <= '9' || t[k] == '-'
            || t[k] == '_' || t[k] == '/')
    &&& t.last() != '-' && t.last() != '/'
    &&& text::lower_text(t) == t
}

proof fn lemma_ascii_sub(s: Seq<char>, a: int, b: int)
    requires
        text::all_ascii(s),
        0 <= a <= b <= s.len(),
    ensures
        text::all_ascii(s.subrange(a, b)),
{
    assert forall|k: int| 0 <= k < b - a implies text::is_ascii(#[trigger] s.subrange(a, b)[k]) by {
        assert(s.subrange(a, b)[k] == s[a + k]);
    }
}

proof fn lemma_line_tags_shape(line: Seq<char>, i: int)
    ensures
        forall|k: int|
            0 <= k < line_tags_from(line, i).len() ==> tag_shape(
                #[trigger] line_tags_from(line, i)[k],
            ) && (text::all_ascii(line) ==> text::all_ascii(line_tags_from(line, i)[k])),
    decreases line.len() - i,
{
    if i < 0 || i >= line.len() {
    } else if line[i] == '`' {
        text::lemma_first_from(line, i + 1, text::is_char('`'));
        lemma_line_tags_shape(line, past_closing(line, i + 1, '`'));
        assert(line_tags_from(line, i) == line_tags_from(line, past_closing(line, i + 1, '`')));
    } else if url_at(line, i) {
        assert(line[i] == line.subrange(i, i + 7)[0]);
        text::lemma_first_from(line, i + 1, url_stop());
        lemma_line_tags_shape(line, text::first_from(line, i, url_stop()));
        assert(line_tags_from(line, i) == line_tags_from(line, text::first_from(line, i, url_stop())));
    } else if line[i] == ']' && i + 1 < line.len() && line[i + 1] == '(' {
        text::lemma_first_from(line, i + 2, text::is_char(')'));
        lemma_line_tags_shape(line, past_closing(line, i + 2, ')'));
        assert(line_tags_from(line, i) == line_tags_from(line, past_closing(line, i + 2, ')')));
    } else if tag_start_at(line, i) {
        text::lemma_first_from(line, i + 1, not_tag_char());
        let j = text::first_from(line, i + 1, not_tag_char());
        text::lemma_trailing_end(line, i + 1, j, tag_tail());
        let end = text::trailing_end(line, i + 1, j, tag_tail());
        lemma_line_tags_shape(line, j);
        let rest = line_tags_from(line, j);
        let head: Seq<Seq<char>> = if end > i + 1 {
            seq![line.subrange(i + 1, end)]
        } else {
            seq![]
        };
        let all = line_tags_from(line, i);
        assert(all == head + rest);
        if end > i + 1 {
            let t = line.subrange(i + 1, end);
            assert(t.last() == line[end - 1]);
            assert forall|k: int| 0 <= k < t.len() implies tag_char(#[trigger] t[k]) by {
                assert(t[k] == line[i + 1 + k]);
                assert(!not_tag_char()(line[i + 1 + k]));
            }
            if text::all_ascii(line) {
                lemma_ascii_sub(line, i + 1, end);
            }
        }
        assert forall|k: int| 0 <= k < all.len() implies tag_shape(#[trigger] all[k]) && (
        text::all_ascii(line) ==> text::all_ascii(all[k])) by {
            if k >= head.len() {
                assert(all[k] == rest[k - head.len()]);
            }
        }
    } else {
        lemma_line_tags_shape(line, i + 1);
        assert(line_tags_from(line, i) == line_tags_from(line, i + 1));
    }
}

proof fn lemma_text_tags_shape(t: Seq<char>, pos: int, fence: Option<(char, int)>)
    ensures
        forall|k: int|
            0 <= k < text_tags_from(t, pos, fence).len() ==> tag_shape(
                #[trigger] text_tags_from(t, pos, fence)[k],
            ) && (text::all_ascii(t) ==> text::all_ascii(text_tags_from(t, pos, fence)[k])),
    decreases t.len() - pos,
{
    if pos < 0 || pos >= t.len() {
    } else {
        text::lemma_first_from(t, pos, text::is_char('\n'));
        let nl = text::first_from(t, pos, text::is_char('\n'));
        let next = if nl < t.len() {
            nl + 1
        } else {
            t.len() as int
        };
        let line = line_at(t, pos, nl);
        let tr = text::trim_start(line);
        let opened = fence_start_spec(tr);
        lemma_text_tags_shape(t, next, opened);
        lemma_text_tags_shape(t, next, None);
        lemma_text_tags_shape(t, next, fence);
        if fence is None && opened is Some {
            assert(text_tags_from(t, pos, fence) == text_tags_from(t, next, opened));
        } else if fence is Some && closes_fence(tr, fence.unwrap().0, fence.unwrap().1) {
            assert(text_tags_from(t, pos, fence) == text_tags_from(t, next, None));
        } else if fence is Some {
            assert(text_tags_from(t, pos, fence) == text_tags_from(t, next, fence));
        }
        if fence is None && opened is None {
            lemma_line_tags_shape(line, 0);
            if text::all_ascii(t) {
                lemma_ascii_sub(t, pos, nl);
                let raw = t.subrange(pos, nl);
                if nl < t.len() && raw.len() > 0 && raw.last() == '\r' {
                    lemma_ascii_sub(raw, 0, raw.len() - 1);
                    assert(raw.drop_last() =~= raw.subrange(0, raw.len() - 1));
                }
            }
            let a = line_tags(line);
            let b = text_tags_from(t, next, None);
            let all = text_tags_from(t, pos, fence);
            assert(all == a + b);
            assert forall|k: int| 0 <= k < all.len() implies tag_shape(#[trigger] all[k]) && (
            text::all_ascii(t) ==> text::all_ascii(all[k])) by {
                if k < a.len() {
                    assert(all[k] == a[k]);
                } else {
                    assert(all[k] == b[k - a.len()]);
                }
            }
        }
    }
}

proof fn lemma_trailing_end_prefix(l: Seq<char>, rest: Seq<char>, f: int, e: int, p: spec_fn(char) -> bool)
    requires
        0 <= f <= e <= l.len(),
    ensures
        text::trailing_end(l + rest, f, e, p) == text::trailing_end(l, f, e, p),
    decreases e - f,
{
    if e > f {
        assert((l + rest)[e - 1] == l[e - 1]);
        lemma_trailing_end_prefix(l, rest, f, e - 1, p);
    }
}

/// A `\r` at the end of a line adds no tag and changes none.
proof fn lemma_line_tags_cr(l: Seq<char>, i: int)
    requires
        0 <= i,
    ensures
        line_tags_from(l.push('\r'), i) == line_tags_from(l, i),
    decreases l.len() + 1 - i,
{
    let lp = l.push('\r');
    let cr = seq!['\r'];
    assert(lp =~= l + cr);
    if i > l.len() {
    } else if i == l.len() {
        assert(lp[i] == '\r');
        assert(!url_at(lp, i));
        assert(line_tags_from(lp, i) == line_tags_from(lp, i + 1));
    } else {
        assert(lp[i] == l[i]);
        if l[i] == '`' {
            text::lemma_first_from_prefix(l, cr, i + 1, text::is_char('`'));
            text::lemma_first_from(l, i + 1, text::is_char('`'));
            text::lemma_first_from(lp, i + 1, text::is_char('`'));
            let q = past_closing(l, i + 1, '`');
            if text::first_from(l, i + 1, text::is_char('`')) >= l.len() {
                assert(lp[l.len() as int] == '\r');
                assert(text::first_from(lp, l.len() as int, text::is_char('`')) == lp.len());
                assert(past_closing(lp, i + 1, '`') == lp.len());
                assert(line_tags_from(lp, lp.len() as int) =~= Seq::<Seq<char>>::empty());
                assert(line_tags_from(l, l.len() as int) =~= Seq::<Seq<char>>::empty());
            } else {
                lemma_line_tags_cr(l, q);
            }
            assert(line_tags_from(lp, i) == line_tags_from(lp, past_closing(lp, i + 1, '`')));
        } else if url_at(l, i) {
            assert(l[i] == l.subrange(i, i + 7)[0]);
            assert(lp.subrange(i, i + 7) =~= l.subrange(i, i + 7));
            if i + 8 <= l.len() {
                assert(lp.subrange(i, i + 8) =~= l.subrange(i, i + 8));
            }
            assert(url_at(lp, i));
            text::lemma_first_from_prefix(l, cr, i, url_stop());
            text::lemma_first_from(l, i, url_stop());
            let u = text::first_from(l, i, url_stop());
            if u >= l.len() {
                assert(lp[l.len() as int] == '\r');
                assert(url_stop()(lp[l.len() as int]));
            }
            assert(text::first_from(lp, i, url_stop()) == u);
            assert(!url_stop()(l[i]));
            lemma_line_tags_cr(l, u);
        } else if url_at(lp, i) {
            // Only the `\r` makes room for the URL: the line ends with the bare prefix.
            let pre = if i + 7 < lp.len() && starts_with_at_spec(lp, i, http_prefix()) {
                http_prefix()
            } else {
                https_prefix()
            };
            if i + 7 <= l.len() {
                assert(lp.subrange(i, i + 7) =~= l.subrange(i, i + 7));
            }
            if i + 8 <= l.len() {
                assert(lp.subrange(i, i + 8) =~= l.subrange(i, i + 8));
            }
            assert(i + pre.len() == l.len());
            assert(lp.subrange(i, i + pre.len()) == pre);
            assert forall|k: int| i <= k < l.len() implies lp[k] == pre[k - i] by {
                assert(lp.subrange(i, i + pre.len())[k - i] == lp[k]);
            }
            assert forall|k: int| i <= k < l.len() implies l[k] != '#' && !url_stop()(l[k]) by {
                assert(l[k] == lp[k]);
            }
            text::lemma_first_from_prefix(l, cr, i, url_stop());
            text::lemma_first_from(l, i, url_stop());
            assert(text::first_from(l, i, url_stop()) == l.len());
            assert(url_stop()(lp[l.len() as int]));
            assert(text::first_from(lp, l.len() as int, url_stop()) == l.len());
            lemma_line_tags_cr(l, l.len() as int);
            assert(line_tags_from(lp, i) == line_tags_from(lp, l.len() as int));
            lemma_no_hash_no_tags(l, i);
            assert(line_tags_from(l, l.len() as int) =~= Seq::<Seq<char>>::empty());
        } else if l[i] == ']' && i + 1 < l.len() && l[i + 1] == '(' {
            assert(lp[i + 1] == l[i + 1]);
            text::lemma_first_from_prefix(l, cr, i + 2, text::is_char(')'));
            text::lemma_first_from(l, i + 2, text::is_char(')'));
            let q = past_closing(l, i + 2, ')');
            if text::first_from(l, i + 2, text::is_char(')')) >= l.len() {
                assert(lp[l.len() as int] == '\r');
                assert(!text::is_char(')')(lp[l.len() as int]));
                assert(text::first_from(lp, l.len() + 1int, text::is_char(')')) == lp.len());
                assert(text::first_from(lp, l.len() as int, text::is_char(')')) == lp.len());
                assert(line_tags_from(lp, lp.len() as int) =~= Seq::<Seq<char>>::empty());
                assert(line_tags_from(l, l.len() as int) =~= Seq::<Seq<char>>::empty());
            } else {
                lemma_line_tags_cr(l, q);
            }
            assert(line_tags_from(lp, i) == line_tags_from(lp, past_closing(lp, i + 2, ')')));
        } else {
            if i + 1 == l.len() {
                assert(lp[i + 1] == '\r');
                assert(!(lp[i] == ']' && i + 1 < lp.len() && lp[i + 1] == '('));
                assert(!tag_start_at(lp, i));
            } else {
                assert(lp[i + 1] == l[i + 1]);
            }
            if i > 0 {
                assert(lp[i - 1] == l[i - 1]);
            }
            if tag_start_at(l, i) {
                assert(tag_start_at(lp, i));
                text::lemma_first_from_prefix(l, cr, i + 1, not_tag_char());
                text::lemma_first_from(l, i + 1, not_tag_char());
                let j = text::first_from(l, i + 1, not_tag_char());
                if j >= l.len() {
                    assert(lp[l.len() as int] == '\r');
                    assert(not_tag_char()(lp[l.len() as int]));
                }
                assert(text::first_from(lp, i + 1, not_tag_char()) == j);
                lemma_trailing_end_prefix(l, cr, i + 1, j, tag_tail());
                text::lemma_trailing_end(l, i + 1, j, tag_tail());
                let end = text::trailing_end(l, i + 1, j, tag_tail());
                assert(lp.subrange(i + 1, end) =~= l.subrange(i + 1, end));
                lemma_line_tags_cr(l, j);
            } else {
                assert(!tag_start_at(lp, i));
                lemma_line_tags_cr(l, i + 1);
                assert(line_tags_from(lp, i) == line_tags_from(lp, i + 1));
            }
        }
    }
}

/// A `\r` at the end of a line does not change whether it opens a fenced block.
proof fn lemma_fence_cr(l: Seq<char>)
    ensures
        fence_start_spec(text::trim_start(l.push('\r'))) == fence_start_spec(text::trim_start(l)),
{
    let lp = l.push('\r');
    let cr = seq!['\r'];
    assert(lp =~= l + cr);
    let nw = |c: char| !text::white_space()(c);
    text::lemma_first_from_prefix(l, cr, 0, nw);
    text::lemma_first_from(l, 0, nw);
    let f = text::first_from(l, 0, nw);
    let t = text::trim_start(l);
    let tp = text::trim_start(lp);
    if f >= l.len() {
        assert(!nw(lp[l.len() as int]));
        assert(text::first_from(lp, l.len() + 1int, nw) == lp.len());
        assert(tp.len() == 0);
        assert(t.len() == 0);
    } else {
        assert(tp =~= t + cr);
        let c0 = t[0];
        assert(tp[0] == c0);
        text::lemma_first_from_prefix(t, cr, 0, text::not_char(c0));
        text::lemma_first_from(t, 0, text::not_char(c0));
        if text::first_from(t, 0, text::not_char(c0)) >= t.len() {
            assert(tp[t.len() as int] == '\r');
            if c0 == '`' || c0 == '~' {
                assert(text::not_char(c0)(tp[t.len() as int]));
            }
        }
    }
}

/// The tags of a text placed after another are its own tags.
proof fn lemma_text_tags_shift(x: Seq<char>, y: Seq<char>, q: int, fence: Option<(char, int)>)
    requires
        0 <= q <= y.len(),
    ensures
        text_tags_from(x + y, x.len() + q, fence) == text_tags_from(y, q, fence),
    decreases y.len() - q,
{
    if q < y.len() {
        let nlc = text::is_char('\n');
        text::lemma_first_from_shift(x, y, q, nlc);
        text::lemma_first_from(y, q, nlc);
        let nl = text::first_from(y, q, nlc);
        let next = if nl < y.len() {
            nl + 1
        } else {
            y.len() as int
        };
        assert((x + y).subrange(x.len() + q, x.len() + nl) =~= y.subrange(q, nl));
        assert(line_at(x + y, x.len() + q, x.len() + nl) == line_at(y, q, nl));
        let line = line_at(y, q, nl);
        let opened = fence_start_spec(text::trim_start(line));
        lemma_text_tags_shift(x, y, next, opened);
        lemma_text_tags_shift(x, y, next, None);
        lemma_text_tags_shift(x, y, next, fence);
    }
}

/// The line of `a` starting at `pos` opens a fenced block.
pub open spec fn line_opens_fence(a: Seq<char>, pos: int) -> bool {
    fence_start_spec(
        text::trim_start(line_at(a, pos, text::first_from(a, pos, text::is_char('\n')))),
    ) is Some
}

/// No line of `a` opens a fenced block.
pub open spec fn opens_no_fence(a: Seq<char>) -> bool {
    forall|pos: int|
        0 <= pos <= a.len() && (pos == 0 || a[pos - 1] == '\n') ==> !#[trigger] line_opens_fence(
            a,
            pos,
        )
}

proof fn lemma_concat_tags_from(a: Seq<char>, b: Seq<char>, pos: int)
    requires
        opens_no_fence(a),
        0 <= pos <= a.len(),
        pos == 0 || a[pos - 1] == '\n',
    ensures
        text_tags_from(a + seq!['\n'] + b, pos, None) == text_tags_from(a, pos, None) + raw_tags(b),
    decreases a.len() - pos,
{
    let x = a + seq!['\n'];
    let t = x + b;
    let nlc = text::is_char('\n');
    assert(t =~= a + (seq!['\n'] + b));
    assert(t[a.len() as int] == '\n');
    assert(!line_opens_fence(a, pos));
    lemma_text_tags_shift(x, b, 0, None);
    assert(x.len() == a.len() + 1);
    if pos == a.len() {
        assert(text::first_from(t, pos, nlc) == pos);
        assert(line_at(t, pos, pos) =~= Seq::<char>::empty());
        let e = Seq::<char>::empty();
        text::lemma_first_from(e, 0, |c: char| !text::white_space()(c));
        assert(text::trim_start(e) =~= e);
        assert(line_tags(e) == Seq::<Seq<char>>::empty());
        assert(text_tags_from(t, pos, None) == line_tags(e) + text_tags_from(t, pos + 1, None));
        assert(text_tags_from(a, pos, None) =~= Seq::<Seq<char>>::empty());
        assert(text_tags_from(t, pos, None) =~= text_tags_from(a, pos, None) + raw_tags(b));
    } else {
        text::lemma_first_from_prefix(a, seq!['\n'] + b, pos, nlc);
        text::lemma_first_from(a, pos, nlc);
        let nl = text::first_from(a, pos, nlc);
        if nl < a.len() {
            assert(text::first_from(t, pos, nlc) == nl);
            assert(t.subrange(pos, nl) =~= a.subrange(pos, nl));
            assert(line_at(t, pos, nl) == line_at(a, pos, nl));
            let line = line_at(a, pos, nl);
            lemma_concat_tags_from(a, b, nl + 1);
            assert(text_tags_from(t, pos, None) == line_tags(line) + text_tags_from(t, nl + 1, None));
            assert(text_tags_from(a, pos, None) == line_tags(line) + text_tags_from(a, nl + 1, None));
            assert(line_tags(line) + (text_tags_from(a, nl + 1, None) + raw_tags(b)) =~= (line_tags(
                line,
            ) + text_tags_from(a, nl + 1, None)) + raw_tags(b));
        } else {
            assert(text::first_from(t, a.len() as int, nlc) == a.len());
            assert(text::first_from(t, pos, nlc) == a.len());
            let raw = a.subrange(pos, a.len() as int);
            assert(t.subrange(pos, a.len() as int) =~= raw);
            assert(line_at(a, pos, a.len() as int) == raw);
            let lt = line_at(t, pos, a.len() as int);
            if raw.len() > 0 && raw.last() == '\r' {
                assert(raw =~= raw.drop_last().push('\r'));
                lemma_fence_cr(raw.drop_last());
                lemma_line_tags_cr(raw.drop_last(), 0);
                assert(lt == raw.drop_last());
            } else {
                assert(lt == raw);
            }
            assert(fence_start_spec(text::trim_start(lt)) is None);
            assert(line_tags(lt) == line_tags(raw));
            assert(text_tags_from(t, pos, None) == line_tags(lt) + text_tags_from(t, a.len() + 1int, None));
            assert(text_tags_from(a, a.len() as int, None) =~= Seq::<Seq<char>>::empty());
            assert(text_tags_from(a, pos, None) == line_tags(raw) + text_tags_from(a, a.len() as int, None));
            assert(text_tags_from(a, pos, None) =~= line_tags(raw));
        }
    }
}

/// When no line of `a` opens a fenced block, the tags of `a`, a newline and `b` are the tags
/// of `a` followed by those of `b`; so the tags extracted from the whole are the sorted,
/// deduplicated union of the tags of the parts.
pub proof fn lemma_tags_of_concatenation(a: Seq<char>, b: Seq<char>)
    requires
        opens_no_fence(a),
    ensures
        raw_tags(a + seq!['\n'] + b) == raw_tags(a) + raw_tags(b),
        lowered(raw_tags(a + seq!['\n'] + b)) == lowered(raw_tags(a)) + lowered(raw_tags(b)),
{
    lemma_concat_tags_from(a, b, 0);
    lemma_lowered_cons(raw_tags(a), raw_tags(b));
}

/// A `#` after any white space (tab and the other control spaces included) or after an
/// opening bracket starts a tag: the text `x`, such a character other than a newline, `#` and
/// a word of ASCII letters and digits has exactly that word as its tag, lowercased.
pub proof fn lemma_tag_after_white_space(c: char, w: Seq<char>)
    requires
        text::is_white_space(c) || c == '(' || c == '[' || c == '{',
        c != '\n',
        w.len() > 0,
        forall|k: int| 0 <= k < w.len() ==> text::is_ascii_alnum(#[trigger] w[k]),
    ensures
        raw_tags(seq!['x', c, '#'] + w) == seq![w],
        lowered(raw_tags(seq!['x', c, '#'] + w)) == seq![text::lower_text(w)],
{
    let t = seq!['x', c, '#'] + w;
    let n = t.len() as int;
    assert forall|k: int| 3 <= k < n implies text::is_ascii_alnum(#[trigger] t[k]) by {
        assert(t[k] == w[k - 3]);
    }
    assert forall|k: int| 3 <= k < n implies tag_char(#[trigger] t[k]) by {
        assert(text::is_ascii_alnum(t[k]));
        assert(text::is_ascii(t[k]));
    }
    // One line, not a fence.
    let nlc = text::is_char('\n');
    assert forall|k: int| 0 <= k < n implies !nlc(#[trigger] t[k]) by {
        if k >= 3 {
            assert(text::is_ascii_alnum(t[k]));
        }
    }
    text::lemma_first_from(t, 0, nlc);
    assert(text::first_from(t, 0, nlc) == n);
    assert(line_at(t, 0, n) =~= t);
    let nw = |ch: char| !text::white_space()(ch);
    assert(nw(t[0]));
    assert(text::first_from(t, 0, nw) == 0);
    assert(text::trim_start(t) =~= t);
    assert(fence_start_spec(t) is None);
    assert(text_tags_from(t, n, None) =~= Seq::<Seq<char>>::empty());
    assert(raw_tags(t) == line_tags(t) + text_tags_from(t, n, None));
    // The scan passes over `x` and the space and finds the tag at the `#`.
    if n >= 7 {
        assert(t.subrange(0, 7)[0] == t[0]);
    }
    if n >= 8 {
        assert(t.subrange(0, 8)[0] == t[0]);
    }
    assert(!url_at(t, 0));
    assert(line_tags_from(t, 0) == line_tags_from(t, 1));
    if n >= 8 {
        assert(t.subrange(1, 8)[0] == t[1]);
    }
    if n >= 9 {
        assert(t.subrange(1, 9)[0] == t[1]);
    }
    assert(!url_at(t, 1));
    assert(line_tags_from(t, 1) == line_tags_from(t, 2));
    if n >= 9 {
        assert(t.subrange(2, 9)[0] == t[2]);
    }
    if n >= 10 {
        assert(t.subrange(2, 10)[0] == t[2]);
    }
    assert(!url_at(t, 2));
    assert(text::is_ascii_alnum(t[3]));
    assert(tag_start_at(t, 2));
    text::lemma_first_from(t, 3, not_tag_char());
    assert forall|k: int| 3 <= k < n implies !not_tag_char()(#[trigger] t[k]) by {
        assert(tag_char(t[k]));
    }
    assert(text::first_from(t, 3, not_tag_char()) == n);
    assert(t[n - 1] == w.last());
    assert(!tag_tail()(t[n - 1]));
    assert(text::trailing_end(t, 3, n, tag_tail()) == n);
    assert(t.subrange(3, n) =~= w);
    assert(line_tags_from(t, n) =~= Seq::<Seq<char>>::empty());
    assert(line_tags_from(t, 2) =~= seq![w] + line_tags_from(t, n));
    assert(raw_tags(t) =~= seq![w]);
    assert(lowered(seq![w]) =~= seq![text::lower_text(w)]);
}

/// A `#` inside a word starts no tag: `x#w`, for a word `w` of ASCII letters and digits, has
/// no tags.
pub proof fn lemma_no_tag_inside_word(w: Seq<char>)
    requires
        forall|k: int| 0 <= k < w.len() ==> text::is_ascii_alnum(#[trigger] w[k]),
    ensures
        raw_tags(seq!['x', '#'] + w) == Seq::<Seq<char>>::empty(),
{
    let t = seq!['x', '#'] + w;
    let n = t.len() as int;
    let nlc = text::is_char('\n');
    assert forall|k: int| 0 <= k < n implies !nlc(#[trigger] t[k]) && (k >= 2 ==> t[k] != '#') by {
        if k >= 2 {
            assert(t[k] == w[k - 2]);
        }
    }
    text::lemma_first_from(t, 0, nlc);
    assert(text::first_from(t, 0, nlc) == n);
    assert(line_at(t, 0, n) =~= t);
    let nw = |ch: char| !text::white_space()(ch);
    assert(nw(t[0]));
    assert(text::first_from(t, 0, nw) == 0);
    assert(text::trim_start(t) =~= t);
    assert(fence_start_spec(t) is None);
    assert(text_tags_from(t, n, None) =~= Seq::<Seq<char>>::empty());
    assert(raw_tags(t) == line_tags(t) + text_tags_from(t, n, None));
    if n >= 7 {
        assert(t.subrange(0, 7)[0] == t[0]);
    }
    if n >= 8 {
        assert(t.subrange(0, 8)[0] == t[0]);
        assert(t.subrange(1, 8)[0] == t[1]);
    }
    if n >= 9 {
        assert(t.subrange(1, 9)[0] == t[1]);
    }
    assert(!url_at(t, 0));
    assert(line_tags_from(t, 0) == line_tags_from(t, 1));
    assert(!url_at(t, 1));
    assert(!tag_boundary(t, 1));
    assert(line_tags_from(t, 1) == line_tags_from(t, 2));
    lemma_no_hash_no_tags(t, 2);
    assert(raw_tags(t) =~= Seq::<Seq<char>>::empty());
}

/// What looks like a tag inside inline code, in a URL or in a link destination is no tag:
/// `` `#w` ``, `http://x#w` and `](#w)` have no tags, for any word `w` of ASCII letters and
/// digits.
pub proof fn lemma_no_tags_in_code_urls_and_links(w: Seq<char>)
    requires
        forall|k: int| 0 <= k < w.len() ==> text::is_ascii_alnum(#[trigger] w[k]),
    ensures
        line_tags(seq!['`', '#'] + w + seq!['`']) == Seq::<Seq<char>>::empty(),
        line_tags(http_prefix() + seq!['x', '#'] + w) == Seq::<Seq<char>>::empty(),
        line_tags(seq![']', '(', '#'] + w + seq![')']) == Seq::<Seq<char>>::empty(),
{
    let t1 = seq!['`', '#'] + w + seq!['`'];
    let n1 = t1.len() as int;
    assert forall|k: int| 1 <= k < n1 - 1 implies !text::is_char('`')(#[trigger] t1[k]) by {
        if k >= 2 {
            assert(t1[k] == w[k - 2]);
        }
    }
    text::lemma_first_from_at(t1, 1, text::is_char('`'), n1 - 1);
    assert(past_closing(t1, 1, '`') == n1);
    assert(line_tags_from(t1, 0) == line_tags_from(t1, n1));
    let t2 = http_prefix() + seq!['x', '#'] + w;
    let n2 = t2.len() as int;
    assert(t2.subrange(0, 7) =~= http_prefix());
    assert(url_at(t2, 0));
    assert forall|k: int| 0 <= k < n2 implies !url_stop()(#[trigger] t2[k]) by {
        if k >= 9 {
            assert(t2[k] == w[k - 9]);
        }
    }
    text::lemma_first_from_at(t2, 0, url_stop(), n2);
    assert(line_tags_from(t2, 0) == line_tags_from(t2, n2));
    let t3 = seq![']', '(', '#'] + w + seq![')'];
    let n3 = t3.len() as int;
    assert forall|k: int| 2 <= k < n3 - 1 implies !text::is_char(')')(#[trigger] t3[k]) by {
        if k >= 3 {
            assert(t3[k] == w[k - 3]);
        }
    }
    text::lemma_first_from_at(t3, 2, text::is_char(')'), n3 - 1);
    if n3 >= 7 {
        assert(t3.subrange(0, 7)[0] == t3[0]);
    }
    if n3 >= 8 {
        assert(t3.subrange(0, 8)[0] == t3[0]);
    }
    assert(!url_at(t3, 0));
    assert(line_tags_from(t3, 0) == line_tags_from(t3, n3));
}

/// What looks like a tag inside a fenced code block is no tag: a text that opens a block with
/// three backticks and then holds `#w` has no tags.
pub proof fn lemma_no_tags_in_fenced_block(w: Seq<char>)
    requires
        forall|k: int| 0 <= k < w.len() ==> text::is_ascii_alnum(#[trigger] w[k]),
    ensures
        raw_tags(seq!['`', '`', '`', '\n', '#'] + w) == Seq::<Seq<char>>::empty(),
{
    let t = seq!['`', '`', '`', '\n', '#'] + w;
    let n = t.len() as int;
    let nlc = text::is_char('\n');
    let nw = |ch: char| !text::white_space()(ch);
    text::lemma_first_from_at(t, 0, nlc, 3);
    let l1 = line_at(t, 0, 3);
    assert(l1 =~= seq!['`', '`', '`']);
    text::lemma_first_from_at(l1, 0, nw, 0);
    assert(text::trim_start(l1) =~= l1);
    text::lemma_first_from_at(l1, 0, text::not_char('`'), 3);
    assert(fence_start_spec(l1) == Some(('`', 3int)));
    assert(raw_tags(t) == text_tags_from(t, 4, Some(('`', 3int))));
    assert forall|k: int| 4 <= k < n implies !nlc(#[trigger] t[k]) by {
        if k >= 5 {
            assert(t[k] == w[k - 5]);
        }
    }
    text::lemma_first_from_at(t, 4, nlc, n);
    let l2 = line_at(t, 4, n);
    assert(l2 =~= t.subrange(4, n));
    assert(l2[0] == '#');
    text::lemma_first_from_at(l2, 0, nw, 0);
    assert(text::trim_start(l2) =~= l2);
    text::lemma_first_from_at(l2, 0, text::not_char('`'), 0);
    assert(!closes_fence(l2, '`', 3));
    assert(text_tags_from(t, 4, Some(('`', 3int))) == text_tags_from(t, n, Some(('`', 3int))));
}

/// The tags of ASCII text are non-empty, made of small letters, digits, `-`, `_` and `/`, do
/// not end in `-` or `/`, and lowercasing them again changes nothing.
pub proof fn lemma_ascii_tags_shape(t: Seq<char>)
    requires
        text::all_ascii(t),
    ensures
        forall|k: int|
            0 <= k < lowered(raw_tags(t)).len() ==> ascii_tag(#[trigger] lowered(raw_tags(t))[k]),
{
    lemma_text_tags_shape(t, 0, None);
    let rs = raw_tags(t);
    assert forall|k: int| 0 <= k < lowered(rs).len() implies ascii_tag(
        #[trigger] lowered(rs)[k],
    ) by {
        let r = rs[k];
        assert(tag_shape(r) && text::all_ascii(r));
        let u = lowered(rs)[k];
        assert(u == r.map_values(|c: char| text::ascii_lower(c)));
        assert forall|m: int| 0 <= m < u.len() implies ('a' <= #[trigger] u[m] <= 'z' || '0'
            <= u[m] <= '9' || u[m] == '-' || u[m] == '_' || u[m] == '/') by {
            assert(tag_char(r[m]));
            assert(text::is_ascii(r[m]));
        }
        assert(u.last() == text::ascii_lower(r.last()));
        assert(text::all_ascii(u)) by {
            assert forall|m: int| 0 <= m < u.len() implies text::is_ascii(#[trigger] u[m]) by {
                assert(tag_char(r[m]));
                assert(text::is_ascii(r[m]));
            }
        }
        assert(u.map_values(|c: char| text::ascii_lower(c)) =~= u);
    }
}

} // verus!

verus! {

// ---------------------------------------------------------------------------
// Scanning.
// ---------------------------------------------------------------------------

fn is_tag_char(c: char) -> (r: bool)
    ensures
        r == tag_char(c),
{
    char_is_alphanumeric(c) || c == '-' || c == '_' || c == '/'
}

/// Whether `chars[start..]` begins with `prefix`.
fn starts_with_at(chars: &Vec<char>, start: usize, prefix: &str) -> (r: bool)
    ensures
        r == starts_with_at_spec(chars@, start as int, prefix@),
{
    let prefix_chars = chars_of(prefix);
    if start > chars.len() || prefix_chars.len() > chars.len() - start {
        return false;
    }
    let mut k: usize = 0;
    while k < prefix_chars.len()
        invariant
            start + prefix_chars.len() <= chars.len(),
            prefix_chars@ == prefix@,
            k <= prefix_chars.len(),
            forall|m: int| 0 <= m < k ==> chars@[start + m] == prefix_chars@[m],
        decreases prefix_chars.len() - k,
    {
        if chars[start + k] != prefix_chars[k] {
            assert(chars@.subrange(start as int, start + prefix_chars.len())[k as int]
                != prefix@[k as int]);
            return false;
        }
        k = k + 1;
    }
    assert(chars@.subrange(start as int, start + prefix_chars.len()) =~= prefix@);
    true
}

/// End of the URL that starts at `start`.
fn url_end(chars: &Vec<char>, start: usize) -> (r: usize)
    requires
        start <= chars.len(),
    ensures
        r == text::first_from(chars@, start as int, url_stop()),
{
    let mut i = start;
    while i < chars.len() && !char_is_whitespace(chars[i]) && chars[i] != ')'
        invariant
            start <= i <= chars.len(),
            text::first_from(chars@, start as int, url_stop()) == text::first_from(
                chars@,
                i as int,
                url_stop(),
            ),
        decreases chars.len() - i,
    {
        i = i + 1;
    }
    i
}

/// End of the run of tag characters that starts at `start`.
fn tag_end(chars: &Vec<char>, start: usize) -> (r: usize)
    requires
        start <= chars.len(),
    ensures
        r == text::first_from(chars@, start as int, not_tag_char()),
{
    let mut i = start;
    while i < chars.len() && is_tag_char(chars[i])
        invariant
            start <= i <= chars.len(),
            text::first_from(chars@, start as int, not_tag_char()) == text::first_from(
                chars@,
                i as int,
                not_tag_char(),
            ),
        decreases chars.len() - i,
    {
        i = i + 1;
    }
    i
}

/// End of `chars[start..end]` once trailing `-` and `/` are removed.
fn trim_tag_tail(chars: &Vec<char>, start: usize, end: usize) -> (r: usize)
    requires
        start <= end <= chars.len(),
    ensures
        r == text::trailing_end(chars@, start as int, end as int, tag_tail()),
{
    let mut e = end;
    while e > start && (chars[e - 1] == '-' || chars[e - 1] == '/')
        invariant
            start <= e <= end <= chars.len(),
            text::trailing_end(chars@, start as int, end as int, tag_tail()) == text::trailing_end(
                chars@,
                start as int,
                e as int,
                tag_tail(),
            ),
        decreases e - start,
    {
        e = e - 1;
    }
    e
}

proof fn lemma_lowered_cons(t: Seq<Seq<char>>, rest: Seq<Seq<char>>)
    ensures
        lowered(t + rest) == lowered(t) + lowered(rest),
{
    assert(lowered(t + rest) =~= lowered(t) + lowered(rest));
}

proof fn lemma_views_push(v: Seq<String>, s: String)
    ensures
        text::views(v.push(s)) == text::views(v).push(s@),
{
    assert(text::views(v.push(s)) =~= text::views(v).push(s@));
}

/// A line without `#` has no tags.
proof fn lemma_no_hash_no_tags(line: Seq<char>, i: int)
    requires
        forall|k: int| i <= k < line.len() ==> line[k] != '#',
    ensures
        line_tags_from(line, i).len() == 0,
    decreases line.len() - i,
{
    if i < 0 || i >= line.len() {
    } else if line[i] == '`' {
        text::lemma_first_from(line, i + 1, text::is_char('`'));
        lemma_no_hash_no_tags(line, past_closing(line, i + 1, '`'));
    } else if url_at(line, i) {
        assert(line[i] == line.subrange(i, i + 7)[0]);
        text::lemma_first_from(line, i + 1, url_stop());
        lemma_no_hash_no_tags(line, text::first_from(line, i, url_stop()));
    } else if line[i] == ']' && i + 1 < line.len() && line[i + 1] == '(' {
        text::lemma_first_from(line, i + 2, text::is_char(')'));
        lemma_no_hash_no_tags(line, past_closing(line, i + 2, ')'));
    } else {
        lemma_no_hash_no_tags(line, i + 1);
    }
}

/// Appends to `tags` the lowercase form of each tag of `line`, in order of occurrence: what
/// was there stays, each added tag is non-empty, and a line without `#` adds nothing.
fn extract_tags_from_line(line: &str, tags: &mut Vec<String>)
    ensures
        text::views(final(tags)@) == text::views(old(tags)@) + lowered(line_tags(line@)),
        final(tags)@.len() >= old(tags)@.len(),
        forall|k: int| 0 <= k < old(tags)@.len() ==> #[trigger] final(tags)@[k] == old(tags)@[k],
        forall|k: int|
            old(tags)@.len() <= k < final(tags)@.len() ==> (#[trigger] final(tags)@[k])@.len() > 0,
        (forall|k: int| 0 <= k < line@.len() ==> line@[k] != '#') ==> text::views(final(tags)@)
            == text::views(old(tags)@),
{
    proof {
        if forall|k: int| 0 <= k < line@.len() ==> line@[k] != '#' {
            lemma_no_hash_no_tags(line@, 0);
            assert(lowered(line_tags(line@)) =~= Seq::<Seq<char>>::empty());
        }
    }
    let chars = chars_of(line);
    let len = chars.len();
    let mut i: usize = 0;
    let ghost l = chars@;
    proof {
        reveal_strlit("http://");
        reveal_strlit("https://");
        assert("http://"@ =~= http_prefix());
        assert("https://"@ =~= https_prefix());
    }
    while i < len
        invariant
            l == chars@,
            l == line@,
            len == chars.len(),
            i <= len,
            "http://"@ == http_prefix(),
            "https://"@ == https_prefix(),
            text::views(tags@) + lowered(line_tags_from(l, i as int)) == text::views(old(tags)@) + lowered(
                line_tags(l),
            ),
            tags@.len() >= old(tags)@.len(),
            forall|k: int| 0 <= k < old(tags)@.len() ==> #[trigger] tags@[k] == old(tags)@[k],
            forall|k: int| old(tags)@.len() <= k < tags@.len() ==> (#[trigger] tags@[k])@.len() > 0,
        decreases len - i,
    {
        let ghost before = text::views(tags@);
        // Skip inline code spans
        if chars[i] == '`' {
            let j = find_char_from(&chars, i + 1, '`');
            proof {
                text::lemma_first_from(l, i + 1, text::is_char('`'));
            }
            i = if j < len {
                j + 1
            } else {
                j
            };
            continue;
        }
        // Skip URLs: http:// or https://

        if len - i > 7 && starts_with_at(&chars, i, "http://") || len - i > 8 && starts_with_at(
            &chars,
            i,
            "https://",
        ) {
            proof {
                assert(l[i as int] == l.subrange(i as int, i + 7)[0]);
                text::lemma_first_from(l, i + 1, url_stop());
            }
            i = url_end(&chars, i);
            proof {
                text::lemma_first_from(l, i as int, url_stop());
            }
            continue;
        }
        // Skip markdown link destinations: ](...)

        if chars[i] == ']' && len - i > 1 && chars[i + 1] == '(' {
            let j = find_char_from(&chars, i + 2, ')');
            proof {
                text::lemma_first_from(l, i + 2, text::is_char(')'));
            }
            i = if j < len {
                j + 1
            } else {
                j
            };
            continue;
        }
        if chars[i] == '#' {
            let is_boundary = i == 0 || {
                let prev = chars[i - 1];
                char_is_whitespace(prev) || prev == '(' || prev == '[' || prev == '{'
            };
            if is_boundary {
                if len - i > 1 && (char_is_alphanumeric(chars[i + 1]) || chars[i + 1] == '_') {
                    let tag_start = i + 1;
                    let j = tag_end(&chars, tag_start);
                    proof {
                        text::lemma_first_from(l, tag_start as int, not_tag_char());
                    }
                    let end = trim_tag_tail(&chars, tag_start, j);
                    proof {
                        text::lemma_trailing_end(l, tag_start as int, j as int, tag_tail());
                    }
                    let ghost here = line_tags_from(l, i as int);
                    let ghost rest = line_tags_from(l, j as int);
                    if end > tag_start {
                        let tag_chars = slice_chars(&chars, tag_start, end);
                        let tag = string_of(&tag_chars);
                        let lower = str_to_lowercase(tag.as_str());
                        proof {
                            lemma_views_push(tags@, lower);
                            lemma_lowered_cons(seq![l.subrange(tag_start as int, end as int)], rest);
                            assert(here == seq![l.subrange(tag_start as int, end as int)] + rest);
                            assert(lowered(seq![l.subrange(tag_start as int, end as int)])
                                =~= seq![lower@]);
                        }
                        tags.push(lower);
                        proof {
                            assert(text::views(tags@) + lowered(rest) =~= before + lowered(here));
                        }
                    } else {
                        proof {
                            assert(here =~= seq![] + rest);
                        }
                    }
                    i = j;
                    continue;
                }
            }
        }
        i = i + 1;
    }
}

} // verus!

verus! {

/// The form of an optional fence that the specification uses.
pub open spec fn fence_view(f: Option<(char, usize)>) -> Option<(char, int)> {
    match f {
        Some(p) => Some((p.0, p.1 as int)),
        None => None,
    }
}

/// `(fence character, run length)` if the trimmed line opens a fenced code block.
fn fence_start(trimmed: &Vec<char>) -> (r: Option<(char, usize)>)
    ensures
        fence_view(r) == fence_start_spec(trimmed@),
{
    if trimmed.len() == 0 {
        return None;
    }
    let first = trimmed[0];
    if first != '`' && first != '~' {
        return None;
    }
    let count = run_end(trimmed, 0, first);
    if count >= 3 {
        Some((first, count))
    } else {
        None
    }
}

/// Inserts `t` into the strictly sorted `out` unless it is already there.
fn insert_sorted_unique(out: &mut Vec<Vec<char>>, t: Vec<char>)
    requires
        text::strictly_sorted(text::char_views(old(out)@)),
    ensures
        text::strictly_sorted(text::char_views(final(out)@)),
        forall|u: Seq<char>|
            #![trigger text::char_views(final(out)@).contains(u)]
            text::char_views(final(out)@).contains(u) <==> (text::char_views(old(out)@).contains(u) || u == t@),
{
    let ghost o = text::char_views(out@);
    let mut p: usize = 0;
    while p < out.len() && chars_lt(&out[p], &t)
        invariant
            p <= out.len(),
            text::char_views(out@) == o,
            forall|k: int| 0 <= k < p ==> text::seq_lt(#[trigger] o[k], t@),
        decreases out.len() - p,
    {
        p = p + 1;
    }
    if p < out.len() && chars_eq(&out[p], &t) {
        assert(o[p as int] == t@);
        assert forall|u: Seq<char>| o.contains(u) || u == t@ implies o.contains(u) by {
            if u == t@ {
                assert(o[p as int] == u);
            }
        }
        return ;
    }
    let ghost tv = t@;
    out.insert(p, t);
    let ghost n = text::char_views(out@);
    proof {
        assert(n =~= o.subrange(0, p as int).push(tv) + o.subrange(p as int, o.len() as int));
        if p < o.len() && o[p as int] != tv {
            text::lemma_seq_lt_total(o[p as int], tv);
        }
        assert forall|i: int, j: int| 0 <= i < j < n.len() implies text::seq_lt(
            #[trigger] n[i],
            #[trigger] n[j],
        ) by {
            if j < p {
                assert(n[i] == o[i] && n[j] == o[j]);
            } else if j == p {
                assert(n[j] == tv && n[i] == o[i]);
            } else if i > p {
                assert(n[i] == o[i - 1] && n[j] == o[j - 1]);
            } else if i == p {
                assert(n[i] == tv && n[j] == o[j - 1]);
                if j - 1 > p {
                    text::lemma_seq_lt_transitive(tv, o[p as int], o[j - 1]);
                }
            } else {
                assert(n[i] == o[i] && n[j] == o[j - 1]);
            }
        }
        assert forall|u: Seq<char>| n.contains(u) <==> (o.contains(u) || u == tv) by {
            if n.contains(u) {
                let k = choose|k: int| 0 <= k < n.len() && n[k] == u;
                if k < p {
                    assert(o[k] == u);
                } else if k > p {
                    assert(o[k - 1] == u);
                }
            }
            if o.contains(u) {
                let k = choose|k: int| 0 <= k < o.len() && o[k] == u;
                if k < p {
                    assert(n[k] == u);
                } else {
                    assert(n[k + 1] == u);
                }
            }
            if u == tv {
                assert(n[p as int] == u);
            }
        }
    }
}

/// The distinct strings of `items`, in ascending order.
pub fn sort_dedup(items: &Vec<String>) -> (r: Vec<String>)
    ensures
        text::strictly_sorted(text::views(r@)),
        forall|u: Seq<char>|
            #![trigger text::views(r@).contains(u)]
            text::views(r@).contains(u) <==> text::views(items@).contains(u),
{
    let ghost iv = text::views(items@);
    let mut out: Vec<Vec<char>> = Vec::new();
    let mut k: usize = 0;
    while k < items.len()
        invariant
            k <= items.len(),
            iv == text::views(items@),
            text::strictly_sorted(text::char_views(out@)),
            forall|u: Seq<char>|
                #![trigger text::char_views(out@).contains(u)]
                text::char_views(out@).contains(u) <==> iv.take(k as int).contains(u),
        decreases items.len() - k,
    {
        let t = chars_of(items[k].as_str());
        let ghost tv = t@;
        let ghost before = text::char_views(out@);
        insert_sorted_unique(&mut out, t);
        proof {
            assert forall|u: Seq<char>|
                #![trigger text::char_views(out@).contains(u)]
                text::char_views(out@).contains(u) <==> iv.take(k + 1).contains(u) by {
                assert(text::char_views(out@).contains(u) <==> (before.contains(u) || u == tv));
                assert(before.contains(u) <==> iv.take(k as int).contains(u));
                if iv.take(k + 1).contains(u) {
                    let m = choose|m: int| 0 <= m < k + 1 && #[trigger] iv.take(k + 1)[m] == u;
                    if m < k {
                        assert(iv.take(k as int)[m] == u);
                    }
                }
                if iv.take(k as int).contains(u) {
                    let m = choose|m: int| 0 <= m < k && #[trigger] iv.take(k as int)[m] == u;
                    assert(iv.take(k + 1)[m] == u);
                }
                if u == tv {
                    assert(iv.take(k + 1)[k as int] == u);
                }
            }
        }
        k = k + 1;
    }
    assert(iv.take(items.len() as int) =~= iv);
    let ghost ov = text::char_views(out@);
    let mut res: Vec<String> = Vec::new();
    let mut m: usize = 0;
    while m < out.len()
        invariant
            m <= out.len(),
            ov == text::char_views(out@),
            text::views(res@) =~= ov.take(m as int),
        decreases out.len() - m,
    {
        let s = string_of(&out[m]);
        let ghost prev = res@;
        res.push(s);
        proof {
            lemma_views_push(prev, s);
            assert(ov.take(m + 1) =~= ov.take(m as int).push(ov[m as int]));
        }
        m = m + 1;
    }
    assert(ov.take(out.len() as int) =~= ov);
    res
}

/// Extracts `#tag` tokens from markdown text.
///
/// Returns deduplicated, lowercased, sorted tag names (without the `#` prefix). Skips tags
/// inside fenced code blocks, inline code, URLs, and markdown link destinations.
pub fn extract_tags(text: &str) -> (r: Vec<String>)
    ensures
        text::strictly_sorted(text::views(r@)),
        forall|u: Seq<char>|
            #![trigger text::views(r@).contains(u)]
            text::views(r@).contains(u) <==> lowered(raw_tags(text@)).contains(u),
        forall|k: int| 0 <= k < r@.len() ==> (#[trigger] r@[k])@.len() > 0,
{
    let chars = chars_of(text);
    let ghost t = chars@;
    let len = chars.len();
    let mut tags: Vec<String> = Vec::new();
    let mut in_fenced_block = false;
    let mut fence_char: char = '`';
    let mut fence_len: usize = 0;
    let mut pos: usize = 0;
    while pos < len
        invariant
            t == chars@,
            t == text@,
            len == chars.len(),
            pos <= len,
            text::views(tags@) + lowered(
                text_tags_from(
                    t,
                    pos as int,
                    if in_fenced_block {
                        Some((fence_char, fence_len as int))
                    } else {
                        None
                    },
                ),
            ) == lowered(raw_tags(t)),
            forall|k: int| 0 <= k < tags@.len() ==> (#[trigger] tags@[k])@.len() > 0,
        decreases len - pos,
    {
        let ghost before = text::views(tags@);
        let ghost state: Option<(char, int)> = if in_fenced_block {
            Some((fence_char, fence_len as int))
        } else {
            None
        };
        let nl = find_char_from(&chars, pos, '\n');
        proof {
            text::lemma_first_from(t, pos as int, text::is_char('\n'));
        }
        let line_end = if nl < len && nl > pos && chars[nl - 1] == '\r' {
            nl - 1
        } else {
            nl
        };
        let line = slice_chars(&chars, pos, line_end);
        proof {
            assert(line@ =~= line_at(t, pos as int, nl as int));
        }
        let lead = skip_white_space(&line, 0);
        proof {
            text::lemma_first_from(line@, 0, |c: char| !text::white_space()(c));
        }
        let trimmed = slice_chars(&line, lead, line.len());
        let next = if nl < len {
            nl + 1
        } else {
            len
        };
        let ghost rest_none = text_tags_from(t, next as int, None);
        if !in_fenced_block {
            match fence_start(&trimmed) {
                Some(f) => {
                    in_fenced_block = true;
                    fence_char = f.0;
                    fence_len = f.1;
                },
                None => {
                    let line_str = string_of(&line);
                    extract_tags_from_line(line_str.as_str(), &mut tags);
                    proof {
                        lemma_lowered_cons(line_tags(line@), rest_none);
                        assert(text::views(tags@) + lowered(rest_none) =~= before + lowered(
                            line_tags(line@) + rest_none,
                        ));
                    }
                },
            }
        } else {
            let count = run_end(&trimmed, 0, fence_char);
            proof {
                text::lemma_first_from(trimmed@, 0, text::not_char(fence_char));
            }
            if count >= fence_len {
                let blank_to = skip_white_space(&trimmed, count);
                proof {
                    text::lemma_first_from(trimmed@, count as int, |c: char| !text::white_space()(c));
                }
                if blank_to == trimmed.len() {
                    in_fenced_block = false;
                } else {
                    proof {
                        assert(!text::is_white_space(trimmed@[blank_to as int]));
                    }
                }
            }
        }
        pos = next;
    }
    let r = sort_dedup(&tags);
    proof {
        assert forall|k: int| 0 <= k < r@.len() implies (#[trigger] r@[k])@.len() > 0 by {
            let u = r@[k]@;
            assert(text::views(r@)[k] == u);
            assert(text::views(r@).contains(u));
            assert(text::views(tags@).contains(u));
            let m = choose|m: int| 0 <= m < text::views(tags@).len() && text::views(tags@)[m] == u;
            assert(tags@[m]@ == u);
        }
    }
    r
}

} // verus!

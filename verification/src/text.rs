//! Characters, strings and the small text algebra the rest of the library is stated in.
use vstd::prelude::*;

verus! {

// ---------------------------------------------------------------------------
// Facts about characters that come from the Unicode tables inside std.
// ---------------------------------------------------------------------------

/// Whether `c` has the Unicode `White_Space` property (PropList.txt), which is what
/// `char::is_whitespace` reports: tab through carriage return, the space, next line, no-break
/// space, ogham space mark, the spaces U+2000 to U+200A, the line and paragraph separators,
/// the narrow no-break space, the medium mathematical space and the ideographic space.
pub open spec fn is_white_space(c: char) -> bool {
    ||| '\u{9}' <= c <= '\u{d}'
    ||| c == ' '
    ||| c == '\u{85}'
    ||| c == '\u{a0}'
    ||| c == '\u{1680}'
    ||| '\u{2000}' <= c <= '\u{200a}'
    ||| c == '\u{2028}'
    ||| c == '\u{2029}'
    ||| c == '\u{202f}'
    ||| c == '\u{205f}'
    ||| c == '\u{3000}'
}

/// Whether `c` is alphabetic or numeric in Unicode's sense, as `char::is_alphanumeric` reports it.
pub uninterp spec fn is_alphanumeric(c: char) -> bool;

/// The Unicode lowercase mapping of a whole string, as `str::to_lowercase` computes it.
pub uninterp spec fn lowercase(s: Seq<char>) -> Seq<char>;

/// The Unicode lowercase mapping of one character, as `char::to_lowercase` yields it.
pub uninterp spec fn char_lowercase(c: char) -> Seq<char>;

/// Whether `c` is alphanumeric: among ASCII characters the letters and digits (what
/// `char::is_alphanumeric` is stated to report there); otherwise Unicode's answer.
pub open spec fn alphanumeric(c: char) -> bool {
    if is_ascii(c) {
        is_ascii_alnum(c)
    } else {
        is_alphanumeric(c)
    }
}

/// The lowercase mapping of a string: for ASCII text each capital becomes its small letter
/// and all else stays (what `str::to_lowercase` is stated to do there); otherwise the Unicode
/// mapping.
pub open spec fn lower_text(s: Seq<char>) -> Seq<char> {
    if all_ascii(s) {
        s.map_values(|c: char| ascii_lower(c))
    } else {
        lowercase(s)
    }
}

/// The lowercase mapping of a character: its ASCII lowercase for an ASCII character, the
/// Unicode mapping otherwise.
pub open spec fn char_lower(c: char) -> Seq<char> {
    if is_ascii(c) {
        seq![ascii_lower(c)]
    } else {
        char_lowercase(c)
    }
}

/// An ASCII letter or digit (`char::is_ascii_alphanumeric`).
pub open spec fn is_ascii_alnum(c: char) -> bool {
    ('0' <= c && c <= '9') || ('A' <= c && c <= 'Z') || ('a' <= c && c <= 'z')
}

/// An ASCII character.
pub open spec fn is_ascii(c: char) -> bool {
    (c as u32) < 128
}

/// Every character is ASCII.
pub open spec fn all_ascii(s: Seq<char>) -> bool {
    forall|k: int| 0 <= k < s.len() ==> is_ascii(#[trigger] s[k])
}

/// `char::is_whitespace`: the `White_Space` property, written out from its table.
pub fn char_is_whitespace(c: char) -> (r: bool)
    ensures
        r == is_white_space(c),
{
    ('\u{9}' <= c && c <= '\u{d}') || c == ' ' || c == '\u{85}' || c == '\u{a0}' || c
        == '\u{1680}' || ('\u{2000}' <= c && c <= '\u{200a}') || c == '\u{2028}' || c
        == '\u{2029}' || c == '\u{202f}' || c == '\u{205f}' || c == '\u{3000}'
}

/// Calls `char::is_alphanumeric`, which its documentation defines as `is_alphabetic() ||
/// is_numeric()` over the Unicode tables; the contract names that result and states the ASCII
/// part of it: among ASCII characters exactly the letters and digits are alphanumeric.
#[verifier::external_body]
pub(crate) fn char_is_alphanumeric(c: char) -> (r: bool)
    ensures
        r == is_alphanumeric(c),
        is_ascii(c) ==> r == is_ascii_alnum(c),
{
    c.is_alphanumeric()
}

/// Calls `str::to_lowercase`; the contract names the Unicode lowercase mapping of the argument,
/// states that no character maps to nothing (the result is at least as long), and states the
/// ASCII part of the mapping: an ASCII string maps character by character, capitals to small
/// letters and all else to itself.
#[verifier::external_body]
pub(crate) fn str_to_lowercase(s: &str) -> (r: String)
    ensures
        r@ == lowercase(s@),
        r@.len() >= s@.len(),
        all_ascii(s@) ==> r@ == s@.map_values(|c: char| ascii_lower(c)),
{
    s.to_lowercase()
}

/// Calls `char::to_lowercase` and collects what it yields. Its documentation says it yields
/// one or more characters: the lowercase mapping of the Unicode Character Database; the
/// contract names that mapping, states that it is not empty, and states its ASCII part: an
/// ASCII character maps to its ASCII lowercase alone.
#[verifier::external_body]
pub(crate) fn char_to_lowercase(c: char) -> (r: String)
    ensures
        r@ == char_lowercase(c),
        r@.len() >= 1,
        is_ascii(c) ==> r@ == seq![ascii_lower(c)],
{
    c.to_lowercase().collect()
}

/// `char::is_ascii_alphanumeric`, written out from its documented ranges.
pub fn ascii_alnum(c: char) -> (r: bool)
    ensures
        r == is_ascii_alnum(c),
{
    ('0' <= c && c <= '9') || ('A' <= c && c <= 'Z') || ('a' <= c && c <= 'z')
}

/// `char::to_ascii_lowercase`: ASCII capitals become small letters, all else is unchanged.
pub open spec fn ascii_lower(c: char) -> char {
    if 'A' <= c && c <= 'Z' {
        (c as int + 32) as char
    } else {
        c
    }
}

// ---------------------------------------------------------------------------
// Scanning.
// ---------------------------------------------------------------------------

/// The first index at or after `start` whose character satisfies `stop`, or the length.
pub open spec fn first_from(s: Seq<char>, start: int, stop: spec_fn(char) -> bool) -> int
    decreases s.len() - start,
{
    if start < 0 || start >= s.len() {
        s.len() as int
    } else if stop(s[start]) {
        start
    } else {
        first_from(s, start + 1, stop)
    }
}

pub proof fn lemma_first_from(s: Seq<char>, start: int, stop: spec_fn(char) -> bool)
    requires
        0 <= start <= s.len(),
    ensures
        start <= first_from(s, start, stop) <= s.len(),
        forall|k: int| start <= k < first_from(s, start, stop) ==> !stop(#[trigger] s[k]),
        first_from(s, start, stop) < s.len() ==> stop(s[first_from(s, start, stop)]),
    decreases s.len() - start,
{
    if start < s.len() && !stop(s[start]) {
        lemma_first_from(s, start + 1, stop);
    }
}

/// Scanning a prefix of a text finds what scanning the text finds, as long as the prefix
/// holds a match.
pub proof fn lemma_first_from_prefix(a: Seq<char>, rest: Seq<char>, st: int, f: spec_fn(char) -> bool)
    requires
        0 <= st <= a.len(),
    ensures
        first_from(a, st, f) < a.len() ==> first_from(a + rest, st, f)
            == first_from(a, st, f),
        first_from(a, st, f) >= a.len() ==> first_from(a + rest, st, f)
            == first_from(a + rest, a.len() as int, f),
    decreases a.len() - st,
{
    if st < a.len() {
        assert((a + rest)[st] == a[st]);
        if !f(a[st]) {
            lemma_first_from_prefix(a, rest, st + 1, f);
        }
    }
}

/// Scanning a text placed after another finds the same, shifted by the length of the first.
pub proof fn lemma_first_from_shift(x: Seq<char>, y: Seq<char>, t: int, f: spec_fn(char) -> bool)
    requires
        0 <= t <= y.len(),
    ensures
        first_from(x + y, x.len() + t, f) == x.len() + first_from(y, t, f),
    decreases y.len() - t,
{
    if t < y.len() {
        assert((x + y)[x.len() + t] == y[t]);
        if !f(y[t]) {
            lemma_first_from_shift(x, y, t + 1, f);
        }
    }
}

/// `first_from` is the index `f` when nothing before `f` stops the scan and `s[f]` does (or
/// `f` is the end).
pub proof fn lemma_first_from_at(s: Seq<char>, start: int, stop: spec_fn(char) -> bool, f: int)
    requires
        0 <= start <= f <= s.len(),
        forall|k: int| start <= k < f ==> !stop(#[trigger] s[k]),
        f < s.len() ==> stop(s[f]),
    ensures
        first_from(s, start, stop) == f,
    decreases f - start,
{
    if start < f {
        lemma_first_from_at(s, start + 1, stop, f);
    }
}

/// `trailing_end` is the index `e` when everything from `e` to `end` satisfies `p` and the
/// character before `e` does not (or `e` is the floor).
pub proof fn lemma_trailing_end_at(s: Seq<char>, floor: int, end: int, p: spec_fn(char) -> bool, e: int)
    requires
        0 <= floor <= e <= end <= s.len(),
        forall|k: int| e <= k < end ==> p(#[trigger] s[k]),
        e > floor ==> !p(s[e - 1]),
    ensures
        trailing_end(s, floor, end, p) == e,
    decreases end - e,
{
    if end > e {
        lemma_trailing_end_at(s, floor, end - 1, p, e);
    }
}

/// The characters of a string, in order.
pub fn chars_of(s: &str) -> (r: Vec<char>)
    ensures
        r@ == s@,
{
    let mut out: Vec<char> = Vec::new();
    for c in it: s.chars()
        invariant
            out@ == it.seq().take(it.index()),
            it.seq() == s@,
    {
        out.push(c);
    }
    out
}

/// `String::push` appends one character.
pub assume_specification[ String::push ](s: &mut String, ch: char)
    ensures
        final(s)@ == old(s)@.push(ch),
;

/// A string made of the given characters.
pub fn string_of(cs: &Vec<char>) -> (r: String)
    ensures
        r@ == cs@,
{
    let mut out = String::new();
    let mut i: usize = 0;
    while i < cs.len()
        invariant
            i <= cs.len(),
            out@ == cs@.take(i as int),
        decreases cs.len() - i,
    {
        out.push(cs[i]);
        i = i + 1;
        assert(cs@.take(i as int) == cs@.take((i - 1) as int).push(cs@[i - 1]));
    }
    assert(cs@.take(cs.len() as int) == cs@);
    out
}

/// The characters `cs[from..to]`.
pub fn slice_chars(cs: &Vec<char>, from: usize, to: usize) -> (r: Vec<char>)
    requires
        from <= to <= cs.len(),
    ensures
        r@ == cs@.subrange(from as int, to as int),
{
    let mut out: Vec<char> = Vec::new();
    let mut i: usize = from;
    while i < to
        invariant
            from <= i <= to <= cs.len(),
            out@ == cs@.subrange(from as int, i as int),
        decreases to - i,
    {
        out.push(cs[i]);
        i = i + 1;
        assert(cs@.subrange(from as int, i as int) == cs@.subrange(from as int, (i - 1) as int).push(
            cs@[i - 1],
        ));
    }
    out
}

/// Whether two character vectors hold the same characters.
pub fn chars_eq(a: &Vec<char>, b: &Vec<char>) -> (r: bool)
    ensures
        r == (a@ == b@),
{
    if a.len() != b.len() {
        return false;
    }
    let mut i: usize = 0;
    while i < a.len()
        invariant
            a.len() == b.len(),
            i <= a.len(),
            forall|k: int| 0 <= k < i ==> a@[k] == b@[k],
        decreases a.len() - i,
    {
        if a[i] != b[i] {
            return false;
        }
        i = i + 1;
    }
    assert(a@ =~= b@);
    true
}

// ---------------------------------------------------------------------------
// Trimming (`str::trim_start`, `str::trim_end`, `str::trim`): leading or trailing
// characters with the White_Space property are removed.
// ---------------------------------------------------------------------------

/// Number of leading characters of `s` that satisfy `p`.
pub open spec fn leading_count(s: Seq<char>, p: spec_fn(char) -> bool) -> int {
    first_from(s, 0, |c: char| !p(c))
}

/// Number of trailing characters of `s` that satisfy `p`, not reaching before `floor`.
pub open spec fn trailing_end(s: Seq<char>, floor: int, end: int, p: spec_fn(char) -> bool) -> int
    decreases end - floor,
{
    if end > floor && p(s[end - 1]) {
        trailing_end(s, floor, end - 1, p)
    } else {
        end
    }
}

pub proof fn lemma_trailing_end(s: Seq<char>, floor: int, end: int, p: spec_fn(char) -> bool)
    requires
        0 <= floor <= end <= s.len(),
    ensures
        floor <= trailing_end(s, floor, end, p) <= end,
        forall|k: int| trailing_end(s, floor, end, p) <= k < end ==> p(#[trigger] s[k]),
        trailing_end(s, floor, end, p) > floor ==> !p(s[trailing_end(s, floor, end, p) - 1]),
    decreases end - floor,
{
    if end > floor && p(s[end - 1]) {
        lemma_trailing_end(s, floor, end - 1, p);
    }
}

/// `s` with leading characters satisfying `p` removed.
pub open spec fn trim_start_by(s: Seq<char>, p: spec_fn(char) -> bool) -> Seq<char> {
    s.subrange(leading_count(s, p), s.len() as int)
}

/// `s` with leading and trailing characters satisfying `p` removed.
pub open spec fn trim_by(s: Seq<char>, p: spec_fn(char) -> bool) -> Seq<char> {
    let a = leading_count(s, p);
    s.subrange(a, trailing_end(s, a, s.len() as int, p))
}

/// `s` with trailing characters satisfying `p` removed.
pub open spec fn trim_end_by(s: Seq<char>, p: spec_fn(char) -> bool) -> Seq<char> {
    s.subrange(0, trailing_end(s, 0, s.len() as int, p))
}

/// The White_Space predicate as a spec closure.
pub open spec fn white_space() -> spec_fn(char) -> bool {
    |c: char| is_white_space(c)
}

/// `str::trim`.
pub open spec fn trim(s: Seq<char>) -> Seq<char> {
    trim_by(s, white_space())
}

/// `str::trim_start`.
pub open spec fn trim_start(s: Seq<char>) -> Seq<char> {
    trim_start_by(s, white_space())
}

/// Index of the first character of `s` at or after `from` that is not white space.
pub fn skip_white_space(s: &Vec<char>, from: usize) -> (r: usize)
    requires
        from <= s.len(),
    ensures
        r == first_from(s@, from as int, |c: char| !white_space()(c)),
{
    let mut i = from;
    while i < s.len() && char_is_whitespace(s[i])
        invariant
            from <= i <= s.len(),
            first_from(s@, from as int, |c: char| !white_space()(c)) == first_from(
                s@,
                i as int,
                |c: char| !white_space()(c),
            ),
        decreases s.len() - i,
    {
        i = i + 1;
    }
    i
}

/// End of `s[floor..end]` once trailing white space is removed.
pub fn back_over_white_space(s: &Vec<char>, floor: usize, end: usize) -> (r: usize)
    requires
        floor <= end <= s.len(),
    ensures
        r == trailing_end(s@, floor as int, end as int, white_space()),
{
    let mut e = end;
    while e > floor && char_is_whitespace(s[e - 1])
        invariant
            floor <= e <= end <= s.len(),
            trailing_end(s@, floor as int, end as int, white_space()) == trailing_end(
                s@,
                floor as int,
                e as int,
                white_space(),
            ),
        decreases e - floor,
    {
        e = e - 1;
    }
    e
}

/// `str::trim` on a character vector.
pub fn trim_chars(s: &Vec<char>) -> (r: Vec<char>)
    ensures
        r@ == trim(s@),
{
    let a = skip_white_space(s, 0);
    proof {
        lemma_first_from(s@, 0, |c: char| !white_space()(c));
        assert(leading_count(s@, white_space()) == a);
    }
    let b = back_over_white_space(s, a, s.len());
    proof {
        lemma_trailing_end(s@, a as int, s.len() as int, white_space());
    }
    slice_chars(s, a, b)
}

} // verus!

verus! {

/// The predicate "is the character `c`".
pub open spec fn is_char(c: char) -> spec_fn(char) -> bool {
    |x: char| x == c
}

/// The predicate "is not the character `c`".
pub open spec fn not_char(c: char) -> spec_fn(char) -> bool {
    |x: char| x != c
}

/// Length of the run of `c` that begins `s[from..]`, as an end index.
pub fn run_end(s: &Vec<char>, from: usize, c: char) -> (r: usize)
    requires
        from <= s.len(),
    ensures
        r == first_from(s@, from as int, not_char(c)),
{
    let mut i = from;
    while i < s.len() && s[i] == c
        invariant
            from <= i <= s.len(),
            first_from(s@, from as int, not_char(c)) == first_from(s@, i as int, not_char(c)),
        decreases s.len() - i,
    {
        i = i + 1;
    }
    i
}

/// Index of the first `c` in `s` at or after `from`, or the length.
pub fn find_char_from(s: &Vec<char>, from: usize, c: char) -> (r: usize)
    requires
        from <= s.len(),
    ensures
        r == first_from(s@, from as int, is_char(c)),
{
    let mut i = from;
    while i < s.len() && s[i] != c
        invariant
            from <= i <= s.len(),
            first_from(s@, from as int, is_char(c)) == first_from(s@, i as int, is_char(c)),
        decreases s.len() - i,
    {
        i = i + 1;
    }
    i
}

// ---------------------------------------------------------------------------
// Lexicographic order of character sequences. UTF-8 preserves code point order, so this
// is the order of `Ord for str` and `Ord for String`.
// ---------------------------------------------------------------------------

pub open spec fn seq_lt(a: Seq<char>, b: Seq<char>) -> bool
    decreases a.len(),
{
    if a.len() == 0 {
        b.len() > 0
    } else if b.len() == 0 {
        false
    } else if a[0] != b[0] {
        a[0] < b[0]
    } else {
        seq_lt(a.drop_first(), b.drop_first())
    }
}

pub proof fn lemma_seq_lt_irreflexive(a: Seq<char>)
    ensures
        !seq_lt(a, a),
    decreases a.len(),
{
    if a.len() > 0 {
        lemma_seq_lt_irreflexive(a.drop_first());
    }
}

pub proof fn lemma_seq_lt_asymmetric(a: Seq<char>, b: Seq<char>)
    ensures
        seq_lt(a, b) ==> !seq_lt(b, a),
    decreases a.len(),
{
    if a.len() > 0 && b.len() > 0 && a[0] == b[0] {
        lemma_seq_lt_asymmetric(a.drop_first(), b.drop_first());
    }
}

#[verifier::spinoff_prover]
pub proof fn lemma_seq_lt_total(a: Seq<char>, b: Seq<char>)
    requires
        a != b,
    ensures
        seq_lt(a, b) || seq_lt(b, a),
    decreases a.len(),
{
    if a.len() == 0 {
        if b.len() == 0 {
            assert(a =~= b);
        }
    } else if b.len() == 0 {
    } else if a[0] == b[0] {
        let a1 = a.drop_first();
        let b1 = b.drop_first();
        if a1 == b1 {
            assert(a1.len() == b1.len());
            assert(a.len() == b.len());
            assert forall|i: int| 0 <= i < a.len() implies a[i] == b[i] by {
                if i > 0 {
                    assert(a[i] == a1[i - 1]);
                    assert(b[i] == b1[i - 1]);
                }
            }
            assert(a =~= b);
        } else {
            lemma_seq_lt_total(a1, b1);
        }
    }
}

pub proof fn lemma_seq_lt_transitive(a: Seq<char>, b: Seq<char>, c: Seq<char>)
    requires
        seq_lt(a, b),
        seq_lt(b, c),
    ensures
        seq_lt(a, c),
    decreases a.len(),
{
    if a.len() > 0 && b.len() > 0 && c.len() > 0 && a[0] == b[0] && b[0] == c[0] {
        lemma_seq_lt_transitive(a.drop_first(), b.drop_first(), c.drop_first());
    }
}

/// Whether `a` sorts strictly before `b`.
pub fn chars_lt(a: &Vec<char>, b: &Vec<char>) -> (r: bool)
    ensures
        r == seq_lt(a@, b@),
{
    let mut i: usize = 0;
    assert(a@.skip(0) =~= a@);
    assert(b@.skip(0) =~= b@);
    while i < a.len() && i < b.len() && a[i] == b[i]
        invariant
            i <= a.len(),
            i <= b.len(),
            seq_lt(a@, b@) == seq_lt(a@.skip(i as int), b@.skip(i as int)),
        decreases a.len() - i,
    {
        assert(a@.skip(i as int).drop_first() =~= a@.skip(i + 1));
        assert(b@.skip(i as int).drop_first() =~= b@.skip(i + 1));
        i = i + 1;
    }
    assert(a@.skip(i as int).len() == a.len() - i);
    assert(b@.skip(i as int).len() == b.len() - i);
    if i == a.len() {
        i < b.len()
    } else if i == b.len() {
        false
    } else {
        a[i] < b[i]
    }
}

/// Every element sorts strictly before every later one.
pub open spec fn strictly_sorted(s: Seq<Seq<char>>) -> bool {
    forall|i: int, j: int| 0 <= i < j < s.len() ==> seq_lt(#[trigger] s[i], #[trigger] s[j])
}

/// The character sequences of a sequence of character vectors.
pub open spec fn char_views(v: Seq<Vec<char>>) -> Seq<Seq<char>> {
    v.map_values(|c: Vec<char>| c@)
}

/// The character sequences of a sequence of strings.
pub open spec fn views(v: Seq<String>) -> Seq<Seq<char>> {
    v.map_values(|s: String| s@)
}

} // verus!

verus! {

/// Appends the characters of `s` to `out`.
pub fn push_str(out: &mut String, s: &str)
    ensures
        final(out)@ == old(out)@ + s@,
{
    let cs = chars_of(s);
    let ghost start = out@;
    let mut i: usize = 0;
    while i < cs.len()
        invariant
            i <= cs.len(),
            cs@ == s@,
            out@ == start + cs@.take(i as int),
        decreases cs.len() - i,
    {
        out.push(cs[i]);
        i = i + 1;
        assert(start + cs@.take(i as int) =~= (start + cs@.take((i - 1) as int)).push(cs@[i - 1]));
    }
    assert(cs@.take(cs.len() as int) =~= cs@);
}

/// A new string holding the characters of `s`.
pub fn owned(s: &str) -> (r: String)
    ensures
        r@ == s@,
{
    let mut out = String::new();
    push_str(&mut out, s);
    assert(Seq::<char>::empty() + s@ =~= s@);
    out
}

/// Whether two strings hold the same characters.
pub fn str_eq(a: &str, b: &str) -> (r: bool)
    ensures
        r == (a@ == b@),
{
    chars_eq(&chars_of(a), &chars_of(b))
}

} // verus!

verus! {

/// Ascending order (equal neighbours allowed).
pub open spec fn sorted(s: Seq<Seq<char>>) -> bool {
    forall|i: int, j: int| 0 <= i < j < s.len() ==> !seq_lt(#[trigger] s[j], #[trigger] s[i])
}

/// The strings of `v` in ascending order (`slice::sort`): a stable insertion sort.
pub fn sort_strings(v: Vec<String>) -> (r: Vec<String>)
    ensures
        sorted(views(r@)),
        views(r@).to_multiset() == views(v@).to_multiset(),
{
    broadcast use vstd::seq_lib::to_multiset_build, vstd::seq_lib::to_multiset_insert;

    let ghost vv = views(v@);
    let mut out: Vec<String> = Vec::new();
    let mut i: usize = 0;
    assert(views(out@) =~= vv.take(0));
    while i < v.len()
        invariant
            i <= v.len(),
            vv == views(v@),
            sorted(views(out@)),
            views(out@).to_multiset() == vv.take(i as int).to_multiset(),
        decreases v.len() - i,
    {
        let item = v[i].clone();
        let ic = chars_of(item.as_str());
        let ghost o = views(out@);
        let mut p: usize = 0;
        while p < out.len() && !chars_lt(&ic, &chars_of(out[p].as_str()))
            invariant
                p <= out.len(),
                o == views(out@),
                ic@ == item@,
                forall|k: int| 0 <= k < p ==> !seq_lt(ic@, #[trigger] o[k]),
            decreases out.len() - p,
        {
            p = p + 1;
        }
        out.insert(p, item);
        proof {
            let n = views(out@);
            assert(n =~= o.insert(p as int, ic@));
            assert(vv.take(i + 1) =~= vv.take(i as int).push(vv[i as int]));
            assert(ic@ == vv[i as int]);
            vstd::seq_lib::to_multiset_insert(o, p as int, ic@);
            vstd::seq_lib::to_multiset_build(vv.take(i as int), vv[i as int]);
            assert forall|a: int, b: int| 0 <= a < b < n.len() implies !seq_lt(
                #[trigger] n[b],
                #[trigger] n[a],
            ) by {
                if b < p {
                    assert(n[a] == o[a] && n[b] == o[b]);
                } else if b == p {
                    assert(n[a] == o[a] && n[b] == ic@);
                } else if a > p {
                    assert(n[a] == o[a - 1] && n[b] == o[b - 1]);
                } else if a == p {
                    assert(n[a] == ic@ && n[b] == o[b - 1]);
                    assert(seq_lt(ic@, o[p as int]));
                    if seq_lt(o[b - 1], ic@) {
                        if b - 1 > p {
                            lemma_seq_lt_transitive(o[b - 1], ic@, o[p as int]);
                            lemma_seq_lt_asymmetric(o[p as int], o[b - 1]);
                        } else {
                            lemma_seq_lt_asymmetric(ic@, o[p as int]);
                        }
                    }
                } else {
                    assert(n[a] == o[a] && n[b] == o[b - 1]);
                }
            }
        }
        i = i + 1;
    }
    assert(vv.take(v.len() as int) =~= vv);
    out
}

/// `parts` joined with `sep` between neighbours.
pub open spec fn joined(parts: Seq<Seq<char>>, sep: Seq<char>) -> Seq<char>
    decreases parts.len(),
{
    if parts.len() == 0 {
        seq![]
    } else if parts.len() == 1 {
        parts[0]
    } else {
        joined(parts.drop_last(), sep) + sep + parts.last()
    }
}

} // verus!

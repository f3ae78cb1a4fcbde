//! Unix paths as `/`-separated strings: their components, file names and extensions, in the
//! sense of `std::path::Path`.
use vstd::prelude::*;

use crate::text;
use crate::text::{chars_eq, chars_of, find_char_from, slice_chars, string_of};

verus! {

/// A path that begins at the root.
pub open spec fn is_absolute(p: Seq<char>) -> bool {
    p.len() > 0 && p[0] == '/'
}

pub open spec fn dot() -> Seq<char> {
    seq!['.']
}

pub open spec fn dot_dot() -> Seq<char> {
    seq!['.', '.']
}

pub open spec fn root_token() -> Seq<char> {
    seq!['/']
}

/// A segment between separators that is a component of its own: not empty and not `.`.
pub open spec fn keep_part(s: Seq<char>) -> bool {
    s.len() > 0 && s != dot()
}

/// The segments of `p` from `start` on that are components: empty segments (repeated or
/// trailing separators) and `.` segments are dropped.
pub open spec fn parts_from(p: Seq<char>, start: int) -> Seq<Seq<char>>
    decreases p.len() - start,
{
    if start < 0 || start > p.len() {
        seq![]
    } else {
        proof {
            text::lemma_first_from(p, start, text::is_char('/'));
        }
        let j = text::first_from(p, start, text::is_char('/'));
        let seg = p.subrange(start, j);
        let head = if keep_part(seg) {
            seq![seg]
        } else {
            seq![]
        };
        if j < p.len() {
            head + parts_from(p, j + 1)
        } else {
            head
        }
    }
}

/// The named components of `p` (`Normal` and `ParentDir` components).
pub open spec fn parts(p: Seq<char>) -> Seq<Seq<char>> {
    parts_from(p, 0)
}

/// The path begins with a `.` component (`CurDir`).
pub open spec fn cur_dir_lead(p: Seq<char>) -> bool {
    p.subrange(0, text::first_from(p, 0, text::is_char('/'))) == dot()
}

/// `Path::components`: `/` for the root, `.` for a leading current directory, then the named
/// components.
pub open spec fn components(p: Seq<char>) -> Seq<Seq<char>> {
    (if is_absolute(p) {
        seq![root_token()]
    } else {
        seq![]
    }) + (if cur_dir_lead(p) {
        seq![dot()]
    } else {
        seq![]
    }) + parts(p)
}

/// `Path::file_name`: the last component if it is a named one other than `..`.
pub open spec fn file_name(p: Seq<char>) -> Option<Seq<char>> {
    let ps = parts(p);
    if ps.len() > 0 && ps.last() != dot_dot() {
        Some(ps.last())
    } else {
        None
    }
}

/// Index of the last `c` in `s`, or -1.
pub open spec fn last_index_of(s: Seq<char>, c: char) -> int
    decreases s.len(),
{
    if s.len() == 0 {
        -1
    } else if s.last() == c {
        s.len() - 1
    } else {
        last_index_of(s.drop_last(), c)
    }
}

pub proof fn lemma_last_index_of(s: Seq<char>, c: char)
    ensures
        -1 <= last_index_of(s, c) < s.len(),
        last_index_of(s, c) >= 0 ==> s[last_index_of(s, c)] == c,
        forall|k: int| last_index_of(s, c) < k < s.len() ==> s[k] != c,
    decreases s.len(),
{
    if s.len() > 0 && s.last() != c {
        lemma_last_index_of(s.drop_last(), c);
        assert forall|k: int| last_index_of(s, c) < k < s.len() implies s[k] != c by {
            if k < s.len() - 1 {
                assert(s[k] == s.drop_last()[k]);
            }
        }
    }
}

/// The extension of a file name: what follows its last `.`, unless it has none, that `.` is
/// its first character, or the name is `..`.
pub open spec fn name_extension(f: Seq<char>) -> Option<Seq<char>> {
    let k = last_index_of(f, '.');
    if f == dot_dot() || k <= 0 {
        None
    } else {
        Some(f.subrange(k + 1, f.len() as int))
    }
}

/// The stem of a file name: what precedes its last `.` where it has an extension, else all
/// of it.
pub open spec fn name_stem(f: Seq<char>) -> Seq<char> {
    let k = last_index_of(f, '.');
    if f == dot_dot() || k <= 0 {
        f
    } else {
        f.subrange(0, k)
    }
}

/// `Path::extension`.
pub open spec fn extension(p: Seq<char>) -> Option<Seq<char>> {
    match file_name(p) {
        Some(f) => name_extension(f),
        None => None,
    }
}

/// `Path::file_stem`.
pub open spec fn file_stem(p: Seq<char>) -> Option<Seq<char>> {
    match file_name(p) {
        Some(f) => Some(name_stem(f)),
        None => None,
    }
}

/// `Path::strip_prefix`: the components of `path` after those of `base`, when those of
/// `base` begin those of `path`.
pub open spec fn strip_prefix(path: Seq<char>, base: Seq<char>) -> Option<Seq<Seq<char>>> {
    let pc = components(path);
    let bc = components(base);
    if bc.len() <= pc.len() && pc.subrange(0, bc.len() as int) == bc {
        Some(pc.subrange(bc.len() as int, pc.len() as int))
    } else {
        None
    }
}

/// `s` ends with `suffix`.
pub open spec fn ends_with(s: Seq<char>, suffix: Seq<char>) -> bool {
    suffix.len() <= s.len() && s.subrange(s.len() - suffix.len(), s.len() as int) == suffix
}

/// `base.join(rel)` for a relative `rel`: a separator is added unless `base` is empty or
/// already ends with one.
pub open spec fn join_path(base: Seq<char>, rel: Seq<char>) -> Seq<char> {
    if base.len() == 0 {
        rel
    } else if base.last() == '/' {
        base + rel
    } else {
        base.push('/') + rel
    }
}

proof fn lemma_parts_shift(x: Seq<char>, y: Seq<char>, t: int)
    requires
        0 <= t <= y.len(),
    ensures
        parts_from(x + y, x.len() + t) == parts_from(y, t),
    decreases y.len() - t,
{
    let slash = text::is_char('/');
    text::lemma_first_from_shift(x, y, t, slash);
    text::lemma_first_from(y, t, slash);
    let j = text::first_from(y, t, slash);
    assert((x + y).subrange(x.len() + t, x.len() + j) =~= y.subrange(t, j));
    if j < y.len() {
        lemma_parts_shift(x, y, j + 1);
    }
}

/// The named components of `a/c` are those of `a` followed by those of `c`.
proof fn lemma_parts_join(a: Seq<char>, c: Seq<char>, st: int)
    requires
        0 <= st <= a.len(),
    ensures
        parts_from(a.push('/') + c, st) == parts_from(a, st) + parts(c),
    decreases a.len() - st,
{
    let slash = text::is_char('/');
    let p = a.push('/') + c;
    assert(p =~= a + (seq!['/'] + c));
    text::lemma_first_from_prefix(a, seq!['/'] + c, st, slash);
    text::lemma_first_from(a, st, slash);
    let ja = text::first_from(a, st, slash);
    let jp = text::first_from(p, st, slash);
    if ja < a.len() {
        assert(jp == ja);
        assert(p.subrange(st, jp) =~= a.subrange(st, ja));
        lemma_parts_join(a, c, ja + 1);
        let seg = a.subrange(st, ja);
        let head: Seq<Seq<char>> = if keep_part(seg) {
            seq![seg]
        } else {
            seq![]
        };
        assert(parts_from(p, st) == head + parts_from(p, ja + 1));
        assert(parts_from(a, st) == head + parts_from(a, ja + 1));
        assert(head + (parts_from(a, ja + 1) + parts(c)) =~= (head + parts_from(a, ja + 1)) + parts(
            c,
        ));
    } else {
        assert(p[a.len() as int] == '/');
        assert(jp == a.len());
        assert(p.subrange(st, jp) =~= a.subrange(st, ja));
        lemma_parts_shift(a.push('/'), c, 0);
        assert(a.push('/').len() + 0 == a.len() + 1);
    }
}

/// The first segment of `a/c` (up to its first separator) is that of `a`.
proof fn lemma_first_segment_join(a: Seq<char>, c: Seq<char>)
    ensures
        (a.push('/') + c).subrange(0, text::first_from(a.push('/') + c, 0, text::is_char('/')))
            == a.subrange(0, text::first_from(a, 0, text::is_char('/'))),
{
    let slash = text::is_char('/');
    let p = a.push('/') + c;
    assert(p =~= a + (seq!['/'] + c));
    text::lemma_first_from_prefix(a, seq!['/'] + c, 0, slash);
    text::lemma_first_from(a, 0, slash);
    let ja = text::first_from(a, 0, slash);
    if ja >= a.len() {
        assert(p[a.len() as int] == '/');
    }
    assert(p.subrange(0, ja) =~= a.subrange(0, ja));
}

/// A path joined onto `base` lies under `base`: the components of `base` begin its own.
pub proof fn lemma_join_under_base(base: Seq<char>, rel: Seq<char>)
    ensures
        strip_prefix(join_path(base, rel), base) is Some,
{
    let p = join_path(base, rel);
    if base.len() == 0 {
        assert(!is_absolute(base));
        text::lemma_first_from(base, 0, text::is_char('/'));
        assert(base.subrange(0, 0).len() != dot().len());
        assert(components(base) =~= Seq::<Seq<char>>::empty());
        assert(components(p).subrange(0, 0) =~= components(base));
    } else {
        let a = if base.last() == '/' {
            base.drop_last()
        } else {
            base
        };
        let c = rel;
        assert(p =~= a.push('/') + c);
        lemma_parts_join(a, c, 0);
        lemma_first_segment_join(a, c);
        if base.last() == '/' {
            assert(base =~= a.push('/') + Seq::<char>::empty());
            lemma_parts_join(a, Seq::<char>::empty(), 0);
            lemma_first_segment_join(a, Seq::<char>::empty());
            assert(parts(Seq::<char>::empty()) =~= Seq::<Seq<char>>::empty()) by {
                text::lemma_first_from(Seq::<char>::empty(), 0, text::is_char('/'));
            }
            assert(parts(base) =~= parts(a));
        }
        assert(is_absolute(p) == is_absolute(base)) by {
            assert(p[0] == base[0]);
        }
        let lead: Seq<Seq<char>> = (if is_absolute(base) {
            seq![root_token()]
        } else {
            seq![]
        }) + (if cur_dir_lead(base) {
            seq![dot()]
        } else {
            seq![]
        });
        assert(components(base) == lead + parts(a));
        assert(components(p) == lead + (parts(a) + parts(rel)));
        assert(components(p).subrange(0, components(base).len() as int) =~= components(base));
    }
}

// ---------------------------------------------------------------------------
// Executable counterparts.
// ---------------------------------------------------------------------------

fn is_dot(s: &Vec<char>) -> (r: bool)
    ensures
        r == (s@ == dot()),
{
    let r = s.len() == 1 && s[0] == '.';
    proof {
        if s@ == dot() {
            assert(s@[0] == '.');
        }
        if r {
            assert(s@ =~= dot());
        }
    }
    r
}

fn is_dot_dot(s: &Vec<char>) -> (r: bool)
    ensures
        r == (s@ == dot_dot()),
{
    let r = s.len() == 2 && s[0] == '.' && s[1] == '.';
    proof {
        if s@ == dot_dot() {
            assert(s@[0] == '.' && s@[1] == '.');
        }
        if r {
            assert(s@ =~= dot_dot());
        }
    }
    r
}

/// The named components of a path.
pub fn parts_of(p: &Vec<char>) -> (r: Vec<Vec<char>>)
    ensures
        text::char_views(r@) == parts(p@),
{
    let mut out: Vec<Vec<char>> = Vec::new();
    let mut start: usize = 0;
    loop
        invariant
            start <= p.len(),
            text::char_views(out@) + parts_from(p@, start as int) == parts(p@),
        decreases p.len() - start,
    {
        let j = find_char_from(p, start, '/');
        proof {
            text::lemma_first_from(p@, start as int, text::is_char('/'));
        }
        let seg = slice_chars(p, start, j);
        let ghost before = text::char_views(out@);
        let keep = seg.len() > 0 && !is_dot(&seg);
        if keep {
            out.push(seg);
            proof {
                assert(text::char_views(out@) =~= before.push(seg@));
            }
        }
        let ghost head: Seq<Seq<char>> = if keep {
            seq![seg@]
        } else {
            seq![]
        };
        if j < p.len() {
            proof {
                assert(parts_from(p@, start as int) == head + parts_from(p@, j + 1));
                assert(text::char_views(out@) =~= before + head);
            }
            start = j + 1;
        } else {
            proof {
                assert(parts_from(p@, start as int) == head);
                assert(text::char_views(out@) =~= before + head);
                assert(parts_from(p@, start as int) == head + parts_from(p@, p.len() + 1));
            }
            return out;
        }
    }
}

/// The components of a path, as `Path::components` yields them.
pub fn components_of(p: &Vec<char>) -> (r: Vec<Vec<char>>)
    ensures
        text::char_views(r@) == components(p@),
{
    let mut out: Vec<Vec<char>> = Vec::new();
    let ghost mut lead: Seq<Seq<char>> = seq![];
    if p.len() > 0 && p[0] == '/' {
        let root = vec!['/'];
        assert(root@ =~= root_token());
        out.push(root);
        proof {
            lead = lead.push(root_token());
        }
    }
    let j = find_char_from(p, 0, '/');
    proof {
        text::lemma_first_from(p@, 0, text::is_char('/'));
    }
    let first = slice_chars(p, 0, j);
    if is_dot(&first) {
        let cur = vec!['.'];
        assert(cur@ =~= dot());
        out.push(cur);
        proof {
            lead = lead.push(dot());
        }
    }
    proof {
        assert(text::char_views(out@) =~= lead);
        assert(lead =~= (if is_absolute(p@) {
            seq![root_token()]
        } else {
            seq![]
        }) + (if cur_dir_lead(p@) {
            seq![dot()]
        } else {
            seq![]
        }));
    }
    let rest = parts_of(p);
    let mut i: usize = 0;
    while i < rest.len()
        invariant
            i <= rest.len(),
            text::char_views(out@) == lead + text::char_views(rest@).take(i as int),
        decreases rest.len() - i,
    {
        let ghost before = text::char_views(out@);
        out.push(rest[i].clone());
        i = i + 1;
        proof {
            assert(text::char_views(out@) =~= before.push(rest@[i - 1]@));
            assert(text::char_views(rest@).take(i as int) =~= text::char_views(rest@).take(
                (i - 1) as int,
            ).push(rest@[i - 1]@));
        }
    }
    assert(text::char_views(rest@).take(rest.len() as int) =~= text::char_views(rest@));
    out
}

/// The file name of a path.
pub fn file_name_of(p: &Vec<char>) -> (r: Option<Vec<char>>)
    ensures
        r matches Some(f) ==> file_name(p@) == Some(f@),
        r is None ==> file_name(p@) is None,
{
    let ps = parts_of(p);
    if ps.len() > 0 && !is_dot_dot(&ps[ps.len() - 1]) {
        let last = ps[ps.len() - 1].clone();
        assert(text::char_views(ps@).last() == last@);
        Some(last)
    } else {
        proof {
            if ps.len() > 0 {
                assert(text::char_views(ps@).last() == ps@[ps.len() - 1]@);
            }
        }
        None
    }
}

/// Index of the last `c` in `s`, if any.
fn last_index(s: &Vec<char>, c: char) -> (r: Option<usize>)
    ensures
        r matches Some(k) ==> last_index_of(s@, c) == k,
        r is None ==> last_index_of(s@, c) == -1,
{
    let mut e = s.len();
    proof {
        lemma_take_all(s@);
    }
    while e > 0 && s[e - 1] != c
        invariant
            e <= s.len(),
            last_index_of(s@, c) == last_index_of(s@.take(e as int), c),
        decreases e,
    {
        assert(s@.take(e as int).drop_last() =~= s@.take(e - 1));
        e = e - 1;
    }
    if e == 0 {
        assert(s@.take(0).len() == 0);
        None
    } else {
        assert(s@.take(e as int).last() == c);
        Some(e - 1)
    }
}

proof fn lemma_take_all(s: Seq<char>)
    ensures
        s.take(s.len() as int) == s,
{
    assert(s.take(s.len() as int) =~= s);
}

/// The extension of a file name.
pub fn name_extension_of(f: &Vec<char>) -> (r: Option<Vec<char>>)
    ensures
        r matches Some(e) ==> name_extension(f@) == Some(e@),
        r is None ==> name_extension(f@) is None,
{
    proof {
        lemma_take_all(f@);
    }
    if is_dot_dot(f) {
        return None;
    }
    proof {
        lemma_last_index_of(f@, '.');
    }
    match last_index(f, '.') {
        Some(k) => if k == 0 {
            None
        } else {
            assert(k < f.len());
            Some(slice_chars(f, k + 1, f.len()))
        },
        None => None,
    }
}

/// The stem of a file name.
pub fn name_stem_of(f: &Vec<char>) -> (r: Vec<char>)
    ensures
        r@ == name_stem(f@),
{
    proof {
        lemma_take_all(f@);
    }
    if is_dot_dot(f) {
        return f.clone();
    }
    proof {
        lemma_last_index_of(f@, '.');
    }
    match last_index(f, '.') {
        Some(k) => if k == 0 {
            f.clone()
        } else {
            slice_chars(f, 0, k)
        },
        None => f.clone(),
    }
}

/// Whether `s` ends with `suffix`.
pub fn ends_with_chars(s: &Vec<char>, suffix: &Vec<char>) -> (r: bool)
    ensures
        r == ends_with(s@, suffix@),
{
    if suffix.len() > s.len() {
        return false;
    }
    let tail = slice_chars(s, s.len() - suffix.len(), s.len());
    chars_eq(&tail, suffix)
}

/// The components of `path` after those of `base`, if those of `base` begin them.
pub fn strip_prefix_of(path: &Vec<char>, base: &Vec<char>) -> (r: Option<Vec<Vec<char>>>)
    ensures
        r matches Some(rest) ==> strip_prefix(path@, base@) == Some(text::char_views(rest@)),
        r is None ==> strip_prefix(path@, base@) is None,
{
    let pc = components_of(path);
    let bc = components_of(base);
    let ghost pv = text::char_views(pc@);
    let ghost bv = text::char_views(bc@);
    assert(pv.len() == pc.len() && bv.len() == bc.len());
    if bc.len() > pc.len() {
        return None;
    }
    let mut i: usize = 0;
    while i < bc.len()
        invariant
            bc.len() <= pc.len(),
            i <= bc.len(),
            pv == text::char_views(pc@),
            bv == text::char_views(bc@),
            pv == components(path@),
            bv == components(base@),
            forall|k: int| 0 <= k < i ==> pv[k] == bv[k],
        decreases bc.len() - i,
    {
        if !chars_eq(&pc[i], &bc[i]) {
            proof {
                assert(pv[i as int] == pc@[i as int]@);
                assert(bv[i as int] == bc@[i as int]@);
                assert(pv.subrange(0, bv.len() as int)[i as int] != bv[i as int]);
                assert(pv.subrange(0, bv.len() as int) != bv);
            }
            return None;
        }
        i = i + 1;
    }
    assert(pv.subrange(0, bv.len() as int) =~= bv);
    let mut rest: Vec<Vec<char>> = Vec::new();
    let mut k: usize = bc.len();
    while k < pc.len()
        invariant
            bc.len() <= k <= pc.len(),
            pv == text::char_views(pc@),
            text::char_views(rest@) =~= pv.subrange(bc.len() as int, k as int),
        decreases pc.len() - k,
    {
        let ghost before = text::char_views(rest@);
        rest.push(pc[k].clone());
        k = k + 1;
        proof {
            assert(text::char_views(rest@) =~= before.push(pv[k - 1]));
        }
    }
    Some(rest)
}

/// `base.join(rel)`.
pub fn join(base: &str, rel: &str) -> (r: String)
    ensures
        r@ == join_path(base@, rel@),
{
    let mut cs = chars_of(base);
    let rc = chars_of(rel);
    if cs.len() > 0 && cs[cs.len() - 1] != '/' {
        cs.push('/');
    }
    let ghost head = cs@;
    let mut i: usize = 0;
    while i < rc.len()
        invariant
            i <= rc.len(),
            cs@ == head + rc@.take(i as int),
        decreases rc.len() - i,
    {
        cs.push(rc[i]);
        i = i + 1;
        assert(head + rc@.take(i as int) =~= (head + rc@.take((i - 1) as int)).push(rc@[i - 1]));
    }
    assert(rc@.take(rc.len() as int) =~= rc@);
    proof {
        if base@.len() > 0 && base@.last() != '/' {
            assert(head == base@.push('/'));
        } else {
            assert(head == base@);
            if base@.len() == 0 {
                assert(head + rc@ =~= rc@);
            }
        }
    }
    string_of(&cs)
}

/// Where the named components of `p` from `start` on stand: the range of each in `p`.
pub open spec fn spans_from(p: Seq<char>, start: int) -> Seq<(int, int)>
    decreases p.len() - start,
{
    if start < 0 || start > p.len() {
        seq![]
    } else {
        proof {
            text::lemma_first_from(p, start, text::is_char('/'));
        }
        let j = text::first_from(p, start, text::is_char('/'));
        let head = if keep_part(p.subrange(start, j)) {
            seq![(start, j)]
        } else {
            seq![]
        };
        if j < p.len() {
            head + spans_from(p, j + 1)
        } else {
            head
        }
    }
}

pub open spec fn spans(p: Seq<char>) -> Seq<(int, int)> {
    spans_from(p, 0)
}

/// The ranges lie in `p` from `start` on, in order, each non-empty, with a separator between
/// neighbours, and they are where the named components stand.
proof fn lemma_spans_from(p: Seq<char>, start: int)
    requires
        0 <= start <= p.len(),
    ensures
        spans_from(p, start).len() == parts_from(p, start).len(),
        forall|k: int|
            0 <= k < spans_from(p, start).len() ==> start <= (#[trigger] spans_from(p, start)[k]).0
                < spans_from(p, start)[k].1 <= p.len(),
        forall|k: int|
            0 <= k < spans_from(p, start).len() ==> parts_from(p, start)[k] == p.subrange(
                (#[trigger] spans_from(p, start)[k]).0,
                spans_from(p, start)[k].1,
            ),
        forall|k: int, m: int|
            0 <= k < m < spans_from(p, start).len() ==> (#[trigger] spans_from(p, start)[k]).1
                < (#[trigger] spans_from(p, start)[m]).0,
    decreases p.len() - start,
{
    text::lemma_first_from(p, start, text::is_char('/'));
    let j = text::first_from(p, start, text::is_char('/'));
    let seg = p.subrange(start, j);
    let sh: Seq<(int, int)> = if keep_part(seg) {
        seq![(start, j)]
    } else {
        seq![]
    };
    let ph: Seq<Seq<char>> = if keep_part(seg) {
        seq![seg]
    } else {
        seq![]
    };
    if j < p.len() {
        lemma_spans_from(p, j + 1);
        let sr = spans_from(p, j + 1);
        let pr = parts_from(p, j + 1);
        let sa = spans_from(p, start);
        let pa = parts_from(p, start);
        assert(sa == sh + sr);
        assert(pa == ph + pr);
        assert forall|k: int| 0 <= k < sa.len() implies start <= (#[trigger] sa[k]).0 < sa[k].1
            <= p.len() && pa[k] == p.subrange(sa[k].0, sa[k].1) by {
            if k >= sh.len() {
                assert(sa[k] == sr[k - sh.len()]);
                assert(pa[k] == pr[k - sh.len()]);
            }
        }
        assert forall|k: int, m: int| 0 <= k < m < sa.len() implies (#[trigger] sa[k]).1 < (
        #[trigger] sa[m]).0 by {
            assert(sa[m] == sr[m - sh.len()]);
            if k >= sh.len() {
                assert(sa[k] == sr[k - sh.len()]);
            }
        }
    } else {
        assert(spans_from(p, start) == sh);
        assert(parts_from(p, start) == ph);
    }
}

/// How many components come before the named ones: the root, or a leading `.`, or none.
pub open spec fn lead_count(p: Seq<char>) -> int {
    components(p).len() - parts(p).len()
}

/// The text of what is left of `p` once its first `m` components are taken away, as
/// `Components::as_path` gives it: from the first named component left to the last one,
/// with what stands between them kept as written; with nothing taken away, `p` up to its last
/// component.
pub open spec fn remainder_text(p: Seq<char>, m: int) -> Seq<char> {
    let sp = spans(p);
    let n = sp.len();
    let l = lead_count(p);
    if m == 0 {
        if n > 0 {
            p.subrange(0, sp[n - 1].1)
        } else {
            p.subrange(0, l)
        }
    } else if m - l < n {
        p.subrange(sp[m - l].0, sp[n - 1].1)
    } else {
        seq![]
    }
}

/// `path.strip_prefix(base)` as text: what is left of `path` once the components of `base`
/// are taken away, when they begin those of `path`.
pub open spec fn relative_to(path: Seq<char>, base: Seq<char>) -> Option<Seq<char>> {
    match strip_prefix(path, base) {
        Some(_) => Some(remainder_text(path, components(base).len() as int)),
        None => None,
    }
}

/// Where the named components of a path stand.
fn spans_of(p: &Vec<char>) -> (r: Vec<(usize, usize)>)
    ensures
        r@.len() == spans(p@).len(),
        forall|k: int| 0 <= k < r@.len() ==> (r@[k].0 as int, r@[k].1 as int) == spans(p@)[k],
{
    let mut out: Vec<(usize, usize)> = Vec::new();
    let mut start: usize = 0;
    loop
        invariant
            start <= p.len(),
            out@.len() + spans_from(p@, start as int).len() == spans(p@).len(),
            forall|k: int|
                0 <= k < out@.len() ==> (out@[k].0 as int, out@[k].1 as int) == spans(p@)[k],
            forall|k: int|
                0 <= k < spans_from(p@, start as int).len() ==> spans_from(p@, start as int)[k]
                    == spans(p@)[out@.len() + k],
        decreases p.len() - start,
    {
        let j = find_char_from(p, start, '/');
        proof {
            text::lemma_first_from(p@, start as int, text::is_char('/'));
        }
        let seg = slice_chars(p, start, j);
        let keep = seg.len() > 0 && !is_dot(&seg);
        let ghost head: Seq<(int, int)> = if keep {
            seq![(start as int, j as int)]
        } else {
            seq![]
        };
        let ghost rest: Seq<(int, int)> = if j < p.len() {
            spans_from(p@, j + 1)
        } else {
            seq![]
        };
        let ghost n0 = out@.len();
        proof {
            assert(spans_from(p@, start as int) == head + rest);
        }
        if keep {
            proof {
                assert(spans_from(p@, start as int)[0] == (start as int, j as int));
            }
            out.push((start, j));
        }
        proof {
            assert forall|k: int| 0 <= k < rest.len() implies rest[k] == spans(p@)[out@.len() + k] by {
                assert(spans_from(p@, start as int)[head.len() + k] == rest[k]);
            }
        }
        if j < p.len() {
            start = j + 1;
        } else {
            assert(out@.len() == spans(p@).len());
            return out;
        }
    }
}

/// `path.strip_prefix(base)` as text: what is left of `path` once the components of `base`
/// are taken away, or none when they do not begin those of `path`.
pub fn relative_path(path: &str, base: &str) -> (r: Option<String>)
    ensures
        r matches Some(s) ==> relative_to(path@, base@) == Some(s@),
        r is None ==> relative_to(path@, base@) is None,
{
    let p = chars_of(path);
    let b = chars_of(base);
    if strip_prefix_of(&p, &b).is_none() {
        return None;
    }
    let m = components_of(&b).len();
    let lead = components_of(&p).len() - parts_of(&p).len();
    let sp = spans_of(&p);
    let n = sp.len();
    proof {
        lemma_spans_from(p@, 0);
        lemma_lead_count(p@);
    }
    let text = if m == 0 {
        if n > 0 {
            slice_chars(&p, 0, sp[n - 1].1)
        } else {
            slice_chars(&p, 0, lead)
        }
    } else if m - lead < n {
        slice_chars(&p, sp[m - lead].0, sp[n - 1].1)
    } else {
        Vec::new()
    };
    Some(string_of(&text))
}

/// At most one component comes before the named ones, and it is one character long.
proof fn lemma_lead_count(p: Seq<char>)
    ensures
        0 <= lead_count(p) <= 1,
        lead_count(p) == 1 ==> p.len() >= 1,
{
    text::lemma_first_from(p, 0, text::is_char('/'));
    if is_absolute(p) {
        assert(text::first_from(p, 0, text::is_char('/')) == 0);
        assert(p.subrange(0, 0).len() == 0);
        assert(!cur_dir_lead(p));
    }
    if cur_dir_lead(p) {
        let j = text::first_from(p, 0, text::is_char('/'));
        assert(p.subrange(0, j).len() == 1);
    }
}

} // verus!

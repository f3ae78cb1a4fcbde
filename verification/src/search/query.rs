//! How a search query is read and how hits are assembled.
use vstd::prelude::*;

use crate::text;
use crate::text::{chars_of, char_is_whitespace, owned, skip_white_space, slice_chars, string_of, trim_chars};

verus! {

// ---------------------------------------------------------------------------
// Reading a query.
// ---------------------------------------------------------------------------

/// The predicate "is not white space".
pub open spec fn non_white() -> spec_fn(char) -> bool {
    |c: char| !text::white_space()(c)
}

/// The white-space separated tokens of `s` from `i` on (`str::split_whitespace`).
pub open spec fn tokens_from(s: Seq<char>, i: int) -> Seq<Seq<char>>
    decreases s.len() - i,
{
    if i < 0 || i >= s.len() {
        seq![]
    } else {
        proof {
            text::lemma_first_from(s, i, non_white());
        }
        let a = text::first_from(s, i, non_white());
        if a >= s.len() {
            seq![]
        } else {
            proof {
                text::lemma_first_from(s, a + 1, text::white_space());
            }
            let b = text::first_from(s, a, text::white_space());
            seq![s.subrange(a, b)] + tokens_from(s, b)
        }
    }
}

pub open spec fn tokens(s: Seq<char>) -> Seq<Seq<char>> {
    tokens_from(s, 0)
}

/// A tag filter: `#` followed by at least one character.
pub open spec fn is_tag_token(t: Seq<char>) -> bool {
    t.len() > 1 && t[0] == '#'
}

/// The tags the tag filters ask for (each filter less its `#`), in order.
pub open spec fn tag_values(ts: Seq<Seq<char>>) -> Seq<Seq<char>>
    decreases ts.len(),
{
    if ts.len() == 0 {
        seq![]
    } else if is_tag_token(ts.last()) {
        tag_values(ts.drop_last()).push(ts.last().drop_first())
    } else {
        tag_values(ts.drop_last())
    }
}

/// The tokens that are not tag filters, in order.
pub open spec fn free_tokens(ts: Seq<Seq<char>>) -> Seq<Seq<char>>
    decreases ts.len(),
{
    if ts.len() == 0 {
        seq![]
    } else if is_tag_token(ts.last()) {
        free_tokens(ts.drop_last())
    } else {
        free_tokens(ts.drop_last()).push(ts.last())
    }
}

/// The free text of a query: its other tokens joined with single spaces, trimmed.
pub open spec fn free_text(q: Seq<char>) -> Seq<char> {
    text::trim(text::joined(free_tokens(tokens(q)), " "@))
}

/// A token: non-empty, and no white space in it.
pub open spec fn token_shape(t: Seq<char>) -> bool {
    t.len() > 0 && forall|j: int| 0 <= j < t.len() ==> !text::is_white_space(#[trigger] t[j])
}

proof fn lemma_tokens_from_shape(s: Seq<char>, i: int)
    requires
        0 <= i <= s.len(),
    ensures
        forall|k: int|
            0 <= k < tokens_from(s, i).len() ==> token_shape(#[trigger] tokens_from(s, i)[k]),
        tokens_from(s, i).len() == 0 <==> forall|k: int|
            i <= k < s.len() ==> text::is_white_space(#[trigger] s[k]),
    decreases s.len() - i,
{
    if i < s.len() {
        text::lemma_first_from(s, i, non_white());
        let a = text::first_from(s, i, non_white());
        if a < s.len() {
            text::lemma_first_from(s, a, text::white_space());
            let b = text::first_from(s, a, text::white_space());
            lemma_tokens_from_shape(s, b);
            let t = s.subrange(a, b);
            let ts = tokens_from(s, i);
            assert(ts == seq![t] + tokens_from(s, b));
            assert(token_shape(t)) by {
                assert forall|j: int| 0 <= j < t.len() implies !text::is_white_space(
                    #[trigger] t[j],
                ) by {
                    assert(t[j] == s[a + j]);
                }
            }
            assert forall|k: int| 0 <= k < ts.len() implies token_shape(#[trigger] ts[k]) by {
                if k > 0 {
                    assert(ts[k] == tokens_from(s, b)[k - 1]);
                }
            }
            assert(!text::is_white_space(s[a]));
        } else {
            assert forall|k: int| i <= k < s.len() implies text::is_white_space(#[trigger] s[k]) by {
                assert(!non_white()(s[k]));
            }
        }
    }
}

proof fn lemma_split_counts(ts: Seq<Seq<char>>)
    ensures
        tag_values(ts).len() + free_tokens(ts).len() == ts.len(),
        (forall|k: int| 0 <= k < ts.len() ==> token_shape(#[trigger] ts[k])) ==> forall|k: int|
            0 <= k < free_tokens(ts).len() ==> token_shape(#[trigger] free_tokens(ts)[k]),
    decreases ts.len(),
{
    if ts.len() > 0 {
        lemma_split_counts(ts.drop_last());
        if forall|k: int| 0 <= k < ts.len() ==> token_shape(#[trigger] ts[k]) {
            assert forall|k: int| 0 <= k < ts.drop_last().len() implies token_shape(
                #[trigger] ts.drop_last()[k],
            ) by {
                assert(ts.drop_last()[k] == ts[k]);
            }
            assert(token_shape(ts[ts.len() - 1]));
        }
    }
}

proof fn lemma_joined_starts_with_first(parts: Seq<Seq<char>>, sep: Seq<char>)
    requires
        parts.len() > 0,
        parts[0].len() > 0,
    ensures
        text::joined(parts, sep).len() > 0,
        text::joined(parts, sep)[0] == parts[0][0],
    decreases parts.len(),
{
    if parts.len() > 1 {
        lemma_joined_starts_with_first(parts.drop_last(), sep);
        let j = text::joined(parts.drop_last(), sep);
        assert((j + sep + parts.last())[0] == j[0]);
    }
}

/// A query asks for nothing, no free text and no tag, exactly when it is white space alone;
/// any other query asks for something.
pub proof fn lemma_blank_query_asks_nothing(q: Seq<char>)
    ensures
        (free_text(q).len() == 0 && tag_values(tokens(q)).len() == 0) <==> forall|k: int|
            0 <= k < q.len() ==> text::is_white_space(#[trigger] q[k]),
{
    lemma_tokens_from_shape(q, 0);
    let ts = tokens(q);
    lemma_split_counts(ts);
    let ws = text::white_space();
    if ts.len() == 0 {
        assert(free_tokens(ts) =~= Seq::<Seq<char>>::empty());
        let j = text::joined(free_tokens(ts), " "@);
        assert(j.len() == 0);
        text::lemma_first_from(j, 0, |c: char| !ws(c));
        text::lemma_trailing_end(j, 0, 0, ws);
    } else if tag_values(ts).len() == 0 {
        let fs = free_tokens(ts);
        assert(token_shape(fs[0]));
        lemma_joined_starts_with_first(fs, " "@);
        let j = text::joined(fs, " "@);
        assert(!ws(j[0]));
        text::lemma_first_from(j, 0, |c: char| !ws(c));
        assert(text::leading_count(j, ws) == 0);
        text::lemma_trailing_end(j, 0, j.len() as int, ws);
        assert(text::trailing_end(j, 0, j.len() as int, ws) > 0);
    }
}

/// A query taken apart: the tags every hit must carry, and the free text to match.
pub struct QueryPlan {
    pub tags: Vec<String>,
    pub free_text: String,
}

/// End of the token that starts at `from`.
fn token_end(s: &Vec<char>, from: usize) -> (r: usize)
    requires
        from <= s.len(),
    ensures
        r == text::first_from(s@, from as int, text::white_space()),
{
    let mut i = from;
    while i < s.len() && !char_is_whitespace(s[i])
        invariant
            from <= i <= s.len(),
            text::first_from(s@, from as int, text::white_space()) == text::first_from(
                s@,
                i as int,
                text::white_space(),
            ),
        decreases s.len() - i,
    {
        i = i + 1;
    }
    i
}

/// The tokens of a query.
fn split_tokens(q: &Vec<char>) -> (r: Vec<Vec<char>>)
    ensures
        text::char_views(r@) == tokens(q@),
{
    let mut out: Vec<Vec<char>> = Vec::new();
    let mut i: usize = 0;
    while i < q.len()
        invariant
            i <= q.len(),
            text::char_views(out@) + tokens_from(q@, i as int) == tokens(q@),
        decreases q.len() - i,
    {
        let a = skip_white_space(q, i);
        proof {
            text::lemma_first_from(q@, i as int, non_white());
        }
        if a >= q.len() {
            assert(tokens_from(q@, i as int) =~= Seq::<Seq<char>>::empty());
            assert(tokens_from(q@, q.len() as int) =~= Seq::<Seq<char>>::empty());
            i = q.len();
        } else {
            let b = token_end(q, a);
            proof {
                text::lemma_first_from(q@, a + 1, text::white_space());
                text::lemma_first_from(q@, a as int, text::white_space());
            }
            let tok = slice_chars(q, a, b);
            let ghost before = text::char_views(out@);
            out.push(tok);
            proof {
                assert(text::char_views(out@) =~= before.push(tok@));
                assert(tokens_from(q@, i as int) == seq![tok@] + tokens_from(q@, b as int));
                assert(before + (seq![tok@] + tokens_from(q@, b as int)) =~= before.push(tok@)
                    + tokens_from(q@, b as int));
            }
            i = b;
        }
    }
    assert(tokens_from(q@, i as int) =~= Seq::<Seq<char>>::empty());
    assert(text::char_views(out@) + Seq::<Seq<char>>::empty() =~= text::char_views(out@));
    out
}

/// Takes a query apart: tokens of the form `#tag` are tag filters; the rest, joined with
/// single spaces, is the free text.
pub fn plan_query(query: &str) -> (r: QueryPlan)
    ensures
        text::views(r.tags@) == tag_values(tokens(query@)),
        r.free_text@ == free_text(query@),
{
    let q = chars_of(query);
    let toks = split_tokens(&q);
    let ghost ts = text::char_views(toks@);
    let mut tags: Vec<String> = Vec::new();
    let mut free: Vec<char> = Vec::new();
    let mut nfree: usize = 0;
    let mut k: usize = 0;
    while k < toks.len()
        invariant
            k <= toks.len(),
            ts == text::char_views(toks@),
            text::views(tags@) == tag_values(ts.take(k as int)),
            free@ == text::joined(free_tokens(ts.take(k as int)), " "@),
            nfree == free_tokens(ts.take(k as int)).len(),
            nfree <= k,
        decreases toks.len() - k,
    {
        let t = &toks[k];
        proof {
            assert(ts.take(k + 1).drop_last() =~= ts.take(k as int));
            assert(ts.take(k + 1).last() == t@);
            reveal_strlit(" ");
        }
        if t.len() > 1 && t[0] == '#' {
            let value = slice_chars(t, 1, t.len());
            let ghost before = text::views(tags@);
            tags.push(string_of(&value));
            proof {
                assert(value@ =~= t@.drop_first());
                assert(text::views(tags@) =~= before.push(value@));
            }
        } else {
            if nfree > 0 {
                free.push(' ');
                proof {
                    assert(" "@ =~= seq![' ']);
                }
            }
            let ghost before = free@;
            let mut m: usize = 0;
            while m < t.len()
                invariant
                    m <= t.len(),
                    free@ == before + t@.take(m as int),
                decreases t.len() - m,
            {
                free.push(t[m]);
                m = m + 1;
                assert(before + t@.take(m as int) =~= (before + t@.take((m - 1) as int)).push(
                    t@[m - 1],
                ));
            }
            assert(t@.take(t.len() as int) =~= t@);
            proof {
                let fs = free_tokens(ts.take(k + 1));
                assert(fs == free_tokens(ts.take(k as int)).push(t@));
                assert(fs.drop_last() =~= free_tokens(ts.take(k as int)));
                if nfree == 0 {
                    assert(fs.len() == 1);
                    assert(before =~= Seq::<char>::empty());
                    assert(free@ =~= t@);
                } else {
                    assert(" "@ =~= seq![' ']);
                }
            }
            nfree = nfree + 1;
        }
        k = k + 1;
    }
    assert(ts.take(toks.len() as int) =~= ts);
    let trimmed = trim_chars(&free);
    QueryPlan { tags, free_text: string_of(&trimmed) }
}

/// Whether the plan asks for nothing: no free text and no tags. Such a query has no hits.
pub fn plan_is_empty(plan: &QueryPlan) -> (r: bool)
    ensures
        r == (plan.free_text@.len() == 0 && plan.tags@.len() == 0),
{
    plan.free_text.as_str().is_empty() && plan.tags.len() == 0
}


// ---------------------------------------------------------------------------
// Hits.
// ---------------------------------------------------------------------------

/// One hit as the index returned it: the stored fields that were present, the snippet's HTML,
/// and the score as the bit pattern of its `f32`.
pub struct RawHit {
    pub path: Option<String>,
    pub filename_stem: Option<String>,
    pub tags: Vec<String>,
    pub modified_date: Option<i64>,
    pub snippet_html: String,
    pub score_bits: u32,
}

/// One hit as the front end receives it; the score is the bit pattern of its `f32`.
pub struct SearchHit {
    pub path: String,
    pub filename_stem: String,
    pub snippet: Option<String>,
    pub tags: Vec<String>,
    pub modified_date: i64,
    pub score_bits: u32,
}

pub struct SearchResponse {
    pub hits: Vec<SearchHit>,
    pub query: String,
}

/// A hit made from what the index returned: missing text fields read as empty, a missing date
/// as 0, an empty snippet as none.
pub open spec fn hit_from(raw: RawHit, hit: SearchHit) -> bool {
    &&& hit.path@ == (match raw.path {
        Some(p) => p@,
        None => seq![],
    })
    &&& hit.filename_stem@ == (match raw.filename_stem {
        Some(p) => p@,
        None => seq![],
    })
    &&& hit.tags == raw.tags
    &&& hit.modified_date == (match raw.modified_date {
        Some(d) => d,
        None => 0,
    })
    &&& (raw.snippet_html@.len() == 0 ==> hit.snippet is None)
    &&& (raw.snippet_html@.len() > 0 ==> hit.snippet == Some(raw.snippet_html))
    &&& hit.score_bits == raw.score_bits
}

/// Makes the hit the front end receives from what the index returned.
pub fn hit_from_raw(raw: RawHit) -> (r: SearchHit)
    ensures
        hit_from(raw, r),
{
    let ghost g = raw;
    let path = match raw.path {
        Some(p) => p,
        None => String::new(),
    };
    let filename_stem = match raw.filename_stem {
        Some(p) => p,
        None => String::new(),
    };
    let modified_date = match raw.modified_date {
        Some(d) => d,
        None => 0,
    };
    let snippet = if raw.snippet_html.as_str().is_empty() {
        None
    } else {
        Some(raw.snippet_html)
    };
    SearchHit {
        path,
        filename_stem,
        snippet,
        tags: raw.tags,
        modified_date,
        score_bits: raw.score_bits,
    }
}

/// The response for a query that asks for nothing: no hits.
pub fn empty_response(query: &str) -> (r: SearchResponse)
    ensures
        r.hits@.len() == 0,
        r.query@ == query@,
{
    SearchResponse { hits: Vec::new(), query: owned(query) }
}

/// The response to a query from the top hits the index returned (best first): the hits after
/// the first `offset`, in order.
pub fn assemble_response(top: Vec<RawHit>, offset: usize, query: &str) -> (r: SearchResponse)
    ensures
        r.query@ == query@,
        r.hits@.len() == (if top@.len() > offset {
            top@.len() - offset
        } else {
            0
        }),
        forall|k: int| 0 <= k < r.hits@.len() ==> hit_from(top@[offset + k], #[trigger] r.hits@[k]),
{
    let ghost orig = top@;
    let mut top = top;
    let mut hits: Vec<SearchHit> = Vec::new();
    if top.len() > offset {
        while top.len() > offset
            invariant
                offset <= top@.len(),
                orig.len() == top@.len() + hits@.len(),
                forall|k: int| offset <= k < top@.len() ==> top@[k] == orig[k + hits@.len()],
                forall|k: int| 0 <= k < hits@.len() ==> hit_from(orig[offset + k], #[trigger] hits@[k]),
            decreases top@.len() - offset,
        {
            let ghost n = hits@.len();
            let ghost before = hits@;
            let raw = top.remove(offset);
            assert(raw == orig[offset + n]);
            let hit = hit_from_raw(raw);
            hits.push(hit);
            proof {
                assert forall|k: int| 0 <= k < hits@.len() implies hit_from(
                    orig[offset + k],
                    #[trigger] hits@[k],
                ) by {
                    if k < n {
                        assert(hits@[k] == before[k]);
                    }
                }
            }
        }
    }
    SearchResponse { hits, query: owned(query) }
}

} // verus!

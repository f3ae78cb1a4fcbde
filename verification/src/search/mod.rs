//! Full-text search over the vault: tag extraction, the file-watcher rules, the index worker's
//! decisions and the query logic.
use vstd::prelude::*;

use crate::text;
use crate::text::owned;

pub mod query;
pub mod schema;
pub mod tags;
pub mod watcher;
pub mod worker;

verus! {

pub const STATUS_BUILDING: u8 = 0;

pub const STATUS_READY: u8 = 1;

pub const STATUS_ERROR: u8 = 2;

/// A change for the index worker.
pub enum IndexOp {
    Upsert { rel_path: String },
    Delete { rel_path: String },
    Rebuild,
}

/// How the index status reads to the front end.
pub open spec fn status_label(status: u8) -> Seq<char> {
    if status == STATUS_BUILDING {
        "building"@
    } else if status == STATUS_READY {
        "ready"@
    } else {
        "error"@
    }
}

/// The index status as the front end reads it: `building`, `ready`, or `error` for any
/// other code.
pub fn search_status(status: u8) -> (r: String)
    ensures
        r@ == status_label(status),
{
    if status == STATUS_BUILDING {
        owned("building")
    } else if status == STATUS_READY {
        owned("ready")
    } else {
        owned("error")
    }
}

/// Calls `String::from_utf8`, whose documentation says it fails exactly when the bytes are
/// not valid UTF-8 and otherwise gives the string those bytes encode.
#[verifier::external_body]
fn string_from_utf8(bytes: &Vec<u8>) -> (r: Option<String>)
    ensures
        r is Some <==> vstd::utf8::valid_utf8(bytes@),
        r matches Some(s) ==> vstd::utf8::encode_utf8(s@) == bytes@,
{
    String::from_utf8(bytes.clone()).ok()
}

/// The tags of the index: the distinct terms of the tags field that are valid UTF-8, in
/// ascending order.
pub fn list_tags(terms: &Vec<Vec<u8>>) -> (r: Vec<String>)
    ensures
        text::strictly_sorted(text::views(r@)),
        forall|u: Seq<char>|
            #[trigger] text::views(r@).contains(u) <==> exists|k: int|
                0 <= k < terms@.len() && vstd::utf8::valid_utf8(#[trigger] terms@[k]@)
                    && vstd::utf8::encode_utf8(u) == terms@[k]@,
{
    let mut found: Vec<String> = Vec::new();
    let mut k: usize = 0;
    while k < terms.len()
        invariant
            k <= terms.len(),
            forall|u: Seq<char>|
                #[trigger] text::views(found@).contains(u) <==> exists|m: int|
                    0 <= m < k && vstd::utf8::valid_utf8(#[trigger] terms@[m]@)
                        && vstd::utf8::encode_utf8(u) == terms@[m]@,
        decreases terms.len() - k,
    {
        let ghost before = text::views(found@);
        match string_from_utf8(&terms[k]) {
            Some(s) => {
                found.push(s);
                proof {
                    assert(text::views(found@) =~= before.push(s@));
                    assert forall|u: Seq<char>|
                        #[trigger] text::views(found@).contains(u) <==> exists|m: int|
                            0 <= m < k + 1 && vstd::utf8::valid_utf8(#[trigger] terms@[m]@)
                                && vstd::utf8::encode_utf8(u) == terms@[m]@ by {
                        if text::views(found@).contains(u) {
                            let i = choose|i: int|
                                0 <= i < text::views(found@).len() && text::views(found@)[i] == u;
                            if i == before.len() {
                                assert(vstd::utf8::valid_utf8(terms@[k as int]@));
                            } else {
                                assert(before[i] == u);
                                assert(before.contains(u));
                            }
                        }
                        if exists|m: int|
                            0 <= m < k + 1 && vstd::utf8::valid_utf8(#[trigger] terms@[m]@)
                                && vstd::utf8::encode_utf8(u) == terms@[m]@ {
                            let m = choose|m: int|
                                0 <= m < k + 1 && vstd::utf8::valid_utf8(#[trigger] terms@[m]@)
                                    && vstd::utf8::encode_utf8(u) == terms@[m]@;
                            if m == k {
                                vstd::utf8::encode_utf8_decode_utf8(u);
                                vstd::utf8::encode_utf8_decode_utf8(s@);
                                assert(u == s@);
                                assert(text::views(found@)[before.len() as int] == u);
                            } else {
                                assert(before.contains(u));
                                let i = choose|i: int| 0 <= i < before.len() && before[i] == u;
                                assert(text::views(found@)[i] == u);
                            }
                        }
                    }
                }
            },
            None => {
                proof {
                    assert forall|u: Seq<char>|
                        #[trigger] text::views(found@).contains(u) <==> exists|m: int|
                            0 <= m < k + 1 && vstd::utf8::valid_utf8(#[trigger] terms@[m]@)
                                && vstd::utf8::encode_utf8(u) == terms@[m]@ by {
                        if exists|m: int|
                            0 <= m < k + 1 && vstd::utf8::valid_utf8(#[trigger] terms@[m]@)
                                && vstd::utf8::encode_utf8(u) == terms@[m]@ {
                            let m = choose|m: int|
                                0 <= m < k + 1 && vstd::utf8::valid_utf8(#[trigger] terms@[m]@)
                                    && vstd::utf8::encode_utf8(u) == terms@[m]@;
                            assert(m != k);
                        }
                    }
                }
            },
        }
        k = k + 1;
    }
    tags::sort_dedup(&found)
}

/// The page size and offset a search uses (20 and 0 unless given), and how many top hits to
/// fetch to cover the page.
pub fn search_window(limit: Option<u32>, offset: Option<u32>) -> (r: (u32, u32, u64))
    ensures
        r.0 == (match limit {
            Some(l) => l,
            None => 20,
        }),
        r.1 == (match offset {
            Some(o) => o,
            None => 0,
        }),
        r.2 == r.0 + r.1,
{
    let l = match limit {
        Some(l) => l,
        None => 20,
    };
    let o = match offset {
        Some(o) => o,
        None => 0,
    };
    (l, o, l as u64 + o as u64)
}

} // verus!

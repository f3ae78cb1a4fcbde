//! Which file-system events reach the search index.
use vstd::prelude::*;

use crate::paths;
use crate::paths::{ends_with_chars, file_name_of, name_extension_of, strip_prefix_of};
use crate::search::IndexOp;
use crate::text;
use crate::text::chars_of;

verus! {

/// A component that hides its subtree: a name beginning with `.` (not `.` or `..` themselves,
/// which are not names).
pub open spec fn hidden_component(t: Seq<char>) -> bool {
    t.len() > 0 && t[0] == '.' && t != paths::dot() && t != paths::dot_dot()
}

pub open spec fn icloud_suffix() -> Seq<char> {
    seq!['.', 'i', 'c', 'l', 'o', 'u', 'd']
}

pub open spec fn conflict_suffix() -> Seq<char> {
    seq!['.', 'c', 'o', 'n', 'f', 'l', 'i', 'c', 't']
}

pub open spec fn temp_suffix() -> Seq<char> {
    seq!['.', 'p', 'i', 't', 'h', 'y', '-', 't', 'm', 'p']
}

pub open spec fn md_extension() -> Seq<char> {
    seq!['m', 'd']
}

/// A file name the watcher passes over: a sync artifact, an atomic-write temporary, or not
/// markdown.
pub open spec fn ignored_file_name(f: Seq<char>) -> bool {
    paths::ends_with(f, icloud_suffix()) || paths::ends_with(f, conflict_suffix())
        || paths::ends_with(f, temp_suffix()) || paths::name_extension(f) != Some(md_extension())
}

/// A path the watcher passes over: outside the vault, under a dotfile or dotfolder, without a
/// file name, or with a file name that `ignored_file_name` rejects.
pub open spec fn ignored(path: Seq<char>, vault_dir: Seq<char>) -> bool {
    match paths::strip_prefix(path, vault_dir) {
        None => true,
        Some(rel) => has_hidden_component(rel) || ignored_by_name(path),
    }
}

/// Some component is hidden.
pub open spec fn has_hidden_component(rel: Seq<Seq<char>>) -> bool {
    exists|k: int| 0 <= k < rel.len() && hidden_component(#[trigger] rel[k])
}

/// The path has no file name, or one that `ignored_file_name` rejects.
pub open spec fn ignored_by_name(path: Seq<char>) -> bool {
    match paths::file_name(path) {
        None => true,
        Some(f) => ignored_file_name(f),
    }
}

proof fn lemma_md_name_is_no_artifact(f: Seq<char>)
    requires
        paths::name_extension(f) == Some(md_extension()),
    ensures
        !paths::ends_with(f, icloud_suffix()),
        !paths::ends_with(f, conflict_suffix()),
        !paths::ends_with(f, temp_suffix()),
{
    paths::lemma_last_index_of(f, '.');
    let k = paths::last_index_of(f, '.');
    let e = f.subrange(k + 1, f.len() as int);
    assert(e == md_extension());
    assert(f.len() == k + 3);
    assert(f[k + 2] == e[1]);
    let n = f.len() as int;
    if paths::ends_with(f, icloud_suffix()) {
        assert(f.subrange(n - 7, n)[4] == f[n - 3]);
    }
    if paths::ends_with(f, conflict_suffix()) {
        assert(f.subrange(n - 9, n)[8] == f[n - 1]);
    }
    if paths::ends_with(f, temp_suffix()) {
        assert(f.subrange(n - 10, n)[9] == f[n - 1]);
    }
}

/// The watcher keeps a path exactly when it lies under the vault, no component below the
/// vault is hidden, and its extension is `md`: every path outside the vault is passed over,
/// and so is every sync artifact and atomic-write temporary, whose extension is not `md`.
pub proof fn lemma_watched_exactly(path: Seq<char>, vault_dir: Seq<char>)
    ensures
        !ignored(path, vault_dir) <==> (paths::strip_prefix(path, vault_dir) matches Some(rel)
            && !has_hidden_component(rel) && paths::extension(path) == Some(md_extension())),
{
    if let Some(f) = paths::file_name(path) {
        if paths::name_extension(f) == Some(md_extension()) {
            lemma_md_name_is_no_artifact(f);
        }
    }
}

fn is_hidden_component(t: &Vec<char>) -> (r: bool)
    ensures
        r == hidden_component(t@),
{
    let r = t.len() > 0 && t[0] == '.' && !(t.len() == 1) && !(t.len() == 2 && t[1] == '.');
    proof {
        if t@ == paths::dot() {
            assert(t@.len() == 1);
        }
        if t@ == paths::dot_dot() {
            assert(t@.len() == 2 && t@[1] == '.');
        }
        if t.len() == 1 && t@[0] == '.' {
            assert(t@ =~= paths::dot());
        }
        if t.len() == 2 && t@[0] == '.' && t@[1] == '.' {
            assert(t@ =~= paths::dot_dot());
        }
    }
    r
}

/// Returns true if the given path should be ignored by the file watcher.
pub fn should_ignore(path: &str, vault_dir: &str) -> (r: bool)
    ensures
        r == ignored(path@, vault_dir@),
{
    let p = chars_of(path);
    let v = chars_of(vault_dir);
    let rel = match strip_prefix_of(&p, &v) {
        Some(rel) => rel,
        None => return true,
    };
    let ghost rv = text::char_views(rel@);
    let mut k: usize = 0;
    while k < rel.len()
        invariant
            k <= rel.len(),
            rv == text::char_views(rel@),
            paths::strip_prefix(path@, vault_dir@) == Some(rv),
            forall|m: int| 0 <= m < k ==> !hidden_component(#[trigger] rv[m]),
        decreases rel.len() - k,
    {
        if is_hidden_component(&rel[k]) {
            assert(rv[k as int] == rel@[k as int]@);
            assert(hidden_component(rv[k as int]));
            return true;
        }
        assert(rv[k as int] == rel@[k as int]@);
        k = k + 1;
    }
    let f = match file_name_of(&p) {
        Some(f) => f,
        None => return true,
    };
    if ends_with_chars(&f, &vec!['.', 'i', 'c', 'l', 'o', 'u', 'd']) || ends_with_chars(
        &f,
        &vec!['.', 'c', 'o', 'n', 'f', 'l', 'i', 'c', 't'],
    ) {
        return true;
    }
    if ends_with_chars(&f, &vec!['.', 'p', 'i', 't', 'h', 'y', '-', 't', 'm', 'p']) {
        return true;
    }
    match name_extension_of(&f) {
        Some(e) => {
            let is_md = e.len() == 2 && e[0] == 'm' && e[1] == 'd';
            proof {
                if is_md {
                    assert(e@ =~= md_extension());
                }
                if e@ == md_extension() {
                    assert(e@[0] == 'm' && e@[1] == 'd');
                }
            }
            !is_md
        },
        None => true,
    }
}

/// The kinds of file-system event the watcher tells apart.
#[derive(Clone, Copy)]
pub enum WatchEventKind {
    Create,
    Modify,
    Remove,
    Other,
}

/// The index operation a watched event on the note at `rel_path` calls for: creations and
/// modifications re-index the note, removals delete it, other events are dropped.
pub fn event_op(kind: WatchEventKind, rel_path: String) -> (r: Option<IndexOp>)
    ensures
        match kind {
            WatchEventKind::Create | WatchEventKind::Modify => r == Some(
                IndexOp::Upsert { rel_path },
            ),
            WatchEventKind::Remove => r == Some(IndexOp::Delete { rel_path }),
            WatchEventKind::Other => r is None,
        },
{
    match kind {
        WatchEventKind::Create | WatchEventKind::Modify => Some(IndexOp::Upsert { rel_path }),
        WatchEventKind::Remove => Some(IndexOp::Delete { rel_path }),
        WatchEventKind::Other => None,
    }
}

/// The notes, relative to the vault, that a batch of event paths names, in order: the paths
/// the watcher does not pass over.
pub open spec fn watched_paths(ps: Seq<Seq<char>>, vault_dir: Seq<char>) -> Seq<Seq<char>>
    decreases ps.len(),
{
    if ps.len() == 0 {
        seq![]
    } else {
        let rest = watched_paths(ps.drop_last(), vault_dir);
        let p = ps.last();
        match paths::relative_to(p, vault_dir) {
            Some(rel) => if ignored(p, vault_dir) {
                rest
            } else {
                rest.push(rel)
            },
            None => rest,
        }
    }
}

/// Whether `op` is what an event of `kind` calls for on the note `rel`.
pub open spec fn op_for(kind: WatchEventKind, rel: Seq<char>, op: IndexOp) -> bool {
    match kind {
        WatchEventKind::Create | WatchEventKind::Modify => op matches IndexOp::Upsert { rel_path }
            && rel_path@ == rel,
        WatchEventKind::Remove => op matches IndexOp::Delete { rel_path } && rel_path@ == rel,
        WatchEventKind::Other => false,
    }
}

/// The index operations one file-system event calls for: for each of its paths that the
/// watcher does not pass over, in order, the operation its kind calls for on the note.
pub fn event_ops(kind: WatchEventKind, event_paths: &Vec<String>, vault_dir: &str) -> (r: Vec<
    IndexOp,
>)
    ensures
        kind is Other ==> r@.len() == 0,
        !(kind is Other) ==> r@.len() == watched_paths(text::views(event_paths@), vault_dir@).len(),
        forall|k: int|
            0 <= k < r@.len() ==> op_for(
                kind,
                watched_paths(text::views(event_paths@), vault_dir@)[k],
                #[trigger] r@[k],
            ),
{
    let ghost ps = text::views(event_paths@);
    let mut out: Vec<IndexOp> = Vec::new();
    if let WatchEventKind::Other = kind {
        return out;
    }
    let mut i: usize = 0;
    while i < event_paths.len()
        invariant
            i <= event_paths.len(),
            ps == text::views(event_paths@),
            !(kind is Other),
            out@.len() == watched_paths(ps.take(i as int), vault_dir@).len(),
            forall|k: int|
                0 <= k < out@.len() ==> op_for(
                    kind,
                    watched_paths(ps.take(i as int), vault_dir@)[k],
                    #[trigger] out@[k],
                ),
        decreases event_paths.len() - i,
    {
        let path = event_paths[i].as_str();
        let ghost before = out@;
        proof {
            assert(ps.take(i + 1).drop_last() =~= ps.take(i as int));
            assert(ps.take(i + 1).last() == ps[i as int]);
            assert(ps[i as int] == path@);
        }
        if !should_ignore(path, vault_dir) {
            match paths::relative_path(path, vault_dir) {
                Some(rel) => {
                    let ghost rv = rel@;
                    if let Some(op) = event_op(kind, rel) {
                        out.push(op);
                    }
                    proof {
                        let w = watched_paths(ps.take(i + 1), vault_dir@);
                        assert(w == watched_paths(ps.take(i as int), vault_dir@).push(rv));
                        assert forall|k: int| 0 <= k < out@.len() implies op_for(
                            kind,
                            w[k],
                            #[trigger] out@[k],
                        ) by {
                            if k < before.len() {
                                assert(out@[k] == before[k]);
                            }
                        }
                    }
                },
                None => {},
            }
        }
        i = i + 1;
    }
    assert(ps.take(event_paths.len() as int) =~= ps);
    out
}

} // verus!

//! The index worker's decisions: which pending changes to coalesce, when to flush them, and
//! what goes into the index for a note.
use vstd::prelude::*;

use crate::search::IndexOp;
use crate::text;
use crate::text::chars_eq;
use crate::text::chars_of;
use crate::text::string_of;
use crate::paths;
use crate::search::tags;

verus! {

/// The note path an operation names (empty for a rebuild).
pub open spec fn op_path(op: IndexOp) -> Seq<char> {
    match op {
        IndexOp::Upsert { rel_path } => rel_path@,
        IndexOp::Delete { rel_path } => rel_path@,
        IndexOp::Rebuild => seq![],
    }
}

/// Pending note paths after one operation: an upsert moves its path to the upserts, a delete
/// to the deletes, a rebuild drops everything pending.
pub open spec fn step_sets(pending: (Set<Seq<char>>, Set<Seq<char>>), op: IndexOp) -> (
    Set<Seq<char>>,
    Set<Seq<char>>,
) {
    let (u, d) = pending;
    match op {
        IndexOp::Upsert { rel_path } => (u.insert(rel_path@), d.remove(rel_path@)),
        IndexOp::Delete { rel_path } => (u.remove(rel_path@), d.insert(rel_path@)),
        IndexOp::Rebuild => (Set::empty(), Set::empty()),
    }
}

/// Pending note paths after a run of operations.
pub open spec fn replay(pending: (Set<Seq<char>>, Set<Seq<char>>), ops: Seq<IndexOp>) -> (
    Set<Seq<char>>,
    Set<Seq<char>>,
)
    decreases ops.len(),
{
    if ops.len() == 0 {
        pending
    } else {
        step_sets(replay(pending, ops.drop_last()), ops.last())
    }
}

/// The operation decides the fate of `p`: it names `p`, or it is a rebuild.
pub open spec fn touches(op: IndexOp, p: Seq<char>) -> bool {
    op is Rebuild || op_path(op) == p
}

/// The latest operation among `ops` that decides the fate of `p`.
pub open spec fn last_touch(ops: Seq<IndexOp>, p: Seq<char>) -> Option<int>
    decreases ops.len(),
{
    if ops.len() == 0 {
        None
    } else if touches(ops.last(), p) {
        Some(ops.len() - 1)
    } else {
        last_touch(ops.drop_last(), p)
    }
}

proof fn lemma_last_touch(ops: Seq<IndexOp>, p: Seq<char>)
    ensures
        last_touch(ops, p) matches Some(i) ==> 0 <= i < ops.len() && touches(ops[i], p),
    decreases ops.len(),
{
    if ops.len() > 0 && !touches(ops.last(), p) {
        lemma_last_touch(ops.drop_last(), p);
    }
}

/// Starting from nothing pending, a note is pending an upsert exactly when the latest
/// operation that decides its fate is an upsert of it, and pending a delete exactly when that
/// operation is a delete of it; so no note is ever pending both.
pub proof fn lemma_last_operation_wins(ops: Seq<IndexOp>, p: Seq<char>)
    ensures
        replay((Set::empty(), Set::empty()), ops).0.contains(p) <==> (last_touch(ops, p) matches Some(
            i,
        ) && ops[i] is Upsert),
        replay((Set::empty(), Set::empty()), ops).1.contains(p) <==> (last_touch(ops, p) matches Some(
            i,
        ) && ops[i] is Delete),
        !(replay((Set::empty(), Set::empty()), ops).0.contains(p) && replay(
            (Set::empty(), Set::empty()),
            ops,
        ).1.contains(p)),
    decreases ops.len(),
{
    if ops.len() > 0 {
        lemma_last_operation_wins(ops.drop_last(), p);
        lemma_last_touch(ops.drop_last(), p);
        if !touches(ops.last(), p) {
            let t = last_touch(ops.drop_last(), p);
            if t is Some {
                assert(ops[t->0] == ops.drop_last()[t->0]);
            }
        }
    }
}

/// No string occurs twice.
pub open spec fn no_dups(s: Seq<Seq<char>>) -> bool {
    forall|i: int, j: int| 0 <= i < j < s.len() ==> s[i] != s[j]
}

/// Changes waiting to be written to the index.
pub struct PendingOps {
    pub upserts: Vec<String>,
    pub deletes: Vec<String>,
    pub dirty: bool,
}

impl PendingOps {
    /// Each list is free of repeats and no note is in both.
    pub open spec fn wf(&self) -> bool {
        &&& no_dups(text::views(self.upserts@))
        &&& no_dups(text::views(self.deletes@))
        &&& forall|p: Seq<char>|
            !(text::views(self.upserts@).contains(p) && text::views(self.deletes@).contains(p))
    }

    /// The notes waiting to be re-indexed and to be deleted.
    pub open spec fn sets(&self) -> (Set<Seq<char>>, Set<Seq<char>>) {
        (text::views(self.upserts@).to_set(), text::views(self.deletes@).to_set())
    }

    /// Nothing pending.
    pub fn new() -> (r: Self)
        ensures
            r.wf(),
            r.sets() == (Set::<Seq<char>>::empty(), Set::<Seq<char>>::empty()),
            !r.dirty,
    {
        let r = PendingOps { upserts: Vec::new(), deletes: Vec::new(), dirty: false };
        assert(text::views(r.upserts@).to_set() =~= Set::<Seq<char>>::empty());
        assert(text::views(r.deletes@).to_set() =~= Set::<Seq<char>>::empty());
        r
    }

    /// Whether the worker waits for the next operation with the coalescing timeout (there is
    /// something to flush) or without one.
    pub fn waits_with_timeout(&self) -> (r: bool)
        ensures
            r == self.dirty,
    {
        self.dirty
    }
}

proof fn lemma_push_contains<A>(s: Seq<A>, x: A)
    ensures
        forall|y: A| #[trigger] s.push(x).contains(y) <==> (s.contains(y) || y == x),
{
    assert forall|y: A| #[trigger] s.push(x).contains(y) <==> (s.contains(y) || y == x) by {
        if s.push(x).contains(y) {
            let k = choose|k: int| 0 <= k < s.len() + 1 && #[trigger] s.push(x)[k] == y;
            if k < s.len() {
                assert(s[k] == y);
            }
        }
        if s.contains(y) {
            let k = choose|k: int| 0 <= k < s.len() && #[trigger] s[k] == y;
            assert(s.push(x)[k] == y);
        }
        if y == x {
            assert(s.push(x)[s.len() as int] == x);
        }
    }
}

/// `v` without the string `p`.
fn without(v: &Vec<String>, p: &Vec<char>) -> (r: Vec<String>)
    requires
        no_dups(text::views(v@)),
    ensures
        no_dups(text::views(r@)),
        forall|x: Seq<char>|
            #[trigger] text::views(r@).contains(x) <==> (text::views(v@).contains(x) && x != p@),
{
    let ghost vv = text::views(v@);
    let mut out: Vec<String> = Vec::new();
    let mut i: usize = 0;
    while i < v.len()
        invariant
            i <= v.len(),
            vv == text::views(v@),
            no_dups(vv),
            no_dups(text::views(out@)),
            forall|x: Seq<char>|
                #[trigger] text::views(out@).contains(x) <==> (vv.take(i as int).contains(x) && x
                    != p@),
        decreases v.len() - i,
    {
        let c = chars_of(v[i].as_str());
        let ghost before = text::views(out@);
        proof {
            assert(vv.take(i + 1) =~= vv.take(i as int).push(vv[i as int]));
            lemma_push_contains(vv.take(i as int), vv[i as int]);
            assert(!vv.take(i as int).contains(vv[i as int])) by {
                if vv.take(i as int).contains(vv[i as int]) {
                    let k = choose|k: int| 0 <= k < i && #[trigger] vv.take(i as int)[k] == vv[i as int];
                    assert(vv[k] == vv[i as int]);
                }
            }
        }
        if !chars_eq(&c, p) {
            out.push(v[i].clone());
            proof {
                assert(text::views(out@) =~= before.push(vv[i as int]));
                lemma_push_contains(before, vv[i as int]);
                let o = text::views(out@);
                assert forall|a: int, b: int| 0 <= a < b < o.len() implies o[a] != o[b] by {
                    if b == o.len() - 1 {
                        assert(before.contains(o[a]));
                    }
                }
            }
        }
        i = i + 1;
    }
    assert(vv.take(v.len() as int) =~= vv);
    out
}

/// Whether the string `p` is in `v`.
fn contains_path(v: &Vec<String>, p: &Vec<char>) -> (r: bool)
    ensures
        r == text::views(v@).contains(p@),
{
    let ghost vv = text::views(v@);
    let mut i: usize = 0;
    while i < v.len()
        invariant
            i <= v.len(),
            vv == text::views(v@),
            forall|k: int| 0 <= k < i ==> vv[k] != p@,
        decreases v.len() - i,
    {
        let c = chars_of(v[i].as_str());
        if chars_eq(&c, p) {
            assert(vv[i as int] == p@);
            return true;
        }
        i = i + 1;
    }
    false
}

proof fn lemma_views_push(v: Seq<String>, s: String)
    ensures
        text::views(v.push(s)) == text::views(v).push(s@),
{
    assert(text::views(v.push(s)) =~= text::views(v).push(s@));
}

impl PendingOps {
    /// Records that a note changed: it is to be re-indexed, not deleted.
    pub fn record_upsert(&mut self, rel_path: String)
        requires
            old(self).wf(),
        ensures
            final(self).wf(),
            final(self).sets() == step_sets(old(self).sets(), IndexOp::Upsert { rel_path }),
            final(self).dirty,
    {
        let p = chars_of(rel_path.as_str());
        let ghost old_keep = text::views(self.upserts@);
        let ghost old_other = text::views(self.deletes@);
        let deletes = without(&self.deletes, &p);
        self.deletes = deletes;
        if !contains_path(&self.upserts, &p) {
            let ghost before = self.upserts@;
            self.upserts.push(rel_path);
            proof {
                lemma_views_push(before, rel_path);
                lemma_push_contains(text::views(before), p@);
                let vv = text::views(self.upserts@);
                assert forall|i: int, j: int| 0 <= i < j < vv.len() implies vv[i] != vv[j] by {
                    if j == vv.len() - 1 {
                        assert(text::views(before).contains(vv[i]));
                    }
                }
            }
        }
        self.dirty = true;
        proof {
            let k = text::views(self.upserts@);
            let o = text::views(self.deletes@);
            assert forall|x: Seq<char>| k.contains(x) <==> (old_keep.contains(x) || x == p@) by {}
            assert(k.to_set() =~= old_keep.to_set().insert(p@));
            assert(o.to_set() =~= old_other.to_set().remove(p@));
        }

    }

    /// Records that a note went away: it is to be deleted, not re-indexed.
    pub fn record_delete(&mut self, rel_path: String)
        requires
            old(self).wf(),
        ensures
            final(self).wf(),
            final(self).sets() == step_sets(old(self).sets(), IndexOp::Delete { rel_path }),
            final(self).dirty,
    {
        let p = chars_of(rel_path.as_str());
        let ghost old_keep = text::views(self.deletes@);
        let ghost old_other = text::views(self.upserts@);
        let upserts = without(&self.upserts, &p);
        self.upserts = upserts;
        if !contains_path(&self.deletes, &p) {
            let ghost before = self.deletes@;
            self.deletes.push(rel_path);
            proof {
                lemma_views_push(before, rel_path);
                lemma_push_contains(text::views(before), p@);
                let vv = text::views(self.deletes@);
                assert forall|i: int, j: int| 0 <= i < j < vv.len() implies vv[i] != vv[j] by {
                    if j == vv.len() - 1 {
                        assert(text::views(before).contains(vv[i]));
                    }
                }
            }
        }
        self.dirty = true;
        proof {
            let k = text::views(self.deletes@);
            let o = text::views(self.upserts@);
            assert forall|x: Seq<char>| k.contains(x) <==> (old_keep.contains(x) || x == p@) by {}
            assert(k.to_set() =~= old_keep.to_set().insert(p@));
            assert(o.to_set() =~= old_other.to_set().remove(p@));
        }

    }

    /// Drops everything pending (a full rebuild supersedes it).
    pub fn clear(&mut self)
        ensures
            final(self).wf(),
            final(self).sets() == step_sets(old(self).sets(), IndexOp::Rebuild),
            !final(self).dirty,
    {
        self.upserts = Vec::new();
        self.deletes = Vec::new();
        self.dirty = false;
        assert(text::views(self.upserts@).to_set() =~= Set::<Seq<char>>::empty());
        assert(text::views(self.deletes@).to_set() =~= Set::<Seq<char>>::empty());
    }

    /// Hands out everything pending, deletes first, and leaves nothing pending.
    pub fn take_flush(&mut self) -> (r: (Vec<String>, Vec<String>))
        requires
            old(self).wf(),
        ensures
            final(self).wf(),
            final(self).sets() == (Set::<Seq<char>>::empty(), Set::<Seq<char>>::empty()),
            !final(self).dirty,
            text::views(r.0@) == text::views(old(self).deletes@),
            text::views(r.1@) == text::views(old(self).upserts@),
    {
        let mut deletes: Vec<String> = Vec::new();
        let mut upserts: Vec<String> = Vec::new();
        std::mem::swap(&mut deletes, &mut self.deletes);
        std::mem::swap(&mut upserts, &mut self.upserts);
        self.dirty = false;
        assert(text::views(self.upserts@).to_set() =~= Set::<Seq<char>>::empty());
        assert(text::views(self.deletes@).to_set() =~= Set::<Seq<char>>::empty());
        (deletes, upserts)
    }
}

/// What the worker learned while it waited.
pub enum WorkerEvent {
    /// An operation arrived.
    Received(IndexOp),
    /// Nothing arrived within the coalescing timeout.
    TimedOut,
    /// The sending side is gone.
    Closed,
}

/// What the worker does next.
pub enum WorkerAction {
    /// Wait for the next event.
    Wait,
    /// Rebuild the whole index from the vault.
    Rebuild,
    /// Delete these notes from the index, re-index these, and commit.
    Flush { deletes: Vec<String>, upserts: Vec<String> },
    /// Stop, after writing what is still pending, if anything is.
    Finish { flush: Option<(Vec<String>, Vec<String>)> },
}

impl PendingOps {
    /// Takes one event and says what to do: an upsert or a delete is recorded and the worker
    /// waits on; a rebuild drops what is pending; a timeout writes what is pending; a closed
    /// channel ends the loop, writing what is pending if anything changed.
    pub fn handle(&mut self, event: WorkerEvent) -> (a: WorkerAction)
        requires
            old(self).wf(),
        ensures
            final(self).wf(),
            match event {
                WorkerEvent::Received(op) => {
                    &&& final(self).sets() == step_sets(old(self).sets(), op)
                    &&& (op is Rebuild ==> a is Rebuild && !final(self).dirty)
                    &&& (op !is Rebuild ==> a is Wait && final(self).dirty)
                },
                WorkerEvent::TimedOut => {
                    &&& final(self).sets() == (Set::<Seq<char>>::empty(), Set::<Seq<char>>::empty())
                    &&& !final(self).dirty
                    &&& a matches WorkerAction::Flush { deletes, upserts }
                    &&& text::views(deletes@) == text::views(old(self).deletes@)
                    &&& text::views(upserts@) == text::views(old(self).upserts@)
                },
                WorkerEvent::Closed => {
                    &&& a matches WorkerAction::Finish { flush }
                    &&& (old(self).dirty ==> (flush matches Some(f) && text::views(f.0@)
                        == text::views(old(self).deletes@) && text::views(f.1@) == text::views(
                        old(self).upserts@,
                    )))
                    &&& (!old(self).dirty ==> flush is None)
                },
            },
    {
        match event {
            WorkerEvent::Received(op) => match op {
                IndexOp::Upsert { rel_path } => {
                    self.record_upsert(rel_path);
                    WorkerAction::Wait
                },
                IndexOp::Delete { rel_path } => {
                    self.record_delete(rel_path);
                    WorkerAction::Wait
                },
                IndexOp::Rebuild => {
                    self.clear();
                    WorkerAction::Rebuild
                },
            },
            WorkerEvent::TimedOut => {
                let (deletes, upserts) = self.take_flush();
                WorkerAction::Flush { deletes, upserts }
            },
            WorkerEvent::Closed => {
                if self.dirty {
                    let f = self.take_flush();
                    WorkerAction::Finish { flush: Some(f) }
                } else {
                    WorkerAction::Finish { flush: None }
                }
            },
        }
    }
}

/// What the index holds for one note.
pub struct NoteDocument {
    pub path: String,
    pub filename_stem: String,
    pub body: String,
    pub tags: Vec<String>,
    pub modified_date: i64,
}

/// The document for the note at `rel_path` with text `body`, modified `mtime` seconds after
/// the epoch: its stem (empty when the path has none), its text, and its tags.
pub fn note_document(rel_path: &str, body: String, mtime: i64) -> (r: NoteDocument)
    ensures
        r.path@ == rel_path@,
        r.filename_stem@ == (match paths::file_stem(rel_path@) {
            Some(s) => s,
            None => seq![],
        }),
        r.body == body,
        text::strictly_sorted(text::views(r.tags@)),
        forall|u: Seq<char>|
            #![trigger text::views(r.tags@).contains(u)]
            text::views(r.tags@).contains(u) <==> tags::lowered(tags::raw_tags(body@)).contains(u),
        r.modified_date == mtime,
{
    let p = chars_of(rel_path);
    let stem = match paths::file_name_of(&p) {
        Some(f) => string_of(&paths::name_stem_of(&f)),
        None => String::new(),
    };
    let tags = tags::extract_tags(body.as_str());
    NoteDocument { path: text::owned(rel_path), filename_stem: stem, body, tags, modified_date: mtime }
}

} // verus!

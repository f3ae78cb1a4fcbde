//! Where the search index lives and how it is opened: open it, else create it, else clear a
//! stale writer lock and create it once more.
use vstd::prelude::*;

use crate::paths;
use crate::text::{owned, push_str};

verus! {

/// The writer lock a crashed process can leave behind in the index directory.
pub const WRITER_LOCK_FILE: &'static str = ".tantivy-writer.lock";

/// The directory of the index inside a vault: `.pithy/search`.
pub fn index_dir_for(vault_dir: &str) -> (r: String)
    ensures
        r@ == paths::join_path(paths::join_path(vault_dir@, ".pithy"@), "search"@),
{
    let app_dir = paths::join(vault_dir, ".pithy");
    paths::join(app_dir.as_str(), "search")
}

/// The ways of getting an index, in the order they are tried.
#[derive(Clone, Copy)]
pub enum IndexAttempt {
    /// Open the index already in the directory.
    Open,
    /// Create a new index in the directory.
    Create,
    /// Remove a stale writer lock, if there is one, and create the index again.
    CreateAfterUnlock,
}

/// What follows an attempt.
pub enum OpenStep {
    /// The index is there.
    Ready,
    /// Try this next.
    Next(IndexAttempt),
    /// Give up with the last attempt's error.
    Failed,
}

/// What follows an attempt that succeeded or not: success ends the search; a failed open is
/// followed by a create, a failed create by a create after clearing the lock, and the failure
/// of that last attempt is final.
pub fn after_attempt(attempt: IndexAttempt, succeeded: bool) -> (r: OpenStep)
    ensures
        succeeded ==> r is Ready,
        !succeeded ==> match attempt {
            IndexAttempt::Open => r == OpenStep::Next(IndexAttempt::Create),
            IndexAttempt::Create => r == OpenStep::Next(IndexAttempt::CreateAfterUnlock),
            IndexAttempt::CreateAfterUnlock => r is Failed,
        },
{
    if succeeded {
        return OpenStep::Ready;
    }
    match attempt {
        IndexAttempt::Open => OpenStep::Next(IndexAttempt::Create),
        IndexAttempt::Create => OpenStep::Next(IndexAttempt::CreateAfterUnlock),
        IndexAttempt::CreateAfterUnlock => OpenStep::Failed,
    }
}

/// The error reported when the index cannot be had, with the last attempt's own message.
pub fn index_failure(detail: &str) -> (r: String)
    ensures
        r@ == "Failed to create search index: "@ + detail@,
{
    let mut out = owned("Failed to create search index: ");
    push_str(&mut out, detail);
    out
}

} // verus!

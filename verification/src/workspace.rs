//! The per-job workspaces in the bucket.
//!
//! Every instance of a job (named `<name>_<count>`) gets a directory object
//! written at `/<name>_<count>/`; the bucket stores and lists it without the
//! leading `/`, as `<name>_<count>/`. When the workspaces are cleaned up, each
//! listed object key is turned back into the job instance it names (the key
//! without its trailing `/`), and an object is deleted only when no live job
//! instance has that name.

use vstd::prelude::*;
use crate::text::{chars_of, string_from_chars};

verus! {

/// The key of the directory object of the workspace of `job`.
pub open spec fn workspace_key_of(job: Seq<char>) -> Seq<char> {
    seq!['/'] + job + seq!['/']
}

/// The job instance that a listed object key names: the key without one
/// trailing `/`.
pub open spec fn workspace_job_of(key: Seq<char>) -> Seq<char> {
    if key.len() > 0 && key.last() == '/' {
        key.drop_last()
    } else {
        key
    }
}

/// The texts of a list of job instance names.
pub open spec fn names_view(names: Seq<String>) -> Seq<Seq<char>> {
    names.map_values(|n: String| n@)
}

/// A listed object is orphaned when no live job instance is the one it names.
pub open spec fn is_orphaned(key: Seq<char>, live_jobs: Seq<Seq<char>>) -> bool {
    !live_jobs.contains(workspace_job_of(key))
}

/// The key of the directory object of the workspace of `job`
/// (`format!("/{}/", job)`).
pub fn workspace_key(job: &str) -> (r: String)
    ensures
        r@ == workspace_key_of(job@),
{
    let r = "/".to_owned().concat(job).concat("/");
    proof {
        reveal_strlit("/");
    }
    r
}

/// The job instance that a listed object key names.
pub fn workspace_job(key: &str) -> (r: String)
    ensures
        r@ == workspace_job_of(key@),
{
    let v = chars_of(key);
    let to: usize = if v.len() > 0 && v[v.len() - 1] == '/' {
        v.len() - 1
    } else {
        v.len()
    };
    let r = string_from_chars(&v, 0, to);
    proof {
        if key@.len() > 0 && key@.last() == '/' {
            assert(key@.drop_last() =~= key@.subrange(0, to as int));
        } else {
            assert(key@ =~= key@.subrange(0, to as int));
        }
    }
    r
}

/// Whether the listed object `key` is orphaned, given the names of the live
/// job instances (`<name>_<count>` for every job in the jobs table).
pub fn workspace_is_orphaned(key: &str, live_jobs: &Vec<String>) -> (r: bool)
    ensures
        r == is_orphaned(key@, names_view(live_jobs@)),
{
    let job = workspace_job(key);
    let ghost live = names_view(live_jobs@);
    let mut i: usize = 0;
    while i < live_jobs.len()
        invariant
            i <= live_jobs.len(),
            live == names_view(live_jobs@),
            job@ == workspace_job_of(key@),
            forall|k: int| 0 <= k < i ==> live[k] != job@,
        decreases live_jobs.len() - i,
    {
        if live_jobs[i] == job {
            assert(live[i as int] == job@);
            assert(live.contains(job@));
            return false;
        }
        i += 1;
    }
    assert(!live.contains(job@)) by {
        if live.contains(job@) {
            let k = choose|k: int| 0 <= k < live.len() && live[k] == job@;
            assert(live[k] != job@);
        }
    }
    true
}

/// A listed key that is a job instance name followed by `/` (the form in
/// which the bucket lists the directory object of that job's workspace)
/// names that job instance.
pub proof fn lemma_workspace_job_of_listed_key(job: Seq<char>)
    ensures
        workspace_job_of(job + seq!['/']) == job,
{
    assert((job + seq!['/']).drop_last() =~= job);
}

/// The workspace of a live job instance is never deleted.
pub proof fn lemma_live_workspace_kept(job: Seq<char>, live_jobs: Seq<Seq<char>>)
    requires
        live_jobs.contains(job),
    ensures
        !is_orphaned(job + seq!['/'], live_jobs),
{
    lemma_workspace_job_of_listed_key(job);
}

/// A listed directory whose job instance is not live is deleted.
pub proof fn lemma_gone_workspace_removed(job: Seq<char>, live_jobs: Seq<Seq<char>>)
    requires
        !live_jobs.contains(job),
    ensures
        is_orphaned(job + seq!['/'], live_jobs),
{
    lemma_workspace_job_of_listed_key(job);
}

/// The key of a job's workspace is the job instance name between two `/`, for
/// every name; without its leading `/` (as the bucket stores and lists it) it
/// names that job instance again.
pub proof fn lemma_workspace_key_shape(job: Seq<char>)
    ensures
        workspace_key_of(job).len() == job.len() + 2,
        workspace_key_of(job)[0] == '/',
        workspace_key_of(job).last() == '/',
        workspace_key_of(job).subrange(1, job.len() as int + 1) == job,
        workspace_job_of(workspace_key_of(job).drop_first()) == job,
{
    let k = workspace_key_of(job);
    assert(k.subrange(1, job.len() as int + 1) =~= job);
    assert(k.drop_first() =~= job + seq!['/']);
    lemma_workspace_job_of_listed_key(job);
}

} // verus!

//! Traversal policy and the per-worker queue operations.
//!
//! A pool of workers shares one queue per worker.  A worker polls its own
//! queue first and steals from the others when it is empty; pushes stay
//! local, since the three-stage queue spills to disk instead of refusing a
//! path.  The scanner decisions — which directory entries are skipped, what
//! is printed for an entry, which entries are descended into — are pure
//! functions of the entry and the options, collected here.

use vstd::prelude::*;

verus! {

use crate::Error;
use crate::queue::PathQueue;

/// Traversal options, as the command line sets them.
pub struct Options {
    /// Include entries whose name starts with a dot.
    pub allow_hidden: bool,
    /// Resolve symbolic links and walk what they point to.
    pub follow_links: bool,
    /// Maximum traversal depth.
    pub max_depth: i32,
    /// Base names to skip, with everything beneath them.
    pub ignores: Vec<Vec<u8>>,
    /// Trim a leading `./` or working-directory prefix from printed paths.
    pub strip_cwd_prefix: bool,
}

impl Options {
    /// The defaults: hidden entries excluded, links not followed, no depth
    /// cap, nothing ignored, paths printed as found.
    pub fn new() -> (o: Options)
        ensures
            !o.allow_hidden,
            !o.follow_links,
            o.max_depth == i32::MAX,
            o.ignores@.len() == 0,
            !o.strip_cwd_prefix,
    {
        Options {
            allow_hidden: false,
            follow_links: false,
            max_depth: i32::MAX,
            ignores: Vec::new(),
            strip_cwd_prefix: false,
        }
    }
}

/// Position of queue `k` in the steal order of the worker at `index`: peers
/// are probed round-robin starting just after the worker's own queue.
pub open spec fn steal_rank(k: int, index: int, n: int) -> int {
    if k > index {
        k - index - 1
    } else {
        k + n - index - 1
    }
}

/// Exclusive access to one queue of the pool.
fn queue_at(queues: &mut Vec<PathQueue>, i: usize) -> (q: &mut PathQueue)
    requires
        i < old(queues).len(),
    ensures
        *q == old(queues)@[i as int],
        final(queues)@ == old(queues)@.update(i as int, *final(q)),
{
    &mut queues[i]
}

/// Pop from the worker's own queue; when it is empty, try to steal from each
/// other queue in turn.  `Ok(None)` means every queue was seen empty.
pub fn pop_or_steal(queues: &mut Vec<PathQueue>, index: usize) -> (r: Result<
    Option<Vec<u8>>,
    Error,
>)
    requires
        index < old(queues)@.len(),
        forall|i: int| 0 <= i < old(queues)@.len() ==> (#[trigger] old(queues)@[i]).wf(),
    ensures
        final(queues)@.len() == old(queues)@.len(),
        r is Ok ==> forall|k: int|
            0 <= k < old(queues)@.len() ==> (#[trigger] final(queues)@[k]).wf() && final(queues)@[k].left_cap() == old(queues)@[k].left_cap() && final(queues)@[k].right_cap() == old(queues)@[k].right_cap(),
        r is Ok && r->Ok_0 is Some ==> exists|j: int|
            #![auto]
            {
                &&& 0 <= j < old(queues)@.len()
                &&& old(queues)@[j]@.len() > 0
                &&& r->Ok_0->0@ == old(queues)@[j]@[0]
                &&& final(queues)@[j]@ == old(queues)@[j]@.drop_first()
                &&& forall|k: int|
                    0 <= k < old(queues)@.len() && k != j ==> #[trigger] final(queues)@[k]@ == old(queues)@[k]@
                &&& (old(queues)@[index as int]@.len() > 0 ==> j == index)
                &&& (old(queues)@[index as int]@.len() == 0 ==> forall|k: int|
                    0 <= k < old(queues)@.len() && k != index && steal_rank(
                        k,
                        index as int,
                        old(queues)@.len() as int,
                    ) < steal_rank(j, index as int, old(queues)@.len() as int) ==> (
                    #[trigger] old(queues)@[k])@.len() == 0)
            },
        r == Result::<Option<Vec<u8>>, Error>::Ok(None) ==> forall|k: int|
            0 <= k < old(queues)@.len() ==> (#[trigger] old(queues)@[k])@.len() == 0 && final(queues)@[k]@ == old(queues)@[k]@,
        (forall|k: int|
            0 <= k < old(queues)@.len() ==> !(#[trigger] old(queues)@[k]).pop_hits_spill())
            ==> r is Ok,
        r is Err ==> r->Err_0 == Error::Io,
{
    let q = queue_at(queues, index);
    match q.pop() {
        Err(e) => Err(e),
        Ok(Some(p)) => {
            proof {
                assert(final(queues)@[index as int]@ == old(queues)@[index as int]@.drop_first());
            }
            Ok(Some(p))
        },
        Ok(None) => {
            let n = queues.len();
            let mut c: usize = 1;
            while c < n
                invariant
                    n == old(queues)@.len(),
                    index < n,
                    1 <= c <= n,
                    queues@.len() == n,
                    old(queues)@[index as int]@.len() == 0,
                    forall|k: int|
                        0 <= k < n ==> (#[trigger] queues@[k]).wf() && queues@[k]@ == old(queues)@[k]@ && queues@[k].left_cap() == old(queues)@[k].left_cap()
                            && queues@[k].right_cap() == old(queues)@[k].right_cap(),
                    forall|k: int|
                        0 <= k < n && k != index && steal_rank(k, index as int, n as int) < c - 1
                            ==> (#[trigger] old(queues)@[k])@.len() == 0,
                    forall|k: int|
                        0 <= k < n && k != index && steal_rank(k, index as int, n as int) >= c - 1
                            ==> #[trigger] queues@[k] == old(queues)@[k],
                decreases n - c,
            {
                let i = if c >= n - index {
                    c - (n - index)
                } else {
                    index + c
                };
                proof {
                    assert(i != index);
                    assert(steal_rank(i as int, index as int, n as int) == c - 1);
                }
                let q = queue_at(queues, i);
                match q.pop() {
                    Err(e) => {
                        return Err(e);
                    },
                    Ok(Some(p)) => {
                        proof {
                            assert(final(queues)@[i as int]@ == old(queues)@[
                                i as int
                            ]@.drop_first());
                        }
                        return Ok(Some(p));
                    },
                    Ok(None) => {
                    },
                }
                c = c + 1;
            }
            proof {
                assert forall|k: int| 0 <= k < n && k != index implies (
                #[trigger] old(queues)@[k])@.len() == 0 by {
                    assert(steal_rank(k, index as int, n as int) < n - 1);
                }
            }
            Ok(None)
        },
    }
}

/// Push into the worker's own queue.  The three-stage queue spills to disk
/// instead of refusing a path, so no sideways fallback to a peer queue is
/// needed.
pub fn push(queues: &mut Vec<PathQueue>, index: usize, path: Vec<u8>) -> (r: Result<(), Error>)
    requires
        index < old(queues)@.len(),
        forall|i: int| 0 <= i < old(queues)@.len() ==> (#[trigger] old(queues)@[i]).wf(),
        !path@.contains(0u8),
    ensures
        final(queues)@.len() == old(queues)@.len(),
        r is Ok ==> {
            &&& forall|k: int|
                0 <= k < old(queues)@.len() ==> (#[trigger] final(queues)@[k]).wf() && final(queues)@[k].left_cap() == old(queues)@[k].left_cap() && final(queues)@[k].right_cap()
                    == old(queues)@[k].right_cap()
            &&& final(queues)@[index as int]@ == old(queues)@[index as int]@.push(path@)
            &&& forall|k: int|
                0 <= k < old(queues)@.len() && k != index ==> #[trigger] final(queues)@[k]@ == old(queues)@[k]@
        },
        !old(queues)@[index as int].spill_needed() ==> r is Ok,
        r is Err ==> r->Err_0 == Error::Io,
{
    let q = queue_at(queues, index);
    match q.push(path) {
        Err(e) => Err(e),
        Ok(None) => Ok(()),
        Ok(Some(_)) => {
            // The queue's push contract rules this out: a well-formed queue
            // accepts every path, spilling to make room.
            proof {
                assert(false);
            }
            Ok(())
        },
    }
}

/// Whether two byte strings are equal.
fn bytes_eq(a: &Vec<u8>, b: &Vec<u8>) -> (r: bool)
    ensures
        r == (a@ == b@),
{
    if a.len() != b.len() {
        return false;
    }
    let mut i: usize = 0;
    while i < a.len()
        invariant
            i <= a@.len(),
            a@.len() == b@.len(),
            forall|j: int| 0 <= j < i ==> a@[j] == b@[j],
        decreases a@.len() - i,
    {
        if a[i] != b[i] {
            return false;
        }
        i = i + 1;
    }
    proof {
        assert(a@ =~= b@);
    }
    true
}

/// Whether `path` begins with the bytes of `prefix`.
fn bytes_start_with(path: &Vec<u8>, prefix: &Vec<u8>) -> (r: bool)
    ensures
        r == (path@.len() >= prefix@.len() && path@.subrange(0, prefix@.len() as int)
            == prefix@),
{
    if path.len() < prefix.len() {
        return false;
    }
    let mut i: usize = 0;
    while i < prefix.len()
        invariant
            i <= prefix@.len(),
            prefix@.len() <= path@.len(),
            forall|j: int| 0 <= j < i ==> path@[j] == prefix@[j],
        decreases prefix@.len() - i,
    {
        if path[i] != prefix[i] {
            proof {
                assert(path@.subrange(0, prefix@.len() as int)[i as int] != prefix@[i as int]);
            }
            return false;
        }
        i = i + 1;
    }
    proof {
        assert(path@.subrange(0, prefix@.len() as int) =~= prefix@);
    }
    true
}

/// The bytes of `path` from position `from` on.
fn bytes_tail(path: &Vec<u8>, from: usize) -> (r: Vec<u8>)
    requires
        from <= path@.len(),
    ensures
        r@ == path@.subrange(from as int, path@.len() as int),
{
    let mut r: Vec<u8> = Vec::new();
    let mut i: usize = from;
    while i < path.len()
        invariant
            from <= i <= path@.len(),
            r@ == path@.subrange(from as int, i as int),
        decreases path@.len() - i,
    {
        r.push(path[i]);
        proof {
            assert(r@ =~= path@.subrange(from as int, i + 1));
        }
        i = i + 1;
    }
    r
}

/// Whether the filter policy drops an entry with this base name: hidden
/// names (leading dot) are dropped unless allowed, and names on the ignore
/// list are always dropped.
pub fn should_skip(name: &Vec<u8>, allow_hidden: bool, ignores: &Vec<Vec<u8>>) -> (skip: bool)
    ensures
        skip == ((!allow_hidden && name@.len() > 0 && name@[0] == 46u8) || (exists|i: int|
            0 <= i < ignores@.len() && #[trigger] ignores@[i]@ == name@)),
{
    if !allow_hidden && name.len() > 0 {
        let first = name[0];
        if first == 46 {
            return true;
        }
    }
    let mut i: usize = 0;
    while i < ignores.len()
        invariant
            i <= ignores@.len(),
            forall|j: int| 0 <= j < i ==> #[trigger] ignores@[j]@ != name@,
        decreases ignores@.len() - i,
    {
        if bytes_eq(&ignores[i], name) {
            return true;
        }
        i = i + 1;
    }
    false
}

/// What the printed form of a path is: with prefix stripping on, a leading
/// `./` is removed, or a leading working-directory prefix up to and
/// including the separator that follows it — when the directory is the root
/// (or otherwise ends with the separator) the separator is its own last
/// byte; otherwise the path is printed as it is.
pub open spec fn display_spec(path: Seq<u8>, cwd: Seq<u8>, strip: bool) -> Seq<u8> {
    if !strip {
        path
    } else if path.len() >= 2 && path.subrange(0, 2) == seq![46u8, 47u8] {
        path.subrange(2, path.len() as int)
    } else if cwd.len() > 0 && path.len() > cwd.len() && path.subrange(0, cwd.len() as int) == cwd
        && cwd.last() == 47u8 {
        path.subrange(cwd.len() as int, path.len() as int)
    } else if path.len() > cwd.len() && path.subrange(0, cwd.len() as int) == cwd && path[cwd.len() as int] == 47u8 {
        path.subrange(cwd.len() as int + 1, path.len() as int)
    } else {
        path
    }
}

/// The printed form of a path (`display_spec`), as owned bytes.
pub fn display_path(path: &Vec<u8>, cwd: &Vec<u8>, strip: bool) -> (r: Vec<u8>)
    ensures
        r@ == display_spec(path@, cwd@, strip),
{
    if !strip {
        return bytes_tail(path, 0);
    }
    let mut dot_slash: Vec<u8> = Vec::new();
    dot_slash.push(46);
    dot_slash.push(47);
    proof {
        assert(dot_slash@ =~= seq![46u8, 47u8]);
    }
    if bytes_start_with(path, &dot_slash) {
        return bytes_tail(path, 2);
    }
    if bytes_start_with(path, cwd) && path.len() > cwd.len() {
        if cwd.len() > 0 && cwd[cwd.len() - 1] == 47 {
            return bytes_tail(path, cwd.len());
        }
        let sep = path[cwd.len()];
        if sep == 47 {
            return bytes_tail(path, cwd.len() + 1);
        }
    }
    bytes_tail(path, 0)
}

/// What the scanner does with one directory entry.
#[derive(Debug, PartialEq, Eq)]
pub enum EntryAction {
    /// Dropped silently by the hidden-file rule or the ignore list.
    Skip,
    /// The entry's name is not valid text: report a diagnostic, emit nothing.
    BadName,
    /// Print `line`, and enqueue the entry's path if `descend` holds.
    Emit { line: Vec<u8>, descend: bool },
}

/// The scanner decision for one child entry of a popped directory: `path` is
/// the entry's path (already resolved if links are followed), `name` its base
/// name — `None` when it is not valid text — `is_dir` whether the entry is a
/// directory (the entry's own type when links are not followed), and `depth`
/// how many levels below its root the entry sits.  A directory is descended
/// into only while its children would still be within the depth cap.
pub fn scan_entry(
    path: &Vec<u8>,
    name: &Option<Vec<u8>>,
    is_dir: bool,
    depth: i32,
    opts: &Options,
    cwd: &Vec<u8>,
) -> (act: EntryAction)
    ensures
        name is None ==> act == EntryAction::BadName,
        name is Some && ((!opts.allow_hidden && name->0@.len() > 0 && name->0@[0] == 46u8) || (
        exists|i: int| 0 <= i < opts.ignores@.len() && #[trigger] opts.ignores@[i]@ == name->0@))
            ==> act == EntryAction::Skip,
        name is Some && !((!opts.allow_hidden && name->0@.len() > 0 && name->0@[0] == 46u8) || (
        exists|i: int| 0 <= i < opts.ignores@.len() && #[trigger] opts.ignores@[i]@ == name->0@))
            ==> (act matches EntryAction::Emit { line, descend } && line@ == display_spec(
            path@,
            cwd@,
            opts.strip_cwd_prefix,
        ) && descend == (is_dir && depth < opts.max_depth)),
{
    match name {
        None => EntryAction::BadName,
        Some(n) => {
            if should_skip(n, opts.allow_hidden, &opts.ignores) {
                EntryAction::Skip
            } else {
                let line = display_path(path, cwd, opts.strip_cwd_prefix);
                EntryAction::Emit { line, descend: is_dir && depth < opts.max_depth }
            }
        },
    }
}

/// What the worker decides after one poll of the queues.
pub open spec fn should_exit_spec(got_work: bool, outstanding: u64) -> bool {
    !got_work && outstanding == 0
}

/// The worker-loop exit decision: stop once a poll finds no work while the
/// outstanding-work counter is zero; otherwise keep polling (sleeping
/// briefly when the poll was empty but work is still outstanding).
pub fn worker_should_exit(got_work: bool, outstanding: u64) -> (r: bool)
    ensures
        r == should_exit_spec(got_work, outstanding),
{
    !got_work && outstanding == 0
}

/// Termination: once the outstanding-work counter is zero and every queue is
/// empty, no queue pop touches the spill store, so `pop_or_steal`'s contract
/// forces `Ok(None)` and leaves every queue empty — and the exit decision
/// fires on that poll.  Every polling worker therefore exits within one
/// steal cycle.
pub proof fn lemma_termination(queues: Seq<PathQueue>, outstanding: u64)
    requires
        outstanding == 0,
        forall|i: int| 0 <= i < queues.len() ==> (#[trigger] queues[i]).wf() && queues[i]@.len()
            == 0,
    ensures
        forall|i: int| 0 <= i < queues.len() ==> !(#[trigger] queues[i]).pop_hits_spill(),
        should_exit_spec(false, outstanding),
{
    assert forall|i: int| 0 <= i < queues.len() implies !(#[trigger] queues[i]).pop_hits_spill() by {
        queues[i].lemma_stage_views();
        assert(queues[i].mid_view().len() <= queues[i]@.len());
    }
}

} // verus!

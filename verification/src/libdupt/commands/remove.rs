//! The `remove` command: which packages to remove and what removing runs.
use vstd::prelude::*;
use super::Command;
use crate::package::texts;
use crate::text::{clone_range, join, join_strings, str_eq};

verus! {

/// Removes the packages `names`, asking first unless `confirm` is off.
pub struct Remove {
    pub names: Vec<String>,
    pub confirm: bool,
}

impl Default for Remove {
    /// A removal of `help`, asking for confirmation.
    fn default() -> (r: Remove)
        ensures
            r.names@.len() == 1,
            r.names@[0]@ == "help"@,
            r.confirm,
    {
        let mut names: Vec<String> = Vec::new();
        names.push(String::from_str("help"));
        Remove { names, confirm: true }
    }
}

impl Command for Remove {
    /// Every argument list is read.
    open spec fn reads(&self, args: Seq<String>) -> bool {
        true
    }

    /// All arguments are kept as names, a last `-y` included; a last `-y`
    /// also turns confirmation off. No argument at all is an error.
    fn set_from_args(&mut self, args: &Vec<String>) -> (r: Result<(), &'static str>)
        ensures
            args@.len() == 0 ==> r == Err::<(), &'static str>("not enough arguments") && *final(self)
                == *old(self),
            args@.len() > 0 ==> {
                &&& r == Ok::<(), &'static str>(())
                &&& final(self).names@ == args@
                &&& final(self).confirm == if args@.last()@ == "-y"@ {
                    false
                } else {
                    old(self).confirm
                }
            },
    {
        if args.len() == 0 {
            return Err("not enough arguments");
        }
        if !str_eq(args[args.len() - 1].as_str(), "-y") {
            self.names = clone_range(args, 0, args.len());
            assert(args@.subrange(0, args@.len() as int) =~= args@);
            return Ok(());
        }
        self.confirm = false;
        self.names = clone_range(args, 0, args.len());
        assert(args@.subrange(0, args@.len() as int) =~= args@);
        Ok(())
    }
}

impl Remove {
    /// The container command that removes the dependencies `unused`.
    pub fn remove_command(unused: &Vec<String>) -> (r: String)
        ensures
            r@ == "sudo dnf remove "@ + join(texts(unused@), " "@) + " -y"@,
    {
        let mut r = String::from_str("sudo dnf remove ");
        let j = join_strings(unused, " ");
        r.append(j.as_str());
        r.append(" -y");
        r
    }
}

/// One thing removing one package does.
pub enum RemovalStep {
    /// Delete the directory at `path` and all it holds.
    DeleteDir { path: String },
    /// Work out the dependencies of the package that no other installed
    /// package needs (`get_unused_dependencies`), and remove them in the
    /// container with `Remove::remove_command`.
    RemoveUnused,
    /// Delete the file at `path`.
    DeleteFile { path: String },
}

impl Remove {
    /// What removing the installed package `name` under the dupt root `root`
    /// does, in order: delete its program directory, remove the dependencies
    /// that no other package needs, and delete its installed package file.
    pub fn removal_steps(root: &str, name: &str) -> (r: Vec<RemovalStep>)
        ensures
            r@.len() == 3,
            r@[0] matches RemovalStep::DeleteDir { path } && path@ == root@ + "/.dupt/bin/"@ + name@,
            r@[1] matches RemovalStep::RemoveUnused,
            r@[2] matches RemovalStep::DeleteFile { path } && path@ == root@ + "/.dupt/installed/"@ + name@,
    {
        let mut r: Vec<RemovalStep> = Vec::new();
        r.push(RemovalStep::DeleteDir { path: crate::libdupt::tools::paths::bin_dir(root, name) });
        r.push(RemovalStep::RemoveUnused);
        r.push(RemovalStep::DeleteFile { path: crate::libdupt::tools::paths::installed_file(root, name) });
        r
    }
}

/// How a run of `remove` ends without an error.
pub enum RemoveEnd {
    /// The answer to the confirmation was no.
    Aborted,
    /// Every package was removed.
    Finished,
}

/// The next thing a run of `remove` over `n` packages does; the caller does
/// it and reports back how it went.
pub enum RemoveAction {
    /// Make sure the dupt root is ready.
    Prepare,
    /// Make sure package `i` is installed.
    Verify(usize),
    /// Show the packages and ask whether to go on.
    Confirm,
    /// Remove package `i`: its program, the dependencies no other package
    /// needs, and its record.
    Remove(usize),
    /// The run is over.
    Stop(RemoveEnd),
    /// The run failed with this error.
    Fail(String),
}

/// Removing all `n` packages: the first removal, or the end when there is none.
pub open spec fn remove_all(n: nat) -> RemoveAction {
    if n > 0 {
        RemoveAction::Remove(0)
    } else {
        RemoveAction::Stop(RemoveEnd::Finished)
    }
}

/// What comes once every package is known to be installed.
pub open spec fn after_verified(n: nat, confirm: bool) -> RemoveAction {
    if confirm {
        RemoveAction::Confirm
    } else {
        remove_all(n)
    }
}

/// What a run of `remove` over `n` packages (asking for confirmation when
/// `confirm` is set) does after `last`, given how `last` went: `Ok` with the
/// answer of the question (`true` for the others), or the error it ended
/// with. Any error fails the run; a "no" aborts it.
pub open spec fn remove_next(n: nat, confirm: bool, last: RemoveAction, outcome: Result<bool, String>) -> RemoveAction {
    match outcome {
        Err(e) => match last {
            RemoveAction::Stop(end) => RemoveAction::Stop(end),
            RemoveAction::Fail(f) => RemoveAction::Fail(f),
            _ => RemoveAction::Fail(e),
        },
        Ok(yes) => match last {
            RemoveAction::Prepare => if n > 0 {
                RemoveAction::Verify(0)
            } else {
                after_verified(n, confirm)
            },
            RemoveAction::Verify(i) => if i + 1 < n {
                RemoveAction::Verify((i + 1) as usize)
            } else {
                after_verified(n, confirm)
            },
            RemoveAction::Confirm => if yes {
                remove_all(n)
            } else {
                RemoveAction::Stop(RemoveEnd::Aborted)
            },
            RemoveAction::Remove(i) => if i + 1 < n {
                RemoveAction::Remove((i + 1) as usize)
            } else {
                RemoveAction::Stop(RemoveEnd::Finished)
            },
            RemoveAction::Stop(end) => RemoveAction::Stop(end),
            RemoveAction::Fail(f) => RemoveAction::Fail(f),
        },
    }
}

/// The action is about a package index below `n`, when it names one.
pub open spec fn remove_action_in_range(a: RemoveAction, n: nat) -> bool {
    match a {
        RemoveAction::Verify(i) => i < n,
        RemoveAction::Remove(i) => i < n,
        _ => true,
    }
}

impl Remove {
    /// The first thing a run of this command does.
    pub fn first_action(&self) -> (r: RemoveAction)
        ensures
            r == RemoveAction::Prepare,
    {
        RemoveAction::Prepare
    }

    /// What this command does after `last` went as `outcome`.
    pub fn next_action(&self, last: RemoveAction, outcome: Result<bool, String>) -> (r: RemoveAction)
        requires
            remove_action_in_range(last, self.names@.len()),
        ensures
            r == remove_next(self.names@.len(), self.confirm, last, outcome),
            remove_action_in_range(r, self.names@.len()),
    {
        let n = self.names.len();
        let after = if self.confirm {
            RemoveAction::Confirm
        } else if n > 0 {
            RemoveAction::Remove(0)
        } else {
            RemoveAction::Stop(RemoveEnd::Finished)
        };
        match outcome {
            Err(e) => match last {
                RemoveAction::Stop(end) => RemoveAction::Stop(end),
                RemoveAction::Fail(f) => RemoveAction::Fail(f),
                _ => RemoveAction::Fail(e),
            },
            Ok(yes) => match last {
                RemoveAction::Prepare => if n > 0 {
                    RemoveAction::Verify(0)
                } else {
                    after
                },
                RemoveAction::Verify(i) => if i + 1 < n {
                    RemoveAction::Verify(i + 1)
                } else {
                    after
                },
                RemoveAction::Confirm => if yes {
                    if n > 0 {
                        RemoveAction::Remove(0)
                    } else {
                        RemoveAction::Stop(RemoveEnd::Finished)
                    }
                } else {
                    RemoveAction::Stop(RemoveEnd::Aborted)
                },
                RemoveAction::Remove(i) => if i + 1 < n {
                    RemoveAction::Remove(i + 1)
                } else {
                    RemoveAction::Stop(RemoveEnd::Finished)
                },
                RemoveAction::Stop(end) => RemoveAction::Stop(end),
                RemoveAction::Fail(f) => RemoveAction::Fail(f),
            },
        }
    }
}

/// The actions `t` are those of a run of `remove` over `n` packages in which
/// action `t[k]` went as `o[k]`.
pub open spec fn is_remove_run(
    n: nat,
    confirm: bool,
    t: Seq<RemoveAction>,
    o: Seq<Result<bool, String>>,
) -> bool {
    &&& t.len() == o.len() + 1
    &&& t[0] == RemoveAction::Prepare
    &&& forall|k: int| 0 <= k < o.len() ==> t[k + 1] == remove_next(n, confirm, t[k], #[trigger] o[k])
}

/// Package `i` was found installed at some step of the run before step `p`.
pub open spec fn verified_before(t: Seq<RemoveAction>, o: Seq<Result<bool, String>>, i: usize, p: int) -> bool {
    exists|q: int| 0 <= q < p && #[trigger] t[q] == RemoveAction::Verify(i) && o[q] matches Ok(_)
}

/// The answer yes was given at some step of the run before step `p`.
pub open spec fn remove_confirmed_before(t: Seq<RemoveAction>, o: Seq<Result<bool, String>>, p: int) -> bool {
    exists|q: int|
        0 <= q < p && #[trigger] t[q] == RemoveAction::Confirm && o[q] == Ok::<bool, String>(true)
}

/// Package `i` was removed at some step of the run before step `p`.
pub open spec fn removed_before(t: Seq<RemoveAction>, o: Seq<Result<bool, String>>, i: usize, p: int) -> bool {
    exists|q: int| 0 <= q < p && #[trigger] t[q] == RemoveAction::Remove(i) && o[q] matches Ok(_)
}

/// `a` comes once every package is known to be installed.
pub open spec fn after_verify(a: RemoveAction) -> bool {
    match a {
        RemoveAction::Confirm => true,
        RemoveAction::Remove(_) => true,
        RemoveAction::Stop(RemoveEnd::Finished) => true,
        _ => false,
    }
}

/// What holds at step `k` of a run of `remove`.
pub open spec fn remove_run_inv(
    n: nat,
    confirm: bool,
    t: Seq<RemoveAction>,
    o: Seq<Result<bool, String>>,
    k: int,
) -> bool {
    &&& t[k] matches RemoveAction::Verify(i) ==> forall|j: usize|
        j < i ==> #[trigger] verified_before(t, o, j, k)
    &&& after_verify(t[k]) ==> forall|j: usize| j < n ==> #[trigger] verified_before(t, o, j, k)
    &&& confirm && (t[k] matches RemoveAction::Remove(_) || t[k] == RemoveAction::Stop(
        RemoveEnd::Finished,
    )) ==> remove_confirmed_before(t, o, k)
    &&& t[k] matches RemoveAction::Remove(i) ==> forall|j: usize|
        j < i ==> #[trigger] removed_before(t, o, j, k)
    &&& t[k] == RemoveAction::Stop(RemoveEnd::Finished) ==> forall|j: usize|
        j < n ==> #[trigger] removed_before(t, o, j, k)
}

/// The invariant holds at every step of a run.
proof fn lemma_remove_run_inv(
    n: nat,
    confirm: bool,
    t: Seq<RemoveAction>,
    o: Seq<Result<bool, String>>,
    k: int,
)
    requires
        n <= usize::MAX,
        is_remove_run(n, confirm, t, o),
        0 <= k < t.len(),
    ensures
        remove_run_inv(n, confirm, t, o, k),
    decreases k,
{
    if k > 0 {
        let p = k - 1;
        lemma_remove_run_inv(n, confirm, t, o, p);
        let last = t[p];
        let out = o[p];
        assert(t[k] == remove_next(n, confirm, last, out));
        assert forall|j: usize| verified_before(t, o, j, p) implies #[trigger] verified_before(t, o, j, k) by {
            let q = choose|q: int|
                0 <= q < p && #[trigger] t[q] == RemoveAction::Verify(j) && o[q] matches Ok(_);
            assert(0 <= q < k && t[q] == RemoveAction::Verify(j));
        }
        assert forall|j: usize| removed_before(t, o, j, p) implies #[trigger] removed_before(t, o, j, k) by {
            let q = choose|q: int|
                0 <= q < p && #[trigger] t[q] == RemoveAction::Remove(j) && o[q] matches Ok(_);
            assert(0 <= q < k && t[q] == RemoveAction::Remove(j));
        }
        if remove_confirmed_before(t, o, p) {
            let q = choose|q: int|
                0 <= q < p && #[trigger] t[q] == RemoveAction::Confirm && o[q] == Ok::<bool, String>(true);
            assert(0 <= q < k && t[q] == RemoveAction::Confirm);
        }
        match last {
            RemoveAction::Verify(i) => {
                if out matches Ok(_) {
                    assert forall|j: usize| j <= i implies #[trigger] verified_before(t, o, j, k) by {
                        if j < i {
                            assert(verified_before(t, o, j, p));
                        } else {
                            assert(t[p] == RemoveAction::Verify(j));
                        }
                    }
                }
            },
            RemoveAction::Confirm => {
                if out == Ok::<bool, String>(true) {
                    assert(t[p] == RemoveAction::Confirm);
                    assert(remove_confirmed_before(t, o, k));
                }
            },
            RemoveAction::Remove(i) => {
                if out matches Ok(_) {
                    assert forall|j: usize| j <= i implies #[trigger] removed_before(t, o, j, k) by {
                        if j < i {
                            assert(removed_before(t, o, j, p));
                        } else {
                            assert(t[p] == RemoveAction::Remove(j));
                        }
                    }
                }
            },
            _ => {},
        }
    }
}

/// `remove` removes a package only once every package has been found installed.
pub proof fn law_remove_removes_only_installed(
    n: nat,
    confirm: bool,
    t: Seq<RemoveAction>,
    o: Seq<Result<bool, String>>,
    p: int,
)
    requires
        n <= usize::MAX,
        is_remove_run(n, confirm, t, o),
        0 <= p < t.len(),
        t[p] matches RemoveAction::Remove(_),
    ensures
        forall|j: usize| j < n ==> #[trigger] verified_before(t, o, j, p),
{
    lemma_remove_run_inv(n, confirm, t, o, p);
}

/// With confirmation on, `remove` removes a package only after the answer yes.
pub proof fn law_remove_removes_only_confirmed(
    n: nat,
    t: Seq<RemoveAction>,
    o: Seq<Result<bool, String>>,
    p: int,
)
    requires
        n <= usize::MAX,
        is_remove_run(n, true, t, o),
        0 <= p < t.len(),
        t[p] matches RemoveAction::Remove(_),
    ensures
        remove_confirmed_before(t, o, p),
{
    lemma_remove_run_inv(n, true, t, o, p);
}

/// A run of `remove` that finishes has removed every package.
pub proof fn law_remove_finishes_everything(
    n: nat,
    confirm: bool,
    t: Seq<RemoveAction>,
    o: Seq<Result<bool, String>>,
    p: int,
)
    requires
        n <= usize::MAX,
        is_remove_run(n, confirm, t, o),
        0 <= p < t.len(),
        t[p] == RemoveAction::Stop(RemoveEnd::Finished),
    ensures
        forall|j: usize| j < n ==> #[trigger] removed_before(t, o, j, p),
{
    lemma_remove_run_inv(n, confirm, t, o, p);
}

/// How far a run of `remove` over `n` packages is from its end.
pub open spec fn remove_rank(n: nat, a: RemoveAction) -> int {
    match a {
        RemoveAction::Prepare => 2 * n + 3int,
        RemoveAction::Verify(i) => 2 * n + 2 - i,
        RemoveAction::Confirm => n + 1int,
        RemoveAction::Remove(i) => n - i,
        RemoveAction::Stop(_) => 0int,
        RemoveAction::Fail(_) => 0int,
    }
}

/// Every run of `remove` ends: each step that is not the end brings it
/// closer to the end, and it starts at most `2 n + 3` steps away from it.
pub proof fn law_remove_ends(n: nat, confirm: bool, last: RemoveAction, outcome: Result<bool, String>)
    requires
        n <= usize::MAX,
        remove_action_in_range(last, n),
        !(last matches RemoveAction::Stop(_)),
        !(last matches RemoveAction::Fail(_)),
    ensures
        0 <= remove_rank(n, remove_next(n, confirm, last, outcome)) < remove_rank(n, last),
        remove_rank(n, RemoveAction::Prepare) <= 2 * n + 3,
{
}

} // verus!

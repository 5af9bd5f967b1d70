//! The `pkginfo` command: which package to describe.
use vstd::prelude::*;
use super::Command;

verus! {

/// Shows the information of package `name`.
pub struct PkgInfo {
    pub name: String,
}

impl Default for PkgInfo {
    /// The information of `help`.
    fn default() -> (r: PkgInfo)
        ensures
            r.name@ == "help"@,
    {
        PkgInfo { name: String::from_str("help") }
    }
}

impl Command for PkgInfo {
    /// Every argument list is read.
    open spec fn reads(&self, args: Seq<String>) -> bool {
        true
    }

    /// The first argument names the package; there must be one.
    fn set_from_args(&mut self, args: &Vec<String>) -> (r: Result<(), &'static str>)
        ensures
            args@.len() == 0 ==> r == Err::<(), &'static str>("not enough arguments") && *final(self)
                == *old(self),
            args@.len() > 0 ==> r == Ok::<(), &'static str>(()) && final(self).name@ == args@[0]@,
    {
        if args.len() == 0 {
            return Err("not enough arguments");
        }
        self.name = String::from_str(args[0].as_str());
        Ok(())
    }
}

/// The next thing showing a package's information does; the caller does it
/// and reports back how it went.
pub enum PkgInfoAction {
    /// Find out whether the package is installed.
    CheckInstalled,
    /// Show the installed package file.
    ShowInstalled,
    /// Search the repositories for the package.
    Search,
    /// Download and unpack the package's archive and show its `PKGINFO.conf`.
    Fetch,
    /// Clear the archives.
    Clean,
    /// The run is over.
    Stop,
    /// The run failed with this error.
    Fail(String),
}

/// What showing a package's information does after `last`, given how `last`
/// went: `Ok` with the answer of the check (`true` for the others), or the
/// error it ended with. An installed package is shown from its installed
/// file (a failed check counts as not installed); any other package is
/// searched for and fetched.
pub open spec fn pkginfo_next(last: PkgInfoAction, outcome: Result<bool, String>) -> PkgInfoAction {
    match last {
        PkgInfoAction::CheckInstalled => if outcome == Ok::<bool, String>(true) {
            PkgInfoAction::ShowInstalled
        } else {
            PkgInfoAction::Search
        },
        PkgInfoAction::ShowInstalled => match outcome {
            Err(e) => PkgInfoAction::Fail(e),
            Ok(_) => PkgInfoAction::Stop,
        },
        PkgInfoAction::Search => match outcome {
            Err(e) => PkgInfoAction::Fail(e),
            Ok(_) => PkgInfoAction::Fetch,
        },
        PkgInfoAction::Fetch => match outcome {
            Err(e) => PkgInfoAction::Fail(e),
            Ok(_) => PkgInfoAction::Clean,
        },
        PkgInfoAction::Clean => match outcome {
            Err(e) => PkgInfoAction::Fail(e),
            Ok(_) => PkgInfoAction::Stop,
        },
        PkgInfoAction::Stop => PkgInfoAction::Stop,
        PkgInfoAction::Fail(e) => PkgInfoAction::Fail(e),
    }
}

impl PkgInfo {
    /// The first thing this command does.
    pub fn first_action(&self) -> (r: PkgInfoAction)
        ensures
            r == PkgInfoAction::CheckInstalled,
    {
        PkgInfoAction::CheckInstalled
    }

    /// What this command does after `last` went as `outcome`.
    pub fn next_action(&self, last: PkgInfoAction, outcome: Result<bool, String>) -> (r: PkgInfoAction)
        ensures
            r == pkginfo_next(last, outcome),
    {
        match last {
            PkgInfoAction::CheckInstalled => match outcome {
                Ok(true) => PkgInfoAction::ShowInstalled,
                _ => PkgInfoAction::Search,
            },
            PkgInfoAction::ShowInstalled => match outcome {
                Err(e) => PkgInfoAction::Fail(e),
                Ok(_) => PkgInfoAction::Stop,
            },
            PkgInfoAction::Search => match outcome {
                Err(e) => PkgInfoAction::Fail(e),
                Ok(_) => PkgInfoAction::Fetch,
            },
            PkgInfoAction::Fetch => match outcome {
                Err(e) => PkgInfoAction::Fail(e),
                Ok(_) => PkgInfoAction::Clean,
            },
            PkgInfoAction::Clean => match outcome {
                Err(e) => PkgInfoAction::Fail(e),
                Ok(_) => PkgInfoAction::Stop,
            },
            PkgInfoAction::Stop => PkgInfoAction::Stop,
            PkgInfoAction::Fail(e) => PkgInfoAction::Fail(e),
        }
    }
}

/// `pkginfo` downloads a package only when it is not installed and a
/// repository lists it: in a run, `Fetch` comes third, after a check that did
/// not find the package installed and a search that found it.
pub proof fn law_pkginfo_fetches_only_uninstalled(t: Seq<PkgInfoAction>, o: Seq<Result<bool, String>>, p: int)
    requires
        t.len() == o.len() + 1,
        t[0] == PkgInfoAction::CheckInstalled,
        forall|k: int| 0 <= k < o.len() ==> t[k + 1] == pkginfo_next(t[k], #[trigger] o[k]),
        0 <= p < t.len(),
        t[p] == PkgInfoAction::Fetch,
    ensures
        p == 2,
        o[0] != Ok::<bool, String>(true),
        t[1] == PkgInfoAction::Search && o[1] matches Ok(_),
{
    assert(p > 0);
    assert(t[p] == pkginfo_next(t[p - 1], o[p - 1]));
    assert(t[p - 1] == PkgInfoAction::Search);
    assert(p - 1 > 0);
    assert(t[p - 1] == pkginfo_next(t[p - 2], o[p - 2]));
    assert(t[p - 2] == PkgInfoAction::CheckInstalled);
    if p - 2 > 0 {
        assert(t[p - 2] == pkginfo_next(t[p - 3], o[p - 3]));
    }
}

} // verus!

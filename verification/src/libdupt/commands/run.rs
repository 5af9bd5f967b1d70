//! The `run` command: which installed program to start, and where.
use vstd::prelude::*;
use super::Command;
use crate::text::{
    contains, eq_range, find_char, index_of, last_index_of, line_ranges, lines, rfind_char,
    slice_string, to_chars, trim, trim_range,
};

verus! {

/// Runs the installed package `name`.
pub struct Run {
    pub name: String,
}

impl Default for Run {
    /// Runs `help`.
    fn default() -> (r: Run)
        ensures
            r.name@ == "help"@,
    {
        Run { name: String::from_str("help") }
    }
}

impl Run {
    /// The lines of the help text of `run`.
    pub fn help_text() -> (r: Vec<&'static str>)
        ensures
            r@.len() == 2,
            r@[0]@ == "run"@,
            r@[1]@ == "run installed software"@,
    {
        let mut r: Vec<&'static str> = Vec::new();
        r.push("run");
        r.push("run installed software");
        r
    }
}

impl Command for Run {
    /// Every argument list is read.
    open spec fn reads(&self, args: Seq<String>) -> bool {
        true
    }

    /// The first argument names the package; there must be one.
    fn set_from_args(&mut self, args: &Vec<String>) -> (r: Result<(), &'static str>)
        ensures
            args@.len() == 0 ==> r == Err::<(), &'static str>("not enought arguments") && *final(self)
                == *old(self),
            args@.len() > 0 ==> r == Ok::<(), &'static str>(()) && final(self).name@ == args@[0]@,
    {
        if args.len() == 0 {
            return Err("not enought arguments");
        }
        self.name = String::from_str(args[0].as_str());
        Ok(())
    }
}

/// The executable path an installed package file declares: the trimmed value
/// of its last `exec:` line (lines without `:` are passed over, the key is
/// trimmed), or nothing when there is none.
pub open spec fn exec_path(ls: Seq<Seq<char>>) -> Seq<char>
    decreases ls.len(),
{
    if ls.len() == 0 {
        seq![]
    } else {
        let l = ls.last();
        let k = index_of(l, ':');
        if k >= 0 && trim(l.take(k)) == "exec"@ {
            trim(l.skip(k + 1))
        } else {
            exec_path(ls.drop_last())
        }
    }
}

/// Where to start a package and what: the directory of its executable, below
/// the package's directory, and the command run in the container there.
pub struct Launch {
    pub dir: String,
    pub argv: Vec<String>,
}

/// The directory part and the file name of a path: split at its last `/`,
/// or no directory when it holds none.
pub open spec fn split_exec(p: Seq<char>) -> (Seq<char>, Seq<char>) {
    let k = last_index_of(p, '/');
    if k >= 0 {
        (p.take(k), p.skip(k + 1))
    } else {
        (seq![], p)
    }
}

/// Line `l` declares the executable: its key (the text before its first
/// `:`), trimmed, is `exec`, and `k` is where that `:` is.
pub open spec fn declares_exec(l: Seq<char>, k: int) -> bool {
    crate::text::first_colon_at(l, k) && trim(l.take(k)) == "exec"@
}

/// The executable path is the trimmed value (the text after the first `:`)
/// of the last line that declares the executable.
pub proof fn law_exec_path_is_last_declaration(ls: Seq<Seq<char>>, i: int, k: int)
    requires
        0 <= i < ls.len(),
        declares_exec(ls[i], k),
        forall|j: int, k2: int| i < j < ls.len() ==> !#[trigger] declares_exec(ls[j], k2),
    ensures
        exec_path(ls) == trim(ls[i].skip(k + 1)),
    decreases ls.len(),
{
    let l = ls.last();
    crate::text::lemma_first_colon(l);
    if i == ls.len() - 1 {
        assert(k == index_of(l, ':'));
    } else {
        if index_of(l, ':') >= 0 {
            assert(!declares_exec(ls[ls.len() - 1], index_of(l, ':')));
        }
        assert forall|j: int, k2: int| i < j < ls.drop_last().len() implies !#[trigger] declares_exec(ls.drop_last()[j],
            k2,
        ) by {
            assert(ls.drop_last()[j] == ls[j]);
        }
        assert(ls.drop_last()[i] == ls[i]);
        law_exec_path_is_last_declaration(ls.drop_last(), i, k);
    }
}

/// With no line that declares the executable, the path is empty.
pub proof fn law_exec_path_without_declaration(ls: Seq<Seq<char>>)
    requires
        forall|j: int, k: int| 0 <= j < ls.len() ==> !#[trigger] declares_exec(ls[j], k),
    ensures
        exec_path(ls) == Seq::<char>::empty(),
    decreases ls.len(),
{
    if ls.len() > 0 {
        let l = ls.last();
        crate::text::lemma_first_colon(l);
        if index_of(l, ':') >= 0 {
            assert(!declares_exec(ls[ls.len() - 1], index_of(l, ':')));
        }
        assert forall|j: int, k: int| 0 <= j < ls.drop_last().len() implies !#[trigger] declares_exec(ls.drop_last()[j],
            k,
        ) by {
            assert(ls.drop_last()[j] == ls[j]);
        }
        law_exec_path_without_declaration(ls.drop_last());
    }
}

/// An executable path is cut at its last `/`: the file name holds no `/`,
/// and the path is the directory, a `/` and the file name; a path without
/// `/` is all file name, with no directory.
pub proof fn law_exec_split_at_last_slash(p: Seq<char>)
    ensures
        ({
            let (d, f) = split_exec(p);
            &&& forall|j: int| 0 <= j < f.len() ==> f[j] != '/'
            &&& (exists|j: int| 0 <= j < p.len() && p[j] == '/') ==> p == d + seq!['/'] + f
            &&& !(exists|j: int| 0 <= j < p.len() && p[j] == '/') ==> d == Seq::<char>::empty() && f == p
        }),
{
    crate::text::lemma_last_index_of(p, '/');
    let k = last_index_of(p, '/');
    if k >= 0 {
        let (d, f) = split_exec(p);
        assert forall|j: int| 0 <= j < f.len() implies f[j] != '/' by {
            assert(f[j] == p[k + 1 + j]);
        }
        assert(p =~= d + seq!['/'] + f);
    } else {
        assert forall|j: int| 0 <= j < p.len() implies p[j] != '/' by {}
    }
}

impl Run {
    /// How to start this package, installed under `root`, whose installed
    /// package file is `pkginfo`: in `<root>/.dupt/bin/<name>/<dir>` run
    /// `distrobox enter dupt-fedora -- ./<file>`, where `<dir>` and `<file>`
    /// split the declared executable path at its last `/`.
    pub fn launch(&self, root: &str, pkginfo: &str) -> (r: Launch)
        ensures
            ({
                let (dir, file) = split_exec(exec_path(lines(pkginfo@)));
                &&& r.dir@ == root@ + "/.dupt/bin/"@ + self.name@ + "/"@ + dir
                &&& r.argv@.len() == 4
                &&& r.argv@[0]@ == "enter"@
                &&& r.argv@[1]@ == "dupt-fedora"@
                &&& r.argv@[2]@ == "--"@
                &&& r.argv@[3]@ == "./"@ + file
            }),
    {
        let s = to_chars(pkginfo);
        let ranges = line_ranges(&s);
        let ghost ls = lines(s@);
        let k_exec = to_chars("exec");
        let mut path = String::new();
        let mut i: usize = 0;
        assert(ls.take(0) =~= seq![]);
        while i < ranges.len()
            invariant
                s@ == pkginfo@,
                ls == lines(s@),
                k_exec@ == "exec"@,
                crate::text::ranges_are_lines(s@, ranges@),
                i <= ranges@.len(),
                path@ == exec_path(ls.take(i as int)),
            decreases ranges@.len() - i,
        {
            let (lo, hi) = ranges[i];
            let ghost l = s@.subrange(lo as int, hi as int);
            assert(ls.take(i + 1).drop_last() =~= ls.take(i as int));
            assert(ls.take(i + 1).last() == l);
            match find_char(&s, lo, hi, ':') {
                Some(k) => {
                    assert(l.take(k - lo) =~= s@.subrange(lo as int, k as int));
                    assert(l.skip(k - lo + 1) =~= s@.subrange(k + 1, hi as int));
                    let (klo, khi) = trim_range(&s, lo, k);
                    if eq_range(&s, klo, khi, &k_exec) {
                        let (vlo, vhi) = trim_range(&s, k + 1, hi);
                        path = slice_string(pkginfo, vlo, vhi);
                    }
                },
                None => {},
            }
            i = i + 1;
        }
        assert(ls.take(ranges@.len() as int) =~= ls);
        let p = to_chars(path.as_str());
        let (dir, file) = match rfind_char(&p, 0, p.len(), '/') {
            Some(k) => {
                assert(p@.subrange(0, p@.len() as int) =~= p@);
                assert(p@.take(k as int) =~= p@.subrange(0, k as int));
                assert(p@.skip(k + 1) =~= p@.subrange(k + 1, p@.len() as int));
                (slice_string(path.as_str(), 0, k), slice_string(path.as_str(), k + 1, p.len()))
            },
            None => {
                assert(p@.subrange(0, p@.len() as int) =~= p@);
                (String::new(), String::from_str(path.as_str()))
            },
        };
        let mut d = String::from_str(root);
        d.append("/.dupt/bin/");
        d.append(self.name.as_str());
        d.append("/");
        d.append(dir.as_str());
        let mut argv: Vec<String> = Vec::new();
        argv.push(String::from_str("enter"));
        argv.push(String::from_str("dupt-fedora"));
        argv.push(String::from_str("--"));
        let mut f = String::from_str("./");
        f.append(file.as_str());
        argv.push(f);
        Launch { dir: d, argv }
    }
}

/// The next thing running an installed package does; the caller does it and
/// reports back how it went.
pub enum RunAction {
    /// Make sure the package is installed.
    CheckInstalled,
    /// Read the installed package file and start the package as
    /// `Run::launch` says.
    Start,
    /// The run is over.
    Stop,
    /// The run failed with this error.
    Fail(String),
}

/// What running a package does after `last`, given how `last` went: any
/// error ends the run with it; a package that is not installed is not started.
pub open spec fn run_next(last: RunAction, outcome: Result<(), String>) -> RunAction {
    match last {
        RunAction::CheckInstalled => match outcome {
            Err(e) => RunAction::Fail(e),
            Ok(()) => RunAction::Start,
        },
        RunAction::Start => match outcome {
            Err(e) => RunAction::Fail(e),
            Ok(()) => RunAction::Stop,
        },
        RunAction::Stop => RunAction::Stop,
        RunAction::Fail(e) => RunAction::Fail(e),
    }
}

impl Run {
    /// The first thing this command does.
    pub fn first_action(&self) -> (r: RunAction)
        ensures
            r == RunAction::CheckInstalled,
    {
        RunAction::CheckInstalled
    }

    /// What this command does after `last` went as `outcome`.
    pub fn next_action(&self, last: RunAction, outcome: Result<(), String>) -> (r: RunAction)
        ensures
            r == run_next(last, outcome),
    {
        match last {
            RunAction::CheckInstalled => match outcome {
                Err(e) => RunAction::Fail(e),
                Ok(()) => RunAction::Start,
            },
            RunAction::Start => match outcome {
                Err(e) => RunAction::Fail(e),
                Ok(()) => RunAction::Stop,
            },
            RunAction::Stop => RunAction::Stop,
            RunAction::Fail(e) => RunAction::Fail(e),
        }
    }
}

/// `run` starts a package only once it was found installed: in a run,
/// `Start` comes second, after a check that went well.
pub proof fn law_run_starts_only_installed(t: Seq<RunAction>, o: Seq<Result<(), String>>, p: int)
    requires
        t.len() == o.len() + 1,
        t[0] == RunAction::CheckInstalled,
        forall|k: int| 0 <= k < o.len() ==> t[k + 1] == run_next(t[k], #[trigger] o[k]),
        0 <= p < t.len(),
        t[p] == RunAction::Start,
    ensures
        p == 1,
        o[0] matches Ok(_),
{
    assert(p > 0);
    assert(t[p] == run_next(t[p - 1], o[p - 1]));
    assert(t[p - 1] == RunAction::CheckInstalled);
    if p - 1 > 0 {
        assert(t[p - 1] == run_next(t[p - 2], o[p - 2]));
    }
}

} // verus!

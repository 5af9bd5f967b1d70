//! The `install` command: which packages to install and what installing one
//! runs in the container.
use vstd::prelude::*;
use super::Command;
use crate::package::texts;
use crate::text::{
    clone_range, concat_each, concat_strings, eq_range, find_char, head4_ok, index_of, indented,
    is_indented, join, join_strings, line_ranges, lines, slice_string, str_eq, to_chars, trim,
    trim_range,
};

verus! {

/// Installs the packages `names`, asking first unless `confirm` is off.
pub struct Install {
    pub names: Vec<String>,
    pub confirm: bool,
}

impl Install {
    /// The lines of the help text of `install`.
    pub fn help_text() -> (r: Vec<&'static str>)
        ensures
            r@.len() == 3,
            r@[0]@ == "install"@,
            r@[1]@ == ""@,
            r@[2]@ == "install software from different repositories"@,
    {
        let mut r: Vec<&'static str> = Vec::new();
        r.push("install");
        r.push("");
        r.push("install software from different repositories");
        r
    }
}

impl Default for Install {
    /// An install of the package `help`, asking for confirmation.
    fn default() -> (r: Install)
        ensures
            r.names@.len() == 1,
            r.names@[0]@ == "help"@,
            r.confirm,
    {
        let mut names: Vec<String> = Vec::new();
        names.push(String::from_str("help"));
        Install { names, confirm: true }
    }
}

impl Command for Install {
    /// Every argument list is read.
    open spec fn reads(&self, args: Seq<String>) -> bool {
        true
    }

    /// The arguments are package names; a last argument `-y` turns confirmation
    /// off and is not a name. No name at all is an error.
    fn set_from_args(&mut self, args: &Vec<String>) -> (r: Result<(), &'static str>)
        ensures
            args@.len() == 0 ==> r == Err::<(), &'static str>("Not enough arguments") && *final(self)
                == *old(self),
            args@.len() > 0 ==> {
                let confirm = if args@.last()@ == "-y"@ {
                    false
                } else {
                    old(self).confirm
                };
                &&& final(self).confirm == confirm
                &&& if args@.len() == 1 && !confirm {
                    &&& r == Err::<(), &'static str>("Not enough arguments")
                    &&& final(self).names == old(self).names
                } else {
                    &&& r == Ok::<(), &'static str>(())
                    &&& final(self).names@ == if confirm {
                        args@
                    } else {
                        args@.drop_last()
                    }
                }
            },
    {
        if args.len() == 0 {
            return Err("Not enough arguments");
        }
        if str_eq(args[args.len() - 1].as_str(), "-y") {
            self.confirm = false;
        }
        if args.len() == 1 && self.confirm == false {
            return Err("Not enough arguments");
        }
        if !self.confirm {
            self.names = clone_range(args, 0, args.len() - 1);
            assert(args@.subrange(0, args@.len() - 1) =~= args@.drop_last());
        } else {
            self.names = clone_range(args, 0, args.len());
            assert(args@.subrange(0, args@.len() as int) =~= args@);
        }
        Ok(())
    }
}


/// What a `PKGINFO.conf` file says about building its package: the
/// dependencies needed to build it, those needed to run it, and the key lines
/// (those outside a list), which installing echoes.
pub struct BuildInfo {
    pub make_dependencies: Vec<String>,
    pub dependencies: Vec<String>,
    pub key_lines: Vec<String>,
}

/// A `PKGINFO.conf` read up to some line: the key of the list being read,
/// and what has been collected.
pub ghost struct BuildState {
    pub key: Seq<char>,
    pub make: Seq<Seq<char>>,
    pub deps: Seq<Seq<char>>,
    pub key_lines: Seq<Seq<char>>,
}

/// The state after reading line `l`: blank lines and `]` are passed over; an
/// indented line (four spaces) is an item of the list under the current key,
/// kept trimmed when that key is `make_dependencies` or `dependencies`; any
/// other line reads `key: value` and makes `key` the current key.
pub open spec fn build_step(st: BuildState, l: Seq<char>) -> BuildState {
    if trim(l).len() == 0 || trim(l) == "]"@ {
        st
    } else if indented(l) {
        if st.key == "make_dependencies"@ {
            BuildState { make: st.make.push(trim(l)), ..st }
        } else if st.key == "dependencies"@ {
            BuildState { deps: st.deps.push(trim(l)), ..st }
        } else {
            st
        }
    } else {
        BuildState { key: l.take(index_of(l, ':')), key_lines: st.key_lines.push(l), ..st }
    }
}

/// Reading `l` takes only slices that exist: a line that is neither blank
/// nor `]` has its first four bytes end on a char, and unless indented it has a `:`.
pub open spec fn build_line_ok(l: Seq<char>) -> bool {
    trim(l).len() == 0 || trim(l) == "]"@ || (head4_ok(l) && (indented(l) || index_of(l, ':')
        >= 0))
}

/// The state after reading the lines `ls`.
pub open spec fn build_fold(ls: Seq<Seq<char>>) -> BuildState
    decreases ls.len(),
{
    if ls.len() == 0 {
        BuildState { key: seq![], make: seq![], deps: seq![], key_lines: seq![] }
    } else {
        build_step(build_fold(ls.drop_last()), ls.last())
    }
}

/// Line `l` of a `PKGINFO.conf` is a key line: not blank, not `]`, not indented.
pub open spec fn key_line(l: Seq<char>) -> bool {
    trim(l).len() != 0 && trim(l) != "]"@ && !indented(l)
}

/// The last key line before line `n`, or -1 when there is none.
pub open spec fn last_key_line(ls: Seq<Seq<char>>, n: int) -> int
    decreases n,
{
    if n <= 0 {
        -1
    } else if key_line(ls[n - 1]) {
        n - 1
    } else {
        last_key_line(ls, n - 1)
    }
}

/// Line `i` is an item of the list under `key`: an indented line, neither
/// blank nor `]`, below a key line whose key (the text before its first `:`)
/// is exactly `key`, with no other key line between them.
pub open spec fn item_under(ls: Seq<Seq<char>>, i: int, key: Seq<char>) -> bool {
    &&& 0 <= i < ls.len()
    &&& indented(ls[i])
    &&& trim(ls[i]).len() != 0
    &&& trim(ls[i]) != "]"@
    &&& last_key_line(ls, i) >= 0
    &&& ls[last_key_line(ls, i)].take(index_of(ls[last_key_line(ls, i)], ':')) == key
}

/// `last_key_line` points at a key line before `n`.
proof fn lemma_last_key_line(ls: Seq<Seq<char>>, n: int)
    requires
        0 <= n <= ls.len(),
    ensures
        -1 <= last_key_line(ls, n) < n,
        last_key_line(ls, n) >= 0 ==> key_line(ls[last_key_line(ls, n)]),
    decreases n,
{
    if n > 0 && !key_line(ls[n - 1]) {
        lemma_last_key_line(ls, n - 1);
    }
}

/// While reading a `PKGINFO.conf`, the current key is that of the last key
/// line, and the lists hold exactly the items read under their keys.
proof fn lemma_build_lists(ls: Seq<Seq<char>>, n: int)
    requires
        0 <= n <= ls.len(),
    ensures
        ({
            let st = build_fold(ls.take(n));
            let h = last_key_line(ls, n);
            &&& st.key == if h >= 0 {
                ls[h].take(index_of(ls[h], ':'))
            } else {
                Seq::<char>::empty()
            }
            &&& forall|x: Seq<char>|
                st.make.contains(x) <==> exists|i: int|
                    0 <= i < n && item_under(ls, i, "make_dependencies"@) && #[trigger] trim(ls[i]) == x
            &&& forall|x: Seq<char>|
                st.deps.contains(x) <==> exists|i: int|
                    0 <= i < n && item_under(ls, i, "dependencies"@) && #[trigger] trim(ls[i]) == x
        }),
    decreases n,
{
    reveal_strlit("make_dependencies");
    reveal_strlit("dependencies");
    if n == 0 {
        assert(ls.take(0) =~= seq![]);
    } else {
        let m = n - 1;
        lemma_build_lists(ls, m);
        lemma_last_key_line(ls, m);
        let st = build_fold(ls.take(m));
        let l = ls[m];
        assert(ls.take(n).drop_last() =~= ls.take(m));
        assert(ls.take(n).last() == l);
        let next = build_fold(ls.take(n));
        assert(next == build_step(st, l));
        let km = "make_dependencies"@;
        let kd = "dependencies"@;
        assert(km != kd) by {
            assert(km.len() != kd.len());
        }
        let h = last_key_line(ls, m);
        let blank_or_close = trim(l).len() == 0 || trim(l) == "]"@;
        if blank_or_close || !indented(l) {
            assert(!item_under(ls, m, km) && !item_under(ls, m, kd));
        }
        if blank_or_close {
            assert(next == st);
        } else if indented(l) {
            assert(last_key_line(ls, n) == h);
            if h >= 0 {
                assert(item_under(ls, m, km) <==> st.key == km);
                assert(item_under(ls, m, kd) <==> st.key == kd);
            } else {
                assert(st.key.len() == 0);
                assert(!item_under(ls, m, km) && !item_under(ls, m, kd));
            }
            if st.key == km {
                assert(next.make == st.make.push(trim(l)));
                assert(next.deps == st.deps);
            } else if st.key == kd {
                assert(next.deps == st.deps.push(trim(l)));
                assert(next.make == st.make);
            } else {
                assert(next.make == st.make && next.deps == st.deps);
            }
        } else {
            assert(next.make == st.make && next.deps == st.deps);
        }
        assert forall|x: Seq<char>|
            next.make.contains(x) <==> exists|i: int|
                0 <= i < n && item_under(ls, i, km) && #[trigger] trim(ls[i]) == x by {
            if next.make.contains(x) {
                let j = choose|j: int| 0 <= j < next.make.len() && next.make[j] == x;
                if j < st.make.len() {
                    assert(st.make[j] == x);
                    assert(st.make.contains(x));
                } else {
                    assert(item_under(ls, m, km) && trim(ls[m]) == x);
                }
            }
            if exists|i: int| 0 <= i < n && item_under(ls, i, km) && #[trigger] trim(ls[i]) == x {
                let i = choose|i: int| 0 <= i < n && item_under(ls, i, km) && #[trigger] trim(ls[i]) == x;
                if i < m {
                    assert(st.make.contains(x));
                    let j = choose|j: int| 0 <= j < st.make.len() && st.make[j] == x;
                    assert(next.make[j] == x);
                } else {
                    assert(next.make.last() == x);
                    assert(next.make[next.make.len() - 1] == x);
                }
            }
        }
        assert forall|x: Seq<char>|
            next.deps.contains(x) <==> exists|i: int|
                0 <= i < n && item_under(ls, i, kd) && #[trigger] trim(ls[i]) == x by {
            if next.deps.contains(x) {
                let j = choose|j: int| 0 <= j < next.deps.len() && next.deps[j] == x;
                if j < st.deps.len() {
                    assert(st.deps[j] == x);
                    assert(st.deps.contains(x));
                } else {
                    assert(item_under(ls, m, kd) && trim(ls[m]) == x);
                }
            }
            if exists|i: int| 0 <= i < n && item_under(ls, i, kd) && #[trigger] trim(ls[i]) == x {
                let i = choose|i: int| 0 <= i < n && item_under(ls, i, kd) && #[trigger] trim(ls[i]) == x;
                if i < m {
                    assert(st.deps.contains(x));
                    let j = choose|j: int| 0 <= j < st.deps.len() && st.deps[j] == x;
                    assert(next.deps[j] == x);
                } else {
                    assert(next.deps[next.deps.len() - 1] == x);
                }
            }
        }
    }
}

/// Installing reads the build dependencies and the run dependencies each
/// from its own list: a name is among the build dependencies exactly when
/// it is an item under a key line whose key is exactly `make_dependencies`,
/// and among the run dependencies exactly when it is an item under one whose
/// key is exactly `dependencies`; a key that only contains the other never
/// counts.
pub proof fn law_build_lists_by_exact_key(ls: Seq<Seq<char>>, x: Seq<char>)
    ensures
        build_fold(ls).make.contains(x) <==> exists|i: int|
            item_under(ls, i, "make_dependencies"@) && #[trigger] trim(ls[i]) == x,
        build_fold(ls).deps.contains(x) <==> exists|i: int|
            item_under(ls, i, "dependencies"@) && #[trigger] trim(ls[i]) == x,
{
    lemma_build_lists(ls, ls.len() as int);
    assert(ls.take(ls.len() as int) =~= ls);
}

/// Whether every line of the `PKGINFO.conf` file `pkginfo` can be read.
pub fn build_lines_ok(pkginfo: &str) -> (b: bool)
    ensures
        b == forall|i: int| 0 <= i < lines(pkginfo@).len() ==> build_line_ok(#[trigger] lines(pkginfo@)[i]),
{
    let s = to_chars(pkginfo);
    let ranges = line_ranges(&s);
    let ghost ls = lines(s@);
    let close = to_chars("]");
    let mut i: usize = 0;
    while i < ranges.len()
        invariant
            s@ == pkginfo@,
            ls == lines(s@),
            close@ == "]"@,
            crate::text::ranges_are_lines(s@, ranges@),
            i <= ranges@.len(),
            forall|j: int| 0 <= j < i ==> build_line_ok(#[trigger] ls[j]),
        decreases ranges@.len() - i,
    {
        let (lo, hi) = ranges[i];
        let ghost l = s@.subrange(lo as int, hi as int);
        assert(ls[i as int] == l);
        let (tlo, thi) = trim_range(&s, lo, hi);
        let ok = tlo == thi || eq_range(&s, tlo, thi, &close) || (crate::text::head4_range(&s, lo, hi)
            && (is_indented(&s, lo, hi) || find_char(&s, lo, hi, ':').is_some()));
        if !ok {
            assert(!build_line_ok(ls[i as int]));
            return false;
        }
        i = i + 1;
    }
    true
}

/// Reads the dependency lists of a `PKGINFO.conf` file.
pub fn parse_build_info(pkginfo: &str) -> (r: BuildInfo)
    requires
        forall|i: int| 0 <= i < lines(pkginfo@).len() ==> build_line_ok(#[trigger] lines(pkginfo@)[i]),
    ensures
        ({
            let st = build_fold(lines(pkginfo@));
            &&& texts(r.make_dependencies@) == st.make
            &&& texts(r.dependencies@) == st.deps
            &&& texts(r.key_lines@) == st.key_lines
        }),
{
    let s = to_chars(pkginfo);
    let ranges = line_ranges(&s);
    let ghost ls = lines(s@);
    let close = to_chars("]");
    let k_make = to_chars("make_dependencies");
    let k_deps = to_chars("dependencies");
    let mut key: (usize, usize) = (0, 0);
    let mut make: Vec<String> = Vec::new();
    let mut deps: Vec<String> = Vec::new();
    let mut key_lines: Vec<String> = Vec::new();
    let mut i: usize = 0;
    assert(ls.take(0) =~= seq![]);
    assert(texts(make@) =~= seq![]);
    assert(texts(deps@) =~= seq![]);
    assert(texts(key_lines@) =~= seq![]);
    assert(s@.subrange(0, 0) =~= seq![]);
    while i < ranges.len()
        invariant
            s@ == pkginfo@,
            ls == lines(s@),
            crate::text::ranges_are_lines(s@, ranges@),
            forall|j: int| 0 <= j < ls.len() ==> build_line_ok(#[trigger] ls[j]),
            close@ == "]"@,
            k_make@ == "make_dependencies"@,
            k_deps@ == "dependencies"@,
            i <= ranges@.len(),
            key.0 <= key.1 <= s@.len(),
            build_fold(ls.take(i as int)) == (BuildState {
                key: s@.subrange(key.0 as int, key.1 as int),
                make: texts(make@),
                deps: texts(deps@),
                key_lines: texts(key_lines@),
            }),
        decreases ranges@.len() - i,
    {
        let (lo, hi) = ranges[i];
        let ghost l = s@.subrange(lo as int, hi as int);
        proof {
            assert(ls.take(i + 1).drop_last() =~= ls.take(i as int));
            assert(ls.take(i + 1).last() == l);
            assert(build_line_ok(ls[i as int]));
        }
        let (tlo, thi) = trim_range(&s, lo, hi);
        if tlo == thi || eq_range(&s, tlo, thi, &close) {
        } else if is_indented(&s, lo, hi) {
            if eq_range(&s, key.0, key.1, &k_make) {
                let ghost old = make@;
                make.push(slice_string(pkginfo, tlo, thi));
                assert(texts(make@) =~= texts(old).push(trim(l)));
            } else if eq_range(&s, key.0, key.1, &k_deps) {
                let ghost old = deps@;
                deps.push(slice_string(pkginfo, tlo, thi));
                assert(texts(deps@) =~= texts(old).push(trim(l)));
            }
        } else {
            let sep = match find_char(&s, lo, hi, ':') {
                Some(k) => k,
                None => {
                    assert(false);
                    0
                },
            };
            assert(l.take(sep - lo) =~= s@.subrange(lo as int, sep as int));
            key = (lo, sep);
            let ghost old = key_lines@;
            key_lines.push(slice_string(pkginfo, lo, hi));
            assert(texts(key_lines@) =~= texts(old).push(l));
        }
        i = i + 1;
    }
    assert(ls.take(ranges@.len() as int) =~= ls);
    BuildInfo { make_dependencies: make, dependencies: deps, key_lines }
}

/// One thing installing a package does: run a command in the container
/// (waiting on it with the terminal attached when `spawn` is set), or enter
/// a directory.
pub enum InstallStep {
    InContainer { command: String, spawn: bool },
    EnterDir { path: String },
}

/// `step` runs `command` in the container.
pub open spec fn runs(step: InstallStep, command: Seq<char>, spawn: bool) -> bool {
    step matches InstallStep::InContainer { command: c, spawn: s } && c@ == command && s == spawn
}

/// What installing the unpacked package `name` runs, with the dupt root
/// `root`: install the build dependencies, run the pre-install script, build,
/// remove the build dependencies, install the run dependencies, run the
/// pre-install script again, and record the package as installed.
pub fn install_steps(name: &str, root: &str, info: &BuildInfo) -> (r: Vec<InstallStep>)
    ensures
        ({
            let make = join(texts(info.make_dependencies@), " "@);
            let deps = concat_each(texts(info.dependencies@), " "@);
            &&& r@.len() == 8
            &&& runs(r@[0], "sudo dnf install "@ + make + " -y"@, true)
            &&& r@[1] matches InstallStep::EnterDir { path } && path@ == root@ + "/.dupt/archives/"@
                + name@ + "/control"@
            &&& runs(r@[2], "sh preinst.sh "@ + root@, true)
            &&& runs(r@[3], "sh build.sh "@ + root@, true)
            &&& runs(r@[4], "sudo dnf remove "@ + make + " -y"@, true)
            &&& runs(r@[5], "sudo dnf install "@ + deps + " -y"@, true)
            &&& runs(r@[6], "sh preinst.sh "@ + root@, true)
            &&& runs(
                r@[7],
                "cp "@ + root@ + "/.dupt/archives/"@ + name@ + "/PKGINFO.conf "@ + root@
                    + "/.dupt/installed/"@ + name@,
                false,
            )
        }),
{
    let make = join_strings(&info.make_dependencies, " ");
    let deps = concat_strings(&info.dependencies, " ");
    let mut r: Vec<InstallStep> = Vec::new();

    let mut c = String::from_str("sudo dnf install ");
    c.append(make.as_str());
    c.append(" -y");
    r.push(InstallStep::InContainer { command: c, spawn: true });

    let mut p = String::from_str(root);
    p.append("/.dupt/archives/");
    p.append(name);
    p.append("/control");
    r.push(InstallStep::EnterDir { path: p });

    let mut c = String::from_str("sh preinst.sh ");
    c.append(root);
    r.push(InstallStep::InContainer { command: c, spawn: true });

    let mut c = String::from_str("sh build.sh ");
    c.append(root);
    r.push(InstallStep::InContainer { command: c, spawn: true });

    let mut c = String::from_str("sudo dnf remove ");
    c.append(make.as_str());
    c.append(" -y");
    r.push(InstallStep::InContainer { command: c, spawn: true });

    let mut c = String::from_str("sudo dnf install ");
    c.append(deps.as_str());
    c.append(" -y");
    r.push(InstallStep::InContainer { command: c, spawn: true });

    let mut c = String::from_str("sh preinst.sh ");
    c.append(root);
    r.push(InstallStep::InContainer { command: c, spawn: true });

    let mut c = String::from_str("cp ");
    c.append(root);
    c.append("/.dupt/archives/");
    c.append(name);
    c.append("/PKGINFO.conf ");
    c.append(root);
    c.append("/.dupt/installed/");
    c.append(name);
    r.push(InstallStep::InContainer { command: c, spawn: false });
    r
}

/// How a run of `install` ends without an error.
pub enum InstallEnd {
    /// One of the packages is installed already; nothing was done.
    AlreadyInstalled,
    /// The answer to the confirmation was no.
    Aborted,
    /// Every package was built and recorded, and the archives cleared.
    Finished,
}

/// The next thing a run of `install` over `n` packages does; the caller does
/// it and reports back how it went.
pub enum InstallAction {
    /// Make sure the container and the dupt root are ready.
    Prepare,
    /// Find out whether package `i` is installed already.
    CheckInstalled(usize),
    /// Say that the packages are being searched for.
    AnnounceSearch,
    /// Search the repositories for package `i`.
    Search(usize),
    /// Say that the packages were found.
    AnnounceFound,
    /// Show the packages and ask whether to go on.
    Confirm,
    /// Download, build and record package `i`.
    Build(usize),
    /// Say that the archives are being cleared.
    AnnounceCleaning,
    /// Clear the archives of package `i`.
    Clean(usize),
    /// The run is over.
    Stop(InstallEnd),
    /// The run failed with this error.
    Fail(String),
}

/// The first action of a run of `install`.
pub open spec fn install_first() -> InstallAction {
    InstallAction::Prepare
}

/// Package `i` is done: package `i + 1` next, or `then` after the last one.
pub open spec fn next_or(i: int, n: nat, each: spec_fn(usize) -> InstallAction, then: InstallAction) -> InstallAction {
    if i + 1 < n {
        each((i + 1) as usize)
    } else {
        then
    }
}

/// The building of all `n` packages: the first build, or the cleaning when there is nothing to build.
pub open spec fn build_all(n: nat) -> InstallAction {
    if n > 0 {
        InstallAction::Build(0)
    } else {
        InstallAction::AnnounceCleaning
    }
}

/// What a run of `install` over `n` packages (asking for confirmation when
/// `confirm` is set) does after `last`, given how `last` went: `Ok` with the
/// answer of a check or a question (`true` for the others), or the error it
/// ended with. A package found installed stops the run; a failed check counts
/// as not installed; any other error fails the run; a "no" aborts it.
pub open spec fn install_next(n: nat, confirm: bool, last: InstallAction, outcome: Result<bool, String>) -> InstallAction {
    match last {
        InstallAction::Prepare => match outcome {
            Err(e) => InstallAction::Fail(e),
            Ok(_) => if n > 0 {
                InstallAction::CheckInstalled(0)
            } else {
                InstallAction::AnnounceSearch
            },
        },
        InstallAction::CheckInstalled(i) => if outcome == Ok::<bool, String>(true) {
            InstallAction::Stop(InstallEnd::AlreadyInstalled)
        } else {
            next_or(i as int, n, |j: usize| InstallAction::CheckInstalled(j), InstallAction::AnnounceSearch)
        },
        InstallAction::AnnounceSearch => if n > 0 {
            InstallAction::Search(0)
        } else {
            InstallAction::AnnounceFound
        },
        InstallAction::Search(i) => match outcome {
            Err(e) => InstallAction::Fail(e),
            Ok(_) => next_or(i as int, n, |j: usize| InstallAction::Search(j), InstallAction::AnnounceFound),
        },
        InstallAction::AnnounceFound => if confirm {
            InstallAction::Confirm
        } else {
            build_all(n)
        },
        InstallAction::Confirm => match outcome {
            Err(e) => InstallAction::Fail(e),
            Ok(false) => InstallAction::Stop(InstallEnd::Aborted),
            Ok(true) => build_all(n),
        },
        InstallAction::Build(i) => match outcome {
            Err(e) => InstallAction::Fail(e),
            Ok(_) => next_or(i as int, n, |j: usize| InstallAction::Build(j), InstallAction::AnnounceCleaning),
        },
        InstallAction::AnnounceCleaning => if n > 0 {
            InstallAction::Clean(0)
        } else {
            InstallAction::Stop(InstallEnd::Finished)
        },
        InstallAction::Clean(i) => match outcome {
            Err(e) => InstallAction::Fail(e),
            Ok(_) => next_or(i as int, n, |j: usize| InstallAction::Clean(j), InstallAction::Stop(InstallEnd::Finished)),
        },
        InstallAction::Stop(end) => InstallAction::Stop(end),
        InstallAction::Fail(e) => InstallAction::Fail(e),
    }
}

/// The action is about a package index below `n`, when it names one.
pub open spec fn action_in_range(a: InstallAction, n: nat) -> bool {
    match a {
        InstallAction::CheckInstalled(i) => i < n,
        InstallAction::Search(i) => i < n,
        InstallAction::Build(i) => i < n,
        InstallAction::Clean(i) => i < n,
        _ => true,
    }
}

impl Install {
    /// The first thing a run of this command does.
    pub fn first_action(&self) -> (r: InstallAction)
        ensures
            r == install_first(),
    {
        InstallAction::Prepare
    }

    /// What this command does after `last` went as `outcome`.
    pub fn next_action(&self, last: InstallAction, outcome: Result<bool, String>) -> (r: InstallAction)
        requires
            action_in_range(last, self.names@.len()),
        ensures
            r == install_next(self.names@.len(), self.confirm, last, outcome),
            action_in_range(r, self.names@.len()),
    {
        let n = self.names.len();
        match last {
            InstallAction::Prepare => match outcome {
                Err(e) => InstallAction::Fail(e),
                Ok(_) => if n > 0 {
                    InstallAction::CheckInstalled(0)
                } else {
                    InstallAction::AnnounceSearch
                },
            },
            InstallAction::CheckInstalled(i) => match outcome {
                Ok(true) => InstallAction::Stop(InstallEnd::AlreadyInstalled),
                _ => if i + 1 < n {
                    InstallAction::CheckInstalled(i + 1)
                } else {
                    InstallAction::AnnounceSearch
                },
            },
            InstallAction::AnnounceSearch => if n > 0 {
                InstallAction::Search(0)
            } else {
                InstallAction::AnnounceFound
            },
            InstallAction::Search(i) => match outcome {
                Err(e) => InstallAction::Fail(e),
                Ok(_) => if i + 1 < n {
                    InstallAction::Search(i + 1)
                } else {
                    InstallAction::AnnounceFound
                },
            },
            InstallAction::AnnounceFound => if self.confirm {
                InstallAction::Confirm
            } else if n > 0 {
                InstallAction::Build(0)
            } else {
                InstallAction::AnnounceCleaning
            },
            InstallAction::Confirm => match outcome {
                Err(e) => InstallAction::Fail(e),
                Ok(false) => InstallAction::Stop(InstallEnd::Aborted),
                Ok(true) => if n > 0 {
                    InstallAction::Build(0)
                } else {
                    InstallAction::AnnounceCleaning
                },
            },
            InstallAction::Build(i) => match outcome {
                Err(e) => InstallAction::Fail(e),
                Ok(_) => if i + 1 < n {
                    InstallAction::Build(i + 1)
                } else {
                    InstallAction::AnnounceCleaning
                },
            },
            InstallAction::AnnounceCleaning => if n > 0 {
                InstallAction::Clean(0)
            } else {
                InstallAction::Stop(InstallEnd::Finished)
            },
            InstallAction::Clean(i) => match outcome {
                Err(e) => InstallAction::Fail(e),
                Ok(_) => if i + 1 < n {
                    InstallAction::Clean(i + 1)
                } else {
                    InstallAction::Stop(InstallEnd::Finished)
                },
            },
            InstallAction::Stop(end) => InstallAction::Stop(end),
            InstallAction::Fail(e) => InstallAction::Fail(e),
        }
    }
}

/// The actions `t` are those of a run of `install` over `n` packages in
/// which action `t[k]` went as `o[k]`.
pub open spec fn is_install_run(
    n: nat,
    confirm: bool,
    t: Seq<InstallAction>,
    o: Seq<Result<bool, String>>,
) -> bool {
    &&& t.len() == o.len() + 1
    &&& t[0] == install_first()
    &&& forall|k: int| 0 <= k < o.len() ==> t[k + 1] == install_next(n, confirm, t[k], #[trigger] o[k])
}

/// Action `a` went well at some step of the run before step `p`.
pub open spec fn went_well_before(
    t: Seq<InstallAction>,
    o: Seq<Result<bool, String>>,
    a: InstallAction,
    p: int,
) -> bool {
    exists|q: int| 0 <= q < p && #[trigger] t[q] == a && o[q] matches Ok(_)
}

/// The answer yes was given at some step of the run before step `p`.
pub open spec fn confirmed_before(t: Seq<InstallAction>, o: Seq<Result<bool, String>>, p: int) -> bool {
    exists|q: int|
        0 <= q < p && #[trigger] t[q] == InstallAction::Confirm && o[q] == Ok::<bool, String>(true)
}

/// `a` comes once all packages have been found.
pub open spec fn after_found(a: InstallAction) -> bool {
    match a {
        InstallAction::AnnounceFound => true,
        InstallAction::Confirm => true,
        InstallAction::Build(_) => true,
        InstallAction::AnnounceCleaning => true,
        InstallAction::Clean(_) => true,
        InstallAction::Stop(InstallEnd::Finished) => true,
        _ => false,
    }
}

/// `a` comes once the packages are being built.
pub open spec fn after_confirm(a: InstallAction) -> bool {
    match a {
        InstallAction::Build(_) => true,
        InstallAction::AnnounceCleaning => true,
        InstallAction::Clean(_) => true,
        InstallAction::Stop(InstallEnd::Finished) => true,
        _ => false,
    }
}

/// `a` comes once all packages have been built.
pub open spec fn after_built(a: InstallAction) -> bool {
    match a {
        InstallAction::AnnounceCleaning => true,
        InstallAction::Clean(_) => true,
        InstallAction::Stop(InstallEnd::Finished) => true,
        _ => false,
    }
}

/// What holds at step `k` of a run: a search, build or clean of package `i`
/// comes after those of the packages before it went well; everything after
/// the searches comes after all of them went well, everything after the
/// builds after all builds went well, and the end after all cleans went well;
/// and, with confirmation on, building comes after the answer yes.
pub open spec fn install_run_inv(
    n: nat,
    confirm: bool,
    t: Seq<InstallAction>,
    o: Seq<Result<bool, String>>,
    k: int,
) -> bool {
    &&& t[k] matches InstallAction::Search(i) ==> forall|j: usize|
        j < i ==> #[trigger] went_well_before(t, o, InstallAction::Search(j), k)
    &&& after_found(t[k]) ==> forall|j: usize|
        j < n ==> #[trigger] went_well_before(t, o, InstallAction::Search(j), k)
    &&& confirm && after_confirm(t[k]) ==> confirmed_before(t, o, k)
    &&& t[k] matches InstallAction::Build(i) ==> forall|j: usize|
        j < i ==> #[trigger] went_well_before(t, o, InstallAction::Build(j), k)
    &&& after_built(t[k]) ==> forall|j: usize|
        j < n ==> #[trigger] went_well_before(t, o, InstallAction::Build(j), k)
    &&& t[k] matches InstallAction::Clean(i) ==> forall|j: usize|
        j < i ==> #[trigger] went_well_before(t, o, InstallAction::Clean(j), k)
    &&& t[k] == InstallAction::Stop(InstallEnd::Finished) ==> forall|j: usize|
        j < n ==> #[trigger] went_well_before(t, o, InstallAction::Clean(j), k)
}

/// The invariant holds at every step of a run.
proof fn lemma_install_run_inv(
    n: nat,
    confirm: bool,
    t: Seq<InstallAction>,
    o: Seq<Result<bool, String>>,
    k: int,
)
    requires
        n <= usize::MAX,
        is_install_run(n, confirm, t, o),
        0 <= k < t.len(),
    ensures
        install_run_inv(n, confirm, t, o, k),
    decreases k,
{
    if k > 0 {
        let p = k - 1;
        lemma_install_run_inv(n, confirm, t, o, p);
        let last = t[p];
        let out = o[p];
        assert(t[k] == install_next(n, confirm, last, out));
        assert forall|a: InstallAction| went_well_before(t, o, a, p) implies went_well_before(
            t,
            o,
            a,
            k,
        ) by {
            let q = choose|q: int| 0 <= q < p && #[trigger] t[q] == a && o[q] matches Ok(_);
            assert(0 <= q < k && t[q] == a);
        }
        if confirmed_before(t, o, p) {
            let q = choose|q: int|
                0 <= q < p && #[trigger] t[q] == InstallAction::Confirm && o[q] == Ok::<bool, String>(true);
            assert(0 <= q < k && t[q] == InstallAction::Confirm);
        }
        match last {
            InstallAction::Search(i) => {
                if out matches Ok(_) {
                    assert(went_well_before(t, o, InstallAction::Search(i), k)) by {
                        assert(t[p] == InstallAction::Search(i));
                    }
                    assert forall|j: usize| j <= i implies #[trigger] went_well_before(
                        t,
                        o,
                        InstallAction::Search(j),
                        k,
                    ) by {
                        if j < i {
                            assert(went_well_before(t, o, InstallAction::Search(j), p));
                        }
                    }
                }
            },
            InstallAction::Confirm => {
                if out == Ok::<bool, String>(true) {
                    assert(t[p] == InstallAction::Confirm);
                    assert(confirmed_before(t, o, k));
                }
            },
            InstallAction::Build(i) => {
                if out matches Ok(_) {
                    assert forall|j: usize| j <= i implies #[trigger] went_well_before(
                        t,
                        o,
                        InstallAction::Build(j),
                        k,
                    ) by {
                        if j < i {
                            assert(went_well_before(t, o, InstallAction::Build(j), p));
                        } else {
                            assert(t[p] == InstallAction::Build(j));
                        }
                    }
                }
            },
            InstallAction::Clean(i) => {
                if out matches Ok(_) {
                    assert forall|j: usize| j <= i implies #[trigger] went_well_before(
                        t,
                        o,
                        InstallAction::Clean(j),
                        k,
                    ) by {
                        if j < i {
                            assert(went_well_before(t, o, InstallAction::Clean(j), p));
                        } else {
                            assert(t[p] == InstallAction::Clean(j));
                        }
                    }
                }
            },
            _ => {},
        }
    }
}

/// A run of `install` that finishes has built and cleaned every package.
pub proof fn law_install_finishes_everything(
    n: nat,
    confirm: bool,
    t: Seq<InstallAction>,
    o: Seq<Result<bool, String>>,
    p: int,
)
    requires
        n <= usize::MAX,
        is_install_run(n, confirm, t, o),
        0 <= p < t.len(),
        t[p] == InstallAction::Stop(InstallEnd::Finished),
    ensures
        forall|j: usize| j < n ==> #[trigger] went_well_before(t, o, InstallAction::Build(j), p),
        forall|j: usize| j < n ==> #[trigger] went_well_before(t, o, InstallAction::Clean(j), p),
{
    lemma_install_run_inv(n, confirm, t, o, p);
}

/// `install` builds a package only once every package has been searched for
/// and found.
pub proof fn law_install_builds_only_found(
    n: nat,
    confirm: bool,
    t: Seq<InstallAction>,
    o: Seq<Result<bool, String>>,
    p: int,
)
    requires
        n <= usize::MAX,
        is_install_run(n, confirm, t, o),
        0 <= p < t.len(),
        t[p] matches InstallAction::Build(_),
    ensures
        forall|j: usize| j < n ==> #[trigger] went_well_before(t, o, InstallAction::Search(j), p),
{
    lemma_install_run_inv(n, confirm, t, o, p);
}

/// With confirmation on, `install` builds a package only after the answer yes.
pub proof fn law_install_builds_only_confirmed(
    n: nat,
    t: Seq<InstallAction>,
    o: Seq<Result<bool, String>>,
    p: int,
)
    requires
        n <= usize::MAX,
        is_install_run(n, true, t, o),
        0 <= p < t.len(),
        t[p] matches InstallAction::Build(_),
    ensures
        confirmed_before(t, o, p),
{
    lemma_install_run_inv(n, true, t, o, p);
}

/// How far a run of `install` over `n` packages is from its end.
pub open spec fn install_rank(n: nat, a: InstallAction) -> int {
    match a {
        InstallAction::Prepare => 4 * n + 5int,
        InstallAction::CheckInstalled(i) => 4 * n + 4 - i,
        InstallAction::AnnounceSearch => 3 * n + 4int,
        InstallAction::Search(i) => 3 * n + 3 - i,
        InstallAction::AnnounceFound => 2 * n + 3int,
        InstallAction::Confirm => 2 * n + 2int,
        InstallAction::Build(i) => 2 * n + 1 - i,
        InstallAction::AnnounceCleaning => n + 1int,
        InstallAction::Clean(i) => n - i,
        InstallAction::Stop(_) => 0int,
        InstallAction::Fail(_) => 0int,
    }
}

/// Every run of `install` ends: each step that is not the end brings it
/// closer to the end, and it starts at most `4 n + 5` steps away from it.
pub proof fn law_install_ends(n: nat, confirm: bool, last: InstallAction, outcome: Result<bool, String>)
    requires
        n <= usize::MAX,
        action_in_range(last, n),
        !(last matches InstallAction::Stop(_)),
        !(last matches InstallAction::Fail(_)),
    ensures
        0 <= install_rank(n, install_next(n, confirm, last, outcome)) < install_rank(n, last),
        install_rank(n, install_first()) <= 4 * n + 5,
{
}

} // verus!

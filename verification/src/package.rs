//! A package of the first package format: what its config file declares, and
//! the text handling around installing, removing and running it.
use vstd::prelude::*;
use crate::text::{
    concat_each, contains, contains_in, eq_range, last_index_of, line_ranges, lines, rfind_char,
    slice_string, strip_cr, to_chars, trim_end, trim_end_range, word_ranges, words,
};

verus! {

/// A package as its config file describes it.
pub struct Package {
    pub name: String,
    pub zip: String,
    pub description: String,
    pub install: Vec<String>,
    pub runnable: bool,
    pub run: Vec<String>,
}

/// The texts of a vector of strings.
pub open spec fn texts(v: Seq<String>) -> Seq<Seq<char>> {
    v.map_values(|x: String| x@)
}


/// The line of the installed list that records a package: `name: zip`.
pub open spec fn entry_text(name: Seq<char>, zip: Seq<char>) -> Seq<char> {
    name + ": "@ + zip
}

/// A line that does not record `entry`: trimmed at the end, it differs from it.
pub open spec fn keeps(entry: Seq<char>) -> spec_fn(Seq<char>) -> bool {
    |l: Seq<char>| trim_end(l) != entry
}

/// The installed list `list` once the lines recording `entry` are dropped:
/// the other lines, each ended by `\n`.
pub open spec fn without_entry(list: Seq<char>, entry: Seq<char>) -> Seq<char> {
    concat_each(lines(list).filter(keeps(entry)), seq!['\n'])
}

/// The installed list `list` once `entry` is appended to it as a line.
pub open spec fn with_entry(list: Seq<char>, entry: Seq<char>) -> Seq<char> {
    list + entry + seq!['\n']
}

impl Package {
    /// The line that records this package in the installed list.
    pub fn installed_entry(&self) -> (r: String)
        ensures
            r@ == entry_text(self.name@, self.zip@),
    {
        let mut r = String::from_str(self.name.as_str());
        r.append(": ");
        r.append(self.zip.as_str());
        r
    }

    /// The installed list `install_list` with this package removed: every line
    /// that, trimmed at the end, is this package's entry is dropped, and each
    /// other line is kept, ended by `\n`.
    pub fn remaining_installed(&self, install_list: &str) -> (r: String)
        ensures
            r@ == without_entry(install_list@, entry_text(self.name@, self.zip@)),
    {
        let entry_s = self.installed_entry();
        let entry = to_chars(entry_s.as_str());
        let s = to_chars(install_list);
        let ranges = line_ranges(&s);
        let ghost ls = lines(s@);
        let ghost pred = keeps(entry@);
        let mut r = String::new();
        let mut i: usize = 0;
        assert(ls.take(0) =~= seq![]);
        proof {
            reveal_with_fuel(Seq::<_>::filter, 1);
        }
        while i < ranges.len()
            invariant
                s@ == install_list@,
                ls == lines(s@),
                pred == keeps(entry@),
                crate::text::ranges_are_lines(s@, ranges@),
                i <= ranges@.len(),
                r@ == concat_each(ls.take(i as int).filter(pred), seq!['\n']),
            decreases ranges@.len() - i,
        {
            let (lo, hi) = ranges[i];
            let ghost l = s@.subrange(lo as int, hi as int);
            assert(ls.take(i + 1).drop_last() =~= ls.take(i as int));
            assert(ls.take(i + 1).last() == l);
            proof {
                reveal_with_fuel(Seq::<_>::filter, 1);
            }
            let e = trim_end_range(&s, lo, hi);
            if !eq_range(&s, lo, e, &entry) {
                let ghost before = r@;
                r.append(install_list.substring_char(lo, hi));
                r.append("\n");
                proof {
                    reveal_strlit("\n");
                    let f = ls.take(i + 1).filter(pred);
                    assert(f == ls.take(i as int).filter(pred).push(l));
                    assert(f.drop_last() =~= ls.take(i as int).filter(pred));
                    assert(r@ =~= concat_each(f, seq!['\n']));
                }
            }
            i = i + 1;
        }
        assert(ls.take(ranges@.len() as int) =~= ls);
        r
    }
}

/// Installing and then removing a package gives the installed list back:
/// for a list that is empty or ends a line, holds no `\r`, and has no line
/// that, trimmed at the end, is the entry, appending the entry (which holds no
/// line break and which trimming its end leaves as it is) and then removing it
/// leaves the list exactly as it was.
pub proof fn law_install_then_remove_restores(list: Seq<char>, entry: Seq<char>)
    requires
        list.len() == 0 || list.last() == '\n',
        forall|j: int| 0 <= j < list.len() ==> list[j] != '\r',
        forall|i: int| 0 <= i < lines(list).len() ==> trim_end(#[trigger] lines(list)[i]) != entry,
        forall|j: int| 0 <= j < entry.len() ==> entry[j] != '\n',
        trim_end(entry) == entry,
    ensures
        without_entry(with_entry(list, entry), entry) == list,
{
    law_remove_undoes_install(list, entry);
    let ls = lines(list);
    assert forall|i: int| 0 <= i < ls.len() implies #[trigger] keeps(entry)(ls[i]) by {
        assert(trim_end(ls[i]) != entry);
    }
    crate::text::lemma_filter_all(ls, keeps(entry));
    crate::text::lemma_concat_each_lines(list);
}

/// Removing a package undoes installing it: appending the entry of a package
/// to an installed list that is empty or ends a line, then removing the
/// package, leaves what removing it from the list alone leaves. This holds
/// for every entry with no line break that trimming at the end leaves as it is.
pub proof fn law_remove_undoes_install(list: Seq<char>, entry: Seq<char>)
    requires
        list.len() == 0 || list.last() == '\n',
        forall|j: int| 0 <= j < entry.len() ==> entry[j] != '\n',
        trim_end(entry) == entry,
    ensures
        without_entry(with_entry(list, entry), entry) == without_entry(list, entry),
{
    assert(with_entry(list, entry) =~= list + (entry + seq!['\n']));
    crate::text::lemma_lines_concat(list, entry + seq!['\n']);
    crate::text::lemma_lines_single(entry);
    assert(strip_cr(entry) == entry) by {
        if entry.len() > 0 && entry.last() == '\r' {
            assert(crate::text::is_ws(entry.last()));
            crate::text::lemma_trim_end_len(entry.drop_last());
        }
    }
    let all = lines(list) + seq![entry];
    assert(all.drop_last() =~= lines(list));
    reveal_with_fuel(Seq::<_>::filter, 1);
    assert(all.filter(keeps(entry)) == lines(list).filter(keeps(entry)));
}

/// After removing a package, no line of the installed list records it.
pub proof fn law_removed_entry_absent(list: Seq<char>, entry: Seq<char>)
    ensures
        forall|i: int|
            0 <= i < lines(without_entry(list, entry)).len() ==> trim_end(
                #[trigger] lines(without_entry(list, entry))[i],
            ) != entry,
{
    let ks = lines(list).filter(keeps(entry));
    crate::text::lemma_lines_no_newline(list);
    crate::text::lemma_filter_no_newline(lines(list), keeps(entry));
    broadcast use vstd::seq_lib::group_filter_ensures;
    crate::text::lemma_lines_concat_each(ks);
    assert forall|i: int|
        0 <= i < lines(without_entry(list, entry)).len() implies trim_end(
            #[trigger] lines(without_entry(list, entry))[i],
        ) != entry by {
        crate::text::lemma_trim_end_strip_cr(ks[i]);
        assert(keeps(entry)(ks[i]));
    }
}


/// A package config read up to some line, for the package information: the
/// text kept so far and whether a block `[` has begun.
pub open spec fn info_step(st: (bool, Seq<char>), l: Seq<char>) -> (bool, Seq<char>) {
    if st.0 {
        st
    } else if contains(l, "["@) {
        (true, st.1)
    } else if contains(l, "]"@) && st.0 {
        (false, st.1)
    } else {
        (st.0, st.1 + l + seq!['\n'])
    }
}

/// The package config lines `ls` read from the start.
pub open spec fn info_fold(ls: Seq<Seq<char>>) -> (bool, Seq<char>)
    decreases ls.len(),
{
    if ls.len() == 0 {
        (false, seq![])
    } else {
        info_step(info_fold(ls.drop_last()), ls.last())
    }
}

/// Reading up to line `n`, all before the first line holding `[`, keeps
/// every line read, each ended by `\n`.
proof fn lemma_info_before_block(ls: Seq<Seq<char>>, f: int, n: int)
    requires
        0 <= n <= f <= ls.len(),
        forall|j: int| 0 <= j < f ==> !contains(#[trigger] ls[j], "["@),
    ensures
        info_fold(ls.take(n)) == (false, concat_each(ls.take(n), seq!['\n'])),
    decreases n,
{
    if n > 0 {
        lemma_info_before_block(ls, f, n - 1);
        assert(ls.take(n).drop_last() =~= ls.take(n - 1));
        assert(ls.take(n).last() == ls[n - 1]);
        assert(!contains(ls[n - 1], "["@));
    } else {
        assert(ls.take(0) =~= seq![]);
    }
}

/// Once a line holding `[` has been read, nothing more is kept.
proof fn lemma_info_after_block(ls: Seq<Seq<char>>, f: int, n: int, kept: Seq<char>)
    requires
        0 <= f < n <= ls.len(),
        contains(ls[f], "["@),
        info_fold(ls.take(f)) == (false, kept),
    ensures
        info_fold(ls.take(n)) == (true, kept),
    decreases n,
{
    assert(ls.take(n).drop_last() =~= ls.take(n - 1));
    assert(ls.take(n).last() == ls[n - 1]);
    if n - 1 > f {
        lemma_info_after_block(ls, f, n - 1, kept);
    }
}

/// The package information is the lines of its config before the first line
/// that holds `[` (all of them when none does), each ended by `\n`, with the
/// trailing whitespace of the whole removed.
pub proof fn law_pkginfo_is_lines_before_first_block(ls: Seq<Seq<char>>, f: int)
    requires
        0 <= f <= ls.len(),
        forall|j: int| 0 <= j < f ==> !contains(#[trigger] ls[j], "["@),
        f < ls.len() ==> contains(ls[f], "["@),
    ensures
        trim_end(info_fold(ls).1) == trim_end(concat_each(ls.take(f), seq!['\n'])),
{
    lemma_info_before_block(ls, f, f);
    if f < ls.len() {
        lemma_info_after_block(ls, f, ls.len() as int, concat_each(ls.take(f), seq!['\n']));
    }
    assert(ls.take(ls.len() as int) =~= ls);
}

/// The leading directories of `s` once its last `n` path components are cut
/// off, as the last piece of `s.rsplitn(n + 1, "/")` gives them: each cut
/// drops the text from the last `/` on; with no `/` left, `s` stays.
pub open spec fn cut_components(s: Seq<char>, n: nat) -> Seq<char>
    decreases n,
{
    if n == 0 {
        s
    } else {
        let k = last_index_of(s, '/');
        if k < 0 {
            s
        } else {
            cut_components(s.take(k), (n - 1) as nat)
        }
    }
}

/// How many `/` the text `s` holds.
pub open spec fn slashes(s: Seq<char>) -> nat
    decreases s.len(),
{
    if s.len() == 0 {
        0
    } else {
        slashes(s.drop_last()) + if s.last() == '/' {
            1nat
        } else {
            0nat
        }
    }
}

/// Slashes add up over a concatenation.
proof fn lemma_slashes_concat(a: Seq<char>, b: Seq<char>)
    ensures
        slashes(a + b) == slashes(a) + slashes(b),
    decreases b.len(),
{
    if b.len() == 0 {
        assert(a + b =~= a);
    } else {
        assert((a + b).drop_last() =~= a + b.drop_last());
        lemma_slashes_concat(a, b.drop_last());
    }
}

/// A text without `/` holds none.
proof fn lemma_no_slashes(s: Seq<char>)
    requires
        forall|j: int| 0 <= j < s.len() ==> s[j] != '/',
    ensures
        slashes(s) == 0,
    decreases s.len(),
{
    if s.len() > 0 {
        assert(s.last() == s[s.len() - 1]);
        lemma_no_slashes(s.drop_last());
    }
}

/// What cutting `n` components leaves: a prefix of `s` that ends just before
/// a `/` (or is all of `s`), after which `s` holds `n` slashes, or all of
/// them when it holds fewer.
proof fn lemma_cut_components(s: Seq<char>, n: nat)
    ensures
        ({
            let r = cut_components(s, n);
            &&& r.len() <= s.len()
            &&& r == s.take(r.len() as int)
            &&& r.len() < s.len() ==> s[r.len() as int] == '/'
            &&& slashes(s.skip(r.len() as int)) == if slashes(s) < n {
                slashes(s)
            } else {
                n
            }
        }),
    decreases n,
{
    let r = cut_components(s, n);
    if n == 0 {
        assert(s.skip(s.len() as int) =~= seq![]);
        assert(s.take(s.len() as int) =~= s);
    } else {
        crate::text::lemma_last_index_of(s, '/');
        let k = last_index_of(s, '/');
        if k < 0 {
            lemma_no_slashes(s);
            assert(s.skip(s.len() as int) =~= seq![]);
            assert(s.take(s.len() as int) =~= s);
        } else {
            let t = s.take(k);
            lemma_cut_components(t, (n - 1) as nat);
            let rl = r.len() as int;
            assert(r == t.take(rl));
            assert(r =~= s.take(rl));
            if rl < t.len() {
                assert(t[rl] == s[rl]);
            }
            let tail = s.skip(k + 1);
            assert forall|j: int| 0 <= j < tail.len() implies tail[j] != '/' by {
                assert(tail[j] == s[k + 1 + j]);
            }
            lemma_no_slashes(tail);
            assert(s =~= t + (seq!['/'] + tail));
            lemma_slashes_concat(t, seq!['/'] + tail);
            lemma_slashes_concat(seq!['/'], tail);
            assert(slashes(seq!['/']) == 1) by {
                let one = seq!['/'];
                assert(one.drop_last() =~= Seq::<char>::empty());
                assert(slashes(one.drop_last()) == 0);
                assert(one.last() == '/');
            }
            assert(s.skip(rl) =~= t.skip(rl) + (seq!['/'] + tail));
            lemma_slashes_concat(t.skip(rl), seq!['/'] + tail);
        }
    }
}

/// The project directory is the executable's path up to its third `/` from
/// the end, as `rsplitn(4, "/")` cuts it: a prefix of the path, followed in it
/// by a `/`, after which the path holds exactly three slashes; with fewer
/// than three, the text before its first `/` (or all of it).
pub proof fn law_project_dir_cuts_three_components(exe: Seq<char>)
    ensures
        ({
            let r = cut_components(exe, 3);
            &&& r == exe.take(r.len() as int)
            &&& r.len() < exe.len() ==> exe[r.len() as int] == '/'
            &&& slashes(exe.skip(r.len() as int)) == if slashes(exe) < 3 {
                slashes(exe)
            } else {
                3
            }
        }),
{
    lemma_cut_components(exe, 3);
}

/// The project directory of dupt for the executable at `exe`: the path with
/// its last three components cut off.
pub fn get_project_dir(exe: &str) -> (r: String)
    ensures
        r@ == cut_components(exe@, 3),
{
    let s = to_chars(exe);
    let mut end = s.len();
    let mut n: usize = 3;
    assert(s@.subrange(0, s@.len() as int) =~= s@);
    loop
        invariant
            end <= s@.len(),
            s@ == exe@,
            n <= 3,
            cut_components(exe@, 3) == cut_components(s@.subrange(0, end as int), n as nat),
        ensures
            end <= s@.len(),
            cut_components(exe@, 3) == s@.subrange(0, end as int),
        decreases n,
    {
        if n == 0 {
            break;
        }
        match rfind_char(&s, 0, end, '/') {
            Some(k) => {
                assert(s@.subrange(0, end as int).take(k as int) =~= s@.subrange(0, k as int));
                end = k;
                n = n - 1;
            },
            None => {
                break;
            },
        }
    }
    slice_string(exe, 0, end)
}

/// One thing running a package does for one of its commands: enter a
/// directory relative to the current one, or run a program with arguments.
pub enum RunStep {
    ChangeDir { path: String },
    Exec { program: String, args: Vec<String> },
}

/// The program and arguments of the command `cmd`: its first word and the words after it.
pub fn split_command(cmd: &str) -> (r: (String, Vec<String>))
    requires
        words(cmd@).len() >= 1,
    ensures
        r.0@ == words(cmd@)[0],
        texts(r.1@) == words(cmd@).drop_first(),
{
    let s = to_chars(cmd);
    let ws = word_ranges(&s, 0, s.len());
    assert(s@.subrange(0, s@.len() as int) =~= s@);
    let (a, b) = ws[0];
    let program = slice_string(cmd, a, b);
    let mut args: Vec<String> = Vec::new();
    let mut i: usize = 1;
    assert(texts(args@) =~= seq![]);
    while i < ws.len()
        invariant
            s@ == cmd@,
            crate::text::ranges_are_words(s@, 0, s@.len() as int, ws@),
            s@.subrange(0, s@.len() as int) == s@,
            1 <= i <= ws@.len(),
            texts(args@) == words(cmd@).subrange(1, i as int),
        decreases ws@.len() - i,
    {
        let (a, b) = ws[i];
        let ghost old = args@;
        args.push(slice_string(cmd, a, b));
        assert(texts(args@) =~= texts(old).push(words(cmd@)[i as int]));
        assert(words(cmd@).subrange(1, i + 1) =~= words(cmd@).subrange(1, i as int).push(
            words(cmd@)[i as int],
        ));
        i = i + 1;
    }
    assert(words(cmd@).subrange(1, ws@.len() as int) =~= words(cmd@).drop_first());
    (program, args)
}

/// The texts of `ws` one after the other.
pub open spec fn concat_all(ws: Seq<Seq<char>>) -> Seq<char>
    decreases ws.len(),
{
    if ws.len() == 0 {
        seq![]
    } else {
        concat_all(ws.drop_last()) + ws.last()
    }
}

impl Package {
    /// The package information shown for it, from its config file: the lines
    /// before the first line holding `[`, each ended by `\n`, with trailing
    /// whitespace removed from the whole.
    pub fn pkginfo(&self, pkg_config: &str) -> (r: String)
        ensures
            r@ == trim_end(info_fold(lines(pkg_config@)).1),
    {
        let s = to_chars(pkg_config);
        let ranges = line_ranges(&s);
        let ghost ls = lines(s@);
        let open = to_chars("[");
        let close = to_chars("]");
        let mut in_block = false;
        let mut info = String::new();
        let mut i: usize = 0;
        assert(ls.take(0) =~= seq![]);
        while i < ranges.len()
            invariant
                s@ == pkg_config@,
                ls == lines(s@),
                open@ == "["@,
                close@ == "]"@,
                crate::text::ranges_are_lines(s@, ranges@),
                i <= ranges@.len(),
                info_fold(ls.take(i as int)) == (in_block, info@),
            decreases ranges@.len() - i,
        {
            let (lo, hi) = ranges[i];
            assert(ls.take(i + 1).drop_last() =~= ls.take(i as int));
            assert(ls.take(i + 1).last() == s@.subrange(lo as int, hi as int));
            if in_block {
            } else if contains_in(&s, lo, hi, &open) {
                in_block = true;
            } else if contains_in(&s, lo, hi, &close) && in_block {
                in_block = false;
            } else {
                info.append(pkg_config.substring_char(lo, hi));
                info.append("\n");
                proof {
                    reveal_strlit("\n");
                }
            }
            i = i + 1;
        }
        assert(ls.take(ranges@.len() as int) =~= ls);
        let t = to_chars(info.as_str());
        let e = trim_end_range(&t, 0, t.len());
        assert(t@.subrange(0, t@.len() as int) =~= t@);
        slice_string(info.as_str(), 0, e)
    }

    /// The error of a command of this package whose program `program` did not succeed.
    pub fn failure(program: &str) -> (r: String)
        ensures
            r@ == program@ + " failed"@,
    {
        let mut r = String::from_str(program);
        r.append(" failed");
        r
    }

    /// The error of a removal whose program directory could not be deleted.
    pub fn removal_failure() -> (r: String)
        ensures
            r@ == "removing failed"@,
    {
        String::from_str("removing failed")
    }

    /// Running needs a runnable package: otherwise "package not runnable".
    pub fn check_runnable(&self) -> (r: Result<(), &'static str>)
        ensures
            self.runnable ==> r == Ok::<(), &'static str>(()),
            !self.runnable ==> r == Err::<(), &'static str>("package not runnable"),
    {
        if !self.runnable {
            return Err("package not runnable");
        }
        Ok(())
    }

    /// What running the command `cmd` of this package does: `cd` enters the
    /// directory named by its arguments run together; any other program is run
    /// with its arguments.
    pub fn run_step(cmd: &str) -> (r: RunStep)
        requires
            words(cmd@).len() >= 1,
        ensures
            words(cmd@)[0] == "cd"@ ==> (r matches RunStep::ChangeDir { path } && path@
                == concat_all(words(cmd@).drop_first())),
            words(cmd@)[0] != "cd"@ ==> (r matches RunStep::Exec { program, args } && program@
                == words(cmd@)[0] && texts(args@) == words(cmd@).drop_first()),
    {
        let (program, args) = split_command(cmd);
        if crate::text::str_eq(program.as_str(), "cd") {
            let mut path = String::new();
            let mut i: usize = 0;
            while i < args.len()
                invariant
                    i <= args@.len(),
                    path@ == concat_all(texts(args@).take(i as int)),
                decreases args@.len() - i,
            {
                assert(texts(args@).take(i + 1).drop_last() =~= texts(args@).take(i as int));
                path.append(args[i].as_str());
                i = i + 1;
            }
            assert(texts(args@).take(args@.len() as int) =~= texts(args@));
            RunStep::ChangeDir { path }
        } else {
            RunStep::Exec { program, args }
        }
    }
}

/// The package list in the project directory `project`.
pub fn package_list_path(project: &str) -> (r: String)
    ensures
        r@ == project@ + "/packages/list.config"@,
{
    let mut r = String::from_str(project);
    r.append("/packages/list.config");
    r
}

/// The installed list in the project directory `project`.
pub fn installed_list_path(project: &str) -> (r: String)
    ensures
        r@ == project@ + "/packages/installed.config"@,
{
    let mut r = String::from_str(project);
    r.append("/packages/installed.config");
    r
}

/// The config file of package `name` with zip `zip`, as the package list names it.
pub fn package_file_path(project: &str, zip: &str, name: &str) -> (r: String)
    ensures
        r@ == project@ + "/packages/zips/"@ + zip@ + "/"@ + name@ + ".config"@,
{
    let mut r = String::from_str(project);
    r.append("/packages/zips/");
    r.append(zip);
    r.append("/");
    r.append(name);
    r.append(".config");
    r
}

/// The directory the program with zip `zip` is installed in.
pub fn program_dir(project: &str, zip: &str) -> (r: String)
    ensures
        r@ == project@ + "/packages/programs/"@ + zip@,
{
    let mut r = String::from_str(project);
    r.append("/packages/programs/");
    r.append(zip);
    r
}

/// The config file of the installed package `name` with zip `zip`.
pub fn program_config_path(project: &str, zip: &str, name: &str) -> (r: String)
    ensures
        r@ == project@ + "/packages/programs/"@ + zip@ + "/"@ + name@ + ".config"@,
{
    let mut r = program_dir(project, zip);
    r.append("/");
    r.append(name);
    r.append(".config");
    r
}

/// The next thing installing a package does; the caller does it and reports
/// back how it went.
pub enum SetupAction {
    /// Enter the project directory.
    Prepare,
    /// Show the package and ask whether to go on.
    Confirm,
    /// Run install command `i`.
    Exec(usize),
    /// Record the package in the installed list and return to the directory
    /// the run started in.
    Record,
    /// The run is over: the package was installed (`true`) or the answer was no.
    Stop(bool),
    /// The run failed because install command `i` did not succeed; the error
    /// is `Package::failure` of its program.
    CommandFailed(usize),
    /// The run failed with this error.
    Fail(String),
}

/// What installing a package with the install commands `cmds` does after
/// `last`, given how `last` went: `Ok` with the answer of the question or
/// whether the command succeeded (`true` for the others), or the error it
/// ended with. A command that does not succeed fails the run; a "no" stops it.
pub open spec fn setup_next(cmds: Seq<Seq<char>>, last: SetupAction, outcome: Result<bool, String>) -> SetupAction {
    match last {
        SetupAction::Prepare => match outcome {
            Err(e) => SetupAction::Fail(e),
            Ok(_) => SetupAction::Confirm,
        },
        SetupAction::Confirm => match outcome {
            Err(e) => SetupAction::Fail(e),
            Ok(false) => SetupAction::Stop(false),
            Ok(true) => if cmds.len() > 0 {
                SetupAction::Exec(0)
            } else {
                SetupAction::Record
            },
        },
        SetupAction::Exec(i) => match outcome {
            Err(e) => SetupAction::Fail(e),
            Ok(false) => SetupAction::CommandFailed(i),
            Ok(true) => if i + 1 < cmds.len() {
                SetupAction::Exec((i + 1) as usize)
            } else {
                SetupAction::Record
            },
        },
        SetupAction::Record => match outcome {
            Err(e) => SetupAction::Fail(e),
            Ok(_) => SetupAction::Stop(true),
        },
        SetupAction::Stop(done) => SetupAction::Stop(done),
        SetupAction::CommandFailed(i) => SetupAction::CommandFailed(i),
        SetupAction::Fail(e) => SetupAction::Fail(e),
    }
}

impl Package {
    /// The first thing installing this package does.
    pub fn first_setup_action(&self) -> (r: SetupAction)
        ensures
            r == SetupAction::Prepare,
    {
        SetupAction::Prepare
    }

    /// What installing this package does after `last` went as `outcome`.
    pub fn next_setup_action(&self, last: SetupAction, outcome: Result<bool, String>) -> (r: SetupAction)
        requires
            last matches SetupAction::Exec(i) ==> i < self.install@.len(),
            last matches SetupAction::CommandFailed(i) ==> i < self.install@.len(),
        ensures
            r == setup_next(texts(self.install@), last, outcome),
            r matches SetupAction::Exec(j) ==> j < self.install@.len(),
            r matches SetupAction::CommandFailed(j) ==> j < self.install@.len(),
    {
        let n = self.install.len();
        match last {
            SetupAction::Prepare => match outcome {
                Err(e) => SetupAction::Fail(e),
                Ok(_) => SetupAction::Confirm,
            },
            SetupAction::Confirm => match outcome {
                Err(e) => SetupAction::Fail(e),
                Ok(false) => SetupAction::Stop(false),
                Ok(true) => if n > 0 {
                    SetupAction::Exec(0)
                } else {
                    SetupAction::Record
                },
            },
            SetupAction::Exec(i) => match outcome {
                Err(e) => SetupAction::Fail(e),
                Ok(false) => SetupAction::CommandFailed(i),
                Ok(true) => if i + 1 < n {
                    SetupAction::Exec(i + 1)
                } else {
                    SetupAction::Record
                },
            },
            SetupAction::Record => match outcome {
                Err(e) => SetupAction::Fail(e),
                Ok(_) => SetupAction::Stop(true),
            },
            SetupAction::Stop(done) => SetupAction::Stop(done),
            SetupAction::CommandFailed(i) => SetupAction::CommandFailed(i),
            SetupAction::Fail(e) => SetupAction::Fail(e),
        }
    }
}

/// The actions `t` are those of installing a package with the install
/// commands `cmds`, in which action `t[k]` went as `o[k]`.
pub open spec fn is_setup_run(cmds: Seq<Seq<char>>, t: Seq<SetupAction>, o: Seq<Result<bool, String>>) -> bool {
    &&& t.len() == o.len() + 1
    &&& t[0] == SetupAction::Prepare
    &&& forall|k: int| 0 <= k < o.len() ==> t[k + 1] == setup_next(cmds, t[k], #[trigger] o[k])
}

/// Install command `i` succeeded at some step of the run before step `p`.
pub open spec fn ran_before(t: Seq<SetupAction>, o: Seq<Result<bool, String>>, i: usize, p: int) -> bool {
    exists|q: int|
        0 <= q < p && #[trigger] t[q] == SetupAction::Exec(i) && o[q] == Ok::<bool, String>(true)
}

/// The answer yes was given at some step of the run before step `p`.
pub open spec fn setup_confirmed_before(t: Seq<SetupAction>, o: Seq<Result<bool, String>>, p: int) -> bool {
    exists|q: int|
        0 <= q < p && #[trigger] t[q] == SetupAction::Confirm && o[q] == Ok::<bool, String>(true)
}

/// What holds at step `k` of installing a package.
pub open spec fn setup_run_inv(cmds: Seq<Seq<char>>, t: Seq<SetupAction>, o: Seq<Result<bool, String>>, k: int) -> bool {
    &&& t[k] matches SetupAction::Exec(i) ==> setup_confirmed_before(t, o, k) && forall|j: usize|
        j < i ==> #[trigger] ran_before(t, o, j, k)
    &&& (t[k] == SetupAction::Record || t[k] == SetupAction::Stop(true)) ==> setup_confirmed_before(t, o, k)
        && forall|j: usize| j < cmds.len() ==> #[trigger] ran_before(t, o, j, k)
}

/// The invariant holds at every step of a run.
proof fn lemma_setup_run_inv(cmds: Seq<Seq<char>>, t: Seq<SetupAction>, o: Seq<Result<bool, String>>, k: int)
    requires
        cmds.len() <= usize::MAX,
        is_setup_run(cmds, t, o),
        0 <= k < t.len(),
    ensures
        setup_run_inv(cmds, t, o, k),
    decreases k,
{
    if k > 0 {
        let p = k - 1;
        lemma_setup_run_inv(cmds, t, o, p);
        let last = t[p];
        let out = o[p];
        assert(t[k] == setup_next(cmds, last, out));
        assert forall|j: usize| ran_before(t, o, j, p) implies #[trigger] ran_before(t, o, j, k) by {
            let q = choose|q: int|
                0 <= q < p && #[trigger] t[q] == SetupAction::Exec(j) && o[q] == Ok::<bool, String>(true);
            assert(0 <= q < k && t[q] == SetupAction::Exec(j));
        }
        if setup_confirmed_before(t, o, p) {
            let q = choose|q: int|
                0 <= q < p && #[trigger] t[q] == SetupAction::Confirm && o[q] == Ok::<bool, String>(true);
            assert(0 <= q < k && t[q] == SetupAction::Confirm);
        }
        match last {
            SetupAction::Confirm => {
                if out == Ok::<bool, String>(true) {
                    assert(t[p] == SetupAction::Confirm);
                    assert(setup_confirmed_before(t, o, k));
                }
            },
            SetupAction::Exec(i) => {
                if out == Ok::<bool, String>(true) {
                    assert forall|j: usize| j <= i implies #[trigger] ran_before(t, o, j, k) by {
                        if j < i {
                            assert(ran_before(t, o, j, p));
                        } else {
                            assert(t[p] == SetupAction::Exec(j));
                        }
                    }
                }
            },
            _ => {},
        }
    }
}

/// Installing a package records it only after the answer yes and after every
/// one of its install commands succeeded.
pub proof fn law_setup_records_only_installed(
    cmds: Seq<Seq<char>>,
    t: Seq<SetupAction>,
    o: Seq<Result<bool, String>>,
    p: int,
)
    requires
        cmds.len() <= usize::MAX,
        is_setup_run(cmds, t, o),
        0 <= p < t.len(),
        t[p] == SetupAction::Record,
    ensures
        setup_confirmed_before(t, o, p),
        forall|j: usize| j < cmds.len() ==> #[trigger] ran_before(t, o, j, p),
{
    lemma_setup_run_inv(cmds, t, o, p);
}

/// The next thing running a package does; the caller does it and reports
/// back how it went.
pub enum ProgramAction {
    /// Enter the directory of the installed program.
    Prepare,
    /// Carry out run command `i`, as `Package::run_step` says.
    Step(usize),
    /// Return to the directory the run started in.
    Restore,
    /// The run is over.
    Stop,
    /// The run failed because run command `i` did not succeed; the error is
    /// `Package::failure` of its program.
    CommandFailed(usize),
    /// The run failed because the package is not runnable.
    NotRunnable,
    /// The run failed with this error.
    Fail(String),
}

/// The first thing running a package does: nothing when it is not runnable.
pub open spec fn program_first(runnable: bool) -> ProgramAction {
    if runnable {
        ProgramAction::Prepare
    } else {
        ProgramAction::NotRunnable
    }
}

/// What running a package with `n` run commands does after `last`, given how
/// `last` went: `Ok` with whether the command succeeded (`true` for the
/// others), or the error it ended with.
pub open spec fn program_next(n: nat, last: ProgramAction, outcome: Result<bool, String>) -> ProgramAction {
    match last {
        ProgramAction::Prepare => match outcome {
            Err(e) => ProgramAction::Fail(e),
            Ok(_) => if n > 0 {
                ProgramAction::Step(0)
            } else {
                ProgramAction::Restore
            },
        },
        ProgramAction::Step(i) => match outcome {
            Err(e) => ProgramAction::Fail(e),
            Ok(false) => ProgramAction::CommandFailed(i),
            Ok(true) => if i + 1 < n {
                ProgramAction::Step((i + 1) as usize)
            } else {
                ProgramAction::Restore
            },
        },
        ProgramAction::Restore => match outcome {
            Err(e) => ProgramAction::Fail(e),
            Ok(_) => ProgramAction::Stop,
        },
        ProgramAction::Stop => ProgramAction::Stop,
        ProgramAction::CommandFailed(i) => ProgramAction::CommandFailed(i),
        ProgramAction::NotRunnable => ProgramAction::NotRunnable,
        ProgramAction::Fail(e) => ProgramAction::Fail(e),
    }
}

impl Package {
    /// The first thing running this package does.
    pub fn first_program_action(&self) -> (r: ProgramAction)
        ensures
            r == program_first(self.runnable),
    {
        if self.runnable {
            ProgramAction::Prepare
        } else {
            ProgramAction::NotRunnable
        }
    }

    /// What running this package does after `last` went as `outcome`.
    pub fn next_program_action(&self, last: ProgramAction, outcome: Result<bool, String>) -> (r: ProgramAction)
        requires
            last matches ProgramAction::Step(i) ==> i < self.run@.len(),
            last matches ProgramAction::CommandFailed(i) ==> i < self.run@.len(),
        ensures
            r == program_next(self.run@.len(), last, outcome),
            r matches ProgramAction::Step(j) ==> j < self.run@.len(),
            r matches ProgramAction::CommandFailed(j) ==> j < self.run@.len(),
    {
        let n = self.run.len();
        match last {
            ProgramAction::Prepare => match outcome {
                Err(e) => ProgramAction::Fail(e),
                Ok(_) => if n > 0 {
                    ProgramAction::Step(0)
                } else {
                    ProgramAction::Restore
                },
            },
            ProgramAction::Step(i) => match outcome {
                Err(e) => ProgramAction::Fail(e),
                Ok(false) => ProgramAction::CommandFailed(i),
                Ok(true) => if i + 1 < n {
                    ProgramAction::Step(i + 1)
                } else {
                    ProgramAction::Restore
                },
            },
            ProgramAction::Restore => match outcome {
                Err(e) => ProgramAction::Fail(e),
                Ok(_) => ProgramAction::Stop,
            },
            ProgramAction::Stop => ProgramAction::Stop,
            ProgramAction::CommandFailed(i) => ProgramAction::CommandFailed(i),
            ProgramAction::NotRunnable => ProgramAction::NotRunnable,
            ProgramAction::Fail(e) => ProgramAction::Fail(e),
        }
    }
}

/// The actions `t` are those of running a package (runnable or not) with `n`
/// run commands, in which action `t[k]` went as `o[k]`.
pub open spec fn is_program_run(runnable: bool, n: nat, t: Seq<ProgramAction>, o: Seq<Result<bool, String>>) -> bool {
    &&& t.len() == o.len() + 1
    &&& t[0] == program_first(runnable)
    &&& forall|k: int| 0 <= k < o.len() ==> t[k + 1] == program_next(n, t[k], #[trigger] o[k])
}

/// Running a package carries out a command only when the package is runnable.
pub proof fn law_only_runnable_packages_run(
    runnable: bool,
    n: nat,
    t: Seq<ProgramAction>,
    o: Seq<Result<bool, String>>,
    p: int,
)
    requires
        is_program_run(runnable, n, t, o),
        0 <= p < t.len(),
        !(t[p] matches ProgramAction::NotRunnable),
    ensures
        runnable,
    decreases p,
{
    if !runnable {
        if p > 0 {
            assert(t[p] == program_next(n, t[p - 1], o[p - 1]));
            if !(t[p - 1] matches ProgramAction::NotRunnable) {
                law_only_runnable_packages_run(runnable, n, t, o, p - 1);
            }
        }
    }
}

/// The next thing removing a package does; the caller does it and reports
/// back how it went.
pub enum PurgeAction {
    /// Enter the project directory.
    Prepare,
    /// Show the package and ask whether to go on.
    Confirm,
    /// Delete the program's directory.
    RemoveProgram,
    /// Write the installed list without the package and return to the
    /// directory the run started in.
    Rewrite,
    /// The run is over: the package was removed (`true`) or the answer was no.
    Stop(bool),
    /// The run failed because the program's directory could not be deleted.
    RemovalFailed,
    /// The run failed with this error.
    Fail(String),
}

/// What removing a package does after `last`, given how `last` went: `Ok`
/// with the answer of the question or whether the deletion succeeded (`true`
/// for the others), or the error it ended with.
pub open spec fn purge_next(last: PurgeAction, outcome: Result<bool, String>) -> PurgeAction {
    match outcome {
        Err(e) => match last {
            PurgeAction::Stop(done) => PurgeAction::Stop(done),
            PurgeAction::RemovalFailed => PurgeAction::RemovalFailed,
            PurgeAction::Fail(f) => PurgeAction::Fail(f),
            _ => PurgeAction::Fail(e),
        },
        Ok(yes) => match last {
            PurgeAction::Prepare => PurgeAction::Confirm,
            PurgeAction::Confirm => if yes {
                PurgeAction::RemoveProgram
            } else {
                PurgeAction::Stop(false)
            },
            PurgeAction::RemoveProgram => if yes {
                PurgeAction::Rewrite
            } else {
                PurgeAction::RemovalFailed
            },
            PurgeAction::Rewrite => PurgeAction::Stop(true),
            PurgeAction::Stop(done) => PurgeAction::Stop(done),
            PurgeAction::RemovalFailed => PurgeAction::RemovalFailed,
            PurgeAction::Fail(f) => PurgeAction::Fail(f),
        },
    }
}

impl Package {
    /// The first thing removing this package does.
    pub fn first_purge_action(&self) -> (r: PurgeAction)
        ensures
            r == PurgeAction::Prepare,
    {
        PurgeAction::Prepare
    }

    /// What removing this package does after `last` went as `outcome`.
    pub fn next_purge_action(&self, last: PurgeAction, outcome: Result<bool, String>) -> (r: PurgeAction)
        ensures
            r == purge_next(last, outcome),
    {
        match outcome {
            Err(e) => match last {
                PurgeAction::Stop(done) => PurgeAction::Stop(done),
                PurgeAction::RemovalFailed => PurgeAction::RemovalFailed,
                PurgeAction::Fail(f) => PurgeAction::Fail(f),
                _ => PurgeAction::Fail(e),
            },
            Ok(yes) => match last {
                PurgeAction::Prepare => PurgeAction::Confirm,
                PurgeAction::Confirm => if yes {
                    PurgeAction::RemoveProgram
                } else {
                    PurgeAction::Stop(false)
                },
                PurgeAction::RemoveProgram => if yes {
                    PurgeAction::Rewrite
                } else {
                    PurgeAction::RemovalFailed
                },
                PurgeAction::Rewrite => PurgeAction::Stop(true),
                PurgeAction::Stop(done) => PurgeAction::Stop(done),
                PurgeAction::RemovalFailed => PurgeAction::RemovalFailed,
                PurgeAction::Fail(f) => PurgeAction::Fail(f),
            },
        }
    }
}

/// The list is rewritten only once the answer was yes and the program's
/// directory was deleted: in a run of removing a package, `Rewrite` follows
/// `RemoveProgram` that succeeded, which follows `Confirm` answered yes.
pub proof fn law_purge_rewrites_only_removed(t: Seq<PurgeAction>, o: Seq<Result<bool, String>>, p: int)
    requires
        t.len() == o.len() + 1,
        t[0] == PurgeAction::Prepare,
        forall|k: int| 0 <= k < o.len() ==> t[k + 1] == purge_next(t[k], #[trigger] o[k]),
        0 <= p < t.len(),
        t[p] == PurgeAction::Rewrite,
    ensures
        p == 3,
        t[1] == PurgeAction::Confirm && o[1] == Ok::<bool, String>(true),
        t[2] == PurgeAction::RemoveProgram && o[2] == Ok::<bool, String>(true),
{
    assert(p > 0);
    assert(t[p] == purge_next(t[p - 1], o[p - 1]));
    assert(t[p - 1] == PurgeAction::RemoveProgram);
    assert(p - 1 > 0);
    assert(t[p - 1] == purge_next(t[p - 2], o[p - 2]));
    assert(t[p - 2] == PurgeAction::Confirm);
    assert(p - 2 > 0);
    assert(t[p - 2] == purge_next(t[p - 3], o[p - 3]));
    assert(t[p - 3] == PurgeAction::Prepare);
    if p - 3 > 0 {
        assert(t[p - 3] == purge_next(t[p - 4], o[p - 4]));
    }
}

} // verus!

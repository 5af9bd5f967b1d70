//! Helpers shared by the commands: the container command line, package
//! lists, repository links, paths, colours and confirmation answers.
pub mod packages;
pub mod paths;

use vstd::prelude::*;
use crate::package::texts;
use crate::text::{
    contains, contains_in, eq_range, occurs_at, find_char, head4_ok, index_of, indented, is_indented,
    line_ranges, lines, matches_at, slice_string, str_eq, to_chars, trim, trim_range, word_ranges,
    words,
};

verus! {

/// A foreground colour of the terminal.
pub enum Shade {
    Red,
    Green,
    Blue,
    Rgb(u8, u8, u8),
}

/// The decimal digits of `n`, as `{}` formats it.
pub open spec fn decimal(n: nat) -> Seq<char>
    decreases n,
{
    if n < 10 {
        seq![((48 + n) as u32) as char]
    } else {
        decimal(n / 10) + seq![((48 + n % 10) as u32) as char]
    }
}

/// The ANSI code that selects the foreground colour `c`.
pub open spec fn fg_code(c: Shade) -> Seq<char> {
    match c {
        Shade::Red => "31"@,
        Shade::Green => "32"@,
        Shade::Blue => "34"@,
        Shade::Rgb(r, g, b) => "38;2;"@ + decimal(r as nat) + ";"@ + decimal(g as nat) + ";"@
            + decimal(b as nat),
    }
}

/// `text` painted in colour `c`: the escape that selects the colour, the text,
/// and the escape that resets all styles.
pub open spec fn painted(c: Shade, text: Seq<char>) -> Seq<char> {
    "\x1B["@ + fg_code(c) + "m"@ + text + "\x1B[0m"@
}

/// `ansi_term::Colour::paint` (ansi_term 0.12), displayed: as its source shows,
/// a colour's style has only a foreground, so the text is written between the
/// prefix `ESC [ <code> m` and the reset suffix `ESC [ 0 m`.
#[verifier::external_body]
pub(crate) fn paint(c: Shade, text: &str) -> (r: String)
    ensures
        r@ == painted(c, text@),
{
    let colour = match c {
        Shade::Red => ansi_term::Colour::Red,
        Shade::Green => ansi_term::Colour::Green,
        Shade::Blue => ansi_term::Colour::Blue,
        Shade::Rgb(r, g, b) => ansi_term::Colour::RGB(r, g, b),
    };
    format!("{}", colour.paint(text))
}

/// The line that shows `text` in blue.
pub fn print_blue(text: &str) -> (r: String)
    ensures
        r@ == painted(Shade::Blue, text@),
{
    paint(Shade::Blue, text)
}

/// The line that shows `text` in red.
pub fn print_red(text: &str) -> (r: String)
    ensures
        r@ == painted(Shade::Red, text@),
{
    paint(Shade::Red, text)
}

/// The line that shows `text` in green.
pub fn print_green(text: &str) -> (r: String)
    ensures
        r@ == painted(Shade::Green, text@),
{
    paint(Shade::Green, text)
}

/// What an answer to "Do you want to continue? [y/n]" means: trimmed, `y`
/// goes on, `n` aborts, anything else is an error.
pub fn read_confirmation(answer: &str) -> (r: Result<bool, &'static str>)
    ensures
        trim(answer@) == "n"@ ==> r == Ok::<bool, &'static str>(false),
        trim(answer@) == "y"@ ==> r == Ok::<bool, &'static str>(true),
        trim(answer@) != "n"@ && trim(answer@) != "y"@ ==> r == Err::<bool, &'static str>(
            "invalid value. aborting...",
        ),
{
    let s = to_chars(answer);
    let (lo, hi) = trim_range(&s, 0, s.len());
    assert(s@.subrange(0, s@.len() as int) =~= s@);
    let n = to_chars("n");
    let y = to_chars("y");
    proof {
        reveal_strlit("y");
        reveal_strlit("n");
        assert("y"@[0] != "n"@[0]);
    }
    if eq_range(&s, lo, hi, &n) {
        Ok(false)
    } else if !eq_range(&s, lo, hi, &y) {
        Err("invalid value. aborting...")
    } else {
        Ok(true)
    }
}

/// The error of a container command that did not succeed, with what it
/// wrote to its error stream.
pub fn container_failure(stderr: &str) -> (r: String)
    ensures
        r@ == "container command failed with error message: "@ + stderr@,
{
    let mut r = String::from_str("container command failed with error message: ");
    r.append(stderr);
    r
}

/// The image the container is created from.
pub fn get_fedora_image() -> (r: String)
    ensures
        r@ == "fedora:40"@,
{
    String::from_str("fedora:40")
}


/// The arguments of `distrobox` that run the command line `args` in the
/// container `dupt-fedora`: `enter dupt-fedora --` and the words of `args`.
pub fn distrobox_argv(args: &str) -> (r: Vec<String>)
    ensures
        texts(r@) == seq!["enter"@, "dupt-fedora"@, "--"@] + words(args@),
{
    let s = to_chars(args);
    let ws = word_ranges(&s, 0, s.len());
    assert(s@.subrange(0, s@.len() as int) =~= s@);
    let mut r: Vec<String> = Vec::new();
    r.push(String::from_str("enter"));
    r.push(String::from_str("dupt-fedora"));
    r.push(String::from_str("--"));
    let ghost head = seq!["enter"@, "dupt-fedora"@, "--"@];
    assert(texts(r@) =~= head);
    let mut i: usize = 0;
    while i < ws.len()
        invariant
            s@ == args@,
            s@.subrange(0, s@.len() as int) == s@,
            crate::text::ranges_are_words(s@, 0, s@.len() as int, ws@),
            head == seq!["enter"@, "dupt-fedora"@, "--"@],
            i <= ws@.len(),
            texts(r@) == head + words(args@).take(i as int),
        decreases ws@.len() - i,
    {
        let (a, b) = ws[i];
        let ghost old = r@;
        r.push(slice_string(args, a, b));
        assert(texts(r@) =~= texts(old).push(words(args@)[i as int]));
        assert(words(args@).take(i + 1) =~= words(args@).take(i as int).push(words(args@)[i as int]));
        i = i + 1;
    }
    assert(words(args@).take(ws@.len() as int) =~= words(args@));
    r
}

/// Line `l` of a package list names the package `name`: it is not indented,
/// not blank, and trimmed it is `name`.
pub open spec fn names_package(l: Seq<char>, name: Seq<char>) -> bool {
    !indented(l) && trim(l).len() != 0 && trim(l) == name
}

/// The package list `ls` has a line naming `name`.
pub open spec fn listed(ls: Seq<Seq<char>>, name: Seq<char>) -> bool {
    exists|i: int| 0 <= i < ls.len() && names_package(#[trigger] ls[i], name)
}

/// A package list names `name` exactly when one of its lines that is not
/// indented is, once trimmed, exactly `name`, and `name` is not empty: a line
/// that only contains `name`, or that is indented, does not name it.
pub proof fn law_listed_means_exact_name(ls: Seq<Seq<char>>, name: Seq<char>)
    ensures
        listed(ls, name) <==> (name.len() > 0 && exists|i: int|
            0 <= i < ls.len() && !indented(ls[i]) && #[trigger] trim(ls[i]) == name),
{
    if listed(ls, name) {
        let i = choose|i: int| 0 <= i < ls.len() && names_package(#[trigger] ls[i], name);
        assert(!indented(ls[i]) && trim(ls[i]) == name);
    }
    if name.len() > 0 && exists|i: int| 0 <= i < ls.len() && !indented(ls[i]) && #[trigger] trim(ls[i]) == name {
        let i = choose|i: int| 0 <= i < ls.len() && !indented(ls[i]) && #[trigger] trim(ls[i]) == name;
        assert(names_package(ls[i], name));
    }
}

/// A search of `ls` for `name` takes only slices that exist: every line up to
/// the first that names the package has its first four bytes end on a char.
pub open spec fn listing_ok(ls: Seq<Seq<char>>, name: Seq<char>) -> bool {
    forall|i: int|
        0 <= i < ls.len() && (forall|j: int| 0 <= j < i ==> !names_package(#[trigger] ls[j], name))
            ==> head4_ok(#[trigger] ls[i])
}

/// Whether a search of the package list `contents` for `name` takes only
/// slices that exist.
pub fn listing_scan_ok(contents: &str, name: &str) -> (b: bool)
    ensures
        b == listing_ok(lines(contents@), name@),
{
    let s = to_chars(contents);
    let n = to_chars(name);
    let ranges = line_ranges(&s);
    let ghost ls = lines(s@);
    let mut i: usize = 0;
    while i < ranges.len()
        invariant
            s@ == contents@,
            n@ == name@,
            ls == lines(s@),
            crate::text::ranges_are_lines(s@, ranges@),
            i <= ranges@.len(),
            forall|j: int| 0 <= j < i ==> !names_package(#[trigger] ls[j], name@),
            forall|j: int| 0 <= j < i ==> head4_ok(#[trigger] ls[j]),
        decreases ranges@.len() - i,
    {
        let (lo, hi) = ranges[i];
        assert(ls[i as int] == s@.subrange(lo as int, hi as int));
        if !crate::text::head4_range(&s, lo, hi) {
            return false;
        }
        let (tlo, thi) = trim_range(&s, lo, hi);
        if !is_indented(&s, lo, hi) && tlo < thi && eq_range(&s, tlo, thi, &n) {
            assert(names_package(ls[i as int], name@));
            assert forall|k: int|
                0 <= k < ls.len() && (forall|j: int| 0 <= j < k ==> !names_package(#[trigger] ls[j], name@))
                    implies head4_ok(#[trigger] ls[k]) by {
                if k > i {
                    assert(!names_package(ls[i as int], name@));
                }
            }
            return true;
        }
        i = i + 1;
    }
    true
}

/// Whether the package list `contents` has a line naming `name`.
pub fn is_listed(contents: &str, name: &str) -> (b: bool)
    requires
        listing_ok(lines(contents@), name@),
    ensures
        b == listed(lines(contents@), name@),
{
    let s = to_chars(contents);
    let n = to_chars(name);
    let ranges = line_ranges(&s);
    let ghost ls = lines(s@);
    let mut i: usize = 0;
    while i < ranges.len()
        invariant
            s@ == contents@,
            n@ == name@,
            ls == lines(s@),
            crate::text::ranges_are_lines(s@, ranges@),
            i <= ranges@.len(),
            forall|j: int| 0 <= j < i ==> !names_package(#[trigger] ls[j], name@),
        decreases ranges@.len() - i,
    {
        let (lo, hi) = ranges[i];
        assert(ls[i as int] == s@.subrange(lo as int, hi as int));
        let (tlo, thi) = trim_range(&s, lo, hi);
        if !is_indented(&s, lo, hi) && tlo < thi && eq_range(&s, tlo, thi, &n) {
            assert(names_package(ls[i as int], name@));
            return true;
        }
        i = i + 1;
    }
    false
}

/// Whether `name` is in the package list `contents`: `Ok`, or "Package not found".
pub fn search_package(contents: &str, name: &str) -> (r: Result<(), &'static str>)
    requires
        listing_ok(lines(contents@), name@),
    ensures
        listed(lines(contents@), name@) ==> r == Ok::<(), &'static str>(()),
        !listed(lines(contents@), name@) ==> r == Err::<(), &'static str>("Package not found"),
{
    if is_listed(contents, name) {
        Ok(())
    } else {
        Err("Package not found")
    }
}

/// Whether `name` is installed: one of the words of the container's listing
/// `ls_output` of installed packages, or listed in the installed list
/// `installed`; else "Package not found".
pub fn search_installed(ls_output: &str, installed: &str, name: &str) -> (r: Result<(), &'static str>)
    requires
        !words(ls_output@).contains(name@) ==> listing_ok(lines(installed@), name@),
    ensures
        words(ls_output@).contains(name@) || listed(lines(installed@), name@) ==> r == Ok::<
            (),
            &'static str,
        >(()),
        !words(ls_output@).contains(name@) && !listed(lines(installed@), name@) ==> r == Err::<
            (),
            &'static str,
        >("Package not found"),
{
    let s = to_chars(ls_output);
    let n = to_chars(name);
    let ws = word_ranges(&s, 0, s.len());
    assert(s@.subrange(0, s@.len() as int) =~= s@);
    let mut i: usize = 0;
    while i < ws.len()
        invariant
            s@ == ls_output@,
            n@ == name@,
            s@.subrange(0, s@.len() as int) == s@,
            crate::text::ranges_are_words(s@, 0, s@.len() as int, ws@),
            i <= ws@.len(),
            forall|j: int| 0 <= j < i ==> words(ls_output@)[j] != name@,
        decreases ws@.len() - i,
    {
        let (a, b) = ws[i];
        if eq_range(&s, a, b, &n) {
            assert(words(ls_output@)[i as int] == name@);
            return Ok(());
        }
        i = i + 1;
    }
    search_package(installed, name)
}

/// The link of repository `repo` in a repository config: each line reads
/// `name: link`; the trimmed link of the last line whose trimmed name is
/// `repo`, or nothing.
pub open spec fn repo_link_of(ls: Seq<Seq<char>>, repo: Seq<char>) -> Seq<char>
    decreases ls.len(),
{
    if ls.len() == 0 {
        seq![]
    } else {
        let l = ls.last();
        let k = index_of(l, ':');
        if trim(l.take(k)) == repo {
            trim(l.skip(k + 1))
        } else {
            repo_link_of(ls.drop_last(), repo)
        }
    }
}

/// The link of repository `repo` in the repository config `conf`.
pub fn repo_link(conf: &str, repo: &str) -> (r: String)
    requires
        forall|i: int| 0 <= i < lines(conf@).len() ==> index_of(#[trigger] lines(conf@)[i], ':') >= 0,
    ensures
        r@ == repo_link_of(lines(conf@), repo@),
{
    let s = to_chars(conf);
    let q = to_chars(repo);
    let ranges = line_ranges(&s);
    let ghost ls = lines(s@);
    let mut link = String::new();
    let mut i: usize = 0;
    assert(ls.take(0) =~= seq![]);
    while i < ranges.len()
        invariant
            s@ == conf@,
            q@ == repo@,
            ls == lines(s@),
            forall|j: int| 0 <= j < ls.len() ==> index_of(#[trigger] ls[j], ':') >= 0,
            crate::text::ranges_are_lines(s@, ranges@),
            i <= ranges@.len(),
            link@ == repo_link_of(ls.take(i as int), repo@),
        decreases ranges@.len() - i,
    {
        let (lo, hi) = ranges[i];
        let ghost l = s@.subrange(lo as int, hi as int);
        assert(ls.take(i + 1).drop_last() =~= ls.take(i as int));
        assert(ls.take(i + 1).last() == l);
        assert(ls[i as int] == l);
        let k = match find_char(&s, lo, hi, ':') {
            Some(k) => k,
            None => {
                assert(false);
                0
            },
        };
        assert(l.take(k - lo) =~= s@.subrange(lo as int, k as int));
        assert(l.skip(k - lo + 1) =~= s@.subrange(k + 1, hi as int));
        let (nlo, nhi) = trim_range(&s, lo, k);
        if eq_range(&s, nlo, nhi, &q) {
            let (vlo, vhi) = trim_range(&s, k + 1, hi);
            link = slice_string(conf, vlo, vhi);
        }
        i = i + 1;
    }
    assert(ls.take(ranges@.len() as int) =~= ls);
    link
}

/// The address of file `name` on branch `branch` of a repository at `link`.
pub fn file_url(link: &str, name: &str, branch: &str) -> (r: String)
    ensures
        r@ == link@ + "/"@ + name@ + "/raw?ref="@ + branch@,
{
    let mut r = String::from_str(link);
    r.append("/");
    r.append(name);
    r.append("/raw?ref=");
    r.append(branch);
    r
}

/// The arguments of the `curl` call that fetches file `name` on branch
/// `branch` of repository `repo`, whose link the repository config `conf`
/// declares: `-o name url -l`.
pub fn get_file(conf: &str, name: &str, repo: &str, branch: &str) -> (r: Vec<String>)
    requires
        forall|i: int| 0 <= i < lines(conf@).len() ==> index_of(#[trigger] lines(conf@)[i], ':') >= 0,
    ensures
        texts(r@) == seq![
            "-o"@,
            name@,
            repo_link_of(lines(conf@), repo@) + "/"@ + name@ + "/raw?ref="@ + branch@,
            "-l"@,
        ],
{
    let link = repo_link(conf, repo);
    let url = file_url(link.as_str(), name, branch);
    let mut r: Vec<String> = Vec::new();
    r.push(String::from_str("-o"));
    r.push(String::from_str(name));
    r.push(url);
    r.push(String::from_str("-l"));
    r
}

/// The container command that prepares the dupt root `root` with the script
/// of the project directory `project`.
pub fn mkdupt_command(project: &str, root: &str) -> (r: String)
    ensures
        r@ == "sh "@ + project@ + "/scripts/mkdupt.sh "@ + root@,
{
    let mut r = String::from_str("sh ");
    r.append(project);
    r.append("/scripts/mkdupt.sh ");
    r.append(root);
    r
}

/// The container command that prints the config in the dupt root `root`.
pub fn read_config_command(root: &str) -> (r: String)
    ensures
        r@ == "cat "@ + root@ + "/.dupt/configs/configs.conf"@,
{
    let mut r = String::from_str("cat ");
    r.append(root);
    r.append("/.dupt/configs/configs.conf");
    r
}

/// The container command that writes `config` as the config of the dupt root `root`.
pub fn write_config_command(config: &str, root: &str) -> (r: String)
    ensures
        r@ == "echo "@ + config@ + " > "@ + root@ + "/.dupt/configs/configs.conf"@,
{
    let mut r = String::from_str("echo ");
    r.append(config);
    r.append(" > ");
    r.append(root);
    r.append("/.dupt/configs/configs.conf");
    r
}

/// The container commands that prepare the dupt root `root` with the project
/// directory `project`, in order: create the root with the project's script,
/// then print the root's config.
pub fn prepare_root_commands(project: &str, root: &str) -> (r: Vec<String>)
    ensures
        r@.len() == 2,
        r@[0]@ == "sh "@ + project@ + "/scripts/mkdupt.sh "@ + root@,
        r@[1]@ == "cat "@ + root@ + "/.dupt/configs/configs.conf"@,
{
    let mut r: Vec<String> = Vec::new();
    r.push(mkdupt_command(project, root));
    r.push(read_config_command(root));
    r
}

/// What to run once the root's config `container_config` is known: the
/// command that writes the project's config `config` into the root `root`
/// when the two differ once trimmed, or nothing when they agree.
pub fn config_update(container_config: &str, config: &str, root: &str) -> (r: Option<String>)
    ensures
        trim(container_config@) != trim(config@) ==> (r matches Some(c) && c@ == "echo "@ + config@
            + " > "@ + root@ + "/.dupt/configs/configs.conf"@),
        trim(container_config@) == trim(config@) ==> r is None,
{
    if configs_differ(container_config, config) {
        Some(write_config_command(config, root))
    } else {
        None
    }
}

/// The config in the container differs from the project's, once both are trimmed.
pub fn configs_differ(container_config: &str, config: &str) -> (b: bool)
    ensures
        b == (trim(container_config@) != trim(config@)),
{
    let a = to_chars(container_config);
    let c = to_chars(config);
    let (alo, ahi) = trim_range(&a, 0, a.len());
    let (clo, chi) = trim_range(&c, 0, c.len());
    assert(a@.subrange(0, a@.len() as int) =~= a@);
    assert(c@.subrange(0, c@.len() as int) =~= c@);
    let t = to_chars(config.substring_char(clo, chi));
    !eq_range(&a, alo, ahi, &t)
}

/// The container list `output` shows the container `dupt-fedora`.
pub fn container_listed(output: &str) -> (b: bool)
    ensures
        b == contains(output@, "dupt-fedora"@),
{
    let s = to_chars(output);
    let q = to_chars("dupt-fedora");
    assert(s@.subrange(0, s@.len() as int) =~= s@);
    contains_in(&s, 0, s.len(), &q)
}

/// Index of the first occurrence of `m` in `s`, or -1.
pub open spec fn occurrence(s: Seq<char>, m: Seq<char>) -> int
    decreases s.len(),
{
    if s.len() < m.len() {
        -1
    } else if s.take(m.len() as int) == m {
        0
    } else if s.len() == 0 {
        -1
    } else {
        let r = occurrence(s.drop_first(), m);
        if r < 0 {
            -1
        } else {
            r + 1
        }
    }
}

/// The first piece of `s.split_inclusive(m)`: `s` up to and including the
/// first occurrence of `m`, or all of `s` when `m` does not occur.
pub open spec fn through_first(s: Seq<char>, m: Seq<char>) -> Seq<char> {
    let k = occurrence(s, m);
    if k >= 0 {
        s.take(k + m.len())
    } else {
        s
    }
}

/// `occurrence` is the first place where `m` occurs.
pub proof fn lemma_occurrence(s: Seq<char>, m: Seq<char>, k: int)
    requires
        0 <= k,
        k + m.len() <= s.len(),
        s.subrange(k, k + m.len()) == m,
        forall|j: int| 0 <= j < k ==> !occurs_at(s, m, j),
    ensures
        occurrence(s, m) == k,
    decreases s.len(),
{
    if k == 0 {
        assert(s.take(m.len() as int) =~= s.subrange(0, m.len() as int));
    } else {
        assert(s.take(m.len() as int) =~= s.subrange(0, m.len() as int));
        assert(!occurs_at(s, m, 0));
        let t = s.drop_first();
        assert(t.subrange(k - 1, k - 1 + m.len()) =~= s.subrange(k, k + m.len()));
        assert forall|j: int| 0 <= j < k - 1 implies !occurs_at(t, m, j) by {
            assert(!occurs_at(s, m, j + 1));
            assert(t.subrange(j, j + m.len()) =~= s.subrange(j + 1, j + 1 + m.len()));
        }
        lemma_occurrence(t, m, k - 1);
    }
}

/// `occurrence` is -1 when `m` does not occur.
pub proof fn lemma_no_occurrence(s: Seq<char>, m: Seq<char>)
    requires
        m.len() > 0,
        forall|j: int| !occurs_at(s, m, j),
    ensures
        occurrence(s, m) == -1,
    decreases s.len(),
{
    if s.len() >= m.len() {
        assert(s.take(m.len() as int) =~= s.subrange(0, m.len() as int));
        assert(!occurs_at(s, m, 0));
        let t = s.drop_first();
        assert forall|j: int| !occurs_at(t, m, j) by {
            assert(!occurs_at(s, m, j + 1));
            if 0 <= j && j + m.len() <= t.len() {
                assert(t.subrange(j, j + m.len()) =~= s.subrange(j + 1, j + 1 + m.len()));
            }
        }
        lemma_no_occurrence(t, m);
    }
}

/// `occurrence` is the first place where `m` occurs, or -1 when it does not.
proof fn lemma_occurrence_is_first(s: Seq<char>, m: Seq<char>)
    requires
        m.len() > 0,
    ensures
        occurrence(s, m) >= 0 ==> occurs_at(s, m, occurrence(s, m)) && forall|j: int|
            0 <= j < occurrence(s, m) ==> !#[trigger] occurs_at(s, m, j),
        occurrence(s, m) < 0 ==> forall|j: int| !#[trigger] occurs_at(s, m, j),
    decreases s.len(),
{
    if s.len() < m.len() {
    } else if s.take(m.len() as int) == m {
        assert(s.subrange(0, m.len() as int) =~= s.take(m.len() as int));
    } else {
        let t = s.drop_first();
        lemma_occurrence_is_first(t, m);
        assert(!occurs_at(s, m, 0)) by {
            assert(s.subrange(0, m.len() as int) =~= s.take(m.len() as int));
        }
        assert forall|j: int| 0 <= j && occurs_at(s, m, j + 1) implies occurs_at(t, m, j) by {
            assert(t.subrange(j, j + m.len()) =~= s.subrange(j + 1, j + 1 + m.len()));
        }
        assert forall|j: int| 0 <= j && occurs_at(t, m, j) implies occurs_at(s, m, j + 1) by {
            assert(t.subrange(j, j + m.len()) =~= s.subrange(j + 1, j + 1 + m.len()));
        }
        let r = occurrence(t, m);
        if r >= 0 {
            assert forall|j: int| 0 <= j < r + 1 implies !#[trigger] occurs_at(s, m, j) by {
                if j > 0 {
                    assert(!occurs_at(t, m, j - 1));
                }
            }
        } else {
            assert forall|j: int| !#[trigger] occurs_at(s, m, j) by {
                if j > 0 {
                    assert(!occurs_at(t, m, j - 1));
                }
            }
        }
    }
}

/// The first piece of `s.split_inclusive(m)` runs up to and including the
/// first occurrence of `m`: it is a prefix of `s` that ends with `m`, and `m`
/// ends nowhere earlier in `s`; when `m` does not occur, it is all of `s`.
pub proof fn law_through_first_occurrence(s: Seq<char>, m: Seq<char>)
    requires
        m.len() > 0,
    ensures
        ({
            let r = through_first(s, m);
            &&& (exists|j: int| occurs_at(s, m, j)) ==> {
                &&& r.len() >= m.len()
                &&& r == s.take(r.len() as int)
                &&& occurs_at(s, m, r.len() - m.len())
                &&& forall|j: int| #[trigger] occurs_at(s, m, j) ==> j >= r.len() - m.len()
            }
            &&& !(exists|j: int| occurs_at(s, m, j)) ==> r == s
        }),
{
    lemma_occurrence_is_first(s, m);
    let k = occurrence(s, m);
    if k >= 0 {
        let r = through_first(s, m);
        assert(r.len() == k + m.len());
        assert(r =~= s.take(r.len() as int));
        assert forall|j: int| #[trigger] occurs_at(s, m, j) implies j >= r.len() - m.len() by {
            if j < k {
                assert(!occurs_at(s, m, j));
            }
        }
    }
}

/// `exe` up to and including the first occurrence of `marker`, or all of it.
pub fn prefix_through(exe: &str, marker: &str) -> (r: String)
    requires
        marker@.len() > 0,
    ensures
        r@ == through_first(exe@, marker@),
{
    let s = to_chars(exe);
    let m = to_chars(marker);
    let mut k: usize = 0;
    while m.len() <= s.len() && k <= s.len() - m.len()
        invariant
            s@ == exe@,
            m@ == marker@,
            m@.len() > 0,
            forall|j: int| 0 <= j < k ==> !occurs_at(s@, m@, j),
        decreases s@.len() - k,
    {
        if matches_at(&s, k, &m) {
            proof {
                lemma_occurrence(s@, m@, k as int);
            }
            return slice_string(exe, 0, k + m.len());
        }
        k = k + 1;
    }
    proof {
        assert forall|j: int| !occurs_at(s@, m@, j) by {
            if 0 <= j && j < k {
            }
        }
        lemma_no_occurrence(s@, m@);
    }
    String::from_str(exe)
}

/// `text` cut at the first `sep`: the text before it and the text after it,
/// or `None` when `sep` does not occur (as `str::split_once` cuts).
pub fn split_at_first(text: &str, sep: &str) -> (r: Option<(String, String)>)
    requires
        sep@.len() > 0,
    ensures
        match r {
            Some(p) => {
                let k = occurrence(text@, sep@);
                &&& k >= 0
                &&& p.0@ == text@.take(k)
                &&& p.1@ == text@.skip(k + sep@.len())
            },
            None => occurrence(text@, sep@) < 0,
        },
{
    let s = to_chars(text);
    let m = to_chars(sep);
    let mut k: usize = 0;
    while m.len() <= s.len() && k <= s.len() - m.len()
        invariant
            s@ == text@,
            m@ == sep@,
            m@.len() > 0,
            forall|j: int| 0 <= j < k ==> !occurs_at(s@, m@, j),
        decreases s@.len() - k,
    {
        if matches_at(&s, k, &m) {
            proof {
                lemma_occurrence(s@, m@, k as int);
            }
            let before = slice_string(text, 0, k);
            let after = slice_string(text, k + m.len(), s.len());
            assert(text@.subrange(0, k as int) =~= text@.take(k as int));
            assert(text@.subrange(k + m@.len(), text@.len() as int) =~= text@.skip(k + m@.len()));
            return Some((before, after));
        }
        k = k + 1;
    }
    proof {
        assert forall|j: int| !occurs_at(s@, m@, j) by {
            if 0 <= j && j < k {
            }
        }
        lemma_no_occurrence(s@, m@);
    }
    None
}

/// The project directory of dupt for the executable at `exe`: `exe` up to and
/// including the first `ugs` (the first piece of `split_inclusive("ugs")`).
pub fn get_project_dir(exe: &str) -> (r: String)
    requires
        exe@.len() > 0,
    ensures
        r@ == through_first(exe@, "ugs"@),
{
    proof {
        reveal_strlit("ugs");
    }
    prefix_through(exe, "ugs")
}

/// The dupt root a config file declares: the trimmed value of its last line
/// whose key (the text before its first `:`) is exactly `root_path`, or nothing.
pub open spec fn root_path_of(ls: Seq<Seq<char>>) -> Seq<char>
    decreases ls.len(),
{
    if ls.len() == 0 {
        seq![]
    } else {
        let l = ls.last();
        let k = index_of(l, ':');
        if l.take(k) == "root_path"@ {
            trim(l.skip(k + 1))
        } else {
            root_path_of(ls.drop_last())
        }
    }
}

/// The dupt root the config file `config` declares; every line has a `:`.
pub fn get_root_path(config: &str) -> (r: String)
    requires
        forall|i: int| 0 <= i < lines(config@).len() ==> index_of(#[trigger] lines(config@)[i], ':') >= 0,
    ensures
        r@ == root_path_of(lines(config@)),
{
    let s = to_chars(config);
    let key = to_chars("root_path");
    let ranges = line_ranges(&s);
    let ghost ls = lines(s@);
    let mut root = String::new();
    let mut i: usize = 0;
    assert(ls.take(0) =~= seq![]);
    while i < ranges.len()
        invariant
            s@ == config@,
            key@ == "root_path"@,
            ls == lines(s@),
            forall|j: int| 0 <= j < ls.len() ==> index_of(#[trigger] ls[j], ':') >= 0,
            crate::text::ranges_are_lines(s@, ranges@),
            i <= ranges@.len(),
            root@ == root_path_of(ls.take(i as int)),
        decreases ranges@.len() - i,
    {
        let (lo, hi) = ranges[i];
        let ghost l = s@.subrange(lo as int, hi as int);
        assert(ls.take(i + 1).drop_last() =~= ls.take(i as int));
        assert(ls.take(i + 1).last() == l);
        assert(ls[i as int] == l);
        let k = match find_char(&s, lo, hi, ':') {
            Some(k) => k,
            None => {
                assert(false);
                0
            },
        };
        assert(l.take(k - lo) =~= s@.subrange(lo as int, k as int));
        assert(l.skip(k - lo + 1) =~= s@.subrange(k + 1, hi as int));
        if eq_range(&s, lo, k, &key) {
            let (vlo, vhi) = trim_range(&s, k + 1, hi);
            root = slice_string(config, vlo, vhi);
        }
        i = i + 1;
    }
    assert(ls.take(ranges@.len() as int) =~= ls);
    root
}

/// Line `l` declares the dupt root: its key (the text before its first `:`,
/// not trimmed) is exactly `root_path`, and `k` is where that `:` is.
pub open spec fn declares_root(l: Seq<char>, k: int) -> bool {
    crate::text::first_colon_at(l, k) && l.take(k) == "root_path"@
}

/// The dupt root is the trimmed value of the last line that declares it.
pub proof fn law_root_path_is_last_declaration(ls: Seq<Seq<char>>, i: int, k: int)
    requires
        0 <= i < ls.len(),
        declares_root(ls[i], k),
        forall|j: int, k2: int| i < j < ls.len() ==> !#[trigger] declares_root(ls[j], k2),
        forall|j: int| 0 <= j < ls.len() ==> index_of(#[trigger] ls[j], ':') >= 0,
    ensures
        root_path_of(ls) == trim(ls[i].skip(k + 1)),
    decreases ls.len(),
{
    let l = ls.last();
    crate::text::lemma_first_colon(l);
    assert(index_of(ls[ls.len() - 1], ':') >= 0);
    if i == ls.len() - 1 {
        assert(k == index_of(l, ':'));
    } else {
        assert(!declares_root(ls[ls.len() - 1], index_of(l, ':')));
        assert forall|j: int, k2: int| i < j < ls.drop_last().len() implies !#[trigger] declares_root(ls.drop_last()[j],
            k2,
        ) by {
            assert(ls.drop_last()[j] == ls[j]);
        }
        assert forall|j: int| 0 <= j < ls.drop_last().len() implies index_of(#[trigger] ls.drop_last()[j], ':') >= 0 by {
            assert(ls.drop_last()[j] == ls[j]);
        }
        assert(ls.drop_last()[i] == ls[i]);
        law_root_path_is_last_declaration(ls.drop_last(), i, k);
    }
}

/// Line `l` declares the repository `repo`: its name (the text before its
/// first `:`), trimmed, is `repo`, and `k` is where that `:` is.
pub open spec fn declares_repo(l: Seq<char>, repo: Seq<char>, k: int) -> bool {
    crate::text::first_colon_at(l, k) && trim(l.take(k)) == repo
}

/// The link of a repository is the trimmed value of the last line that
/// declares it.
pub proof fn law_repo_link_is_last_declaration(ls: Seq<Seq<char>>, repo: Seq<char>, i: int, k: int)
    requires
        0 <= i < ls.len(),
        declares_repo(ls[i], repo, k),
        forall|j: int, k2: int| i < j < ls.len() ==> !#[trigger] declares_repo(ls[j], repo, k2),
        forall|j: int| 0 <= j < ls.len() ==> index_of(#[trigger] ls[j], ':') >= 0,
    ensures
        repo_link_of(ls, repo) == trim(ls[i].skip(k + 1)),
    decreases ls.len(),
{
    let l = ls.last();
    crate::text::lemma_first_colon(l);
    assert(index_of(ls[ls.len() - 1], ':') >= 0);
    if i == ls.len() - 1 {
        assert(k == index_of(l, ':'));
    } else {
        assert(!declares_repo(ls[ls.len() - 1], repo, index_of(l, ':')));
        assert forall|j: int, k2: int| i < j < ls.drop_last().len() implies !#[trigger] declares_repo(ls.drop_last()[j],
            repo,
            k2,
        ) by {
            assert(ls.drop_last()[j] == ls[j]);
        }
        assert forall|j: int| 0 <= j < ls.drop_last().len() implies index_of(#[trigger] ls.drop_last()[j], ':') >= 0 by {
            assert(ls.drop_last()[j] == ls[j]);
        }
        assert(ls.drop_last()[i] == ls[i]);
        law_repo_link_is_last_declaration(ls.drop_last(), repo, i, k);
    }
}

/// The container command that deletes the archive of `name` and its unpacked
/// directory, with the dupt root `root` (the directory joined to the name
/// without a `/`).
pub fn clear_archives(root: &str, name: &str) -> (r: String)
    ensures
        r@ == "rm "@ + root@ + "/.dupt/archives"@ + name@ + ".tar.gz "@ + root@ + "/.dupt/archives"@
            + name@ + " -r"@,
{
    let mut r = String::from_str("rm ");
    r.append(root);
    r.append("/.dupt/archives");
    r.append(name);
    r.append(".tar.gz ");
    r.append(root);
    r.append("/.dupt/archives");
    r.append(name);
    r.append(" -r");
    r
}

/// The repository config in the project directory `project`.
pub fn repos_conf_path(project: &str) -> (r: String)
    ensures
        r@ == project@ + "/sources/repos.conf"@,
{
    let mut r = String::from_str(project);
    r.append("/sources/repos.conf");
    r
}

/// The container command that lists the installed package files under the
/// dupt root `root`.
pub fn list_installed_command(root: &str) -> (r: String)
    ensures
        r@ == "ls "@ + root@ + "/.dupt/installed"@,
{
    let mut r = String::from_str("ls ");
    r.append(root);
    r.append("/.dupt/installed");
    r
}

/// The package list in the project directory `project`.
pub fn list_path(project: &str) -> (r: String)
    ensures
        r@ == project@ + "/sources/list.config"@,
{
    let mut r = String::from_str(project);
    r.append("/sources/list.config");
    r
}

/// The installed list in the project directory `project`.
pub fn installed_path(project: &str) -> (r: String)
    ensures
        r@ == project@ + "/sources/installed.config"@,
{
    let mut r = String::from_str(project);
    r.append("/sources/installed.config");
    r
}

} // verus!

//! Where dupt keeps its files.
use vstd::prelude::*;
use crate::libdupt::tools::{prefix_through, root_path_of, through_first};
use crate::text::{
    index_of, is_ws, lines, slice_string, strip_cr, to_chars, trim, trim_end, trim_range, trim_start,
};

verus! {

/// The package list in the project directory `project`.
pub fn list_path(project: &str) -> (r: String)
    ensures
        r@ == project@ + "/sources/list.config"@,
{
    let mut r = String::from_str(project);
    r.append("/sources/list.config");
    r
}

/// The installed list in the project directory `project`.
pub fn installed_path(project: &str) -> (r: String)
    ensures
        r@ == project@ + "/sources/installed.config"@,
{
    let mut r = String::from_str(project);
    r.append("/sources/installed.config");
    r
}

/// The project directory of dupt for the executable at `exe`: `exe` up to and
/// including the first `dupt` (the first piece of `split_inclusive("dupt")`).
pub fn get_project_dir(exe: &str) -> (r: String)
    requires
        exe@.len() > 0,
    ensures
        r@ == through_first(exe@, "dupt"@),
{
    proof {
        reveal_strlit("dupt");
    }
    prefix_through(exe, "dupt")
}

/// The dupt root the config file `config` declares; every line has a `:`.
pub fn get_root_path(config: &str) -> (r: String)
    requires
        forall|i: int| 0 <= i < lines(config@).len() ==> index_of(#[trigger] lines(config@)[i], ':') >= 0,
    ensures
        r@ == root_path_of(lines(config@)),
{
    crate::libdupt::tools::get_root_path(config)
}

/// The config file written when there is none, for the user that `whoami`
/// printed: the dupt root is that user's home directory.
pub fn root_path_line(whoami: &str) -> (r: String)
    ensures
        r@ == "root_path: /home/"@ + trim(whoami@) + "\n"@,
{
    let s = to_chars(whoami);
    let (lo, hi) = trim_range(&s, 0, s.len());
    assert(s@.subrange(0, s@.len() as int) =~= s@);
    let mut r = String::from_str("root_path: /home/");
    r.append(whoami.substring_char(lo, hi));
    r.append("\n");
    r
}

/// The config file in the project directory `project`.
pub fn config_path(project: &str) -> (r: String)
    ensures
        r@ == project@ + "/configs/configs.conf"@,
{
    let mut r = String::from_str(project);
    r.append("/configs/configs.conf");
    r
}

/// The directory of repository lists in the project directory `project`.
pub fn repositories_dir(project: &str) -> (r: String)
    ensures
        r@ == project@ + "/sources/repositories"@,
{
    let mut r = String::from_str(project);
    r.append("/sources/repositories");
    r
}

/// The repository config in the project directory `project`.
pub fn sources_path(project: &str) -> (r: String)
    ensures
        r@ == project@ + "/sources/sources.conf"@,
{
    let mut r = String::from_str(project);
    r.append("/sources/sources.conf");
    r
}

/// `root` followed by `/.dupt/` and `rest`.
pub fn in_root(root: &str, rest: &str) -> (r: String)
    ensures
        r@ == root@ + "/.dupt/"@ + rest@,
{
    let mut r = String::from_str(root);
    r.append("/.dupt/");
    r.append(rest);
    r
}

/// The installed package file of `name` under the dupt root `root`.
pub fn installed_file(root: &str, name: &str) -> (r: String)
    ensures
        r@ == root@ + "/.dupt/installed/"@ + name@,
{
    let mut r = String::from_str(root);
    r.append("/.dupt/installed/");
    r.append(name);
    r
}

/// The archive of `name` under the dupt root `root`.
pub fn archive_file(root: &str, name: &str) -> (r: String)
    ensures
        r@ == root@ + "/.dupt/archives/"@ + name@ + ".tar.gz"@,
{
    let mut r = String::from_str(root);
    r.append("/.dupt/archives/");
    r.append(name);
    r.append(".tar.gz");
    r
}

/// The `PKGINFO.conf` of the unpacked archive of `name` under the dupt root `root`.
pub fn pkginfo_file(root: &str, name: &str) -> (r: String)
    ensures
        r@ == root@ + "/.dupt/archives/"@ + name@ + "/PKGINFO.conf"@,
{
    let mut r = String::from_str(root);
    r.append("/.dupt/archives/");
    r.append(name);
    r.append("/PKGINFO.conf");
    r
}

/// The directory of the built program `name` under the dupt root `root`.
pub fn bin_dir(root: &str, name: &str) -> (r: String)
    ensures
        r@ == root@ + "/.dupt/bin/"@ + name@,
{
    let mut r = String::from_str(root);
    r.append("/.dupt/bin/");
    r.append(name);
    r
}

/// The config file written for a user is read back as that user's home
/// directory: when the trimmed output `u` of `whoami` holds no line break,
/// every line of the config that `root_path_line` writes has a `:`, and the
/// dupt root it declares is `/home/` followed by the trimmed name.
pub proof fn law_root_path_round_trip(u: Seq<char>)
    requires
        forall|j: int| 0 <= j < trim(u).len() ==> trim(u)[j] != '\n',
    ensures
        ({
            let config = "root_path: /home/"@ + trim(u) + "\n"@;
            &&& forall|i: int| 0 <= i < lines(config).len() ==> index_of(#[trigger] lines(config)[i], ':') >= 0
            &&& root_path_of(lines(config)) == "/home/"@ + trim(u)
        }),
{
    reveal_strlit("root_path: /home/");
    reveal_strlit("\n");
    reveal_strlit("root_path");
    reveal_strlit("/home/");
    let t = trim(u);
    let prefix = "root_path: /home/"@;
    let l = prefix + t;
    assert(prefix.len() == 17);
    assert forall|j: int| 0 <= j < l.len() implies l[j] != '\n' by {
        if j >= 17 {
            assert(l[j] == t[j - 17]);
        }
    }
    crate::text::lemma_trim_end_last(trim_start(u));
    assert(l.last() != '\r') by {
        if t.len() > 0 {
            assert(l.last() == t.last());
        } else {
            assert(l.last() == '/');
        }
    }
    assert(strip_cr(l) == l);
    crate::text::lemma_lines_single(l);
    assert("root_path: /home/"@ + t + "\n"@ =~= l + seq!['\n']);
    let ls = lines(l + seq!['\n']);
    assert(ls == seq![l]);
    assert(l[9] == ':');
    assert forall|j: int| 0 <= j < 9 implies l[j] != ':' by {
        assert(l[j] == prefix[j]);
    }
    crate::text::lemma_index_of_at(l, ':', 9);
    assert(l.take(9) =~= "root_path"@);
    let v = l.skip(10);
    let home = "/home/"@ + t;
    assert(v =~= seq![' '] + home);
    assert(v.drop_first() =~= home);
    assert(trim_start(v) == trim_start(home));
    assert(trim_start(home) == home);
    assert(home.len() > 0);
    assert(!is_ws(home.last())) by {
        if t.len() > 0 {
            assert(home.last() == t.last());
        } else {
            assert(home.last() == '/');
        }
    }
    assert(trim_end(home) == home);
    assert(ls.last() == l);
    assert(ls.drop_last() =~= seq![]);
}

} // verus!

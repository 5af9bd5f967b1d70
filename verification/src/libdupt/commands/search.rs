//! The `search` command: the packages of a repository list whose name
//! contains the query, and how they are shown.
use vstd::prelude::*;
use super::Command;
use crate::libdupt::tools::{paint, painted, Shade};
use crate::text::{
    contains, contains_in, eq_range, find_char, head4_ok, index_of, indented, is_indented,
    line_ranges, lines, slice_string, to_chars, trim, trim_range,
};

verus! {

/// Searches the repository lists for packages whose name contains `name`.
pub struct Search {
    pub name: String,
}

impl Default for Search {
    /// A search for `help`.
    fn default() -> (r: Search)
        ensures
            r.name@ == "help"@,
    {
        Search { name: String::from_str("help") }
    }
}

impl Search {
    /// The lines of the help text of `search`.
    pub fn help_text() -> (r: Vec<&'static str>)
        ensures
            r@.len() == 3,
            r@[0]@ == "search:"@,
            r@[1]@ == ""@,
            r@[2]@ == "a command used to search packages"@,
    {
        let mut r: Vec<&'static str> = Vec::new();
        r.push("search:");
        r.push("");
        r.push("a command used to search packages");
        r
    }
}

impl Command for Search {
    /// Every argument list is read.
    open spec fn reads(&self, args: Seq<String>) -> bool {
        true
    }

    /// The first argument is the query; there must be one.
    fn set_from_args(&mut self, args: &Vec<String>) -> (r: Result<(), &'static str>)
        ensures
            args@.len() == 0 ==> r == Err::<(), &'static str>("not enough arguments") && *final(self)
                == *old(self),
            args@.len() > 0 ==> r == Ok::<(), &'static str>(()) && final(self).name@ == args@[0]@,
    {
        if args.len() < 1 {
            return Err("not enough arguments");
        }
        self.name = String::from_str(args[0].as_str());
        Ok(())
    }
}

/// A package of a repository list: its name, version and short description.
pub struct Listing {
    pub name: String,
    pub version: String,
    pub description_short: String,
}

/// The texts of a listing.
pub open spec fn listing_view(l: Listing) -> (Seq<char>, Seq<char>, Seq<char>) {
    (l.name@, l.version@, l.description_short@)
}

/// A repository list read up to some line: whether a matching package is
/// open, its name, version and description so far, and the packages found.
pub ghost struct ScanState {
    pub in_package: bool,
    pub name: Seq<char>,
    pub version: Seq<char>,
    pub description: Seq<char>,
    pub found: Seq<(Seq<char>, Seq<char>, Seq<char>)>,
}

/// The state after reading line `l` when searching for `query`. Blank lines are
/// passed over. A package line (not indented) other than the open package's
/// name closes the open package and records it. A package line whose trimmed
/// text contains `query` opens a package of that name. An indented line
/// `key: value` of an open package sets its `version` or `description_short`.
pub open spec fn scan_step(st: ScanState, l: Seq<char>, query: Seq<char>) -> ScanState {
    if trim(l).len() == 0 {
        st
    } else {
        let st1 = if !indented(l) && trim(l) != st.name && st.in_package {
            ScanState {
                in_package: false,
                name: seq![],
                version: seq![],
                description: seq![],
                found: st.found.push((st.name, st.version, st.description)),
            }
        } else {
            st
        };
        let st2 = if contains(trim(l), query) && !indented(l) {
            ScanState { name: trim(l), in_package: true, ..st1 }
        } else {
            st1
        };
        if indented(l) && st2.in_package {
            let k = index_of(l, ':');
            let key = trim(l.take(k));
            let value = trim(l.skip(k + 1));
            if key == "version"@ {
                ScanState { version: value, ..st2 }
            } else if key == "description_short"@ {
                ScanState { description: value, ..st2 }
            } else {
                st2
            }
        } else {
            st2
        }
    }
}

/// Reading `l` takes only slices that exist: a line that is not blank has its
/// first four bytes end on a char, and an indented line of an open package
/// has a `:`.
pub open spec fn scan_step_ok(st: ScanState, l: Seq<char>, query: Seq<char>) -> bool {
    trim(l).len() == 0 || (head4_ok(l) && (indented(l) && st.in_package ==> index_of(l, ':')
        >= 0))
}

/// The state after reading the lines `ls`.
pub open spec fn scan_fold(ls: Seq<Seq<char>>, query: Seq<char>) -> ScanState
    decreases ls.len(),
{
    if ls.len() == 0 {
        ScanState {
            in_package: false,
            name: seq![],
            version: seq![],
            description: seq![],
            found: seq![],
        }
    } else {
        scan_step(scan_fold(ls.drop_last(), query), ls.last(), query)
    }
}

/// Every line of `ls` is read without a slice that does not exist.
pub open spec fn scan_fold_ok(ls: Seq<Seq<char>>, query: Seq<char>) -> bool
    decreases ls.len(),
{
    if ls.len() == 0 {
        true
    } else {
        scan_fold_ok(ls.drop_last(), query) && scan_step_ok(
            scan_fold(ls.drop_last(), query),
            ls.last(),
            query,
        )
    }
}

/// The packages of a repository list matching `query`: those found while
/// reading it, and the package still open at its end.
pub open spec fn scan_result(ls: Seq<Seq<char>>, query: Seq<char>) -> Seq<
    (Seq<char>, Seq<char>, Seq<char>),
> {
    let st = scan_fold(ls, query);
    if st.in_package {
        st.found.push((st.name, st.version, st.description))
    } else {
        st.found
    }
}

/// Every package found while reading `ls` for `query`, and the package still
/// open, has a name that contains `query`.
proof fn lemma_scan_names_match(ls: Seq<Seq<char>>, query: Seq<char>)
    ensures
        ({
            let st = scan_fold(ls, query);
            &&& st.in_package ==> contains(st.name, query)
            &&& forall|k: int| 0 <= k < st.found.len() ==> contains(#[trigger] st.found[k].0, query)
        }),
    decreases ls.len(),
{
    if ls.len() > 0 {
        lemma_scan_names_match(ls.drop_last(), query);
        let st = scan_fold(ls.drop_last(), query);
        let next = scan_fold(ls, query);
        assert(next == scan_step(st, ls.last(), query));
        assert forall|k: int| 0 <= k < next.found.len() implies contains(#[trigger] next.found[k].0, query) by {
            if k < st.found.len() {
                assert(next.found[k] == st.found[k]);
            }
        }
    }
}

/// `search` lists only packages whose name contains the query: each listing
/// that reading a repository list for `query` gives has such a name.
pub proof fn law_listings_match_query(ls: Seq<Seq<char>>, query: Seq<char>, k: int)
    requires
        0 <= k < scan_result(ls, query).len(),
    ensures
        contains(scan_result(ls, query)[k].0, query),
{
    lemma_scan_names_match(ls, query);
    let st = scan_fold(ls, query);
    if k < st.found.len() {
        assert(scan_result(ls, query)[k] == st.found[k]);
    }
}

/// Some package recorded in `found` has the name `x`.
pub open spec fn names_some(found: Seq<(Seq<char>, Seq<char>, Seq<char>)>, x: Seq<char>) -> bool {
    exists|k: int| 0 <= k < found.len() && #[trigger] found[k].0 == x
}

/// After reading the first `n` lines, every package line among them whose
/// name contains the query is recorded, or is the package still open.
proof fn lemma_scan_keeps_matches(ls: Seq<Seq<char>>, query: Seq<char>, n: int)
    requires
        0 <= n <= ls.len(),
    ensures
        forall|i: int|
            0 <= i < n && !indented(ls[i]) && trim(ls[i]).len() > 0 && contains(trim(#[trigger] ls[i]), query)
                ==> names_some(scan_fold(ls.take(n), query).found, trim(ls[i])) || (scan_fold(
                ls.take(n),
                query,
            ).in_package && scan_fold(ls.take(n), query).name == trim(ls[i])),
    decreases n,
{
    if n > 0 {
        let m = n - 1;
        lemma_scan_keeps_matches(ls, query, m);
        let st = scan_fold(ls.take(m), query);
        let l = ls[m];
        assert(ls.take(n).drop_last() =~= ls.take(m));
        assert(ls.take(n).last() == l);
        let next = scan_fold(ls.take(n), query);
        assert(next == scan_step(st, l, query));
        assert(next.found.len() >= st.found.len());
        assert forall|k: int| 0 <= k < st.found.len() implies next.found[k] == st.found[k] by {}
        assert forall|i: int|
            0 <= i < n && !indented(ls[i]) && trim(ls[i]).len() > 0 && contains(trim(#[trigger] ls[i]), query)
                implies names_some(next.found, trim(ls[i])) || (next.in_package && next.name == trim(ls[i])) by {
            let x = trim(ls[i]);
            if i < m {
                if names_some(st.found, x) {
                    let k = choose|k: int| 0 <= k < st.found.len() && #[trigger] st.found[k].0 == x;
                    assert(next.found[k].0 == x);
                } else {
                    assert(st.in_package && st.name == x);
                    if trim(l).len() != 0 && !indented(l) && trim(l) != st.name {
                        assert(next.found[st.found.len() as int].0 == x);
                    }
                }
            }
        }
    }
}

/// `search` misses no package: every package line that is not indented and
/// not blank and whose trimmed text contains the query gives a listing of
/// that name (a package named exactly as the query included).
pub proof fn law_listings_complete(ls: Seq<Seq<char>>, query: Seq<char>, i: int)
    requires
        0 <= i < ls.len(),
        !indented(ls[i]),
        trim(ls[i]).len() > 0,
        contains(trim(ls[i]), query),
    ensures
        names_some(scan_result(ls, query), trim(ls[i])),
{
    lemma_scan_keeps_matches(ls, query, ls.len() as int);
    assert(ls.take(ls.len() as int) =~= ls);
    let st = scan_fold(ls, query);
    let x = trim(ls[i]);
    if names_some(st.found, x) {
        let k = choose|k: int| 0 <= k < st.found.len() && #[trigger] st.found[k].0 == x;
        assert(scan_result(ls, query)[k].0 == x);
    } else {
        assert(scan_result(ls, query)[st.found.len() as int].0 == x);
    }
}

/// Some indented line of `ls` sets `key` to `v`: its key (the text before its
/// first `:`), trimmed, is `key`, and the text after that `:`, trimmed, is `v`.
pub open spec fn set_by_line(ls: Seq<Seq<char>>, key: Seq<char>, v: Seq<char>) -> bool {
    exists|i: int, c: int|
        0 <= i < ls.len() && indented(ls[i]) && #[trigger] crate::text::first_colon_at(ls[i], c) && trim(
            ls[i].take(c),
        ) == key && trim(ls[i].skip(c + 1)) == v
}

/// A version or short description is empty or set by a line of its key.
pub open spec fn values_from_lines(ls: Seq<Seq<char>>, p: (Seq<char>, Seq<char>, Seq<char>)) -> bool {
    &&& (p.1.len() == 0 || set_by_line(ls, "version"@, p.1))
    &&& (p.2.len() == 0 || set_by_line(ls, "description_short"@, p.2))
}

/// While reading `ls`, every version and short description held comes from a
/// line of its key.
proof fn lemma_scan_values(ls: Seq<Seq<char>>, query: Seq<char>, n: int)
    requires
        scan_fold_ok(ls, query),
        0 <= n <= ls.len(),
    ensures
        ({
            let st = scan_fold(ls.take(n), query);
            &&& values_from_lines(ls, (st.name, st.version, st.description))
            &&& forall|k: int| 0 <= k < st.found.len() ==> values_from_lines(ls, #[trigger] st.found[k])
        }),
    decreases n,
{
    if n > 0 {
        let m = n - 1;
        lemma_scan_values(ls, query, m);
        lemma_scan_fold_ok_take(ls, query, n);
        let st = scan_fold(ls.take(m), query);
        let l = ls[m];
        assert(ls.take(n).drop_last() =~= ls.take(m));
        assert(ls.take(n).last() == l);
        let next = scan_fold(ls.take(n), query);
        assert(next == scan_step(st, l, query));
        assert(scan_step_ok(st, l, query));
        crate::text::lemma_first_colon(l);
        let c = index_of(l, ':');
        if trim(l).len() != 0 && indented(l) && st.in_package {
            assert(c >= 0);
            assert(crate::text::first_colon_at(ls[m], c));
        }
        assert forall|k: int| 0 <= k < next.found.len() implies values_from_lines(ls, #[trigger] next.found[k]) by {
            if k < st.found.len() {
                assert(next.found[k] == st.found[k]);
            }
        }
    }
}

/// The versions and short descriptions that `search` lists are read from
/// lines of their own keys: a listing's version, when not empty, is the
/// value of an indented `version:` line, and its short description the value
/// of an indented `description_short:` line.
pub proof fn law_listing_values_come_from_their_keys(ls: Seq<Seq<char>>, query: Seq<char>, k: int)
    requires
        scan_fold_ok(ls, query),
        0 <= k < scan_result(ls, query).len(),
    ensures
        values_from_lines(ls, scan_result(ls, query)[k]),
{
    lemma_scan_values(ls, query, ls.len() as int);
    assert(ls.take(ls.len() as int) =~= ls);
    let st = scan_fold(ls, query);
    if k < st.found.len() {
        assert(scan_result(ls, query)[k] == st.found[k]);
    }
}

/// A readable prefix of a readable list is readable.
pub proof fn lemma_scan_fold_ok_take(ls: Seq<Seq<char>>, query: Seq<char>, i: int)
    requires
        scan_fold_ok(ls, query),
        0 <= i <= ls.len(),
    ensures
        scan_fold_ok(ls.take(i), query),
    decreases ls.len(),
{
    if i < ls.len() {
        assert(ls.drop_last().take(i) =~= ls.take(i));
        lemma_scan_fold_ok_take(ls.drop_last(), query, i);
    } else {
        assert(ls.take(i) =~= ls);
    }
}


/// Whether searching the repository list `repo_file` for `query` takes only
/// slices that exist.
pub fn scan_ok(repo_file: &str, query: &str) -> (b: bool)
    ensures
        b == scan_fold_ok(lines(repo_file@), query@),
{
    let s = to_chars(repo_file);
    let q = to_chars(query);
    let ranges = line_ranges(&s);
    let ghost ls = lines(s@);
    let mut in_package = false;
    let mut name = String::new();
    let mut i: usize = 0;
    assert(ls.take(0) =~= seq![]);
    while i < ranges.len()
        invariant
            s@ == repo_file@,
            q@ == query@,
            ls == lines(s@),
            crate::text::ranges_are_lines(s@, ranges@),
            i <= ranges@.len(),
            scan_fold_ok(ls.take(i as int), q@),
            scan_fold(ls.take(i as int), q@).in_package == in_package,
            scan_fold(ls.take(i as int), q@).name == name@,
        decreases ranges@.len() - i,
    {
        let (lo, hi) = ranges[i];
        let ghost l = s@.subrange(lo as int, hi as int);
        assert(ls.take(i + 1).drop_last() =~= ls.take(i as int));
        assert(ls.take(i + 1).last() == l);
        let (tlo, thi) = trim_range(&s, lo, hi);
        if tlo < thi {
            if !crate::text::head4_range(&s, lo, hi) {
                proof {
                    if scan_fold_ok(ls, q@) {
                        lemma_scan_fold_ok_take(ls, q@, i + 1);
                    }
                }
                return false;
            }
            let ind = is_indented(&s, lo, hi);
            if ind && in_package {
                if find_char(&s, lo, hi, ':').is_none() {
                    proof {
                        if scan_fold_ok(ls, q@) {
                            lemma_scan_fold_ok_take(ls, q@, i + 1);
                        }
                    }
                    return false;
                }
            }
            let n = to_chars(name.as_str());
            if !ind && !eq_range(&s, tlo, thi, &n) && in_package {
                in_package = false;
                name = String::new();
            }
            if contains_in(&s, tlo, thi, &q) && !ind {
                name = slice_string(repo_file, tlo, thi);
                in_package = true;
            }
        }
        i = i + 1;
    }
    assert(ls.take(ranges@.len() as int) =~= ls);
    true
}

/// The packages of the repository list `repo_file` whose name contains
/// `query`, in the order they are listed.
pub fn find_listings(repo_file: &str, query: &str) -> (r: Vec<Listing>)
    requires
        scan_fold_ok(lines(repo_file@), query@),
    ensures
        r@.map_values(|l: Listing| listing_view(l)) == scan_result(lines(repo_file@), query@),
{
    let s = to_chars(repo_file);
    let q = to_chars(query);
    let ranges = line_ranges(&s);
    let ghost ls = lines(s@);
    let k_version = to_chars("version");
    let k_description = to_chars("description_short");
    let mut in_package = false;
    let mut name = String::new();
    let mut version = String::new();
    let mut description = String::new();
    let mut found: Vec<Listing> = Vec::new();
    let mut i: usize = 0;
    assert(ls.take(0) =~= seq![]);
    assert(found@.map_values(|l: Listing| listing_view(l)) =~= seq![]);
    while i < ranges.len()
        invariant
            s@ == repo_file@,
            q@ == query@,
            ls == lines(s@),
            crate::text::ranges_are_lines(s@, ranges@),
            scan_fold_ok(ls, q@),
            k_version@ == "version"@,
            k_description@ == "description_short"@,
            i <= ranges@.len(),
            scan_fold(ls.take(i as int), q@) == (ScanState {
                in_package,
                name: name@,
                version: version@,
                description: description@,
                found: found@.map_values(|l: Listing| listing_view(l)),
            }),
        decreases ranges@.len() - i,
    {
        let (lo, hi) = ranges[i];
        let ghost l = s@.subrange(lo as int, hi as int);
        proof {
            assert(ls.take(i + 1).drop_last() =~= ls.take(i as int));
            assert(ls.take(i + 1).last() == l);
            lemma_scan_fold_ok_take(ls, q@, i + 1);
        }
        let (tlo, thi) = trim_range(&s, lo, hi);
        if tlo < thi {
            let ind = is_indented(&s, lo, hi);
            let n = to_chars(name.as_str());
            if !ind && !eq_range(&s, tlo, thi, &n) && in_package {
                let ghost old = found@;
                in_package = false;
                found.push(Listing { name, version, description_short: description });
                assert(found@.map_values(|l: Listing| listing_view(l)) =~= old.map_values(
                    |l: Listing| listing_view(l),
                ).push(listing_view(found@.last())));
                name = String::new();
                version = String::new();
                description = String::new();
            }
            if contains_in(&s, tlo, thi, &q) && !ind {
                name = slice_string(repo_file, tlo, thi);
                in_package = true;
            }
            if ind && in_package {
                let sep = match find_char(&s, lo, hi, ':') {
                    Some(k) => k,
                    None => {
                        assert(false);
                        0
                    },
                };
                assert(l.take(sep - lo) =~= s@.subrange(lo as int, sep as int));
                assert(l.skip(sep - lo + 1) =~= s@.subrange(sep + 1, hi as int));
                let (klo, khi) = trim_range(&s, lo, sep);
                let (vlo, vhi) = trim_range(&s, sep + 1, hi);
                if eq_range(&s, klo, khi, &k_version) {
                    version = slice_string(repo_file, vlo, vhi);
                } else if eq_range(&s, klo, khi, &k_description) {
                    description = slice_string(repo_file, vlo, vhi);
                }
            }
        }
        i = i + 1;
    }
    assert(ls.take(ranges@.len() as int) =~= ls);
    if in_package {
        let ghost old = found@;
        found.push(Listing { name, version, description_short: description });
        assert(found@.map_values(|l: Listing| listing_view(l)) =~= old.map_values(
            |l: Listing| listing_view(l),
        ).push(listing_view(found@.last())));
    }
    found
}


/// `n` spaces.
pub open spec fn spaces(n: nat) -> Seq<char> {
    Seq::new(n, |i: int| ' ')
}

/// `text` right-aligned in a field of `width` chars, as `{:>width$}` formats it.
pub open spec fn pad_left(text: Seq<char>, width: int) -> Seq<char> {
    if text.len() < width {
        spaces((width - text.len()) as nat) + text
    } else {
        text
    }
}

/// The colour of short descriptions.
pub open spec fn grey() -> Shade {
    Shade::Rgb(100, 100, 100)
}

/// The two lines that show listing `l` on a terminal `cols` columns wide: the
/// name followed by the version right-aligned in the rest of the width (the
/// name counted in bytes), then the short description in grey.
pub fn render_listing(l: &Listing, cols: usize) -> (r: (String, String))
    requires
        vstd::utf8::encode_utf8(l.name@).len() <= cols,
    ensures
        r.0@ == l.name@ + pad_left(
            l.version@,
            cols - vstd::utf8::encode_utf8(l.name@).len(),
        ),
        r.1@ == painted(grey(), l.description_short@),
{
    let remain = cols - l.name.as_str().len();
    let v = to_chars(l.version.as_str());
    let mut first = String::from_str(l.name.as_str());
    if v.len() < remain {
        let mut k: usize = 0;
        while k < remain - v.len()
            invariant
                v@.len() < remain,
                k <= remain - v@.len(),
                first@ == l.name@ + spaces(k as nat),
            decreases remain - v@.len() - k,
        {
            first.append(" ");
            proof {
                reveal_strlit(" ");
            }
            assert(first@ =~= l.name@ + spaces((k + 1) as nat));
            k = k + 1;
        }
        first.append(l.version.as_str());
        assert(first@ =~= l.name@ + pad_left(l.version@, remain as int));
    } else {
        first.append(l.version.as_str());
    }
    let second = paint(Shade::Rgb(100, 100, 100), l.description_short.as_str());
    (first, second)
}


/// The listings matching `query` in the repository lists `files`, file after file.
pub open spec fn scan_all(files: Seq<Seq<char>>, query: Seq<char>) -> Seq<
    (Seq<char>, Seq<char>, Seq<char>),
>
    decreases files.len(),
{
    if files.len() == 0 {
        seq![]
    } else {
        scan_all(files.drop_last(), query) + scan_result(lines(files.last()), query)
    }
}

impl Search {
    /// The packages of the repository lists `files` (the contents of the
    /// files) whose name contains the query, or "no matching packages".
    pub fn listings(&self, files: &Vec<String>) -> (r: Result<Vec<Listing>, &'static str>)
        requires
            forall|i: int| 0 <= i < files@.len() ==> scan_fold_ok(lines(#[trigger] files@[i]@), self.name@),
        ensures
            ({
                let all = scan_all(files@.map_values(|f: String| f@), self.name@);
                &&& all.len() == 0 ==> r == Err::<Vec<Listing>, &'static str>("no matching packages")
                &&& all.len() > 0 ==> (r matches Ok(v) && v@.map_values(|l: Listing| listing_view(l))
                    == all)
            }),
    {
        let ghost fs = files@.map_values(|f: String| f@);
        let mut all: Vec<Listing> = Vec::new();
        let mut i: usize = 0;
        assert(fs.take(0) =~= seq![]);
        assert(all@.map_values(|l: Listing| listing_view(l)) =~= seq![]);
        while i < files.len()
            invariant
                i <= files@.len(),
                fs == files@.map_values(|f: String| f@),
                forall|j: int| 0 <= j < files@.len() ==> scan_fold_ok(lines(#[trigger] files@[j]@), self.name@),
                all@.map_values(|l: Listing| listing_view(l)) == scan_all(fs.take(i as int), self.name@),
            decreases files@.len() - i,
        {
            assert(fs.take(i + 1).drop_last() =~= fs.take(i as int));
            assert(fs.take(i + 1).last() == files@[i as int]@);
            let found = find_listings(files[i].as_str(), self.name.as_str());
            let ghost before = all@;
            let ghost add = found@;
            let mut found = found;
            all.append(&mut found);
            assert(all@.map_values(|l: Listing| listing_view(l)) =~= before.map_values(
                |l: Listing| listing_view(l),
            ) + add.map_values(|l: Listing| listing_view(l)));
            i = i + 1;
        }
        assert(fs.take(files@.len() as int) =~= fs);
        if all.len() == 0 {
            return Err("no matching packages");
        }
        Ok(all)
    }
}

} // verus!

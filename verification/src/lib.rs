//! dupt: a small package manager. This crate holds its parsing and
//! planning logic, each function with a contract proved by Verus.
pub mod text;
pub mod config;
pub mod package;
pub mod libdupt;
pub mod run;

use vstd::prelude::*;
use crate::package::{entry_text, texts, with_entry, Package};
use crate::text::{
    contains, contains_in, eq_range, find_char, index_of, join, last_index_of, line_ranges, lines, occurs_at,
    rfind_char, slice_string, str_eq, strip_cr, to_chars, trim, trim_range, value_ok,
};

verus! {

/// The lines of `contents` that contain `query`, in order.
pub fn search<'a>(contents: &'a str, query: &str) -> (results: Vec<&'a str>)
    ensures
        results@.map_values(|l: &str| l@) == lines(contents@).filter(
            |l: Seq<char>| contains(l, query@),
        ),
{
    let s = to_chars(contents);
    let q = to_chars(query);
    let ranges = line_ranges(&s);
    let ghost ls = lines(s@);
    let ghost pred = |l: Seq<char>| contains(l, q@);
    let mut results: Vec<&'a str> = Vec::new();
    let mut i: usize = 0;
    while i < ranges.len()
        invariant
            s@ == contents@,
            q@ == query@,
            ls == lines(s@),
            pred == (|l: Seq<char>| contains(l, q@)),
            crate::text::ranges_are_lines(s@, ranges@),
            i <= ranges@.len(),
            results@.map_values(|l: &str| l@) == ls.take(i as int).filter(pred),
        decreases ranges@.len() - i,
    {
        let (lo, hi) = ranges[i];
        let ghost prev = results@;
        assert(ls.take(i + 1).drop_last() =~= ls.take(i as int));
        assert(ls.take(i + 1).last() == s@.subrange(lo as int, hi as int));
        proof {
            reveal_with_fuel(Seq::<_>::filter, 1);
        }
        if contains_in(&s, lo, hi, &q) {
            let line = contents.substring_char(lo, hi);
            results.push(line);
            assert(results@.map_values(|l: &str| l@) =~= prev.map_values(|l: &str| l@).push(
                line@,
            ));
        }
        i = i + 1;
    }
    assert(ls.take(ranges@.len() as int) =~= ls);
    results
}


/// Searching the joined result of a search again gives that result back: for
/// a non-empty query and a text without `\r`, the lines that contain the
/// query, joined with `\n`, have exactly those lines as their lines that
/// contain the query.
pub proof fn law_search_again_keeps_results(contents: Seq<char>, query: Seq<char>)
    requires
        query.len() > 0,
        forall|j: int| 0 <= j < contents.len() ==> contents[j] != '\r',
    ensures
        ({
            let found = lines(contents).filter(|l: Seq<char>| contains(l, query));
            lines(join(found, "\n"@)).filter(|l: Seq<char>| contains(l, query)) == found
        }),
{
    reveal_strlit("\n");
    broadcast use vstd::seq_lib::group_filter_ensures;
    let p = |l: Seq<char>| contains(l, query);
    let ls = lines(contents);
    let found = ls.filter(p);
    crate::text::lemma_lines_no_newline(contents);
    crate::text::lemma_lines_no_cr(contents);
    assert forall|i: int| 0 <= i < found.len() implies #[trigger] p(found[i]) && found[i].len() > 0 by {
        ls.lemma_filter_pred(p, i);
        let k = choose|k: int| occurs_at(found[i], query, k);
        assert(k + query.len() <= found[i].len());
    }
    assert forall|i: int, j: int| 0 <= i < found.len() && 0 <= j < found[i].len() implies found[i][j] != '\n'
        && found[i][j] != '\r' by {
        assert(found.contains(found[i]));
        ls.lemma_filter_contains_rev(p, found[i]);
        let k = choose|k: int| 0 <= k < ls.len() && ls[k] == found[i];
        assert(ls[k][j] == found[i][j]);
    }
    if found.len() > 0 {
        assert(p(found[found.len() - 1]));
    }
    assert("\n"@ =~= seq!['\n']);
    crate::text::lemma_lines_join(found);
    crate::text::lemma_filter_all(found, p);
}

/// What `str::to_lowercase` returns for `s`.
pub uninterp spec fn lowercase(s: Seq<char>) -> Seq<char>;

/// `str::to_lowercase` (std): the Unicode lower-case mapping of `s`. Its result is
/// taken as a function of `s` alone, named `lowercase`; nothing more is claimed.
#[verifier::external_body]
fn to_lowercase(s: &str) -> (r: String)
    ensures
        r@ == lowercase(s@),
{
    s.to_lowercase()
}

/// The name and zip a list line assigns: the text before its last `:` and the
/// text from two chars after it; a line without `:` keeps the previous pair.
pub open spec fn entry_of(l: Seq<char>, name: Seq<char>, zip: Seq<char>) -> (Seq<char>, Seq<char>) {
    let k = last_index_of(l, ':');
    if k >= 0 {
        (l.take(k), l.skip(k + 2))
    } else {
        (name, zip)
    }
}

/// Every `:` of `l` is followed by a one-byte char, so the zip slice after each
/// one can be taken.
pub open spec fn colons_ok(l: Seq<char>) -> bool {
    forall|k: int| 0 <= k < l.len() && l[k] == ':' ==> value_ok(l, k)
}

/// The entry that a scan of the list lines `ls` for `pkg` finds: lines that do
/// not contain `pkg` are passed over; each other line updates the current
/// name and zip, and the scan stops at the first line after which the name
/// equals `low` (the lower-cased query).
pub open spec fn find_entry(
    ls: Seq<Seq<char>>,
    pkg: Seq<char>,
    low: Seq<char>,
    name: Seq<char>,
    zip: Seq<char>,
) -> Option<(Seq<char>, Seq<char>)>
    decreases ls.len(),
{
    if ls.len() == 0 {
        None
    } else if !contains(ls[0], pkg) {
        find_entry(ls.drop_first(), pkg, low, name, zip)
    } else {
        let e = entry_of(ls[0], name, zip);
        if e.0 == low {
            Some(e)
        } else {
            find_entry(ls.drop_first(), pkg, low, e.0, e.1)
        }
    }
}

/// The scan of `find_entry` takes only slices that exist: each line it reads
/// that contains `pkg` has a one-byte char after every `:`.
pub open spec fn find_entry_ok(
    ls: Seq<Seq<char>>,
    pkg: Seq<char>,
    low: Seq<char>,
    name: Seq<char>,
    zip: Seq<char>,
) -> bool
    decreases ls.len(),
{
    if ls.len() == 0 {
        true
    } else if !contains(ls[0], pkg) {
        find_entry_ok(ls.drop_first(), pkg, low, name, zip)
    } else {
        let e = entry_of(ls[0], name, zip);
        colons_ok(ls[0]) && (e.0 == low || find_entry_ok(ls.drop_first(), pkg, low, e.0, e.1))
    }
}

/// Finds the entry of `package` in a package list whose lines read
/// `name: zip`, and returns its name and zip, or "package not found".
/// A line is read only when it contains `package`; the entry is the first such
/// line after which the current name equals `package` in lower case.
pub fn find_package_entry(contents: &str, package: &str) -> (r: Result<(String, String), &'static str>)
    requires
        find_entry_ok(lines(contents@), package@, lowercase(package@), seq![], seq![]),
    ensures
        match find_entry(lines(contents@), package@, lowercase(package@), seq![], seq![]) {
            Some(e) => r matches Ok(p) && p.0@ == e.0 && p.1@ == e.1,
            None => r == Err::<(String, String), &'static str>("package not found"),
        },
{
    let s = to_chars(contents);
    let q = to_chars(package);
    let low_s = to_lowercase(package);
    let low = to_chars(low_s.as_str());
    let ranges = line_ranges(&s);
    let ghost ls = lines(s@);
    let mut name = String::new();
    let mut zip = String::new();
    let mut i: usize = 0;
    assert(ls.skip(0) =~= ls);
    while i < ranges.len()
        invariant
            s@ == contents@,
            q@ == package@,
            low@ == lowercase(package@),
            ls == lines(s@),
            crate::text::ranges_are_lines(s@, ranges@),
            i <= ranges@.len(),
            find_entry(ls, q@, low@, seq![], seq![]) == find_entry(
                ls.skip(i as int),
                q@,
                low@,
                name@,
                zip@,
            ),
            find_entry_ok(ls.skip(i as int), q@, low@, name@, zip@),
        decreases ranges@.len() - i,
    {
        let (lo, hi) = ranges[i];
        let ghost l = s@.subrange(lo as int, hi as int);
        assert(ls.skip(i as int)[0] == l);
        assert(ls.skip(i as int).drop_first() =~= ls.skip(i + 1));
        if contains_in(&s, lo, hi, &q) {
            match rfind_char(&s, lo, hi, ':') {
                Some(k) => {
                    proof {
                        crate::text::lemma_last_index_of(l, ':');
                        assert(l[k - lo] == ':');
                        assert(value_ok(l, k - lo));
                    }
                    name = slice_string(contents, lo, k);
                    zip = slice_string(contents, k + 2, hi);
                    assert(name@ =~= l.take(k - lo));
                    assert(zip@ =~= l.skip(k - lo + 2));
                },
                None => {},
            }
            let n = to_chars(name.as_str());
            if n.len() == low.len() && crate::text::matches_at(&n, 0, &low) {
                assert(n@.subrange(0, low@.len() as int) =~= n@);
                return Ok((name, zip));
            }
            assert(n@.len() == low@.len() ==> n@.subrange(0, low@.len() as int) =~= n@);
        }
        i = i + 1;
    }
    Err("package not found")
}


/// `k` is the position of the last `:` of `l`.
pub open spec fn last_colon_at(l: Seq<char>, k: int) -> bool {
    &&& 0 <= k < l.len()
    &&& l[k] == ':'
    &&& forall|m: int| k < m < l.len() ==> l[m] != ':'
}

/// The last `:` of a line is where `last_index_of` finds it.
proof fn lemma_last_colon(l: Seq<char>)
    ensures
        forall|k: int| last_colon_at(l, k) ==> k == last_index_of(l, ':'),
        last_index_of(l, ':') >= 0 ==> last_colon_at(l, last_index_of(l, ':')),
{
    crate::text::lemma_last_index_of(l, ':');
}

/// The entry that the scan finds, started from a name other than `low`.
proof fn lemma_find_entry_exact(
    ls: Seq<Seq<char>>,
    pkg: Seq<char>,
    low: Seq<char>,
    name: Seq<char>,
    zip: Seq<char>,
)
    requires
        name != low,
    ensures
        find_entry(ls, pkg, low, name, zip) matches Some(e) ==> {
            &&& e.0 == low
            &&& exists|i: int, k: int|
                0 <= i < ls.len() && contains(ls[i], pkg) && #[trigger] last_colon_at(ls[i], k) && ls[i].take(k)
                    == low && e.1 == ls[i].skip(k + 2) && forall|j: int, k2: int|
                    0 <= j < i && contains(ls[j], pkg) && #[trigger] last_colon_at(ls[j], k2) ==> ls[j].take(k2)
                        != low
        },
        (exists|i: int, k: int|
            0 <= i < ls.len() && contains(ls[i], pkg) && #[trigger] last_colon_at(ls[i], k) && ls[i].take(k)
                == low) ==> find_entry(ls, pkg, low, name, zip) is Some,
    decreases ls.len(),
{
    if ls.len() > 0 {
        let l = ls[0];
        let rest = ls.drop_first();
        lemma_last_colon(l);
        let li = last_index_of(l, ':');
        let e0 = entry_of(l, name, zip);
        let next_name = if contains(l, pkg) { e0.0 } else { name };
        let next_zip = if contains(l, pkg) { e0.1 } else { zip };
        if !contains(l, pkg) || e0.0 != low {
            lemma_find_entry_exact(rest, pkg, low, next_name, next_zip);
            assert(find_entry(ls, pkg, low, name, zip) == find_entry(rest, pkg, low, next_name, next_zip));
            if let Some(e) = find_entry(ls, pkg, low, name, zip) {
                let (i, k) = choose|i: int, k: int|
                    0 <= i < rest.len() && contains(rest[i], pkg) && #[trigger] last_colon_at(rest[i], k)
                        && rest[i].take(k) == low && e.1 == rest[i].skip(k + 2) && forall|j: int, k2: int|
                        0 <= j < i && contains(rest[j], pkg) && #[trigger] last_colon_at(rest[j], k2)
                            ==> rest[j].take(k2) != low;
                assert(ls[i + 1] == rest[i]);
                assert(last_colon_at(ls[i + 1], k));
                assert forall|j: int, k2: int|
                    0 <= j < i + 1 && contains(ls[j], pkg) && #[trigger] last_colon_at(ls[j], k2)
                        implies ls[j].take(k2) != low by {
                    if j == 0 {
                        assert(k2 == li);
                    } else {
                        assert(ls[j] == rest[j - 1]);
                        assert(last_colon_at(rest[j - 1], k2));
                    }
                }
            }
            if exists|i: int, k: int|
                0 <= i < ls.len() && contains(ls[i], pkg) && #[trigger] last_colon_at(ls[i], k) && ls[i].take(k)
                    == low {
                let (i, k) = choose|i: int, k: int|
                    0 <= i < ls.len() && contains(ls[i], pkg) && #[trigger] last_colon_at(ls[i], k)
                        && ls[i].take(k) == low;
                if i == 0 {
                    assert(k == li);
                    assert(false);
                }
                assert(rest[i - 1] == ls[i]);
                assert(last_colon_at(rest[i - 1], k));
            }
        } else {
            assert(li >= 0);
            assert(last_colon_at(ls[0], li));
        }
    }
}

/// Looking a package up finds the entry whose name is exactly the lower-cased
/// query: when the scan finds an entry, its name is `low`, and it comes from
/// the first line that contains the query and whose name (the text before
/// its last `:`) is `low`, with the zip after that `:` and its following
/// char; and such a line is always found. (With `low` empty a line without
/// `:` keeps the empty name the scan starts from, so `low` is not empty.)
pub proof fn law_entry_found_is_exact(ls: Seq<Seq<char>>, pkg: Seq<char>, low: Seq<char>)
    requires
        low.len() > 0,
    ensures
        find_entry(ls, pkg, low, seq![], seq![]) matches Some(e) ==> {
            &&& e.0 == low
            &&& exists|i: int, k: int|
                0 <= i < ls.len() && contains(ls[i], pkg) && #[trigger] last_colon_at(ls[i], k) && ls[i].take(k)
                    == low && e.1 == ls[i].skip(k + 2) && forall|j: int, k2: int|
                    0 <= j < i && contains(ls[j], pkg) && #[trigger] last_colon_at(ls[j], k2) ==> ls[j].take(k2)
                        != low
        },
        (exists|i: int, k: int|
            0 <= i < ls.len() && contains(ls[i], pkg) && #[trigger] last_colon_at(ls[i], k) && ls[i].take(k)
                == low) ==> find_entry(ls, pkg, low, seq![], seq![]) is Some,
{
    lemma_find_entry_exact(ls, pkg, low, seq![], seq![]);
}

/// Every `:` of `s[lo..hi]` is followed by a one-byte char.
fn colons_ok_range(s: &Vec<char>, lo: usize, hi: usize) -> (b: bool)
    requires
        lo <= hi <= s@.len(),
    ensures
        b == colons_ok(s@.subrange(lo as int, hi as int)),
{
    let ghost l = s@.subrange(lo as int, hi as int);
    let mut k = lo;
    while k < hi
        invariant
            lo <= k <= hi <= s@.len(),
            l == s@.subrange(lo as int, hi as int),
            forall|j: int| 0 <= j < k - lo && l[j] == ':' ==> value_ok(l, j),
        decreases hi - k,
    {
        if s[k] == ':' && !crate::text::ascii_follows(s, k, hi) {
            assert(l[k - lo] == ':' && !value_ok(l, k - lo));
            return false;
        }
        k = k + 1;
    }
    true
}

/// Whether the scan for `package` (whose lower-case form is `low`) in the
/// package list `contents` reads only lines whose zip slices can be taken.
pub fn entry_scan_ok(contents: &str, package: &str, low: &str) -> (b: bool)
    ensures
        b == find_entry_ok(lines(contents@), package@, low@, seq![], seq![]),
{
    let s = to_chars(contents);
    let q = to_chars(package);
    let lw = to_chars(low);
    let ranges = line_ranges(&s);
    let ghost ls = lines(s@);
    let mut name = String::new();
    let mut zip = String::new();
    let mut i: usize = 0;
    assert(ls.skip(0) =~= ls);
    while i < ranges.len()
        invariant
            s@ == contents@,
            q@ == package@,
            lw@ == low@,
            ls == lines(s@),
            crate::text::ranges_are_lines(s@, ranges@),
            i <= ranges@.len(),
            find_entry_ok(ls, q@, lw@, seq![], seq![]) == find_entry_ok(
                ls.skip(i as int),
                q@,
                lw@,
                name@,
                zip@,
            ),
        decreases ranges@.len() - i,
    {
        let (lo, hi) = ranges[i];
        let ghost l = s@.subrange(lo as int, hi as int);
        assert(ls.skip(i as int)[0] == l);
        assert(ls.skip(i as int).drop_first() =~= ls.skip(i + 1));
        if contains_in(&s, lo, hi, &q) {
            if !colons_ok_range(&s, lo, hi) {
                return false;
            }
            match rfind_char(&s, lo, hi, ':') {
                Some(k) => {
                    proof {
                        crate::text::lemma_last_index_of(l, ':');
                        assert(l[k - lo] == ':');
                        assert(value_ok(l, k - lo));
                    }
                    name = slice_string(contents, lo, k);
                    zip = slice_string(contents, k + 2, hi);
                    assert(name@ =~= l.take(k - lo));
                    assert(zip@ =~= l.skip(k - lo + 2));
                },
                None => {},
            }
            if str_eq(name.as_str(), low) {
                return true;
            }
        }
        i = i + 1;
    }
    assert(ls.skip(ranges@.len() as int) =~= seq![]);
    true
}

/// Looks up `package` in the package list `contents` as `find_package_entry`
/// does, after checking that the lookup takes only slices that exist: `None`
/// when it would take one that does not.
pub fn lookup_package_entry(contents: &str, package: &str) -> (r: Option<
    Result<(String, String), &'static str>,
>)
    ensures
        !find_entry_ok(lines(contents@), package@, lowercase(package@), seq![], seq![]) ==> r
            is None,
        find_entry_ok(lines(contents@), package@, lowercase(package@), seq![], seq![]) ==> match find_entry(
            lines(contents@),
            package@,
            lowercase(package@),
            seq![],
            seq![],
        ) {
            Some(e) => r matches Some(Ok(p)) && p.0@ == e.0 && p.1@ == e.1,
            None => r == Some(Err::<(String, String), &'static str>("package not found")),
        },
{
    let low = to_lowercase(package);
    if entry_scan_ok(contents, package, low.as_str()) {
        Some(find_package_entry(contents, package))
    } else {
        None
    }
}

/// What a package config file has declared after some of its lines have been read.
pub ghost struct PkgState {
    pub in_install: bool,
    pub in_run: bool,
    pub name: Seq<char>,
    pub zip: Seq<char>,
    pub description: Seq<char>,
    pub install: Seq<Seq<char>>,
    pub runnable: bool,
    pub run: Seq<Seq<char>>,
}

/// The state after reading line `l` of a package config file. Inside an
/// `install:` or `run:` block each line, trimmed, is a command, and a line `]`
/// closes the block. Outside a block a line reads `key: value`; the keys `name`,
/// `zip` and `description` set their field to the value, `runnable: true`
/// marks the package runnable, `install` and `run` open a block, and other keys
/// are passed over.
pub open spec fn pkg_step(st: PkgState, l: Seq<char>) -> PkgState {
    if trim(l) == "]"@ && st.in_install {
        PkgState { in_install: false, ..st }
    } else if trim(l) == "]"@ && st.in_run {
        PkgState { in_run: false, ..st }
    } else if st.in_install {
        PkgState { install: st.install.push(trim(l)), ..st }
    } else if st.in_run {
        PkgState { run: st.run.push(trim(l)), ..st }
    } else {
        let k = index_of(l, ':');
        let key = l.take(k);
        let value = l.skip(k + 2);
        if key == "name"@ {
            PkgState { name: value, ..st }
        } else if key == "zip"@ {
            PkgState { zip: value, ..st }
        } else if key == "description"@ {
            PkgState { description: value, ..st }
        } else if key == "install"@ {
            PkgState { in_install: true, ..st }
        } else if key == "runnable"@ {
            if trim(value) == "true"@ {
                PkgState { runnable: true, ..st }
            } else {
                st
            }
        } else if key == "run"@ {
            PkgState { in_run: true, ..st }
        } else {
            st
        }
    }
}

/// Reading line `l` in state `st` takes only slices that exist: outside a
/// block the line has a `:`, and for the keys whose value is read a one-byte
/// char follows it.
pub open spec fn pkg_step_ok(st: PkgState, l: Seq<char>) -> bool {
    if st.in_install || st.in_run {
        true
    } else {
        let k = index_of(l, ':');
        let key = l.take(k);
        &&& k >= 0
        &&& (key == "name"@ || key == "zip"@ || key == "description"@ || key == "runnable"@)
            ==> value_ok(l, k)
    }
}

/// The state after reading the lines `ls` from `init`.
pub open spec fn pkg_fold(ls: Seq<Seq<char>>, init: PkgState) -> PkgState
    decreases ls.len(),
{
    if ls.len() == 0 {
        init
    } else {
        pkg_step(pkg_fold(ls.drop_last(), init), ls.last())
    }
}

/// Every line of `ls` is read without a slice that does not exist.
pub open spec fn pkg_fold_ok(ls: Seq<Seq<char>>, init: PkgState) -> bool
    decreases ls.len(),
{
    if ls.len() == 0 {
        true
    } else {
        pkg_fold_ok(ls.drop_last(), init) && pkg_step_ok(pkg_fold(ls.drop_last(), init), ls.last())
    }
}

/// The state a config file starts from, with the name and zip of its list entry.
pub open spec fn pkg_init(name: Seq<char>, zip: Seq<char>) -> PkgState {
    PkgState {
        in_install: false,
        in_run: false,
        name,
        zip,
        description: seq![],
        install: seq![],
        runnable: false,
        run: seq![],
    }
}

/// A readable prefix of a readable file is readable.
pub proof fn lemma_pkg_fold_ok_take(ls: Seq<Seq<char>>, init: PkgState, i: int)
    requires
        pkg_fold_ok(ls, init),
        0 <= i <= ls.len(),
    ensures
        pkg_fold_ok(ls.take(i), init),
    decreases ls.len(),
{
    if i < ls.len() {
        assert(ls.drop_last().take(i) =~= ls.take(i));
        lemma_pkg_fold_ok_take(ls.drop_last(), init, i);
    } else {
        assert(ls.take(i) =~= ls);
    }
}

/// Whether reading the package config file `pkg_file` takes only slices that
/// exist (the list entry's `name` and `zip` do not matter to it).
pub fn pkg_scan_ok(name: &str, zip: &str, pkg_file: &str) -> (b: bool)
    ensures
        b == pkg_fold_ok(lines(pkg_file@), pkg_init(name@, zip@)),
{
    let ghost init = pkg_init(name@, zip@);
    let s = to_chars(pkg_file);
    let ranges = line_ranges(&s);
    let ghost ls = lines(s@);
    let close = to_chars("]");
    let k_name = to_chars("name");
    let k_zip = to_chars("zip");
    let k_description = to_chars("description");
    let k_install = to_chars("install");
    let k_runnable = to_chars("runnable");
    let k_run = to_chars("run");
    let mut in_install = false;
    let mut in_run = false;
    let mut i: usize = 0;
    assert(ls.take(0) =~= seq![]);
    while i < ranges.len()
        invariant
            s@ == pkg_file@,
            ls == lines(s@),
            init == pkg_init(name@, zip@),
            crate::text::ranges_are_lines(s@, ranges@),
            close@ == "]"@,
            k_name@ == "name"@,
            k_zip@ == "zip"@,
            k_description@ == "description"@,
            k_install@ == "install"@,
            k_runnable@ == "runnable"@,
            k_run@ == "run"@,
            i <= ranges@.len(),
            pkg_fold_ok(ls.take(i as int), init),
            pkg_fold(ls.take(i as int), init).in_install == in_install,
            pkg_fold(ls.take(i as int), init).in_run == in_run,
        decreases ranges@.len() - i,
    {
        let (lo, hi) = ranges[i];
        let ghost l = s@.subrange(lo as int, hi as int);
        assert(ls.take(i + 1).drop_last() =~= ls.take(i as int));
        assert(ls.take(i + 1).last() == l);
        let ghost st = pkg_fold(ls.take(i as int), init);
        proof {
            reveal_strlit("name");
            reveal_strlit("zip");
            reveal_strlit("description");
            reveal_strlit("install");
            reveal_strlit("runnable");
            reveal_strlit("run");
        }
        assert(pkg_fold(ls.take(i + 1), init) == pkg_step(st, l));
        assert(pkg_fold_ok(ls.take(i + 1), init) == pkg_step_ok(st, l));
        let (tlo, thi) = trim_range(&s, lo, hi);
        let is_close = eq_range(&s, tlo, thi, &close);
        if is_close && in_install {
            in_install = false;
        } else if is_close && in_run {
            in_run = false;
        } else if in_install || in_run {
        } else {
            match find_char(&s, lo, hi, ':') {
                None => {
                    proof {
                        if pkg_fold_ok(ls, init) {
                            lemma_pkg_fold_ok_take(ls, init, i + 1);
                        }
                    }
                    return false;
                },
                Some(sep) => {
                    assert(l.take(sep - lo) =~= s@.subrange(lo as int, sep as int));
                    let value_ok_here = crate::text::ascii_follows(&s, sep, hi);
                    proof {
                        let k = sep - lo;
                        assert(index_of(l, ':') == k);
                        if value_ok_here {
                            assert(l[k + 1] == s@[sep + 1]);
                        }
                        assert(value_ok_here == value_ok(l, k));
                    }
                    let fails = if eq_range(&s, lo, sep, &k_name) || eq_range(&s, lo, sep, &k_zip)
                        || eq_range(&s, lo, sep, &k_description) {
                        !value_ok_here
                    } else if eq_range(&s, lo, sep, &k_install) {
                        in_install = true;
                        false
                    } else if eq_range(&s, lo, sep, &k_runnable) {
                        !value_ok_here
                    } else {
                        if eq_range(&s, lo, sep, &k_run) {
                            in_run = true;
                        }
                        false
                    };
                    if fails {
                        proof {
                            if pkg_fold_ok(ls, init) {
                                lemma_pkg_fold_ok_take(ls, init, i + 1);
                            }
                        }
                        return false;
                    }
                },
            }
        }
        assert(pkg_step_ok(st, l));
        i = i + 1;
    }
    assert(ls.take(ranges@.len() as int) =~= ls);
    true
}

/// The package that a config file declares, starting from the `name` and
/// `zip` of its list entry.
pub fn parse_package_file(name: String, zip: String, pkg_file: &str) -> (p: Package)
    requires
        pkg_fold_ok(lines(pkg_file@), pkg_init(name@, zip@)),
    ensures
        ({
            let st = pkg_fold(lines(pkg_file@), pkg_init(name@, zip@));
            &&& p.name@ == st.name
            &&& p.zip@ == st.zip
            &&& p.description@ == st.description
            &&& texts(p.install@) == st.install
            &&& p.runnable == st.runnable
            &&& texts(p.run@) == st.run
        }),
{
    let ghost init = pkg_init(name@, zip@);
    let s = to_chars(pkg_file);
    let ranges = line_ranges(&s);
    let ghost ls = lines(s@);
    let close = to_chars("]");
    let k_name = to_chars("name");
    let k_zip = to_chars("zip");
    let k_description = to_chars("description");
    let k_install = to_chars("install");
    let k_runnable = to_chars("runnable");
    let k_run = to_chars("run");
    let k_true = to_chars("true");
    let mut in_install = false;
    let mut in_run = false;
    let mut name = name;
    let mut zip = zip;
    let mut description = String::new();
    let mut install: Vec<String> = Vec::new();
    let mut runnable = false;
    let mut run: Vec<String> = Vec::new();
    let mut i: usize = 0;
    assert(ls.take(0) =~= seq![]);
    assert(texts(install@) =~= seq![]);
    assert(texts(run@) =~= seq![]);
    while i < ranges.len()
        invariant
            s@ == pkg_file@,
            ls == lines(s@),
            crate::text::ranges_are_lines(s@, ranges@),
            pkg_fold_ok(ls, init),
            close@ == "]"@,
            k_name@ == "name"@,
            k_zip@ == "zip"@,
            k_description@ == "description"@,
            k_install@ == "install"@,
            k_runnable@ == "runnable"@,
            k_run@ == "run"@,
            k_true@ == "true"@,
            i <= ranges@.len(),
            pkg_fold(ls.take(i as int), init) == (PkgState {
                in_install,
                in_run,
                name: name@,
                zip: zip@,
                description: description@,
                install: texts(install@),
                runnable,
                run: texts(run@),
            }),
        decreases ranges@.len() - i,
    {
        let (lo, hi) = ranges[i];
        let ghost l = s@.subrange(lo as int, hi as int);
        let ghost st = pkg_fold(ls.take(i as int), init);
        proof {
            assert(ls.take(i + 1).drop_last() =~= ls.take(i as int));
            assert(ls.take(i + 1).last() == l);
            lemma_pkg_fold_ok_take(ls, init, i + 1);
            assert(pkg_step_ok(st, l));
        }
        let (tlo, thi) = trim_range(&s, lo, hi);
        let is_close = eq_range(&s, tlo, thi, &close);
        if is_close && in_install {
            in_install = false;
        } else if is_close && in_run {
            in_run = false;
        } else if in_install {
            let ghost old = install@;
            install.push(slice_string(pkg_file, tlo, thi));
            assert(texts(install@) =~= texts(old).push(trim(l)));
        } else if in_run {
            let ghost old = run@;
            run.push(slice_string(pkg_file, tlo, thi));
            assert(texts(run@) =~= texts(old).push(trim(l)));
        } else {
            let sep = match find_char(&s, lo, hi, ':') {
                Some(k) => k,
                None => {
                    assert(false);
                    0
                },
            };
            proof {
                assert(l.take(sep - lo) =~= s@.subrange(lo as int, sep as int));
            }
            if eq_range(&s, lo, sep, &k_name) {
                name = slice_string(pkg_file, sep + 2, hi);
                assert(name@ =~= l.skip(sep - lo + 2));
            } else if eq_range(&s, lo, sep, &k_zip) {
                zip = slice_string(pkg_file, sep + 2, hi);
                assert(zip@ =~= l.skip(sep - lo + 2));
            } else if eq_range(&s, lo, sep, &k_description) {
                description = slice_string(pkg_file, sep + 2, hi);
                assert(description@ =~= l.skip(sep - lo + 2));
            } else if eq_range(&s, lo, sep, &k_install) {
                in_install = true;
            } else if eq_range(&s, lo, sep, &k_runnable) {
                let (vlo, vhi) = trim_range(&s, sep + 2, hi);
                assert(l.skip(sep - lo + 2) =~= s@.subrange(sep + 2, hi as int));
                if eq_range(&s, vlo, vhi, &k_true) {
                    runnable = true;
                }
            } else if eq_range(&s, lo, sep, &k_run) {
                in_run = true;
            }
        }
        i = i + 1;
    }
    assert(ls.take(ranges@.len() as int) =~= ls);
    Package { name, zip, description, install, runnable, run }
}


/// The names of a package list: the text of each line before its first `:`.
pub fn list_names(contents: &str) -> (r: Vec<String>)
    requires
        forall|i: int| 0 <= i < lines(contents@).len() ==> index_of(#[trigger] lines(contents@)[i], ':') >= 0,
    ensures
        texts(r@) == lines(contents@).map_values(|l: Seq<char>| l.take(index_of(l, ':'))),
{
    let s = to_chars(contents);
    let ranges = line_ranges(&s);
    let ghost ls = lines(s@);
    let mut r: Vec<String> = Vec::new();
    let mut i: usize = 0;
    while i < ranges.len()
        invariant
            s@ == contents@,
            ls == lines(s@),
            forall|j: int| 0 <= j < ls.len() ==> index_of(#[trigger] ls[j], ':') >= 0,
            crate::text::ranges_are_lines(s@, ranges@),
            i <= ranges@.len(),
            texts(r@) == ls.take(i as int).map_values(|l: Seq<char>| l.take(index_of(l, ':'))),
        decreases ranges@.len() - i,
    {
        let (lo, hi) = ranges[i];
        let ghost l = s@.subrange(lo as int, hi as int);
        assert(ls[i as int] == l);
        let k = match find_char(&s, lo, hi, ':') {
            Some(k) => k,
            None => {
                assert(false);
                0
            },
        };
        let ghost old = r@;
        r.push(slice_string(contents, lo, k));
        assert(l.take(k - lo) =~= s@.subrange(lo as int, k as int));
        assert(texts(r@) =~= texts(old).push(l.take(index_of(l, ':'))));
        assert(ls.take(i + 1).map_values(|l: Seq<char>| l.take(index_of(l, ':'))) =~= ls.take(
            i as int,
        ).map_values(|l: Seq<char>| l.take(index_of(l, ':'))).push(l.take(index_of(l, ':'))));
        i = i + 1;
    }
    assert(ls.take(ranges@.len() as int) =~= ls);
    r
}

/// The commands of the first command line.
pub enum ListCommand {
    Install,
    Remove,
    List,
    ListInstalled,
    Run,
    PkgInfo,
}

/// The command named `p`, if any.
pub open spec fn list_command_of(p: Seq<char>) -> Option<ListCommand> {
    if p == "install"@ {
        Some(ListCommand::Install)
    } else if p == "remove"@ {
        Some(ListCommand::Remove)
    } else if p == "list"@ {
        Some(ListCommand::List)
    } else if p == "listinstalled"@ {
        Some(ListCommand::ListInstalled)
    } else if p == "run"@ {
        Some(ListCommand::Run)
    } else if p == "pkginfo"@ {
        Some(ListCommand::PkgInfo)
    } else {
        None
    }
}

/// The command named `process`, or "invalid command".
pub fn list_command(process: &str) -> (r: Result<ListCommand, &'static str>)
    ensures
        match list_command_of(process@) {
            Some(c) => r == Ok::<ListCommand, &'static str>(c),
            None => r == Err::<ListCommand, &'static str>("invalid command"),
        },
{
    if crate::text::str_eq(process, "install") {
        Ok(ListCommand::Install)
    } else if crate::text::str_eq(process, "remove") {
        Ok(ListCommand::Remove)
    } else if crate::text::str_eq(process, "list") {
        Ok(ListCommand::List)
    } else if crate::text::str_eq(process, "listinstalled") {
        Ok(ListCommand::ListInstalled)
    } else if crate::text::str_eq(process, "run") {
        Ok(ListCommand::Run)
    } else if crate::text::str_eq(process, "pkginfo") {
        Ok(ListCommand::PkgInfo)
    } else {
        Err("invalid command")
    }
}

/// Installing is refused for a package that the installed list holds:
/// "package already installed".
pub fn check_not_installed(found_installed: bool) -> (r: Result<(), &'static str>)
    ensures
        found_installed ==> r == Err::<(), &'static str>("package already installed"),
        !found_installed ==> r == Ok::<(), &'static str>(()),
{
    if found_installed {
        Err("package already installed")
    } else {
        Ok(())
    }
}

/// A scan of list lines ending with an entry line that contains the query
/// and names the package finds an entry, whatever was read before it.
pub proof fn lemma_find_entry_push(
    ls: Seq<Seq<char>>,
    pkg: Seq<char>,
    low: Seq<char>,
    name: Seq<char>,
    zip: Seq<char>,
    e: Seq<char>,
)
    requires
        contains(e, pkg),
        last_index_of(e, ':') >= 0,
        e.take(last_index_of(e, ':')) == low,
    ensures
        find_entry(ls.push(e), pkg, low, name, zip) is Some,
    decreases ls.len(),
{
    let all = ls.push(e);
    if ls.len() == 0 {
        assert(all.drop_first() =~= seq![]);
        assert(all[0] == e);
    } else {
        assert(all[0] == ls[0]);
        assert(all.drop_first() =~= ls.drop_first().push(e));
        let st = entry_of(ls[0], name, zip);
        lemma_find_entry_push(ls.drop_first(), pkg, low, name, zip, e);
        lemma_find_entry_push(ls.drop_first(), pkg, low, st.0, st.1, e);
    }
}

/// Once a package is installed, the installed list holds it: appending the
/// entry `name: zip` to an installed list that is empty or ends a line makes
/// looking up `query` find an entry, when the entry line contains `query`,
/// `name` is `query` in lower case, and `zip` holds no `:`, no line break
/// and does not end with `\r`.
pub proof fn law_installed_package_is_found(
    list: Seq<char>,
    name: Seq<char>,
    zip: Seq<char>,
    query: Seq<char>,
)
    requires
        list.len() == 0 || list.last() == '\n',
        forall|j: int| 0 <= j < name.len() ==> name[j] != '\n',
        forall|j: int| 0 <= j < zip.len() ==> zip[j] != '\n' && zip[j] != ':',
        zip.len() == 0 || zip.last() != '\r',
        contains(entry_text(name, zip), query),
        name == lowercase(query),
    ensures
        find_entry(
            lines(with_entry(list, entry_text(name, zip))),
            query,
            lowercase(query),
            seq![],
            seq![],
        ) is Some,
{
    let e = entry_text(name, zip);
    reveal_strlit(": ");
    assert(": "@.len() == 2 && ": "@[0] == ':' && ": "@[1] == ' ');
    assert(e.len() == name.len() + 2 + zip.len());
    assert forall|j: int| 0 <= j < e.len() implies e[j] != '\n' by {
        if j < name.len() {
            assert(e[j] == name[j]);
        } else if j >= name.len() + 2 {
            assert(e[j] == zip[j - name.len() - 2]);
        } else {
            assert(e[j] == ": "@[j - name.len()]);
        }
    }
    assert(with_entry(list, e) =~= list + (e + seq!['\n']));
    crate::text::lemma_lines_concat(list, e + seq!['\n']);
    crate::text::lemma_lines_single(e);
    assert(e.last() == ' ' || e.last() == zip.last());
    assert(strip_cr(e) == e);
    assert(lines(with_entry(list, e)) =~= lines(list).push(e));
    let k = name.len() as int;
    assert(e[k] == ':');
    assert forall|j: int| k < j < e.len() implies e[j] != ':' by {
        if j >= k + 2 {
            assert(e[j] == zip[j - k - 2]);
        }
    }
    crate::text::lemma_last_index_of(e, ':');
    assert(last_index_of(e, ':') == k);
    assert(e.take(k) =~= name);
    lemma_find_entry_push(lines(list), query, lowercase(query), seq![], seq![], e);
}

} // verus!

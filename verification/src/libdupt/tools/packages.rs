//! Packages in the container: the repository lists, the installed package
//! files and their dependencies.
use vstd::prelude::*;
use crate::libdupt::tools::{
    is_listed, listed, listing_ok, listing_scan_ok, occurrence, prefix_through, split_at_first,
};
use crate::package::texts;
use crate::text::trim_string;
use crate::text::{first_colon_at, lemma_first_colon};
use crate::text::{
    eq_range, find_char, head4_ok, index_of, indented, is_indented, line_ranges, lines,
    slice_string, str_eq, to_chars, trim, trim_range,
};

verus! {

/// Some repository list of `files` has a line naming `name`.
pub open spec fn listed_in_any(files: Seq<Seq<char>>, name: Seq<char>) -> bool {
    exists|i: int| 0 <= i < files.len() && listed(lines(#[trigger] files[i]), name)
}

/// Some repository list names `name` exactly when a line of one of the lists
/// that is not indented is, once trimmed, exactly `name`, and `name` is not
/// empty.
pub proof fn law_listed_in_any_means_exact_name(files: Seq<Seq<char>>, name: Seq<char>)
    ensures
        listed_in_any(files, name) <==> (name.len() > 0 && exists|i: int, j: int|
            0 <= i < files.len() && 0 <= j < lines(files[i]).len() && !indented(lines(files[i])[j])
                && #[trigger] trim(lines(files[i])[j]) == name),
{
    if listed_in_any(files, name) {
        let i = choose|i: int| 0 <= i < files.len() && listed(lines(#[trigger] files[i]), name);
        crate::libdupt::tools::law_listed_means_exact_name(lines(files[i]), name);
        let j = choose|j: int|
            0 <= j < lines(files[i]).len() && !indented(lines(files[i])[j]) && #[trigger] trim(lines(files[i])[j]) == name;
        assert(trim(lines(files[i])[j]) == name);
    }
    if name.len() > 0 && exists|i: int, j: int|
        0 <= i < files.len() && 0 <= j < lines(files[i]).len() && !indented(lines(files[i])[j])
            && #[trigger] trim(lines(files[i])[j]) == name {
        let (i, j) = choose|i: int, j: int|
            0 <= i < files.len() && 0 <= j < lines(files[i]).len() && !indented(lines(files[i])[j])
                && #[trigger] trim(lines(files[i])[j]) == name;
        crate::libdupt::tools::law_listed_means_exact_name(lines(files[i]), name);
        assert(trim(lines(files[i])[j]) == name);
        assert(listed(lines(files[i]), name));
    }
}

/// The search of `files` for `name` reads each list up to the first file that names it.
pub open spec fn files_ok(files: Seq<Seq<char>>, name: Seq<char>) -> bool {
    forall|i: int|
        0 <= i < files.len() && (forall|j: int| 0 <= j < i ==> !listed(lines(#[trigger] files[j]), name))
            ==> listing_ok(lines(#[trigger] files[i]), name)
}

/// Whether some repository list of `files` (the contents of the files) names
/// `name`: `Ok`, or "Package not found".
pub fn search_package(files: &Vec<String>, name: &str) -> (r: Result<(), &'static str>)
    requires
        files_ok(texts(files@), name@),
    ensures
        listed_in_any(texts(files@), name@) ==> r == Ok::<(), &'static str>(()),
        !listed_in_any(texts(files@), name@) ==> r == Err::<(), &'static str>("Package not found"),
{
    let ghost fs = texts(files@);
    let mut i: usize = 0;
    while i < files.len()
        invariant
            fs == texts(files@),
            files_ok(fs, name@),
            i <= files@.len(),
            forall|j: int| 0 <= j < i ==> !listed(lines(#[trigger] fs[j]), name@),
        decreases files@.len() - i,
    {
        assert(fs[i as int] == files@[i as int]@);
        if is_listed(files[i].as_str(), name) {
            return Ok(());
        }
        i = i + 1;
    }
    Err("Package not found")
}

/// Whether the search of the repository lists `files` for `name` takes only
/// slices that exist.
pub fn files_scan_ok(files: &Vec<String>, name: &str) -> (b: bool)
    ensures
        b == files_ok(texts(files@), name@),
{
    let ghost fs = texts(files@);
    let mut i: usize = 0;
    while i < files.len()
        invariant
            fs == texts(files@),
            i <= files@.len(),
            forall|j: int| 0 <= j < i ==> !listed(lines(#[trigger] fs[j]), name@),
            forall|j: int| 0 <= j < i ==> listing_ok(lines(#[trigger] fs[j]), name@),
        decreases files@.len() - i,
    {
        assert(fs[i as int] == files@[i as int]@);
        if !listing_scan_ok(files[i].as_str(), name) {
            return false;
        }
        if is_listed(files[i].as_str(), name) {
            assert forall|k: int|
                0 <= k < fs.len() && (forall|j: int| 0 <= j < k ==> !listed(lines(#[trigger] fs[j]), name@))
                    implies listing_ok(lines(#[trigger] fs[k]), name@) by {
                if k > i {
                    assert(!listed(lines(fs[i as int]), name@));
                }
            }
            return true;
        }
        i = i + 1;
    }
    true
}

/// Whether an installed package file is named `name` trimmed, among the file
/// names `entries`: `Ok`, or "Package not found".
pub fn search_installed(entries: &Vec<String>, name: &str) -> (r: Result<(), &'static str>)
    ensures
        texts(entries@).contains(trim(name@)) ==> r == Ok::<(), &'static str>(()),
        !texts(entries@).contains(trim(name@)) ==> r == Err::<(), &'static str>("Package not found"),
{
    let n = to_chars(name);
    let (lo, hi) = trim_range(&n, 0, n.len());
    assert(n@.subrange(0, n@.len() as int) =~= n@);
    let t = to_chars(name.substring_char(lo, hi));
    let mut i: usize = 0;
    while i < entries.len()
        invariant
            t@ == trim(name@),
            i <= entries@.len(),
            forall|j: int| 0 <= j < i ==> texts(entries@)[j] != trim(name@),
        decreases entries@.len() - i,
    {
        let e = to_chars(entries[i].as_str());
        assert(e@.subrange(0, e@.len() as int) =~= e@);
        if eq_range(&e, 0, e.len(), &t) {
            assert(texts(entries@)[i as int] == trim(name@));
            return Ok(());
        }
        i = i + 1;
    }
    Err("Package not found")
}

/// Reading an installed package file for the list under `key`: whether the
/// list has begun, whether it has ended, and its items so far.
pub open spec fn deps_step(st: (bool, bool, Seq<Seq<char>>), l: Seq<char>, key: Seq<char>) -> (
    bool,
    bool,
    Seq<Seq<char>>,
) {
    let (inside, stopped, items) = st;
    if stopped {
        st
    } else if trim(l) == "]"@ && inside {
        (inside, true, items)
    } else if trim(l) == "]"@ {
        st
    } else if indented(l) && !inside {
        st
    } else if indented(l) && inside {
        (inside, stopped, items.push(trim(l)))
    } else if trim(l.take(index_of(l, ':'))) == key {
        (true, stopped, items)
    } else {
        st
    }
}

/// Reading `l` takes only slices that exist: until the list has ended, a line
/// other than `]` has its first four bytes end on a char, and unless indented a `:`.
pub open spec fn deps_step_ok(st: (bool, bool, Seq<Seq<char>>), l: Seq<char>) -> bool {
    st.1 || trim(l) == "]"@ || (head4_ok(l) && (indented(l) || index_of(l, ':') >= 0))
}

/// The state after reading the lines `ls`.
pub open spec fn deps_fold(ls: Seq<Seq<char>>, key: Seq<char>) -> (bool, bool, Seq<Seq<char>>)
    decreases ls.len(),
{
    if ls.len() == 0 {
        (false, false, seq![])
    } else {
        deps_step(deps_fold(ls.drop_last(), key), ls.last(), key)
    }
}

/// Every line of `ls` is read without a slice that does not exist.
pub open spec fn deps_fold_ok(ls: Seq<Seq<char>>, key: Seq<char>) -> bool
    decreases ls.len(),
{
    if ls.len() == 0 {
        true
    } else {
        deps_fold_ok(ls.drop_last(), key) && deps_step_ok(deps_fold(ls.drop_last(), key), ls.last())
    }
}

/// The items of the list under `key` of an installed package file: the
/// trimmed indented lines after the line whose key is `key`, up to the `]`
/// that ends it.
pub open spec fn deps_under(text: Seq<char>, key: Seq<char>) -> Seq<Seq<char>> {
    deps_fold(lines(text), key).2
}

/// A readable prefix of a readable file is readable.
pub proof fn lemma_deps_fold_ok_take(ls: Seq<Seq<char>>, key: Seq<char>, i: int)
    requires
        deps_fold_ok(ls, key),
        0 <= i <= ls.len(),
    ensures
        deps_fold_ok(ls.take(i), key),
    decreases ls.len(),
{
    if i < ls.len() {
        assert(ls.drop_last().take(i) =~= ls.take(i));
        lemma_deps_fold_ok_take(ls.drop_last(), key, i);
    } else {
        assert(ls.take(i) =~= ls);
    }
}

/// Whether reading the installed package file `pkg_file` for the list under
/// `key` takes only slices that exist.
pub fn deps_scan_ok(pkg_file: &str, key: &str) -> (b: bool)
    ensures
        b == deps_fold_ok(lines(pkg_file@), key@),
{
    let s = to_chars(pkg_file);
    let k = to_chars(key);
    let close = to_chars("]");
    let ranges = line_ranges(&s);
    let ghost ls = lines(s@);
    let mut inside = false;
    let mut stopped = false;
    let mut i: usize = 0;
    assert(ls.take(0) =~= seq![]);
    while i < ranges.len()
        invariant
            s@ == pkg_file@,
            k@ == key@,
            close@ == "]"@,
            ls == lines(s@),
            crate::text::ranges_are_lines(s@, ranges@),
            i <= ranges@.len(),
            deps_fold_ok(ls.take(i as int), key@),
            deps_fold(ls.take(i as int), key@).0 == inside,
            deps_fold(ls.take(i as int), key@).1 == stopped,
        decreases ranges@.len() - i,
    {
        let (lo, hi) = ranges[i];
        let ghost l = s@.subrange(lo as int, hi as int);
        assert(ls.take(i + 1).drop_last() =~= ls.take(i as int));
        assert(ls.take(i + 1).last() == l);
        if !stopped {
            let (tlo, thi) = trim_range(&s, lo, hi);
            let is_close = eq_range(&s, tlo, thi, &close);
            if is_close && inside {
                stopped = true;
            } else if is_close {
            } else {
                if !crate::text::head4_range(&s, lo, hi) {
                    proof {
                        if deps_fold_ok(ls, key@) {
                            lemma_deps_fold_ok_take(ls, key@, i + 1);
                        }
                    }
                    return false;
                }
                if !is_indented(&s, lo, hi) {
                    match find_char(&s, lo, hi, ':') {
                        None => {
                            proof {
                                if deps_fold_ok(ls, key@) {
                                    lemma_deps_fold_ok_take(ls, key@, i + 1);
                                }
                            }
                            return false;
                        },
                        Some(sep) => {
                            assert(l.take(sep - lo) =~= s@.subrange(lo as int, sep as int));
                            let (klo, khi) = trim_range(&s, lo, sep);
                            if eq_range(&s, klo, khi, &k) {
                                inside = true;
                            }
                        },
                    }
                }
            }
        }
        i = i + 1;
    }
    assert(ls.take(ranges@.len() as int) =~= ls);
    true
}

/// Line `l` opens the list under `key`: it is neither `]` nor indented, and
/// its key (the text before its first `:`), trimmed, is exactly `key`.
pub open spec fn opens_list(l: Seq<char>, key: Seq<char>) -> bool {
    &&& trim(l) != "]"@
    &&& !indented(l)
    &&& exists|k: int| #[trigger] first_colon_at(l, k) && trim(l.take(k)) == key
}

/// The items of a list: the indented lines of `block`, trimmed.
pub open spec fn block_items(block: Seq<Seq<char>>) -> Seq<Seq<char>> {
    block.filter(|l: Seq<char>| indented(l)).map_values(|l: Seq<char>| trim(l))
}

/// One more line of a block adds its item when it is indented.
proof fn lemma_block_items_push(ls: Seq<Seq<char>>, a: int, n: int)
    requires
        0 <= a <= n < ls.len(),
    ensures
        block_items(ls.subrange(a, n + 1)) == if indented(ls[n]) {
            block_items(ls.subrange(a, n)).push(trim(ls[n]))
        } else {
            block_items(ls.subrange(a, n))
        },
{
    reveal_with_fuel(Seq::<_>::filter, 1);
    let p = |l: Seq<char>| indented(l);
    let b = ls.subrange(a, n + 1);
    assert(b.drop_last() =~= ls.subrange(a, n));
    assert(b.last() == ls[n]);
    if indented(ls[n]) {
        assert(b.filter(p) == ls.subrange(a, n).filter(p).push(ls[n]));
        assert(block_items(b) =~= block_items(ls.subrange(a, n)).push(trim(ls[n])));
    } else {
        assert(b.filter(p) == ls.subrange(a, n).filter(p));
    }
}

/// Reading the lines up to `n`, all before the line that opens the list,
/// leaves the state as it began.
proof fn lemma_deps_before_block(ls: Seq<Seq<char>>, key: Seq<char>, n: int)
    requires
        deps_fold_ok(ls, key),
        0 <= n <= ls.len(),
        forall|j: int| 0 <= j < n ==> !opens_list(#[trigger] ls[j], key),
    ensures
        deps_fold(ls.take(n), key) == (false, false, Seq::<Seq<char>>::empty()),
    decreases n,
{
    if n > 0 {
        let m = n - 1;
        lemma_deps_before_block(ls, key, m);
        lemma_deps_fold_ok_take(ls, key, n);
        assert(ls.take(n).drop_last() =~= ls.take(m));
        assert(ls.take(n).last() == ls[m]);
        let l = ls[m];
        lemma_first_colon(l);
        assert(!opens_list(l, key));
        if trim(l) != "]"@ && !indented(l) {
            assert(index_of(l, ':') >= 0);
            assert(first_colon_at(l, index_of(l, ':')));
        }
    }
}

/// Reading on from the line that opens the list (at `h`) up to `n`, before
/// any `]`, collects the items of the lines read.
proof fn lemma_deps_in_block(ls: Seq<Seq<char>>, key: Seq<char>, h: int, n: int)
    requires
        deps_fold_ok(ls, key),
        0 <= h < n <= ls.len(),
        opens_list(ls[h], key),
        forall|j: int| 0 <= j < h ==> !opens_list(#[trigger] ls[j], key),
        forall|j: int| h < j < n ==> trim(#[trigger] ls[j]) != "]"@,
    ensures
        deps_fold(ls.take(n), key) == (true, false, block_items(ls.subrange(h + 1, n))),
    decreases n,
{
    let m = n - 1;
    assert(ls.take(n).drop_last() =~= ls.take(m));
    assert(ls.take(n).last() == ls[m]);
    lemma_deps_fold_ok_take(ls, key, n);
    let l = ls[m];
    lemma_first_colon(l);
    if m == h {
        lemma_deps_before_block(ls, key, h);
        let k = choose|k: int| #[trigger] first_colon_at(l, k) && trim(l.take(k)) == key;
        assert(k == index_of(l, ':'));
        reveal_with_fuel(Seq::<_>::filter, 1);
        assert(ls.subrange(h + 1, n) =~= Seq::<Seq<char>>::empty());
        assert(block_items(ls.subrange(h + 1, n)) =~= Seq::<Seq<char>>::empty());
    } else {
        lemma_deps_in_block(ls, key, h, m);
        lemma_block_items_push(ls, h + 1, m);
        assert(trim(l) != "]"@);
    }
}

/// The run dependencies are the list under the first line whose key is
/// `key`: when line `h` is the first to open that list and `e` is the first
/// `]` after it (or the end of the file), the items are exactly the indented
/// lines between them, trimmed. A line whose key differs from `key`, even
/// one that contains it, never opens the list.
pub proof fn law_dependencies_are_the_block(text: Seq<char>, key: Seq<char>, h: int, e: int)
    requires
        deps_fold_ok(lines(text), key),
        0 <= h < e <= lines(text).len(),
        opens_list(lines(text)[h], key),
        forall|j: int| 0 <= j < h ==> !opens_list(#[trigger] lines(text)[j], key),
        forall|j: int| h < j < e ==> trim(#[trigger] lines(text)[j]) != "]"@,
        e < lines(text).len() ==> trim(lines(text)[e]) == "]"@,
    ensures
        deps_under(text, key) == block_items(lines(text).subrange(h + 1, e)),
{
    let ls = lines(text);
    lemma_deps_in_block(ls, key, h, e);
    if e < ls.len() {
        lemma_deps_after_block(ls, key, e, ls.len() as int, block_items(ls.subrange(h + 1, e)));
    }
    assert(ls.take(ls.len() as int) =~= ls);
}

/// Once the list has ended at `e`, nothing more is collected.
proof fn lemma_deps_after_block(ls: Seq<Seq<char>>, key: Seq<char>, e: int, n: int, items: Seq<Seq<char>>)
    requires
        0 <= e < n <= ls.len(),
        trim(ls[e]) == "]"@,
        deps_fold(ls.take(e), key) == (true, false, items),
    ensures
        deps_fold(ls.take(n), key) == (true, true, items),
    decreases n,
{
    let m = n - 1;
    assert(ls.take(n).drop_last() =~= ls.take(m));
    assert(ls.take(n).last() == ls[m]);
    if m > e {
        lemma_deps_after_block(ls, key, e, m, items);
    }
}

/// A file with no line that opens the list under `key` has no items under it.
pub proof fn law_no_dependencies_without_block(text: Seq<char>, key: Seq<char>)
    requires
        deps_fold_ok(lines(text), key),
        forall|j: int| 0 <= j < lines(text).len() ==> !opens_list(#[trigger] lines(text)[j], key),
    ensures
        deps_under(text, key) == Seq::<Seq<char>>::empty(),
{
    let ls = lines(text);
    lemma_deps_before_block(ls, key, ls.len() as int);
    assert(ls.take(ls.len() as int) =~= ls);
}

/// The items of the list under `key` of the installed package file `pkg_file`.
pub fn list_under(pkg_file: &str, key: &str) -> (r: Vec<String>)
    requires
        deps_fold_ok(lines(pkg_file@), key@),
    ensures
        texts(r@) == deps_under(pkg_file@, key@),
{
    let s = to_chars(pkg_file);
    let k = to_chars(key);
    let close = to_chars("]");
    let ranges = line_ranges(&s);
    let ghost ls = lines(s@);
    let mut inside = false;
    let mut items: Vec<String> = Vec::new();
    let mut i: usize = 0;
    assert(ls.take(0) =~= seq![]);
    assert(texts(items@) =~= seq![]);
    assert(ls.take(ranges@.len() as int) =~= ls);
    while i < ranges.len()
        invariant
            ls.take(ranges@.len() as int) == ls,
            s@ == pkg_file@,
            k@ == key@,
            close@ == "]"@,
            ls == lines(s@),
            deps_fold_ok(ls, key@),
            crate::text::ranges_are_lines(s@, ranges@),
            i <= ranges@.len(),
            deps_fold(ls.take(i as int), key@) == (inside, false, texts(items@)),
        ensures
            deps_fold(ls, key@).2 == texts(items@),
        decreases ranges@.len() - i,
    {
        let (lo, hi) = ranges[i];
        let ghost l = s@.subrange(lo as int, hi as int);
        proof {
            assert(ls.take(i + 1).drop_last() =~= ls.take(i as int));
            assert(ls.take(i + 1).last() == l);
            lemma_deps_fold_ok_take(ls, key@, i + 1);
        }
        let (tlo, thi) = trim_range(&s, lo, hi);
        let is_close = eq_range(&s, tlo, thi, &close);
        if is_close && inside {
            proof {
                lemma_deps_stopped(ls, key@, i as int + 1);
            }
            break;
        } else if is_close {
        } else {
            let ind = is_indented(&s, lo, hi);
            if ind && !inside {
            } else if ind && inside {
                let ghost old = items@;
                items.push(slice_string(pkg_file, tlo, thi));
                assert(texts(items@) =~= texts(old).push(trim(l)));
            } else {
                let sep = match find_char(&s, lo, hi, ':') {
                    Some(x) => x,
                    None => {
                        assert(false);
                        0
                    },
                };
                assert(l.take(sep - lo) =~= s@.subrange(lo as int, sep as int));
                let (klo, khi) = trim_range(&s, lo, sep);
                if eq_range(&s, klo, khi, &k) {
                    inside = true;
                }
            }
        }
        i = i + 1;
    }
    items
}

/// Once the list has ended, the rest of the file changes nothing.
pub proof fn lemma_deps_stopped(ls: Seq<Seq<char>>, key: Seq<char>, i: int)
    requires
        0 <= i <= ls.len(),
        deps_fold(ls.take(i), key).1,
    ensures
        deps_fold(ls, key) == deps_fold(ls.take(i), key),
    decreases ls.len() - i,
{
    if i < ls.len() {
        assert(ls.take(i + 1).drop_last() =~= ls.take(i));
        lemma_deps_stopped(ls, key, i + 1);
    } else {
        assert(ls.take(i) =~= ls);
    }
}

/// The run dependencies of the installed package file `pkg_file`.
pub fn get_dependencies(pkg_file: &str) -> (r: Vec<String>)
    requires
        deps_fold_ok(lines(pkg_file@), "dependencies"@),
    ensures
        texts(r@) == deps_under(pkg_file@, "dependencies"@),
{
    list_under(pkg_file, "dependencies")
}

/// The build dependencies of the installed package file `pkg_file`.
pub fn get_make_dependencies(pkg_file: &str) -> (r: Vec<String>)
    requires
        deps_fold_ok(lines(pkg_file@), "make_dependencies"@),
    ensures
        texts(r@) == deps_under(pkg_file@, "make_dependencies"@),
{
    list_under(pkg_file, "make_dependencies")
}

/// The container command that deletes the archive of `name` and its unpacked
/// directory, with the dupt root `root`.
pub fn clear_archives(root: &str, name: &str) -> (r: String)
    ensures
        r@ == "rm "@ + root@ + "/.dupt/archives/"@ + name@ + ".tar.gz "@ + root@
            + "/.dupt/archives/"@ + name@ + " -r"@,
{
    let mut r = String::from_str("rm ");
    r.append(root);
    r.append("/.dupt/archives/");
    r.append(name);
    r.append(".tar.gz ");
    r.append(root);
    r.append("/.dupt/archives/");
    r.append(name);
    r.append(" -r");
    r
}


/// How many times `x` occurs in `s`.
pub open spec fn count(s: Seq<Seq<char>>, x: Seq<char>) -> nat
    decreases s.len(),
{
    if s.len() == 0 {
        0
    } else {
        count(s.drop_last(), x) + if s.last() == x {
            1nat
        } else {
            0nat
        }
    }
}

/// The run dependencies of the installed package files `files`, file after file.
pub open spec fn all_dependencies(files: Seq<Seq<char>>) -> Seq<Seq<char>>
    decreases files.len(),
{
    if files.len() == 0 {
        seq![]
    } else {
        all_dependencies(files.drop_last()) + deps_under(files.last(), "dependencies"@)
    }
}

/// The names of a table of counts.
pub open spec fn count_keys(t: Seq<(String, i32)>) -> Seq<Seq<char>> {
    t.map_values(|e: (String, i32)| e.0@)
}

/// The distinct items of `s`, in the order in which they first occur.
pub open spec fn first_seen(s: Seq<Seq<char>>) -> Seq<Seq<char>>
    decreases s.len(),
{
    if s.len() == 0 {
        seq![]
    } else {
        let f = first_seen(s.drop_last());
        if f.contains(s.last()) {
            f
        } else {
            f.push(s.last())
        }
    }
}

/// `t` counts the items of `s`: each item of `s` has one entry, holding how
/// many times it occurs, and there are no other entries.
pub open spec fn counts_items(t: Seq<(String, i32)>, s: Seq<Seq<char>>) -> bool {
    &&& forall|i: int, j: int| 0 <= i < j < t.len() ==> t[i].0@ != t[j].0@
    &&& forall|i: int| 0 <= i < t.len() ==> #[trigger] t[i].1 == count(s, t[i].0@)
    &&& forall|x: Seq<char>| s.contains(x) <==> count_keys(t).contains(x)
}

/// Adding one more item to the counted items.
proof fn lemma_count_push(s: Seq<Seq<char>>, x: Seq<char>, y: Seq<char>)
    ensures
        count(s.push(x), y) == count(s, y) + if x == y {
            1nat
        } else {
            0nat
        },
{
    assert(s.push(x).drop_last() =~= s);
}

/// An item occurs in `s` exactly when it is counted there.
proof fn lemma_count_contains(s: Seq<Seq<char>>, x: Seq<char>)
    ensures
        s.contains(x) <==> count(s, x) > 0,
    decreases s.len(),
{
    if s.len() > 0 {
        lemma_count_contains(s.drop_last(), x);
        if s.drop_last().contains(x) {
            let k = choose|k: int| 0 <= k < s.drop_last().len() && s.drop_last()[k] == x;
            assert(s[k] == x);
        }
        if s.contains(x) && s.last() != x {
            let k = choose|k: int| 0 <= k < s.len() && s[k] == x;
            assert(k < s.len() - 1);
            assert(s.drop_last()[k] == x);
        }
        if s.last() == x {
            assert(s[s.len() - 1] == x);
        }
    }
}

/// How many installed packages need each run dependency: one entry per
/// dependency named in the files `files`, with how many times it is named.
pub fn get_dependency_count(files: &Vec<String>) -> (r: Vec<(String, i32)>)
    requires
        forall|i: int| 0 <= i < files@.len() ==> deps_fold_ok(lines(#[trigger] files@[i]@), "dependencies"@),
        forall|x: Seq<char>| count(all_dependencies(texts(files@)), x) <= i32::MAX,
    ensures
        counts_items(r@, all_dependencies(texts(files@))),
        count_keys(r@) == first_seen(all_dependencies(texts(files@))),
{
    let ghost fs = texts(files@);
    let mut table: Vec<(String, i32)> = Vec::new();
    let ghost seen: Seq<Seq<char>> = seq![];
    let mut f: usize = 0;
    assert(fs.take(0) =~= seq![]);
    assert(count_keys(table@) =~= seq![]);
    while f < files.len()
        invariant
            fs == texts(files@),
            forall|i: int| 0 <= i < files@.len() ==> deps_fold_ok(lines(#[trigger] files@[i]@), "dependencies"@),
            forall|x: Seq<char>| count(all_dependencies(fs), x) <= i32::MAX,
            f <= files@.len(),
            seen == all_dependencies(fs.take(f as int)),
            counts_items(table@, seen),
            count_keys(table@) == first_seen(seen),
        decreases files@.len() - f,
    {
        assert(fs.take(f + 1).drop_last() =~= fs.take(f as int));
        assert(fs.take(f + 1).last() == files@[f as int]@);
        let items = list_under(files[f].as_str(), "dependencies");
        let ghost target = all_dependencies(fs.take(f + 1));
        assert(target == seen + texts(items@));
        let mut k: usize = 0;
        while k < items.len()
            invariant
                fs == texts(files@),
                forall|x: Seq<char>| count(all_dependencies(fs), x) <= i32::MAX,
                f < files@.len(),
                target == all_dependencies(fs.take(f + 1)),
                k <= items@.len(),
                target == all_dependencies(fs.take(f as int)) + texts(items@),
                seen == all_dependencies(fs.take(f as int)) + texts(items@).take(k as int),
                counts_items(table@, seen),
                count_keys(table@) == first_seen(seen),
            decreases items@.len() - k,
        {
            proof {
                assert(target.take(seen.len() + 1 as int) =~= seen.push(items@[k as int]@));
            }
            let x = &items[k];
            let mut p: usize = 0;
            while p < table.len() && !str_eq(table[p].0.as_str(), x.as_str())
                invariant
                    p <= table@.len(),
                    forall|q: int| 0 <= q < p ==> table@[q].0@ != x@,
                decreases table@.len() - p,
            {
                p = p + 1;
            }
            let found = p < table.len();
            let ghost old_table = table@;
            let ghost old_seen = seen;
            proof {
                seen = seen.push(x@);
                assert forall|y: Seq<char>| count(seen, y) == count(old_seen, y) + if x@ == y {
                    1nat
                } else {
                    0nat
                } by {
                    lemma_count_push(old_seen, x@, y);
                }
                lemma_count_contains(old_seen, x@);
                lemma_count_contains(seen, x@);
            }
            if found {
                let c = table[p].1;
                assert(count(seen, x@) <= i32::MAX) by {
                    let whole = all_dependencies(fs);
                    lemma_count_prefix_le(fs, f as int + 1);
                    assert(seen =~= target.take(seen.len() as int));
                    lemma_count_prefix_seq(target, seen.len() as int, x@);
                    lemma_count_prefix_seq(whole, target.len() as int, x@);
                }
                let e = (String::from_str(table[p].0.as_str()), c + 1);
                table.set(p, e);
                proof {
                    assert(count_keys(table@) =~= count_keys(old_table));
                    assert(count_keys(old_table)[p as int] == x@);
                    assert(seen.drop_last() == old_seen);
                    assert(first_seen(old_seen).contains(x@));
                    assert(first_seen(seen) == first_seen(old_seen));
                    assert forall|y: Seq<char>| seen.contains(y) <==> count_keys(table@).contains(y) by {
                        lemma_count_contains(seen, y);
                        lemma_count_contains(old_seen, y);
                        assert(count_keys(old_table)[p as int] == x@);
                    }
                }
            } else {
                table.push((String::from_str(x.as_str()), 1));
                proof {
                    assert(!count_keys(old_table).contains(x@)) by {
                        if count_keys(old_table).contains(x@) {
                            let q = choose|q: int| 0 <= q < old_table.len() && count_keys(old_table)[q] == x@;
                            assert(old_table[q].0@ == x@);
                        }
                    }
                    assert(count(old_seen, x@) == 0);
                    assert(count_keys(table@) =~= count_keys(old_table).push(x@));
                    assert(seen.drop_last() == old_seen);
                    assert(first_seen(seen) == first_seen(old_seen).push(x@));
                    assert forall|y: Seq<char>| seen.contains(y) <==> count_keys(table@).contains(y) by {
                        lemma_count_contains(seen, y);
                        lemma_count_contains(old_seen, y);
                        if y != x@ && count_keys(table@).contains(y) {
                            let q = choose|q: int| 0 <= q < table@.len() && count_keys(table@)[q] == y;
                            assert(q < old_table.len());
                            assert(count_keys(old_table)[q] == y);
                        }
                        if y == x@ {
                            assert(count_keys(table@)[old_table.len() as int] == y);
                        }
                        if count_keys(old_table).contains(y) {
                            let q = choose|q: int| 0 <= q < old_table.len() && count_keys(old_table)[q] == y;
                            assert(count_keys(table@)[q] == y);
                        }
                    }
                }
            }
            assert(texts(items@).take(k + 1) =~= texts(items@).take(k as int).push(x@));
            k = k + 1;
        }
        assert(texts(items@).take(items@.len() as int) =~= texts(items@));
        f = f + 1;
    }
    assert(fs.take(files@.len() as int) =~= fs);
    table
}

/// Counting in a prefix of the files counts no more than in all of them.
proof fn lemma_count_prefix_le(fs: Seq<Seq<char>>, n: int)
    requires
        0 <= n <= fs.len(),
    ensures
        all_dependencies(fs.take(n)).len() <= all_dependencies(fs).len(),
        all_dependencies(fs.take(n)) == all_dependencies(fs).take(all_dependencies(fs.take(n)).len() as int),
    decreases fs.len() - n,
{
    if n < fs.len() {
        lemma_count_prefix_le(fs, n + 1);
        assert(fs.take(n + 1).drop_last() =~= fs.take(n));
        let a = all_dependencies(fs.take(n));
        let b = all_dependencies(fs.take(n + 1));
        assert(b == a + deps_under(fs.take(n + 1).last(), "dependencies"@));
        assert(b.take(a.len() as int) =~= a);
        let whole = all_dependencies(fs);
        assert(whole.take(a.len() as int) =~= b.take(a.len() as int));
    } else {
        assert(fs.take(n) =~= fs);
        assert(all_dependencies(fs).take(all_dependencies(fs).len() as int) =~= all_dependencies(fs));
    }
}

/// A prefix counts an item no more often than the whole.
proof fn lemma_count_prefix_seq(s: Seq<Seq<char>>, n: int, x: Seq<char>)
    requires
        0 <= n <= s.len(),
    ensures
        count(s.take(n), x) <= count(s, x),
    decreases s.len() - n,
{
    if n < s.len() {
        lemma_count_prefix_seq(s, n + 1, x);
        assert(s.take(n + 1).drop_last() =~= s.take(n));
    } else {
        assert(s.take(n) =~= s);
    }
}

/// What `get_unused_dependencies` gives for the count table `t` and the
/// dependencies `deps` of the package being removed: entry after entry, the
/// trimmed name of each entry counted at most once, as many times as `deps`
/// lists it.
pub open spec fn unused_from(t: Seq<(String, i32)>, deps: Seq<Seq<char>>) -> Seq<Seq<char>>
    decreases t.len(),
{
    if t.len() == 0 {
        seq![]
    } else {
        let e = t.last();
        unused_from(t.drop_last(), deps) + if e.1 > 1 {
            seq![]
        } else {
            Seq::new(count(deps, e.0@), |i: int| trim(e.0@))
        }
    }
}

/// The dependencies of a package that no other installed package needs,
/// given how many installed packages need each dependency (`counts`) and the
/// package's own dependencies (`deps`).
pub fn get_unused_dependencies(counts: &Vec<(String, i32)>, deps: &Vec<String>) -> (r: Vec<String>)
    ensures
        texts(r@) == unused_from(counts@, texts(deps@)),
{
    let ghost ds = texts(deps@);
    let mut r: Vec<String> = Vec::new();
    let mut i: usize = 0;
    assert(counts@.take(0) =~= seq![]);
    while i < counts.len()
        invariant
            ds == texts(deps@),
            i <= counts@.len(),
            texts(r@) == unused_from(counts@.take(i as int), ds),
        decreases counts@.len() - i,
    {
        let key = &counts[i].0;
        let n = counts[i].1;
        let ghost before = texts(r@);
        let ghost item = trim(key@);
        let mut j: usize = 0;
        assert(ds.take(0) =~= seq![]);
        assert(texts(r@) =~= before + Seq::new(0, |q: int| item));
        while j < deps.len()
            invariant
                ds == texts(deps@),
                j <= deps@.len(),
                item == trim(key@),
                texts(r@) == before + Seq::new(
                    if n > 1 {
                        0nat
                    } else {
                        count(ds.take(j as int), key@)
                    },
                    |q: int| item,
                ),
            decreases deps@.len() - j,
        {
            let ghost prev = texts(r@);
            assert(ds.take(j + 1).drop_last() =~= ds.take(j as int));
            if str_eq(deps[j].as_str(), key.as_str()) && n <= 1 {
                let t = trim_string(key.as_str());
                r.push(t);
                assert(texts(r@) =~= prev.push(item));
            }
            let ghost m: nat = if n > 1 {
                0nat
            } else {
                count(ds.take(j + 1), key@)
            };
            assert(texts(r@) =~= before + Seq::new(m, |q: int| item));
            j = j + 1;
        }
        assert(ds.take(deps@.len() as int) =~= ds);
        assert(counts@.take(i + 1).drop_last() =~= counts@.take(i as int));
        assert(counts@.take(i + 1).last() == counts@[i as int]);
        i = i + 1;
    }
    assert(counts@.take(counts@.len() as int) =~= counts@);
    r
}

/// Each name that `get_unused_dependencies` gives back is, trimmed, the name of
/// an entry of the count table that is counted at most once and that the
/// package itself depends on.
pub proof fn law_unused_are_own_and_unshared(t: Seq<(String, i32)>, deps: Seq<Seq<char>>, k: int)
    requires
        0 <= k < unused_from(t, deps).len(),
    ensures
        exists|i: int|
            0 <= i < t.len() && t[i].1 <= 1 && deps.contains(#[trigger] t[i].0@) && unused_from(
                t,
                deps,
            )[k] == trim(t[i].0@),
    decreases t.len(),
{
    let rest = unused_from(t.drop_last(), deps);
    if k < rest.len() {
        law_unused_are_own_and_unshared(t.drop_last(), deps, k);
        let i = choose|i: int|
            0 <= i < t.drop_last().len() && t.drop_last()[i].1 <= 1 && deps.contains(
                #[trigger] t.drop_last()[i].0@,
            ) && rest[k] == trim(t.drop_last()[i].0@);
        assert(t[i] == t.drop_last()[i]);
    } else {
        let i = t.len() - 1;
        let e = t.last();
        lemma_count_contains(deps, e.0@);
        assert(t[i] == e);
    }
}

/// An entry of the count table that is counted at most once and that `deps`
/// names has its trimmed name given back.
proof fn lemma_unused_includes(t: Seq<(String, i32)>, deps: Seq<Seq<char>>, i: int)
    requires
        0 <= i < t.len(),
        t[i].1 <= 1,
        deps.contains(t[i].0@),
    ensures
        unused_from(t, deps).contains(trim(t[i].0@)),
    decreases t.len(),
{
    let rest = unused_from(t.drop_last(), deps);
    let x = trim(t[i].0@);
    if i < t.len() - 1 {
        assert(t.drop_last()[i] == t[i]);
        lemma_unused_includes(t.drop_last(), deps, i);
        let k = choose|k: int| 0 <= k < rest.len() && rest[k] == x;
        assert(unused_from(t, deps)[k] == rest[k]);
    } else {
        lemma_count_contains(deps, t[i].0@);
        assert(t.last() == t[i]);
        assert(unused_from(t, deps)[rest.len() as int] == x);
    }
}

/// Removing a package removes exactly the dependencies that no other installed
/// package needs: when `t` counts the dependencies `all` of the installed
/// packages and the package's own dependencies `deps` are among them, a name
/// is given back exactly when it is, trimmed, one of `deps` that the installed
/// packages name at most once.
pub proof fn law_unused_are_the_unshared(
    t: Seq<(String, i32)>,
    all: Seq<Seq<char>>,
    deps: Seq<Seq<char>>,
    x: Seq<char>,
)
    requires
        counts_items(t, all),
        forall|d: Seq<char>| deps.contains(d) ==> all.contains(d),
    ensures
        unused_from(t, deps).contains(x) <==> exists|d: Seq<char>|
            #[trigger] deps.contains(d) && count(all, d) <= 1 && x == trim(d),
{
    let r = unused_from(t, deps);
    if r.contains(x) {
        let k = choose|k: int| 0 <= k < r.len() && r[k] == x;
        law_unused_are_own_and_unshared(t, deps, k);
        let i = choose|i: int|
            0 <= i < t.len() && t[i].1 <= 1 && deps.contains(#[trigger] t[i].0@) && r[k] == trim(t[i].0@);
        assert(t[i].1 == count(all, t[i].0@));
        assert(deps.contains(t[i].0@) && count(all, t[i].0@) <= 1 && x == trim(t[i].0@));
    }
    if exists|d: Seq<char>| #[trigger] deps.contains(d) && count(all, d) <= 1 && x == trim(d) {
        let d = choose|d: Seq<char>| #[trigger] deps.contains(d) && count(all, d) <= 1 && x == trim(d);
        assert(all.contains(d));
        assert(count_keys(t).contains(d));
        let i = choose|i: int| 0 <= i < count_keys(t).len() && count_keys(t)[i] == d;
        assert(t[i].0@ == d);
        assert(t[i].1 == count(all, d));
        lemma_unused_includes(t, deps, i);
    }
}

/// The dependencies of one installed package file are among those of all of them.
proof fn lemma_file_deps_in_all(files: Seq<Seq<char>>, p: int, d: Seq<char>)
    requires
        0 <= p < files.len(),
        deps_under(files[p], "dependencies"@).contains(d),
    ensures
        all_dependencies(files).contains(d),
    decreases files.len(),
{
    let front = all_dependencies(files.drop_last());
    let own = deps_under(files.last(), "dependencies"@);
    assert(all_dependencies(files) == front + own);
    if p < files.len() - 1 {
        assert(files.drop_last()[p] == files[p]);
        lemma_file_deps_in_all(files.drop_last(), p, d);
        let k = choose|k: int| 0 <= k < front.len() && front[k] == d;
        assert((front + own)[k] == d);
    } else {
        let k = choose|k: int| 0 <= k < own.len() && own[k] == d;
        assert((front + own)[front.len() + k] == d);
    }
}

/// Removing the installed package whose file is `files[p]` removes exactly
/// its dependencies that no installed package but it needs: with `t` the count
/// of the dependencies of the installed package files `files`, a name is given
/// back exactly when it is, trimmed, a dependency of `files[p]` that the
/// installed packages name once.
pub proof fn law_removal_frees_unshared(t: Seq<(String, i32)>, files: Seq<Seq<char>>, p: int, x: Seq<char>)
    requires
        counts_items(t, all_dependencies(files)),
        0 <= p < files.len(),
    ensures
        unused_from(t, deps_under(files[p], "dependencies"@)).contains(x) <==> exists|d: Seq<char>|
            #[trigger] deps_under(files[p], "dependencies"@).contains(d) && count(
                all_dependencies(files),
                d,
            ) == 1 && x == trim(d),
{
    let all = all_dependencies(files);
    let deps = deps_under(files[p], "dependencies"@);
    assert forall|d: Seq<char>| deps.contains(d) implies all.contains(d) by {
        lemma_file_deps_in_all(files, p, d);
    }
    law_unused_are_the_unshared(t, all, deps, x);
    assert forall|d: Seq<char>| #[trigger] deps.contains(d) implies count(all, d) >= 1 by {
        lemma_count_contains(all, d);
    }
}

/// The repositories a sources file declares: each line that is not blank reads
/// `name: link`, cut at its first `:`; name and link are trimmed, and a later
/// line for a name replaces an earlier one.
pub open spec fn repos_of(ls: Seq<Seq<char>>) -> Map<Seq<char>, Seq<char>>
    decreases ls.len(),
{
    if ls.len() == 0 {
        Map::empty()
    } else {
        let m = repos_of(ls.drop_last());
        let l = ls.last();
        if trim(l).len() == 0 {
            m
        } else {
            let k = index_of(l, ':');
            m.insert(trim(l.take(k)), trim(l.skip(k + 1)))
        }
    }
}

/// The names that the lines `ls` of a sources file declare, line after line.
pub open spec fn repo_names(ls: Seq<Seq<char>>) -> Seq<Seq<char>>
    decreases ls.len(),
{
    if ls.len() == 0 {
        seq![]
    } else {
        let n = repo_names(ls.drop_last());
        let l = ls.last();
        if trim(l).len() == 0 {
            n
        } else {
            n.push(trim(l.take(index_of(l, ':'))))
        }
    }
}

/// The names of a table of pairs, in order.
pub open spec fn pair_names(t: Seq<(String, String)>) -> Seq<Seq<char>> {
    t.map_values(|e: (String, String)| e.0@)
}

/// Line `l` of a sources file declares the repository `name`: it is not
/// blank, and its name (the text before its first `:`, at `k`), trimmed, is `name`.
pub open spec fn declares_source(l: Seq<char>, name: Seq<char>, k: int) -> bool {
    trim(l).len() != 0 && crate::text::first_colon_at(l, k) && trim(l.take(k)) == name
}

/// The repositories of a sources file without its last line.
proof fn lemma_sources_front(ls: Seq<Seq<char>>)
    requires
        ls.len() > 0,
        sources_ok(ls),
    ensures
        sources_ok(ls.drop_last()),
        trim(ls.last()).len() == 0 || index_of(ls.last(), ':') >= 0,
{
    assert(trim(ls[ls.len() - 1]).len() == 0 || index_of(ls[ls.len() - 1], ':') >= 0);
    assert forall|i: int| 0 <= i < ls.drop_last().len() implies trim(#[trigger] ls.drop_last()[i]).len() == 0
        || index_of(ls.drop_last()[i], ':') >= 0 by {
        assert(ls.drop_last()[i] == ls[i]);
        assert(trim(ls[i]).len() == 0 || index_of(ls[i], ':') >= 0);
    }
}

/// A repository's link is the trimmed value (the text after the first `:`)
/// of the last line that declares it, whatever earlier lines said.
pub proof fn law_repos_last_declaration_wins(ls: Seq<Seq<char>>, name: Seq<char>, i: int, k: int)
    requires
        sources_ok(ls),
        0 <= i < ls.len(),
        declares_source(ls[i], name, k),
        forall|j: int, k2: int| i < j < ls.len() ==> !#[trigger] declares_source(ls[j], name, k2),
    ensures
        repos_of(ls).dom().contains(name),
        repos_of(ls)[name] == trim(ls[i].skip(k + 1)),
    decreases ls.len(),
{
    let l = ls.last();
    lemma_sources_front(ls);
    crate::text::lemma_first_colon(l);
    if i == ls.len() - 1 {
        assert(k == index_of(l, ':'));
    } else {
        if trim(l).len() != 0 {
            assert(!declares_source(ls[ls.len() - 1], name, index_of(l, ':')));
        }
        assert forall|j: int, k2: int| i < j < ls.drop_last().len() implies !#[trigger] declares_source(
            ls.drop_last()[j],
            name,
            k2,
        ) by {
            assert(ls.drop_last()[j] == ls[j]);
        }
        assert(ls.drop_last()[i] == ls[i]);
        law_repos_last_declaration_wins(ls.drop_last(), name, i, k);
    }
}

/// Only repositories that some line declares are read.
pub proof fn law_repos_only_declared(ls: Seq<Seq<char>>, name: Seq<char>)
    requires
        sources_ok(ls),
        forall|j: int, k: int| 0 <= j < ls.len() ==> !#[trigger] declares_source(ls[j], name, k),
    ensures
        !repos_of(ls).dom().contains(name),
    decreases ls.len(),
{
    if ls.len() > 0 {
        let l = ls.last();
        lemma_sources_front(ls);
        crate::text::lemma_first_colon(l);
        if trim(l).len() != 0 {
            assert(!declares_source(ls[ls.len() - 1], name, index_of(l, ':')));
        }
        assert forall|j: int, k: int| 0 <= j < ls.drop_last().len() implies !#[trigger] declares_source(
            ls.drop_last()[j],
            name,
            k,
        ) by {
            assert(ls.drop_last()[j] == ls[j]);
        }
        law_repos_only_declared(ls.drop_last(), name);
    }
}

/// Each non-blank line of a sources file holds a `:`.
pub open spec fn sources_ok(ls: Seq<Seq<char>>) -> bool {
    forall|i: int|
        0 <= i < ls.len() ==> trim(#[trigger] ls[i]).len() == 0 || index_of(ls[i], ':') >= 0
}

/// No two entries of a table of pairs have the same name.
pub open spec fn names_distinct(t: Seq<(String, String)>) -> bool {
    forall|i: int, j: int| 0 <= i < j < t.len() ==> t[i].0@ != t[j].0@
}

/// The map from name to value that a table of pairs stands for.
pub open spec fn pairs_map(t: Seq<(String, String)>) -> Map<Seq<char>, Seq<char>>
    decreases t.len(),
{
    if t.len() == 0 {
        Map::empty()
    } else {
        pairs_map(t.drop_last()).insert(t.last().0@, t.last().1@)
    }
}

/// The map of a table holds exactly its names, each with its entry's value.
proof fn lemma_pairs_map(t: Seq<(String, String)>)
    requires
        names_distinct(t),
    ensures
        forall|x: Seq<char>|
            #![trigger pairs_map(t).dom().contains(x)]
            pairs_map(t).dom().contains(x) <==> exists|p: int| 0 <= p < t.len() && t[p].0@ == x,
        forall|p: int| 0 <= p < t.len() ==> #[trigger] pairs_map(t)[t[p].0@] == t[p].1@,
    decreases t.len(),
{
    if t.len() > 0 {
        let d = t.drop_last();
        lemma_pairs_map(d);
        assert forall|x: Seq<char>| pairs_map(t).dom().contains(x) <==> exists|p: int| 0 <= p < t.len() && t[p].0@ == x by {
            if pairs_map(d).dom().contains(x) {
                let p = choose|p: int| 0 <= p < d.len() && d[p].0@ == x;
                assert(t[p] == d[p]);
            }
            if exists|p: int| 0 <= p < t.len() && t[p].0@ == x {
                let p = choose|p: int| 0 <= p < t.len() && t[p].0@ == x;
                if p < d.len() {
                    assert(d[p] == t[p]);
                }
            }
        }
        assert forall|p: int| 0 <= p < t.len() implies #[trigger] pairs_map(t)[t[p].0@] == t[p].1@ by {
            if p < d.len() {
                assert(d[p] == t[p]);
                assert(t[p].0@ != t.last().0@);
                assert(pairs_map(d)[d[p].0@] == d[p].1@);
            } else {
                assert(t[p] == t.last());
            }
        }
    }
}

/// Replacing the value of an entry replaces it in the map.
proof fn lemma_pairs_map_update(t: Seq<(String, String)>, p: int, e: (String, String))
    requires
        names_distinct(t),
        0 <= p < t.len(),
        e.0@ == t[p].0@,
    ensures
        pairs_map(t.update(p, e)) =~= pairs_map(t).insert(e.0@, e.1@),
    decreases t.len(),
{
    let u = t.update(p, e);
    let d = t.drop_last();
    if p == t.len() - 1 {
        assert(u.drop_last() =~= d);
    } else {
        assert(u.drop_last() =~= d.update(p, e));
        lemma_pairs_map_update(d, p, e);
        assert(t.last().0@ != t[p].0@);
        assert(u.last() == t.last());
    }
}

/// The repositories declared in the sources file `source_file`, one entry per
/// name.
pub fn get_repos(source_file: &str) -> (r: Vec<(String, String)>)
    requires
        sources_ok(lines(source_file@)),
    ensures
        names_distinct(r@),
        pairs_map(r@) == repos_of(lines(source_file@)),
        pair_names(r@) == first_seen(repo_names(lines(source_file@))),
{
    let s = to_chars(source_file);
    let ranges = line_ranges(&s);
    let ghost ls = lines(s@);
    let mut repos: Vec<(String, String)> = Vec::new();
    let mut i: usize = 0;
    assert(ls.take(0) =~= seq![]);
    assert(pairs_map(repos@) =~= Map::empty());
    while i < ranges.len()
        invariant
            s@ == source_file@,
            ls == lines(s@),
            sources_ok(ls),
            crate::text::ranges_are_lines(s@, ranges@),
            i <= ranges@.len(),
            names_distinct(repos@),
            pairs_map(repos@) == repos_of(ls.take(i as int)),
            pair_names(repos@) == first_seen(repo_names(ls.take(i as int))),
        decreases ranges@.len() - i,
    {
        let (lo, hi) = ranges[i];
        let ghost l = s@.subrange(lo as int, hi as int);
        assert(ls.take(i + 1).drop_last() =~= ls.take(i as int));
        assert(ls.take(i + 1).last() == l);
        assert(ls[i as int] == l);
        let (tlo, thi) = trim_range(&s, lo, hi);
        if tlo < thi {
            let k = match find_char(&s, lo, hi, ':') {
                Some(k) => k,
                None => {
                    assert(false);
                    0
                },
            };
            assert(l.take(k - lo) =~= s@.subrange(lo as int, k as int));
            assert(l.skip(k - lo + 1) =~= s@.subrange(k + 1, hi as int));
            let (nlo, nhi) = trim_range(&s, lo, k);
            let (vlo, vhi) = trim_range(&s, k + 1, hi);
            let name = slice_string(source_file, nlo, nhi);
            let link = slice_string(source_file, vlo, vhi);
            let mut p: usize = 0;
            while p < repos.len() && !str_eq(repos[p].0.as_str(), name.as_str())
                invariant
                    p <= repos@.len(),
                    forall|q: int| 0 <= q < p ==> repos@[q].0@ != name@,
                decreases repos@.len() - p,
            {
                p = p + 1;
            }
            let ghost old = repos@;
            let ghost names_before = repo_names(ls.take(i as int));
            assert(repo_names(ls.take(i + 1)) == names_before.push(name@));
            assert(names_before.push(name@).drop_last() == names_before);
            if p < repos.len() {
                proof {
                    lemma_pairs_map_update(old, p as int, (name, link));
                    assert(pair_names(old)[p as int] == name@);
                    assert(first_seen(names_before).contains(name@));
                    assert(first_seen(names_before.push(name@)) == first_seen(names_before));
                }
                repos.set(p, (name, link));
                assert(old.update(p as int, (name, link)) == repos@);
                assert(pair_names(repos@) =~= pair_names(old));
                assert forall|a: int, b: int| 0 <= a < b < repos@.len() implies repos@[a].0@ != repos@[b].0@ by {
                    assert(old[a].0@ != old[b].0@);
                }
            } else {
                proof {
                    if first_seen(names_before).contains(name@) {
                        let q = choose|q: int| 0 <= q < pair_names(old).len() && pair_names(old)[q] == name@;
                        assert(old[q].0@ == name@);
                    }
                }
                repos.push((name, link));
                assert(repos@.drop_last() =~= old);
                assert(pair_names(repos@) =~= pair_names(old).push(name@));
                assert(first_seen(names_before.push(name@)) == first_seen(names_before).push(name@));
            }
        } else {
            assert(trim(l).len() == 0);
            assert(repo_names(ls.take(i + 1)) == repo_names(ls.take(i as int)));
        }
        i = i + 1;
    }
    assert(ls.take(ranges@.len() as int) =~= ls);
    repos
}

/// Where a file is fetched from: `link` cut at its first `||`, with the
/// package name `name` set between the two parts.
pub open spec fn fetch_url(link: Seq<char>, name: Seq<char>) -> Seq<char> {
    let k = occurrence(link, "||"@);
    link.take(k) + name + link.skip(k + 2)
}

/// The arguments of the `curl` call that fetches package `name` of repository
/// `repo` into the file `output`: `-o output url -l`.
pub fn get_file(repos: &Vec<(String, String)>, name: &str, output: &str, repo: &str) -> (r: Vec<String>)
    requires
        names_distinct(repos@),
        pairs_map(repos@).dom().contains(repo@),
        occurrence(pairs_map(repos@)[repo@], "||"@) >= 0,
    ensures
        texts(r@) == seq!["-o"@, output@, fetch_url(pairs_map(repos@)[repo@], name@), "-l"@],
{
    proof {
        lemma_pairs_map(repos@);
        reveal_strlit("||");
    }
    let mut p: usize = 0;
    while p < repos.len() && !str_eq(repos[p].0.as_str(), repo)
        invariant
            p <= repos@.len(),
            forall|q: int| 0 <= q < p ==> repos@[q].0@ != repo@,
        decreases repos@.len() - p,
    {
        p = p + 1;
    }
    if p == repos.len() {
        assert(false);
    }
    let link = repos[p].1.as_str();
    let (before, after) = match split_at_first(link, "||") {
        Some(parts) => parts,
        None => {
            assert(false);
            (String::new(), String::new())
        },
    };
    let mut url = before;
    url.append(name);
    url.append(after.as_str());
    let mut r: Vec<String> = Vec::new();
    r.push(String::from_str("-o"));
    r.push(String::from_str(output));
    r.push(url);
    r.push(String::from_str("-l"));
    r
}

} // verus!

//! Character-level text handling: lines, trimming, substring search and
//! splitting, stated over `Seq<char>` and proved.
use vstd::prelude::*;

verus! {

/// The characters of `s`, in order.
pub fn to_chars(s: &str) -> (v: Vec<char>)
    ensures
        v@ == s@,
{
    let mut v: Vec<char> = Vec::new();
    for c in it: s.chars()
        invariant
            v@ == it.seq().take(it.index() as int),
            it.seq() == s@,
    {
        v.push(c);
    }
    v
}


/// `c` has the Unicode White_Space property, which is what `char::is_whitespace`
/// tests and what `str::trim` removes.
pub open spec fn is_ws(c: char) -> bool {
    let u = c as u32;
    ||| 0x09 <= u <= 0x0D
    ||| u == 0x20
    ||| u == 0x85
    ||| u == 0xA0
    ||| u == 0x1680
    ||| 0x2000 <= u <= 0x200A
    ||| u == 0x2028
    ||| u == 0x2029
    ||| u == 0x202F
    ||| u == 0x205F
    ||| u == 0x3000
}

/// `s` without its leading whitespace.
pub open spec fn trim_start(s: Seq<char>) -> Seq<char>
    decreases s.len(),
{
    if s.len() > 0 && is_ws(s[0]) {
        trim_start(s.drop_first())
    } else {
        s
    }
}

/// `s` without its trailing whitespace.
pub open spec fn trim_end(s: Seq<char>) -> Seq<char>
    decreases s.len(),
{
    if s.len() > 0 && is_ws(s.last()) {
        trim_end(s.drop_last())
    } else {
        s
    }
}

/// `s` without leading and trailing whitespace.
pub open spec fn trim(s: Seq<char>) -> Seq<char> {
    trim_end(trim_start(s))
}

/// `c` is whitespace.
pub fn is_whitespace(c: char) -> (b: bool)
    ensures
        b == is_ws(c),
{
    let u = c as u32;
    (0x09 <= u && u <= 0x0D) || u == 0x20 || u == 0x85 || u == 0xA0 || u == 0x1680
        || (0x2000 <= u && u <= 0x200A) || u == 0x2028 || u == 0x2029 || u == 0x202F
        || u == 0x205F || u == 0x3000
}

/// The bounds of `s[lo..hi]` once leading whitespace is skipped.
pub fn trim_start_range(s: &Vec<char>, lo: usize, hi: usize) -> (a: usize)
    requires
        lo <= hi <= s@.len(),
    ensures
        lo <= a <= hi,
        s@.subrange(a as int, hi as int) == trim_start(s@.subrange(lo as int, hi as int)),
{
    let mut a = lo;
    while a < hi && is_whitespace(s[a])
        invariant
            lo <= a <= hi <= s@.len(),
            trim_start(s@.subrange(a as int, hi as int)) == trim_start(
                s@.subrange(lo as int, hi as int),
            ),
        decreases hi - a,
    {
        assert(s@.subrange(a as int, hi as int).drop_first() =~= s@.subrange(
            a + 1,
            hi as int,
        ));
        a = a + 1;
    }
    if a < hi {
        assert(!is_ws(s@.subrange(a as int, hi as int)[0]));
    }
    a
}

/// The bounds of `s[lo..hi]` once trailing whitespace is dropped.
pub fn trim_end_range(s: &Vec<char>, lo: usize, hi: usize) -> (b: usize)
    requires
        lo <= hi <= s@.len(),
    ensures
        lo <= b <= hi,
        s@.subrange(lo as int, b as int) == trim_end(s@.subrange(lo as int, hi as int)),
{
    let mut b = hi;
    while b > lo && is_whitespace(s[b - 1])
        invariant
            lo <= b <= hi <= s@.len(),
            trim_end(s@.subrange(lo as int, b as int)) == trim_end(
                s@.subrange(lo as int, hi as int),
            ),
        decreases b - lo,
    {
        assert(s@.subrange(lo as int, b as int).drop_last() =~= s@.subrange(
            lo as int,
            b - 1,
        ));
        b = b - 1;
    }
    if b > lo {
        assert(!is_ws(s@.subrange(lo as int, b as int).last()));
    }
    b
}

/// The bounds of `trim(s[lo..hi])`.
pub fn trim_range(s: &Vec<char>, lo: usize, hi: usize) -> (r: (usize, usize))
    requires
        lo <= hi <= s@.len(),
    ensures
        lo <= r.0 <= r.1 <= hi,
        s@.subrange(r.0 as int, r.1 as int) == trim(s@.subrange(lo as int, hi as int)),
{
    let a = trim_start_range(s, lo, hi);
    let b = trim_end_range(s, a, hi);
    (a, b)
}


/// The text of `s` without its leading and trailing whitespace.
pub fn trim_string(s: &str) -> (r: String)
    ensures
        r@ == trim(s@),
{
    let v = to_chars(s);
    let (lo, hi) = trim_range(&v, 0, v.len());
    assert(v@.subrange(0, v@.len() as int) =~= v@);
    slice_string(s, lo, hi)
}

/// Index of the first `c` in `s`, or -1 when `s` holds none.
pub open spec fn index_of(s: Seq<char>, c: char) -> int
    decreases s.len(),
{
    if s.len() == 0 {
        -1
    } else if s[0] == c {
        0
    } else {
        let r = index_of(s.drop_first(), c);
        if r < 0 {
            -1
        } else {
            r + 1
        }
    }
}

/// What `index_of` returns, pinned down by the positions of `c`.
pub proof fn lemma_index_of(s: Seq<char>, c: char)
    ensures
        -1 <= index_of(s, c) < s.len(),
        index_of(s, c) >= 0 ==> s[index_of(s, c)] == c,
        forall|j: int| 0 <= j < s.len() && (index_of(s, c) < 0 || j < index_of(s, c)) ==> s[j] != c,
    decreases s.len(),
{
    if s.len() > 0 && s[0] != c {
        lemma_index_of(s.drop_first(), c);
        assert forall|j: int| 0 <= j < s.len() && (index_of(s, c) < 0 || j < index_of(s, c)) implies s[j] != c by {
            if j > 0 {
                assert(s[j] == s.drop_first()[j - 1]);
            }
        }
    }
}

/// `index_of` is the first position holding `c`.
pub proof fn lemma_index_of_at(s: Seq<char>, c: char, k: int)
    requires
        0 <= k < s.len(),
        s[k] == c,
        forall|j: int| 0 <= j < k ==> s[j] != c,
    ensures
        index_of(s, c) == k,
{
    lemma_index_of(s, c);
}

/// `index_of` is -1 when no position holds `c`.
pub proof fn lemma_index_of_none(s: Seq<char>, c: char)
    requires
        forall|j: int| 0 <= j < s.len() ==> s[j] != c,
    ensures
        index_of(s, c) == -1,
{
    lemma_index_of(s, c);
}

/// `l` without one trailing carriage return.
pub open spec fn strip_cr(l: Seq<char>) -> Seq<char> {
    if l.len() > 0 && l.last() == '\r' {
        l.drop_last()
    } else {
        l
    }
}

/// The lines of `s`, as `str::lines` yields them: pieces ended by `\n`, each
/// without its `\n` and without a `\r` just before it; a last piece with no
/// `\n` is kept as it is, and a trailing `\n` starts no empty line.
pub open spec fn lines(s: Seq<char>) -> Seq<Seq<char>>
    decreases s.len(),
{
    if s.len() == 0 {
        seq![]
    } else {
        let k = index_of(s, '\n');
        if k < 0 {
            seq![s]
        } else {
            proof {
                lemma_index_of(s, '\n');
            }
            seq![strip_cr(s.take(k))] + lines(s.skip(k + 1))
        }
    }
}

/// Char ranges `[lo, hi)` of `s` that are its lines, in order.
pub open spec fn ranges_are_lines(s: Seq<char>, r: Seq<(usize, usize)>) -> bool {
    &&& r.len() == lines(s).len()
    &&& forall|i: int|
        #![trigger r[i]]
        0 <= i < r.len() ==> {
            &&& r[i].0 <= r[i].1 <= s.len()
            &&& s.subrange(r[i].0 as int, r[i].1 as int) == lines(s)[i]
        }
}

/// The char ranges of the lines of `s`.
pub fn line_ranges(s: &Vec<char>) -> (r: Vec<(usize, usize)>)
    ensures
        ranges_are_lines(s@, r@),
{
    let n = s.len();
    let mut r: Vec<(usize, usize)> = Vec::new();
    let mut start: usize = 0;
    let mut i: usize = 0;
    let ghost done: Seq<Seq<char>> = seq![];
    assert(s@.subrange(0, n as int) =~= s@);
    while i < n
        invariant
            n == s@.len(),
            start <= i <= n,
            lines(s@) == done + lines(s@.subrange(start as int, n as int)),
            r@.len() == done.len(),
            forall|j: int|
                #![trigger r@[j]]
                0 <= j < r@.len() ==> {
                    &&& r@[j].0 <= r@[j].1 <= s@.len()
                    &&& s@.subrange(r@[j].0 as int, r@[j].1 as int) == done[j]
                },
            forall|j: int| start <= j < i ==> s@[j] != '\n',
        decreases n - i,
    {
        if s[i] == '\n' {
            let ghost rest = s@.subrange(start as int, n as int);
            proof {
                lemma_index_of_at(rest, '\n', i - start);
                assert(rest.take(i - start) =~= s@.subrange(start as int, i as int));
                assert(rest.skip(i - start + 1) =~= s@.subrange(i + 1, n as int));
            }
            let end = if i > start && s[i - 1] == '\r' {
                i - 1
            } else {
                i
            };
            let ghost l = s@.subrange(start as int, i as int);
            proof {
                if i > start && s@[i - 1] == '\r' {
                    assert(l.drop_last() =~= s@.subrange(start as int, end as int));
                }
                assert(s@.subrange(start as int, end as int) == strip_cr(l));
            }
            let ghost old_r = r@;
            let ghost old_done = done;
            r.push((start, end));
            proof {
                done = done.push(strip_cr(l));
                assert(lines(s@) == done + lines(s@.subrange(i + 1, n as int)));
                assert forall|j: int| #![trigger r@[j]] 0 <= j < r@.len() implies {
                    &&& r@[j].0 <= r@[j].1 <= s@.len()
                    &&& s@.subrange(r@[j].0 as int, r@[j].1 as int) == done[j]
                } by {
                    if j < old_r.len() {
                        assert(r@[j] == old_r[j]);
                        assert(done[j] == old_done[j]);
                    }
                }
            }
            start = i + 1;
        }
        i = i + 1;
    }
    if start < n {
        let ghost rest = s@.subrange(start as int, n as int);
        proof {
            lemma_index_of_none(rest, '\n');
        }
        let ghost old_r = r@;
        let ghost old_done = done;
        r.push((start, n));
        proof {
            done = done.push(rest);
            assert forall|j: int| #![trigger r@[j]] 0 <= j < r@.len() implies {
                &&& r@[j].0 <= r@[j].1 <= s@.len()
                &&& s@.subrange(r@[j].0 as int, r@[j].1 as int) == done[j]
            } by {
                if j < old_r.len() {
                    assert(r@[j] == old_r[j]);
                    assert(done[j] == old_done[j]);
                }
            }
        }
    } else {
        assert(s@.subrange(start as int, n as int).len() == 0);
        assert(done + seq![] =~= done);
    }
    proof {
        assert(lines(s@) =~= done);
    }
    r
}


/// `q` occurs in `s` starting at position `k`.
pub open spec fn occurs_at(s: Seq<char>, q: Seq<char>, k: int) -> bool {
    0 <= k && k + q.len() <= s.len() && s.subrange(k, k + q.len()) == q
}

/// `q` is a substring of `s`, as `str::contains` with a string pattern tests it
/// (the empty string is a substring of every string).
pub open spec fn contains(s: Seq<char>, q: Seq<char>) -> bool {
    exists|k: int| occurs_at(s, q, k)
}

/// `q` occurs in `s` at `k`.
pub fn matches_at(s: &Vec<char>, k: usize, q: &Vec<char>) -> (b: bool)
    requires
        k + q@.len() <= s@.len(),
    ensures
        b == occurs_at(s@, q@, k as int),
{
    let n = s.len();
    let mut j: usize = 0;
    while j < q.len()
        invariant
            n == s@.len(),
            k + q@.len() <= s@.len(),
            j <= q@.len(),
            forall|t: int| 0 <= t < j ==> s@[k + t] == q@[t],
        decreases q@.len() - j,
    {
        if s[k + j] != q[j] {
            assert(s@.subrange(k as int, k + q@.len())[j as int] != q@[j as int]);
            return false;
        }
        j = j + 1;
    }
    assert(s@.subrange(k as int, k + q@.len()) =~= q@);
    true
}

/// `q` is a substring of `s[lo..hi]`.
pub fn contains_in(s: &Vec<char>, lo: usize, hi: usize, q: &Vec<char>) -> (b: bool)
    requires
        lo <= hi <= s@.len(),
    ensures
        b == contains(s@.subrange(lo as int, hi as int), q@),
{
    let ghost t = s@.subrange(lo as int, hi as int);
    if q.len() > hi - lo {
        assert forall|k: int| !occurs_at(t, q@, k) by {}
        return false;
    }
    let last = hi - q.len();
    let mut k = lo;
    loop
        invariant
            lo <= k <= last,
            last + q@.len() == hi,
            hi <= s@.len(),
            t == s@.subrange(lo as int, hi as int),
            forall|m: int| 0 <= m < k - lo ==> !occurs_at(t, q@, m),
        ensures
            forall|m: int| 0 <= m <= last - lo ==> !occurs_at(t, q@, m),
        decreases last - k,
    {
        assert(t.subrange(k - lo, k - lo + q@.len()) =~= s@.subrange(k as int, k + q@.len()));
        if matches_at(s, k, q) {
            assert(occurs_at(t, q@, k - lo));
            return true;
        }
        if k == last {
            break;
        }
        k = k + 1;
    }
    assert forall|m: int| !occurs_at(t, q@, m) by {}
    false
}


/// `s[lo..hi]` equals `t`.
pub fn eq_range(s: &Vec<char>, lo: usize, hi: usize, t: &Vec<char>) -> (b: bool)
    requires
        lo <= hi <= s@.len(),
    ensures
        b == (s@.subrange(lo as int, hi as int) == t@),
{
    if hi - lo != t.len() {
        return false;
    }
    let b = matches_at(s, lo, t);
    assert(b == (s@.subrange(lo as int, hi as int) =~= t@));
    b
}

/// The text of `s[lo..hi]` as an owned string; `s` holds the chars of `text`.
pub fn slice_string(text: &str, lo: usize, hi: usize) -> (r: String)
    requires
        lo <= hi <= text@.len(),
    ensures
        r@ == text@.subrange(lo as int, hi as int),
{
    String::from_str(text.substring_char(lo, hi))
}

/// Position of the first `c` in `s[lo..hi]`, counted from the start of `s`.
pub fn find_char(s: &Vec<char>, lo: usize, hi: usize, c: char) -> (r: Option<usize>)
    requires
        lo <= hi <= s@.len(),
    ensures
        match r {
            Some(k) => lo <= k < hi && index_of(s@.subrange(lo as int, hi as int), c) == k - lo,
            None => index_of(s@.subrange(lo as int, hi as int), c) == -1,
        },
{
    let ghost t = s@.subrange(lo as int, hi as int);
    let mut k = lo;
    while k < hi
        invariant
            lo <= k <= hi <= s@.len(),
            t == s@.subrange(lo as int, hi as int),
            forall|j: int| 0 <= j < k - lo ==> t[j] != c,
        decreases hi - k,
    {
        if s[k] == c {
            proof {
                lemma_index_of_at(t, c, k - lo);
            }
            return Some(k);
        }
        k = k + 1;
    }
    proof {
        lemma_index_of_none(t, c);
    }
    None
}

/// Index of the last `c` in `s`, or -1 when `s` holds none.
pub open spec fn last_index_of(s: Seq<char>, c: char) -> int
    decreases s.len(),
{
    if s.len() == 0 {
        -1
    } else if s.last() == c {
        s.len() - 1
    } else {
        last_index_of(s.drop_last(), c)
    }
}

/// What `last_index_of` returns, pinned down by the positions of `c`.
pub proof fn lemma_last_index_of(s: Seq<char>, c: char)
    ensures
        -1 <= last_index_of(s, c) < s.len(),
        last_index_of(s, c) >= 0 ==> s[last_index_of(s, c)] == c,
        forall|j: int| last_index_of(s, c) < j < s.len() ==> s[j] != c,
    decreases s.len(),
{
    if s.len() > 0 && s.last() != c {
        lemma_last_index_of(s.drop_last(), c);
        assert forall|j: int| last_index_of(s, c) < j < s.len() implies s[j] != c by {
            if j < s.len() - 1 {
                assert(s[j] == s.drop_last()[j]);
            }
        }
    }
}

/// Position of the last `c` in `s[lo..hi]`, counted from the start of `s`.
pub fn rfind_char(s: &Vec<char>, lo: usize, hi: usize, c: char) -> (r: Option<usize>)
    requires
        lo <= hi <= s@.len(),
    ensures
        match r {
            Some(k) => lo <= k < hi && last_index_of(s@.subrange(lo as int, hi as int), c) == k
                - lo,
            None => last_index_of(s@.subrange(lo as int, hi as int), c) == -1,
        },
{
    let mut k = hi;
    while k > lo
        invariant
            lo <= k <= hi <= s@.len(),
            last_index_of(s@.subrange(lo as int, hi as int), c) == last_index_of(
                s@.subrange(lo as int, k as int),
                c,
            ),
        decreases k - lo,
    {
        if s[k - 1] == c {
            return Some(k - 1);
        }
        assert(s@.subrange(lo as int, k as int).drop_last() =~= s@.subrange(lo as int, k - 1));
        k = k - 1;
    }
    None
}

/// Index of the first whitespace char of `s`, or `s.len()` when it holds none.
pub open spec fn word_end(s: Seq<char>) -> int
    decreases s.len(),
{
    if s.len() == 0 || is_ws(s[0]) {
        0
    } else {
        word_end(s.drop_first()) + 1
    }
}

/// What `word_end` returns, pinned down by the whitespace in `s`.
pub proof fn lemma_word_end(s: Seq<char>)
    ensures
        0 <= word_end(s) <= s.len(),
        word_end(s) < s.len() ==> is_ws(s[word_end(s)]),
        forall|j: int| 0 <= j < word_end(s) ==> !is_ws(s[j]),
    decreases s.len(),
{
    if s.len() > 0 && !is_ws(s[0]) {
        lemma_word_end(s.drop_first());
        assert forall|j: int| 0 <= j < word_end(s) implies !is_ws(s[j]) by {
            if j > 0 {
                assert(s[j] == s.drop_first()[j - 1]);
            }
        }
    }
}

/// `word_end` is the first whitespace position.
pub proof fn lemma_word_end_at(s: Seq<char>, k: int)
    requires
        0 <= k <= s.len(),
        k < s.len() ==> is_ws(s[k]),
        forall|j: int| 0 <= j < k ==> !is_ws(s[j]),
    ensures
        word_end(s) == k,
    decreases s.len(),
{
    if s.len() > 0 && !is_ws(s[0]) {
        assert(k > 0);
        lemma_word_end_at(s.drop_first(), k - 1);
    }
}

/// `trim_start` removes only whitespace.
pub proof fn lemma_trim_start_len(s: Seq<char>)
    ensures
        trim_start(s).len() <= s.len(),
        s.len() > 0 && is_ws(s[0]) ==> trim_start(s).len() < s.len(),
        trim_start(s).len() > 0 ==> !is_ws(trim_start(s)[0]),
        trim_start(s) == s.skip(s.len() - trim_start(s).len()),
    decreases s.len(),
{
    if s.len() > 0 && is_ws(s[0]) {
        lemma_trim_start_len(s.drop_first());
        assert(s.drop_first().skip(s.drop_first().len() - trim_start(s).len()) =~= s.skip(
            s.len() - trim_start(s).len(),
        ));
    } else {
        assert(s.skip(0) =~= s);
    }
}

/// The whitespace-separated words of `s`, as `str::split_whitespace` yields them.
pub open spec fn words(s: Seq<char>) -> Seq<Seq<char>>
    decreases s.len(),
{
    let t = trim_start(s);
    if t.len() == 0 {
        seq![]
    } else {
        proof {
            lemma_trim_start_len(s);
            lemma_word_end(t);
        }
        let k = word_end(t);
        seq![t.take(k)] + words(t.skip(k))
    }
}

/// Char ranges `[lo, hi)` of `s` that are the words of `s[a..b]`, in order.
pub open spec fn ranges_are_words(s: Seq<char>, a: int, b: int, r: Seq<(usize, usize)>) -> bool {
    &&& r.len() == words(s.subrange(a, b)).len()
    &&& forall|i: int|
        #![trigger r[i]]
        0 <= i < r.len() ==> {
            &&& a <= r[i].0 <= r[i].1 <= b
            &&& s.subrange(r[i].0 as int, r[i].1 as int) == words(s.subrange(a, b))[i]
        }
}

/// The char ranges of the words of `s[lo..hi]`.
pub fn word_ranges(s: &Vec<char>, lo: usize, hi: usize) -> (r: Vec<(usize, usize)>)
    requires
        lo <= hi <= s@.len(),
    ensures
        ranges_are_words(s@, lo as int, hi as int, r@),
{
    let mut r: Vec<(usize, usize)> = Vec::new();
    let ghost done: Seq<Seq<char>> = seq![];
    let mut i = lo;
    assert(s@.subrange(lo as int, hi as int) =~= s@.subrange(lo as int, hi as int));
    while i < hi
        invariant
            lo <= i <= hi <= s@.len(),
            words(s@.subrange(lo as int, hi as int)) == done + words(
                s@.subrange(i as int, hi as int),
            ),
            r@.len() == done.len(),
            forall|j: int|
                #![trigger r@[j]]
                0 <= j < r@.len() ==> {
                    &&& lo <= r@[j].0 <= r@[j].1 <= hi
                    &&& s@.subrange(r@[j].0 as int, r@[j].1 as int) == done[j]
                },
        decreases hi - i,
    {
        let ghost t = s@.subrange(i as int, hi as int);
        if is_whitespace(s[i]) {
            assert(t.drop_first() =~= s@.subrange(i + 1, hi as int));
            assert(trim_start(t) == trim_start(s@.subrange(i + 1, hi as int)));
            assert(words(t) == words(s@.subrange(i + 1, hi as int)));
            i = i + 1;
        } else {
            let mut j = i + 1;
            while j < hi && !is_whitespace(s[j])
                invariant
                    i < j <= hi <= s@.len(),
                    forall|m: int| i <= m < j ==> !is_ws(s@[m]),
                decreases hi - j,
            {
                j = j + 1;
            }
            proof {
                assert(trim_start(t) == t);
                lemma_word_end_at(t, j - i);
                assert(t.take(j - i) =~= s@.subrange(i as int, j as int));
                assert(t.skip(j - i) =~= s@.subrange(j as int, hi as int));
            }
            let ghost old_r = r@;
            let ghost old_done = done;
            r.push((i, j));
            proof {
                done = done.push(s@.subrange(i as int, j as int));
                assert(words(t) == seq![s@.subrange(i as int, j as int)] + words(
                    s@.subrange(j as int, hi as int),
                ));
                assert(done + words(s@.subrange(j as int, hi as int)) =~= old_done + words(t));
                assert forall|m: int| #![trigger r@[m]] 0 <= m < r@.len() implies {
                    &&& lo <= r@[m].0 <= r@[m].1 <= hi
                    &&& s@.subrange(r@[m].0 as int, r@[m].1 as int) == done[m]
                } by {
                    if m < old_r.len() {
                        assert(r@[m] == old_r[m]);
                        assert(done[m] == old_done[m]);
                    }
                }
            }
            i = j;
        }
    }
    proof {
        assert(trim_start(s@.subrange(i as int, hi as int)).len() == 0) by {
            lemma_trim_start_len(s@.subrange(i as int, hi as int));
        }
        assert(done + seq![] =~= done);
    }
    r
}


/// Bytes that `c` takes in UTF-8.
pub open spec fn utf8_width(c: char) -> int {
    let u = c as u32;
    if u < 0x80 {
        1
    } else if u < 0x800 {
        2
    } else if u < 0x10000 {
        3
    } else {
        4
    }
}

/// Byte offset `b` of the UTF-8 encoding of `s` is within it and falls between
/// two chars, so that `&text[..b]` and `&text[b..]` can be taken.
pub open spec fn is_byte_boundary(s: Seq<char>, b: int) -> bool
    decreases s.len(),
{
    if b == 0 {
        true
    } else if s.len() == 0 || b < 0 {
        false
    } else {
        is_byte_boundary(s.drop_first(), b - utf8_width(s[0]))
    }
}

/// `&l[0..4]` can be taken: `l` has at least four bytes and the fourth ends a char.
pub open spec fn head4_ok(l: Seq<char>) -> bool {
    is_byte_boundary(l, 4)
}

/// The number of bytes of the UTF-8 encoding of `c`.
pub fn utf8_len(c: char) -> (w: usize)
    ensures
        w == utf8_width(c),
{
    let u = c as u32;
    if u < 0x80 {
        1
    } else if u < 0x800 {
        2
    } else if u < 0x10000 {
        3
    } else {
        4
    }
}

/// Whether `&l[0..4]` can be taken of the line `l = s[lo..hi]`.
pub fn head4_range(s: &Vec<char>, lo: usize, hi: usize) -> (b: bool)
    requires
        lo <= hi <= s@.len(),
    ensures
        b == head4_ok(s@.subrange(lo as int, hi as int)),
{
    let mut rem: usize = 4;
    let mut k = lo;
    while rem > 0 && k < hi
        invariant
            lo <= k <= hi <= s@.len(),
            rem <= 4,
            is_byte_boundary(s@.subrange(lo as int, hi as int), 4) == is_byte_boundary(
                s@.subrange(k as int, hi as int),
                rem as int,
            ),
        decreases hi - k,
    {
        let w = utf8_len(s[k]);
        assert(s@.subrange(k as int, hi as int).drop_first() =~= s@.subrange(k + 1, hi as int));
        assert(s@.subrange(k as int, hi as int)[0] == s@[k as int]);
        if w > rem {
            assert(!is_byte_boundary(s@.subrange(k + 1, hi as int), rem - w));
            return false;
        }
        rem = rem - w;
        k = k + 1;
    }
    rem == 0
}

/// `l` starts with four spaces, which is what `&l[0..4] == "    "` tests once
/// `head4_ok(l)` holds.
pub open spec fn indented(l: Seq<char>) -> bool {
    &&& l.len() >= 4
    &&& l[0] == ' '
    &&& l[1] == ' '
    &&& l[2] == ' '
    &&& l[3] == ' '
}

/// `s[lo..hi]` starts with four spaces.
pub fn is_indented(s: &Vec<char>, lo: usize, hi: usize) -> (b: bool)
    requires
        lo <= hi <= s@.len(),
    ensures
        b == indented(s@.subrange(lo as int, hi as int)),
{
    hi - lo >= 4 && s[lo] == ' ' && s[lo + 1] == ' ' && s[lo + 2] == ' ' && s[lo + 3] == ' '
}

/// With a `:` at char `k` of `l`, the value slice `&l[k + 2..]` (byte offsets,
/// the colon taking one byte) can be taken: a one-byte char follows the colon.
pub open spec fn value_ok(l: Seq<char>, k: int) -> bool {
    k + 1 < l.len() && utf8_width(l[k + 1]) == 1
}

/// `u8`-sized char follows position `k` of `s[lo..hi]`.
pub fn ascii_follows(s: &Vec<char>, k: usize, hi: usize) -> (b: bool)
    requires
        k < hi <= s@.len(),
    ensures
        b == (k + 1 < hi && (s@[k + 1] as u32) < 0x80),
{
    k + 1 < hi && (s[k + 1] as u32) < 0x80
}


/// `a` and `b` hold the same text.
pub fn str_eq(a: &str, b: &str) -> (r: bool)
    ensures
        r == (a@ == b@),
{
    let x = to_chars(a);
    let y = to_chars(b);
    assert(x@.subrange(0, x@.len() as int) =~= x@);
    eq_range(&x, 0, x.len(), &y)
}

/// Copies of the strings `v[lo..hi]`.
pub fn clone_range(v: &Vec<String>, lo: usize, hi: usize) -> (r: Vec<String>)
    requires
        lo <= hi <= v@.len(),
    ensures
        r@ == v@.subrange(lo as int, hi as int),
{
    let mut r: Vec<String> = Vec::new();
    let mut i = lo;
    while i < hi
        invariant
            lo <= i <= hi <= v@.len(),
            r@ == v@.subrange(lo as int, i as int),
        decreases hi - i,
    {
        r.push(v[i].clone());
        assert(r@ =~= v@.subrange(lo as int, i + 1));
        i = i + 1;
    }
    r
}

/// The texts of `ws` joined with `sep` between them.
pub open spec fn join(ws: Seq<Seq<char>>, sep: Seq<char>) -> Seq<char>
    decreases ws.len(),
{
    if ws.len() == 0 {
        seq![]
    } else if ws.len() == 1 {
        ws[0]
    } else {
        join(ws.drop_last(), sep) + sep + ws.last()
    }
}

/// The texts of `ws`, each followed by `sep`.
pub open spec fn concat_each(ws: Seq<Seq<char>>, sep: Seq<char>) -> Seq<char>
    decreases ws.len(),
{
    if ws.len() == 0 {
        seq![]
    } else {
        concat_each(ws.drop_last(), sep) + ws.last() + sep
    }
}

/// The strings of `ws` joined with `sep` between them, as `[String]::join` does.
pub fn join_strings(ws: &Vec<String>, sep: &str) -> (r: String)
    ensures
        r@ == join(ws@.map_values(|x: String| x@), sep@),
{
    let ghost t = ws@.map_values(|x: String| x@);
    let mut r = String::new();
    let mut i: usize = 0;
    while i < ws.len()
        invariant
            i <= ws@.len(),
            t == ws@.map_values(|x: String| x@),
            r@ == join(t.take(i as int), sep@),
        decreases ws@.len() - i,
    {
        assert(t.take(i + 1).drop_last() =~= t.take(i as int));
        if i > 0 {
            r.append(sep);
        }
        r.append(ws[i].as_str());
        if i == 0 {
            assert(r@ =~= join(t.take(1), sep@));
        }
        i = i + 1;
    }
    assert(t.take(ws@.len() as int) =~= t);
    r
}

/// The strings of `ws`, each followed by `sep`, in one string.
pub fn concat_strings(ws: &Vec<String>, sep: &str) -> (r: String)
    ensures
        r@ == concat_each(ws@.map_values(|x: String| x@), sep@),
{
    let ghost t = ws@.map_values(|x: String| x@);
    let mut r = String::new();
    let mut i: usize = 0;
    while i < ws.len()
        invariant
            i <= ws@.len(),
            t == ws@.map_values(|x: String| x@),
            r@ == concat_each(t.take(i as int), sep@),
        decreases ws@.len() - i,
    {
        assert(t.take(i + 1).drop_last() =~= t.take(i as int));
        r.append(ws[i].as_str());
        r.append(sep);
        i = i + 1;
    }
    assert(t.take(ws@.len() as int) =~= t);
    r
}


/// Text that is empty or ends a line splits into lines apart from what follows it.
pub proof fn lemma_lines_concat(a: Seq<char>, b: Seq<char>)
    requires
        a.len() == 0 || a.last() == '\n',
    ensures
        lines(a + b) == lines(a) + lines(b),
    decreases a.len(),
{
    if a.len() == 0 {
        assert(a + b =~= b);
        assert(lines(a) =~= seq![]);
        assert(seq![] + lines(b) =~= lines(b));
    } else {
        let ab = a + b;
        lemma_index_of(a, '\n');
        let k = index_of(a, '\n');
        assert(k >= 0) by {
            if k < 0 {
                assert(a[a.len() - 1] == '\n');
            }
        }
        assert forall|j: int| 0 <= j < k implies ab[j] != '\n' by {
            assert(ab[j] == a[j]);
        }
        assert(ab[k] == a[k]);
        lemma_index_of_at(ab, '\n', k);
        assert(ab.take(k) =~= a.take(k));
        assert(ab.skip(k + 1) =~= a.skip(k + 1) + b);
        let rest = a.skip(k + 1);
        assert(rest.len() == 0 || rest.last() == '\n') by {
            if rest.len() > 0 {
                assert(rest.last() == a.last());
            }
        }
        lemma_lines_concat(rest, b);
        assert(lines(ab) =~= lines(a) + lines(b));
    }
}

/// One line of text without a line break, ended by `\n`, is that one line
/// (without a `\r` just before the break).
pub proof fn lemma_lines_single(x: Seq<char>)
    requires
        forall|j: int| 0 <= j < x.len() ==> x[j] != '\n',
    ensures
        lines(x + seq!['\n']) == seq![strip_cr(x)],
{
    let s = x + seq!['\n'];
    assert forall|j: int| 0 <= j < x.len() implies s[j] != '\n' by {
        assert(s[j] == x[j]);
    }
    lemma_index_of_at(s, '\n', x.len() as int);
    assert(s.take(x.len() as int) =~= x);
    let e = s.skip(x.len() as int + 1);
    assert(e =~= seq![]);
    assert(lines(e) =~= seq![]);
    assert(lines(s) == seq![strip_cr(s.take(x.len() as int))] + lines(e));
    assert(lines(s) =~= seq![strip_cr(x)]);
}

/// Lines joined each with a `\n` split back into those lines, each without a
/// `\r` that ended it.
pub proof fn lemma_lines_concat_each(ks: Seq<Seq<char>>)
    requires
        forall|i: int, j: int| 0 <= i < ks.len() && 0 <= j < ks[i].len() ==> ks[i][j] != '\n',
    ensures
        lines(concat_each(ks, seq!['\n'])) == ks.map_values(|k: Seq<char>| strip_cr(k)),
    decreases ks.len(),
{
    if ks.len() == 0 {
        assert(lines(concat_each(ks, seq!['\n'])) =~= seq![]);
        assert(ks.map_values(|k: Seq<char>| strip_cr(k)) =~= seq![]);
    } else {
        let front = ks.drop_last();
        let head = concat_each(front, seq!['\n']);
        assert forall|i: int, j: int| 0 <= i < front.len() && 0 <= j < front[i].len() implies front[i][j] != '\n' by {
            assert(front[i] == ks[i]);
        }
        lemma_lines_concat_each(front);
        assert(head.len() == 0 || head.last() == '\n') by {
            if front.len() > 0 {
                assert(head == concat_each(front.drop_last(), seq!['\n']) + front.last() + seq!['\n']);
            }
        }
        let last = ks.last();
        assert(concat_each(ks, seq!['\n']) =~= head + (last + seq!['\n']));
        lemma_lines_concat(head, last + seq!['\n']);
        assert forall|j: int| 0 <= j < last.len() implies last[j] != '\n' by {
            assert(last == ks[ks.len() - 1]);
        }
        lemma_lines_single(last);
        assert(ks.map_values(|k: Seq<char>| strip_cr(k)) =~= front.map_values(
            |k: Seq<char>| strip_cr(k),
        ).push(strip_cr(last)));
    }
}

/// A line from `lines` holds no line break.
pub proof fn lemma_lines_no_newline(s: Seq<char>)
    ensures
        forall|i: int, j: int|
            0 <= i < lines(s).len() && 0 <= j < lines(s)[i].len() ==> lines(s)[i][j] != '\n',
    decreases s.len(),
{
    if s.len() > 0 {
        lemma_index_of(s, '\n');
        let k = index_of(s, '\n');
        if k >= 0 {
            lemma_lines_no_newline(s.skip(k + 1));
            assert forall|i: int, j: int|
                0 <= i < lines(s).len() && 0 <= j < lines(s)[i].len() implies lines(s)[i][j] != '\n' by {
                if i > 0 {
                    assert(lines(s)[i] == lines(s.skip(k + 1))[i - 1]);
                } else {
                    assert(lines(s)[0] == strip_cr(s.take(k)));
                    assert(s.take(k)[j] == s[j]);
                }
            }
        }
    }
}

/// Dropping a `\r` first does not change what trimming the end leaves.
pub proof fn lemma_trim_end_strip_cr(l: Seq<char>)
    ensures
        trim_end(strip_cr(l)) == trim_end(l),
{
    if l.len() > 0 && l.last() == '\r' {
        assert(is_ws(l.last()));
    }
}


/// `trim_end` only drops chars.
pub proof fn lemma_trim_end_len(s: Seq<char>)
    ensures
        trim_end(s).len() <= s.len(),
    decreases s.len(),
{
    if s.len() > 0 && is_ws(s.last()) {
        lemma_trim_end_len(s.drop_last());
    }
}

/// Keeping some of a sequence of line-break-free texts keeps them free of line breaks.
pub proof fn lemma_filter_no_newline(ls: Seq<Seq<char>>, p: spec_fn(Seq<char>) -> bool)
    requires
        forall|i: int, j: int| 0 <= i < ls.len() && 0 <= j < ls[i].len() ==> ls[i][j] != '\n',
    ensures
        forall|i: int, j: int|
            0 <= i < ls.filter(p).len() && 0 <= j < ls.filter(p)[i].len() ==> ls.filter(p)[i][j]
                != '\n',
    decreases ls.len(),
{
    reveal_with_fuel(Seq::<_>::filter, 1);
    if ls.len() > 0 {
        let front = ls.drop_last();
        assert forall|i: int, j: int| 0 <= i < front.len() && 0 <= j < front[i].len() implies front[i][j] != '\n' by {
            assert(front[i] == ls[i]);
        }
        lemma_filter_no_newline(front, p);
        assert forall|i: int, j: int|
            0 <= i < ls.filter(p).len() && 0 <= j < ls.filter(p)[i].len() implies ls.filter(p)[i][j]
                != '\n' by {
            if i < front.filter(p).len() {
                assert(ls.filter(p)[i] == front.filter(p)[i]);
            } else {
                assert(ls.filter(p)[i] == ls.last());
                assert(ls.last() == ls[ls.len() - 1]);
            }
        }
    }
}

/// A line from `lines` holds no `\r` when the text holds none.
pub proof fn lemma_lines_no_cr(s: Seq<char>)
    requires
        forall|j: int| 0 <= j < s.len() ==> s[j] != '\r',
    ensures
        forall|i: int, j: int|
            0 <= i < lines(s).len() && 0 <= j < lines(s)[i].len() ==> lines(s)[i][j] != '\r',
    decreases s.len(),
{
    if s.len() > 0 {
        lemma_index_of(s, '\n');
        let k = index_of(s, '\n');
        if k >= 0 {
            let rest = s.skip(k + 1);
            assert forall|j: int| 0 <= j < rest.len() implies rest[j] != '\r' by {
                assert(rest[j] == s[k + 1 + j]);
            }
            lemma_lines_no_cr(rest);
            assert forall|i: int, j: int|
                0 <= i < lines(s).len() && 0 <= j < lines(s)[i].len() implies lines(s)[i][j] != '\r' by {
                if i > 0 {
                    assert(lines(s)[i] == lines(rest)[i - 1]);
                } else {
                    assert(lines(s)[0] == strip_cr(s.take(k)));
                    assert(s.take(k)[j] == s[j]);
                }
            }
        } else {
            assert(lines(s) == seq![s]);
        }
    }
}

/// Texts each followed by `sep`, with one more text in front.
pub proof fn lemma_concat_each_cons(x: Seq<char>, rest: Seq<Seq<char>>, sep: Seq<char>)
    ensures
        concat_each(seq![x] + rest, sep) == x + sep + concat_each(rest, sep),
    decreases rest.len(),
{
    let all = seq![x] + rest;
    if rest.len() == 0 {
        assert(all.drop_last() =~= seq![]);
        assert(concat_each(all.drop_last(), sep) =~= seq![]);
        assert(concat_each(rest, sep) =~= seq![]);
        assert(all.last() == x);
        assert(concat_each(all, sep) =~= x + sep + concat_each(rest, sep));
    } else {
        assert(all.drop_last() =~= seq![x] + rest.drop_last());
        lemma_concat_each_cons(x, rest.drop_last(), sep);
        assert(all.last() == rest.last());
        assert(concat_each(all, sep) =~= x + sep + concat_each(rest, sep));
    }
}

/// A text that is empty or ends a line, and holds no `\r`, is its lines each
/// followed by `\n`.
pub proof fn lemma_concat_each_lines(s: Seq<char>)
    requires
        s.len() == 0 || s.last() == '\n',
        forall|j: int| 0 <= j < s.len() ==> s[j] != '\r',
    ensures
        concat_each(lines(s), seq!['\n']) == s,
    decreases s.len(),
{
    if s.len() == 0 {
        assert(lines(s) =~= seq![]);
    } else {
        lemma_index_of(s, '\n');
        let k = index_of(s, '\n');
        assert(k >= 0) by {
            if k < 0 {
                assert(s[s.len() - 1] == '\n');
            }
        }
        let head = s.take(k);
        let rest = s.skip(k + 1);
        assert(strip_cr(head) == head) by {
            if head.len() > 0 {
                assert(head.last() == s[k - 1]);
            }
        }
        assert(rest.len() == 0 || rest.last() == '\n') by {
            if rest.len() > 0 {
                assert(rest.last() == s.last());
            }
        }
        assert forall|j: int| 0 <= j < rest.len() implies rest[j] != '\r' by {
            assert(rest[j] == s[k + 1 + j]);
        }
        lemma_concat_each_lines(rest);
        assert(lines(s) == seq![head] + lines(rest));
        lemma_concat_each_cons(head, lines(rest), seq!['\n']);
        assert(s =~= head + seq!['\n'] + rest);
    }
}

/// Keeping the items that satisfy `p`, when all of them do, keeps them all.
pub proof fn lemma_filter_all<A>(ls: Seq<A>, p: spec_fn(A) -> bool)
    requires
        forall|i: int| 0 <= i < ls.len() ==> p(#[trigger] ls[i]),
    ensures
        ls.filter(p) == ls,
    decreases ls.len(),
{
    reveal_with_fuel(Seq::<_>::filter, 1);
    if ls.len() > 0 {
        let front = ls.drop_last();
        assert forall|i: int| 0 <= i < front.len() implies p(#[trigger] front[i]) by {
            assert(front[i] == ls[i]);
        }
        lemma_filter_all(front, p);
        assert(p(ls[ls.len() - 1]));
        assert(ls.filter(p) =~= front.push(ls.last()));
        assert(front.push(ls.last()) =~= ls);
    }
}

/// Texts joined with `sep`, and `sep` after them, are the texts each followed by `sep`.
pub proof fn lemma_join_then_sep(ws: Seq<Seq<char>>, sep: Seq<char>)
    requires
        ws.len() >= 1,
    ensures
        join(ws, sep) + sep == concat_each(ws, sep),
    decreases ws.len(),
{
    if ws.len() == 1 {
        assert(ws.drop_last() =~= seq![]);
        assert(concat_each(ws.drop_last(), sep) =~= seq![]);
        assert(ws.last() == ws[0]);
        assert(concat_each(ws, sep) =~= ws[0] + sep);
    } else {
        lemma_join_then_sep(ws.drop_last(), sep);
        assert(join(ws, sep) + sep =~= (join(ws.drop_last(), sep) + sep) + ws.last() + sep);
    }
}

/// Texts without line breaks or `\r`, the last one not empty, joined with
/// `\n` split back into those texts.
pub proof fn lemma_lines_join(ws: Seq<Seq<char>>)
    requires
        forall|i: int, j: int|
            0 <= i < ws.len() && 0 <= j < ws[i].len() ==> ws[i][j] != '\n' && ws[i][j] != '\r',
        ws.len() == 0 || ws.last().len() > 0,
    ensures
        lines(join(ws, seq!['\n'])) == ws,
{
    if ws.len() == 0 {
        assert(lines(join(ws, seq!['\n'])) =~= seq![]);
    } else {
        let last = ws.last();
        assert forall|j: int| 0 <= j < last.len() implies last[j] != '\n' by {
            assert(last == ws[ws.len() - 1]);
        }
        lemma_index_of_none(last, '\n');
        assert(lines(last) == seq![last]);
        if ws.len() == 1 {
            assert(join(ws, seq!['\n']) == ws[0]);
            assert(ws =~= seq![last]);
        } else {
            let front = ws.drop_last();
            let a = join(front, seq!['\n']) + seq!['\n'];
            lemma_join_then_sep(front, seq!['\n']);
            assert forall|i: int, j: int| 0 <= i < front.len() && 0 <= j < front[i].len() implies front[i][j]
                != '\n' by {
                assert(front[i] == ws[i]);
            }
            lemma_lines_concat_each(front);
            assert forall|i: int| 0 <= i < front.len() implies #[trigger] strip_cr(front[i]) == front[i] by {
                assert(front[i] == ws[i]);
                if front[i].len() > 0 {
                    assert(front[i].last() == ws[i][front[i].len() - 1]);
                }
            }
            assert(front.map_values(|k: Seq<char>| strip_cr(k)) =~= front);
            assert(a.last() == '\n');
            assert(join(ws, seq!['\n']) =~= a + last);
            lemma_lines_concat(a, last);
            assert(lines(a) == front);
            assert(front + seq![last] =~= ws);
        }
    }
}

/// The last char of what `trim_end` leaves is not whitespace.
pub proof fn lemma_trim_end_last(s: Seq<char>)
    ensures
        trim_end(s).len() > 0 ==> !is_ws(trim_end(s).last()),
    decreases s.len(),
{
    if s.len() > 0 && is_ws(s.last()) {
        lemma_trim_end_last(s.drop_last());
    }
}

/// `k` is the position of the first `:` of `l`.
pub open spec fn first_colon_at(l: Seq<char>, k: int) -> bool {
    &&& 0 <= k < l.len()
    &&& l[k] == ':'
    &&& forall|m: int| 0 <= m < k ==> l[m] != ':'
}

/// The first `:` of a line is where `index_of` finds it.
pub proof fn lemma_first_colon(l: Seq<char>)
    ensures
        forall|k: int| #[trigger] first_colon_at(l, k) ==> k == index_of(l, ':'),
        index_of(l, ':') >= 0 ==> first_colon_at(l, index_of(l, ':')),
{
    lemma_index_of(l, ':');
}

} // verus!

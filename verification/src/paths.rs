//! Text operations on '/'-separated paths and file names, specified over
//! the characters of the strings.
use vstd::prelude::*;

verus! {

/// Index of the last occurrence of `c` in `s`, or -1.
pub open spec fn last_index(s: Seq<char>, c: char) -> int
    decreases s.len(),
{
    if s.len() == 0 {
        -1
    } else if s.last() == c {
        s.len() - 1
    } else {
        last_index(s.drop_last(), c)
    }
}

/// The last component of a path, as std's `Path::file_name` reads it on Unix:
/// trailing separators and `.` components are skipped, and a path ending in
/// `..` (or naming only the root or the current directory) has none.
pub open spec fn file_name_of(s: Seq<char>) -> Option<Seq<char>>
    decreases s.len(),
{
    if s.len() == 0 {
        None
    } else if s.last() == '/' {
        file_name_of(s.drop_last())
    } else {
        proof {
            lemma_last_index_bounds(s, '/');
        }
        let k = last_index(s, '/');
        let seg = s.subrange(k + 1, s.len() as int);
        if seg == seq!['.'] {
            file_name_of(s.subrange(0, k + 1))
        } else if seg == seq!['.', '.'] {
            None
        } else {
            Some(seg)
        }
    }
}

/// The stem of a file name: everything before its last `.`, unless that dot
/// is the first character or there is none.
pub open spec fn stem_of(name: Seq<char>) -> Seq<char> {
    let k = last_index(name, '.');
    if k <= 0 {
        name
    } else {
        name.subrange(0, k)
    }
}

/// The extension of a file name: everything after its last `.`, unless that
/// dot is the first character or there is none.
pub open spec fn extension_of(name: Seq<char>) -> Option<Seq<char>> {
    let k = last_index(name, '.');
    if k <= 0 {
        None
    } else {
        Some(name.subrange(k + 1, name.len() as int))
    }
}

/// `dir` followed by `name`, with one separator in between when `dir` is not
/// empty and does not end in one.
pub open spec fn join_of(dir: Seq<char>, name: Seq<char>) -> Seq<char> {
    if dir.len() == 0 || dir.last() == '/' {
        dir + name
    } else {
        dir + seq!['/'] + name
    }
}

/// `p` occurs in `s` at position `i`.
pub open spec fn occurs_at(s: Seq<char>, p: Seq<char>, i: int) -> bool {
    0 <= i && i + p.len() <= s.len() && s.subrange(i, i + p.len()) == p
}

/// `p` occurs somewhere in `s`.
pub open spec fn contains_seq(s: Seq<char>, p: Seq<char>) -> bool {
    exists|i: int| occurs_at(s, p, i)
}

/// `s` with every occurrence of `p` deleted, scanning left to right for
/// non-overlapping occurrences (what `str::replace(p, "")` gives).
pub open spec fn remove_all(s: Seq<char>, p: Seq<char>) -> Seq<char>
    decreases s.len(),
{
    if p.len() == 0 || s.len() == 0 {
        s
    } else if occurs_at(s, p, 0) {
        remove_all(s.skip(p.len() as int), p)
    } else {
        seq![s[0]] + remove_all(s.skip(1), p)
    }
}

pub proof fn lemma_last_index_bounds(s: Seq<char>, c: char)
    ensures
        -1 <= last_index(s, c) < s.len(),
        last_index(s, c) >= 0 ==> s[last_index(s, c)] == c,
        forall|j: int| last_index(s, c) < j < s.len() ==> s[j] != c,
    decreases s.len(),
{
    if s.len() > 0 && s.last() != c {
        lemma_last_index_bounds(s.drop_last(), c);
        assert forall|j: int| last_index(s, c) < j < s.len() implies s[j] != c by {
            if j < s.len() - 1 {
                assert(s.drop_last()[j] == s[j]);
            }
        }
    }
}

proof fn lemma_last_index_char(s: Seq<char>, c: char, k: int)
    requires
        -1 <= k < s.len(),
        k >= 0 ==> s[k] == c,
        forall|j: int| k < j < s.len() ==> s[j] != c,
    ensures
        last_index(s, c) == k,
    decreases s.len(),
{
    if s.len() > 0 && s.last() != c {
        lemma_last_index_char(s.drop_last(), c, k);
    }
}

/// Index of the last `c` among the first `end` characters of `s`, or -1.
fn last_index_before(s: &str, c: char, end: usize) -> (r: i64)
    requires
        end <= s@.len(),
        s@.len() < i64::MAX,
    ensures
        r == last_index(s@.subrange(0, end as int), c),
{
    let mut j = end;
    while j > 0
        invariant
            j <= end <= s@.len(),
            s@.len() < i64::MAX,
            forall|m: int| j <= m < end ==> s@[m] != c,
        decreases j,
    {
        if s.get_char(j - 1) == c {
            proof {
                let pre = s@.subrange(0, end as int);
                assert forall|m: int| j - 1 < m < pre.len() implies pre[m] != c by {
                    assert(pre[m] == s@[m]);
                }
                lemma_last_index_char(pre, c, j - 1);
            }
            return (j - 1) as i64;
        }
        j = j - 1;
    }
    proof {
        let pre = s@.subrange(0, end as int);
        assert forall|m: int| -1 < m < pre.len() implies pre[m] != c by {
            assert(pre[m] == s@[m]);
        }
        lemma_last_index_char(pre, c, -1);
    }
    -1
}

/// Whether the characters of `s` in `[from, to)` are exactly `p`.
fn chars_equal_at(s: &str, from: usize, to: usize, p: &str) -> (r: bool)
    requires
        from <= to <= s@.len(),
    ensures
        r == (s@.subrange(from as int, to as int) == p@),
{
    let plen = p.unicode_len();
    if to - from != plen {
        return false;
    }
    let mut k: usize = 0;
    while k < plen
        invariant
            plen == p@.len(),
            to - from == plen,
            from <= to <= s@.len(),
            k <= plen,
            forall|m: int| 0 <= m < k ==> s@[from + m] == p@[m],
        decreases plen - k,
    {
        if s.get_char(from + k) != p.get_char(k) {
            assert(s@.subrange(from as int, to as int)[k as int] != p@[k as int]);
            return false;
        }
        k = k + 1;
    }
    assert(s@.subrange(from as int, to as int) =~= p@);
    true
}

/// The file name of a path (see `file_name_of`).
pub fn file_name(path: &str) -> (r: Option<String>)
    requires
        path@.len() < i64::MAX,
    ensures
        r is Some <==> file_name_of(path@) is Some,
        r matches Some(n) ==> n@ == file_name_of(path@).unwrap(),
{
    let n = path.unicode_len();
    let mut end = n;
    assert(path@.subrange(0, n as int) =~= path@);
    while end > 0
        invariant
            end <= n == path@.len(),
            n < i64::MAX,
            file_name_of(path@.subrange(0, end as int)) == file_name_of(path@),
        decreases end,
    {
        let ghost prefix = path@.subrange(0, end as int);
        if path.get_char(end - 1) == '/' {
            assert(prefix.drop_last() =~= path@.subrange(0, end - 1));
            end = end - 1;
        } else {
            let k = last_index_before(path, '/', end);
            proof {
                lemma_last_index_bounds(prefix, '/');
            }
            let start = (k + 1) as usize;
            assert(prefix.subrange(k + 1, prefix.len() as int) =~= path@.subrange(
                start as int,
                end as int,
            ));
            if chars_equal_at(path, start, end, ".") {
                proof {
                    reveal_strlit(".");
                    assert(".".view() =~= seq!['.']);
                    assert(prefix.subrange(0, k + 1) =~= path@.subrange(0, start as int));
                }
                end = start;
            } else if chars_equal_at(path, start, end, "..") {
                proof {
                    reveal_strlit("..");
                    assert("..".view() =~= seq!['.', '.']);
                }
                return None;
            } else {
                proof {
                    reveal_strlit(".");
                    reveal_strlit("..");
                    assert(".".view() =~= seq!['.']);
                    assert("..".view() =~= seq!['.', '.']);
                }
                let seg = path.substring_char(start, end);
                return Some(String::from_str(seg));
            }
        }
    }
    assert(path@.subrange(0, 0) =~= Seq::<char>::empty());
    None
}

/// The name with its extension replaced by `txt` (what `set_extension("txt")`
/// does to a path whose file name is `name`).
pub fn with_txt_extension(name: &str) -> (r: String)
    requires
        name@.len() < i64::MAX,
    ensures
        r@ == stem_of(name@) + seq!['.', 't', 'x', 't'],
{
    let n = name.unicode_len();
    let k = last_index_before(name, '.', n);
    assert(name@.subrange(0, n as int) =~= name@);
    proof {
        lemma_last_index_bounds(name@, '.');
    }
    let stem = if k <= 0 {
        name
    } else {
        name.substring_char(0, k as usize)
    };
    let mut out = String::from_str(stem);
    out.append(".txt");
    proof {
        reveal_strlit(".txt");
    }
    assert(out@ =~= stem_of(name@) + seq!['.', 't', 'x', 't']);
    out
}

/// The extension of a file name (see `extension_of`).
pub fn extension(name: &str) -> (r: Option<String>)
    requires
        name@.len() < i64::MAX,
    ensures
        r is Some <==> extension_of(name@) is Some,
        r matches Some(e) ==> e@ == extension_of(name@).unwrap(),
{
    let n = name.unicode_len();
    let k = last_index_before(name, '.', n);
    assert(name@.subrange(0, n as int) =~= name@);
    proof {
        lemma_last_index_bounds(name@, '.');
    }
    if k <= 0 {
        None
    } else {
        Some(String::from_str(name.substring_char((k + 1) as usize, n)))
    }
}

/// `name` placed in directory `dir` (see `join_of`).
pub fn join(dir: &str, name: &str) -> (r: String)
    ensures
        r@ == join_of(dir@, name@),
{
    let n = dir.unicode_len();
    let mut out = String::from_str(dir);
    if n > 0 && dir.get_char(n - 1) != '/' {
        out.append("/");
        proof {
            reveal_strlit("/");
        }
    }
    out.append(name);
    assert(out@ =~= join_of(dir@, name@));
    out
}

/// Whether `p` occurs in `s`.
pub fn contains(s: &str, p: &str) -> (r: bool)
    ensures
        r == contains_seq(s@, p@),
{
    let n = s.unicode_len();
    let m = p.unicode_len();
    if m > n {
        assert forall|i: int| !occurs_at(s@, p@, i) by {}
        return false;
    }
    if m == 0 {
        assert(s@.subrange(0, 0) =~= p@);
        assert(occurs_at(s@, p@, 0));
        return true;
    }
    let mut i: usize = 0;
    while i <= n - m
        invariant
            n == s@.len(),
            m == p@.len(),
            0 < m <= n,
            i <= n - m + 1,
            forall|j: int| 0 <= j < i ==> !occurs_at(s@, p@, j),
        decreases n - i,
    {
        if chars_equal_at(s, i, i + m, p) {
            assert(occurs_at(s@, p@, i as int));
            return true;
        }
        i = i + 1;
    }
    assert forall|j: int| !occurs_at(s@, p@, j) by {}
    false
}

/// Whether `s` begins with `p`.
pub fn starts_with(s: &str, p: &str) -> (r: bool)
    ensures
        r == occurs_at(s@, p@, 0),
{
    let n = s.unicode_len();
    let m = p.unicode_len();
    if m > n {
        return false;
    }
    chars_equal_at(s, 0, m, p)
}

proof fn lemma_remove_all_step(s: Seq<char>, p: Seq<char>, i: int)
    requires
        p.len() > 0,
        0 <= i < s.len(),
    ensures
        occurs_at(s, p, i) ==> remove_all(s.skip(i), p) == remove_all(s.skip(i + p.len()), p),
        !occurs_at(s, p, i) ==> remove_all(s.skip(i), p) == seq![s[i]] + remove_all(
            s.skip(i + 1),
            p,
        ),
{
    let t = s.skip(i);
    assert(occurs_at(s, p, i) <==> occurs_at(t, p, 0)) by {
        if i + p.len() <= s.len() {
            assert(s.subrange(i, i + p.len()) =~= t.subrange(0, p.len() as int));
        }
    }
    if occurs_at(s, p, i) {
        assert(t.skip(p.len() as int) =~= s.skip(i + p.len()));
    } else {
        assert(t.skip(1) =~= s.skip(i + 1));
    }
}

/// `s` with every occurrence of `p` deleted (see `remove_all`).
pub fn remove_occurrences(s: &str, p: &str) -> (r: String)
    ensures
        r@ == remove_all(s@, p@),
{
    let n = s.unicode_len();
    let m = p.unicode_len();
    if m == 0 {
        return String::from_str(s);
    }
    let mut out = String::new();
    let mut i: usize = 0;
    assert(s@.skip(0) =~= s@);
    while i < n
        invariant
            n == s@.len(),
            m == p@.len(),
            m > 0,
            i <= n,
            out@ + remove_all(s@.skip(i as int), p@) == remove_all(s@, p@),
        decreases n - i,
    {
        proof {
            lemma_remove_all_step(s@, p@, i as int);
        }
        if m <= n - i && chars_equal_at(s, i, i + m, p) {
            assert(occurs_at(s@, p@, i as int));
            i = i + m;
        } else {
            assert(!occurs_at(s@, p@, i as int));
            let c = s.substring_char(i, i + 1);
            assert(c@ =~= seq![s@[i as int]]);
            let ghost before = out@;
            out.append(c);
            assert(out@ + remove_all(s@.skip(i + 1), p@) =~= before + (seq![s@[i as int]]
                + remove_all(s@.skip(i + 1), p@)));
            i = i + 1;
        }
    }
    assert(s@.skip(n as int) =~= Seq::<char>::empty());
    assert(out@ =~= out@ + remove_all(s@.skip(n as int), p@));
    out
}

/// Whether two strings hold the same characters.
pub fn same_text(a: &str, b: &str) -> (r: bool)
    ensures
        r == (a@ == b@),
{
    let n = a.unicode_len();
    if n != b.unicode_len() {
        return false;
    }
    let mut k: usize = 0;
    while k < n
        invariant
            n == a@.len() == b@.len(),
            k <= n,
            forall|m: int| 0 <= m < k ==> a@[m] == b@[m],
        decreases n - k,
    {
        if a.get_char(k) != b.get_char(k) {
            return false;
        }
        k = k + 1;
    }
    assert(a@ =~= b@);
    true
}

/// A file name is no longer than its path.
pub proof fn lemma_file_name_shorter(s: Seq<char>)
    ensures
        file_name_of(s) matches Some(n) ==> n.len() <= s.len(),
    decreases s.len(),
{
    if s.len() > 0 {
        if s.last() == '/' {
            lemma_file_name_shorter(s.drop_last());
        } else {
            lemma_last_index_bounds(s, '/');
            let k = last_index(s, '/');
            if s.subrange(k + 1, s.len() as int) == seq!['.'] {
                lemma_file_name_shorter(s.subrange(0, k + 1));
            }
        }
    }
}

} // verus!

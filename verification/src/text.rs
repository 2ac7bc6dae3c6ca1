//! Character-sequence utilities shared by the protocol, engine and plugin modules.
//!
//! Strings are handled as `Vec<char>` inside the library; building a
//! `String` back from characters is the one trusted item here.

use vstd::prelude::*;
use vstd::std_specs::iter::IteratorSpec;

verus! {

/// `p` occurs in `s` starting at position `i`.
pub open spec fn occurs_at(s: Seq<char>, p: Seq<char>, i: int) -> bool {
    0 <= i && i + p.len() <= s.len() && s.subrange(i, i + p.len()) == p
}

/// `s` begins with `p`.
pub open spec fn starts_with(s: Seq<char>, p: Seq<char>) -> bool {
    occurs_at(s, p, 0)
}

/// Position of the leftmost occurrence of `p` in `s`.
#[verifier::opaque]
pub open spec fn first_occurrence(s: Seq<char>, p: Seq<char>) -> Option<int> {
    if exists|i: int| occurs_at(s, p, i) {
        Some(choose|i: int| occurs_at(s, p, i) && forall|j: int| 0 <= j < i ==> !occurs_at(s, p, j))
    } else {
        None
    }
}

/// The characters of a `&str`, in order.
pub fn chars_of(s: &str) -> (v: Vec<char>)
    ensures
        v@ == s@,
{
    broadcast use vstd::string::group_string_axioms;
    let mut v: Vec<char> = Vec::new();
    for c in it: s.chars()
        invariant
            v@ == it.seq().take(it.index() as int),
            it.seq() == s@,
    {
        v.push(c);
    }
    v
}

/// std's `String::from_iter` over characters: a `String` holding exactly
/// the given characters, in order.
#[verifier::external_body]
pub(crate) fn string_of(v: &[char]) -> (s: String)
    ensures
        s@ == v@,
{
    String::from_iter(v)
}

/// Does `p` occur in `s` at position `i`?
pub fn matches_at(s: &[char], p: &[char], i: usize) -> (b: bool)
    ensures
        b == occurs_at(s@, p@, i as int),
{
    if i > s.len() || p.len() > s.len() - i {
        return false;
    }
    let mut k: usize = 0;
    while k < p.len()
        invariant
            i + p.len() <= s.len(),
            k <= p.len(),
            forall|j: int| 0 <= j < k ==> s@[i + j] == p@[j],
        decreases p.len() - k,
    {
        if s[i + k] != p[k] {
            assert(s@.subrange(i as int, i + p.len())[k as int] != p@[k as int]);
            return false;
        }
        k += 1;
    }
    assert(s@.subrange(i as int, i + p.len()) =~= p@);
    true
}


/// `p` occurs somewhere in `s`.
pub open spec fn contains(s: Seq<char>, p: Seq<char>) -> bool {
    exists|i: int| occurs_at(s, p, i)
}

/// Leftmost-first, non-overlapping replacement of every `from` by `to`
/// (std's `str::replace` for a non-empty pattern).
pub open spec fn replace_all(s: Seq<char>, from: Seq<char>, to: Seq<char>) -> Seq<char>
    decreases s.len(),
{
    if from.len() == 0 || s.len() == 0 {
        s
    } else if starts_with(s, from) {
        to + replace_all(s.skip(from.len() as int), from, to)
    } else {
        seq![s[0]] + replace_all(s.drop_first(), from, to)
    }
}

/// Unicode `White_Space` (std's `char::is_whitespace`).
pub open spec fn is_whitespace(c: char) -> bool {
    ||| '\u{9}' <= c <= '\u{d}'
    ||| c == ' '
    ||| c == '\u{85}'
    ||| c == '\u{a0}'
    ||| c == '\u{1680}'
    ||| '\u{2000}' <= c <= '\u{200a}'
    ||| c == '\u{2028}'
    ||| c == '\u{2029}'
    ||| c == '\u{202f}'
    ||| c == '\u{205f}'
    ||| c == '\u{3000}'
}

pub open spec fn trim_start(s: Seq<char>) -> Seq<char>
    decreases s.len(),
{
    if s.len() > 0 && is_whitespace(s[0]) {
        trim_start(s.drop_first())
    } else {
        s
    }
}

pub open spec fn trim_end(s: Seq<char>) -> Seq<char>
    decreases s.len(),
{
    if s.len() > 0 && is_whitespace(s.last()) {
        trim_end(s.drop_last())
    } else {
        s
    }
}

/// Both ends stripped of whitespace (std's `str::trim`).
pub open spec fn trim(s: Seq<char>) -> Seq<char> {
    trim_end(trim_start(s))
}

/// Repeated removal of the prefix `p` (std's `trim_start_matches` with a
/// non-empty string pattern).
pub open spec fn trim_prefix_all(s: Seq<char>, p: Seq<char>) -> Seq<char>
    decreases s.len(),
{
    if p.len() > 0 && starts_with(s, p) {
        trim_prefix_all(s.skip(p.len() as int), p)
    } else {
        s
    }
}

pub proof fn lemma_skip_starts_with(s: Seq<char>, p: Seq<char>, i: int)
    requires
        0 <= i <= s.len(),
    ensures
        occurs_at(s, p, i) == starts_with(s.skip(i), p),
{
    if i + p.len() <= s.len() {
        assert(s.skip(i).subrange(0, p.len() as int) =~= s.subrange(i, i + p.len()));
    }
}

/// Copy of `s[a..b]`.
pub fn copy_range(s: &[char], a: usize, b: usize) -> (r: Vec<char>)
    requires
        a <= b <= s.len(),
    ensures
        r@ == s@.subrange(a as int, b as int),
{
    let mut r: Vec<char> = Vec::new();
    let mut k = a;
    while k < b
        invariant
            a <= k <= b <= s.len(),
            r@ == s@.subrange(a as int, k as int),
        decreases b - k,
    {
        r.push(s[k]);
        k += 1;
        assert(r@ =~= s@.subrange(a as int, k as int));
    }
    r
}

/// Leftmost occurrence of `p` in `s` (std's `str::find`).
pub fn find(s: &[char], p: &[char]) -> (r: Option<usize>)
    ensures
        match r {
            Some(i) => first_occurrence(s@, p@) == Some(i as int),
            None => first_occurrence(s@, p@) is None,
        },
        r matches Some(i) ==> occurs_at(s@, p@, i as int) && forall|j: int|
            0 <= j < i ==> !occurs_at(s@, p@, j),
        r is None ==> !contains(s@, p@),
{
    reveal(first_occurrence);
    if p.len() > s.len() {
        assert(!contains(s@, p@));
        return None;
    }
    if p.len() == 0 {
        assert(occurs_at(s@, p@, 0)) by {
            assert(s@.subrange(0, 0) =~= p@);
        }
        let ghost c = choose|c: int| occurs_at(s@, p@, c) && forall|j: int| 0 <= j < c ==> !occurs_at(s@, p@, j);
        assert(occurs_at(s@, p@, c) && forall|j: int| 0 <= j < c ==> !occurs_at(s@, p@, j)) by {
            assert(occurs_at(s@, p@, 0) && forall|j: int| 0 <= j < 0 ==> !occurs_at(s@, p@, j));
        }
        assert(c == 0) by {
            if c > 0 {
                assert(!occurs_at(s@, p@, 0));
            }
        }
        return Some(0);
    }
    let last = s.len() - p.len();
    let mut i: usize = 0;
    while i <= last
        invariant
            last == s.len() - p.len(),
            0 < p.len() <= s.len(),
            i <= last + 1,
            forall|j: int| 0 <= j < i ==> !occurs_at(s@, p@, j),
        decreases last + 1 - i,
    {
        if matches_at(s, p, i) {
            assert(occurs_at(s@, p@, i as int) && forall|j: int| 0 <= j < i ==> !occurs_at(s@, p@, j));
            let ghost c = choose|c: int| occurs_at(s@, p@, c) && forall|j: int| 0 <= j < c ==> !occurs_at(s@, p@, j);
            assert(occurs_at(s@, p@, c) && forall|j: int| 0 <= j < c ==> !occurs_at(s@, p@, j));
            assert(c == i as int) by {
                if c < i as int {
                } else if c > i as int {
                    assert(!occurs_at(s@, p@, i as int));
                }
            }
            assert(exists|x: int| occurs_at(s@, p@, x));
            reveal(first_occurrence);
            return Some(i);
        }
        i += 1;
    }
    assert(!contains(s@, p@)) by {
        assert forall|j: int| !occurs_at(s@, p@, j) by {
            if 0 <= j <= last as int {
                assert(j < i);
            }
        }
    }
    None
}

/// Does `p` occur in `s` (std's `str::contains`)?
pub fn contains_seq(s: &[char], p: &[char]) -> (b: bool)
    ensures
        b == contains(s@, p@),
{
    match find(s, p) {
        Some(_) => true,
        None => false,
    }
}

/// std's `str::replace` for a non-empty pattern.
pub fn replace_seq(s: &[char], from: &[char], to: &[char]) -> (r: Vec<char>)
    requires
        from.len() > 0,
    ensures
        r@ == replace_all(s@, from@, to@),
{
    let mut out: Vec<char> = Vec::new();
    let mut i: usize = 0;
    let n = s.len();
    assert(s@.skip(0) =~= s@);
    while i < n
        invariant
            n == s.len(),
            i <= n,
            from.len() > 0,
            out@ + replace_all(s@.skip(i as int), from@, to@) == replace_all(s@, from@, to@),
        decreases n - i,
    {
        proof {
            lemma_skip_starts_with(s@, from@, i as int);
        }
        let ghost before = out@;
        if matches_at(s, from, i) {
            let mut k: usize = 0;
            while k < to.len()
                invariant
                    k <= to.len(),
                    out@ == before + to@.subrange(0, k as int),
                decreases to.len() - k,
            {
                out.push(to[k]);
                k += 1;
                assert(out@ =~= before + to@.subrange(0, k as int));
            }
            assert(to@.subrange(0, to.len() as int) =~= to@);
            assert(s@.skip(i as int).skip(from.len() as int) =~= s@.skip(i + from.len()));
            i += from.len();
        } else {
            out.push(s[i]);
            assert(s@.skip(i as int).drop_first() =~= s@.skip(i + 1));
            assert(out@ =~= before + seq![s@.skip(i as int)[0]]);
            i += 1;
        }
    }
    assert(s@.skip(i as int).len() == 0);
    out
}

/// std's `str::trim`.
pub fn trim_seq(s: &[char]) -> (r: Vec<char>)
    ensures
        r@ == trim(s@),
{
    let n = s.len();
    let mut a: usize = 0;
    assert(s@.skip(0) =~= s@);
    while a < n && is_whitespace_char(s[a])
        invariant
            n == s.len(),
            a <= n,
            trim_start(s@.skip(a as int)) == trim_start(s@),
        decreases n - a,
    {
        assert(s@.skip(a as int).drop_first() =~= s@.skip(a + 1));
        a += 1;
    }
    assert(trim_start(s@) == s@.subrange(a as int, n as int)) by {
        assert(s@.skip(a as int) =~= s@.subrange(a as int, n as int));
    }
    let mut b: usize = n;
    while b > a && is_whitespace_char(s[b - 1])
        invariant
            n == s.len(),
            a <= b <= n,
            trim_end(s@.subrange(a as int, b as int)) == trim(s@),
        decreases b - a,
    {
        assert(s@.subrange(a as int, b as int).drop_last() =~= s@.subrange(a as int, b - 1));
        b -= 1;
    }
    copy_range(s, a, b)
}

/// std's `char::is_whitespace`.
pub fn is_whitespace_char(c: char) -> (b: bool)
    ensures
        b == is_whitespace(c),
{
    ('\u{9}' <= c && c <= '\u{d}') || c == ' ' || c == '\u{85}' || c == '\u{a0}' || c == '\u{1680}'
        || ('\u{2000}' <= c && c <= '\u{200a}') || c == '\u{2028}' || c == '\u{2029}' || c
        == '\u{202f}' || c == '\u{205f}' || c == '\u{3000}'
}

/// std's `str::trim_start_matches` for a non-empty string pattern.
pub fn trim_prefix_seq(s: &[char], p: &[char]) -> (r: Vec<char>)
    requires
        p.len() > 0,
    ensures
        r@ == trim_prefix_all(s@, p@),
{
    let mut a: usize = 0;
    let n = s.len();
    assert(s@.skip(0) =~= s@);
    while matches_at(s, p, a)
        invariant
            n == s.len(),
            a <= n,
            p.len() > 0,
            trim_prefix_all(s@.skip(a as int), p@) == trim_prefix_all(s@, p@),
        decreases n - a,
    {
        proof {
            lemma_skip_starts_with(s@, p@, a as int);
        }
        assert(s@.skip(a as int).skip(p.len() as int) =~= s@.skip(a + p.len()));
        a += p.len();
    }
    proof {
        lemma_skip_starts_with(s@, p@, a as int);
    }
    assert(s@.skip(a as int) =~= s@.subrange(a as int, n as int));
    copy_range(s, a, n)
}


/// Index of the first `c` in `s`, or `s.len()` when there is none.
pub open spec fn first_index_of(s: Seq<char>, c: char) -> int
    decreases s.len(),
{
    if s.len() == 0 {
        0
    } else if s[0] == c {
        0
    } else {
        1 + first_index_of(s.drop_first(), c)
    }
}

pub proof fn lemma_first_index_of(s: Seq<char>, c: char)
    ensures
        0 <= first_index_of(s, c) <= s.len(),
        forall|j: int| 0 <= j < first_index_of(s, c) ==> s[j] != c,
        first_index_of(s, c) < s.len() ==> s[first_index_of(s, c)] == c,
    decreases s.len(),
{
    if s.len() > 0 && s[0] != c {
        lemma_first_index_of(s.drop_first(), c);
        assert forall|j: int| 0 <= j < first_index_of(s, c) implies s[j] != c by {
            if j > 0 {
                assert(s[j] == s.drop_first()[j - 1]);
            }
        }
    }
}

pub proof fn lemma_first_index_of_unique(s: Seq<char>, c: char, k: int)
    requires
        0 <= k <= s.len(),
        forall|j: int| 0 <= j < k ==> s[j] != c,
        k < s.len() ==> s[k] == c,
    ensures
        first_index_of(s, c) == k,
{
    lemma_first_index_of(s, c);
    let f = first_index_of(s, c);
    if f < k {
        assert(s[f] == c);
    } else if k < f {
        assert(s[k] != c);
    }
}

/// A trailing carriage return removed.
pub open spec fn strip_cr(s: Seq<char>) -> Seq<char> {
    if s.len() > 0 && s.last() == '\r' {
        s.drop_last()
    } else {
        s
    }
}

/// std's `str::lines`: pieces split at `\n`, each `\n`-terminated piece
/// without a trailing `\r`, and no empty piece after a final `\n`.
pub open spec fn lines_of(s: Seq<char>) -> Seq<Seq<char>>
    decreases s.len(),
{
    if s.len() == 0 {
        seq![]
    } else {
        let k = first_index_of(s, '\n');
        proof {
            lemma_first_index_of(s, '\n');
        }
        if k >= s.len() {
            seq![s]
        } else {
            seq![strip_cr(s.take(k))] + lines_of(s.skip(k + 1))
        }
    }
}

/// The pieces joined by `\n` (std's `join("\n")`).
pub open spec fn join_lines(lines: Seq<Seq<char>>) -> Seq<char>
    decreases lines.len(),
{
    if lines.len() == 0 {
        seq![]
    } else if lines.len() == 1 {
        lines[0]
    } else {
        join_lines(lines.drop_last()) + seq!['\n'] + lines.last()
    }
}

/// std's `str::lines`.
pub fn split_lines(s: &[char]) -> (r: Vec<Vec<char>>)
    ensures
        r@.map_values(|v: Vec<char>| v@) == lines_of(s@),
{
    let n = s.len();
    let mut out: Vec<Vec<char>> = Vec::new();
    let mut start: usize = 0;
    assert(s@.skip(0) =~= s@);
    while start < n
        invariant
            n == s.len(),
            start <= n,
            out@.map_values(|v: Vec<char>| v@) + lines_of(s@.skip(start as int)) == lines_of(s@),
        decreases n - start,
    {
        let ghost t = s@.skip(start as int);
        let ghost before = out@.map_values(|v: Vec<char>| v@);
        let mut j = start;
        while j < n && s[j] != '\n'
            invariant
                n == s.len(),
                start <= j <= n,
                forall|m: int| start <= m < j ==> s@[m] != '\n',
            decreases n - j,
        {
            j += 1;
        }
        proof {
            lemma_first_index_of_unique(t, '\n', j - start);
        }
        if j == n {
            let piece = copy_range(s, start, n);
            assert(piece@ =~= t);
            out.push(piece);
            assert(out@.map_values(|v: Vec<char>| v@) =~= before + seq![t]);
            assert(lines_of(s@.skip(n as int)) =~= seq![]) by {
                assert(s@.skip(n as int).len() == 0);
            }
            assert(before + lines_of(t) =~= out@.map_values(|v: Vec<char>| v@) + lines_of(s@.skip(n as int)));
            start = n;
        } else {
            let mut piece = copy_range(s, start, j);
            assert(piece@ =~= t.take(j - start));
            if j > start && s[j - 1] == '\r' {
                piece.pop();
            }
            assert(piece@ =~= strip_cr(t.take(j - start)));
            out.push(piece);
            assert(out@.map_values(|v: Vec<char>| v@) =~= before + seq![strip_cr(t.take(j - start))]);
            assert(t.skip(j - start + 1) =~= s@.skip(j + 1));
            assert(before + lines_of(t) =~= out@.map_values(|v: Vec<char>| v@) + lines_of(s@.skip(j + 1)));
            start = j + 1;
        }
    }
    assert(out@.map_values(|v: Vec<char>| v@) + lines_of(s@.skip(start as int)) =~= out@.map_values(|v: Vec<char>| v@)) by {
        assert(s@.skip(start as int).len() == 0);
    }
    out
}

/// std's `join("\n")` on a run of lines.
pub fn join_with_newlines(lines: &[String], start: usize, end: usize) -> (r: Vec<char>)
    requires
        start <= end <= lines.len(),
    ensures
        r@ == join_lines(lines@.subrange(start as int, end as int).map_values(|l: String| l@)),
{
    let mut out: Vec<char> = Vec::new();
    let mut k = start;
    while k < end
        invariant
            start <= k <= end <= lines.len(),
            out@ == join_lines(lines@.subrange(start as int, k as int).map_values(|l: String| l@)),
        decreases end - k,
    {
        let ghost prev = lines@.subrange(start as int, k as int).map_values(|l: String| l@);
        let ghost next = lines@.subrange(start as int, k + 1).map_values(|l: String| l@);
        assert(next.drop_last() =~= prev);
        let line = chars_of(lines[k].as_str());
        if k > start {
            out.push('\n');
        }
        let ghost with_sep = out@;
        let mut m: usize = 0;
        while m < line.len()
            invariant
                m <= line.len(),
                out@ == with_sep + line@.subrange(0, m as int),
            decreases line.len() - m,
        {
            out.push(line[m]);
            m += 1;
            assert(out@ =~= with_sep + line@.subrange(0, m as int));
        }
        assert(line@.subrange(0, line.len() as int) =~= line@);
        if k == start {
            assert(out@ =~= next[0]);
        } else {
            assert(out@ =~= join_lines(prev) + seq!['\n'] + next.last());
        }
        k += 1;
    }
    out
}

/// Position of the last `c` in `s` (std's `str::rfind` with a char).
pub open spec fn last_index_of(s: Seq<char>, c: char) -> Option<int>
    decreases s.len(),
{
    if s.len() == 0 {
        None
    } else if s.last() == c {
        Some(s.len() - 1)
    } else {
        last_index_of(s.drop_last(), c)
    }
}

/// std's `str::rfind` with a char pattern.
pub fn rfind_char(s: &[char], c: char) -> (r: Option<usize>)
    ensures
        match r {
            Some(i) => last_index_of(s@, c) == Some(i as int) && i < s.len(),
            None => last_index_of(s@, c) is None,
        },
{
    let mut k = s.len();
    assert(s@.subrange(0, k as int) =~= s@);
    while k > 0 && s[k - 1] != c
        invariant
            k <= s.len(),
            last_index_of(s@.subrange(0, k as int), c) == last_index_of(s@, c),
        decreases k,
    {
        assert(s@.subrange(0, k as int).drop_last() =~= s@.subrange(0, k - 1));
        k -= 1;
    }
    if k == 0 {
        assert(s@.subrange(0, 0).len() == 0);
        None
    } else {
        Some(k - 1)
    }
}

pub proof fn lemma_first_occurrence(s: Seq<char>, p: Seq<char>)
    ensures
        first_occurrence(s, p) matches Some(i) ==> occurs_at(s, p, i) && 0 <= i && i + p.len() <= s.len(),
{
    reveal(first_occurrence);
    if exists|i: int| occurs_at(s, p, i) {
        let w = choose|i: int| occurs_at(s, p, i);
        lemma_has_first(s, p, w);
    }
}

/// When `p` occurs somewhere, it has a leftmost occurrence.
pub proof fn lemma_has_first(s: Seq<char>, p: Seq<char>, w: int)
    requires
        occurs_at(s, p, w),
    ensures
        exists|i: int| occurs_at(s, p, i) && forall|j: int| 0 <= j < i ==> !occurs_at(s, p, j),
    decreases w,
{
    if exists|j: int| 0 <= j < w && occurs_at(s, p, j) {
        let j = choose|j: int| 0 <= j < w && occurs_at(s, p, j);
        lemma_has_first(s, p, j);
    } else {
        assert(occurs_at(s, p, w) && forall|j: int| 0 <= j < w ==> !occurs_at(s, p, j));
    }
}

/// No line that `lines_of` yields holds a newline.
pub proof fn law_lines_hold_no_newline(s: Seq<char>)
    ensures
        forall|i: int, j: int| 0 <= i < lines_of(s).len() && 0 <= j < lines_of(s)[i].len() ==> #[trigger] lines_of(
            s,
        )[i][j] != '\n',
    decreases s.len(),
{
    if s.len() > 0 {
        lemma_first_index_of(s, '\n');
        let k = first_index_of(s, '\n');
        if k < s.len() {
            law_lines_hold_no_newline(s.skip(k + 1));
            let head = strip_cr(s.take(k));
            let rest = lines_of(s.skip(k + 1));
            assert(lines_of(s) == seq![head] + rest);
            assert forall|i: int, j: int| 0 <= i < lines_of(s).len() && 0 <= j < lines_of(s)[i].len() implies #[trigger] lines_of(
                s,
            )[i][j] != '\n' by {
                if i == 0 {
                    assert(lines_of(s)[0] == head);
                    assert(head[j] == s[j]);
                } else {
                    assert(lines_of(s)[i] == rest[i - 1]);
                }
            }
        }
    }
}

} // verus!

//! Character-level text handling: splitting into lines and fields,
//! trimming, prefix tests and case-insensitive comparison.
//!
//! All functions work on sequences of `char`, which is exactly what a Rust
//! `str` denotes (its view is `Seq<char>`).
use vstd::prelude::*;

verus! {

/// The pieces of `s` between occurrences of `sep`, in order; always at least one
/// piece (`str::split` with a `char` pattern).
pub open spec fn split_seq(s: Seq<char>, sep: char) -> Seq<Seq<char>>
    decreases s.len(),
{
    if s.len() == 0 {
        seq![Seq::<char>::empty()]
    } else {
        let pre = split_seq(s.drop_last(), sep);
        if s.last() == sep {
            pre.push(Seq::<char>::empty())
        } else {
            pre.update(pre.len() - 1, pre.last().push(s.last()))
        }
    }
}

/// `l` without one trailing carriage return, if it has one.
pub open spec fn strip_one_cr(l: Seq<char>) -> Seq<char> {
    if l.len() > 0 && l.last() == '\r' {
        l.drop_last()
    } else {
        l
    }
}

/// The lines of `s` as `str::lines` yields them: split at `'\n'`, a line that
/// was ended by `"\r\n"` loses its `'\r'`, and a final line ending does not
/// start another line.
pub open spec fn lines_seq(s: Seq<char>) -> Seq<Seq<char>> {
    if s.len() == 0 {
        Seq::empty()
    } else {
        let p = split_seq(s, '\n');
        let ended = p.take(p.len() - 1).map_values(|l: Seq<char>| strip_one_cr(l));
        if s.last() == '\n' {
            ended
        } else {
            ended.push(p.last())
        }
    }
}

/// `s` without all trailing occurrences of `c` (`str::trim_end_matches`).
pub open spec fn trim_end_seq(s: Seq<char>, c: char) -> Seq<char>
    decreases s.len(),
{
    if s.len() > 0 && s.last() == c {
        trim_end_seq(s.drop_last(), c)
    } else {
        s
    }
}

/// `s` without all leading occurrences of `c` (`str::trim_start_matches`).
pub open spec fn trim_start_seq(s: Seq<char>, c: char) -> Seq<char>
    decreases s.len(),
{
    if s.len() > 0 && s[0] == c {
        trim_start_seq(s.drop_first(), c)
    } else {
        s
    }
}

/// `s` without all leading and trailing occurrences of `c` (`str::trim_matches`).
pub open spec fn trim_both_seq(s: Seq<char>, c: char) -> Seq<char> {
    trim_start_seq(trim_end_seq(s, c), c)
}

/// `s` begins with `p`.
pub open spec fn has_prefix(s: Seq<char>, p: Seq<char>) -> bool {
    p.len() <= s.len() && s.take(p.len() as int) == p
}

/// ASCII upper-case letters become lower case; every other char is unchanged.
pub open spec fn ascii_lower(c: char) -> char {
    if 'A' <= c && c <= 'Z' {
        ((c as u32) + 32) as char
    } else {
        c
    }
}

/// `a` and `b` are equal once ASCII letters are folded to lower case
/// (`str::eq_ignore_ascii_case`).
pub open spec fn eq_ignore_ascii_case_seq(a: Seq<char>, b: Seq<char>) -> bool {
    a.len() == b.len() && forall|i: int| 0 <= i < a.len() ==> ascii_lower(a[i]) == ascii_lower(b[i])
}

/// Splitting always yields at least one piece.
pub proof fn lemma_split_nonempty(s: Seq<char>, sep: char)
    ensures
        split_seq(s, sep).len() >= 1,
    decreases s.len(),
{
    if s.len() > 0 {
        lemma_split_nonempty(s.drop_last(), sep);
    }
}

/// The chars of `s`, in order.
pub fn chars_of(s: &str) -> (v: Vec<char>)
    ensures
        v@ == s@,
{
    let mut v: Vec<char> = Vec::new();
    for c in it: s.chars()
        invariant
            it.seq() == s@,
            v@ == it.seq().take(it.index() as int),
    {
        v.push(c);
    }
    v
}

/// Appends the chars of `s`.
pub(crate) fn push_str(out: &mut Vec<char>, s: &str)
    ensures
        final(out)@ == old(out)@ + s@,
{
    let cs = chars_of(s);
    let mut i: usize = 0;
    let ghost start = out@;
    while i < cs.len()
        invariant
            i <= cs@.len(),
            out@ == start + cs@.take(i as int),
        decreases cs.len() - i,
    {
        out.push(cs[i]);
        assert(cs@.take(i + 1) == cs@.take(i as int).push(cs@[i as int]));
        i = i + 1;
    }
    assert(cs@.take(cs@.len() as int) == cs@);
}

/// Builds a `String` from chars, through `String`'s `FromIterator<&char>`
/// impl; assumed: the string holds exactly those chars in that order.
#[verifier::external_body]
pub(crate) fn string_from_chars(v: &[char]) -> (s: String)
    ensures
        s@ == v@,
{
    String::from_iter(v.iter())
}

/// The pieces of `s` between occurrences of `sep` (`str::split`).
pub fn split_chars(s: &[char], sep: char) -> (pieces: Vec<Vec<char>>)
    ensures
        pieces@.len() == split_seq(s@, sep).len(),
        forall|i: int| 0 <= i < pieces@.len() ==> #[trigger] pieces@[i]@ == split_seq(s@, sep)[i],
{
    let mut done: Vec<Vec<char>> = Vec::new();
    let mut cur: Vec<char> = Vec::new();
    let mut i: usize = 0;
    while i < s.len()
        invariant
            i <= s.len(),
            done@.len() + 1 == split_seq(s@.take(i as int), sep).len(),
            forall|k: int| 0 <= k < done@.len() ==> #[trigger] done@[k]@ == split_seq(s@.take(i as int), sep)[k],
            cur@ == split_seq(s@.take(i as int), sep).last(),
        decreases s.len() - i,
    {
        assert(s@.take(i + 1).drop_last() == s@.take(i as int));
        if s[i] == sep {
            let mut finished: Vec<char> = Vec::new();
            std::mem::swap(&mut finished, &mut cur);
            done.push(finished);
        } else {
            cur.push(s[i]);
        }
        i = i + 1;
    }
    assert(s@.take(s.len() as int) == s@);
    done.push(cur);
    done
}

/// `l` without one trailing `'\r'`.
fn strip_cr(l: Vec<char>) -> (r: Vec<char>)
    ensures
        r@ == strip_one_cr(l@),
{
    let mut l = l;
    if l.len() > 0 && l[l.len() - 1] == '\r' {
        l.pop();
    }
    l
}

/// The lines of `s` (`str::lines`).
pub fn lines_of(s: &[char]) -> (lines: Vec<Vec<char>>)
    ensures
        lines@.len() == lines_seq(s@).len(),
        forall|i: int| 0 <= i < lines@.len() ==> #[trigger] lines@[i]@ == lines_seq(s@)[i],
{
    if s.len() == 0 {
        return Vec::new();
    }
    let pieces = split_chars(s, '\n');
    let ghost p = split_seq(s@, '\n');
    proof {
        lemma_split_nonempty(s@, '\n');
    }
    let n = pieces.len();
    let mut out: Vec<Vec<char>> = Vec::new();
    let mut pieces = pieces;
    let mut rest: Vec<Vec<char>> = Vec::new();
    // move the pieces out in order
    let mut k: usize = n;
    while k > 0
        invariant
            k <= n,
            n == p.len(),
            pieces@.len() == k,
            forall|j: int| 0 <= j < k ==> #[trigger] pieces@[j]@ == p[j],
            rest@.len() == n - k,
            forall|j: int| 0 <= j < n - k ==> #[trigger] rest@[j]@ == p[n - 1 - j],
        decreases k,
    {
        let x = pieces.pop().unwrap();
        rest.push(x);
        k = k - 1;
    }
    let ghost ended = p.take(p.len() - 1).map_values(|l: Seq<char>| strip_one_cr(l));
    let mut j: usize = 0;
    while j + 1 < n
        invariant
            n == p.len(),
            n >= 1,
            j + 1 <= n,
            rest@.len() == n - j,
            forall|q: int| 0 <= q < n - j ==> #[trigger] rest@[q]@ == p[n - 1 - q],
            out@.len() == j,
            ended.len() == n - 1,
            ended == p.take(p.len() - 1).map_values(|l: Seq<char>| strip_one_cr(l)),
            forall|q: int| 0 <= q < j ==> #[trigger] out@[q]@ == ended[q],
        decreases n - j,
    {
        let x = rest.pop().unwrap();
        assert(x@ == p[j as int]);
        assert(p.take(p.len() - 1)[j as int] == p[j as int]);
        let y = strip_cr(x);
        assert(y@ == ended[j as int]);
        out.push(y);
        j = j + 1;
    }
    if s[s.len() - 1] != '\n' {
        let x = rest.pop().unwrap();
        out.push(x);
    }
    out
}

/// `s` without all trailing occurrences of `c`.
pub fn trim_end_char(s: &[char], c: char) -> (r: Vec<char>)
    ensures
        r@ == trim_end_seq(s@, c),
{
    let mut end = s.len();
    assert(s@.take(end as int) == s@);
    while end > 0 && s[end - 1] == c
        invariant
            end <= s.len(),
            trim_end_seq(s@.take(end as int), c) == trim_end_seq(s@, c),
        decreases end,
    {
        assert(s@.take(end as int).drop_last() == s@.take(end - 1));
        end = end - 1;
    }
    let mut r: Vec<char> = Vec::new();
    let mut i: usize = 0;
    while i < end
        invariant
            end <= s.len(),
            i <= end,
            r@ == s@.take(i as int),
        decreases end - i,
    {
        r.push(s[i]);
        assert(s@.take(i + 1) == s@.take(i as int).push(s@[i as int]));
        i = i + 1;
    }
    r
}

/// `s` without all leading and trailing occurrences of `c`.
pub fn trim_both_char(s: &[char], c: char) -> (r: Vec<char>)
    ensures
        r@ == trim_both_seq(s@, c),
{
    let t = trim_end_char(s, c);
    let mut start: usize = 0;
    assert(t@.skip(0) == t@);
    while start < t.len() && t[start] == c
        invariant
            start <= t@.len(),
            trim_start_seq(t@.skip(start as int), c) == trim_start_seq(t@, c),
        decreases t.len() - start,
    {
        assert(t@.skip(start as int).drop_first() == t@.skip(start + 1));
        start = start + 1;
    }
    let mut r: Vec<char> = Vec::new();
    let mut i: usize = start;
    while i < t.len()
        invariant
            start <= i <= t@.len(),
            r@ == t@.subrange(start as int, i as int),
        decreases t.len() - i,
    {
        r.push(t[i]);
        assert(t@.subrange(start as int, i + 1) == t@.subrange(start as int, i as int).push(t@[i as int]));
        i = i + 1;
    }
    assert(t@.skip(start as int) == t@.subrange(start as int, t@.len() as int));
    r
}

/// `s` begins with `p`.
pub fn starts_with(s: &[char], p: &[char]) -> (b: bool)
    ensures
        b == has_prefix(s@, p@),
{
    if p.len() > s.len() {
        return false;
    }
    let mut i: usize = 0;
    while i < p.len()
        invariant
            p@.len() <= s@.len(),
            i <= p@.len(),
            forall|k: int| 0 <= k < i ==> s@[k] == p@[k],
        decreases p.len() - i,
    {
        if s[i] != p[i] {
            assert(s@.take(p@.len() as int)[i as int] != p@[i as int]);
            return false;
        }
        i = i + 1;
    }
    assert(s@.take(p@.len() as int) =~= p@);
    true
}

/// `s` with its first `k` chars left out.
pub fn skip_chars(s: &[char], k: usize) -> (r: Vec<char>)
    requires
        k <= s@.len(),
    ensures
        r@ == s@.skip(k as int),
{
    let mut r: Vec<char> = Vec::new();
    let mut i: usize = k;
    while i < s.len()
        invariant
            k <= i <= s@.len(),
            r@ == s@.subrange(k as int, i as int),
        decreases s.len() - i,
    {
        r.push(s[i]);
        assert(s@.subrange(k as int, i + 1) == s@.subrange(k as int, i as int).push(s@[i as int]));
        i = i + 1;
    }
    assert(s@.skip(k as int) == s@.subrange(k as int, s@.len() as int));
    r
}

/// `c` with ASCII upper-case letters folded to lower case.
pub fn ascii_lower_char(c: char) -> (r: char)
    ensures
        r == ascii_lower(c),
{
    if 'A' <= c && c <= 'Z' {
        let u: u32 = (c as u32) + 32;
        let b: u8 = u as u8;
        assert(b as u32 == u);
        (b as char)
    } else {
        c
    }
}

/// `a` and `b` are equal apart from the case of ASCII letters.
pub fn eq_ignore_ascii_case(a: &[char], b: &[char]) -> (r: bool)
    ensures
        r == eq_ignore_ascii_case_seq(a@, b@),
{
    if a.len() != b.len() {
        return false;
    }
    let mut i: usize = 0;
    while i < a.len()
        invariant
            a@.len() == b@.len(),
            i <= a@.len(),
            forall|k: int| 0 <= k < i ==> ascii_lower(a@[k]) == ascii_lower(b@[k]),
        decreases a.len() - i,
    {
        if ascii_lower_char(a[i]) != ascii_lower_char(b[i]) {
            return false;
        }
        i = i + 1;
    }
    true
}

} // verus!

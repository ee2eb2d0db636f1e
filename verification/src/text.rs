//! Character-level helpers: conversions between `str`, `String` and
//! `Vec<char>`, and splitting text into lines the way `str::lines` does.
use vstd::prelude::*;
use vstd::string::*;

verus! {

/// `String::push`: appends one character.
#[verifier::external_body]
pub(crate) fn push_char(s: &mut String, c: char)
    ensures
        final(s)@ == old(s)@.push(c),
{
    s.push(c);
}

/// Whether two string slices hold the same characters.
pub(crate) fn str_eq(a: &str, b: &str) -> (r: bool)
    ensures
        r == (a@ == b@),
{
    let n = a.unicode_len();
    if n != b.unicode_len() {
        return false;
    }
    let mut i: usize = 0;
    while i < n
        invariant
            i <= n,
            n == a@.len(),
            n == b@.len(),
            forall|j: int| 0 <= j < i ==> a@[j] == b@[j],
        decreases n - i,
    {
        if a.get_char(i) != b.get_char(i) {
            return false;
        }
        i = i + 1;
    }
    assert(a@ =~= b@);
    true
}

/// The characters of `s`, in order.
pub fn str_to_chars(s: &str) -> (r: Vec<char>)
    ensures
        r@ == s@,
{
    let n = s.unicode_len();
    let mut v: Vec<char> = Vec::new();
    let mut i: usize = 0;
    while i < n
        invariant
            i <= n,
            n == s@.len(),
            v@ == s@.take(i as int),
        decreases n - i,
    {
        let c = s.get_char(i);
        v.push(c);
        i = i + 1;
        assert(v@ =~= s@.take(i as int));
    }
    assert(v@ =~= s@);
    v
}

/// A `String` holding exactly the characters of `v`.
pub fn chars_to_string(v: &[char]) -> (r: String)
    ensures
        r@ == v@,
{
    let mut s = String::new();
    let mut i: usize = 0;
    while i < v.len()
        invariant
            i <= v.len(),
            s@ == v@.take(i as int),
        decreases v.len() - i,
    {
        push_char(&mut s, v[i]);
        i = i + 1;
        assert(s@ =~= v@.take(i as int));
    }
    assert(v@.take(v@.len() as int) =~= v@);
    s
}

/// Number of characters before the first `c` (the whole length if there is
/// none).
pub open spec fn pos_of(s: Seq<char>, c: char) -> nat
    decreases s.len(),
{
    if s.len() == 0 || s[0] == c {
        0
    } else {
        1 + pos_of(s.drop_first(), c)
    }
}

/// Drops one trailing carriage return, if there is one.
pub open spec fn strip_cr(s: Seq<char>) -> Seq<char> {
    if s.len() > 0 && s.last() == '\r' {
        s.drop_last()
    } else {
        s
    }
}

pub proof fn lemma_pos_of_bound(s: Seq<char>, c: char)
    ensures
        pos_of(s, c) <= s.len(),
        pos_of(s, c) < s.len() ==> s[pos_of(s, c) as int] == c,
        forall|j: int| 0 <= j < pos_of(s, c) ==> s[j] != c,
    decreases s.len(),
{
    if s.len() > 0 && s[0] != c {
        lemma_pos_of_bound(s.drop_first(), c);
        assert forall|j: int| 0 <= j < pos_of(s, c) implies s[j] != c by {
            if j > 0 {
                assert(s[j] == s.drop_first()[j - 1]);
            }
        }
    }
}

/// The lines of `s` as `str::lines` yields them: split at each `'\n'`, a
/// `'\r'` right before a `'\n'` is dropped, and a final line ending adds no
/// empty line.
pub open spec fn lines(s: Seq<char>) -> Seq<Seq<char>>
    decreases s.len(),
{
    if s.len() == 0 {
        seq![]
    } else {
        let k = pos_of(s, '\n');
        if k < s.len() {
            proof {
                lemma_pos_of_bound(s, '\n');
            }
            seq![strip_cr(s.take(k as int))] + lines(s.skip(k as int + 1))
        } else {
            seq![s]
        }
    }
}

pub proof fn lemma_pos_of_exact(s: Seq<char>, c: char, m: int)
    requires
        0 <= m <= s.len(),
        forall|j: int| 0 <= j < m ==> s[j] != c,
        m == s.len() || s[m] == c,
    ensures
        pos_of(s, c) == m,
    decreases s.len(),
{
    if m > 0 {
        assert forall|j: int| 0 <= j < m - 1 implies s.drop_first()[j] != c by {
            assert(s.drop_first()[j] == s[j + 1]);
        }
        if m < s.len() {
            assert(s.drop_first()[m - 1] == s[m]);
        }
        lemma_pos_of_exact(s.drop_first(), c, m - 1);
    }
}

/// The pieces of `s` between occurrences of `c`, as `str::split(c)` yields
/// them: always at least one piece, empty pieces kept.
pub open spec fn split_on(s: Seq<char>, c: char) -> Seq<Seq<char>>
    decreases s.len(),
{
    let k = pos_of(s, c);
    if k < s.len() {
        proof {
            lemma_pos_of_bound(s, c);
        }
        seq![s.take(k as int)] + split_on(s.skip(k as int + 1), c)
    } else {
        seq![s]
    }
}

pub open spec fn has_no(s: Seq<char>, c: char) -> bool {
    forall|i: int| 0 <= i < s.len() ==> s[i] != c
}

/// A line without a line feed, followed by `\r\n`, is read as that line.
pub proof fn lemma_lines_crlf(a: Seq<char>, rest: Seq<char>)
    requires
        has_no(a, '\n'),
    ensures
        lines(a + seq!['\r', '\n'] + rest) == seq![a] + lines(rest),
{
    let s = a + seq!['\r', '\n'] + rest;
    let m: int = a.len() as int + 1;
    assert forall|j: int| 0 <= j < m implies s[j] != '\n' by {
        if j < a.len() {
            assert(s[j] == a[j]);
        } else {
            assert(s[j] == '\r');
        }
    }
    assert(s[m] == '\n');
    lemma_pos_of_exact(s, '\n', m);
    assert(s.take(m) =~= a.push('\r'));
    assert(strip_cr(s.take(m)) =~= a);
    assert(s.skip(m + 1) =~= rest);
}

pub proof fn lemma_split_on_nonempty(s: Seq<char>, c: char)
    ensures
        split_on(s, c).len() >= 1,
{
}

pub open spec fn view_lines(v: Seq<Vec<char>>) -> Seq<Seq<char>> {
    v.map_values(|l: Vec<char>| l@)
}

/// Splits `s` into its lines (see [`lines`]).
pub fn split_lines(s: &[char]) -> (r: Vec<Vec<char>>)
    ensures
        view_lines(r@) == lines(s@),
{
    let n = s.len();
    let mut out: Vec<Vec<char>> = Vec::new();
    let mut start: usize = 0;
    proof {
        assert(s@.skip(0) =~= s@);
        assert(view_lines(out@) =~= Seq::<Seq<char>>::empty());
        assert(view_lines(out@) + lines(s@.skip(0)) =~= lines(s@));
    }
    while start < n
        invariant
            n == s@.len(),
            start <= n,
            view_lines(out@) + lines(s@.skip(start as int)) == lines(s@),
        decreases n - start,
    {
        let ghost rest = s@.skip(start as int);
        let mut j: usize = start;
        let mut cur: Vec<char> = Vec::new();
        while j < n && s[j] != '\n'
            invariant
                n == s@.len(),
                start <= j <= n,
                rest == s@.skip(start as int),
                cur@ == s@.subrange(start as int, j as int),
                forall|t: int| start <= t < j ==> s@[t] != '\n',
            decreases n - j,
        {
            cur.push(s[j]);
            j = j + 1;
            assert(cur@ =~= s@.subrange(start as int, j as int));
        }
        proof {
            assert forall|t: int| 0 <= t < j - start implies rest[t] != '\n' by {
                assert(rest[t] == s@[start + t]);
            }
            if j < n {
                assert(rest[j - start] == s@[j as int]);
            }
            lemma_pos_of_exact(rest, '\n', j - start);
            assert(rest.take(j - start) =~= cur@);
        }
        let ghost old_out = out@;
        if j < n {
            if cur.len() > 0 && cur[cur.len() - 1] == '\r' {
                cur.pop();
            }
            out.push(cur);
            proof {
                assert(rest.skip(j - start + 1) =~= s@.skip(j + 1));
                assert(view_lines(out@) =~= view_lines(old_out).push(strip_cr(rest.take(j - start))));
                assert(lines(rest) == seq![strip_cr(rest.take(j - start))] + lines(rest.skip(j - start + 1)));
                assert(view_lines(out@) + lines(s@.skip(j + 1)) =~= view_lines(old_out) + lines(rest));
            }
            start = j + 1;
        } else {
            out.push(cur);
            proof {
                assert(rest =~= cur@);
                assert(view_lines(out@) =~= view_lines(old_out).push(rest));
                assert(s@.skip(n as int) =~= Seq::<char>::empty());
                assert(view_lines(out@) + lines(s@.skip(n as int)) =~= view_lines(old_out) + lines(rest));
            }
            start = n;
        }
    }
    proof {
        assert(s@.skip(n as int) =~= Seq::<char>::empty());
        assert(view_lines(out@) + lines(s@.skip(n as int)) =~= view_lines(out@));
    }
    out
}

/// Splits `s` at every `c` (see [`split_on`]).
pub fn split_char(s: &[char], c: char) -> (r: Vec<Vec<char>>)
    ensures
        view_lines(r@) == split_on(s@, c),
{
    let n = s.len();
    let mut out: Vec<Vec<char>> = Vec::new();
    let mut start: usize = 0;
    proof {
        assert(s@.skip(0) =~= s@);
        assert(view_lines(out@) + split_on(s@.skip(0), c) =~= split_on(s@, c));
    }
    loop
        invariant
            n == s@.len(),
            start <= n,
            view_lines(out@) + split_on(s@.skip(start as int), c) == split_on(s@, c),
        decreases n - start,
    {
        let ghost rest = s@.skip(start as int);
        let mut j: usize = start;
        let mut cur: Vec<char> = Vec::new();
        while j < n && s[j] != c
            invariant
                n == s@.len(),
                start <= j <= n,
                rest == s@.skip(start as int),
                cur@ == s@.subrange(start as int, j as int),
                forall|t: int| start <= t < j ==> s@[t] != c,
            decreases n - j,
        {
            cur.push(s[j]);
            j = j + 1;
            assert(cur@ =~= s@.subrange(start as int, j as int));
        }
        proof {
            assert forall|t: int| 0 <= t < j - start implies rest[t] != c by {
                assert(rest[t] == s@[start + t]);
            }
            if j < n {
                assert(rest[j - start] == s@[j as int]);
            }
            lemma_pos_of_exact(rest, c, j - start);
            assert(rest.take(j - start) =~= cur@);
        }
        let ghost old_out = out@;
        out.push(cur);
        if j < n {
            proof {
                assert(rest.skip(j - start + 1) =~= s@.skip(j + 1));
                assert(view_lines(out@) =~= view_lines(old_out).push(rest.take(j - start)));
                assert(split_on(rest, c) == seq![rest.take(j - start)] + split_on(rest.skip(j - start + 1), c));
                assert(view_lines(out@) + split_on(s@.skip(j + 1), c) =~= view_lines(old_out) + split_on(rest, c));
            }
            start = j + 1;
        } else {
            proof {
                assert(rest =~= cur@);
                assert(view_lines(out@) =~= view_lines(old_out).push(rest));
                assert(view_lines(out@) =~= view_lines(old_out) + split_on(rest, c));
            }
            return out;
        }
    }
}

} // verus!

//! Character-level text handling: the building blocks the parsers share.
//!
//! Every function here is specified over `Seq<char>`, the view of a string.
use vstd::prelude::*;

verus! {

/// What `String::push` of the standard library does, taken on trust from its
/// documentation: it appends the character to the end of the string.
pub assume_specification[ String::push ](s: &mut String, c: char)
    ensures
        final(s)@ == old(s)@.push(c),
;

/// The characters of `s`, in order.
pub fn chars_of(s: &str) -> (v: Vec<char>)
    ensures
        v@ == s@,
{
    let mut v: Vec<char> = Vec::new();
    for c in it: s.chars()
        invariant
            v@ == it.seq().take(it.index()),
            it.seq() == s@,
    {
        v.push(c);
    }
    v
}

/// The string made of the characters of `v`, in order.
pub fn string_of(v: &[char]) -> (s: String)
    ensures
        s@ == v@,
{
    let mut s = String::new();
    let mut i: usize = 0;
    while i < v.len()
        invariant
            i <= v.len(),
            s@ == v@.take(i as int),
        decreases v.len() - i,
    {
        s.push(v[i]);
        i += 1;
    }
    s
}

/// Appends the characters of `s` to `out`.
pub fn push_text(out: &mut Vec<char>, s: &str)
    ensures
        final(out)@ == old(out)@ + s@,
{
    let v = chars_of(s);
    let mut i: usize = 0;
    while i < v.len()
        invariant
            i <= v.len(),
            out@ == old(out)@ + v@.take(i as int),
        decreases v.len() - i,
    {
        out.push(v[i]);
        assert(v@.take(i + 1) == v@.take(i as int).push(v@[i as int]));
        i += 1;
    }
    assert(v@.take(v.len() as int) == v@);
}

/// Whether two strings hold the same characters.
pub fn same_text(a: &str, b: &str) -> (r: bool)
    ensures
        r == (a@ == b@),
{
    let x = a.to_owned();
    let y = b.to_owned();
    x == y
}

/// Whether two character slices hold the same characters.
pub fn same_chars(a: &[char], b: &[char]) -> (r: bool)
    ensures
        r == (a@ == b@),
{
    if a.len() != b.len() {
        return false;
    }
    let mut i: usize = 0;
    while i < a.len()
        invariant
            i <= a.len(),
            a.len() == b.len(),
            a@.take(i as int) == b@.take(i as int),
        decreases a.len() - i,
    {
        if a[i] != b[i] {
            return false;
        }
        assert(a@.take(i + 1) == a@.take(i as int).push(a@[i as int]));
        assert(b@.take(i + 1) == b@.take(i as int).push(b@[i as int]));
        i += 1;
    }
    assert(a@.take(a.len() as int) == a@);
    assert(b@.take(b.len() as int) == b@);
    true
}

/// The views of a vector of character rows, row by row.
pub open spec fn rows(v: Seq<Vec<char>>) -> Seq<Seq<char>> {
    v.map_values(|r: Vec<char>| r@)
}

/// The views of a vector of strings, string by string.
pub open spec fn texts(v: Seq<String>) -> Seq<Seq<char>> {
    v.map_values(|s: String| s@)
}

/// Index of the first `c` in `s`; `s.len()` where `s` holds none.
pub open spec fn first_index(s: Seq<char>, c: char) -> int
    decreases s.len(),
{
    if s.len() == 0 || s[0] == c {
        0
    } else {
        1 + first_index(s.drop_first(), c)
    }
}

/// `first_index` is the one position before which no `c` stands and at which
/// either `c` stands or the sequence ends.
pub proof fn lemma_first_index(s: Seq<char>, c: char, i: int)
    requires
        0 <= i <= s.len(),
        forall|j: int| 0 <= j < i ==> s[j] != c,
        i == s.len() || s[i] == c,
    ensures
        first_index(s, c) == i,
    decreases s.len(),
{
    if s.len() == 0 || s[0] == c {
    } else {
        let t = s.drop_first();
        assert forall|j: int| 0 <= j < i - 1 implies t[j] != c by {
            assert(t[j] == s[j + 1]);
        }
        lemma_first_index(t, c, i - 1);
    }
}

/// No `c` stands before `first_index`, and `c` stands there unless the
/// sequence ends there.
pub proof fn lemma_first_index_is_first(s: Seq<char>, c: char)
    ensures
        0 <= first_index(s, c) <= s.len(),
        forall|j: int| 0 <= j < first_index(s, c) ==> s[j] != c,
        first_index(s, c) < s.len() ==> s[first_index(s, c)] == c,
    decreases s.len(),
{
    if s.len() == 0 || s[0] == c {
    } else {
        let t = s.drop_first();
        lemma_first_index_is_first(t, c);
        assert forall|j: int| 0 <= j < first_index(s, c) implies s[j] != c by {
            if j > 0 {
                assert(s[j] == t[j - 1]);
            }
        }
        if first_index(s, c) < s.len() {
            assert(s[first_index(s, c)] == t[first_index(t, c)]);
        }
    }
}

/// The pieces of `s` between the occurrences of `sep`. There is always at
/// least one piece, and an empty one wherever two separators touch or one
/// stands at either end.
pub open spec fn split(s: Seq<char>, sep: char) -> Seq<Seq<char>>
    decreases s.len(),
{
    let i = first_index(s, sep);
    if 0 <= i < s.len() {
        seq![s.take(i)] + split(s.skip(i + 1), sep)
    } else {
        seq![s]
    }
}

/// `s` without one trailing carriage return.
pub open spec fn strip_cr(s: Seq<char>) -> Seq<char> {
    if s.len() > 0 && s.last() == '\r' {
        s.drop_last()
    } else {
        s
    }
}

/// The lines of `s`. A line ends at a line feed; the line feed, and a carriage
/// return right before it, belong to no line. What follows the last line feed
/// is a line only if it is not empty.
pub open spec fn lines(s: Seq<char>) -> Seq<Seq<char>>
    decreases s.len(),
{
    let i = first_index(s, '\n');
    if s.len() == 0 {
        Seq::empty()
    } else if 0 <= i < s.len() {
        seq![strip_cr(s.take(i))] + lines(s.skip(i + 1))
    } else {
        seq![s]
    }
}

/// Splits `v` at every `sep`.
pub fn split_chars(v: &[char], sep: char) -> (out: Vec<Vec<char>>)
    ensures
        rows(out@) == split(v@, sep),
{
    let mut out: Vec<Vec<char>> = Vec::new();
    let mut cur: Vec<char> = Vec::new();
    let ghost mut start: int = 0;
    let mut i: usize = 0;
    proof {
        assert(v@.skip(0) == v@);
        assert(rows(out@) == Seq::<Seq<char>>::empty());
        assert(Seq::<Seq<char>>::empty() + split(v@, sep) == split(v@, sep));
    }
    while i < v.len()
        invariant
            0 <= start <= i <= v.len(),
            cur@ == v@.subrange(start, i as int),
            forall|j: int| start <= j < i ==> v@[j] != sep,
            split(v@, sep) == rows(out@) + split(v@.skip(start), sep),
        decreases v.len() - i,
    {
        if v[i] == sep {
            proof {
                let rest = v@.skip(start);
                assert forall|j: int| 0 <= j < i - start implies rest[j] != sep by {
                    assert(rest[j] == v@[start + j]);
                }
                lemma_first_index(rest, sep, i - start);
                assert(rest.take(i - start) == cur@);
                assert(rest.skip(i - start + 1) == v@.skip(i + 1));
                assert(rows(out@.push(cur)) == rows(out@).push(cur@));
                assert(rows(out@) + (seq![cur@] + split(v@.skip(i + 1), sep)) == rows(out@).push(
                    cur@,
                ) + split(v@.skip(i + 1), sep));
            }
            out.push(cur);
            cur = Vec::new();
            proof {
                start = i + 1;
            }
        } else {
            assert(v@.subrange(start, i + 1) == v@.subrange(start, i as int).push(v@[i as int]));
            cur.push(v[i]);
        }
        i += 1;
    }
    proof {
        let rest = v@.skip(start);
        assert forall|j: int| 0 <= j < rest.len() implies rest[j] != sep by {
            assert(rest[j] == v@[start + j]);
        }
        lemma_first_index(rest, sep, rest.len() as int);
        assert(rest == cur@);
        assert(rows(out@.push(cur)) == rows(out@).push(cur@));
        assert(rows(out@) + seq![cur@] == rows(out@).push(cur@));
    }
    out.push(cur);
    out
}

/// Splits `v` into its lines.
pub fn split_lines(v: &[char]) -> (out: Vec<Vec<char>>)
    ensures
        rows(out@) == lines(v@),
{
    let mut out: Vec<Vec<char>> = Vec::new();
    let mut cur: Vec<char> = Vec::new();
    let ghost mut start: int = 0;
    let mut i: usize = 0;
    proof {
        assert(v@.skip(0) == v@);
        assert(rows(out@) == Seq::<Seq<char>>::empty());
        assert(Seq::<Seq<char>>::empty() + lines(v@) == lines(v@));
    }
    while i < v.len()
        invariant
            0 <= start <= i <= v.len(),
            cur@ == v@.subrange(start, i as int),
            forall|j: int| start <= j < i ==> v@[j] != '\n',
            lines(v@) == rows(out@) + lines(v@.skip(start)),
        decreases v.len() - i,
    {
        if v[i] == '\n' {
            let ghost line = cur@;
            let n = cur.len();
            if n > 0 && cur[n - 1] == '\r' {
                cur.pop();
            }
            proof {
                let rest = v@.skip(start);
                assert forall|j: int| 0 <= j < i - start implies rest[j] != '\n' by {
                    assert(rest[j] == v@[start + j]);
                }
                lemma_first_index(rest, '\n', i - start);
                assert(rest.take(i - start) == line);
                assert(cur@ == strip_cr(line));
                assert(rest.skip(i - start + 1) == v@.skip(i + 1));
                assert(rows(out@.push(cur)) == rows(out@).push(cur@));
                assert(rows(out@) + (seq![cur@] + lines(v@.skip(i + 1))) == rows(out@).push(
                    cur@,
                ) + lines(v@.skip(i + 1)));
            }
            out.push(cur);
            cur = Vec::new();
            proof {
                start = i + 1;
            }
        } else {
            assert(v@.subrange(start, i + 1) == v@.subrange(start, i as int).push(v@[i as int]));
            cur.push(v[i]);
        }
        i += 1;
    }
    proof {
        let rest = v@.skip(start);
        assert(rest == cur@);
        if rest.len() > 0 {
            assert forall|j: int| 0 <= j < rest.len() implies rest[j] != '\n' by {
                assert(rest[j] == v@[start + j]);
            }
            lemma_first_index(rest, '\n', rest.len() as int);
            assert(rows(out@.push(cur)) == rows(out@).push(cur@));
            assert(rows(out@) + seq![cur@] == rows(out@).push(cur@));
        } else {
            assert(rows(out@) + Seq::<Seq<char>>::empty() == rows(out@));
        }
    }
    if cur.len() > 0 {
        out.push(cur);
    }
    out
}

/// White space as Unicode defines it (the property `White_Space`).
pub open spec fn is_space(c: char) -> bool {
    let n = c as u32;
    (0x09 <= n <= 0x0D) || n == 0x20 || n == 0x85 || n == 0xA0 || n == 0x1680 || (0x2000 <= n
        <= 0x200A) || n == 0x2028 || n == 0x2029 || n == 0x202F || n == 0x205F || n == 0x3000
}

/// How many white-space characters `s` begins with.
pub open spec fn leading_spaces(s: Seq<char>) -> int
    decreases s.len(),
{
    if s.len() > 0 && is_space(s[0]) {
        1 + leading_spaces(s.drop_first())
    } else {
        0
    }
}

/// How many white-space characters `s` ends with.
pub open spec fn trailing_spaces(s: Seq<char>) -> int
    decreases s.len(),
{
    if s.len() > 0 && is_space(s.last()) {
        1 + trailing_spaces(s.drop_last())
    } else {
        0
    }
}

/// `s` without the white space it begins and ends with.
pub open spec fn trim(s: Seq<char>) -> Seq<char> {
    let t = s.skip(leading_spaces(s));
    t.take(t.len() - trailing_spaces(t))
}

/// `leading_spaces` is the first position that holds no white space.
pub proof fn lemma_leading_spaces(s: Seq<char>, i: int)
    requires
        0 <= i <= s.len(),
        forall|j: int| 0 <= j < i ==> is_space(s[j]),
        i == s.len() || !is_space(s[i]),
    ensures
        leading_spaces(s) == i,
    decreases s.len(),
{
    if i > 0 {
        let t = s.drop_first();
        assert forall|j: int| 0 <= j < i - 1 implies is_space(t[j]) by {
            assert(t[j] == s[j + 1]);
        }
        lemma_leading_spaces(t, i - 1);
    }
}

/// `trailing_spaces` counts back to the last position that holds no white space.
pub proof fn lemma_trailing_spaces(s: Seq<char>, n: int)
    requires
        0 <= n <= s.len(),
        forall|j: int| s.len() - n <= j < s.len() ==> is_space(s[j]),
        n == s.len() || !is_space(s[s.len() - n - 1]),
    ensures
        trailing_spaces(s) == n,
    decreases s.len(),
{
    if n > 0 {
        let t = s.drop_last();
        assert forall|j: int| t.len() - (n - 1) <= j < t.len() implies is_space(t[j]) by {
            assert(t[j] == s[j]);
        }
        lemma_trailing_spaces(t, n - 1);
    }
}

/// Whether `c` is white space.
pub fn is_space_char(c: char) -> (r: bool)
    ensures
        r == is_space(c),
{
    let n: u32 = c as u32;
    (0x09 <= n && n <= 0x0D) || n == 0x20 || n == 0x85 || n == 0xA0 || n == 0x1680 || (0x2000 <= n
        && n <= 0x200A) || n == 0x2028 || n == 0x2029 || n == 0x202F || n == 0x205F || n
        == 0x3000
}

/// A copy of `v` without the white space around it.
pub fn trim_chars(v: &[char]) -> (out: Vec<char>)
    ensures
        out@ == trim(v@),
{
    let mut a: usize = 0;
    while a < v.len() && is_space_char(v[a])
        invariant
            a <= v.len(),
            forall|j: int| 0 <= j < a ==> is_space(v@[j]),
        decreases v.len() - a,
    {
        a += 1;
    }
    let mut b: usize = v.len();
    while b > a && is_space_char(v[b - 1])
        invariant
            a <= b <= v.len(),
            forall|j: int| b <= j < v.len() ==> is_space(v@[j]),
        decreases b,
    {
        b -= 1;
    }
    proof {
        lemma_leading_spaces(v@, a as int);
        let t = v@.skip(a as int);
        assert forall|j: int| t.len() - (v.len() - b) <= j < t.len() implies is_space(t[j]) by {
            assert(t[j] == v@[a + j]);
        }
        lemma_trailing_spaces(t, v.len() - b);
        assert(t.take(t.len() - (v.len() - b)) == v@.subrange(a as int, b as int));
    }
    let mut out: Vec<char> = Vec::new();
    let mut i: usize = a;
    while i < b
        invariant
            a <= i <= b <= v.len(),
            out@ == v@.subrange(a as int, i as int),
        decreases b - i,
    {
        out.push(v[i]);
        assert(v@.subrange(a as int, i + 1) == v@.subrange(a as int, i as int).push(v@[i as int]));
        i += 1;
    }
    out
}

/// The capital of an ASCII lower-case letter; any other character as it is.
pub open spec fn upper(c: char) -> char {
    if 'a' <= c && c <= 'z' {
        ((c as u32 - 32) as u8) as char
    } else {
        c
    }
}

/// `s` with every ASCII lower-case letter replaced by its capital.
pub open spec fn to_upper(s: Seq<char>) -> Seq<char> {
    s.map_values(|c: char| upper(c))
}

/// A decimal digit.
pub open spec fn is_digit(c: char) -> bool {
    '0' <= c && c <= '9'
}

/// A hexadecimal digit of either case.
pub open spec fn is_hex_digit(c: char) -> bool {
    ('0' <= c && c <= '9') || ('a' <= c && c <= 'f') || ('A' <= c && c <= 'F')
}

/// Whether every character of `s` is a hexadecimal digit.
pub open spec fn all_hex(s: Seq<char>) -> bool {
    forall|i: int| 0 <= i < s.len() ==> is_hex_digit(#[trigger] s[i])
}

/// The capital of `c` where `c` is an ASCII lower-case letter, else `c`.
pub fn upper_char(c: char) -> (r: char)
    ensures
        r == upper(c),
{
    if c >= 'a' && c <= 'z' {
        ((c as u32 - 32) as u8) as char
    } else {
        c
    }
}

/// A copy of `v` in ASCII upper case.
pub fn to_upper_chars(v: &[char]) -> (out: Vec<char>)
    ensures
        out@ == to_upper(v@),
{
    let mut out: Vec<char> = Vec::new();
    let mut i: usize = 0;
    while i < v.len()
        invariant
            i <= v.len(),
            out@ == to_upper(v@.take(i as int)),
        decreases v.len() - i,
    {
        out.push(upper_char(v[i]));
        assert(to_upper(v@.take(i + 1)) == to_upper(v@.take(i as int)).push(upper(v@[i as int])));
        i += 1;
    }
    assert(v@.take(v.len() as int) == v@);
    out
}

/// Whether `c` is a hexadecimal digit.
pub fn is_hex_char(c: char) -> (r: bool)
    ensures
        r == is_hex_digit(c),
{
    (c >= '0' && c <= '9') || (c >= 'a' && c <= 'f') || (c >= 'A' && c <= 'F')
}

/// Whether `v` begins with `prefix`.
pub fn starts_with(v: &[char], prefix: &[char]) -> (r: bool)
    ensures
        r == prefix@.is_prefix_of(v@),
{
    if prefix.len() > v.len() {
        return false;
    }
    let mut i: usize = 0;
    while i < prefix.len()
        invariant
            i <= prefix.len() <= v.len(),
            forall|j: int| 0 <= j < i ==> v@[j] == prefix@[j],
        decreases prefix.len() - i,
    {
        if v[i] != prefix[i] {
            assert(v@.subrange(0, prefix.len() as int)[i as int] == v@[i as int]);
            return false;
        }
        i += 1;
    }
    assert(v@.subrange(0, prefix.len() as int) == prefix@);
    true
}

/// A text that holds no separator is its own single piece.
pub proof fn lemma_split_one(s: Seq<char>, sep: char)
    requires
        forall|j: int| 0 <= j < s.len() ==> s[j] != sep,
    ensures
        split(s, sep) == seq![s],
{
    lemma_first_index(s, sep, s.len() as int);
}

/// Splitting a text that begins with a separator-free piece, then a
/// separator, gives that piece and then the pieces of what follows.
pub proof fn lemma_split_first(head: Seq<char>, rest: Seq<char>, sep: char)
    requires
        forall|j: int| 0 <= j < head.len() ==> head[j] != sep,
    ensures
        split(head + seq![sep] + rest, sep) == seq![head] + split(rest, sep),
{
    let s = head + seq![sep] + rest;
    assert forall|j: int| 0 <= j < head.len() implies s[j] != sep by {
        assert(s[j] == head[j]);
    }
    assert(s[head.len() as int] == sep);
    lemma_first_index(s, sep, head.len() as int);
    assert(s.take(head.len() as int) == head);
    assert(s.skip(head.len() as int + 1) == rest);
}

} // verus!

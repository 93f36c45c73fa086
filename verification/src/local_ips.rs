//! The addresses of this host, gathered from several sources into one list
//! that names each address once.
use vstd::prelude::*;
use crate::pattern::{all_matches, find_all, group, group_text, groups_view, matches_view};
use crate::subnets::IPV4_PATTERN;
use crate::text::{chars_of, is_space, is_space_char, rows, same_text, string_of, texts};

verus! {

/// An address in the output of `ifconfig`.
pub const INET_PATTERN: &'static str = r"inet (\d+\.\d+\.\d+\.\d+)";

/// The loopback address, which is never listed.
pub const LOOPBACK: &'static str = "127.0.0.1";

/// Index of the first white-space character of `s`; `s.len()` where `s`
/// holds none.
pub open spec fn first_space(s: Seq<char>) -> int
    decreases s.len(),
{
    if s.len() == 0 || is_space(s[0]) {
        0
    } else {
        1 + first_space(s.drop_first())
    }
}

/// The words of `s`: its longest runs of characters that are no white space,
/// in order.
pub open spec fn words(s: Seq<char>) -> Seq<Seq<char>>
    decreases s.len(),
{
    if s.len() == 0 {
        Seq::empty()
    } else if is_space(s[0]) {
        words(s.drop_first())
    } else {
        let i = first_space(s);
        if 0 < i < s.len() {
            seq![s.take(i)] + words(s.skip(i))
        } else {
            seq![s]
        }
    }
}

/// `list` with `ip` at its end, unless `list` holds it already.
pub open spec fn add_new(list: Seq<Seq<char>>, ip: Seq<char>) -> Seq<Seq<char>> {
    if list.contains(ip) {
        list
    } else {
        list.push(ip)
    }
}

/// `list` with each of `more` added in turn that it does not hold yet.
pub open spec fn add_all_new(list: Seq<Seq<char>>, more: Seq<Seq<char>>) -> Seq<Seq<char>>
    decreases more.len(),
{
    if more.len() == 0 {
        list
    } else {
        add_new(add_all_new(list, more.drop_last()), more.last())
    }
}

/// `list` with group 1 of each match added in turn, unless it is the
/// loopback address or the list holds it already.
pub open spec fn add_found(list: Seq<Seq<char>>, found: Seq<Seq<Option<Seq<char>>>>) -> Seq<
    Seq<char>,
>
    decreases found.len(),
{
    if found.len() == 0 {
        list
    } else {
        let before = add_found(list, found.drop_last());
        let ip = group_text(found.last(), 1);
        if ip == LOOPBACK@ {
            before
        } else {
            add_new(before, ip)
        }
    }
}

/// Whether no text occurs twice in `list`.
pub open spec fn all_differ(list: Seq<Seq<char>>) -> bool {
    forall|i: int, j: int| 0 <= i < j < list.len() ==> list[i] != list[j]
}

/// `first_space` is the one position before which no white space stands and
/// at which either white space stands or the text ends.
pub proof fn lemma_first_space(s: Seq<char>, i: int)
    requires
        0 <= i <= s.len(),
        forall|j: int| 0 <= j < i ==> !is_space(s[j]),
        i == s.len() || is_space(s[i]),
    ensures
        first_space(s) == i,
    decreases s.len(),
{
    if i > 0 {
        let t = s.drop_first();
        assert forall|j: int| 0 <= j < i - 1 implies !is_space(t[j]) by {
            assert(t[j] == s[j + 1]);
        }
        lemma_first_space(t, i - 1);
    }
}

/// A list in which no text occurs twice stays such a list when a text is
/// added that it does not hold yet, and every text it held stays at its place.
pub proof fn lemma_add_new(list: Seq<Seq<char>>, ip: Seq<char>)
    requires
        all_differ(list),
    ensures
        all_differ(add_new(list, ip)),
        add_new(list, ip).contains(ip),
        list.is_prefix_of(add_new(list, ip)),
{
    let r = add_new(list, ip);
    if !list.contains(ip) {
        assert forall|i: int, j: int| 0 <= i < j < r.len() implies r[i] != r[j] by {
            if j == list.len() {
                assert(list.contains(list[i]));
            }
        }
        assert(r[list.len() as int] == ip);
    }
}

/// The same of a whole sequence of texts added in turn.
pub proof fn lemma_add_all_new(list: Seq<Seq<char>>, more: Seq<Seq<char>>)
    requires
        all_differ(list),
    ensures
        all_differ(add_all_new(list, more)),
        list.is_prefix_of(add_all_new(list, more)),
    decreases more.len(),
{
    if more.len() > 0 {
        lemma_add_all_new(list, more.drop_last());
        lemma_add_new(add_all_new(list, more.drop_last()), more.last());
    }
}

/// The same of the addresses found by a search, and the loopback address is
/// not among what is added.
pub proof fn lemma_add_found(list: Seq<Seq<char>>, found: Seq<Seq<Option<Seq<char>>>>)
    requires
        all_differ(list),
    ensures
        all_differ(add_found(list, found)),
        list.is_prefix_of(add_found(list, found)),
        forall|k: int|
            list.len() <= k < add_found(list, found).len() ==> add_found(list, found)[k]
                != LOOPBACK@,
    decreases found.len(),
{
    if found.len() > 0 {
        lemma_add_found(list, found.drop_last());
        lemma_add_new(add_found(list, found.drop_last()), group_text(found.last(), 1));
    }
}

/// The words of `v`.
pub fn split_words(v: &[char]) -> (out: Vec<Vec<char>>)
    ensures
        rows(out@) == words(v@),
{
    let mut out: Vec<Vec<char>> = Vec::new();
    let mut cur: Vec<char> = Vec::new();
    let ghost mut start: int = 0;
    let mut i: usize = 0;
    proof {
        assert(v@.skip(0) == v@);
        assert(rows(out@) + words(v@) == words(v@));
    }
    while i < v.len()
        invariant
            0 <= start <= i <= v.len(),
            cur@ == v@.subrange(start, i as int),
            forall|j: int| start <= j < i ==> !is_space(v@[j]),
            words(v@) == rows(out@) + words(v@.skip(start)),
        decreases v.len() - i,
    {
        let ghost rest = v@.skip(start);
        if is_space_char(v[i]) {
            if cur.len() > 0 {
                proof {
                    assert forall|j: int| 0 <= j < i - start implies !is_space(rest[j]) by {
                        assert(rest[j] == v@[start + j]);
                    }
                    assert(rest[i - start] == v@[i as int]);
                    lemma_first_space(rest, i - start);
                    assert(rest.take(i - start) == cur@);
                    assert(rest.skip(i - start) == v@.skip(i as int));
                    assert(v@.skip(i as int).drop_first() == v@.skip(i + 1));
                    assert(v@.skip(i as int)[0] == v@[i as int]);
                    assert(words(v@.skip(i as int)) == words(v@.skip(i + 1)));
                    assert(rest[0] == v@[start]);
                    assert(!is_space(rest[0]));
                    assert(words(rest) == seq![cur@] + words(v@.skip(i as int)));
                    assert(rows(out@.push(cur)) == rows(out@).push(cur@));
                    assert(rows(out@) + (seq![cur@] + words(v@.skip(i + 1))) == rows(out@).push(
                        cur@,
                    ) + words(v@.skip(i + 1)));
                }
                out.push(cur);
                cur = Vec::new();
            } else {
                proof {
                    assert(start == i);
                    assert(rest.drop_first() == v@.skip(i + 1));
                    assert(rest[0] == v@[i as int]);
                    assert(words(rest) == words(v@.skip(i + 1)));
                }
            }
            proof {
                start = i + 1;
                assert(v@.subrange(i + 1, i + 1).len() == 0);
            }
        } else {
            assert(v@.subrange(start, i + 1) == v@.subrange(start, i as int).push(v@[i as int]));
            cur.push(v[i]);
        }
        i += 1;
    }
    proof {
        let rest = v@.skip(start);
        assert(rest == cur@);
        if rest.len() > 0 {
            assert forall|j: int| 0 <= j < rest.len() implies !is_space(rest[j]) by {
                assert(rest[j] == v@[start + j]);
            }
            lemma_first_space(rest, rest.len() as int);
            assert(rows(out@.push(cur)) == rows(out@).push(cur@));
            assert(rows(out@) + seq![cur@] == rows(out@).push(cur@));
        } else {
            assert(rows(out@) + Seq::<Seq<char>>::empty() == rows(out@));
        }
    }
    if cur.len() > 0 {
        out.push(cur);
    }
    out
}

/// Whether `list` holds `ip`.
pub fn holds(list: &Vec<String>, ip: &str) -> (r: bool)
    ensures
        r == texts(list@).contains(ip@),
{
    let mut i: usize = 0;
    while i < list.len()
        invariant
            i <= list.len(),
            forall|j: int| 0 <= j < i ==> texts(list@)[j] != ip@,
        decreases list.len() - i,
    {
        if same_text(list[i].as_str(), ip) {
            assert(texts(list@)[i as int] == ip@);
            return true;
        }
        i += 1;
    }
    false
}

/// Adds `ip` to the end of `list`, unless `list` holds it already.
pub fn add_address(list: &mut Vec<String>, ip: String)
    ensures
        texts(final(list)@) == add_new(texts(old(list)@), ip@),
{
    if !holds(list, ip.as_str()) {
        let ghost before = list@;
        list.push(ip);
        assert(texts(list@) == texts(before).push(ip@));
    }
}

/// Adds the words of `output`, which is what `hostname -I` prints: the
/// addresses of the host, divided by white space.
pub fn add_words(list: &mut Vec<String>, output: &str)
    ensures
        texts(final(list)@) == add_all_new(texts(old(list)@), words(output@)),
{
    let chars = chars_of(output);
    let found = split_words(chars.as_slice());
    let mut i: usize = 0;
    proof {
        assert(rows(found@).take(0).len() == 0);
    }
    while i < found.len()
        invariant
            i <= found.len(),
            texts(list@) == add_all_new(texts(old(list)@), rows(found@).take(i as int)),
        decreases found.len() - i,
    {
        proof {
            let t = rows(found@).take(i + 1);
            assert(t.drop_last() == rows(found@).take(i as int));
            assert(t.last() == found@[i as int]@);
        }
        add_address(list, string_of(found[i].as_slice()));
        i += 1;
    }
    assert(rows(found@).take(found.len() as int) == rows(found@));
}

/// Adds group 1 of each match, unless it is the loopback address or the
/// list holds it already.
pub fn add_matches(list: &mut Vec<String>, found: &Vec<Vec<Option<String>>>)
    ensures
        texts(final(list)@) == add_found(texts(old(list)@), matches_view(found@)),
{
    let mut i: usize = 0;
    proof {
        assert(matches_view(found@).take(0).len() == 0);
    }
    while i < found.len()
        invariant
            i <= found.len(),
            texts(list@) == add_found(texts(old(list)@), matches_view(found@).take(i as int)),
        decreases found.len() - i,
    {
        proof {
            let t = matches_view(found@).take(i + 1);
            assert(t.drop_last() == matches_view(found@).take(i as int));
            assert(t.last() == groups_view(found@[i as int]@));
        }
        let ip = group(&found[i], 1);
        if !same_text(ip.as_str(), LOOPBACK) {
            add_address(list, ip);
        }
        i += 1;
    }
    assert(matches_view(found@).take(found.len() as int) == matches_view(found@));
}

/// Adds every address that `ifconfig` shows in `output`, but the loopback
/// address.
pub fn add_ifconfig_addresses(list: &mut Vec<String>, output: &str)
    ensures
        texts(final(list)@) == add_found(texts(old(list)@), all_matches(INET_PATTERN@, output@)),
{
    let found = find_all(INET_PATTERN, output);
    add_matches(list, &found);
}

/// Adds every IPv4 address that `ipconfig` shows in `output`, but the
/// loopback address.
pub fn add_ipconfig_addresses(list: &mut Vec<String>, output: &str)
    ensures
        texts(final(list)@) == add_found(texts(old(list)@), all_matches(IPV4_PATTERN@, output@)),
{
    let found = find_all(IPV4_PATTERN, output);
    add_matches(list, &found);
}

} // verus!

//! What the probes make of the text that the system's tools print: whether a
//! ping was answered, the pairs of an ARP table dump, and the name that a
//! reverse lookup found.
use vstd::prelude::*;
use vstd::hash_map::StringHashMap;
use crate::pattern::{
    all_matches, find_all, find_first, first_match, found_in, group, group_text, groups_view,
    is_found, matches_view,
};
use crate::text::{chars_of, same_text, string_of, to_upper, to_upper_chars};

verus! {

/// The mark of an answered ping: `ttl=`, in either case.
pub const TTL_PATTERN: &'static str = "(?i)ttl=";

/// A line of an ARP table dump: an address, white space, and six pairs of
/// hexadecimal digits joined by colons or dashes.
pub const ARP_PATTERN: &'static str =
    r"(\d+\.\d+\.\d+\.\d+)\s+([0-9a-fA-F]{2}[:-][0-9a-fA-F]{2}[:-][0-9a-fA-F]{2}[:-][0-9a-fA-F]{2}[:-][0-9a-fA-F]{2}[:-][0-9a-fA-F]{2})";

/// The name in the first line of a ping that resolves names.
pub const PING_NAME_PATTERN: &'static str = r"Pinging\s+(\S+)\s+\[";

/// A name in the answer of a name server lookup.
pub const LOOKUP_NAME_PATTERN: &'static str = r"(?i)Name:\s+(\S+)";

/// A table from addresses to MAC addresses.
pub struct ArpTable {
    entries: StringHashMap<String>,
}

impl View for ArpTable {
    type V = Map<Seq<char>, Seq<char>>;

    closed spec fn view(&self) -> Map<Seq<char>, Seq<char>> {
        self.entries@.map_values(|mac: String| mac@)
    }
}

impl ArpTable {
    /// The empty table.
    pub fn new() -> (table: ArpTable)
        ensures
            table@ == Map::<Seq<char>, Seq<char>>::empty(),
    {
        let table = ArpTable { entries: StringHashMap::new() };
        assert(table@ == Map::<Seq<char>, Seq<char>>::empty());
        table
    }

    /// Enters `mac`, in upper case, under `ip`, in place of what was there.
    pub fn insert(&mut self, ip: &str, mac: &str)
        ensures
            final(self)@ == old(self)@.insert(ip@, to_upper(mac@)),
    {
        let chars = chars_of(mac);
        let upper = to_upper_chars(chars.as_slice());
        let key = ip.to_owned();
        let value = string_of(upper.as_slice());
        proof {
            assert(old(self).entries@.insert(key@, value).map_values(|mac: String| mac@) == old(
                self,
            )@.insert(key@, value@));
        }
        self.entries.insert(key, value);
    }

    /// The MAC address entered under `ip`, if any.
    pub fn get(&self, ip: &str) -> (mac: Option<String>)
        ensures
            match mac {
                Some(m) => self@.contains_key(ip@) && m@ == self@[ip@],
                None => !self@.contains_key(ip@),
            },
    {
        match self.entries.get(ip) {
            Some(m) => Some(m.clone()),
            None => None,
        }
    }

    /// The number of entries.
    pub fn len(&self) -> (n: usize)
        ensures
            n == self@.len(),
    {
        broadcast use vstd::hash_map::group_hash_map_axioms;

        proof {
            crate::vendor::lemma_map_values_len(self.entries@);
        }
        self.entries.len()
    }
}

/// Whether the output of a ping shows an answer: it holds the mark `ttl=`
/// somewhere, in either case. What the tool's exit code was plays no part.
pub fn ping_output_alive(output: &str) -> (alive: bool)
    ensures
        alive == found_in(TTL_PATTERN@, output@),
{
    is_found(TTL_PATTERN, output)
}

/// The table that a sequence of matches makes: group 1 of each is an address,
/// group 2 its MAC address, which is entered in upper case. Of two matches
/// with one address the later one stays.
pub open spec fn arp_entries(found: Seq<Seq<Option<Seq<char>>>>) -> Map<Seq<char>, Seq<char>>
    decreases found.len(),
{
    if found.len() == 0 {
        Map::empty()
    } else {
        arp_entries(found.drop_last()).insert(
            group_text(found.last(), 1),
            to_upper(group_text(found.last(), 2)),
        )
    }
}

/// The ARP table made of the matches of `ARP_PATTERN`.
pub fn arp_table_from_matches(found: &Vec<Vec<Option<String>>>) -> (table: ArpTable)
    ensures
        table@ == arp_entries(matches_view(found@)),
{
    let mut table = ArpTable::new();
    let mut i: usize = 0;
    proof {
        assert(matches_view(found@).take(0).len() == 0);
    }
    while i < found.len()
        invariant
            i <= found.len(),
            table@ == arp_entries(matches_view(found@).take(i as int)),
        decreases found.len() - i,
    {
        let ip = group(&found[i], 1);
        let mac = group(&found[i], 2);
        proof {
            let t = matches_view(found@).take(i + 1);
            assert(t.drop_last() == matches_view(found@).take(i as int));
            assert(t.last() == groups_view(found@[i as int]@));
        }
        table.insert(ip.as_str(), mac.as_str());
        i += 1;
    }
    assert(matches_view(found@).take(found.len() as int) == matches_view(found@));
    table
}

/// Reads the dump of the system's ARP table: every place in the text where an
/// address is followed by a MAC address gives one entry, the MAC address in
/// upper case. A text with no such place gives an empty table.
pub fn parse_arp_output(output: &str) -> (table: ArpTable)
    ensures
        table@ == arp_entries(all_matches(ARP_PATTERN@, output@)),
{
    let found = find_all(ARP_PATTERN, output);
    arp_table_from_matches(&found)
}

/// A string, if any, as plain values.
pub open spec fn text_of(s: Option<String>) -> Option<Seq<char>> {
    match s {
        Some(s) => Some(s@),
        None => None,
    }
}

/// The groups of a match, if any, as plain values.
pub open spec fn match_view(found: Option<Vec<Option<String>>>) -> Option<Seq<Option<Seq<char>>>> {
    match found {
        Some(groups) => Some(groups_view(groups@)),
        None => None,
    }
}

/// The name that a name-resolving ping of `ip` shows: group 1 of the match,
/// unless there is no match or the name is the address itself.
pub open spec fn ping_name(found: Option<Seq<Option<Seq<char>>>>, ip: Seq<char>) -> Option<
    Seq<char>,
> {
    match found {
        Some(groups) => if group_text(groups, 1) != ip {
            Some(group_text(groups, 1))
        } else {
            None
        },
        None => None,
    }
}

/// The name that a name server lookup shows: group 1 of the second match
/// where there are two or more, else of the only match, else nothing.
pub open spec fn lookup_name(found: Seq<Seq<Option<Seq<char>>>>) -> Seq<char> {
    if found.len() >= 2 {
        group_text(found[1], 1)
    } else if found.len() == 1 {
        group_text(found[0], 1)
    } else {
        Seq::empty()
    }
}

/// The host name in the match of `PING_NAME_PATTERN`, if it names the host
/// otherwise than by its address.
pub fn hostname_from_ping_match(found: &Option<Vec<Option<String>>>, ip: &str) -> (name: Option<
    String,
>)
    ensures
        text_of(name) == ping_name(match_view(*found), ip@),
{
    match found {
        Some(groups) => {
            let name = group(groups, 1);
            if same_text(name.as_str(), ip) {
                None
            } else {
                Some(name)
            }
        },
        None => None,
    }
}

/// Reads the output of a ping that resolves names: the name it shows for the
/// host, unless it shows none or only repeats the address.
pub fn hostname_from_ping(output: &str, ip: &str) -> (name: Option<String>)
    ensures
        text_of(name) == ping_name(first_match(PING_NAME_PATTERN@, output@), ip@),
{
    let found = find_first(PING_NAME_PATTERN, output);
    hostname_from_ping_match(&found, ip)
}

/// The host name among the matches of `LOOKUP_NAME_PATTERN`: the second
/// where there are several, since the first then names the server that
/// answered; empty where there is none.
pub fn hostname_from_lookup_matches(found: &Vec<Vec<Option<String>>>) -> (name: String)
    ensures
        name@ == lookup_name(matches_view(found@)),
{
    if found.len() >= 2 {
        assert(matches_view(found@)[1] == groups_view(found@[1]@));
        group(&found[1], 1)
    } else if found.len() == 1 {
        assert(matches_view(found@)[0] == groups_view(found@[0]@));
        group(&found[0], 1)
    } else {
        String::new()
    }
}

/// Reads the answer of a name server lookup: the host name it gives, empty
/// where it gives none.
pub fn hostname_from_lookup(output: &str) -> (name: String)
    ensures
        name@ == lookup_name(all_matches(LOOKUP_NAME_PATTERN@, output@)),
{
    let found = find_all(LOOKUP_NAME_PATTERN, output);
    hostname_from_lookup_matches(&found)
}

} // verus!

//! The subnets of the local interfaces, read from what the system's tools
//! print about them.
use vstd::prelude::*;
use crate::address::{
    dotted_quad, format_address, mask_prefix, parse_address, parse_ipv4, subnet_mask_to_prefix,
};
use crate::number::{decimal, parse_number, parse_unsigned, push_decimal};
use crate::pattern::{find_first, first_match, group, group_text};
use crate::text::{
    chars_of, lines, push_text, rows, split_lines, starts_with, string_of, trim, trim_chars,
};

verus! {

/// The head of an interface in the output of `ip addr show`: a number, a
/// colon, and the interface's name before the next colon.
pub const IFACE_PATTERN: &'static str = r"^\d+:\s+(\S+):";

/// An address with its prefix length in the output of `ip addr show`.
pub const INET_PATTERN: &'static str = r"inet (\d+\.\d+\.\d+\.\d+)/(\d+)";

/// An IPv4 address in the output of `ipconfig`.
pub const IPV4_PATTERN: &'static str = r"IPv4.*?:\s*(\d+\.\d+\.\d+\.\d+)";

/// A subnet mask in the output of `ipconfig`.
pub const MASK_PATTERN: &'static str = r"Subnet Mask.*?:\s*(\d+\.\d+\.\d+\.\d+)";

/// The subnet of one local interface.
#[derive(Debug, PartialEq, Eq)]
pub struct SubnetInfo {
    pub ip: String,
    pub subnet_mask: String,
    pub cidr: String,
    pub interface_name: String,
}

/// A subnet as plain values.
#[verifier::ext_equal]
pub struct SubnetView {
    pub ip: Seq<char>,
    pub subnet_mask: Seq<char>,
    pub cidr: Seq<char>,
    pub interface_name: Seq<char>,
}

impl View for SubnetInfo {
    type V = SubnetView;

    open spec fn view(&self) -> SubnetView {
        SubnetView {
            ip: self.ip@,
            subnet_mask: self.subnet_mask@,
            cidr: self.cidr@,
            interface_name: self.interface_name@,
        }
    }
}

/// The views of a list of subnets, subnet by subnet.
pub open spec fn subnet_views(subnets: Seq<SubnetInfo>) -> Seq<SubnetView> {
    subnets.map_values(|s: SubnetInfo| s@)
}

/// A subnet, if any, as plain values.
pub open spec fn entry_view(entry: Option<SubnetInfo>) -> Option<SubnetView> {
    match entry {
        Some(s) => Some(s@),
        None => None,
    }
}

/// Whether an address text is one of the loopback or of the link-local
/// range: such an interface has no subnet to scan.
pub open spec fn is_local_only(ip: Seq<char>) -> bool {
    "127."@.is_prefix_of(ip) || "169.254."@.is_prefix_of(ip)
}

/// The mask of a prefix length: the 32-bit number whose top `prefix` bits are
/// set.
pub open spec fn prefix_mask(prefix: int) -> int
    decreases prefix,
{
    if prefix <= 0 {
        0
    } else {
        prefix_mask(prefix - 1) / 2 + 0x8000_0000
    }
}

/// The subnet in the notation of address and prefix length: the network
/// address in dotted form, a slash, the prefix length.
pub open spec fn cidr_text(ip: u32, mask: u32, prefix: int) -> Seq<char> {
    dotted_quad(ip & mask) + "/"@ + decimal(prefix as nat)
}

/// The subnet that an address with a prefix length describes, on the
/// interface `iface`. A prefix text that is no number up to 255 counts as 24.
/// There is none where the address is not one of four octets, where it is
/// local only, and where the prefix length is above 32.
pub open spec fn linux_entry(ip: Seq<char>, prefix_text: Seq<char>, iface: Seq<char>) -> Option<
    SubnetView,
> {
    let prefix = match parse_number(prefix_text, 255) {
        Some(p) => p,
        None => 24,
    };
    match parse_ipv4(ip) {
        Some(addr) => if is_local_only(ip) || prefix > 32 {
            None
        } else {
            Some(
                SubnetView {
                    ip,
                    subnet_mask: dotted_quad(prefix_mask(prefix) as u32),
                    cidr: cidr_text(addr, prefix_mask(prefix) as u32, prefix),
                    interface_name: iface,
                },
            )
        },
        None => None,
    }
}

/// What the lines of `ip addr show` read so far amount to: the name of the
/// interface that the last head named, and the subnets found.
#[verifier::ext_equal]
pub struct Scan {
    pub iface: Seq<char>,
    pub found: Seq<SubnetView>,
}

/// What one line of `ip addr show` adds: a head names the interface of what
/// follows, and an address with its prefix length gives a subnet on the
/// interface named last.
pub open spec fn linux_line(before: Scan, line: Seq<char>) -> Scan {
    let iface = match first_match(IFACE_PATTERN@, line) {
        Some(groups) => group_text(groups, 1),
        None => before.iface,
    };
    let found = match first_match(INET_PATTERN@, line) {
        Some(groups) => match linux_entry(group_text(groups, 1), group_text(groups, 2), iface) {
            Some(entry) => before.found.push(entry),
            None => before.found,
        },
        None => before.found,
    };
    Scan { iface, found }
}

/// What a sequence of lines of `ip addr show` amounts to.
pub open spec fn linux_scan(text: Seq<Seq<char>>) -> Scan
    decreases text.len(),
{
    if text.len() == 0 {
        Scan { iface: Seq::empty(), found: Seq::empty() }
    } else {
        linux_line(linux_scan(text.drop_last()), text.last())
    }
}

/// The mask with the top `prefix` bits set; a length above 32 counts as 32.
pub fn mask_of_prefix(prefix: u8) -> (mask: u32)
    ensures
        mask as int == prefix_mask(
            if prefix <= 32 {
                prefix as int
            } else {
                32
            },
        ),
{
    let bits: u8 = if prefix <= 32 {
        prefix
    } else {
        32
    };
    let mut mask: u32 = 0;
    let mut i: u8 = 0;
    while i < bits
        invariant
            i <= bits <= 32,
            mask as int == prefix_mask(i as int),
        decreases bits - i,
    {
        mask = mask / 2 + 0x8000_0000;
        i += 1;
    }
    mask
}

/// Writes a subnet in the notation of address and prefix length.
pub fn format_cidr(ip: u32, mask: u32, prefix: u8) -> (s: String)
    ensures
        s@ == cidr_text(ip, mask, prefix as int),
{
    let network = format_address(ip & mask);
    let mut out: Vec<char> = Vec::new();
    push_text(&mut out, network.as_str());
    push_text(&mut out, "/");
    push_decimal(&mut out, prefix as u32);
    proof {
        assert(Seq::<char>::empty() + network@ == network@);
    }
    string_of(out.as_slice())
}

/// Whether an address text is local only.
pub fn local_only(ip: &[char]) -> (r: bool)
    ensures
        r == is_local_only(ip@),
{
    let loopback = chars_of("127.");
    let link_local = chars_of("169.254.");
    starts_with(ip, loopback.as_slice()) || starts_with(ip, link_local.as_slice())
}

/// The subnet that an address with a prefix length describes, on the
/// interface `iface`; none where the address is malformed or local only, or
/// the prefix length above 32.
pub fn linux_subnet_entry(ip: &str, prefix_text: &str, iface: &str) -> (entry: Option<SubnetInfo>)
    ensures
        entry_view(entry) == linux_entry(ip@, prefix_text@, iface@),
{
    let digits = chars_of(prefix_text);
    let prefix: u8 = match parse_unsigned(digits.as_slice(), 255) {
        Some(p) => p as u8,
        None => 24,
    };
    let addr = match parse_address(ip) {
        Some(a) => a,
        None => {
            return None;
        },
    };
    let chars = chars_of(ip);
    if local_only(chars.as_slice()) || prefix > 32 {
        return None;
    }
    let mask = mask_of_prefix(prefix);
    Some(
        SubnetInfo {
            ip: ip.to_owned(),
            subnet_mask: format_address(mask),
            cidr: format_cidr(addr, mask, prefix),
            interface_name: iface.to_owned(),
        },
    )
}

/// Reads the output of `ip addr show`: one subnet for every IPv4 address of
/// an interface, in the order of the text, each with the mask of its prefix
/// length and under the name of its interface. Addresses that are local only
/// are left out.
pub fn parse_ip_addr_output(output: &str) -> (subnets: Vec<SubnetInfo>)
    ensures
        subnet_views(subnets@) == linux_scan(lines(output@)).found,
{
    let chars = chars_of(output);
    let text = split_lines(chars.as_slice());
    let mut subnets: Vec<SubnetInfo> = Vec::new();
    let mut iface = String::new();
    let mut i: usize = 0;
    proof {
        assert(rows(text@).take(0).len() == 0);
        assert(subnet_views(subnets@) =~= Seq::<SubnetView>::empty());
    }
    while i < text.len()
        invariant
            i <= text.len(),
            iface@ == linux_scan(rows(text@).take(i as int)).iface,
            subnet_views(subnets@) == linux_scan(rows(text@).take(i as int)).found,
        decreases text.len() - i,
    {
        let line = string_of(text[i].as_slice());
        proof {
            let t = rows(text@).take(i + 1);
            assert(t.drop_last() == rows(text@).take(i as int));
            assert(t.last() == line@);
        }
        match find_first(IFACE_PATTERN, line.as_str()) {
            Some(groups) => {
                iface = group(&groups, 1);
            },
            None => {},
        }
        match find_first(INET_PATTERN, line.as_str()) {
            Some(groups) => {
                let ip = group(&groups, 1);
                let prefix = group(&groups, 2);
                match linux_subnet_entry(ip.as_str(), prefix.as_str(), iface.as_str()) {
                    Some(entry) => {
                        let ghost before = subnets@;
                        subnets.push(entry);
                        assert(subnet_views(subnets@) =~= subnet_views(before).push(entry@));
                    },
                    None => {},
                }
            },
            None => {},
        }
        i += 1;
    }
    assert(rows(text@).take(text.len() as int) == rows(text@));
    subnets
}

/// `s` without the colons it ends with.
pub open spec fn strip_colons(s: Seq<char>) -> Seq<char>
    decreases s.len(),
{
    if s.len() > 0 && s.last() == ':' {
        strip_colons(s.drop_last())
    } else {
        s
    }
}

/// Whether `needle` stands in `s` at position `i`.
pub open spec fn occurs_at(s: Seq<char>, needle: Seq<char>, i: int) -> bool {
    0 <= i && i + needle.len() <= s.len() && s.subrange(i, i + needle.len()) == needle
}

/// The first position from `from` on at which `needle` stands in `s`;
/// `s.len()` where it stands nowhere.
pub open spec fn find_from(s: Seq<char>, needle: Seq<char>, from: int) -> int
    decreases s.len() - from + 1,
{
    if from < 0 || from + needle.len() > s.len() {
        s.len() as int
    } else if occurs_at(s, needle, from) {
        from
    } else {
        find_from(s, needle, from + 1)
    }
}

/// Whether a line of `ipconfig` is the head of an adapter: it is not
/// indented and ends with a colon.
pub open spec fn is_adapter_head(line: Seq<char>) -> bool {
    line.len() > 0 && line[0] != ' ' && line.last() == ':'
}

/// The name in the head of an adapter: the line without the colons at its
/// end and, where it holds the word `adapter`, without everything up to that
/// word and the space behind it.
pub open spec fn adapter_name(line: Seq<char>) -> Seq<char> {
    let name = strip_colons(line);
    let at = find_from(name, "adapter "@, 0);
    if at + "adapter "@.len() <= name.len() {
        name.skip(at + "adapter "@.len())
    } else {
        name
    }
}

/// A subnet with its mask filled in, and with its notation of address and
/// prefix length where both address and mask are addresses of four octets.
pub open spec fn with_mask(entry: SubnetView, mask: Seq<char>) -> SubnetView {
    SubnetView {
        subnet_mask: mask,
        cidr: match (parse_ipv4(entry.ip), parse_ipv4(mask)) {
            (Some(a), Some(m)) => cidr_text(a, m, mask_prefix(mask)),
            _ => entry.cidr,
        },
        ..entry
    }
}

/// What a line of `ipconfig` adds to the subnets found, `ip` being the
/// address it shows and `mask` the mask, if any. An address opens a subnet
/// that has no mask yet, unless it is local only, in which case the line
/// adds nothing at all. A mask goes to the subnet opened last, if that has
/// none yet.
pub open spec fn windows_found(
    before: Seq<SubnetView>,
    iface: Seq<char>,
    ip: Option<Seq<char>>,
    mask: Option<Seq<char>>,
) -> Seq<SubnetView> {
    let opened = match ip {
        Some(ip) => before.push(
            SubnetView { ip, subnet_mask: Seq::empty(), cidr: Seq::empty(), interface_name: iface },
        ),
        None => before,
    };
    if ip.is_some() && is_local_only(ip.unwrap()) {
        before
    } else if mask.is_some() && opened.len() > 0 && opened.last().subnet_mask.len() == 0 {
        opened.update(opened.len() - 1, with_mask(opened.last(), mask.unwrap()))
    } else {
        opened
    }
}

/// Group 1 of a match, if there is a match.
pub open spec fn first_group(found: Option<Seq<Option<Seq<char>>>>) -> Option<Seq<char>> {
    match found {
        Some(groups) => Some(group_text(groups, 1)),
        None => None,
    }
}

/// What one line of `ipconfig` adds: the head of an adapter names the
/// interface of what follows, and the line without the white space around it
/// is searched for an address and for a mask.
pub open spec fn windows_line(before: Scan, line: Seq<char>) -> Scan {
    let iface = if is_adapter_head(line) {
        adapter_name(line)
    } else {
        before.iface
    };
    Scan {
        iface,
        found: windows_found(
            before.found,
            iface,
            first_group(first_match(IPV4_PATTERN@, trim(line))),
            first_group(first_match(MASK_PATTERN@, trim(line))),
        ),
    }
}

/// What a sequence of lines of `ipconfig` amounts to.
pub open spec fn windows_scan(text: Seq<Seq<char>>) -> Scan
    decreases text.len(),
{
    if text.len() == 0 {
        Scan { iface: Seq::empty(), found: Seq::empty() }
    } else {
        windows_line(windows_scan(text.drop_last()), text.last())
    }
}

/// The subnets that have a mask, in their order.
pub open spec fn with_masks(found: Seq<SubnetView>) -> Seq<SubnetView>
    decreases found.len(),
{
    if found.len() == 0 {
        found
    } else if found.last().subnet_mask.len() > 0 {
        with_masks(found.drop_last()).push(found.last())
    } else {
        with_masks(found.drop_last())
    }
}

/// `find_from` is the one position from `from` on before which `needle`
/// stands nowhere and at which it stands or no room is left for it.
pub proof fn lemma_find_from(s: Seq<char>, needle: Seq<char>, from: int, i: int)
    requires
        0 <= from <= i,
        forall|j: int| from <= j < i ==> !occurs_at(s, needle, j),
        occurs_at(s, needle, i) || i + needle.len() > s.len(),
    ensures
        find_from(s, needle, from) == if occurs_at(s, needle, i) {
            i
        } else {
            s.len() as int
        },
    decreases i - from,
{
    if from < i && from + needle.len() <= s.len() {
        lemma_find_from(s, needle, from + 1, i);
    }
}

/// The first position at which `needle` stands in `s`, if any.
pub fn find_chars(s: &[char], needle: &[char]) -> (at: Option<usize>)
    ensures
        match at {
            Some(i) => occurs_at(s@, needle@, i as int) && find_from(s@, needle@, 0) == i,
            None => find_from(s@, needle@, 0) == s@.len() && !occurs_at(
                s@,
                needle@,
                s@.len() as int,
            ),
        },
{
    let mut i: usize = 0;
    while i <= s.len() && needle.len() <= s.len() - i
        invariant
            i <= s.len() + 1,
            forall|j: int| 0 <= j < i ==> !occurs_at(s@, needle@, j),
        decreases s.len() + 1 - i,
    {
        let mut k: usize = 0;
        while k < needle.len() && s[i + k] == needle[k]
            invariant
                k <= needle.len(),
                i + needle.len() <= s.len(),
                forall|j: int| 0 <= j < k ==> s@[i + j] == needle@[j],
            decreases needle.len() - k,
        {
            k += 1;
        }
        if k == needle.len() {
            proof {
                assert(s@.subrange(i as int, i + needle.len()) =~= needle@);
                lemma_find_from(s@, needle@, 0, i as int);
            }
            return Some(i);
        }
        proof {
            assert(s@.subrange(i as int, i + needle.len())[k as int] == s@[i + k]);
        }
        i += 1;
    }
    proof {
        lemma_find_from(s@, needle@, 0, i as int);
        if occurs_at(s@, needle@, s@.len() as int) {
            assert(needle@.len() == 0);
            assert(i < s.len() + 1);
        }
    }
    None
}

/// The name in the head of an adapter.
pub fn adapter_name_of(line: &[char]) -> (name: Vec<char>)
    ensures
        name@ == adapter_name(line@),
{
    let mut end: usize = line.len();
    assert(line@.take(end as int) == line@);
    while end > 0 && line[end - 1] == ':'
        invariant
            end <= line.len(),
            strip_colons(line@) == strip_colons(line@.take(end as int)),
        decreases end,
    {
        proof {
            let t = line@.take(end as int);
            assert(t.drop_last() == line@.take(end - 1));
        }
        end -= 1;
    }
    let mut stripped: Vec<char> = Vec::new();
    let mut i: usize = 0;
    while i < end
        invariant
            i <= end <= line.len(),
            stripped@ == line@.take(i as int),
        decreases end - i,
    {
        stripped.push(line[i]);
        assert(line@.take(i + 1) == line@.take(i as int).push(line@[i as int]));
        i += 1;
    }
    assert(stripped@ == strip_colons(line@));
    let word = chars_of("adapter ");
    match find_chars(stripped.as_slice(), word.as_slice()) {
        Some(at) => {
            let mut name: Vec<char> = Vec::new();
            let mut j: usize = at + word.len();
            while j < stripped.len()
                invariant
                    at + word.len() <= j <= stripped.len(),
                    name@ == stripped@.subrange(at + word.len(), j as int),
                decreases stripped.len() - j,
            {
                name.push(stripped[j]);
                assert(stripped@.subrange(at + word.len(), j + 1) == stripped@.subrange(
                    at + word.len(),
                    j as int,
                ).push(stripped@[j as int]));
                j += 1;
            }
            assert(name@ == stripped@.skip(at + word.len()));
            name
        },
        None => {
            proof {
                reveal_strlit("adapter ");
            }
            stripped
        },
    }
}

/// Whether a line of `ipconfig` is the head of an adapter.
pub fn adapter_head(line: &[char]) -> (r: bool)
    ensures
        r == is_adapter_head(line@),
{
    line.len() > 0 && line[0] != ' ' && line[line.len() - 1] == ':'
}

/// Adds to `subnets` what a line of `ipconfig` shows: `ip` is the address
/// found in it and `mask` the mask, if any, and `iface` the adapter that the
/// line belongs to.
pub fn add_ipconfig_line(
    subnets: &mut Vec<SubnetInfo>,
    iface: &str,
    ip: Option<String>,
    mask: Option<String>,
)
    ensures
        subnet_views(final(subnets)@) == windows_found(
            subnet_views(old(subnets)@),
            iface@,
            crate::probe::text_of(ip),
            crate::probe::text_of(mask),
        ),
{
    let ghost before = subnets@;
    match ip {
        Some(ip) => {
            let chars = chars_of(ip.as_str());
            if local_only(chars.as_slice()) {
                return ;
            }
            subnets.push(
                SubnetInfo {
                    ip,
                    subnet_mask: String::new(),
                    cidr: String::new(),
                    interface_name: iface.to_owned(),
                },
            );
            proof {
                assert(subnet_views(subnets@) =~= subnet_views(before).push(
                    subnets@[subnets.len() - 1]@,
                ));
            }
        },
        None => {},
    }
    let ghost opened = subnets@;
    match mask {
        Some(mask) => {
            let n = subnets.len();
            if n > 0 && subnets[n - 1].subnet_mask.as_str().unicode_len() == 0 {
                let last = subnets.pop().unwrap();
                let cidr = match (parse_address(last.ip.as_str()), parse_address(mask.as_str())) {
                    (Some(a), Some(m)) => format_cidr(a, m, subnet_mask_to_prefix(mask.as_str())),
                    _ => last.cidr,
                };
                let filled = SubnetInfo {
                    ip: last.ip,
                    subnet_mask: mask,
                    cidr,
                    interface_name: last.interface_name,
                };
                subnets.push(filled);
                proof {
                    assert(subnet_views(opened).last() == opened[n - 1]@);
                    assert(subnet_views(subnets@) =~= subnet_views(opened).update(
                        n - 1,
                        with_mask(opened[n - 1]@, mask@),
                    ));
                }
            } else {
                proof {
                    if n > 0 {
                        assert(subnet_views(opened).last() == opened[n - 1]@);
                    }
                }
            }
        },
        None => {},
    }
}

/// The subnets that have a mask, in their order.
pub fn keep_with_mask(subnets: &Vec<SubnetInfo>) -> (kept: Vec<SubnetInfo>)
    ensures
        subnet_views(kept@) == with_masks(subnet_views(subnets@)),
{
    let mut kept: Vec<SubnetInfo> = Vec::new();
    let mut i: usize = 0;
    proof {
        assert(subnet_views(subnets@).take(0).len() == 0);
        assert(subnet_views(kept@) =~= Seq::<SubnetView>::empty());
    }
    while i < subnets.len()
        invariant
            i <= subnets.len(),
            subnet_views(kept@) == with_masks(subnet_views(subnets@).take(i as int)),
        decreases subnets.len() - i,
    {
        let s = &subnets[i];
        proof {
            let t = subnet_views(subnets@).take(i + 1);
            assert(t.drop_last() == subnet_views(subnets@).take(i as int));
            assert(t.last() == s@);
        }
        if s.subnet_mask.as_str().unicode_len() > 0 {
            let ghost had = kept@;
            kept.push(
                SubnetInfo {
                    ip: s.ip.clone(),
                    subnet_mask: s.subnet_mask.clone(),
                    cidr: s.cidr.clone(),
                    interface_name: s.interface_name.clone(),
                },
            );
            proof {
                assert(subnet_views(kept@) =~= subnet_views(had).push(s@));
            }
        }
        i += 1;
    }
    assert(subnet_views(subnets@).take(subnets.len() as int) == subnet_views(subnets@));
    kept
}

/// Reads the output of `ipconfig /all`: one subnet for every IPv4 address
/// that is followed by a subnet mask, in the order of the text, under the
/// name of its adapter. Addresses that are local only are left out.
pub fn parse_ipconfig_output(output: &str) -> (subnets: Vec<SubnetInfo>)
    ensures
        subnet_views(subnets@) == with_masks(windows_scan(lines(output@)).found),
{
    let chars = chars_of(output);
    let text = split_lines(chars.as_slice());
    let mut subnets: Vec<SubnetInfo> = Vec::new();
    let mut iface = String::new();
    let mut i: usize = 0;
    proof {
        assert(rows(text@).take(0).len() == 0);
        assert(subnet_views(subnets@) =~= Seq::<SubnetView>::empty());
    }
    while i < text.len()
        invariant
            i <= text.len(),
            iface@ == windows_scan(rows(text@).take(i as int)).iface,
            subnet_views(subnets@) == windows_scan(rows(text@).take(i as int)).found,
        decreases text.len() - i,
    {
        proof {
            let t = rows(text@).take(i + 1);
            assert(t.drop_last() == rows(text@).take(i as int));
            assert(t.last() == text@[i as int]@);
        }
        if adapter_head(text[i].as_slice()) {
            let name = adapter_name_of(text[i].as_slice());
            iface = string_of(name.as_slice());
        }
        let trimmed = trim_chars(text[i].as_slice());
        let line = string_of(trimmed.as_slice());
        let ip = match find_first(IPV4_PATTERN, line.as_str()) {
            Some(groups) => Some(group(&groups, 1)),
            None => None,
        };
        let mask = match find_first(MASK_PATTERN, line.as_str()) {
            Some(groups) => Some(group(&groups, 1)),
            None => None,
        };
        add_ipconfig_line(&mut subnets, iface.as_str(), ip, mask);
        i += 1;
    }
    assert(rows(text@).take(text.len() as int) == rows(text@));
    keep_with_mask(&subnets)
}

} // verus!

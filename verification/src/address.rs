//! IPv4 addresses in dotted form, and the host addresses of a subnet.
use vstd::prelude::*;
use crate::number::{
    decimal, lemma_decimal_spells, lemma_parse_decimal, parse_number, parse_unsigned, push_decimal,
};
use crate::text::{
    chars_of, is_digit, lemma_split_first, lemma_split_one, rows, split, split_chars, string_of,
    texts,
};

verus! {

/// The largest difference between broadcast and network address that is
/// still scanned.
pub const MAX_HOSTS: u32 = 4094;

/// What a field spells as an octet: a number from 0 to 255.
pub open spec fn octet_of(field: Seq<char>) -> Option<int> {
    parse_number(field, 255)
}

/// The 32-bit number whose four bytes are `a`, `b`, `c`, `d`, most
/// significant first.
pub open spec fn quad_value(a: int, b: int, c: int, d: int) -> int {
    ((a * 256 + b) * 256 + c) * 256 + d
}

/// Byte `i` of `addr`, byte 0 being the most significant.
pub open spec fn octet_at(addr: u32, i: int) -> int {
    if i == 0 {
        addr as int / 16777216
    } else if i == 1 {
        (addr as int / 65536) % 256
    } else if i == 2 {
        (addr as int / 256) % 256
    } else {
        addr as int % 256
    }
}

/// The address that `s` spells: exactly four fields divided by dots, each one
/// an octet. Anything else spells no address.
pub open spec fn parse_ipv4(s: Seq<char>) -> Option<u32> {
    let f = split(s, '.');
    if f.len() == 4 && octet_of(f[0]).is_some() && octet_of(f[1]).is_some() && octet_of(
        f[2],
    ).is_some() && octet_of(f[3]).is_some() {
        Some(
            quad_value(
                octet_of(f[0]).unwrap(),
                octet_of(f[1]).unwrap(),
                octet_of(f[2]).unwrap(),
                octet_of(f[3]).unwrap(),
            ) as u32,
        )
    } else {
        None
    }
}

/// `addr` in dotted form: its four bytes in decimal, most significant first.
pub open spec fn dotted_quad(addr: u32) -> Seq<char> {
    decimal(octet_at(addr, 0) as nat) + seq!['.'] + decimal(octet_at(addr, 1) as nat) + seq!['.']
        + decimal(octet_at(addr, 2) as nat) + seq!['.'] + decimal(octet_at(addr, 3) as nat)
}

/// Field `i` as an octet; 0 where the field is missing or spells none.
pub open spec fn octet_or_zero(fields: Seq<Seq<char>>, i: int) -> int {
    if 0 <= i < fields.len() {
        match octet_of(fields[i]) {
            Some(o) => o,
            None => 0,
        }
    } else {
        0
    }
}

/// The number by which an address text is ordered: the big-endian value of
/// its first four dot-separated fields, a field that is missing or is no octet
/// counting as 0. Defined for every text.
pub open spec fn sort_key(ip: Seq<char>) -> int {
    let f = split(ip, '.');
    quad_value(octet_or_zero(f, 0), octet_or_zero(f, 1), octet_or_zero(f, 2), octet_or_zero(f, 3))
}

/// How many bits of `n` are set.
pub open spec fn bit_count(n: int) -> int
    decreases n,
{
    if n <= 0 {
        0
    } else {
        n % 2 + bit_count(n / 2)
    }
}

/// The set bits of all the fields that are octets, added up.
pub open spec fn octet_bits(fields: Seq<Seq<char>>) -> int
    decreases fields.len(),
{
    if fields.len() == 0 {
        0
    } else {
        octet_bits(fields.drop_last()) + match octet_of(fields.last()) {
            Some(o) => bit_count(o),
            None => 0,
        }
    }
}

/// The prefix length of a mask text: the set bits of its dot-separated fields,
/// fields that are no octet left out, kept to eight bits.
pub open spec fn mask_prefix(mask: Seq<char>) -> int {
    octet_bits(split(mask, '.')) % 256
}

/// The network address of `ip` under `mask`.
pub open spec fn network_of(ip: u32, mask: u32) -> u32 {
    ip & mask
}

/// The broadcast address of `ip` under `mask`.
pub open spec fn broadcast_of(ip: u32, mask: u32) -> u32 {
    (ip & mask) | !mask
}

/// The distance from network to broadcast address.
pub open spec fn host_count(ip: u32, mask: u32) -> int {
    broadcast_of(ip, mask) - network_of(ip, mask)
}

/// The addresses strictly between network and broadcast address, ascending;
/// none where the distance between the two is 0 or above `MAX_HOSTS`.
pub open spec fn scan_addresses(ip: u32, mask: u32) -> Seq<u32> {
    let count = host_count(ip, mask);
    if 0 < count <= MAX_HOSTS {
        Seq::new((count - 1) as nat, |k: int| (network_of(ip, mask) + 1 + k) as u32)
    } else {
        Seq::empty()
    }
}

/// The host addresses of the subnet that the two texts describe, in dotted
/// form; none where either text spells no address.
pub open spec fn scan_ips(ip: Seq<char>, mask: Seq<char>) -> Seq<Seq<char>> {
    match (parse_ipv4(ip), parse_ipv4(mask)) {
        (Some(i), Some(m)) => scan_addresses(i, m).map_values(|a: u32| dotted_quad(a)),
        _ => Seq::empty(),
    }
}

/// Reads a field as an octet.
pub fn parse_octet(field: &[char]) -> (r: Option<u8>)
    ensures
        match r {
            Some(o) => octet_of(field@) == Some(o as int),
            None => octet_of(field@).is_none(),
        },
{
    match parse_unsigned(field, 255) {
        Some(n) => Some(n as u8),
        None => None,
    }
}

/// Reads an address in dotted form.
pub fn parse_address(s: &str) -> (r: Option<u32>)
    ensures
        r == parse_ipv4(s@),
{
    let chars = chars_of(s);
    let fields = split_chars(chars.as_slice(), '.');
    if fields.len() != 4 {
        return None;
    }
    proof {
        let f = split(s@, '.');
        assert(f[0] == fields@[0]@ && f[1] == fields@[1]@ && f[2] == fields@[2]@ && f[3]
            == fields@[3]@);
    }
    let a = parse_octet(fields[0].as_slice());
    let b = parse_octet(fields[1].as_slice());
    let c = parse_octet(fields[2].as_slice());
    let d = parse_octet(fields[3].as_slice());
    match (a, b, c, d) {
        (Some(a), Some(b), Some(c), Some(d)) => {
            let value: u32 = ((a as u32 * 256 + b as u32) * 256 + c as u32) * 256 + d as u32;
            Some(value)
        },
        _ => None,
    }
}

/// Writes an address in dotted form.
pub fn format_address(addr: u32) -> (s: String)
    ensures
        s@ == dotted_quad(addr),
{
    let mut out: Vec<char> = Vec::new();
    push_decimal(&mut out, addr / 16777216);
    out.push('.');
    push_decimal(&mut out, (addr / 65536) % 256);
    out.push('.');
    push_decimal(&mut out, (addr / 256) % 256);
    out.push('.');
    push_decimal(&mut out, addr % 256);
    proof {
        assert(out@ == dotted_quad(addr));
    }
    string_of(out.as_slice())
}

/// The number of set bits of an octet.
pub fn count_bits(octet: u8) -> (r: u8)
    ensures
        r as int == bit_count(octet as int),
        r <= 8,
{
    let mut n: u8 = octet;
    let mut r: u8 = 0;
    let mut steps: u8 = 0;
    while n > 0
        invariant
            r as int + bit_count(n as int) == bit_count(octet as int),
            r <= steps <= 8,
            (n as int) < pow2_below(8 - steps),
        decreases n,
    {
        r = r + n % 2;
        n = n / 2;
        steps = steps + 1;
    }
    r
}

/// Two to the power `k`, for `k` from 0 to 8; 1 below that range.
pub open spec fn pow2_below(k: int) -> int {
    if k <= 0 {
        1
    } else if k == 1 {
        2
    } else if k == 2 {
        4
    } else if k == 3 {
        8
    } else if k == 4 {
        16
    } else if k == 5 {
        32
    } else if k == 6 {
        64
    } else if k == 7 {
        128
    } else {
        256
    }
}

/// The prefix length that a subnet mask in dotted form stands for: the number
/// of bits set in its octets. Fields that are no octet count for nothing, and
/// the sum is kept to eight bits.
pub fn subnet_mask_to_prefix(mask: &str) -> (r: u8)
    ensures
        r as int == mask_prefix(mask@),
{
    let chars = chars_of(mask);
    let fields = split_chars(chars.as_slice(), '.');
    let mut sum: u8 = 0;
    let mut i: usize = 0;
    while i < fields.len()
        invariant
            i <= fields.len(),
            sum as int == octet_bits(rows(fields@).take(i as int)) % 256,
        decreases fields.len() - i,
    {
        proof {
            let t = rows(fields@).take(i + 1);
            assert(t.drop_last() == rows(fields@).take(i as int));
            assert(t.last() == fields@[i as int]@);
        }
        match parse_octet(fields[i].as_slice()) {
            Some(o) => {
                sum = sum.wrapping_add(count_bits(o));
            },
            None => {},
        }
        i += 1;
    }
    assert(rows(fields@).take(fields.len() as int) == rows(fields@));
    sum
}

/// The host addresses of the subnet of `ip` under `mask`, ascending.
pub fn scan_range(ip: u32, mask: u32) -> (out: Vec<u32>)
    ensures
        out@ == scan_addresses(ip, mask),
{
    let network: u32 = ip & mask;
    let broadcast: u32 = network | !mask;
    assert(network <= broadcast) by (bit_vector)
        requires
            broadcast == network | !mask,
    ;
    let count: u32 = broadcast - network;
    if count == 0 || count > MAX_HOSTS {
        return Vec::new();
    }
    let mut out: Vec<u32> = Vec::new();
    let mut addr: u32 = network + 1;
    while addr < broadcast
        invariant
            network < addr <= broadcast,
            out@ == Seq::new((addr - network - 1) as nat, |k: int| (network + 1 + k) as u32),
        decreases broadcast - addr,
    {
        out.push(addr);
        addr += 1;
    }
    out
}

/// Whether `range` is the host range between a network and a broadcast
/// address: one text fewer than the distance between the two; text `k` spells
/// the address `k + 1` above the network address, so that each lies strictly
/// between the two and they ascend strictly; and each text is ordered by the
/// address it spells.
pub open spec fn is_host_range(range: Seq<Seq<char>>, network: u32, broadcast: u32) -> bool {
    &&& range.len() == broadcast - network - 1
    &&& forall|k: int|
        0 <= k < range.len() ==> parse_ipv4(#[trigger] range[k]) == Some((network + 1 + k) as u32)
            && sort_key(range[k]) == network + 1 + k
}

/// The host addresses of a subnet, in dotted form and ascending order: every
/// address strictly between the network and the broadcast address of `ip`
/// under `mask`. The result is empty where either text is no address of four
/// octets, where the two addresses coincide, and where the broadcast address
/// lies more than `MAX_HOSTS` above the network address.
pub fn generate_scan_ips(ip: &str, mask: &str) -> (out: Vec<String>)
    ensures
        texts(out@) == scan_ips(ip@, mask@),
        match (parse_ipv4(ip@), parse_ipv4(mask@)) {
            (Some(i), Some(m)) => if 0 < host_count(i, m) <= MAX_HOSTS {
                is_host_range(texts(out@), network_of(i, m), broadcast_of(i, m))
            } else {
                out.len() == 0
            },
            _ => out.len() == 0,
        },
{
    proof {
        if parse_ipv4(ip@).is_some() && parse_ipv4(mask@).is_some() && 0 < host_count(
            parse_ipv4(ip@).unwrap(),
            parse_ipv4(mask@).unwrap(),
        ) <= MAX_HOSTS {
            lemma_scan_ips(ip@, mask@);
        }
    }
    let ip_value = match parse_address(ip) {
        Some(v) => v,
        None => {
            return Vec::new();
        },
    };
    let mask_value = match parse_address(mask) {
        Some(v) => v,
        None => {
            return Vec::new();
        },
    };
    let range = scan_range(ip_value, mask_value);
    let mut out: Vec<String> = Vec::new();
    let mut i: usize = 0;
    while i < range.len()
        invariant
            i <= range.len(),
            texts(out@) == range@.take(i as int).map_values(|a: u32| dotted_quad(a)),
        decreases range.len() - i,
    {
        let ghost before = out@;
        out.push(format_address(range[i]));
        proof {
            assert(range@.take(i + 1) == range@.take(i as int).push(range@[i as int]));
            assert(texts(out@) == texts(before).push(dotted_quad(range@[i as int])));
            assert(range@.take(i + 1).map_values(|a: u32| dotted_quad(a)) == range@.take(
                i as int,
            ).map_values(|a: u32| dotted_quad(a)).push(dotted_quad(range@[i as int])));
        }
        i += 1;
    }
    assert(range@.take(range.len() as int) == range@);
    out
}

/// The number by which an address text is ordered.
pub fn ip_sort_key(ip: &str) -> (key: u32)
    ensures
        key as int == sort_key(ip@),
{
    let chars = chars_of(ip);
    let fields = split_chars(chars.as_slice(), '.');
    let mut key: u32 = 0;
    let mut i: usize = 0;
    while i < 4
        invariant
            i <= 4,
            rows(fields@) == split(ip@, '.'),
            i == 0 ==> key == 0,
            i == 1 ==> key as int == octet_or_zero(rows(fields@), 0),
            i == 2 ==> key as int == octet_or_zero(rows(fields@), 0) * 256 + octet_or_zero(
                rows(fields@),
                1,
            ),
            i == 3 ==> key as int == (octet_or_zero(rows(fields@), 0) * 256 + octet_or_zero(
                rows(fields@),
                1,
            )) * 256 + octet_or_zero(rows(fields@), 2),
            i == 4 ==> key as int == sort_key(ip@),
        decreases 4 - i,
    {
        let mut octet: u32 = 0;
        if i < fields.len() {
            assert(rows(fields@)[i as int] == fields@[i as int]@);
            match parse_octet(fields[i].as_slice()) {
                Some(o) => {
                    octet = o as u32;
                },
                None => {},
            }
        }
        assert(octet as int == octet_or_zero(rows(fields@), i as int));
        key = key * 256 + octet;
        i += 1;
    }
    key
}

/// The four bytes of an address make up the address.
pub proof fn lemma_octets_make_address(addr: u32)
    ensures
        quad_value(octet_at(addr, 0), octet_at(addr, 1), octet_at(addr, 2), octet_at(addr, 3))
            == addr,
        forall|i: int| 0 <= i < 4 ==> 0 <= #[trigger] octet_at(addr, i) <= 255,
{
}

/// An address written in dotted form splits at its dots into the decimal
/// spellings of its four bytes.
pub proof fn lemma_dotted_quad_fields(addr: u32)
    ensures
        split(dotted_quad(addr), '.') == seq![
            decimal(octet_at(addr, 0) as nat),
            decimal(octet_at(addr, 1) as nat),
            decimal(octet_at(addr, 2) as nat),
            decimal(octet_at(addr, 3) as nat),
        ],
{
    let d0 = decimal(octet_at(addr, 0) as nat);
    let d1 = decimal(octet_at(addr, 1) as nat);
    let d2 = decimal(octet_at(addr, 2) as nat);
    let d3 = decimal(octet_at(addr, 3) as nat);
    lemma_decimal_spells(octet_at(addr, 0) as nat);
    lemma_decimal_spells(octet_at(addr, 1) as nat);
    lemma_decimal_spells(octet_at(addr, 2) as nat);
    lemma_decimal_spells(octet_at(addr, 3) as nat);
    let r2 = d2 + seq!['.'] + d3;
    let r1 = d1 + seq!['.'] + r2;
    assert(dotted_quad(addr) == d0 + seq!['.'] + r1);
    assert forall|j: int| 0 <= j < d0.len() implies d0[j] != '.' by {
        assert(is_digit(d0[j]));
    }
    assert forall|j: int| 0 <= j < d1.len() implies d1[j] != '.' by {
        assert(is_digit(d1[j]));
    }
    assert forall|j: int| 0 <= j < d2.len() implies d2[j] != '.' by {
        assert(is_digit(d2[j]));
    }
    assert forall|j: int| 0 <= j < d3.len() implies d3[j] != '.' by {
        assert(is_digit(d3[j]));
    }
    lemma_split_first(d0, r1, '.');
    lemma_split_first(d1, r2, '.');
    lemma_split_first(d2, d3, '.');
    lemma_split_one(d3, '.');
    assert(seq![d0] + (seq![d1] + (seq![d2] + seq![d3])) == seq![d0, d1, d2, d3]);
}

/// Writing an address in dotted form and reading it back gives the address,
/// and the text is ordered by that number.
pub proof fn lemma_dotted_quad_round_trip(addr: u32)
    ensures
        parse_ipv4(dotted_quad(addr)) == Some(addr),
        sort_key(dotted_quad(addr)) == addr,
{
    lemma_dotted_quad_fields(addr);
    lemma_octets_make_address(addr);
    lemma_parse_decimal(octet_at(addr, 0) as nat, 255);
    lemma_parse_decimal(octet_at(addr, 1) as nat, 255);
    lemma_parse_decimal(octet_at(addr, 2) as nat, 255);
    lemma_parse_decimal(octet_at(addr, 3) as nat, 255);
}

/// A text that spells an address is ordered by that address.
pub proof fn lemma_sort_key_of_address(s: Seq<char>)
    requires
        parse_ipv4(s).is_some(),
    ensures
        sort_key(s) == parse_ipv4(s).unwrap(),
{
    let f = split(s, '.');
    lemma_octet_range(f[0]);
    lemma_octet_range(f[1]);
    lemma_octet_range(f[2]);
    lemma_octet_range(f[3]);
}

/// An octet lies between 0 and 255.
pub proof fn lemma_octet_range(field: Seq<char>)
    ensures
        octet_of(field).is_some() ==> 0 <= octet_of(field).unwrap() <= 255,
{
    let d = if field.len() > 0 && field[0] == '+' {
        field.drop_first()
    } else {
        field
    };
    if octet_of(field).is_some() {
        crate::number::lemma_number_of_nonnegative(d);
    }
}

/// The scan of a subnet whose broadcast address lies 1 to `MAX_HOSTS` above
/// its network address: one address fewer than that distance, every one of
/// them strictly between the two, in strictly ascending order.
pub proof fn lemma_scan_addresses(ip: u32, mask: u32)
    requires
        0 < host_count(ip, mask) <= MAX_HOSTS,
    ensures
        scan_addresses(ip, mask).len() == host_count(ip, mask) - 1,
        forall|k: int|
            0 <= k < scan_addresses(ip, mask).len() ==> network_of(ip, mask)
                < #[trigger] scan_addresses(ip, mask)[k] < broadcast_of(ip, mask),
        forall|j: int, k: int|
            0 <= j < k < scan_addresses(ip, mask).len() ==> scan_addresses(ip, mask)[j]
                < scan_addresses(ip, mask)[k],
{
}

/// A scan never holds as many as `MAX_HOSTS` addresses.
pub proof fn lemma_scan_ips_len(ip: Seq<char>, mask: Seq<char>)
    ensures
        scan_ips(ip, mask).len() < MAX_HOSTS,
{
}

/// The distance from network to broadcast address is the inverted mask,
/// whatever the address.
pub proof fn lemma_host_count(ip: u32, mask: u32)
    ensures
        host_count(ip, mask) == !mask,
{
    assert(((ip & mask) | !mask) - (ip & mask) == !mask) by (bit_vector);
}

/// Nothing is scanned under a mask that leaves no bit to the hosts, nor under
/// one whose inverse is above `MAX_HOSTS`, whatever the address; and nothing
/// where address or mask is no address of four octets.
pub proof fn lemma_scan_empty(ip: Seq<char>, mask: Seq<char>)
    requires
        parse_ipv4(ip).is_none() || parse_ipv4(mask).is_none() || parse_ipv4(mask).unwrap()
            == 0xFFFF_FFFFu32 || !parse_ipv4(mask).unwrap() > MAX_HOSTS,
    ensures
        scan_ips(ip, mask).len() == 0,
{
    if parse_ipv4(ip).is_some() && parse_ipv4(mask).is_some() {
        let m = parse_ipv4(mask).unwrap();
        lemma_host_count(parse_ipv4(ip).unwrap(), m);
        assert(m == 0xFFFF_FFFFu32 ==> !m == 0) by (bit_vector);
    }
}

/// The same of the scan in dotted form: for two texts that spell addresses
/// whose subnet has a broadcast address 1 to `MAX_HOSTS` above its network
/// address, the scan is the host range between the two.
pub proof fn lemma_scan_ips(ip: Seq<char>, mask: Seq<char>)
    requires
        parse_ipv4(ip).is_some(),
        parse_ipv4(mask).is_some(),
        0 < host_count(parse_ipv4(ip).unwrap(), parse_ipv4(mask).unwrap()) <= MAX_HOSTS,
    ensures
        is_host_range(
            scan_ips(ip, mask),
            network_of(parse_ipv4(ip).unwrap(), parse_ipv4(mask).unwrap()),
            broadcast_of(parse_ipv4(ip).unwrap(), parse_ipv4(mask).unwrap()),
        ),
{
    let i = parse_ipv4(ip).unwrap();
    let m = parse_ipv4(mask).unwrap();
    let scan = scan_ips(ip, mask);
    lemma_scan_addresses(i, m);
    assert forall|k: int| 0 <= k < scan.len() implies parse_ipv4(#[trigger] scan[k]) == Some(
        (network_of(i, m) + 1 + k) as u32,
    ) && sort_key(scan[k]) == network_of(i, m) + 1 + k by {
        lemma_dotted_quad_round_trip(scan_addresses(i, m)[k]);
    }
}

/// Two to the power `k`.
pub open spec fn two_to(k: nat) -> int
    decreases k,
{
    if k == 0 {
        1
    } else {
        2 * two_to((k - 1) as nat)
    }
}

/// A number below two to the `k` has at most `k` bits set.
pub proof fn lemma_bit_count_bound(n: int, k: nat)
    requires
        0 <= n < two_to(k),
    ensures
        0 <= bit_count(n) <= k,
    decreases k,
{
    if k == 0 {
    } else if n > 0 {
        lemma_bit_count_bound(n / 2, (k - 1) as nat);
    }
}

/// The set bits of a number are those of its low `k` bits and those of the
/// rest.
pub proof fn lemma_bit_count_concat(hi: int, lo: int, k: nat)
    requires
        0 <= hi,
        0 <= lo < two_to(k),
    ensures
        bit_count(hi * two_to(k) + lo) == bit_count(hi) + bit_count(lo),
    decreases k,
{
    if k == 0 {
        assert(hi * two_to(k) + lo == hi) by (nonlinear_arith)
            requires
                two_to(k) == 1,
                lo == 0,
        ;
    } else {
        let q = two_to((k - 1) as nat);
        let n = hi * two_to(k) + lo;
        assert(n == 2 * (hi * q) + lo) by (nonlinear_arith)
            requires
                n == hi * two_to(k) + lo,
                two_to(k) == 2 * q,
        ;
        lemma_two_to_positive((k - 1) as nat);
        assert(0 <= hi * q) by (nonlinear_arith)
            requires
                0 <= hi,
                0 < q,
        ;
        assert(n / 2 == hi * q + lo / 2);
        assert(n % 2 == lo % 2);
        lemma_bit_count_concat(hi, lo / 2, (k - 1) as nat);
    }
}

/// Two to any power is positive.
pub proof fn lemma_two_to_positive(k: nat)
    ensures
        0 < two_to(k),
    decreases k,
{
    if k > 0 {
        lemma_two_to_positive((k - 1) as nat);
    }
}

/// For a mask that is an address of four octets, the prefix length is the
/// number of bits set in the 32-bit mask, and so lies between 0 and 32.
pub proof fn lemma_mask_prefix_of_address(mask: Seq<char>)
    requires
        parse_ipv4(mask).is_some(),
    ensures
        mask_prefix(mask) == bit_count(parse_ipv4(mask).unwrap() as int),
        0 <= mask_prefix(mask) <= 32,
{
    let f = split(mask, '.');
    let a = octet_of(f[0]).unwrap();
    let b = octet_of(f[1]).unwrap();
    let c = octet_of(f[2]).unwrap();
    let d = octet_of(f[3]).unwrap();
    lemma_octet_range(f[0]);
    lemma_octet_range(f[1]);
    lemma_octet_range(f[2]);
    lemma_octet_range(f[3]);
    assert(two_to(8) == 256) by {
        reveal_with_fuel(two_to, 9);
    }
    lemma_bit_count_bound(a, 8);
    lemma_bit_count_bound(b, 8);
    lemma_bit_count_bound(c, 8);
    lemma_bit_count_bound(d, 8);
    lemma_bit_count_concat(a, b, 8);
    lemma_bit_count_concat(a * 256 + b, c, 8);
    lemma_bit_count_concat((a * 256 + b) * 256 + c, d, 8);
    let f3 = f.drop_last();
    let f2 = f3.drop_last();
    let f1 = f2.drop_last();
    assert(f1.drop_last().len() == 0);
    assert(octet_bits(f1.drop_last()) == 0);
    assert(f1.last() == f[0] && f2.last() == f[1] && f3.last() == f[2] && f.last() == f[3]);
    assert(octet_bits(f1) == bit_count(a));
    assert(octet_bits(f2) == octet_bits(f1) + bit_count(b));
    assert(octet_bits(f3) == octet_bits(f2) + bit_count(c));
    assert(octet_bits(f) == octet_bits(f3) + bit_count(d));
}

} // verus!

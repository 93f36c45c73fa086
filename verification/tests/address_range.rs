use nodesailor::address::{
    format_address, generate_scan_ips, ip_sort_key, parse_address, subnet_mask_to_prefix,
};

#[test]
fn scan_of_a_slash_30_has_two_hosts() {
    let ips = generate_scan_ips("192.168.1.5", "255.255.255.252");
    assert_eq!(ips, vec!["192.168.1.5".to_string(), "192.168.1.6".to_string()]);
}

#[test]
fn scan_of_a_slash_24_excludes_network_and_broadcast() {
    let ips = generate_scan_ips("10.0.0.77", "255.255.255.0");
    assert_eq!(ips.len(), 254);
    assert_eq!(ips[0], "10.0.0.1");
    assert_eq!(ips[253], "10.0.0.254");
    assert!(!ips.contains(&"10.0.0.0".to_string()));
    assert!(!ips.contains(&"10.0.0.255".to_string()));
}

#[test]
fn scan_is_strictly_ascending() {
    let ips = generate_scan_ips("172.16.5.9", "255.255.254.0");
    assert_eq!(ips.len(), 510);
    for pair in ips.windows(2) {
        assert!(ip_sort_key(&pair[0]) < ip_sort_key(&pair[1]));
    }
    assert_eq!(ips[0], "172.16.4.1");
    assert_eq!(ips[255], "172.16.5.0");
    assert_eq!(ips[509], "172.16.5.254");
}

#[test]
fn scan_of_a_slash_21_has_2046_hosts() {
    let ips = generate_scan_ips("10.1.16.1", "255.255.248.0");
    assert_eq!(ips.len(), 2046);
    assert_eq!(ips[0], "10.1.16.1");
    assert_eq!(ips[2045], "10.1.23.254");
}

#[test]
fn scan_of_a_slash_20_is_empty_its_distance_being_4095() {
    assert!(generate_scan_ips("10.1.16.1", "255.255.240.0").is_empty());
}

#[test]
fn scan_of_a_distance_of_4094_is_the_largest_allowed() {
    // A mask with a hole: the inverted mask is 0x0FFE, a distance of 4094.
    let ips = generate_scan_ips("10.1.16.1", "255.255.240.1");
    assert_eq!(ips.len(), 4093);
    assert_eq!(ips[0], "10.1.16.2");
    assert_eq!(ips[4092], "10.1.31.254");
}

#[test]
fn scan_of_a_slash_19_is_empty() {
    assert!(generate_scan_ips("10.1.16.1", "255.255.224.0").is_empty());
}

#[test]
fn scan_of_a_single_host_mask_is_empty() {
    assert!(generate_scan_ips("192.168.1.5", "255.255.255.255").is_empty());
}

#[test]
fn scan_of_an_oversized_mask_is_empty() {
    assert!(generate_scan_ips("10.20.30.40", "255.240.0.0").is_empty());
}

#[test]
fn scan_of_a_slash_31_has_no_hosts() {
    assert!(generate_scan_ips("192.168.1.4", "255.255.255.254").is_empty());
}

#[test]
fn scan_rejects_malformed_addresses() {
    assert!(generate_scan_ips("192.168.1", "255.255.255.0").is_empty());
    assert!(generate_scan_ips("192.168.1.5.6", "255.255.255.0").is_empty());
    assert!(generate_scan_ips("192.168.one.5", "255.255.255.0").is_empty());
    assert!(generate_scan_ips("192.168.1.256", "255.255.255.0").is_empty());
    assert!(generate_scan_ips("192.168.1.5", "255.255.255").is_empty());
    assert!(generate_scan_ips("192.168.1.5", "255.255.255.x").is_empty());
    assert!(generate_scan_ips("192.168.1.5", "255.255.300.0").is_empty());
    assert!(generate_scan_ips("", "").is_empty());
    assert!(generate_scan_ips("192.168..5", "255.255.255.0").is_empty());
    assert!(generate_scan_ips("192.168.1.-5", "255.255.255.0").is_empty());
    assert!(generate_scan_ips(" 192.168.1.5", "255.255.255.0").is_empty());
}

#[test]
fn prefix_length_counts_set_bits() {
    assert_eq!(subnet_mask_to_prefix("255.255.255.0"), 24);
    assert_eq!(subnet_mask_to_prefix("255.255.240.0"), 20);
    assert_eq!(subnet_mask_to_prefix("255.255.255.255"), 32);
    assert_eq!(subnet_mask_to_prefix("0.0.0.0"), 0);
    assert_eq!(subnet_mask_to_prefix("255.255.255.252"), 30);
    assert_eq!(subnet_mask_to_prefix("128.0.0.0"), 1);
}

#[test]
fn prefix_length_skips_fields_that_are_no_octet() {
    assert_eq!(subnet_mask_to_prefix(""), 0);
    assert_eq!(subnet_mask_to_prefix("255.x.255.0"), 16);
    assert_eq!(subnet_mask_to_prefix("255.256.255.0"), 16);
    assert_eq!(subnet_mask_to_prefix("255"), 8);
    assert_eq!(subnet_mask_to_prefix("255.255.255.255.255"), 40);
}

#[test]
fn prefix_length_keeps_eight_bits() {
    let mask = vec!["255"; 33].join(".");
    assert_eq!(subnet_mask_to_prefix(&mask), 8);
}

#[test]
fn parse_address_reads_four_octets() {
    assert_eq!(parse_address("192.168.1.5"), Some(0xC0A8_0105));
    assert_eq!(parse_address("0.0.0.0"), Some(0));
    assert_eq!(parse_address("255.255.255.255"), Some(u32::MAX));
    assert_eq!(parse_address("010.001.000.007"), Some(0x0A01_0007));
    assert_eq!(parse_address("+1.2.3.4"), Some(0x0102_0304));
    assert_eq!(parse_address("1.2.3"), None);
    assert_eq!(parse_address("1.2.3.4.5"), None);
    assert_eq!(parse_address("1.2.3.+"), None);
    assert_eq!(parse_address("1.2.3.4 "), None);
    assert_eq!(parse_address("1.2.3.999"), None);
}

#[test]
fn format_address_writes_dotted_decimal() {
    assert_eq!(format_address(0xC0A8_0105), "192.168.1.5");
    assert_eq!(format_address(0), "0.0.0.0");
    assert_eq!(format_address(u32::MAX), "255.255.255.255");
    assert_eq!(format_address(0x0A00_0064), "10.0.0.100");
}

#[test]
fn address_round_trip() {
    for addr in [0u32, 1, 255, 256, 65_535, 0x7F00_0001, 0xC0A8_0105, u32::MAX] {
        assert_eq!(parse_address(&format_address(addr)), Some(addr));
        assert_eq!(ip_sort_key(&format_address(addr)), addr);
    }
}

#[test]
fn sort_key_is_big_endian() {
    assert_eq!(ip_sort_key("10.0.0.3"), 0x0A00_0003);
    assert_eq!(ip_sort_key("10.0.0.20"), 0x0A00_0014);
    assert_eq!(ip_sort_key("10.0.0.100"), 0x0A00_0064);
}

#[test]
fn sort_key_counts_malformed_octets_as_zero() {
    assert_eq!(ip_sort_key(""), 0);
    assert_eq!(ip_sort_key("garbage"), 0);
    assert_eq!(ip_sort_key("10.x.0.3"), 0x0A00_0003);
    assert_eq!(ip_sort_key("10.300.0.3"), 0x0A00_0003);
    assert_eq!(ip_sort_key("10.1"), 0x0A01_0000);
    assert_eq!(ip_sort_key("10.1.2.3.4.5"), 0x0A01_0203);
}

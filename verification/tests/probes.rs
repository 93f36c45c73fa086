use nodesailor::probe::{
    arp_table_from_matches, hostname_from_lookup, hostname_from_lookup_matches,
    hostname_from_ping, hostname_from_ping_match, parse_arp_output, ping_output_alive, ArpTable,
};

fn groups(texts: &[&str]) -> Vec<Option<String>> {
    texts.iter().map(|t| Some(t.to_string())).collect()
}

#[test]
fn ping_with_a_ttl_is_alive() {
    let linux = "PING 192.168.1.1 (192.168.1.1) 56(84) bytes of data.\n\
                 64 bytes from 192.168.1.1: icmp_seq=1 ttl=64 time=0.5 ms\n";
    assert!(ping_output_alive(linux));
    let windows = "Pinging 192.168.1.1 with 32 bytes of data:\r\n\
                   Reply from 192.168.1.1: bytes=32 time<1ms TTL=128\r\n";
    assert!(ping_output_alive(windows));
    assert!(ping_output_alive("Ttl=1"));
}

#[test]
fn ping_without_a_ttl_is_not_alive() {
    let lost = "PING 192.168.1.9 (192.168.1.9) 56(84) bytes of data.\n\n\
                --- 192.168.1.9 ping statistics ---\n\
                1 packets transmitted, 0 received, 100% packet loss, time 0ms\n";
    assert!(!ping_output_alive(lost));
    assert!(!ping_output_alive(""));
    assert!(!ping_output_alive("ttl 64"));
    assert!(!ping_output_alive("Request timed out."));
}

#[test]
fn arp_line_anywhere_in_a_dump_is_extracted() {
    let dump = "Interface: 192.168.1.10 --- 0x4\n\
                \x20 Internet Address      Physical Address      Type\n\
                \x20 192.168.1.1           00-11-22-33-44-55     dynamic\n\
                \x20 192.168.1.5           aa:bb:cc:dd:ee:ff     dynamic\n\
                \x20 224.0.0.22            01-00-5e-00-00-16     static\n";
    let table = parse_arp_output(dump);
    assert_eq!(table.get("192.168.1.5"), Some("AA:BB:CC:DD:EE:FF".to_string()));
    assert_eq!(table.get("192.168.1.1"), Some("00-11-22-33-44-55".to_string()));
    assert_eq!(table.get("224.0.0.22"), Some("01-00-5E-00-00-16".to_string()));
    assert_eq!(table.get("192.168.1.10"), None);
    assert_eq!(table.len(), 3);
}

#[test]
fn arp_dump_of_one_line() {
    let table = parse_arp_output("192.168.1.5    AA:BB:CC:DD:EE:FF");
    assert_eq!(table.len(), 1);
    assert_eq!(table.get("192.168.1.5"), Some("AA:BB:CC:DD:EE:FF".to_string()));
}

#[test]
fn arp_dump_in_the_form_of_unix_is_not_matched() {
    // The address stands in brackets and " at " divides it from the MAC
    // address, so no white space alone lies between the two.
    let dump = "? (192.168.1.5) at aa:bb:cc:dd:ee:ff [ether] on eth0\n";
    assert_eq!(parse_arp_output(dump).len(), 0);
}

#[test]
fn arp_dump_without_entries_gives_an_empty_table() {
    assert_eq!(parse_arp_output("").len(), 0);
    assert_eq!(parse_arp_output("No ARP Entries Found.\n").len(), 0);
    assert_eq!(parse_arp_output("192.168.1.5 aa:bb:cc:dd:ee").len(), 0);
    assert_eq!(parse_arp_output("192.168.1.5 aa:bb:cc:dd:ee:gg").len(), 0);
}

#[test]
fn arp_dump_keeps_the_later_of_two_entries() {
    let table = parse_arp_output("10.0.0.1 aa:aa:aa:aa:aa:aa\n10.0.0.1 bb:bb:bb:bb:bb:bb\n");
    assert_eq!(table.len(), 1);
    assert_eq!(table.get("10.0.0.1"), Some("BB:BB:BB:BB:BB:BB".to_string()));
}

#[test]
fn arp_table_is_made_of_groups_one_and_two() {
    let found = vec![
        groups(&["10.0.0.1  aa:bb:cc:dd:ee:ff", "10.0.0.1", "aa:bb:cc:dd:ee:ff"]),
        groups(&["10.0.0.2  01-02-03-0a-0b-0c", "10.0.0.2", "01-02-03-0a-0b-0c"]),
    ];
    let table = arp_table_from_matches(&found);
    assert_eq!(table.len(), 2);
    assert_eq!(table.get("10.0.0.1"), Some("AA:BB:CC:DD:EE:FF".to_string()));
    assert_eq!(table.get("10.0.0.2"), Some("01-02-03-0A-0B-0C".to_string()));
}

#[test]
fn arp_table_insert_puts_the_mac_in_upper_case() {
    let mut table = ArpTable::new();
    table.insert("10.0.0.1", "aa:bb:cc:dd:ee:ff");
    assert_eq!(table.get("10.0.0.1"), Some("AA:BB:CC:DD:EE:FF".to_string()));
    assert_eq!(table.get("10.0.0.2"), None);
}

#[test]
fn ping_names_the_host() {
    let output = "\r\nPinging printer.lan [192.168.1.7] with 32 bytes of data:\r\n\
                  Reply from 192.168.1.7: bytes=32 time=1ms TTL=64\r\n";
    assert_eq!(hostname_from_ping(output, "192.168.1.7"), Some("printer.lan".to_string()));
}

#[test]
fn ping_that_shows_no_name_gives_none() {
    let output = "\r\nPinging 192.168.1.7 with 32 bytes of data:\r\n\
                  Reply from 192.168.1.7: bytes=32 time=1ms TTL=64\r\n";
    assert_eq!(hostname_from_ping(output, "192.168.1.7"), None);
    assert_eq!(hostname_from_ping("", "192.168.1.7"), None);
}

#[test]
fn ping_that_repeats_the_address_gives_none() {
    let output = "Pinging 192.168.1.7 [192.168.1.7] with 32 bytes of data:\r\n";
    assert_eq!(hostname_from_ping(output, "192.168.1.7"), None);
    let found = Some(groups(&["Pinging 192.168.1.7 [", "192.168.1.7"]));
    assert_eq!(hostname_from_ping_match(&found, "192.168.1.7"), None);
    assert_eq!(
        hostname_from_ping_match(&found, "192.168.1.8"),
        Some("192.168.1.7".to_string())
    );
    assert_eq!(hostname_from_ping_match(&None, "192.168.1.7"), None);
}

#[test]
fn lookup_with_one_name_gives_it() {
    let output = "7.1.168.192.in-addr.arpa\tname = printer.lan.\n\nName:   printer.lan\nAddress: 192.168.1.7\n";
    assert_eq!(hostname_from_lookup(output), "printer.lan");
}

#[test]
fn lookup_with_two_names_gives_the_second() {
    let output = "Server:  router.lan\nAddress:  192.168.1.1\n\nNAME:    first.lan\nAddress:  192.168.1.7\nname:  second.lan\nName:  third.lan\n";
    assert_eq!(hostname_from_lookup(output), "second.lan");
}

#[test]
fn lookup_without_a_name_is_empty() {
    assert_eq!(hostname_from_lookup(""), "");
    assert_eq!(hostname_from_lookup("** server can't find 7.1.168.192.in-addr.arpa: NXDOMAIN\n"), "");
    assert_eq!(hostname_from_lookup("Name:"), "");
}

#[test]
fn lookup_prefers_the_second_of_several_matches() {
    let one = vec![groups(&["Name: a", "a"])];
    let two = vec![groups(&["Name: a", "a"]), groups(&["Name: b", "b"])];
    let three = vec![groups(&["Name: a", "a"]), groups(&["Name: b", "b"]), groups(&["Name: c", "c"])];
    assert_eq!(hostname_from_lookup_matches(&Vec::new()), "");
    assert_eq!(hostname_from_lookup_matches(&one), "a");
    assert_eq!(hostname_from_lookup_matches(&two), "b");
    assert_eq!(hostname_from_lookup_matches(&three), "b");
}

#[test]
fn a_group_that_took_no_part_reads_as_empty() {
    let found = vec![vec![Some("Name: a".to_string()), None]];
    assert_eq!(hostname_from_lookup_matches(&found), "");
    assert_eq!(hostname_from_lookup_matches(&vec![vec![Some("x".to_string())]]), "");
}

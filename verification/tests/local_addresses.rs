use nodesailor::local_ips::{
    add_address, add_ifconfig_addresses, add_ipconfig_addresses, add_matches, add_words, holds,
    split_words,
};

fn strings(items: &[&str]) -> Vec<String> {
    items.iter().map(|s| s.to_string()).collect()
}

#[test]
fn words_are_divided_by_white_space() {
    let words = |s: &str| -> Vec<String> {
        let chars: Vec<char> = s.chars().collect();
        split_words(&chars).into_iter().map(|w| w.into_iter().collect()).collect()
    };
    assert_eq!(words("192.168.1.5 10.0.0.2 \n"), strings(&["192.168.1.5", "10.0.0.2"]));
    assert_eq!(words(""), Vec::<String>::new());
    assert_eq!(words("   \t\n"), Vec::<String>::new());
    assert_eq!(words("one"), strings(&["one"]));
    assert_eq!(words("  a\u{a0}b\t\tc "), strings(&["a", "b", "c"]));
    for text in ["a b", " a  b ", "\ta\nb\r\n", "x", "", "fe80::1 10.0.0.1 "] {
        let expected: Vec<String> = text.split_whitespace().map(|w| w.to_string()).collect();
        assert_eq!(words(text), expected, "{:?}", text);
    }
}

#[test]
fn an_address_is_added_once() {
    let mut list = strings(&["10.0.0.1"]);
    add_address(&mut list, "10.0.0.2".to_string());
    add_address(&mut list, "10.0.0.1".to_string());
    add_address(&mut list, "10.0.0.2".to_string());
    assert_eq!(list, strings(&["10.0.0.1", "10.0.0.2"]));
    assert!(holds(&list, "10.0.0.2"));
    assert!(!holds(&list, "10.0.0.3"));
    assert!(!holds(&Vec::new(), ""));
}

#[test]
fn the_words_of_hostname_are_added() {
    let mut list = strings(&["192.168.1.5"]);
    add_words(&mut list, "192.168.1.5 10.8.0.2 fe80::1 10.8.0.2\n");
    assert_eq!(list, strings(&["192.168.1.5", "10.8.0.2", "fe80::1"]));
    add_words(&mut list, "");
    assert_eq!(list.len(), 3);
}

#[test]
fn the_addresses_of_ifconfig_are_added_but_loopback() {
    let output = "lo0: flags=8049<UP,LOOPBACK,RUNNING,MULTICAST> mtu 16384\n\
                  \tinet 127.0.0.1 netmask 0xff000000\n\
                  \tinet6 ::1 prefixlen 128\n\
                  en0: flags=8863<UP,BROADCAST,SMART,RUNNING,SIMPLEX,MULTICAST> mtu 1500\n\
                  \tinet 192.168.1.5 netmask 0xffffff00 broadcast 192.168.1.255\n\
                  en1: flags=8863<UP> mtu 1500\n\
                  \tinet 10.8.0.2 netmask 0xfffff000 broadcast 10.8.15.255\n\
                  \tinet 192.168.1.5 netmask 0xffffff00\n";
    let mut list = strings(&["10.8.0.2"]);
    add_ifconfig_addresses(&mut list, output);
    assert_eq!(list, strings(&["10.8.0.2", "192.168.1.5"]));
}

#[test]
fn the_addresses_of_ipconfig_are_added_but_loopback() {
    let output = "Ethernet adapter Ethernet:\r\n\
                  \x20  IPv4 Address. . . . . . . . . . . : 192.168.1.37\r\n\
                  \x20  Subnet Mask . . . . . . . . . . . : 255.255.255.0\r\n\
                  Tunnel adapter Loopback:\r\n\
                  \x20  IPv4 Address. . . . . . . . . . . : 127.0.0.1\r\n\
                  Ethernet adapter Other:\r\n\
                  \x20  IPv4 Address. . . . . . . . . . . : 172.24.16.1\r\n";
    let mut list = Vec::new();
    add_ipconfig_addresses(&mut list, output);
    assert_eq!(list, strings(&["192.168.1.37", "172.24.16.1"]));
}

#[test]
fn group_one_of_each_match_is_added() {
    let found = vec![
        vec![Some("inet 10.0.0.1".to_string()), Some("10.0.0.1".to_string())],
        vec![Some("inet 127.0.0.1".to_string()), Some("127.0.0.1".to_string())],
        vec![Some("inet 10.0.0.1".to_string()), Some("10.0.0.1".to_string())],
        vec![Some("inet 10.0.0.2".to_string()), Some("10.0.0.2".to_string())],
    ];
    let mut list = strings(&["127.0.0.1"]);
    add_matches(&mut list, &found);
    assert_eq!(list, strings(&["127.0.0.1", "10.0.0.1", "10.0.0.2"]));
}

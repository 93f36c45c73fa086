use nodesailor::device::{add_port_sorted, sort_devices, sort_ports, DiscoveredDevice};

fn device(ip: &str, hostname: &str) -> DiscoveredDevice {
    DiscoveredDevice {
        ip: ip.to_string(),
        hostname: hostname.to_string(),
        mac_address: String::new(),
        vendor: String::new(),
        open_ports: vec![],
    }
}

fn ips(devices: &[DiscoveredDevice]) -> Vec<&str> {
    devices.iter().map(|d| d.ip.as_str()).collect()
}

#[test]
fn ports_are_sorted_and_deduplicated() {
    assert_eq!(sort_ports(&vec![443, 80, 443, 22]), vec![22, 80, 443]);
}

#[test]
fn ports_edge_cases() {
    assert_eq!(sort_ports(&vec![]), Vec::<u16>::new());
    assert_eq!(sort_ports(&vec![80]), vec![80]);
    assert_eq!(sort_ports(&vec![80, 80, 80]), vec![80]);
    assert_eq!(sort_ports(&vec![1, 2, 3]), vec![1, 2, 3]);
    assert_eq!(sort_ports(&vec![3, 2, 1]), vec![1, 2, 3]);
    assert_eq!(sort_ports(&vec![65535, 0, 65535, 0]), vec![0, 65535]);
    assert_eq!(
        sort_ports(&vec![80, 443, 3389, 22, 631, 9100, 5353, 8080]),
        vec![22, 80, 443, 631, 3389, 5353, 8080, 9100]
    );
}

#[test]
fn a_port_is_put_at_its_place() {
    let mut ports = vec![22, 80, 443];
    add_port_sorted(&mut ports, 100);
    assert_eq!(ports, vec![22, 80, 100, 443]);
    add_port_sorted(&mut ports, 80);
    assert_eq!(ports, vec![22, 80, 100, 443]);
    add_port_sorted(&mut ports, 1);
    assert_eq!(ports, vec![1, 22, 80, 100, 443]);
    add_port_sorted(&mut ports, 9000);
    assert_eq!(ports, vec![1, 22, 80, 100, 443, 9000]);
}

#[test]
fn devices_sort_by_the_number_of_their_address() {
    let sorted = sort_devices(vec![
        device("10.0.0.20", ""),
        device("10.0.0.3", ""),
        device("10.0.0.100", ""),
    ]);
    assert_eq!(ips(&sorted), vec!["10.0.0.3", "10.0.0.20", "10.0.0.100"]);
}

#[test]
fn devices_sort_across_octets() {
    let sorted = sort_devices(vec![
        device("192.168.1.1", ""),
        device("10.0.0.255", ""),
        device("172.16.0.1", ""),
        device("10.0.1.0", ""),
        device("9.255.255.255", ""),
    ]);
    assert_eq!(
        ips(&sorted),
        vec!["9.255.255.255", "10.0.0.255", "10.0.1.0", "172.16.0.1", "192.168.1.1"]
    );
}

#[test]
fn devices_with_malformed_addresses_sort_without_failing() {
    let sorted = sort_devices(vec![
        device("10.0.0.5", ""),
        device("garbage", ""),
        device("10.0.x.7", ""),
        device("", ""),
        device("10.0.0.6.7.8", ""),
        device("300.0.0.1", ""),
    ]);
    // "garbage" and "" count as 0.0.0.0, "300.0.0.1" as 0.0.0.1.
    assert_eq!(
        ips(&sorted),
        vec!["garbage", "", "300.0.0.1", "10.0.0.5", "10.0.0.6.7.8", "10.0.x.7"]
    );
}

#[test]
fn devices_with_one_address_keep_their_order() {
    let sorted = sort_devices(vec![
        device("10.0.0.2", "first"),
        device("10.0.0.1", "a"),
        device("10.0.0.2", "second"),
        device("010.0.0.2", "third"),
    ]);
    let names: Vec<&str> = sorted.iter().map(|d| d.hostname.as_str()).collect();
    assert_eq!(names, vec!["a", "first", "second", "third"]);
}

#[test]
fn sorting_keeps_every_field() {
    let input = DiscoveredDevice {
        ip: "10.0.0.1".to_string(),
        hostname: "host".to_string(),
        mac_address: "AA:BB:CC:DD:EE:FF".to_string(),
        vendor: "Acme".to_string(),
        open_ports: vec![443, 80],
    };
    let sorted = sort_devices(vec![device("10.0.0.2", ""), input.clone()]);
    assert_eq!(sorted[0], input);
    assert_eq!(sorted.len(), 2);
    assert!(sort_devices(vec![]).is_empty());
}

#[test]
fn a_new_device_is_blank() {
    assert_eq!(DiscoveredDevice::new("10.0.0.9".to_string()), device("10.0.0.9", ""));
}

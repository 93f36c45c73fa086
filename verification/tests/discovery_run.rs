use nodesailor::device::DiscoveredDevice;
use nodesailor::discovery::{
    DiscoveryError, PortTarget, Reply, Request, ScanDepth, Stage, Step,
};
use nodesailor::machine::Discovery;
use nodesailor::probe::ArpTable;
use nodesailor::progress::{DiscoveryProgress, Phase};
use nodesailor::vendor::VendorTable;

/// What stands for the network in a test: which addresses answer, what the
/// tables hold, which names resolve and which ports are open.
struct Network {
    alive: Vec<&'static str>,
    arp: Vec<(&'static str, &'static str)>,
    vendors: Vec<(&'static str, &'static str)>,
    names: Vec<(&'static str, &'static str)>,
    open: Vec<(&'static str, u16)>,
}

impl Network {
    fn quiet() -> Network {
        Network { alive: vec![], arp: vec![], vendors: vec![], names: vec![], open: vec![] }
    }

    fn answer(&self, request: &Request) -> Reply {
        match request {
            Request::Ping(ips) => {
                Reply::Alive(ips.iter().map(|ip| self.alive.contains(&ip.as_str())).collect())
            }
            Request::ReadTables => {
                let mut arp = ArpTable::new();
                for (ip, mac) in &self.arp {
                    arp.insert(ip, mac);
                }
                let mut vendors = VendorTable::new();
                for (prefix, org) in &self.vendors {
                    vendors.insert(prefix, org);
                }
                Reply::Tables(arp, vendors)
            }
            Request::Resolve(ips) => Reply::Names(
                ips.iter()
                    .map(|ip| {
                        self.names
                            .iter()
                            .find(|(known, _)| known == ip)
                            .map(|(_, name)| name.to_string())
                            .unwrap_or_default()
                    })
                    .collect(),
            ),
            Request::CheckPorts(targets) => Reply::Open(
                targets.iter().map(|t| self.open.contains(&(t.ip.as_str(), t.port))).collect(),
            ),
            Request::Finished(_) => unreachable!(),
        }
    }
}

/// Runs a discovery to its end and gives every event and request on the way.
fn run(
    ip: &str,
    mask: &str,
    depth: ScanDepth,
    network: &Network,
) -> (Vec<DiscoveredDevice>, Vec<DiscoveryProgress>, Vec<Request>) {
    let (mut state, mut step) = Discovery::start(ip, mask, depth).expect("the subnet is valid");
    let mut events = Vec::new();
    let mut requests = Vec::new();
    let mut steps = 0;
    loop {
        events.append(&mut step.events);
        if let Request::Finished(devices) = step.request {
            assert!(state.is_done());
            return (devices, events, requests);
        }
        assert!(!state.is_done());
        let reply = network.answer(&step.request);
        requests.push(step.request);
        let next = state.advance(reply);
        state = next.0;
        step = next.1;
        steps += 1;
        assert!(steps < 100_000);
    }
}

fn blank(ip: &str) -> DiscoveredDevice {
    DiscoveredDevice {
        ip: ip.to_string(),
        hostname: String::new(),
        mac_address: String::new(),
        vendor: String::new(),
        open_ports: vec![],
    }
}

fn event(phase: Phase, current: u32, total: u32, found: u32, message: &str) -> DiscoveryProgress {
    DiscoveryProgress { phase, current, total, found_so_far: found, message: message.to_string() }
}

#[test]
fn quick_scan_with_one_live_host() {
    let network = Network { alive: vec!["192.168.1.7"], ..Network::quiet() };
    let (devices, events, requests) =
        run("192.168.1.100", "255.255.255.0", ScanDepth::Quick, &network);
    assert_eq!(devices, vec![blank("192.168.1.7")]);
    let last = events.last().unwrap();
    assert_eq!(last.phase, Phase::Complete);
    assert_eq!(last.found_so_far, 1);
    assert_eq!(last.current, 1);
    assert_eq!(last.total, 1);
    assert_eq!(last.message, "Discovery complete — found 1 devices");
    assert!(requests.iter().all(|r| matches!(r, Request::Ping(_))));
    assert!(events
        .iter()
        .all(|e| e.phase == Phase::PingSweep || e.phase == Phase::Complete));
}

#[test]
fn ports_scan_with_no_live_host_skips_the_later_phases() {
    let (devices, events, requests) =
        run("192.168.1.100", "255.255.255.0", ScanDepth::Ports, &Network::quiet());
    assert!(devices.is_empty());
    assert!(events.iter().all(|e| e.phase == Phase::PingSweep));
    assert!(requests.iter().all(|r| matches!(r, Request::Ping(_))));
    assert_eq!(requests.len(), 9);
    assert_eq!(events.len(), 10);
    assert_eq!(
        events.last().unwrap(),
        &event(Phase::PingSweep, 254, 254, 0, "Pinged 254/254 — found 0 devices")
    );
}

#[test]
fn invalid_subnet_starts_no_run() {
    assert_eq!(
        Discovery::start("192.168.1.100", "255.240.0.0", ScanDepth::Quick).err(),
        Some(DiscoveryError::InvalidSubnet)
    );
    assert!(Discovery::start("192.168.1.100", "255.255.255.255", ScanDepth::Basic).is_err());
    assert!(Discovery::start("not an address", "255.255.255.0", ScanDepth::Ports).is_err());
    assert!(Discovery::start("192.168.1.100", "", ScanDepth::Ports).is_err());
    assert_eq!(
        DiscoveryError::InvalidSubnet.message(),
        "Could not generate IP range from subnet. The subnet may be too large (max /20) or invalid."
    );
}

#[test]
fn start_gives_the_opening_event_and_the_first_batch() {
    let (state, step) = Discovery::start("10.0.0.1", "255.255.255.0", ScanDepth::Quick).unwrap();
    assert_eq!(state.stage(), Stage::PingSweep);
    assert_eq!(state.depth(), ScanDepth::Quick);
    assert_eq!(state.candidate_count(), 254);
    assert_eq!(state.found(), 0);
    assert_eq!(
        step.events,
        vec![event(Phase::PingSweep, 0, 254, 0, "Scanning 254 addresses...")]
    );
    match step.request {
        Request::Ping(ips) => {
            assert_eq!(ips.len(), 30);
            assert_eq!(ips[0], "10.0.0.1");
            assert_eq!(ips[29], "10.0.0.30");
        }
        other => panic!("unexpected request {:?}", other),
    }
}

#[test]
fn sweep_goes_in_batches_of_thirty() {
    let network = Network { alive: vec!["10.0.0.3", "10.0.0.31", "10.0.0.70"], ..Network::quiet() };
    let (devices, events, requests) = run("10.0.0.1", "255.255.255.192", ScanDepth::Quick, &network);
    // 62 candidates: batches of 30, 30 and 2.
    let sizes: Vec<usize> = requests
        .iter()
        .map(|r| match r {
            Request::Ping(ips) => ips.len(),
            _ => panic!("only pings are expected"),
        })
        .collect();
    assert_eq!(sizes, vec![30, 30, 2]);
    assert_eq!(
        events,
        vec![
            event(Phase::PingSweep, 0, 62, 0, "Scanning 62 addresses..."),
            event(Phase::PingSweep, 30, 62, 1, "Pinged 30/62 — found 1 devices"),
            event(Phase::PingSweep, 60, 62, 2, "Pinged 60/62 — found 2 devices"),
            event(Phase::PingSweep, 62, 62, 2, "Pinged 62/62 — found 2 devices"),
            event(Phase::Complete, 2, 2, 2, "Discovery complete — found 2 devices"),
        ]
    );
    assert_eq!(devices, vec![blank("10.0.0.3"), blank("10.0.0.31")]);
}

#[test]
fn basic_scan_fills_mac_vendor_and_hostname() {
    let network = Network {
        alive: vec!["10.0.0.2", "10.0.0.5", "10.0.0.6"],
        arp: vec![("10.0.0.2", "aa:bb:cc:00:00:01"), ("10.0.0.6", "11-22-33-44-55-66"), ("10.0.0.9", "de:ad:be:ef:00:00")],
        vendors: vec![("AABBCC", "Acme Corp")],
        names: vec![("10.0.0.5", "printer.lan")],
        open: vec![("10.0.0.2", 80)],
    };
    let (devices, events, requests) = run("10.0.0.1", "255.255.255.248", ScanDepth::Basic, &network);
    assert_eq!(
        devices,
        vec![
            DiscoveredDevice {
                ip: "10.0.0.2".to_string(),
                hostname: String::new(),
                mac_address: "AA:BB:CC:00:00:01".to_string(),
                vendor: "Acme Corp".to_string(),
                open_ports: vec![],
            },
            DiscoveredDevice {
                ip: "10.0.0.5".to_string(),
                hostname: "printer.lan".to_string(),
                mac_address: String::new(),
                vendor: String::new(),
                open_ports: vec![],
            },
            DiscoveredDevice {
                ip: "10.0.0.6".to_string(),
                hostname: String::new(),
                mac_address: "11-22-33-44-55-66".to_string(),
                vendor: String::new(),
                open_ports: vec![],
            },
        ]
    );
    assert_eq!(
        events,
        vec![
            event(Phase::PingSweep, 0, 6, 0, "Scanning 6 addresses..."),
            event(Phase::PingSweep, 6, 6, 3, "Pinged 6/6 — found 3 devices"),
            event(Phase::ArpLookup, 0, 3, 3, "Reading ARP table..."),
            event(Phase::HostnameResolution, 0, 3, 3, "Resolving hostnames..."),
            event(Phase::HostnameResolution, 3, 3, 3, "Resolved 3/3 hostnames"),
            event(Phase::Complete, 3, 3, 3, "Discovery complete — found 3 devices"),
        ]
    );
    assert_eq!(requests.len(), 3);
    assert_eq!(requests[1], Request::ReadTables);
    assert_eq!(
        requests[2],
        Request::Resolve(vec!["10.0.0.2".to_string(), "10.0.0.5".to_string(), "10.0.0.6".to_string()])
    );
}

#[test]
fn ports_scan_checks_every_port_of_every_device() {
    let network = Network {
        alive: vec!["10.0.0.2", "10.0.0.4", "10.0.0.5"],
        open: vec![("10.0.0.2", 443), ("10.0.0.2", 80), ("10.0.0.2", 22), ("10.0.0.5", 8080), ("10.0.0.5", 3389), ("10.0.0.9", 80)],
        ..Network::quiet()
    };
    let (devices, events, requests) = run("10.0.0.1", "255.255.255.248", ScanDepth::Ports, &network);
    assert_eq!(devices.len(), 3);
    assert_eq!(devices[0].ip, "10.0.0.2");
    assert_eq!(devices[0].open_ports, vec![22, 80, 443]);
    assert_eq!(devices[1].ip, "10.0.0.4");
    assert_eq!(devices[1].open_ports, Vec::<u16>::new());
    assert_eq!(devices[2].ip, "10.0.0.5");
    assert_eq!(devices[2].open_ports, vec![3389, 8080]);
    let port_events: Vec<&DiscoveryProgress> =
        events.iter().filter(|e| e.phase == Phase::PortScan).collect();
    assert_eq!(
        port_events,
        vec![
            &event(Phase::PortScan, 0, 24, 3, "Scanning ports..."),
            &event(Phase::PortScan, 20, 24, 3, "Checked 20/24 port combinations"),
            &event(Phase::PortScan, 24, 24, 3, "Checked 24/24 port combinations"),
        ]
    );
    let checks: Vec<&Vec<PortTarget>> = requests
        .iter()
        .filter_map(|r| match r {
            Request::CheckPorts(targets) => Some(targets),
            _ => None,
        })
        .collect();
    assert_eq!(checks.len(), 2);
    assert_eq!(checks[0].len(), 20);
    assert_eq!(checks[1].len(), 4);
    let order: Vec<u16> = checks[0].iter().take(8).map(|t| t.port).collect();
    assert_eq!(order, vec![80, 443, 3389, 22, 631, 9100, 5353, 8080]);
    assert!(checks[0].iter().take(8).all(|t| t.ip == "10.0.0.2"));
    assert!(checks[0].iter().skip(8).take(8).all(|t| t.ip == "10.0.0.4"));
    assert_eq!(checks[1][0], PortTarget { ip: "10.0.0.5".to_string(), port: 631 });
    assert_eq!(events.last().unwrap().phase, Phase::Complete);
}

#[test]
fn phases_come_in_their_fixed_order_and_current_never_falls() {
    let alive: Vec<&'static str> = vec![
        "10.0.0.1", "10.0.0.2", "10.0.0.3", "10.0.0.4", "10.0.0.5", "10.0.0.6", "10.0.0.7",
        "10.0.0.8", "10.0.0.9", "10.0.0.10", "10.0.0.11", "10.0.0.12", "10.0.0.40", "10.0.0.41",
    ];
    let network = Network { alive, ..Network::quiet() };
    let (devices, events, _) = run("10.0.0.1", "255.255.255.0", ScanDepth::Ports, &network);
    assert_eq!(devices.len(), 14);
    let rank = |p: Phase| match p {
        Phase::PingSweep => 0,
        Phase::ArpLookup => 1,
        Phase::HostnameResolution => 2,
        Phase::PortScan => 3,
        Phase::Complete => 4,
    };
    for pair in events.windows(2) {
        assert!(rank(pair[0].phase) <= rank(pair[1].phase));
        if pair[0].phase == pair[1].phase {
            assert!(pair[0].current < pair[1].current);
            assert_eq!(pair[0].total, pair[1].total);
        }
        assert!(pair[1].current <= pair[1].total);
    }
    let names: Vec<u32> = events
        .iter()
        .filter(|e| e.phase == Phase::HostnameResolution)
        .map(|e| e.current)
        .collect();
    assert_eq!(names, vec![0, 10, 14]);
    let ports: Vec<u32> =
        events.iter().filter(|e| e.phase == Phase::PortScan).map(|e| e.current).collect();
    assert_eq!(ports, vec![0, 20, 40, 60, 80, 100, 112]);
    assert_eq!(events.iter().filter(|e| e.phase == Phase::ArpLookup).count(), 1);
    assert_eq!(events.iter().filter(|e| e.phase == Phase::Complete).count(), 1);
}

#[test]
fn a_reply_that_is_too_short_counts_the_rest_as_negative() {
    let (state, step) = Discovery::start("10.0.0.1", "255.255.255.248", ScanDepth::Basic).unwrap();
    assert!(matches!(step.request, Request::Ping(_)));
    // Six candidates, two flags: the other four count as not alive.
    let (state, step) = state.advance(Reply::Alive(vec![true, true]));
    assert_eq!(state.found(), 2);
    assert_eq!(step.request, Request::ReadTables);
    let (state, step) = state.advance(Reply::Tables(ArpTable::new(), VendorTable::new()));
    assert_eq!(state.stage(), Stage::Hostnames);
    assert_eq!(
        step.request,
        Request::Resolve(vec!["10.0.0.1".to_string(), "10.0.0.2".to_string()])
    );
    let (state, step) = state.advance(Reply::Names(vec!["one.lan".to_string()]));
    assert!(state.is_done());
    match step.request {
        Request::Finished(devices) => {
            assert_eq!(devices[0].hostname, "one.lan");
            assert_eq!(devices[1].hostname, "");
        }
        other => panic!("unexpected request {:?}", other),
    }
}

#[test]
fn a_reply_that_is_too_long_is_cut_to_the_batch() {
    let (state, _) = Discovery::start("10.0.0.1", "255.255.255.252", ScanDepth::Basic).unwrap();
    let (state, step) = state.advance(Reply::Alive(vec![true, true, true, true]));
    assert_eq!(state.found(), 2);
    assert_eq!(step.request, Request::ReadTables);
}

#[test]
fn a_reply_of_the_wrong_kind_counts_as_empty() {
    let (state, _) = Discovery::start("10.0.0.1", "255.255.255.252", ScanDepth::Ports).unwrap();
    let (state, step) = state.advance(Reply::Names(vec!["x".to_string()]));
    assert!(state.is_done());
    assert_eq!(step.request, Request::Finished(vec![]));
    assert_eq!(step.events.len(), 1);

    let (state, _) = Discovery::start("10.0.0.1", "255.255.255.252", ScanDepth::Ports).unwrap();
    let (state, _) = state.advance(Reply::Alive(vec![true, false]));
    let (state, step) = state.advance(Reply::Alive(vec![true]));
    assert_eq!(state.stage(), Stage::Hostnames);
    assert_eq!(step.request, Request::Resolve(vec!["10.0.0.1".to_string()]));
    let (state, step) = state.advance(Reply::Open(vec![true]));
    assert_eq!(state.stage(), Stage::PortScan);
    assert!(matches!(step.request, Request::CheckPorts(_)));
    let (state, step) = state.advance(Reply::Names(vec![]));
    assert!(state.is_done());
    assert_eq!(step.request, Request::Finished(vec![blank("10.0.0.1")]));
}

#[test]
fn a_finished_run_stays_finished() {
    let network = Network { alive: vec!["10.0.0.2"], ..Network::quiet() };
    let (state, step) = Discovery::start("10.0.0.1", "255.255.255.252", ScanDepth::Quick).unwrap();
    let (state, step) = state.advance(network.answer(&step.request));
    assert!(state.is_done());
    assert_eq!(step.request, Request::Finished(vec![blank("10.0.0.2")]));
    let (state, again) = state.advance(Reply::Alive(vec![true, true]));
    assert!(state.is_done());
    assert_eq!(
        again,
        Step { events: vec![], request: Request::Finished(vec![blank("10.0.0.2")]) }
    );
}

#[test]
fn scan_depth_is_read_from_its_name() {
    assert_eq!(ScanDepth::from_name("quick"), ScanDepth::Quick);
    assert_eq!(ScanDepth::from_name("basic"), ScanDepth::Basic);
    assert_eq!(ScanDepth::from_name("ports"), ScanDepth::Ports);
    assert_eq!(ScanDepth::from_name("Ports"), ScanDepth::Quick);
    assert_eq!(ScanDepth::from_name(""), ScanDepth::Quick);
    assert_eq!(ScanDepth::from_name("deep"), ScanDepth::Quick);
}

#[test]
fn phase_names() {
    assert_eq!(Phase::PingSweep.name(), "ping_sweep");
    assert_eq!(Phase::ArpLookup.name(), "arp_lookup");
    assert_eq!(Phase::HostnameResolution.name(), "hostname_resolution");
    assert_eq!(Phase::PortScan.name(), "port_scan");
    assert_eq!(Phase::Complete.name(), "complete");
}

#[test]
fn the_outcome_is_what_the_network_holds_whatever_the_batches() {
    // A network in which every third address answers, with names, MAC
    // addresses and open ports that follow from the address.
    fn last_octet(ip: &str) -> u32 {
        ip.rsplit('.').next().unwrap().parse().unwrap()
    }
    struct World;
    impl World {
        fn alive(ip: &str) -> bool {
            last_octet(ip) % 3 == 0
        }
        fn mac(ip: &str) -> Option<String> {
            if last_octet(ip) % 2 == 0 {
                Some(format!("aa:bb:cc:00:00:{:02x}", last_octet(ip)))
            } else {
                None
            }
        }
        fn name(ip: &str) -> String {
            if last_octet(ip) % 5 == 0 {
                String::new()
            } else {
                format!("host{}.lan", last_octet(ip))
            }
        }
        fn open(ip: &str, port: u16) -> bool {
            (last_octet(ip) + port as u32) % 4 == 0
        }
    }
    for depth in [ScanDepth::Quick, ScanDepth::Basic, ScanDepth::Ports] {
        let (mut state, mut step) = Discovery::start("10.0.0.1", "255.255.255.128", depth).unwrap();
        let devices = loop {
            let reply = match step.request {
                Request::Ping(ips) => Reply::Alive(ips.iter().map(|ip| World::alive(ip)).collect()),
                Request::ReadTables => {
                    let mut arp = ArpTable::new();
                    for n in 1..127 {
                        let ip = format!("10.0.0.{}", n);
                        if let Some(mac) = World::mac(&ip) {
                            arp.insert(&ip, &mac);
                        }
                    }
                    let mut vendors = VendorTable::new();
                    vendors.insert("AABBCC", "Acme Corp");
                    Reply::Tables(arp, vendors)
                }
                Request::Resolve(ips) => Reply::Names(ips.iter().map(|ip| World::name(ip)).collect()),
                Request::CheckPorts(targets) => {
                    Reply::Open(targets.iter().map(|t| World::open(&t.ip, t.port)).collect())
                }
                Request::Finished(devices) => break devices,
            };
            let next = state.advance(reply);
            state = next.0;
            step = next.1;
        };
        let expected: Vec<DiscoveredDevice> = (1..127u32)
            .map(|n| format!("10.0.0.{}", n))
            .filter(|ip| World::alive(ip))
            .map(|ip| {
                let mut d = blank(&ip);
                if depth != ScanDepth::Quick {
                    if let Some(mac) = World::mac(&ip) {
                        d.mac_address = mac.to_uppercase();
                        d.vendor = "Acme Corp".to_string();
                    }
                    d.hostname = World::name(&ip);
                }
                if depth == ScanDepth::Ports {
                    let mut ports: Vec<u16> = [80u16, 443, 3389, 22, 631, 9100, 5353, 8080]
                        .into_iter()
                        .filter(|p| World::open(&ip, *p))
                        .collect();
                    ports.sort();
                    d.open_ports = ports;
                }
                d
            })
            .collect();
        assert_eq!(devices, expected);
        assert_eq!(devices.len(), 42);
    }
}

#[test]
fn the_largest_run_ends() {
    // 4093 candidates, every one alive, every port open.
    let (mut state, mut step) =
        Discovery::start("10.1.16.1", "255.255.240.1", ScanDepth::Ports).unwrap();
    let mut steps = 0;
    let devices = loop {
        let reply = match &step.request {
            Request::Ping(ips) => Reply::Alive(vec![true; ips.len()]),
            Request::ReadTables => Reply::Tables(ArpTable::new(), VendorTable::new()),
            Request::Resolve(ips) => Reply::Names(ips.iter().map(|ip| format!("host-{}", ip)).collect()),
            Request::CheckPorts(targets) => Reply::Open(vec![true; targets.len()]),
            Request::Finished(_) => break match step.request {
                Request::Finished(devices) => devices,
                _ => unreachable!(),
            },
        };
        let next = state.advance(reply);
        state = next.0;
        step = next.1;
        steps += 1;
    };
    // 137 ping batches, the tables, 410 name batches, 1638 port batches.
    assert_eq!(steps, 137 + 1 + 410 + 1638);
    assert_eq!(devices.len(), 4093);
    assert_eq!(devices[0].ip, "10.1.16.2");
    assert_eq!(devices[0].hostname, "host-10.1.16.2");
    assert_eq!(devices[4092].ip, "10.1.31.254");
    assert!(devices.iter().all(|d| d.open_ports == vec![22, 80, 443, 631, 3389, 5353, 8080, 9100]));
}

//! The executable state of a discovery run.
use vstd::prelude::*;
use crate::address::{generate_scan_ips, lemma_scan_ips_len, MAX_HOSTS};
use crate::device::{device_views, sort_devices, sort_ports, DeviceView, DiscoveredDevice};
use crate::discovery::{
    addresses, after_names, after_ping, after_ports, after_sweep, after_tables, all_blank,
    batch_end, finish, lemma_finish_wf, lemma_live_devices, lemma_with_open_len, live_devices,
    no_ports, port_list, ports_in_order, started, step, target_at, target_views, targets, wf,
    with_names, with_open, with_port, with_sorted_ports, with_tables, DiscoveryError,
    DiscoveryView, PortTarget, Reply, Request, ScanDepth, Stage, Step, HOSTNAME_BATCH,
    PING_BATCH, PORT_BATCH, PORT_COUNT,
};
use crate::probe::ArpTable;
use crate::progress::{progress_views, DiscoveryProgress};
use crate::text::texts;
use crate::vendor::{lookup_mac_vendor, VendorTable};

verus! {

/// The state of a discovery run.
pub struct Discovery {
    depth: ScanDepth,
    stage: Stage,
    candidates: Vec<String>,
    cursor: usize,
    devices: Vec<DiscoveredDevice>,
}

impl View for Discovery {
    type V = DiscoveryView;

    closed spec fn view(&self) -> DiscoveryView {
        DiscoveryView {
            depth: self.depth,
            stage: self.stage,
            candidates: texts(self.candidates@),
            cursor: self.cursor as int,
            devices: device_views(self.devices@),
        }
    }
}

/// Port `i` of the port list.
fn port_at(i: usize) -> (port: u16)
    requires
        i < PORT_COUNT,
    ensures
        port == port_list()[i as int],
{
    if i == 0 {
        80
    } else if i == 1 {
        443
    } else if i == 2 {
        3389
    } else if i == 3 {
        22
    } else if i == 4 {
        631
    } else if i == 5 {
        9100
    } else if i == 6 {
        5353
    } else {
        8080
    }
}

/// Where a batch of `size` that starts at `cursor` ends.
fn end_of_batch(cursor: usize, size: usize, total: usize) -> (end: usize)
    requires
        cursor <= total,
        size <= 30,
        total <= 40000,
    ensures
        end as int == batch_end(cursor as int, size as int, total as int),
        cursor <= end <= total,
{
    if cursor + size < total {
        cursor + size
    } else {
        total
    }
}

/// The addresses `from` to `to` of a list.
fn copy_addresses(list: &Vec<String>, from: usize, to: usize) -> (out: Vec<String>)
    requires
        from <= to <= list.len(),
    ensures
        texts(out@) == texts(list@).subrange(from as int, to as int),
{
    let mut out: Vec<String> = Vec::new();
    let mut i: usize = from;
    while i < to
        invariant
            from <= i <= to <= list.len(),
            texts(out@) == texts(list@).subrange(from as int, i as int),
        decreases to - i,
    {
        let ghost before = out@;
        out.push(list[i].clone());
        proof {
            assert(texts(out@) == texts(before).push(list@[i as int]@));
            assert(texts(list@).subrange(from as int, i + 1) == texts(list@).subrange(
                from as int,
                i as int,
            ).push(list@[i as int]@));
        }
        i += 1;
    }
    out
}

/// Adds a blank device for each of the addresses `from` to `to` whose flag
/// is set.
fn add_live(
    devices: &mut Vec<DiscoveredDevice>,
    candidates: &Vec<String>,
    from: usize,
    to: usize,
    flags: &Vec<bool>,
)
    requires
        from <= to <= candidates.len(),
    ensures
        device_views(final(devices)@) == device_views(old(devices)@) + live_devices(
            texts(candidates@).subrange(from as int, to as int),
            flags@,
        ),
{
    let mut i: usize = from;
    proof {
        assert(texts(candidates@).subrange(from as int, from as int).len() == 0);
        assert(device_views(devices@) + Seq::<DeviceView>::empty() == device_views(devices@));
    }
    while i < to
        invariant
            from <= i <= to <= candidates.len(),
            device_views(devices@) == device_views(old(devices)@) + live_devices(
                texts(candidates@).subrange(from as int, i as int),
                flags@,
            ),
        decreases to - i,
    {
        let ghost before = devices@;
        let ghost batch = texts(candidates@).subrange(from as int, i + 1);
        proof {
            assert(batch.drop_last() == texts(candidates@).subrange(from as int, i as int));
            assert(batch.last() == candidates@[i as int]@);
        }
        if i - from < flags.len() && flags[i - from] {
            devices.push(DiscoveredDevice::new(candidates[i].clone()));
            proof {
                let d = crate::device::blank_device(candidates@[i as int]@);
                assert(device_views(devices@) == device_views(before).push(d));
                assert(device_views(old(devices)@) + live_devices(batch.drop_last(), flags@).push(d)
                    == (device_views(old(devices)@) + live_devices(
                    batch.drop_last(),
                    flags@,
                )).push(d));
            }
        }
        i += 1;
    }
}

/// The devices with what the two tables say of each.
fn apply_tables(devices: &Vec<DiscoveredDevice>, arp: &ArpTable, vendors: &VendorTable) -> (out:
    Vec<DiscoveredDevice>)
    ensures
        out.len() == devices.len(),
        device_views(out@) == device_views(devices@).map_values(
            |d: DeviceView| with_tables(d, arp@, vendors@),
        ),
{
    let mut out: Vec<DiscoveredDevice> = Vec::new();
    let mut i: usize = 0;
    while i < devices.len()
        invariant
            i <= devices.len(),
            out.len() == i,
            forall|k: int|
                0 <= k < i ==> (#[trigger] out@[k])@ == with_tables(devices@[k]@, arp@, vendors@),
        decreases devices.len() - i,
    {
        let d = &devices[i];
        let mac = match arp.get(d.ip.as_str()) {
            Some(m) => m,
            None => d.mac_address.clone(),
        };
        let vendor = if mac.as_str().unicode_len() > 0 {
            lookup_mac_vendor(mac.as_str(), vendors)
        } else {
            d.vendor.clone()
        };
        out.push(
            DiscoveredDevice {
                ip: d.ip.clone(),
                hostname: d.hostname.clone(),
                mac_address: mac,
                vendor,
                open_ports: crate::device::copy_ports(&d.open_ports),
            },
        );
        i += 1;
    }
    assert(device_views(out@) =~= device_views(devices@).map_values(
        |d: DeviceView| with_tables(d, arp@, vendors@),
    ));
    out
}

/// The addresses of the devices `from` to `to`.
fn device_addresses(devices: &Vec<DiscoveredDevice>, from: usize, to: usize) -> (out: Vec<String>)
    requires
        from <= to <= devices.len(),
    ensures
        texts(out@) == addresses(device_views(devices@)).subrange(from as int, to as int),
{
    let mut out: Vec<String> = Vec::new();
    let mut i: usize = from;
    while i < to
        invariant
            from <= i <= to <= devices.len(),
            out.len() == i - from,
            forall|k: int| 0 <= k < i - from ==> (#[trigger] out@[k])@ == devices@[from + k]@.ip,
        decreases to - i,
    {
        out.push(devices[i].ip.clone());
        i += 1;
    }
    assert(texts(out@) =~= addresses(device_views(devices@)).subrange(from as int, to as int));
    out
}

/// The devices with the names of the batch that runs from `from` to `to`.
fn apply_names(devices: &Vec<DiscoveredDevice>, from: usize, to: usize, names: &Vec<String>) -> (out:
    Vec<DiscoveredDevice>)
    requires
        from <= to <= devices.len(),
    ensures
        out.len() == devices.len(),
        device_views(out@) == with_names(
            device_views(devices@),
            from as int,
            to as int,
            texts(names@),
        ),
{
    let mut out: Vec<DiscoveredDevice> = Vec::new();
    let mut i: usize = 0;
    while i < devices.len()
        invariant
            i <= devices.len(),
            from <= to <= devices.len(),
            out.len() == i,
            forall|k: int|
                0 <= k < i ==> (#[trigger] out@[k])@ == with_names(
                    device_views(devices@),
                    from as int,
                    to as int,
                    texts(names@),
                )[k],
        decreases devices.len() - i,
    {
        let d = &devices[i];
        let hostname = if from <= i && i < to && i - from < names.len() {
            names[i - from].clone()
        } else {
            d.hostname.clone()
        };
        out.push(
            DiscoveredDevice {
                ip: d.ip.clone(),
                hostname,
                mac_address: d.mac_address.clone(),
                vendor: d.vendor.clone(),
                open_ports: crate::device::copy_ports(&d.open_ports),
            },
        );
        i += 1;
    }
    assert(device_views(out@) =~= with_names(
        device_views(devices@),
        from as int,
        to as int,
        texts(names@),
    ));
    out
}

/// The port checks `from` to `to`.
fn port_targets(devices: &Vec<DiscoveredDevice>, from: usize, to: usize) -> (out: Vec<PortTarget>)
    requires
        from <= to <= devices.len() * PORT_COUNT,
    ensures
        target_views(out@) == targets(device_views(devices@), from as int, to as int),
{
    let mut out: Vec<PortTarget> = Vec::new();
    let mut k: usize = from;
    while k < to
        invariant
            from <= k <= to <= devices.len() * PORT_COUNT,
            out.len() == k - from,
            forall|j: int|
                0 <= j < k - from ==> (#[trigger] out@[j])@ == target_at(
                    device_views(devices@),
                    from + j,
                ),
        decreases to - k,
    {
        let d = k / PORT_COUNT;
        out.push(PortTarget { ip: devices[d].ip.clone(), port: port_at(k % PORT_COUNT) });
        k += 1;
    }
    assert(target_views(out@) =~= targets(device_views(devices@), from as int, to as int));
    out
}

/// Adds each open port of the batch that runs from check `from` to check
/// `to` to its device.
fn apply_open(devices: &mut Vec<DiscoveredDevice>, from: usize, to: usize, flags: &Vec<bool>)
    requires
        from <= to <= old(devices).len() * PORT_COUNT,
    ensures
        final(devices).len() == old(devices).len(),
        device_views(final(devices)@) == with_open(
            device_views(old(devices)@),
            from as int,
            flags@,
            to - from,
        ),
{
    let mut k: usize = from;
    while k < to
        invariant
            from <= k <= to <= devices.len() * PORT_COUNT,
            devices.len() == old(devices).len(),
            device_views(devices@) == with_open(
                device_views(old(devices)@),
                from as int,
                flags@,
                k - from,
            ),
        decreases to - k,
    {
        if k - from < flags.len() && flags[k - from] {
            let d = k / PORT_COUNT;
            let port = port_at(k % PORT_COUNT);
            let ghost before = devices@;
            let mut device = devices[d].clone();
            device.open_ports.push(port);
            devices.set(d, device);
            proof {
                assert(device_views(devices@) =~= device_views(before).update(
                    d as int,
                    with_port(before[d as int]@, port),
                ));
            }
        }
        k += 1;
    }
}

/// The devices, each with its ports in ascending order and each port once.
fn sort_all_ports(devices: &Vec<DiscoveredDevice>) -> (out: Vec<DiscoveredDevice>)
    ensures
        out.len() == devices.len(),
        device_views(out@) == device_views(devices@).map_values(
            |d: DeviceView| with_sorted_ports(d),
        ),
{
    let mut out: Vec<DiscoveredDevice> = Vec::new();
    let mut i: usize = 0;
    while i < devices.len()
        invariant
            i <= devices.len(),
            out.len() == i,
            forall|k: int| 0 <= k < i ==> (#[trigger] out@[k])@ == with_sorted_ports(devices@[k]@),
        decreases devices.len() - i,
    {
        let d = &devices[i];
        out.push(
            DiscoveredDevice {
                ip: d.ip.clone(),
                hostname: d.hostname.clone(),
                mac_address: d.mac_address.clone(),
                vendor: d.vendor.clone(),
                open_ports: sort_ports(&d.open_ports),
            },
        );
        i += 1;
    }
    assert(device_views(out@) =~= device_views(devices@).map_values(
        |d: DeviceView| with_sorted_ports(d),
    ));
    out
}

/// A copy of a list of devices.
fn copy_devices(devices: &Vec<DiscoveredDevice>) -> (out: Vec<DiscoveredDevice>)
    ensures
        device_views(out@) == device_views(devices@),
{
    let mut out: Vec<DiscoveredDevice> = Vec::new();
    let mut i: usize = 0;
    while i < devices.len()
        invariant
            i <= devices.len(),
            out.len() == i,
            forall|k: int| 0 <= k < i ==> (#[trigger] out@[k])@ == devices@[k]@,
        decreases devices.len() - i,
    {
        out.push(devices[i].clone());
        i += 1;
    }
    assert(device_views(out@) =~= device_views(devices@));
    out
}

/// The state that the parts of a run make up.
pub open spec fn state_of(
    depth: ScanDepth,
    stage: Stage,
    candidates: Vec<String>,
    cursor: usize,
    devices: Vec<DiscoveredDevice>,
) -> DiscoveryView {
    DiscoveryView {
        depth,
        stage,
        candidates: texts(candidates@),
        cursor: cursor as int,
        devices: device_views(devices@),
    }
}

impl Discovery {
    #[verifier::type_invariant]
    closed spec fn well_formed(&self) -> bool {
        wf(self@)
    }

    /// Ends the run: puts the devices in order and adds the closing event.
    fn finish(
        depth: ScanDepth,
        stage: Stage,
        candidates: Vec<String>,
        cursor: usize,
        devices: Vec<DiscoveredDevice>,
        events: Vec<DiscoveryProgress>,
    ) -> (r: (Discovery, Step))
        requires
            candidates.len() < MAX_HOSTS,
            devices.len() <= candidates.len(),
            ports_in_order(device_views(devices@)),
            depth == ScanDepth::Quick ==> all_blank(device_views(devices@)),
        ensures
            (r.0@, r.1@) == finish(
                state_of(depth, stage, candidates, cursor, devices),
                progress_views(events@),
            ),
            wf(r.0@),
    {
        let ghost s = state_of(depth, stage, candidates, cursor, devices);
        let ghost before = events@;
        let found = devices.len() as u32;
        let sorted = sort_devices(devices);
        let listed = copy_devices(&sorted);
        let mut events = events;
        events.push(DiscoveryProgress::run_complete(found));
        proof {
            lemma_finish_wf(s, progress_views(before));
            assert(progress_views(events@) =~= progress_views(before).push(
                crate::progress::run_complete(found as int),
            ));
        }
        let run = Discovery { depth, stage: Stage::Done, candidates, cursor: 0, devices: sorted };
        let last = Step { events, request: Request::Finished(listed) };
        proof {
            assert(run@ =~= finish(s, progress_views(before)).0);
            assert(last@ =~= finish(s, progress_views(before)).1);
        }
        (run, last)
    }

    /// Leaves the ping sweep.
    fn leave_sweep(
        depth: ScanDepth,
        stage: Stage,
        candidates: Vec<String>,
        cursor: usize,
        devices: Vec<DiscoveredDevice>,
        events: Vec<DiscoveryProgress>,
    ) -> (r: (Discovery, Step))
        requires
            candidates.len() < MAX_HOSTS,
            devices.len() <= candidates.len(),
            all_blank(device_views(devices@)),
        ensures
            (r.0@, r.1@) == after_sweep(
                state_of(depth, stage, candidates, cursor, devices),
                progress_views(events@),
            ),
            wf(r.0@),
    {
        let ghost s = state_of(depth, stage, candidates, cursor, devices);
        let ghost before = events@;
        if devices.len() == 0 {
            let run = Discovery { depth, stage: Stage::Done, candidates, cursor: 0, devices };
            let last = Step { events, request: Request::Finished(Vec::new()) };
            proof {
                assert(run@ =~= after_sweep(s, progress_views(before)).0);
                assert(last@ =~= after_sweep(s, progress_views(before)).1);
            }
            (run, last)
        } else if depth == ScanDepth::Quick {
            Self::finish(depth, stage, candidates, cursor, devices, events)
        } else {
            let found = devices.len() as u32;
            let mut events = events;
            events.push(DiscoveryProgress::arp_started(found));
            let run = Discovery { depth, stage: Stage::Tables, candidates, cursor: 0, devices };
            let next = Step { events, request: Request::ReadTables };
            proof {
                assert(progress_views(events@) =~= progress_views(before).push(
                    crate::progress::arp_started(found as int),
                ));
                assert(run@ =~= after_sweep(s, progress_views(before)).0);
                assert(next@ =~= after_sweep(s, progress_views(before)).1);
            }
            (run, next)
        }
    }

    /// The step on the liveness flags of a batch.
    fn on_ping(self, flags: &Vec<bool>) -> (r: (Discovery, Step))
        requires
            self@.stage == Stage::PingSweep,
        ensures
            (r.0@, r.1@) == after_ping(self@, flags@),
            wf(r.0@),
    {
        proof {
            use_type_invariant(&self);
        }
        let ghost s = self@;
        let Discovery { depth, stage, candidates, cursor, devices } = self;
        let mut devices = devices;
        let total = candidates.len();
        let end = end_of_batch(cursor, PING_BATCH, total);
        add_live(&mut devices, &candidates, cursor, end, flags);
        proof {
            lemma_live_devices(texts(candidates@).subrange(cursor as int, end as int), flags@);
            assert(all_blank(device_views(devices@)));
        }
        let mut events: Vec<DiscoveryProgress> = Vec::new();
        events.push(
            DiscoveryProgress::sweep_progress(end as u32, total as u32, devices.len() as u32),
        );
        proof {
            assert(progress_views(events@) =~= seq![
                crate::progress::sweep_progress(
                    end as int,
                    total as int,
                    devices.len() as int,
                ),
            ]);
        }
        if end < total {
            let next_end = end_of_batch(end, PING_BATCH, total);
            let batch = copy_addresses(&candidates, end, next_end);
            let run = Discovery { depth, stage, candidates, cursor: end, devices };
            let next = Step { events, request: Request::Ping(batch) };
            proof {
                assert(run@ =~= after_ping(s, flags@).0);
                assert(next@ =~= after_ping(s, flags@).1);
            }
            (run, next)
        } else {
            proof {
                assert(state_of(depth, stage, candidates, cursor, devices) =~= DiscoveryView {
                    devices: device_views(devices@),
                    ..s
                });
            }
            Self::leave_sweep(depth, stage, candidates, cursor, devices, events)
        }
    }

    /// The step on the two tables.
    fn on_tables(self, arp: &ArpTable, vendors: &VendorTable) -> (r: (Discovery, Step))
        requires
            self@.stage == Stage::Tables,
        ensures
            (r.0@, r.1@) == after_tables(self@, arp@, vendors@),
            wf(r.0@),
    {
        proof {
            use_type_invariant(&self);
        }
        let ghost s = self@;
        let Discovery { depth, stage, candidates, cursor, devices } = self;
        let devices = apply_tables(&devices, arp, vendors);
        let found = devices.len();
        let end = end_of_batch(0, HOSTNAME_BATCH, found);
        let batch = device_addresses(&devices, 0, end);
        let mut events: Vec<DiscoveryProgress> = Vec::new();
        events.push(DiscoveryProgress::resolving_started(found as u32));
        let run = Discovery { depth, stage: Stage::Hostnames, candidates, cursor: 0, devices };
        let next = Step { events, request: Request::Resolve(batch) };
        proof {
            assert(progress_views(next.events@) =~= seq![
                crate::progress::resolving_started(found as int),
            ]);
            assert(run@ =~= after_tables(s, arp@, vendors@).0);
            assert(next@ =~= after_tables(s, arp@, vendors@).1);
        }
        (run, next)
    }

    /// The step on the names of a batch.
    fn on_names(self, names: &Vec<String>) -> (r: (Discovery, Step))
        requires
            self@.stage == Stage::Hostnames,
        ensures
            (r.0@, r.1@) == after_names(self@, texts(names@)),
            wf(r.0@),
    {
        proof {
            use_type_invariant(&self);
        }
        let ghost s = self@;
        let Discovery { depth, stage, candidates, cursor, devices } = self;
        let found = devices.len();
        let end = end_of_batch(cursor, HOSTNAME_BATCH, found);
        let devices = apply_names(&devices, cursor, end, names);
        let mut events: Vec<DiscoveryProgress> = Vec::new();
        events.push(DiscoveryProgress::resolving_progress(end as u32, found as u32));
        proof {
            assert(no_ports(device_views(devices@)));
            assert(progress_views(events@) =~= seq![
                crate::progress::resolving_progress(end as int, found as int),
            ]);
        }
        if end < found {
            let next_end = end_of_batch(end, HOSTNAME_BATCH, found);
            let batch = device_addresses(&devices, end, next_end);
            let run = Discovery { depth, stage, candidates, cursor: end, devices };
            let next = Step { events, request: Request::Resolve(batch) };
            proof {
                assert(run@ =~= after_names(s, texts(names@)).0);
                assert(next@ =~= after_names(s, texts(names@)).1);
            }
            (run, next)
        } else if depth == ScanDepth::Ports {
            let total = found * PORT_COUNT;
            let first_end = end_of_batch(0, PORT_BATCH, total);
            let batch = port_targets(&devices, 0, first_end);
            let ghost one = events@;
            events.push(DiscoveryProgress::ports_started(total as u32, found as u32));
            let run = Discovery { depth, stage: Stage::PortScan, candidates, cursor: 0, devices };
            let next = Step { events, request: Request::CheckPorts(batch) };
            proof {
                assert(progress_views(next.events@) =~= seq![
                    crate::progress::resolving_progress(end as int, found as int),
                    crate::progress::ports_started(total as int, found as int),
                ]);
                assert(run@ =~= after_names(s, texts(names@)).0);
                assert(next@ =~= after_names(s, texts(names@)).1);
            }
            (run, next)
        } else {
            proof {
                assert(state_of(depth, stage, candidates, cursor, devices) =~= DiscoveryView {
                    devices: device_views(devices@),
                    ..s
                });
            }
            Self::finish(depth, stage, candidates, cursor, devices, events)
        }
    }

    /// The step on the flags of a batch of port checks.
    fn on_ports(self, flags: &Vec<bool>) -> (r: (Discovery, Step))
        requires
            self@.stage == Stage::PortScan,
        ensures
            (r.0@, r.1@) == after_ports(self@, flags@),
            wf(r.0@),
    {
        proof {
            use_type_invariant(&self);
        }
        let ghost s = self@;
        let Discovery { depth, stage, candidates, cursor, devices } = self;
        let mut devices = devices;
        let found = devices.len();
        let total = found * PORT_COUNT;
        let end = end_of_batch(cursor, PORT_BATCH, total);
        apply_open(&mut devices, cursor, end, flags);
        proof {
            lemma_with_open_len(s.devices, cursor as int, flags@, end - cursor);
        }
        let mut events: Vec<DiscoveryProgress> = Vec::new();
        events.push(DiscoveryProgress::ports_progress(end as u32, total as u32, found as u32));
        proof {
            assert(progress_views(events@) =~= seq![
                crate::progress::ports_progress(end as int, total as int, found as int),
            ]);
        }
        if end < total {
            let next_end = end_of_batch(end, PORT_BATCH, total);
            let batch = port_targets(&devices, end, next_end);
            let run = Discovery { depth, stage, candidates, cursor: end, devices };
            let next = Step { events, request: Request::CheckPorts(batch) };
            proof {
                assert(run@ =~= after_ports(s, flags@).0);
                assert(next@ =~= after_ports(s, flags@).1);
            }
            (run, next)
        } else {
            let ordered = sort_all_ports(&devices);
            proof {
                assert forall|i: int| 0 <= i < ordered.len() implies crate::device::is_ascending(
                    #[trigger] device_views(ordered@)[i].open_ports,
                ) by {
                    crate::device::lemma_sorted_ports(devices@[i]@.open_ports);
                    assert(device_views(ordered@)[i] == with_sorted_ports(
                        device_views(devices@)[i],
                    ));
                }
                assert(state_of(depth, stage, candidates, cursor, ordered) =~= DiscoveryView {
                    devices: device_views(ordered@),
                    ..s
                });
            }
            Self::finish(depth, stage, candidates, cursor, ordered, events)
        }
    }

    /// Takes one step: from the reply to the last request to the events to
    /// report and the next request. A reply of a kind that was not asked for
    /// counts as one that found nothing. Once the run is over, every step
    /// gives the devices again and nothing to report.
    pub fn advance(self, reply: Reply) -> (r: (Discovery, Step))
        ensures
            (r.0@, r.1@) == step(self@, reply@),
            wf(r.0@),
    {
        proof {
            use_type_invariant(&self);
        }
        match self.stage {
            Stage::PingSweep => {
                match reply {
                    Reply::Alive(flags) => self.on_ping(&flags),
                    _ => self.on_ping(&Vec::new()),
                }
            },
            Stage::Tables => {
                match reply {
                    Reply::Tables(arp, vendors) => self.on_tables(&arp, &vendors),
                    _ => self.on_tables(&ArpTable::new(), &VendorTable::new()),
                }
            },
            Stage::Hostnames => {
                match reply {
                    Reply::Names(names) => self.on_names(&names),
                    _ => {
                        let none: Vec<String> = Vec::new();
                        assert(texts(none@) =~= Seq::<Seq<char>>::empty());
                        self.on_names(&none)
                    },
                }
            },
            Stage::PortScan => {
                match reply {
                    Reply::Open(flags) => self.on_ports(&flags),
                    _ => self.on_ports(&Vec::new()),
                }
            },
            Stage::Done => {
                let listed = copy_devices(&self.devices);
                let again = Step { events: Vec::new(), request: Request::Finished(listed) };
                proof {
                    assert(again@ =~= step(self@, reply@).1);
                }
                (self, again)
            },
        }
    }

    /// Starts a run over the subnet of `ip` under `mask`. With a subnet that
    /// gives no address to scan, which is one whose address or mask is
    /// malformed or whose range is empty or too large, no run starts and
    /// nothing is to be reported.
    pub fn start(ip: &str, mask: &str, depth: ScanDepth) -> (r: Result<
        (Discovery, Step),
        DiscoveryError,
    >)
        ensures
            match r {
                Ok((run, first)) => started(ip@, mask@, depth) == Some((run@, first@)) && wf(run@),
                Err(e) => started(ip@, mask@, depth).is_none(),
            },
    {
        let candidates = generate_scan_ips(ip, mask);
        if candidates.len() == 0 {
            return Err(DiscoveryError::InvalidSubnet);
        }
        proof {
            lemma_scan_ips_len(ip@, mask@);
        }
        let total = candidates.len();
        let end = end_of_batch(0, PING_BATCH, total);
        let batch = copy_addresses(&candidates, 0, end);
        let mut events: Vec<DiscoveryProgress> = Vec::new();
        events.push(DiscoveryProgress::sweep_started(total as u32));
        let run = Discovery {
            depth,
            stage: Stage::PingSweep,
            candidates,
            cursor: 0,
            devices: Vec::new(),
        };
        let first = Step { events, request: Request::Ping(batch) };
        proof {
            assert(device_views(run.devices@) =~= Seq::<DeviceView>::empty());
            assert(progress_views(first.events@) =~= seq![
                crate::progress::sweep_started(total as int),
            ]);
        }
        Ok((run, first))
    }

    /// The depth of the run.
    pub fn depth(&self) -> (depth: ScanDepth)
        ensures
            depth == self@.depth,
    {
        self.depth
    }

    /// What the run is waiting for.
    pub fn stage(&self) -> (stage: Stage)
        ensures
            stage == self@.stage,
    {
        self.stage
    }

    /// Whether the run is over.
    pub fn is_done(&self) -> (done: bool)
        ensures
            done == (self@.stage == Stage::Done),
    {
        self.stage == Stage::Done
    }

    /// How many devices the run has found so far.
    pub fn found(&self) -> (n: usize)
        ensures
            n == self@.devices.len(),
    {
        self.devices.len()
    }

    /// How many addresses the run pings in all.
    pub fn candidate_count(&self) -> (n: usize)
        ensures
            n == self@.candidates.len(),
    {
        self.candidates.len()
    }
}

} // verus!

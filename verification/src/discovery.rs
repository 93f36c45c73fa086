//! The discovery run as a state machine.
//!
//! A run probes the hosts of a subnet in phases: a ping sweep over every
//! candidate address, then for the hosts that answered a lookup of MAC address
//! and vendor, a resolution of host names and a scan of ports. The probing
//! itself is done by the caller. The machine decides: each step takes the
//! caller's reply to the last request and gives the progress events to report
//! and the next request, until the request is `Finished` with the device list.
use vstd::prelude::*;
use crate::address::{scan_ips, MAX_HOSTS};
use crate::device::{
    blank_device, device_views, is_ascending, is_sorted_by_ip, lemma_sort_by_ip,
    lemma_sorted_ports, sort_by_ip, sorted_ports, DeviceView, DiscoveredDevice,
};
use crate::probe::ArpTable;
use crate::progress::{
    arp_started, phase_rank, ports_progress, ports_started, progress_views, resolving_progress,
    resolving_started, run_complete, sweep_progress, sweep_started, DiscoveryProgress, Phase,
    ProgressView,
};
use crate::text::{same_text, texts};
use crate::vendor::{vendor_of, VendorTable};

verus! {

/// How many addresses are pinged at a time.
pub const PING_BATCH: usize = 30;

/// How many host names are resolved at a time.
pub const HOSTNAME_BATCH: usize = 10;

/// How many ports are checked at a time.
pub const PORT_BATCH: usize = 20;

/// How many ports are checked on each device.
pub const PORT_COUNT: usize = 8;

/// The ports that are checked on each device, in the order of checking.
pub open spec fn port_list() -> Seq<u16> {
    seq![80u16, 443u16, 3389u16, 22u16, 631u16, 9100u16, 5353u16, 8080u16]
}

/// How far a run goes.
#[derive(Debug, Clone, Copy, PartialEq, Eq, Structural)]
pub enum ScanDepth {
    /// The ping sweep only.
    Quick,
    /// The ping sweep, then MAC addresses, vendors and host names.
    Basic,
    /// All of `Basic`, then the port scan.
    Ports,
}

/// The depth that a name stands for: `basic`, `ports`, and the ping sweep
/// alone for every other name.
pub open spec fn depth_of(name: Seq<char>) -> ScanDepth {
    if name == "basic"@ {
        ScanDepth::Basic
    } else if name == "ports"@ {
        ScanDepth::Ports
    } else {
        ScanDepth::Quick
    }
}

impl ScanDepth {
    /// The depth that `name` stands for.
    pub fn from_name(name: &str) -> (depth: ScanDepth)
        ensures
            depth == depth_of(name@),
    {
        if same_text(name, "basic") {
            ScanDepth::Basic
        } else if same_text(name, "ports") {
            ScanDepth::Ports
        } else {
            ScanDepth::Quick
        }
    }
}

/// What a run is waiting for.
#[derive(Debug, Clone, Copy, PartialEq, Eq, Structural)]
pub enum Stage {
    /// The liveness of a batch of candidate addresses.
    PingSweep,
    /// The ARP table and the vendor table.
    Tables,
    /// The host names of a batch of devices.
    Hostnames,
    /// The state of a batch of ports.
    PortScan,
    /// Nothing: the run is over.
    Done,
}

/// One port of one host to check.
#[derive(Debug, PartialEq, Eq)]
pub struct PortTarget {
    pub ip: String,
    pub port: u16,
}

/// A port target as plain values.
#[verifier::ext_equal]
pub struct TargetView {
    pub ip: Seq<char>,
    pub port: u16,
}

impl View for PortTarget {
    type V = TargetView;

    open spec fn view(&self) -> TargetView {
        TargetView { ip: self.ip@, port: self.port }
    }
}

/// The views of a list of targets, target by target.
pub open spec fn target_views(targets: Seq<PortTarget>) -> Seq<TargetView> {
    targets.map_values(|t: PortTarget| t@)
}

/// What the machine asks of its caller.
#[derive(Debug, PartialEq, Eq)]
pub enum Request {
    /// Probe each address for liveness, all at once, and answer with
    /// `Reply::Alive`, one flag for each address in this order.
    Ping(Vec<String>),
    /// Read the system's ARP table, then the vendor dataset, and answer with
    /// `Reply::Tables`.
    ReadTables,
    /// Resolve the host name of each address, all at once, and answer with
    /// `Reply::Names`, one name for each address in this order.
    Resolve(Vec<String>),
    /// Try to connect to each target, all at once, and answer with
    /// `Reply::Open`, one flag for each target in this order.
    CheckPorts(Vec<PortTarget>),
    /// Nothing more: the run is over, and these are its devices.
    Finished(Vec<DiscoveredDevice>),
}

/// A request as plain values.
#[verifier::ext_equal]
pub enum RequestView {
    Ping(Seq<Seq<char>>),
    ReadTables,
    Resolve(Seq<Seq<char>>),
    CheckPorts(Seq<TargetView>),
    Finished(Seq<DeviceView>),
}

impl View for Request {
    type V = RequestView;

    open spec fn view(&self) -> RequestView {
        match self {
            Request::Ping(ips) => RequestView::Ping(texts(ips@)),
            Request::ReadTables => RequestView::ReadTables,
            Request::Resolve(ips) => RequestView::Resolve(texts(ips@)),
            Request::CheckPorts(targets) => RequestView::CheckPorts(target_views(targets@)),
            Request::Finished(devices) => RequestView::Finished(device_views(devices@)),
        }
    }
}

/// What the caller found. A probe that failed counts as one that found
/// nothing: a flag that is missing is read as false, a name that is missing
/// as unknown, and a reply of a kind that was not asked for as an empty one.
pub enum Reply {
    Alive(Vec<bool>),
    Tables(ArpTable, VendorTable),
    Names(Vec<String>),
    Open(Vec<bool>),
}

/// A reply as plain values.
#[verifier::ext_equal]
pub enum ReplyView {
    Alive(Seq<bool>),
    Tables(Map<Seq<char>, Seq<char>>, Map<Seq<char>, Seq<char>>),
    Names(Seq<Seq<char>>),
    Open(Seq<bool>),
}

impl View for Reply {
    type V = ReplyView;

    open spec fn view(&self) -> ReplyView {
        match self {
            Reply::Alive(flags) => ReplyView::Alive(flags@),
            Reply::Tables(arp, vendors) => ReplyView::Tables(arp@, vendors@),
            Reply::Names(names) => ReplyView::Names(texts(names@)),
            Reply::Open(flags) => ReplyView::Open(flags@),
        }
    }
}

/// What one step of the machine gives: the events to report, in this order,
/// and then the request to carry out.
#[derive(Debug, PartialEq, Eq)]
pub struct Step {
    pub events: Vec<DiscoveryProgress>,
    pub request: Request,
}

/// A step as plain values.
#[verifier::ext_equal]
pub struct StepView {
    pub events: Seq<ProgressView>,
    pub request: RequestView,
}

impl View for Step {
    type V = StepView;

    open spec fn view(&self) -> StepView {
        StepView { events: progress_views(self.events@), request: self.request@ }
    }
}

/// Why a run could not start.
#[derive(Debug, Clone, Copy, PartialEq, Eq, Structural)]
pub enum DiscoveryError {
    /// The subnet gives no address to scan: address or mask is malformed, or
    /// the range is empty or too large.
    InvalidSubnet,
}

/// What the caller is told of an error.
pub open spec fn error_message(e: DiscoveryError) -> Seq<char> {
    "Could not generate IP range from subnet. The subnet may be too large (max /20) or invalid."@
}

impl DiscoveryError {
    /// What the caller is told of the error.
    pub fn message(&self) -> (s: String)
        ensures
            s@ == error_message(*self),
    {
        "Could not generate IP range from subnet. The subnet may be too large (max /20) or invalid.".to_owned()
    }
}

/// The state of a run as plain values.
#[verifier::ext_equal]
pub struct DiscoveryView {
    pub depth: ScanDepth,
    pub stage: Stage,
    /// The addresses to ping, ascending.
    pub candidates: Seq<Seq<char>>,
    /// How much of the work of the stage is done: addresses pinged, names
    /// resolved, ports checked.
    pub cursor: int,
    /// The hosts found alive so far, with what is known of them.
    pub devices: Seq<DeviceView>,
}

/// Where a batch that starts at `cursor` ends.
pub open spec fn batch_end(cursor: int, size: int, total: int) -> int {
    if cursor + size < total {
        cursor + size
    } else {
        total
    }
}

/// Flag `i` of a reply; false where the reply has none.
pub open spec fn flag_at(flags: Seq<bool>, i: int) -> bool {
    0 <= i < flags.len() && flags[i]
}

/// Whether every device has its ports in ascending order, each once.
pub open spec fn ports_in_order(devices: Seq<DeviceView>) -> bool {
    forall|i: int| 0 <= i < devices.len() ==> is_ascending(#[trigger] devices[i].open_ports)
}

/// Whether no device has a port yet.
pub open spec fn no_ports(devices: Seq<DeviceView>) -> bool {
    forall|i: int| 0 <= i < devices.len() ==> (#[trigger] devices[i]).open_ports.len() == 0
}

/// Whether nothing but the address is known of any device.
pub open spec fn all_blank(devices: Seq<DeviceView>) -> bool {
    forall|i: int| 0 <= i < devices.len() ==> #[trigger] devices[i] == blank_device(devices[i].ip)
}

/// What holds of the state of every run. There are fewer candidates than
/// `MAX_HOSTS` and no more devices than candidates. While a stage lasts, part
/// of its work is still to do. The devices are blank until the tables are
/// read, and none has a port before the port scan. When the run is over the
/// devices stand in order, and so do the ports of each; and after a quick run
/// they are still blank.
pub open spec fn wf(s: DiscoveryView) -> bool {
    &&& s.candidates.len() < MAX_HOSTS
    &&& s.devices.len() <= s.candidates.len()
    &&& 0 <= s.cursor
    &&& match s.stage {
        Stage::PingSweep => s.cursor < s.candidates.len() && s.devices.len() <= s.cursor
            && all_blank(s.devices),
        Stage::Tables => s.devices.len() > 0 && s.depth != ScanDepth::Quick && all_blank(
            s.devices,
        ),
        Stage::Hostnames => s.cursor < s.devices.len() && s.depth != ScanDepth::Quick && no_ports(
            s.devices,
        ),
        Stage::PortScan => s.cursor < s.devices.len() * PORT_COUNT && s.depth == ScanDepth::Ports,
        Stage::Done => is_sorted_by_ip(s.devices) && ports_in_order(s.devices) && (s.depth
            == ScanDepth::Quick ==> all_blank(s.devices)),
    }
}

/// A blank device for each address of a batch whose flag is set, in the
/// order of the batch.
pub open spec fn live_devices(ips: Seq<Seq<char>>, flags: Seq<bool>) -> Seq<DeviceView>
    decreases ips.len(),
{
    if ips.len() == 0 {
        Seq::empty()
    } else {
        let before = live_devices(ips.drop_last(), flags);
        if flag_at(flags, ips.len() - 1) {
            before.push(blank_device(ips.last()))
        } else {
            before
        }
    }
}

/// The addresses of a list of devices.
pub open spec fn addresses(devices: Seq<DeviceView>) -> Seq<Seq<char>> {
    devices.map_values(|d: DeviceView| d.ip)
}

/// A device with what the two tables say of it: the MAC address that the ARP
/// table has for its address, and, where it has a MAC address, the vendor that
/// the vendor table has for that.
pub open spec fn with_tables(
    d: DeviceView,
    arp: Map<Seq<char>, Seq<char>>,
    vendors: Map<Seq<char>, Seq<char>>,
) -> DeviceView {
    let mac = if arp.contains_key(d.ip) {
        arp[d.ip]
    } else {
        d.mac_address
    };
    let vendor = if mac.len() > 0 {
        vendor_of(mac, vendors)
    } else {
        d.vendor
    };
    DeviceView { mac_address: mac, vendor, ..d }
}

/// The devices with the names of a batch that runs from `from` to `to`:
/// device `from + i` gets name `i`, where the reply has one.
pub open spec fn with_names(devices: Seq<DeviceView>, from: int, to: int, names: Seq<Seq<char>>) -> Seq<
    DeviceView,
> {
    Seq::new(
        devices.len(),
        |i: int|
            if from <= i < to && i - from < names.len() {
                DeviceView { hostname: names[i - from], ..devices[i] }
            } else {
                devices[i]
            },
    )
}

/// Port check `k` of a run: the checks go device by device, and for each
/// device through the port list.
pub open spec fn target_at(devices: Seq<DeviceView>, k: int) -> TargetView {
    TargetView {
        ip: devices[k / (PORT_COUNT as int)].ip,
        port: port_list()[k % (PORT_COUNT as int)],
    }
}

/// The port checks from `from` to `to`.
pub open spec fn targets(devices: Seq<DeviceView>, from: int, to: int) -> Seq<TargetView> {
    Seq::new((to - from) as nat, |i: int| target_at(devices, from + i))
}

/// `d` with one more open port.
pub open spec fn with_port(d: DeviceView, port: u16) -> DeviceView {
    DeviceView { open_ports: d.open_ports.push(port), ..d }
}

/// The devices after the first `n` checks of a batch that starts at check
/// `from`: each check whose flag is set adds its port to its device.
pub open spec fn with_open(devices: Seq<DeviceView>, from: int, flags: Seq<bool>, n: int) -> Seq<
    DeviceView,
>
    decreases n,
{
    if n <= 0 {
        devices
    } else {
        let before = with_open(devices, from, flags, n - 1);
        let k = from + n - 1;
        let d = k / (PORT_COUNT as int);
        if flag_at(flags, n - 1) && 0 <= d < before.len() {
            before.update(d, with_port(before[d], port_list()[k % (PORT_COUNT as int)]))
        } else {
            before
        }
    }
}

/// `d` with its ports in ascending order, each once.
pub open spec fn with_sorted_ports(d: DeviceView) -> DeviceView {
    DeviceView { open_ports: sorted_ports(d.open_ports), ..d }
}

/// The end of a run: the devices are put in order, the closing event is
/// added to `events`, and the request is `Finished`.
pub open spec fn finish(s: DiscoveryView, events: Seq<ProgressView>) -> (DiscoveryView, StepView) {
    let sorted = sort_by_ip(s.devices);
    (
        DiscoveryView { stage: Stage::Done, cursor: 0, devices: sorted, ..s },
        StepView {
            events: events.push(run_complete(s.devices.len() as int)),
            request: RequestView::Finished(sorted),
        },
    )
}

/// What follows the ping sweep. With no device the run is over at once, with
/// an empty list and no further event; a quick run ends; any other goes on to
/// the tables, which the one event of the ARP lookup announces.
pub open spec fn after_sweep(s: DiscoveryView, events: Seq<ProgressView>) -> (
    DiscoveryView,
    StepView,
) {
    if s.devices.len() == 0 {
        (
            DiscoveryView { stage: Stage::Done, cursor: 0, ..s },
            StepView { events, request: RequestView::Finished(Seq::empty()) },
        )
    } else if s.depth == ScanDepth::Quick {
        finish(s, events)
    } else {
        (
            DiscoveryView { stage: Stage::Tables, cursor: 0, ..s },
            StepView {
                events: events.push(arp_started(s.devices.len() as int)),
                request: RequestView::ReadTables,
            },
        )
    }
}

/// The step on the liveness flags of a batch: every live address becomes a
/// blank device, one event reports how far the sweep is, and the next batch is
/// asked for or, after the last one, the sweep is left.
pub open spec fn after_ping(s: DiscoveryView, flags: Seq<bool>) -> (DiscoveryView, StepView) {
    let total = s.candidates.len() as int;
    let end = batch_end(s.cursor, PING_BATCH as int, total);
    let devices = s.devices + live_devices(s.candidates.subrange(s.cursor, end), flags);
    let event = sweep_progress(end, total, devices.len() as int);
    if end < total {
        (
            DiscoveryView { cursor: end, devices, ..s },
            StepView {
                events: seq![event],
                request: RequestView::Ping(
                    s.candidates.subrange(end, batch_end(end, PING_BATCH as int, total)),
                ),
            },
        )
    } else {
        after_sweep(DiscoveryView { devices, ..s }, seq![event])
    }
}

/// The step on the two tables: every device gets its MAC address and vendor,
/// the opening event of the hostname resolution is given, and the first
/// batch of names is asked for.
pub open spec fn after_tables(
    s: DiscoveryView,
    arp: Map<Seq<char>, Seq<char>>,
    vendors: Map<Seq<char>, Seq<char>>,
) -> (DiscoveryView, StepView) {
    let devices = s.devices.map_values(|d: DeviceView| with_tables(d, arp, vendors));
    let found = devices.len() as int;
    (
        DiscoveryView { stage: Stage::Hostnames, cursor: 0, devices, ..s },
        StepView {
            events: seq![resolving_started(found)],
            request: RequestView::Resolve(
                addresses(devices).subrange(0, batch_end(0, HOSTNAME_BATCH as int, found)),
            ),
        },
    )
}

/// The step on the names of a batch: the devices of the batch get their
/// names, one event reports how far the resolution is, and the next batch is
/// asked for or, after the last one, the port scan is opened or the run ends.
pub open spec fn after_names(s: DiscoveryView, names: Seq<Seq<char>>) -> (DiscoveryView, StepView) {
    let found = s.devices.len() as int;
    let end = batch_end(s.cursor, HOSTNAME_BATCH as int, found);
    let devices = with_names(s.devices, s.cursor, end, names);
    let event = resolving_progress(end, found);
    if end < found {
        (
            DiscoveryView { cursor: end, devices, ..s },
            StepView {
                events: seq![event],
                request: RequestView::Resolve(
                    addresses(devices).subrange(end, batch_end(end, HOSTNAME_BATCH as int, found)),
                ),
            },
        )
    } else if s.depth == ScanDepth::Ports {
        let total = found * PORT_COUNT;
        (
            DiscoveryView { stage: Stage::PortScan, cursor: 0, devices, ..s },
            StepView {
                events: seq![event, ports_started(total, found)],
                request: RequestView::CheckPorts(
                    targets(devices, 0, batch_end(0, PORT_BATCH as int, total)),
                ),
            },
        )
    } else {
        finish(DiscoveryView { devices, ..s }, seq![event])
    }
}

/// The step on the flags of a batch of port checks: every open port is added
/// to its device, one event reports how far the scan is, counted in checks,
/// and the next batch is asked for or, after the last one, the ports of each
/// device are put in order and the run ends.
pub open spec fn after_ports(s: DiscoveryView, flags: Seq<bool>) -> (DiscoveryView, StepView) {
    let found = s.devices.len() as int;
    let total = found * PORT_COUNT;
    let end = batch_end(s.cursor, PORT_BATCH as int, total);
    let devices = with_open(s.devices, s.cursor, flags, end - s.cursor);
    let event = ports_progress(end, total, found);
    if end < total {
        (
            DiscoveryView { cursor: end, devices, ..s },
            StepView {
                events: seq![event],
                request: RequestView::CheckPorts(
                    targets(devices, end, batch_end(end, PORT_BATCH as int, total)),
                ),
            },
        )
    } else {
        finish(
            DiscoveryView {
                devices: devices.map_values(|d: DeviceView| with_sorted_ports(d)),
                ..s
            },
            seq![event],
        )
    }
}

/// The liveness flags that a reply holds; none where it is of another kind.
pub open spec fn alive_flags(reply: ReplyView) -> Seq<bool> {
    match reply {
        ReplyView::Alive(flags) => flags,
        _ => Seq::empty(),
    }
}

/// The names that a reply holds; none where it is of another kind.
pub open spec fn reply_names(reply: ReplyView) -> Seq<Seq<char>> {
    match reply {
        ReplyView::Names(names) => names,
        _ => Seq::empty(),
    }
}

/// The port flags that a reply holds; none where it is of another kind.
pub open spec fn open_flags(reply: ReplyView) -> Seq<bool> {
    match reply {
        ReplyView::Open(flags) => flags,
        _ => Seq::empty(),
    }
}

/// One step of a run: from the state and the reply to the last request, to
/// the next state and what to do next. A run that is over stays over and
/// gives its devices again.
pub open spec fn step(s: DiscoveryView, reply: ReplyView) -> (DiscoveryView, StepView) {
    match s.stage {
        Stage::PingSweep => after_ping(s, alive_flags(reply)),
        Stage::Tables => match reply {
            ReplyView::Tables(arp, vendors) => after_tables(s, arp, vendors),
            _ => after_tables(s, Map::empty(), Map::empty()),
        },
        Stage::Hostnames => after_names(s, reply_names(reply)),
        Stage::PortScan => after_ports(s, open_flags(reply)),
        Stage::Done => (
            s,
            StepView { events: Seq::empty(), request: RequestView::Finished(s.devices) },
        ),
    }
}

/// The start of a run over the subnet of `ip` under `mask`: the opening
/// event of the ping sweep and the first batch to ping. A subnet that gives no
/// address to scan starts no run.
pub open spec fn started(ip: Seq<char>, mask: Seq<char>, depth: ScanDepth) -> Option<
    (DiscoveryView, StepView),
> {
    let candidates = scan_ips(ip, mask);
    let total = candidates.len() as int;
    if total == 0 {
        None
    } else {
        Some(
            (
                DiscoveryView {
                    depth,
                    stage: Stage::PingSweep,
                    candidates,
                    cursor: 0,
                    devices: Seq::empty(),
                },
                StepView {
                    events: seq![sweep_started(total)],
                    request: RequestView::Ping(
                        candidates.subrange(0, batch_end(0, PING_BATCH as int, total)),
                    ),
                },
            ),
        )
    }
}

/// A batch holds no more live devices than addresses, and each of them is
/// blank.
pub proof fn lemma_live_devices(ips: Seq<Seq<char>>, flags: Seq<bool>)
    ensures
        live_devices(ips, flags).len() <= ips.len(),
        all_blank(live_devices(ips, flags)),
        no_ports(live_devices(ips, flags)),
    decreases ips.len(),
{
    if ips.len() > 0 {
        lemma_live_devices(ips.drop_last(), flags);
    }
}

/// Every device of the list put in order is a device of the list.
pub proof fn lemma_sorted_member(devices: Seq<DeviceView>, i: int)
    requires
        0 <= i < sort_by_ip(devices).len(),
    ensures
        devices.contains(sort_by_ip(devices)[i]),
{
    broadcast use vstd::seq_lib::group_to_multiset_ensures;

    lemma_sort_by_ip(devices);
    let sorted = sort_by_ip(devices);
    assert(sorted.contains(sorted[i]));
    assert(devices.to_multiset().count(sorted[i]) > 0);
}

/// Putting blank devices in order leaves them blank.
pub proof fn lemma_sort_keeps_blank(devices: Seq<DeviceView>)
    requires
        all_blank(devices),
    ensures
        all_blank(sort_by_ip(devices)),
{
    let sorted = sort_by_ip(devices);
    assert forall|i: int| 0 <= i < sorted.len() implies #[trigger] sorted[i] == blank_device(
        sorted[i].ip,
    ) by {
        lemma_sorted_member(devices, i);
        let k = choose|k: int| 0 <= k < devices.len() && devices[k] == sorted[i];
        assert(devices[k] == blank_device(devices[k].ip));
    }
}

/// Marking open ports leaves the number of devices as it is.
pub proof fn lemma_with_open_len(devices: Seq<DeviceView>, from: int, flags: Seq<bool>, n: int)
    ensures
        with_open(devices, from, flags, n).len() == devices.len(),
    decreases n,
{
    if n > 0 {
        lemma_with_open_len(devices, from, flags, n - 1);
    }
}

/// Putting devices in order keeps the order of the ports of each.
pub proof fn lemma_sort_keeps_ports(devices: Seq<DeviceView>)
    requires
        ports_in_order(devices),
    ensures
        ports_in_order(sort_by_ip(devices)),
{
    let sorted = sort_by_ip(devices);
    assert forall|i: int| 0 <= i < sorted.len() implies is_ascending(
        #[trigger] sorted[i].open_ports,
    ) by {
        lemma_sorted_member(devices, i);
        let k = choose|k: int| 0 <= k < devices.len() && devices[k] == sorted[i];
        assert(is_ascending(devices[k].open_ports));
    }
}

/// The end of a run leaves a state of which `wf` holds.
pub proof fn lemma_finish_wf(s: DiscoveryView, events: Seq<ProgressView>)
    requires
        s.candidates.len() < MAX_HOSTS,
        s.devices.len() <= s.candidates.len(),
        ports_in_order(s.devices),
        s.depth == ScanDepth::Quick ==> all_blank(s.devices),
    ensures
        wf(finish(s, events).0),
{
    lemma_sort_by_ip(s.devices);
    lemma_sort_keeps_ports(s.devices);
    if s.depth == ScanDepth::Quick {
        lemma_sort_keeps_blank(s.devices);
    }
}

/// Every step leaves a state of which `wf` holds, whatever the reply.
pub proof fn lemma_step_keeps_wf(s: DiscoveryView, reply: ReplyView)
    requires
        wf(s),
    ensures
        wf(step(s, reply).0),
{
    match s.stage {
        Stage::PingSweep => {
            let flags = alive_flags(reply);
            let total = s.candidates.len() as int;
            let end = batch_end(s.cursor, PING_BATCH as int, total);
            let batch = s.candidates.subrange(s.cursor, end);
            lemma_live_devices(batch, flags);
            let devices = s.devices + live_devices(batch, flags);
            assert(all_blank(devices));
            if end >= total {
                let t = DiscoveryView { devices, ..s };
                if devices.len() > 0 && s.depth == ScanDepth::Quick {
                    lemma_finish_wf(t, seq![sweep_progress(end, total, devices.len() as int)]);
                }
            }
        },
        Stage::Tables => {},
        Stage::Hostnames => {
            let names = reply_names(reply);
            let found = s.devices.len() as int;
            let end = batch_end(s.cursor, HOSTNAME_BATCH as int, found);
            let devices = with_names(s.devices, s.cursor, end, names);
            assert(no_ports(devices));
            if end >= found && s.depth != ScanDepth::Ports {
                lemma_finish_wf(
                    DiscoveryView { devices, ..s },
                    seq![resolving_progress(end, found)],
                );
            }
        },
        Stage::PortScan => {
            let flags = open_flags(reply);
            let found = s.devices.len() as int;
            let total = found * PORT_COUNT;
            let end = batch_end(s.cursor, PORT_BATCH as int, total);
            lemma_with_open_len(s.devices, s.cursor, flags, end - s.cursor);
            let devices = with_open(s.devices, s.cursor, flags, end - s.cursor);
            if end >= total {
                let sorted = devices.map_values(|d: DeviceView| with_sorted_ports(d));
                assert forall|i: int| 0 <= i < sorted.len() implies is_ascending(
                    #[trigger] sorted[i].open_ports,
                ) by {
                    lemma_sorted_ports(devices[i].open_ports);
                }
                lemma_finish_wf(
                    DiscoveryView { devices: sorted, ..s },
                    seq![ports_progress(end, total, found)],
                );
            }
        },
        Stage::Done => {},
    }
}

/// An upper bound of the steps that a run still takes.
pub open spec fn steps_left(s: DiscoveryView) -> int {
    let all = s.candidates.len() as int;
    let found = s.devices.len() as int;
    match s.stage {
        Stage::PingSweep => (all - s.cursor) + 2 + all + all * PORT_COUNT,
        Stage::Tables => 2 + found + found * PORT_COUNT,
        Stage::Hostnames => (found - s.cursor) + 1 + found * PORT_COUNT,
        Stage::PortScan => (found * PORT_COUNT - s.cursor) + 1,
        Stage::Done => 0,
    }
}

/// Every run ends: each step of a run that is not over brings it closer to
/// its end, whatever the reply.
pub proof fn lemma_step_ends(s: DiscoveryView, reply: ReplyView)
    requires
        wf(s),
        s.stage != Stage::Done,
    ensures
        0 <= steps_left(step(s, reply).0) < steps_left(s),
{
    lemma_step_keeps_wf(s, reply);
    match s.stage {
        Stage::PingSweep => {
            let flags = alive_flags(reply);
            let total = s.candidates.len() as int;
            let end = batch_end(s.cursor, PING_BATCH as int, total);
            lemma_live_devices(s.candidates.subrange(s.cursor, end), flags);
            lemma_sort_by_ip(s.devices + live_devices(s.candidates.subrange(s.cursor, end), flags));
        },
        Stage::Tables => {},
        Stage::Hostnames => {
            let found = s.devices.len() as int;
            let end = batch_end(s.cursor, HOSTNAME_BATCH as int, found);
            lemma_sort_by_ip(with_names(s.devices, s.cursor, end, reply_names(reply)));
        },
        Stage::PortScan => {
            let flags = open_flags(reply);
            let found = s.devices.len() as int;
            let total = found * PORT_COUNT;
            let end = batch_end(s.cursor, PORT_BATCH as int, total);
            lemma_with_open_len(s.devices, s.cursor, flags, end - s.cursor);
        },
        Stage::Done => {},
    }
}

/// Where an event stands in the course of a run: the place of its phase, and
/// within the phase how far it says the work is.
pub open spec fn position(e: ProgressView) -> (int, int) {
    (phase_rank(e.phase), e.current)
}

/// Whether position `a` lies before position `b`: in an earlier phase, or in
/// the same phase with less work done.
pub open spec fn before(a: (int, int), b: (int, int)) -> bool {
    a.0 < b.0 || (a.0 == b.0 && a.1 < b.1)
}

/// The position of the event that was given last before a run came into
/// state `s`. It has no meaning for a run that is over.
pub open spec fn last_position(s: DiscoveryView) -> (int, int) {
    match s.stage {
        Stage::PingSweep => (phase_rank(Phase::PingSweep), s.cursor),
        Stage::Tables => (phase_rank(Phase::ArpLookup), 0),
        Stage::Hostnames => (phase_rank(Phase::HostnameResolution), s.cursor),
        Stage::PortScan => (phase_rank(Phase::PortScan), s.cursor),
        Stage::Done => (phase_rank(Phase::Complete), 0),
    }
}

/// The events of a run come in order. Every step of a run that is not over
/// gives at least one event; each event of a step lies after the one before
/// it, and the first after the last event of the step before, so that the
/// phases follow each other in their fixed order and within a phase `current`
/// grows from event to event. No event counts more work done than there is.
pub proof fn lemma_events_in_order(s: DiscoveryView, reply: ReplyView)
    requires
        wf(s),
        s.stage != Stage::Done,
    ensures
        step(s, reply).1.events.len() > 0,
        before(last_position(s), position(step(s, reply).1.events[0])),
        forall|i: int|
            0 <= i < step(s, reply).1.events.len() - 1 ==> before(
                position(#[trigger] step(s, reply).1.events[i]),
                position(step(s, reply).1.events[i + 1]),
            ),
        forall|i: int|
            0 <= i < step(s, reply).1.events.len() ==> 0 <= (#[trigger] step(
                s,
                reply,
            ).1.events[i]).current <= step(s, reply).1.events[i].total,
        step(s, reply).0.stage != Stage::Done ==> last_position(step(s, reply).0) == position(
            step(s, reply).1.events.last(),
        ),
{
    match s.stage {
        Stage::PingSweep => {
            let flags = alive_flags(reply);
            let total = s.candidates.len() as int;
            let end = batch_end(s.cursor, PING_BATCH as int, total);
            lemma_live_devices(s.candidates.subrange(s.cursor, end), flags);
        },
        Stage::Tables => {},
        Stage::Hostnames => {},
        Stage::PortScan => {
            let flags = open_flags(reply);
            let found = s.devices.len() as int;
            let total = found * PORT_COUNT;
            let end = batch_end(s.cursor, PORT_BATCH as int, total);
            lemma_with_open_len(s.devices, s.cursor, flags, end - s.cursor);
        },
        Stage::Done => {},
    }
}

/// The first event of a run is where the ping sweep begins.
pub proof fn lemma_first_event(ip: Seq<char>, mask: Seq<char>, depth: ScanDepth)
    requires
        started(ip, mask, depth).is_some(),
    ensures
        wf(started(ip, mask, depth).unwrap().0),
        started(ip, mask, depth).unwrap().1.events.len() == 1,
        position(started(ip, mask, depth).unwrap().1.events[0]) == last_position(
            started(ip, mask, depth).unwrap().0,
        ),
        position(started(ip, mask, depth).unwrap().1.events[0]) == (0int, 0int),
{
    crate::address::lemma_scan_ips_len(ip, mask);
}

/// What a run hands over at its end. A step gives the request `Finished` just
/// when it leaves the run over. The devices handed over are those of the
/// state; they stand in ascending order of their addresses, and the ports of
/// each ascend strictly, so that none occurs twice.
pub proof fn lemma_finished(s: DiscoveryView, reply: ReplyView)
    requires
        wf(s),
    ensures
        (step(s, reply).1.request is Finished) == (step(s, reply).0.stage == Stage::Done),
        step(s, reply).1.request matches RequestView::Finished(devices) ==> devices == step(
            s,
            reply,
        ).0.devices && is_sorted_by_ip(devices) && ports_in_order(devices),
{
    lemma_step_keeps_wf(s, reply);
}

/// A quick run only pings. Each of its steps asks for the next batch of the
/// sweep or ends the run, and gives no event but of the sweep and the closing
/// one. The devices it hands over at the end are blank, and where there is
/// one at least, the closing event counts them.
pub proof fn lemma_quick_run(s: DiscoveryView, reply: ReplyView)
    requires
        wf(s),
        s.depth == ScanDepth::Quick,
        s.stage != Stage::Done,
    ensures
        s.stage == Stage::PingSweep,
        step(s, reply).0.stage == Stage::PingSweep || step(s, reply).0.stage == Stage::Done,
        step(s, reply).1.request is Ping || step(s, reply).1.request is Finished,
        forall|i: int|
            0 <= i < step(s, reply).1.events.len() ==> (#[trigger] step(s, reply).1.events[i]).phase
                == Phase::PingSweep || step(s, reply).1.events[i].phase == Phase::Complete,
        step(s, reply).1.request matches RequestView::Finished(devices) ==> all_blank(devices) && (
        devices.len() > 0 ==> step(s, reply).1.events.last() == run_complete(devices.len() as int)),
{
    lemma_step_keeps_wf(s, reply);
    let flags = alive_flags(reply);
    let total = s.candidates.len() as int;
    let end = batch_end(s.cursor, PING_BATCH as int, total);
    lemma_live_devices(s.candidates.subrange(s.cursor, end), flags);
    lemma_sort_by_ip(s.devices + live_devices(s.candidates.subrange(s.cursor, end), flags));
}

/// A subnet on which nothing answers. When the last batch of the sweep
/// brings no answer and none came before, the run is over at once, whatever
/// its depth: it hands over an empty list, and the one event of the step is
/// the last of the sweep, so that no later phase is entered or reported.
pub proof fn lemma_quiet_subnet(s: DiscoveryView, reply: ReplyView)
    requires
        wf(s),
        s.stage == Stage::PingSweep,
        s.devices.len() == 0,
        s.cursor + PING_BATCH >= s.candidates.len(),
        forall|i: int| !flag_at(alive_flags(reply), i),
    ensures
        step(s, reply).0 == (DiscoveryView { stage: Stage::Done, cursor: 0, ..s }),
        step(s, reply).1 == (StepView {
            events: seq![
                sweep_progress(s.candidates.len() as int, s.candidates.len() as int, 0),
            ],
            request: RequestView::Finished(Seq::empty()),
        }),
{
    let flags = alive_flags(reply);
    let total = s.candidates.len() as int;
    let end = batch_end(s.cursor, PING_BATCH as int, total);
    lemma_live_devices_extremes(s.candidates.subrange(s.cursor, end), flags);
    let devices = s.devices + live_devices(s.candidates.subrange(s.cursor, end), flags);
    assert(devices =~= s.devices);
    assert(step(s, reply).0 =~= (DiscoveryView { stage: Stage::Done, cursor: 0, ..s }));
}

/// The device list of a run holds only addresses that were candidates, each
/// at most as often as the ping sweep found it alive: a blank device is made
/// of an address of the batch whose flag is set, and of nothing else.
pub proof fn lemma_live_devices_are_flagged(ips: Seq<Seq<char>>, flags: Seq<bool>, k: int)
    requires
        0 <= k < live_devices(ips, flags).len(),
    ensures
        exists|i: int|
            0 <= i < ips.len() && flag_at(flags, i) && live_devices(ips, flags)[k] == blank_device(
                #[trigger] ips[i],
            ),
    decreases ips.len(),
{
    let front = ips.drop_last();
    if k < live_devices(front, flags).len() {
        lemma_live_devices_are_flagged(front, flags, k);
        let i = choose|i: int|
            0 <= i < front.len() && flag_at(flags, i) && live_devices(front, flags)[k]
                == blank_device(#[trigger] front[i]);
        assert(front[i] == ips[i]);
    } else {
        assert(live_devices(ips, flags)[k] == blank_device(ips[ips.len() - 1]));
    }
}

/// A batch without an answer gives no device, and one in which every address
/// answers gives a device for each, in the order of the batch.
pub proof fn lemma_live_devices_extremes(ips: Seq<Seq<char>>, flags: Seq<bool>)
    ensures
        (forall|i: int| 0 <= i < ips.len() ==> !flag_at(flags, i)) ==> live_devices(ips, flags).len()
            == 0,
        (forall|i: int| 0 <= i < ips.len() ==> flag_at(flags, i)) ==> live_devices(ips, flags)
            == ips.map_values(|ip: Seq<char>| blank_device(ip)),
    decreases ips.len(),
{
    if ips.len() > 0 {
        let front = ips.drop_last();
        lemma_live_devices_extremes(front, flags);
        if forall|i: int| 0 <= i < ips.len() ==> flag_at(flags, i) {
            assert forall|i: int| 0 <= i < front.len() implies flag_at(flags, i) by {
                assert(flag_at(flags, i));
            }
            assert(flag_at(flags, ips.len() - 1));
            assert(live_devices(ips, flags) =~= ips.map_values(|ip: Seq<char>| blank_device(ip)));
        }
        if forall|i: int| 0 <= i < ips.len() ==> !flag_at(flags, i) {
            assert(!flag_at(flags, ips.len() - 1));
        }
    } else {
        assert(live_devices(ips, flags) =~= ips.map_values(|ip: Seq<char>| blank_device(ip)));
    }
}

} // verus!

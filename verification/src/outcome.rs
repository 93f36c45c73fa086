//! What a discovery run comes to.
//!
//! A run is driven by replies, batch after batch. This module says what the
//! device list at the end is when every reply tells the truth about one and
//! the same network: the list depends on the candidates, the depth and the
//! network alone, whatever the sizes of the batches and the order in which the
//! probes of a batch came back.
use vstd::prelude::*;
use crate::address::{host_count, lemma_scan_ips, parse_ipv4, scan_ips, sort_key, MAX_HOSTS};
use crate::device::{
    blank_device, device_key, is_sorted_by_ip, lemma_sort_by_ip_of_sorted, sort_by_ip,
    sorted_ports, DeviceView,
};
use crate::discovery::{
    addresses, alive_flags, batch_end, flag_at, live_devices, open_flags, port_list, reply_names,
    started, step, target_at, targets, wf, with_names, with_open, with_sorted_ports, with_tables,
    DiscoveryView, ReplyView, RequestView, ScanDepth, Stage, TargetView, HOSTNAME_BATCH,
    PING_BATCH, PORT_BATCH, PORT_COUNT,
};

verus! {

/// A network as the probes see it: which addresses answer a ping, what the
/// ARP table and the vendor table hold, which name an address resolves to,
/// and which ports of an address are open.
pub struct Network {
    pub alive: spec_fn(Seq<char>) -> bool,
    pub arp: Map<Seq<char>, Seq<char>>,
    pub vendors: Map<Seq<char>, Seq<char>>,
    pub name: spec_fn(Seq<char>) -> Seq<char>,
    pub open: spec_fn(Seq<char>, u16) -> bool,
}

/// The reply that tells the truth about `net`.
pub open spec fn answer(request: RequestView, net: Network) -> ReplyView {
    match request {
        RequestView::Ping(ips) => ReplyView::Alive(ips.map_values(|ip: Seq<char>| (net.alive)(ip))),
        RequestView::ReadTables => ReplyView::Tables(net.arp, net.vendors),
        RequestView::Resolve(ips) => ReplyView::Names(
            ips.map_values(|ip: Seq<char>| (net.name)(ip)),
        ),
        RequestView::CheckPorts(list) => ReplyView::Open(
            list.map_values(|t: TargetView| (net.open)(t.ip, t.port)),
        ),
        RequestView::Finished(devices) => ReplyView::Alive(Seq::empty()),
    }
}

/// The request that a run in state `s` is waiting to have answered.
pub open spec fn pending(s: DiscoveryView) -> RequestView {
    match s.stage {
        Stage::PingSweep => RequestView::Ping(
            s.candidates.subrange(
                s.cursor,
                batch_end(s.cursor, PING_BATCH as int, s.candidates.len() as int),
            ),
        ),
        Stage::Tables => RequestView::ReadTables,
        Stage::Hostnames => RequestView::Resolve(
            addresses(s.devices).subrange(
                s.cursor,
                batch_end(s.cursor, HOSTNAME_BATCH as int, s.devices.len() as int),
            ),
        ),
        Stage::PortScan => RequestView::CheckPorts(
            targets(
                s.devices,
                s.cursor,
                batch_end(s.cursor, PORT_BATCH as int, s.devices.len() * PORT_COUNT),
            ),
        ),
        Stage::Done => RequestView::Finished(s.devices),
    }
}

/// A blank device for each of `ips` that is alive in `net`, in their order.
pub open spec fn alive_among(ips: Seq<Seq<char>>, net: Network) -> Seq<DeviceView>
    decreases ips.len(),
{
    if ips.len() == 0 {
        Seq::empty()
    } else {
        let before = alive_among(ips.drop_last(), net);
        if (net.alive)(ips.last()) {
            before.push(blank_device(ips.last()))
        } else {
            before
        }
    }
}

/// `d` with the host name that `net` has for its address.
pub open spec fn named(d: DeviceView, net: Network) -> DeviceView {
    DeviceView { hostname: (net.name)(d.ip), ..d }
}

/// The ports among the first `n` of the port list that are open at `ip`, in
/// the order of the list.
pub open spec fn opened(ip: Seq<char>, net: Network, n: int) -> Seq<u16>
    decreases n,
{
    if n <= 0 {
        Seq::empty()
    } else if (net.open)(ip, port_list()[n - 1]) {
        opened(ip, net, n - 1).push(port_list()[n - 1])
    } else {
        opened(ip, net, n - 1)
    }
}

/// All that a run of the given depth learns of the host at `ip`. A quick run
/// learns that it is there. A basic run learns its MAC address, vendor and
/// host name as well, and a run with ports also which ports of the port list
/// are open, in ascending order.
pub open spec fn found(ip: Seq<char>, depth: ScanDepth, net: Network) -> DeviceView {
    let known = named(with_tables(blank_device(ip), net.arp, net.vendors), net);
    match depth {
        ScanDepth::Quick => blank_device(ip),
        ScanDepth::Basic => known,
        ScanDepth::Ports => DeviceView {
            open_ports: sorted_ports(opened(ip, net, PORT_COUNT as int)),
            ..known
        },
    }
}

/// The devices that a run over `candidates` finds in `net`: one for each
/// candidate that is alive, in the order of the candidates, holding what a run
/// of that depth learns of it.
pub open spec fn found_devices(candidates: Seq<Seq<char>>, depth: ScanDepth, net: Network) -> Seq<
    DeviceView,
>
    decreases candidates.len(),
{
    if candidates.len() == 0 {
        Seq::empty()
    } else {
        let before = found_devices(candidates.drop_last(), depth, net);
        if (net.alive)(candidates.last()) {
            before.push(found(candidates.last(), depth, net))
        } else {
            before
        }
    }
}

/// What a run comes to: the devices it finds, in ascending order of their
/// addresses.
pub open spec fn outcome(candidates: Seq<Seq<char>>, depth: ScanDepth, net: Network) -> Seq<
    DeviceView,
> {
    sort_by_ip(found_devices(candidates, depth, net))
}

/// The devices of a run once the tables are read and every name is resolved.
pub open spec fn known_devices(candidates: Seq<Seq<char>>, net: Network) -> Seq<DeviceView> {
    alive_among(candidates, net).map_values(
        |d: DeviceView| named(with_tables(d, net.arp, net.vendors), net),
    )
}

/// The truthful flags of all the port checks of a run, in their order.
pub open spec fn all_open_flags(devices: Seq<DeviceView>, net: Network) -> Seq<bool> {
    Seq::new(
        (devices.len() * PORT_COUNT) as nat,
        |k: int| (net.open)(target_at(devices, k).ip, target_at(devices, k).port),
    )
}

/// Whether the state of a run agrees with a network: its devices are what
/// truthful replies about that network make of the work done so far.
pub open spec fn agrees(s: DiscoveryView, net: Network) -> bool {
    let base = alive_among(s.candidates, net);
    let known = known_devices(s.candidates, net);
    match s.stage {
        Stage::PingSweep => s.devices == alive_among(s.candidates.take(s.cursor), net),
        Stage::Tables => s.devices == base,
        Stage::Hostnames => s.devices.len() == base.len() && forall|i: int|
            0 <= i < base.len() ==> #[trigger] s.devices[i] == if i < s.cursor {
                known[i]
            } else {
                with_tables(base[i], net.arp, net.vendors)
            },
        Stage::PortScan => s.devices == with_open(known, 0, all_open_flags(known, net), s.cursor),
        Stage::Done => s.devices == outcome(s.candidates, s.depth, net),
    }
}

/// The devices of a batch whose flags tell the truth are those that are
/// alive.
pub proof fn lemma_live_is_alive(ips: Seq<Seq<char>>, flags: Seq<bool>, net: Network)
    requires
        flags.len() >= ips.len(),
        forall|i: int| 0 <= i < ips.len() ==> flags[i] == (net.alive)(#[trigger] ips[i]),
    ensures
        live_devices(ips, flags) == alive_among(ips, net),
    decreases ips.len(),
{
    if ips.len() > 0 {
        let front = ips.drop_last();
        assert forall|i: int| 0 <= i < front.len() implies flags[i] == (net.alive)(
            #[trigger] front[i],
        ) by {
            assert(front[i] == ips[i]);
        }
        lemma_live_is_alive(front, flags, net);
        assert(flags[ips.len() - 1] == (net.alive)(ips[ips.len() - 1]));
    }
}

/// Those alive among two lists in a row are those alive among the first,
/// then those alive among the second.
pub proof fn lemma_alive_among_add(a: Seq<Seq<char>>, b: Seq<Seq<char>>, net: Network)
    ensures
        alive_among(a + b, net) == alive_among(a, net) + alive_among(b, net),
    decreases b.len(),
{
    if b.len() == 0 {
        assert(a + b == a);
        assert(alive_among(a, net) + alive_among(b, net) == alive_among(a, net));
    } else {
        lemma_alive_among_add(a, b.drop_last(), net);
        assert((a + b).drop_last() == a + b.drop_last());
        assert((a + b).last() == b.last());
        let front = alive_among(a, net) + alive_among(b.drop_last(), net);
        if (net.alive)(b.last()) {
            assert(front.push(blank_device(b.last())) == alive_among(a, net) + alive_among(
                b.drop_last(),
                net,
            ).push(blank_device(b.last())));
        }
    }
}

/// Those alive are blank devices, no more of them than addresses, and each
/// address of theirs is alive.
pub proof fn lemma_alive_among(ips: Seq<Seq<char>>, net: Network)
    ensures
        alive_among(ips, net).len() <= ips.len(),
        forall|i: int|
            0 <= i < alive_among(ips, net).len() ==> #[trigger] alive_among(ips, net)[i]
                == blank_device(alive_among(ips, net)[i].ip) && (net.alive)(
                alive_among(ips, net)[i].ip,
            ),
    decreases ips.len(),
{
    if ips.len() > 0 {
        lemma_alive_among(ips.drop_last(), net);
    }
}

/// The devices that a run finds are those alive, each with what the run
/// learns of it.
pub proof fn lemma_found_devices(candidates: Seq<Seq<char>>, depth: ScanDepth, net: Network)
    ensures
        found_devices(candidates, depth, net).len() == alive_among(candidates, net).len(),
        forall|i: int|
            0 <= i < alive_among(candidates, net).len() ==> #[trigger] found_devices(
                candidates,
                depth,
                net,
            )[i] == found(alive_among(candidates, net)[i].ip, depth, net),
    decreases candidates.len(),
{
    if candidates.len() > 0 {
        lemma_found_devices(candidates.drop_last(), depth, net);
    }
}

/// Marking ports leaves everything but the ports of a device as it is.
pub proof fn lemma_with_open_keeps(devices: Seq<DeviceView>, from: int, flags: Seq<bool>, n: int)
    ensures
        with_open(devices, from, flags, n).len() == devices.len(),
        forall|i: int|
            0 <= i < devices.len() ==> (#[trigger] with_open(devices, from, flags, n)[i]).ip
                == devices[i].ip && with_open(devices, from, flags, n)[i] == (DeviceView {
                open_ports: with_open(devices, from, flags, n)[i].open_ports,
                ..devices[i]
            }),
    decreases n,
{
    if n > 0 {
        lemma_with_open_keeps(devices, from, flags, n - 1);
    }
}

/// Marking the ports of a batch after those of the batches before it comes
/// to the same as marking them all in one go.
pub proof fn lemma_with_open_add(
    devices: Seq<DeviceView>,
    all: Seq<bool>,
    done: int,
    flags: Seq<bool>,
    n: int,
)
    requires
        0 <= done,
        0 <= n,
        forall|j: int| 0 <= j < n ==> flag_at(flags, j) == flag_at(all, done + j),
    ensures
        with_open(with_open(devices, 0, all, done), done, flags, n) == with_open(
            devices,
            0,
            all,
            done + n,
        ),
    decreases n,
{
    if n > 0 {
        lemma_with_open_add(devices, all, done, flags, n - 1);
        assert(flag_at(flags, n - 1) == flag_at(all, done + (n - 1)));
    }
}

/// After `done` port checks that told the truth, each device has the open
/// ports among those of its checks that are done: all eight for a device whose
/// turn is over, none for one whose turn has not come.
pub proof fn lemma_with_open_truthful(devices: Seq<DeviceView>, net: Network, done: int, i: int)
    requires
        0 <= done <= devices.len() * PORT_COUNT,
        0 <= i < devices.len(),
        devices[i].open_ports.len() == 0,
    ensures
        with_open(devices, 0, all_open_flags(devices, net), done)[i] == (DeviceView {
            open_ports: opened(
                devices[i].ip,
                net,
                if done - i * PORT_COUNT <= 0 {
                    0
                } else if done - i * PORT_COUNT >= PORT_COUNT {
                    PORT_COUNT as int
                } else {
                    done - i * PORT_COUNT
                },
            ),
            ..devices[i]
        }),
    decreases done,
{
    let all = all_open_flags(devices, net);
    lemma_with_open_keeps(devices, 0, all, done);
    if done == 0 {
        assert(devices[i].open_ports =~= Seq::<u16>::empty());
    } else {
        lemma_with_open_truthful(devices, net, done - 1, i);
        lemma_with_open_keeps(devices, 0, all, done - 1);
        let k = done - 1;
        let d = k / (PORT_COUNT as int);
        assert(0 <= d < devices.len());
        assert(flag_at(all, k) == (net.open)(devices[d].ip, port_list()[k % (PORT_COUNT as int)]));
        if d == i {
            assert(k - i * PORT_COUNT == k % (PORT_COUNT as int));
        }
    }
}

/// The request that a step gives is the one that the run is then waiting
/// for.
pub proof fn lemma_request_is_pending(s: DiscoveryView, reply: ReplyView)
    requires
        wf(s),
    ensures
        step(s, reply).1.request == pending(step(s, reply).0),
{
    match s.stage {
        Stage::PingSweep => {},
        Stage::Tables => {},
        Stage::Hostnames => {},
        Stage::PortScan => {
            let flags = open_flags(reply);
            let total = s.devices.len() * PORT_COUNT;
            let end = batch_end(s.cursor, PORT_BATCH as int, total);
            lemma_with_open_keeps(s.devices, s.cursor, flags, end - s.cursor);
            crate::device::lemma_sort_by_ip(
                with_open(s.devices, s.cursor, flags, end - s.cursor).map_values(
                    |d: DeviceView| with_sorted_ports(d),
                ),
            );
        },
        Stage::Done => {},
    }
}

/// What a quick run finds is the blank devices of those alive.
pub proof fn lemma_found_quick(candidates: Seq<Seq<char>>, net: Network)
    ensures
        found_devices(candidates, ScanDepth::Quick, net) == alive_among(candidates, net),
{
    lemma_found_devices(candidates, ScanDepth::Quick, net);
    lemma_alive_among(candidates, net);
    assert(found_devices(candidates, ScanDepth::Quick, net) =~= alive_among(candidates, net));
}

/// What a basic run finds is the devices with tables read and names
/// resolved.
pub proof fn lemma_found_basic(candidates: Seq<Seq<char>>, net: Network)
    ensures
        found_devices(candidates, ScanDepth::Basic, net) == known_devices(candidates, net),
{
    lemma_found_devices(candidates, ScanDepth::Basic, net);
    lemma_alive_among(candidates, net);
    assert(found_devices(candidates, ScanDepth::Basic, net) =~= known_devices(candidates, net));
}

/// What a run with ports finds is the devices after all their port checks,
/// the ports of each put in order.
pub proof fn lemma_found_ports(candidates: Seq<Seq<char>>, net: Network)
    ensures
        found_devices(candidates, ScanDepth::Ports, net) == with_open(
            known_devices(candidates, net),
            0,
            all_open_flags(known_devices(candidates, net), net),
            known_devices(candidates, net).len() * PORT_COUNT,
        ).map_values(|d: DeviceView| with_sorted_ports(d)),
{
    let known = known_devices(candidates, net);
    let total = known.len() * PORT_COUNT;
    let scanned = with_open(known, 0, all_open_flags(known, net), total);
    lemma_found_devices(candidates, ScanDepth::Ports, net);
    lemma_alive_among(candidates, net);
    lemma_with_open_keeps(known, 0, all_open_flags(known, net), total);
    let sorted = scanned.map_values(|d: DeviceView| with_sorted_ports(d));
    assert forall|i: int| 0 <= i < known.len() implies found_devices(
        candidates,
        ScanDepth::Ports,
        net,
    )[i] == sorted[i] by {
        lemma_with_open_truthful(known, net, total, i);
    }
    assert(found_devices(candidates, ScanDepth::Ports, net) =~= sorted);
}

/// A step on a truthful reply keeps the agreement: where the state of a run
/// agrees with a network and the request it is waiting for is answered with
/// the truth about that network, the next state agrees with it too.
pub proof fn lemma_step_agrees(s: DiscoveryView, net: Network)
    requires
        wf(s),
        agrees(s, net),
    ensures
        agrees(step(s, answer(pending(s), net)).0, net),
{
    let reply = answer(pending(s), net);
    let base = alive_among(s.candidates, net);
    let known = known_devices(s.candidates, net);
    lemma_alive_among(s.candidates, net);
    match s.stage {
        Stage::PingSweep => {
            let total = s.candidates.len() as int;
            let end = batch_end(s.cursor, PING_BATCH as int, total);
            let batch = s.candidates.subrange(s.cursor, end);
            let flags = alive_flags(reply);
            lemma_live_is_alive(batch, flags, net);
            lemma_alive_among_add(s.candidates.take(s.cursor), batch, net);
            assert(s.candidates.take(s.cursor) + batch == s.candidates.take(end));
            let devices = s.devices + live_devices(batch, flags);
            assert(devices == alive_among(s.candidates.take(end), net));
            if end >= total {
                assert(s.candidates.take(end) == s.candidates);
                lemma_found_devices(s.candidates, s.depth, net);
                if devices.len() == 0 {
                    assert(found_devices(s.candidates, s.depth, net) =~= Seq::<DeviceView>::empty());
                    assert(sort_by_ip(Seq::<DeviceView>::empty()) =~= Seq::<DeviceView>::empty());
                    assert(devices =~= Seq::<DeviceView>::empty());
                } else if s.depth == ScanDepth::Quick {
                    lemma_found_quick(s.candidates, net);
                }
            }
        },
        Stage::Tables => {
            let devices = s.devices.map_values(
                |d: DeviceView| with_tables(d, net.arp, net.vendors),
            );
            assert forall|i: int| 0 <= i < base.len() implies #[trigger] devices[i] == with_tables(
                base[i],
                net.arp,
                net.vendors,
            ) by {}
        },
        Stage::Hostnames => {
            let found = s.devices.len() as int;
            let end = batch_end(s.cursor, HOSTNAME_BATCH as int, found);
            let names = reply_names(reply);
            let devices = with_names(s.devices, s.cursor, end, names);
            assert forall|i: int| 0 <= i < base.len() implies #[trigger] devices[i] == if i < end {
                known[i]
            } else {
                with_tables(base[i], net.arp, net.vendors)
            } by {
                if s.cursor <= i < end {
                    assert(names[i - s.cursor] == (net.name)(s.devices[i].ip));
                    assert(s.devices[i] == with_tables(base[i], net.arp, net.vendors));
                } else {
                    assert(devices[i] == s.devices[i]);
                }
            }
            if end >= found {
                assert(devices =~= known);
                if s.depth == ScanDepth::Ports {
                } else {
                    lemma_found_basic(s.candidates, net);
                }
            }
        },
        Stage::PortScan => {
            let found = s.devices.len() as int;
            let total = found * PORT_COUNT;
            let end = batch_end(s.cursor, PORT_BATCH as int, total);
            let flags = open_flags(reply);
            let all = all_open_flags(known, net);
            lemma_with_open_keeps(known, 0, all, s.cursor);
            assert forall|j: int| 0 <= j < end - s.cursor implies flag_at(flags, j) == flag_at(
                all,
                s.cursor + j,
            ) by {
                let k = s.cursor + j;
                assert(0 <= k / (PORT_COUNT as int) < found);
                assert(target_at(s.devices, k) == target_at(known, k));
            }
            lemma_with_open_add(known, all, s.cursor, flags, end - s.cursor);
            if end >= total {
                lemma_found_ports(s.candidates, net);
            }
        },
        Stage::Done => {},
    }
}

/// What a run comes to. A run that is over in agreement with a network hands
/// over the devices that it finds in that network, in ascending order of
/// their addresses: one for each candidate that is alive, holding what a run
/// of that depth learns of it.
pub proof fn lemma_outcome(s: DiscoveryView, net: Network)
    requires
        wf(s),
        agrees(s, net),
        s.stage == Stage::Done,
    ensures
        pending(s) == RequestView::Finished(outcome(s.candidates, s.depth, net)),
        outcome(s.candidates, s.depth, net).len() == alive_among(s.candidates, net).len(),
{
    lemma_found_devices(s.candidates, s.depth, net);
    crate::device::lemma_sort_by_ip(found_devices(s.candidates, s.depth, net));
}

/// Whether the addresses ascend strictly by the numbers they are ordered by.
pub open spec fn ascending(candidates: Seq<Seq<char>>) -> bool {
    forall|j: int, k: int|
        0 <= j < k < candidates.len() ==> sort_key(candidates[j]) < sort_key(candidates[k])
}

/// Every device that a run finds stands at the address of a candidate, and
/// where the candidates ascend, so do the devices found.
pub proof fn lemma_found_in_order(candidates: Seq<Seq<char>>, depth: ScanDepth, net: Network)
    ensures
        forall|i: int|
            0 <= i < found_devices(candidates, depth, net).len() ==> candidates.contains(
                (#[trigger] found_devices(candidates, depth, net)[i]).ip,
            ),
        ascending(candidates) ==> is_sorted_by_ip(found_devices(candidates, depth, net)),
    decreases candidates.len(),
{
    if candidates.len() > 0 {
        let front = candidates.drop_last();
        let last = candidates.last();
        let all = found_devices(candidates, depth, net);
        let before = found_devices(front, depth, net);
        lemma_found_in_order(front, depth, net);
        assert forall|i: int| 0 <= i < all.len() implies candidates.contains(
            (#[trigger] all[i]).ip,
        ) by {
            if i < before.len() {
                assert(front.contains(before[i].ip));
                let j = choose|j: int| 0 <= j < front.len() && front[j] == before[i].ip;
                assert(candidates[j] == front[j]);
            } else {
                assert(candidates[candidates.len() - 1] == last);
            }
        }
        if ascending(candidates) {
            assert forall|j: int, k: int| 0 <= j < k < front.len() implies sort_key(front[j])
                < sort_key(front[k]) by {
                assert(front[j] == candidates[j] && front[k] == candidates[k]);
            }
            assert forall|i: int, k: int| 0 <= i < k < all.len() implies device_key(all[i])
                <= device_key(all[k]) by {
                if k < before.len() {
                    assert(all[i] == before[i] && all[k] == before[k]);
                } else {
                    assert(front.contains(before[i].ip));
                    let j = choose|j: int| 0 <= j < front.len() && front[j] == before[i].ip;
                    assert(candidates[j] == front[j]);
                    assert(candidates[candidates.len() - 1] == last);
                }
            }
        }
    }
}

/// Over candidates that ascend, as those of every subnet do, the devices
/// that a run comes to stand in the order of the candidates.
pub proof fn lemma_outcome_in_order(candidates: Seq<Seq<char>>, depth: ScanDepth, net: Network)
    requires
        ascending(candidates),
    ensures
        outcome(candidates, depth, net) == found_devices(candidates, depth, net),
{
    lemma_found_in_order(candidates, depth, net);
    lemma_sort_by_ip_of_sorted(found_devices(candidates, depth, net));
}

/// The candidates of every run ascend.
pub proof fn lemma_candidates_ascend(ip: Seq<char>, mask: Seq<char>)
    ensures
        ascending(scan_ips(ip, mask)),
{
    if parse_ipv4(ip).is_some() && parse_ipv4(mask).is_some() && 0 < host_count(
        parse_ipv4(ip).unwrap(),
        parse_ipv4(mask).unwrap(),
    ) <= MAX_HOSTS {
        lemma_scan_ips(ip, mask);
    }
}

/// A run starts in agreement with every network, waiting for the request
/// that its first step gives.
pub proof fn lemma_start_agrees(ip: Seq<char>, mask: Seq<char>, depth: ScanDepth, net: Network)
    requires
        started(ip, mask, depth).is_some(),
    ensures
        agrees(started(ip, mask, depth).unwrap().0, net),
        started(ip, mask, depth).unwrap().1.request == pending(started(ip, mask, depth).unwrap().0),
{
    let s = started(ip, mask, depth).unwrap().0;
    assert(s.candidates.take(0).len() == 0);
    assert(s.devices =~= alive_among(s.candidates.take(0), net));
}

} // verus!

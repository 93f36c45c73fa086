//! A discovered host, and the order of the final device list.
use vstd::prelude::*;
use crate::address::{ip_sort_key, sort_key};

verus! {

/// A host that answered the liveness probe, with what the later phases
/// learned of it.
#[derive(Debug, PartialEq, Eq)]
pub struct DiscoveredDevice {
    pub ip: String,
    pub hostname: String,
    pub mac_address: String,
    pub vendor: String,
    pub open_ports: Vec<u16>,
}

/// A device as plain values.
#[verifier::ext_equal]
pub struct DeviceView {
    pub ip: Seq<char>,
    pub hostname: Seq<char>,
    pub mac_address: Seq<char>,
    pub vendor: Seq<char>,
    pub open_ports: Seq<u16>,
}

impl View for DiscoveredDevice {
    type V = DeviceView;

    open spec fn view(&self) -> DeviceView {
        DeviceView {
            ip: self.ip@,
            hostname: self.hostname@,
            mac_address: self.mac_address@,
            vendor: self.vendor@,
            open_ports: self.open_ports@,
        }
    }
}

/// The views of a list of devices, device by device.
pub open spec fn device_views(devices: Seq<DiscoveredDevice>) -> Seq<DeviceView> {
    devices.map_values(|d: DiscoveredDevice| d@)
}

/// The device at `ip` of which nothing else is known yet.
pub open spec fn blank_device(ip: Seq<char>) -> DeviceView {
    DeviceView {
        ip,
        hostname: Seq::empty(),
        mac_address: Seq::empty(),
        vendor: Seq::empty(),
        open_ports: Seq::empty(),
    }
}

/// The number by which a device is ordered: that of its address.
pub open spec fn device_key(d: DeviceView) -> int {
    sort_key(d.ip)
}

/// Whether the devices stand in ascending order of their addresses.
pub open spec fn is_sorted_by_ip(s: Seq<DeviceView>) -> bool {
    forall|i: int, j: int| 0 <= i < j < s.len() ==> device_key(s[i]) <= device_key(s[j])
}

/// `s` with `d` put in behind the last device that does not come after it.
pub open spec fn insert_by_ip(s: Seq<DeviceView>, d: DeviceView) -> Seq<DeviceView>
    decreases s.len(),
{
    if s.len() == 0 || device_key(s.last()) <= device_key(d) {
        s.push(d)
    } else {
        insert_by_ip(s.drop_last(), d).push(s.last())
    }
}

/// The devices of `s` in ascending order of their addresses; devices with one
/// address keep the order they had.
pub open spec fn sort_by_ip(s: Seq<DeviceView>) -> Seq<DeviceView>
    decreases s.len(),
{
    if s.len() == 0 {
        s
    } else {
        insert_by_ip(sort_by_ip(s.drop_last()), s.last())
    }
}

/// Whether the ports ascend strictly, so that none occurs twice.
pub open spec fn is_ascending(s: Seq<u16>) -> bool {
    forall|i: int, j: int| 0 <= i < j < s.len() ==> s[i] < s[j]
}

/// `s` with `p` put in at its place, unless `s` holds it already.
pub open spec fn insert_port(s: Seq<u16>, p: u16) -> Seq<u16>
    decreases s.len(),
{
    if s.len() == 0 || s.last() < p {
        s.push(p)
    } else if s.last() == p {
        s
    } else {
        insert_port(s.drop_last(), p).push(s.last())
    }
}

/// The ports of `s` in ascending order, each once.
pub open spec fn sorted_ports(s: Seq<u16>) -> Seq<u16>
    decreases s.len(),
{
    if s.len() == 0 {
        s
    } else {
        insert_port(sorted_ports(s.drop_last()), s.last())
    }
}

impl DiscoveredDevice {
    /// The device at `ip` of which nothing else is known yet.
    pub fn new(ip: String) -> (d: DiscoveredDevice)
        ensures
            d@ == blank_device(ip@),
    {
        DiscoveredDevice {
            ip,
            hostname: String::new(),
            mac_address: String::new(),
            vendor: String::new(),
            open_ports: Vec::new(),
        }
    }
}

impl Clone for DiscoveredDevice {
    fn clone(&self) -> (copy: DiscoveredDevice)
        ensures
            copy@ == self@,
    {
        DiscoveredDevice {
            ip: self.ip.clone(),
            hostname: self.hostname.clone(),
            mac_address: self.mac_address.clone(),
            vendor: self.vendor.clone(),
            open_ports: copy_ports(&self.open_ports),
        }
    }
}

/// A copy of a list of ports.
pub fn copy_ports(ports: &Vec<u16>) -> (copy: Vec<u16>)
    ensures
        copy@ == ports@,
{
    let mut copy: Vec<u16> = Vec::new();
    let mut i: usize = 0;
    while i < ports.len()
        invariant
            i <= ports.len(),
            copy@ == ports@.take(i as int),
        decreases ports.len() - i,
    {
        copy.push(ports[i]);
        assert(ports@.take(i + 1) == ports@.take(i as int).push(ports@[i as int]));
        i += 1;
    }
    assert(ports@.take(ports.len() as int) == ports@);
    copy
}

/// Puts `p` into the ascending list `ports`, unless it is there already.
pub fn add_port_sorted(ports: &mut Vec<u16>, p: u16)
    ensures
        final(ports)@ == insert_port(old(ports)@, p),
    decreases old(ports).len(),
{
    let n = ports.len();
    if n == 0 {
        ports.push(p);
    } else {
        let last = ports[n - 1];
        if last < p {
            ports.push(p);
        } else if last == p {
        } else {
            ports.pop();
            assert(ports@ == old(ports)@.drop_last());
            add_port_sorted(ports, p);
            ports.push(last);
        }
    }
}

/// The ports of a list in ascending order, each once: the result ascends
/// strictly and holds exactly the ports that the list holds.
pub fn sort_ports(ports: &Vec<u16>) -> (sorted: Vec<u16>)
    ensures
        sorted@ == sorted_ports(ports@),
        is_ascending(sorted@),
        forall|q: u16| sorted@.contains(q) <==> ports@.contains(q),
{
    proof {
        lemma_sorted_ports(ports@);
    }
    let mut sorted: Vec<u16> = Vec::new();
    let mut i: usize = 0;
    while i < ports.len()
        invariant
            i <= ports.len(),
            sorted@ == sorted_ports(ports@.take(i as int)),
        decreases ports.len() - i,
    {
        proof {
            let t = ports@.take(i + 1);
            assert(t.drop_last() == ports@.take(i as int));
            assert(t.last() == ports@[i as int]);
        }
        add_port_sorted(&mut sorted, ports[i]);
        i += 1;
    }
    assert(ports@.take(ports.len() as int) == ports@);
    sorted
}

/// Puts `d` into `devices` behind the last device that does not come after
/// it. `keys` holds the number by which each device is ordered.
fn insert_device(
    keys: &mut Vec<u32>,
    devices: &mut Vec<DiscoveredDevice>,
    key: u32,
    d: DiscoveredDevice,
)
    requires
        old(keys).len() == old(devices).len(),
        forall|i: int|
            0 <= i < old(keys).len() ==> old(keys)@[i] as int == device_key(
                #[trigger] old(devices)@[i]@,
            ),
        key as int == device_key(d@),
    ensures
        final(keys).len() == final(devices).len(),
        forall|i: int|
            0 <= i < final(keys).len() ==> final(keys)@[i] as int == device_key(
                #[trigger] final(devices)@[i]@,
            ),
        device_views(final(devices)@) == insert_by_ip(device_views(old(devices)@), d@),
    decreases old(devices).len(),
{
    let n = devices.len();
    if n == 0 || keys[n - 1] <= key {
        proof {
            assert(n > 0 ==> device_views(devices@).last() == devices@[n - 1]@);
            assert(device_views(devices@.push(d)) == device_views(devices@).push(d@));
        }
        keys.push(key);
        devices.push(d);
    } else {
        let last_key = keys[n - 1];
        keys.pop();
        let last = devices.pop().unwrap();
        proof {
            assert(device_views(old(devices)@).last() == last@);
            assert(device_views(devices@) == device_views(old(devices)@).drop_last());
        }
        insert_device(keys, devices, key, d);
        let ghost inner = devices@;
        keys.push(last_key);
        devices.push(last);
        proof {
            assert(device_views(devices@) == device_views(inner).push(last@));
        }
    }
}

/// The devices in ascending order of their addresses, an address counting as
/// the big-endian number of its four octets. An octet that is malformed or
/// missing counts as 0, so every list can be ordered. Devices with one address
/// keep the order they had. The result holds the same devices, each as often
/// as the list did.
pub fn sort_devices(devices: Vec<DiscoveredDevice>) -> (sorted: Vec<DiscoveredDevice>)
    ensures
        device_views(sorted@) == sort_by_ip(device_views(devices@)),
        is_sorted_by_ip(device_views(sorted@)),
        device_views(sorted@).to_multiset() == device_views(devices@).to_multiset(),
        sorted.len() == devices.len(),
{
    proof {
        lemma_sort_by_ip(device_views(devices@));
    }
    let mut keys: Vec<u32> = Vec::new();
    let mut sorted: Vec<DiscoveredDevice> = Vec::new();
    let mut i: usize = 0;
    proof {
        assert(device_views(devices@).take(0) == Seq::<DeviceView>::empty());
        assert(device_views(sorted@) == Seq::<DeviceView>::empty());
    }
    while i < devices.len()
        invariant
            i <= devices.len(),
            keys.len() == sorted.len(),
            forall|k: int|
                0 <= k < keys.len() ==> keys@[k] as int == device_key(#[trigger] sorted@[k]@),
            device_views(sorted@) == sort_by_ip(device_views(devices@).take(i as int)),
        decreases devices.len() - i,
    {
        let d = devices[i].clone();
        let key = ip_sort_key(d.ip.as_str());
        proof {
            let t = device_views(devices@).take(i + 1);
            assert(t.drop_last() == device_views(devices@).take(i as int));
            assert(t.last() == devices@[i as int]@);
        }
        insert_device(&mut keys, &mut sorted, key, d);
        i += 1;
    }
    assert(device_views(devices@).take(devices.len() as int) == device_views(devices@));
    sorted
}

/// Putting a device in keeps an ordered list ordered, and adds just that
/// device.
pub proof fn lemma_insert_by_ip(s: Seq<DeviceView>, d: DeviceView)
    requires
        is_sorted_by_ip(s),
    ensures
        is_sorted_by_ip(insert_by_ip(s, d)),
        insert_by_ip(s, d).to_multiset() == s.to_multiset().insert(d),
        insert_by_ip(s, d).len() == s.len() + 1,
    decreases s.len(),
{
    broadcast use vstd::seq_lib::group_to_multiset_ensures;

    if s.len() == 0 || device_key(s.last()) <= device_key(d) {
    } else {
        let front = s.drop_last();
        assert forall|i: int, j: int| 0 <= i < j < front.len() implies device_key(front[i])
            <= device_key(front[j]) by {
            assert(front[i] == s[i] && front[j] == s[j]);
        }
        lemma_insert_by_ip(front, d);
        let inner = insert_by_ip(front, d);
        let r = inner.push(s.last());
        assert(s == front.push(s.last()));
        assert(r.to_multiset() == s.to_multiset().insert(d));
        assert forall|i: int, j: int| 0 <= i < j < r.len() implies device_key(r[i])
            <= device_key(r[j]) by {
            if j == r.len() - 1 {
                // every device of `inner` is `d` or one of `front`
                assert(inner.to_multiset().count(inner[i]) > 0);
                if inner[i] == d {
                } else {
                    assert(front.to_multiset().count(inner[i]) > 0);
                    let k = choose|k: int| 0 <= k < front.len() && front[k] == inner[i];
                    assert(front[k] == s[k]);
                }
            }
        }
    }
}

/// The sorted list is in ascending order of addresses and holds the same
/// devices, each as often as before.
pub proof fn lemma_sort_by_ip(s: Seq<DeviceView>)
    ensures
        is_sorted_by_ip(sort_by_ip(s)),
        sort_by_ip(s).to_multiset() == s.to_multiset(),
        sort_by_ip(s).len() == s.len(),
    decreases s.len(),
{
    broadcast use vstd::seq_lib::group_to_multiset_ensures;

    if s.len() > 0 {
        lemma_sort_by_ip(s.drop_last());
        lemma_insert_by_ip(sort_by_ip(s.drop_last()), s.last());
        assert(s == s.drop_last().push(s.last()));
    }
}

/// A list that is in order already is left as it is.
pub proof fn lemma_sort_by_ip_of_sorted(s: Seq<DeviceView>)
    requires
        is_sorted_by_ip(s),
    ensures
        sort_by_ip(s) == s,
    decreases s.len(),
{
    if s.len() > 0 {
        let front = s.drop_last();
        assert forall|i: int, j: int| 0 <= i < j < front.len() implies device_key(front[i])
            <= device_key(front[j]) by {
            assert(front[i] == s[i] && front[j] == s[j]);
        }
        lemma_sort_by_ip_of_sorted(front);
        if front.len() > 0 {
            assert(front.last() == s[s.len() - 2]);
        }
        assert(front.push(s.last()) == s);
    }
}

/// Putting a port in keeps an ascending list ascending, and the list then
/// holds that port and what it held.
pub proof fn lemma_insert_port(s: Seq<u16>, p: u16)
    requires
        is_ascending(s),
    ensures
        is_ascending(insert_port(s, p)),
        forall|q: u16|
            #![trigger insert_port(s, p).contains(q)]
            #![trigger s.contains(q)]
            insert_port(s, p).contains(q) <==> (q == p || s.contains(q)),
    decreases s.len(),
{
    let r = insert_port(s, p);
    if s.len() == 0 || s.last() < p {
        assert forall|q: u16| r.contains(q) <==> (q == p || s.contains(q)) by {
            if r.contains(q) {
                let k = choose|k: int| 0 <= k < r.len() && r[k] == q;
                if k < s.len() {
                    assert(s[k] == q);
                }
            }
            if s.contains(q) {
                let k = choose|k: int| 0 <= k < s.len() && s[k] == q;
                assert(r[k] == q);
            }
            if q == p {
                assert(r[s.len() as int] == p);
            }
        }
    } else if s.last() == p {
        assert(s[s.len() - 1] == p);
    } else {
        let front = s.drop_last();
        assert forall|i: int, j: int| 0 <= i < j < front.len() implies front[i] < front[j] by {
            assert(front[i] == s[i] && front[j] == s[j]);
        }
        lemma_insert_port(front, p);
        let inner = insert_port(front, p);
        assert forall|i: int, j: int| 0 <= i < j < r.len() implies r[i] < r[j] by {
            if j == r.len() - 1 {
                assert(inner.contains(inner[i]));
                if inner[i] != p {
                    assert(front.contains(inner[i]));
                    let k = choose|k: int| 0 <= k < front.len() && front[k] == inner[i];
                    assert(front[k] == s[k]);
                }
            }
        }
        assert forall|q: u16| r.contains(q) <==> (q == p || s.contains(q)) by {
            if r.contains(q) {
                let k = choose|k: int| 0 <= k < r.len() && r[k] == q;
                if k < inner.len() {
                    assert(inner[k] == q);
                    assert(inner.contains(q));
                    if q != p {
                        assert(front.contains(q));
                        let m = choose|m: int| 0 <= m < front.len() && front[m] == q;
                        assert(s[m] == q);
                    }
                } else {
                    assert(s[s.len() - 1] == q);
                }
            }
            if s.contains(q) {
                let k = choose|k: int| 0 <= k < s.len() && s[k] == q;
                if k < front.len() {
                    assert(front[k] == q);
                    assert(front.contains(q));
                    assert(inner.contains(q));
                    let m = choose|m: int| 0 <= m < inner.len() && inner[m] == q;
                    assert(r[m] == q);
                } else {
                    assert(r[r.len() - 1] == q);
                }
            }
            if q == p {
                assert(inner.contains(p));
                let m = choose|m: int| 0 <= m < inner.len() && inner[m] == p;
                assert(r[m] == p);
            }
        }
    }
}

/// The sorted list of ports ascends strictly, so holds no port twice, and
/// holds exactly the ports of the list it was made from.
pub proof fn lemma_sorted_ports(s: Seq<u16>)
    ensures
        is_ascending(sorted_ports(s)),
        forall|q: u16|
            #![trigger sorted_ports(s).contains(q)]
            #![trigger s.contains(q)]
            sorted_ports(s).contains(q) <==> s.contains(q),
    decreases s.len(),
{
    if s.len() > 0 {
        let front = s.drop_last();
        lemma_sorted_ports(front);
        lemma_insert_port(sorted_ports(front), s.last());
        assert forall|q: u16| sorted_ports(s).contains(q) <==> s.contains(q) by {
            if s.contains(q) {
                let k = choose|k: int| 0 <= k < s.len() && s[k] == q;
                if k < front.len() {
                    assert(front[k] == q);
                    assert(front.contains(q));
                }
            }
            if front.contains(q) {
                let k = choose|k: int| 0 <= k < front.len() && front[k] == q;
                assert(s[k] == q);
            }
            assert(s[s.len() - 1] == s.last());
        }
    }
}

} // verus!

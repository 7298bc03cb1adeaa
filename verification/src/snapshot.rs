//! What one reading of the counters shows.

use vstd::prelude::*;

use crate::counters::AggregatedBucket;
use crate::counters::CounterQuad;
use crate::lists;
use crate::sorting;

verus! {

/// The traffic of one interface.
#[derive(Debug)]
pub struct InterfaceOverviewItem {
    pub ifindex: u32,
    pub ifname: String,
    pub zone: String,
    pub metrics: CounterQuad,
    pub cumulative: CounterQuad,
}

/// The traffic of one interface, with names as characters.
#[verifier::ext_equal]
pub struct InterfaceView {
    pub ifindex: u32,
    pub ifname: Seq<char>,
    pub zone: Seq<char>,
    pub metrics: CounterQuad,
    pub cumulative: CounterQuad,
}

impl View for InterfaceOverviewItem {
    type V = InterfaceView;

    open spec fn view(&self) -> InterfaceView {
        InterfaceView {
            ifindex: self.ifindex,
            ifname: self.ifname@,
            zone: self.zone@,
            metrics: self.metrics,
            cumulative: self.cumulative,
        }
    }
}

impl Clone for InterfaceOverviewItem {
    fn clone(&self) -> (r: Self)
        ensures
            r@ == self@,
    {
        InterfaceOverviewItem {
            ifindex: self.ifindex,
            ifname: self.ifname.clone(),
            zone: self.zone.clone(),
            metrics: self.metrics,
            cumulative: self.cumulative,
        }
    }
}

/// One device behind an interface and its traffic.
#[derive(Debug)]
pub struct DeviceListItem {
    pub ifindex: u32,
    pub logical_iface: String,
    pub subnet: String,
    pub ipv4: Vec<String>,
    pub ipv6: Vec<String>,
    pub mac: String,
    pub hostname: String,
    pub metrics: CounterQuad,
    pub cumulative: CounterQuad,
    pub online: bool,
    /// When the device was last seen, in milliseconds since the epoch.
    pub last_seen_ms: u64,
    pub neighbor_state: Option<String>,
}

/// One device behind an interface, with texts as characters.
#[verifier::ext_equal]
pub struct DeviceView {
    pub ifindex: u32,
    pub logical_iface: Seq<char>,
    pub subnet: Seq<char>,
    pub ipv4: Seq<Seq<char>>,
    pub ipv6: Seq<Seq<char>>,
    pub mac: Seq<char>,
    pub hostname: Seq<char>,
    pub metrics: CounterQuad,
    pub cumulative: CounterQuad,
    pub online: bool,
    pub last_seen_ms: u64,
    pub neighbor_state: Option<Seq<char>>,
}

/// The characters of a text that may be missing.
pub open spec fn opt_text(s: Option<String>) -> Option<Seq<char>> {
    match s {
        Some(t) => Some(t@),
        None => None,
    }
}

/// A copy of a text that may be missing.
pub fn copy_opt_text(s: &Option<String>) -> (r: Option<String>)
    ensures
        opt_text(r) == opt_text(*s),
{
    match s {
        Some(t) => Some(t.clone()),
        None => None,
    }
}

impl View for DeviceListItem {
    type V = DeviceView;

    open spec fn view(&self) -> DeviceView {
        DeviceView {
            ifindex: self.ifindex,
            logical_iface: self.logical_iface@,
            subnet: self.subnet@,
            ipv4: lists::texts(self.ipv4@),
            ipv6: lists::texts(self.ipv6@),
            mac: self.mac@,
            hostname: self.hostname@,
            metrics: self.metrics,
            cumulative: self.cumulative,
            online: self.online,
            last_seen_ms: self.last_seen_ms,
            neighbor_state: opt_text(self.neighbor_state),
        }
    }
}

impl Clone for DeviceListItem {
    fn clone(&self) -> (r: Self)
        ensures
            r@ == self@,
    {
        DeviceListItem {
            ifindex: self.ifindex,
            logical_iface: self.logical_iface.clone(),
            subnet: self.subnet.clone(),
            ipv4: lists::copy_texts(&self.ipv4),
            ipv6: lists::copy_texts(&self.ipv6),
            mac: self.mac.clone(),
            hostname: self.hostname.clone(),
            metrics: self.metrics,
            cumulative: self.cumulative,
            online: self.online,
            last_seen_ms: self.last_seen_ms,
            neighbor_state: copy_opt_text(&self.neighbor_state),
        }
    }
}

/// The interfaces and devices at one time.
#[derive(Debug)]
pub struct SnapshotData {
    pub timestamp_ms: u64,
    pub interfaces: Vec<InterfaceOverviewItem>,
    pub devices: Vec<DeviceListItem>,
}

/// The interfaces and devices at one time, with texts as characters.
#[verifier::ext_equal]
pub struct SnapshotView {
    pub timestamp_ms: u64,
    pub interfaces: Seq<InterfaceView>,
    pub devices: Seq<DeviceView>,
}

impl View for SnapshotData {
    type V = SnapshotView;

    open spec fn view(&self) -> SnapshotView {
        SnapshotView {
            timestamp_ms: self.timestamp_ms,
            interfaces: sorting::views(self.interfaces@),
            devices: sorting::views(self.devices@),
        }
    }
}

impl Default for SnapshotData {
    fn default() -> (r: SnapshotData)
        ensures
            r@ == (SnapshotView {
                timestamp_ms: 0,
                interfaces: Seq::empty(),
                devices: Seq::empty(),
            }),
    {
        let r = SnapshotData { timestamp_ms: 0, interfaces: Vec::new(), devices: Vec::new() };
        assert(r@.interfaces =~= Seq::<InterfaceView>::empty());
        assert(r@.devices =~= Seq::<DeviceView>::empty());
        r
    }
}

/// A copy of a list of interfaces.
pub fn copy_interfaces(v: &Vec<InterfaceOverviewItem>) -> (r: Vec<InterfaceOverviewItem>)
    ensures
        sorting::views(r@) == sorting::views(v@),
{
    let mut r: Vec<InterfaceOverviewItem> = Vec::new();
    for i in 0..v.len()
        invariant
            r@.len() == i,
            forall|j: int| 0 <= j < i ==> (#[trigger] r@[j])@ == v@[j]@,
    {
        r.push(v[i].clone());
    }
    assert(sorting::views(r@) =~= sorting::views(v@));
    r
}

/// A copy of a list of devices.
pub fn copy_devices(v: &Vec<DeviceListItem>) -> (r: Vec<DeviceListItem>)
    ensures
        sorting::views(r@) == sorting::views(v@),
{
    let mut r: Vec<DeviceListItem> = Vec::new();
    for i in 0..v.len()
        invariant
            r@.len() == i,
            forall|j: int| 0 <= j < i ==> (#[trigger] r@[j])@ == v@[j]@,
    {
        r.push(v[i].clone());
    }
    assert(sorting::views(r@) =~= sorting::views(v@));
    r
}

impl Clone for SnapshotData {
    fn clone(&self) -> (r: Self)
        ensures
            r@ == self@,
    {
        SnapshotData {
            timestamp_ms: self.timestamp_ms,
            interfaces: copy_interfaces(&self.interfaces),
            devices: copy_devices(&self.devices),
        }
    }
}

/// A bucket that was closed, and whose it is.
#[derive(Debug, Clone)]
pub enum CompletedAggregate {
    Iface { iface: String, bucket: AggregatedBucket },
    Device { iface: String, mac: String, bucket: AggregatedBucket },
}

/// A bucket that was closed, and whose it is, with texts as characters.
pub enum CompletedView {
    Iface { iface: Seq<char>, bucket: AggregatedBucket },
    Device { iface: Seq<char>, mac: Seq<char>, bucket: AggregatedBucket },
}

impl View for CompletedAggregate {
    type V = CompletedView;

    open spec fn view(&self) -> CompletedView {
        match self {
            CompletedAggregate::Iface { iface, bucket } => CompletedView::Iface {
                iface: iface@,
                bucket: *bucket,
            },
            CompletedAggregate::Device { iface, mac, bucket } => CompletedView::Device {
                iface: iface@,
                mac: mac@,
                bucket: *bucket,
            },
        }
    }
}

} // verus!

//! Progress events: what a discovery run tells its caller while it works.
use vstd::prelude::*;
use crate::number::{decimal, push_decimal};
use crate::text::{push_text, same_text, string_of};

verus! {

/// The phase of a run that an event reports on.
#[derive(Debug, Clone, Copy, PartialEq, Eq, Structural)]
pub enum Phase {
    PingSweep,
    ArpLookup,
    HostnameResolution,
    PortScan,
    Complete,
}

/// The name under which a phase is reported.
pub open spec fn phase_name(phase: Phase) -> Seq<char> {
    match phase {
        Phase::PingSweep => "ping_sweep"@,
        Phase::ArpLookup => "arp_lookup"@,
        Phase::HostnameResolution => "hostname_resolution"@,
        Phase::PortScan => "port_scan"@,
        Phase::Complete => "complete"@,
    }
}

/// The place of a phase in the fixed order of a run.
pub open spec fn phase_rank(phase: Phase) -> int {
    match phase {
        Phase::PingSweep => 0,
        Phase::ArpLookup => 1,
        Phase::HostnameResolution => 2,
        Phase::PortScan => 3,
        Phase::Complete => 4,
    }
}

impl Phase {
    /// The name under which the phase is reported.
    pub fn name(&self) -> (s: String)
        ensures
            s@ == phase_name(*self),
    {
        match self {
            Phase::PingSweep => "ping_sweep".to_owned(),
            Phase::ArpLookup => "arp_lookup".to_owned(),
            Phase::HostnameResolution => "hostname_resolution".to_owned(),
            Phase::PortScan => "port_scan".to_owned(),
            Phase::Complete => "complete".to_owned(),
        }
    }

    /// The phase that is reported under `name`, if there is one.
    pub fn from_name(name: &str) -> (phase: Option<Phase>)
        ensures
            match phase {
                Some(p) => phase_name(p) == name@,
                None => forall|p: Phase| phase_name(p) != name@,
            },
    {
        if same_text(name, "ping_sweep") {
            Some(Phase::PingSweep)
        } else if same_text(name, "arp_lookup") {
            Some(Phase::ArpLookup)
        } else if same_text(name, "hostname_resolution") {
            Some(Phase::HostnameResolution)
        } else if same_text(name, "port_scan") {
            Some(Phase::PortScan)
        } else if same_text(name, "complete") {
            Some(Phase::Complete)
        } else {
            None
        }
    }
}

/// One progress event.
#[derive(Debug, PartialEq, Eq)]
pub struct DiscoveryProgress {
    pub phase: Phase,
    pub current: u32,
    pub total: u32,
    pub found_so_far: u32,
    pub message: String,
}

/// A progress event as plain values.
#[verifier::ext_equal]
pub struct ProgressView {
    pub phase: Phase,
    pub current: int,
    pub total: int,
    pub found_so_far: int,
    pub message: Seq<char>,
}

impl View for DiscoveryProgress {
    type V = ProgressView;

    open spec fn view(&self) -> ProgressView {
        ProgressView {
            phase: self.phase,
            current: self.current as int,
            total: self.total as int,
            found_so_far: self.found_so_far as int,
            message: self.message@,
        }
    }
}

/// The views of a list of events, event by event.
pub open spec fn progress_views(events: Seq<DiscoveryProgress>) -> Seq<ProgressView> {
    events.map_values(|e: DiscoveryProgress| e@)
}

/// "Scanning `total` addresses..."
pub open spec fn scanning_message(total: int) -> Seq<char> {
    "Scanning "@ + decimal(total as nat) + " addresses..."@
}

/// "Pinged `scanned`/`total` — found `found` devices"
pub open spec fn pinged_message(scanned: int, total: int, found: int) -> Seq<char> {
    "Pinged "@ + decimal(scanned as nat) + "/"@ + decimal(total as nat) + " — found "@ + decimal(
        found as nat,
    ) + " devices"@
}

/// "Reading ARP table..."
pub open spec fn arp_message() -> Seq<char> {
    "Reading ARP table..."@
}

/// "Resolving hostnames..."
pub open spec fn resolving_message() -> Seq<char> {
    "Resolving hostnames..."@
}

/// "Resolved `resolved`/`found` hostnames"
pub open spec fn resolved_message(resolved: int, found: int) -> Seq<char> {
    "Resolved "@ + decimal(resolved as nat) + "/"@ + decimal(found as nat) + " hostnames"@
}

/// "Scanning ports..."
pub open spec fn ports_message() -> Seq<char> {
    "Scanning ports..."@
}

/// "Checked `checked`/`total` port combinations"
pub open spec fn checked_message(checked: int, total: int) -> Seq<char> {
    "Checked "@ + decimal(checked as nat) + "/"@ + decimal(total as nat) + " port combinations"@
}

/// "Discovery complete — found `found` devices"
pub open spec fn complete_message(found: int) -> Seq<char> {
    "Discovery complete — found "@ + decimal(found as nat) + " devices"@
}

/// The opening event of the ping sweep.
pub open spec fn sweep_started(total: int) -> ProgressView {
    ProgressView {
        phase: Phase::PingSweep,
        current: 0,
        total,
        found_so_far: 0,
        message: scanning_message(total),
    }
}

/// The event after a batch of the ping sweep.
pub open spec fn sweep_progress(scanned: int, total: int, found: int) -> ProgressView {
    ProgressView {
        phase: Phase::PingSweep,
        current: scanned,
        total,
        found_so_far: found,
        message: pinged_message(scanned, total, found),
    }
}

/// The one event of the ARP lookup: it marks the start.
pub open spec fn arp_started(found: int) -> ProgressView {
    ProgressView {
        phase: Phase::ArpLookup,
        current: 0,
        total: found,
        found_so_far: found,
        message: arp_message(),
    }
}

/// The opening event of the hostname resolution.
pub open spec fn resolving_started(found: int) -> ProgressView {
    ProgressView {
        phase: Phase::HostnameResolution,
        current: 0,
        total: found,
        found_so_far: found,
        message: resolving_message(),
    }
}

/// The event after a batch of the hostname resolution.
pub open spec fn resolving_progress(resolved: int, found: int) -> ProgressView {
    ProgressView {
        phase: Phase::HostnameResolution,
        current: resolved,
        total: found,
        found_so_far: found,
        message: resolved_message(resolved, found),
    }
}

/// The opening event of the port scan.
pub open spec fn ports_started(total: int, found: int) -> ProgressView {
    ProgressView {
        phase: Phase::PortScan,
        current: 0,
        total,
        found_so_far: found,
        message: ports_message(),
    }
}

/// The event after a batch of the port scan.
pub open spec fn ports_progress(checked: int, total: int, found: int) -> ProgressView {
    ProgressView {
        phase: Phase::PortScan,
        current: checked,
        total,
        found_so_far: found,
        message: checked_message(checked, total),
    }
}

/// The closing event of a run.
pub open spec fn run_complete(found: int) -> ProgressView {
    ProgressView {
        phase: Phase::Complete,
        current: found,
        total: found,
        found_so_far: found,
        message: complete_message(found),
    }
}

impl DiscoveryProgress {
    /// The opening event of the ping sweep over `total` addresses.
    pub fn sweep_started(total: u32) -> (e: DiscoveryProgress)
        ensures
            e@ == sweep_started(total as int),
    {
        let mut m: Vec<char> = Vec::new();
        push_text(&mut m, "Scanning ");
        push_decimal(&mut m, total);
        push_text(&mut m, " addresses...");
        DiscoveryProgress {
            phase: Phase::PingSweep,
            current: 0,
            total,
            found_so_far: 0,
            message: string_of(m.as_slice()),
        }
    }

    /// The event after a batch of the ping sweep.
    pub fn sweep_progress(scanned: u32, total: u32, found: u32) -> (e: DiscoveryProgress)
        ensures
            e@ == sweep_progress(scanned as int, total as int, found as int),
    {
        let mut m: Vec<char> = Vec::new();
        push_text(&mut m, "Pinged ");
        push_decimal(&mut m, scanned);
        push_text(&mut m, "/");
        push_decimal(&mut m, total);
        push_text(&mut m, " — found ");
        push_decimal(&mut m, found);
        push_text(&mut m, " devices");
        DiscoveryProgress {
            phase: Phase::PingSweep,
            current: scanned,
            total,
            found_so_far: found,
            message: string_of(m.as_slice()),
        }
    }

    /// The event that marks the start of the ARP lookup.
    pub fn arp_started(found: u32) -> (e: DiscoveryProgress)
        ensures
            e@ == arp_started(found as int),
    {
        DiscoveryProgress {
            phase: Phase::ArpLookup,
            current: 0,
            total: found,
            found_so_far: found,
            message: "Reading ARP table...".to_owned(),
        }
    }

    /// The opening event of the hostname resolution.
    pub fn resolving_started(found: u32) -> (e: DiscoveryProgress)
        ensures
            e@ == resolving_started(found as int),
    {
        DiscoveryProgress {
            phase: Phase::HostnameResolution,
            current: 0,
            total: found,
            found_so_far: found,
            message: "Resolving hostnames...".to_owned(),
        }
    }

    /// The event after a batch of the hostname resolution.
    pub fn resolving_progress(resolved: u32, found: u32) -> (e: DiscoveryProgress)
        ensures
            e@ == resolving_progress(resolved as int, found as int),
    {
        let mut m: Vec<char> = Vec::new();
        push_text(&mut m, "Resolved ");
        push_decimal(&mut m, resolved);
        push_text(&mut m, "/");
        push_decimal(&mut m, found);
        push_text(&mut m, " hostnames");
        DiscoveryProgress {
            phase: Phase::HostnameResolution,
            current: resolved,
            total: found,
            found_so_far: found,
            message: string_of(m.as_slice()),
        }
    }

    /// The opening event of the port scan.
    pub fn ports_started(total: u32, found: u32) -> (e: DiscoveryProgress)
        ensures
            e@ == ports_started(total as int, found as int),
    {
        DiscoveryProgress {
            phase: Phase::PortScan,
            current: 0,
            total,
            found_so_far: found,
            message: "Scanning ports...".to_owned(),
        }
    }

    /// The event after a batch of the port scan.
    pub fn ports_progress(checked: u32, total: u32, found: u32) -> (e: DiscoveryProgress)
        ensures
            e@ == ports_progress(checked as int, total as int, found as int),
    {
        let mut m: Vec<char> = Vec::new();
        push_text(&mut m, "Checked ");
        push_decimal(&mut m, checked);
        push_text(&mut m, "/");
        push_decimal(&mut m, total);
        push_text(&mut m, " port combinations");
        DiscoveryProgress {
            phase: Phase::PortScan,
            current: checked,
            total,
            found_so_far: found,
            message: string_of(m.as_slice()),
        }
    }

    /// The closing event of a run that found `found` devices.
    pub fn run_complete(found: u32) -> (e: DiscoveryProgress)
        ensures
            e@ == run_complete(found as int),
    {
        let mut m: Vec<char> = Vec::new();
        push_text(&mut m, "Discovery complete — found ");
        push_decimal(&mut m, found);
        push_text(&mut m, " devices");
        DiscoveryProgress {
            phase: Phase::Complete,
            current: found,
            total: found,
            found_so_far: found,
            message: string_of(m.as_slice()),
        }
    }
}

} // verus!

//! A host-discovery engine. Given a subnet it lists the candidate addresses,
//! finds out which hosts are alive, and learns the MAC address, the vendor,
//! the host name and the open ports of each, reporting its progress on the
//! way.
//!
//! The library holds the logic and does no input or output. The caller runs
//! the system's tools and opens the sockets; the library says what to probe
//! next and makes sense of what came back.
//!
//! - `address`: addresses in dotted form and the host range of a subnet.
//! - `discovery`: the discovery run as a state machine, and what holds of it.
//! - `machine`: the executable state of a run.
//! - `outcome`: what a run comes to when every probe tells the truth.
//! - `probe`: reading the output of ping, ARP and name lookups.
//! - `vendor`: the table from MAC prefixes to vendors.
//! - `subnets`, `local_ips`: the subnets and addresses of this host.
//! - `device`, `progress`: the records of a run.
//! - `pattern`: regular expressions, by way of the `regex` crate.
//! - `text`, `number`: characters, lines, fields and decimal numbers.
pub mod address;
pub mod device;
pub mod discovery;
pub mod local_ips;
pub mod machine;
pub mod number;
pub mod outcome;
pub mod pattern;
pub mod probe;
pub mod progress;
pub mod subnets;
pub mod text;
pub mod vendor;

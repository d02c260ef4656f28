//! Finding the host's local IPv4 address and its public IP address in the
//! text that the system's network tools print.

mod address;
mod ipv6;
mod local;
mod output;
mod public;

pub use address::{IpAddr, Ipv4Addr, parse_ip_address, parse_ipv4};
pub use ipv6::{Ipv6Addr, parse_ipv6};
pub use local::{
    ADDRESS_GROUP, Platform, UNIX_PATTERN, WINDOWS_PATTERN, find_ip_by_regex, first_non_loopback,
    local_ip_from_output,
};
pub use output::IpError;
pub use public::public_ip_from_output;

//! How an interface is classified by its name.

use vstd::prelude::*;
use crate::text::{same_name, starts_with};

verus! {

/// The lane of an interface: what kind of link it is.
#[derive(Clone, Copy, PartialEq, Eq, Debug, Structural)]
pub enum Lane {
    /// A wired device.
    Physical,
    /// A wireless device.
    Wireless,
    /// A tunnel or point-to-point overlay.
    Tunnel,
    /// Anything else.
    Other,
}

/// The name begins like that of a tunnel or point-to-point interface.
pub open spec fn is_tunnel_name(name: Seq<char>) -> bool {
    "tun"@.is_prefix_of(name) || "wg"@.is_prefix_of(name) || "ppp"@.is_prefix_of(name)
}

/// The lane that a name stands for. The tunnel prefixes are looked for first,
/// so that `wg0` is a tunnel although it begins like a wireless device.
pub open spec fn lane_of(name: Seq<char>) -> Lane {
    if is_tunnel_name(name) {
        Lane::Tunnel
    } else if "w"@.is_prefix_of(name) {
        Lane::Wireless
    } else if "e"@.is_prefix_of(name) {
        Lane::Physical
    } else {
        Lane::Other
    }
}

/// The interface is never tracked: the loopback device, or a container or
/// bridge device, which its name begins like.
pub open spec fn is_untracked(name: Seq<char>) -> bool {
    name == "lo"@ || "docker"@.is_prefix_of(name) || "br-"@.is_prefix_of(name)
}

impl Lane {
    /// Classifies an interface by its name.
    pub fn of(name: &str) -> (lane: Lane)
        ensures
            lane == lane_of(name@),
    {
        if starts_with(name, "tun") || starts_with(name, "wg") || starts_with(name, "ppp") {
            Lane::Tunnel
        } else if starts_with(name, "w") {
            Lane::Wireless
        } else if starts_with(name, "e") {
            Lane::Physical
        } else {
            Lane::Other
        }
    }

    /// Whether the lane is that of an uplink, wired or wireless.
    pub fn is_uplink(&self) -> (uplink: bool)
        ensures
            uplink == (*self == Lane::Physical || *self == Lane::Wireless),
    {
        match self {
            Lane::Physical | Lane::Wireless => true,
            _ => false,
        }
    }
}

/// Whether an interface of this name is left out of tracking.
pub fn untracked(name: &str) -> (out: bool)
    ensures
        out == is_untracked(name@),
{
    same_name(name, "lo") || starts_with(name, "docker") || starts_with(name, "br-")
}

} // verus!

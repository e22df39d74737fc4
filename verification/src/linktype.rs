//! [`LinkType`]: which link-layer header a packet is assumed to start with.

use vstd::prelude::*;

verus! {

/// The link-layer framing a compiled program expects packets to start with.
///
/// `non_exhaustive`: there are dozens of link types, and adding one must not break a `match`.
#[non_exhaustive]
#[derive(Debug, Clone, Copy, PartialEq, Eq, Structural)]
pub enum LinkType {
    /// Standard 14-byte Ethernet II framing.
    Ethernet,
    /// Linux "cooked" capture framing (`LINKTYPE_LINUX_SLL`), as captured on the `any` interface.
    LinuxSll,
    /// No link-layer framing: the packet starts at the network-layer header.
    Raw,
}

/// Where the network-layer header starts and, if the link type carries several network-layer
/// protocols, where the field that tells them apart is.
#[derive(Debug, Clone, Copy, PartialEq, Eq, Structural)]
pub struct L3OffsetInfo {
    pub ip_base: u32,
    pub ethertype_offset: Option<u32>,
}

impl LinkType {
    /// The link type's number in the `LINKTYPE_*` registry.
    pub open spec fn number(self) -> u16 {
        match self {
            LinkType::Ethernet => 1,
            LinkType::Raw => 101,
            LinkType::LinuxSll => 113,
        }
    }

    /// The link type with a number, if there is one.
    pub open spec fn with_number(v: u16) -> Option<LinkType> {
        if v == 1 {
            Some(LinkType::Ethernet)
        } else if v == 101 {
            Some(LinkType::Raw)
        } else if v == 113 {
            Some(LinkType::LinuxSll)
        } else {
            None
        }
    }

    /// The offsets of the link type's header.
    pub open spec fn l3(self) -> L3OffsetInfo {
        match self {
            // 6 destination + 6 source + 2 ethertype
            LinkType::Ethernet => L3OffsetInfo { ip_base: 14, ethertype_offset: Some(12) },
            // 2 packet type + 2 ARPHRD_* + 2 address length + 8 address + 2 protocol type
            LinkType::LinuxSll => L3OffsetInfo { ip_base: 16, ethertype_offset: Some(14) },
            LinkType::Raw => L3OffsetInfo { ip_base: 0, ethertype_offset: None },
        }
    }

    /// The link type with a `LINKTYPE_*` number, the number in a pcap savefile's global header.
    pub fn from_dlt(v: u16) -> (link_type: Option<LinkType>)
        ensures
            link_type == LinkType::with_number(v),
            v == 1 ==> link_type == Some(LinkType::Ethernet),
            v == 101 ==> link_type == Some(LinkType::Raw),
            v == 113 ==> link_type == Some(LinkType::LinuxSll),
            v != 1 && v != 101 && v != 113 ==> link_type is None,
    {
        match v {
            1 => Some(LinkType::Ethernet),
            101 => Some(LinkType::Raw),
            113 => Some(LinkType::LinuxSll),
            _ => None,
        }
    }

    /// The inverse of [`LinkType::from_dlt`].
    pub fn to_dlt(self) -> (v: u16)
        ensures
            v == self.number(),
            self == LinkType::Ethernet <==> v == 1,
            self == LinkType::Raw <==> v == 101,
            self == LinkType::LinuxSll <==> v == 113,
    {
        match self {
            LinkType::Ethernet => 1,
            LinkType::Raw => 101,
            LinkType::LinuxSll => 113,
        }
    }

    /// The offsets of this link type's header.
    pub fn l3_offset_info(self) -> (info: L3OffsetInfo)
        ensures
            info == self.l3(),
            self == LinkType::Ethernet ==> info.ip_base == 14 && info.ethertype_offset == Some(
                12u32,
            ),
            self == LinkType::LinuxSll ==> info.ip_base == 16 && info.ethertype_offset == Some(
                14u32,
            ),
            self == LinkType::Raw ==> info.ip_base == 0 && info.ethertype_offset is None,
    {
        match self {
            LinkType::Ethernet => L3OffsetInfo { ip_base: 14, ethertype_offset: Some(12) },
            LinkType::LinuxSll => L3OffsetInfo { ip_base: 16, ethertype_offset: Some(14) },
            LinkType::Raw => L3OffsetInfo { ip_base: 0, ethertype_offset: None },
        }
    }
}

} // verus!

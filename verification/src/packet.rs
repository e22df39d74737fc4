//! What a fixed-width big-endian load reads from a packet.

use vstd::prelude::*;

verus! {

/// The byte at offset `at`, if the packet has it.
pub open spec fn byte_at(packet: Seq<u8>, at: int) -> Option<u32> {
    if 0 <= at < packet.len() {
        Some(packet[at] as u32)
    } else {
        None
    }
}

/// The big-endian half-word at offset `at`, if the packet has both of its bytes.
pub open spec fn half_at(packet: Seq<u8>, at: int) -> Option<u32> {
    if 0 <= at && at + 2 <= packet.len() {
        Some((packet[at] * 0x100 + packet[at + 1]) as u32)
    } else {
        None
    }
}

/// The big-endian word at offset `at`, if the packet has all four of its bytes.
pub open spec fn word_at(packet: Seq<u8>, at: int) -> Option<u32> {
    if 0 <= at && at + 4 <= packet.len() {
        Some(
            (packet[at] * 0x100_0000 + packet[at + 1] * 0x1_0000 + packet[at + 2] * 0x100
                + packet[at + 3]) as u32,
        )
    } else {
        None
    }
}

/// Reads the byte at `offset`.
pub fn read_u8(packet: &[u8], offset: usize) -> (value: Option<u32>)
    ensures
        value == byte_at(packet@, offset as int),
{
    if offset < packet.len() {
        Some(packet[offset] as u32)
    } else {
        None
    }
}

/// Reads the big-endian half-word at `offset`.
pub fn read_u16(packet: &[u8], offset: usize) -> (value: Option<u32>)
    ensures
        value == half_at(packet@, offset as int),
{
    let len: usize = packet.len();
    match offset.checked_add(2) {
        Some(end) if end <= len => {
            let high: u32 = packet[offset] as u32;
            let low: u32 = packet[offset + 1] as u32;
            Some(high * 0x100 + low)
        },
        _ => None,
    }
}

/// Reads the big-endian word at `offset`.
pub fn read_u32(packet: &[u8], offset: usize) -> (value: Option<u32>)
    ensures
        value == word_at(packet@, offset as int),
{
    let len: usize = packet.len();
    match offset.checked_add(4) {
        Some(end) if end <= len => {
            let b0: u32 = packet[offset] as u32;
            let b1: u32 = packet[offset + 1] as u32;
            let b2: u32 = packet[offset + 2] as u32;
            let b3: u32 = packet[offset + 3] as u32;
            Some(b0 * 0x100_0000 + b1 * 0x1_0000 + b2 * 0x100 + b3)
        },
        _ => None,
    }
}

} // verus!

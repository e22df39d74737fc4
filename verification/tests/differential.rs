//! Decisions on small packets, with the answer that `tcpdump` gives for each.

use cbpf_rs::{compile, LinkType, KEEP_WHOLE_PACKET};

fn assert_agrees(filter: &str, packet: &[u8], theirs: bool, label: &str) {
    let program = compile(filter, LinkType::Ethernet, KEEP_WHOLE_PACKET)
        .unwrap_or_else(|e| panic!("'{filter}' does not compile: {}", e.to_string()));
    let ours = program.matches(packet);
    assert_eq!(
        ours, theirs,
        "'{filter}' for packet '{label}': here {ours}, tcpdump {theirs}"
    );
}

/// A minimal Ethernet + IPv4 + TCP/UDP packet.
struct Pkt(Vec<u8>);

impl Pkt {
    fn new(ip_proto: u8) -> Self {
        let mut b = vec![0u8; 40];
        b[12] = 0x08;
        b[13] = 0x00; // ethertype IPv4
        b[14] = 0x45; // version 4, IHL 5 (20-byte header, no options)
        b[23] = ip_proto;
        Pkt(b)
    }

    fn src_addr(mut self, a: [u8; 4]) -> Self {
        self.0[26..30].copy_from_slice(&a);
        self
    }

    fn dst_addr(mut self, a: [u8; 4]) -> Self {
        self.0[30..34].copy_from_slice(&a);
        self
    }

    fn ports(mut self, src: u16, dst: u16) -> Self {
        self.0[34..36].copy_from_slice(&src.to_be_bytes());
        self.0[36..38].copy_from_slice(&dst.to_be_bytes());
        self
    }

    fn fragment_offset(mut self, units_of_8_bytes: u16) -> Self {
        self.0[20..22].copy_from_slice(&units_of_8_bytes.to_be_bytes());
        self
    }
}

const TCP: u8 = 6;
const UDP: u8 = 17;

#[test]
fn port_primitives_agree_with_tcpdump() {
    assert_agrees(
        "tcp port 80",
        &Pkt::new(TCP).ports(80, 4000).0,
        true,
        "src port 80",
    );
    assert_agrees(
        "tcp port 80",
        &Pkt::new(TCP).ports(4000, 80).0,
        true,
        "dst port 80",
    );
    assert_agrees(
        "tcp port 80",
        &Pkt::new(TCP).ports(4000, 4001).0,
        false,
        "neither port 80",
    );
    assert_agrees(
        "udp port 53",
        &Pkt::new(UDP).ports(53, 4000).0,
        true,
        "udp src port 53",
    );
    assert_agrees(
        "tcp src port 80",
        &Pkt::new(TCP).ports(4000, 80).0,
        false,
        "dst-only 80 shouldn't match src-qualified",
    );
}

#[test]
fn fragmented_packets_agree_with_tcpdump() {
    let pkt = Pkt::new(TCP).ports(80, 4000).fragment_offset(5).0;
    assert_agrees("tcp port 80", &pkt, false, "non-first fragment");
}

#[test]
fn host_and_net_primitives_agree_with_tcpdump() {
    assert_agrees(
        "ip host 10.0.0.1",
        &Pkt::new(TCP).src_addr([10, 0, 0, 1]).0,
        true,
        "as src",
    );
    assert_agrees(
        "ip host 10.0.0.1",
        &Pkt::new(TCP).dst_addr([10, 0, 0, 1]).0,
        true,
        "as dst",
    );
    assert_agrees(
        "ip host 10.0.0.1",
        &Pkt::new(TCP).src_addr([9, 9, 9, 9]).0,
        false,
        "no match",
    );
    assert_agrees(
        "net 10.0.0.0/8",
        &Pkt::new(TCP).src_addr([10, 250, 1, 2]).0,
        true,
        "inside /8",
    );
    assert_agrees(
        "net 10.0.0.0/8",
        &Pkt::new(TCP).src_addr([11, 0, 0, 1]).0,
        false,
        "outside /8",
    );
}

#[test]
fn portrange_agrees_with_tcpdump() {
    assert_agrees(
        "portrange 8000-8008",
        &Pkt::new(TCP).ports(8004, 1).0,
        true,
        "inside range",
    );
    assert_agrees(
        "portrange 8000-8008",
        &Pkt::new(TCP).ports(7999, 1).0,
        false,
        "just below range",
    );
    assert_agrees(
        "portrange 8000-8008",
        &Pkt::new(TCP).ports(8009, 1).0,
        false,
        "just above range",
    );
}

#[test]
fn boolean_connectives_agree_with_tcpdump() {
    let filter = "(tcp port 80 or tcp port 443) and not net 10.0.0.0/8";
    assert_agrees(
        filter,
        &Pkt::new(TCP).src_addr([192, 168, 1, 1]).ports(80, 4000).0,
        true,
        "matches",
    );
    assert_agrees(
        filter,
        &Pkt::new(TCP).src_addr([10, 1, 2, 3]).ports(80, 4000).0,
        false,
        "excluded by net",
    );
    assert_agrees(
        filter,
        &Pkt::new(TCP).src_addr([192, 168, 1, 1]).ports(22, 4000).0,
        false,
        "wrong port",
    );
}

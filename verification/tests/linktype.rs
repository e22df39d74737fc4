//! Link types.

use cbpf_rs::LinkType;

#[test]
fn dlt_roundtrips() {
    for lt in [LinkType::Ethernet, LinkType::LinuxSll, LinkType::Raw] {
        assert_eq!(LinkType::from_dlt(lt.to_dlt()), Some(lt));
    }
}

#[test]
fn unknown_dlt_is_none() {
    assert_eq!(LinkType::from_dlt(0xffff), None);
}

#[test]
fn ethernet_has_an_ethertype_field() {
    assert!(
        LinkType::Ethernet
            .l3_offset_info()
            .ethertype_offset
            .is_some()
    );
}

use ztdns::membership::{desired_from_listing, MemberEntry};
use ztdns::model::{AddressPool, DnsRecord, Member};
use ztdns::zone::{actual_from_zone, record_label, ZoneEntry};

fn entry(name: &str, address: Option<u32>, handle: &str) -> ZoneEntry {
    ZoneEntry { name: name.to_string(), address, handle: handle.to_string() }
}

#[test]
fn label_strips_zone_suffix() {
    let zone = "example.com".to_string();
    assert_eq!(record_label(&"host1.example.com".to_string(), &zone), Some("host1".to_string()));
    assert_eq!(record_label(&"a.b.example.com".to_string(), &zone), Some("a.b".to_string()));
}

#[test]
fn apex_has_no_label() {
    let zone = "example.com".to_string();
    assert_eq!(record_label(&"example.com".to_string(), &zone), None);
}

#[test]
fn names_outside_zone_have_no_label() {
    let zone = "example.com".to_string();
    assert_eq!(record_label(&"host1.example.org".to_string(), &zone), None);
    assert_eq!(record_label(&"xexample.com".to_string(), &zone), None);
    assert_eq!(record_label(&"com".to_string(), &zone), None);
}

#[test]
fn zone_listing_keeps_labelled_a_records() {
    let zone = "example.com".to_string();
    let entries = vec![
        entry("example.com", Some(1), "apex"),
        entry("host1.example.com", Some(5), "h1"),
        entry("mail.example.com", None, "mx"),
        entry("stray.example.org", Some(6), "h9"),
        entry("host2.example.com", Some(7), "h2"),
        entry("host1.example.com", Some(8), "h3"),
    ];
    let actual = actual_from_zone(&entries, &zone);
    assert_eq!(
        actual.records,
        vec![
            DnsRecord { label: "host1".to_string(), address: 8, handle: "h3".to_string() },
            DnsRecord { label: "host2".to_string(), address: 7, handle: "h2".to_string() },
        ]
    );
}

#[test]
fn empty_zone_listing() {
    let actual = actual_from_zone(&vec![], &"example.com".to_string());
    assert!(actual.records.is_empty());
}

#[test]
fn listing_uses_first_address_and_last_entry() {
    let entries = vec![
        MemberEntry { name: "a".to_string(), addresses: vec![10, 11] },
        MemberEntry { name: "b".to_string(), addresses: vec![20] },
        MemberEntry { name: "none".to_string(), addresses: vec![] },
        MemberEntry { name: "a".to_string(), addresses: vec![12] },
    ];
    let pools = vec![AddressPool { range_start: 1, range_end: 100 }];
    let desired = desired_from_listing(&entries, pools.clone());
    assert_eq!(
        desired.members,
        vec![
            Member { name: "a".to_string(), address: 12 },
            Member { name: "b".to_string(), address: 20 },
        ]
    );
    assert_eq!(desired.pools, pools);
}

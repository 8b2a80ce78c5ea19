use nexus::fix::dict::{admin_header_fields, AdminHeader};
use nexus::platform::MapHints;

#[test]
fn admin_header_field_order() {
    let hdr = AdminHeader { seq: 12, sender: b"US", target: b"THEM", ts: b"TS" };
    let fields = admin_header_fields(&hdr);
    let tags: Vec<u32> = fields.iter().map(|(t, _)| *t).collect();
    assert_eq!(tags, vec![34, 49, 56, 52]);
    assert_eq!(fields[0].1, b"12");
    assert_eq!(fields[1].1, b"US");
    assert_eq!(fields[2].1, b"THEM");
    assert_eq!(fields[3].1, b"TS");
}

#[test]
fn map_hints_default_off() {
    let h = MapHints::default();
    assert!(!h.pretouch);
    assert!(!h.huge_pages);
}

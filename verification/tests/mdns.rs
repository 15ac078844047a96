use norn_rs::mdns::{
    choose_address, host_name, hostname_label, instance_name, service_to_dial, service_uri,
    SERVICE_TYPE, TXT_PUB_KEY, TXT_VERSION,
};

#[test]
fn hostname_label_is_dns_safe() {
    let h = hostname_label("my host.example-1");
    assert_eq!(h, "myhostexample-1");
    assert!(!h.is_empty(), "must return a non-empty label");
    assert!(h.chars().all(|c| c.is_ascii_alphanumeric() || c == '-'),
        "every char must be alphanumeric or '-': {h}");
}

#[test]
fn service_type_is_well_formed() {
    assert!(SERVICE_TYPE.starts_with('_'));
    assert!(SERVICE_TYPE.contains("._tcp."));
    assert!(SERVICE_TYPE.ends_with('.'));
}

#[test]
fn txt_keys_are_short_ascii() {
    for k in [TXT_PUB_KEY, TXT_VERSION] {
        assert!(k.is_ascii());
        assert!(k.len() <= 9, "TXT key '{}' too long ({})", k, k.len());
    }
}

#[test]
fn labels_fall_back_to_a_name() {
    assert_eq!(hostname_label(""), "norn");
    assert_eq!(hostname_label("äö ."), "norn");
}

#[test]
fn services_are_dialled_unless_known() {
    let own = "aa".repeat(32);
    let other = "Bb".repeat(32);
    let key = [0xBBu8; 32];
    assert_eq!(service_to_dial(Some(other.as_str()), &own, &vec![]), Some(key));
    assert_eq!(service_to_dial(Some(other.as_str()), &own, &vec![[1u8; 32], key]), None);
    assert_eq!(service_to_dial(Some(own.as_str()), &own, &vec![]), None);
    assert_eq!(service_to_dial(Some("bb"), &own, &vec![]), None);
    assert_eq!(service_to_dial(Some("no hex"), &own, &vec![]), None);
    assert_eq!(service_to_dial(None, &own, &vec![]), None);
}

#[test]
fn version_six_addresses_come_first() {
    assert_eq!(choose_address(&vec![]), None);
    assert_eq!(choose_address(&vec![false, false]), Some(0));
    assert_eq!(choose_address(&vec![false, true, true]), Some(1));
    assert_eq!(service_uri("fe80::1", true, 5), "tcp://[fe80::1]:5");
    assert_eq!(service_uri("10.0.0.1", false, 5), "tcp://10.0.0.1:5");
    assert_eq!(instance_name(&"ab".repeat(32)), "norn-abababab");
    assert_eq!(host_name("x"), "x.local.");
}

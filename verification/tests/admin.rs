//! Requests to a node.

use norn_rs::admin::{
    dispatch, parse_hex_key, request_text, routes, self_info, AdminStep, KeyTextError,
};
use norn_rs::conn::PacketConn;
use norn_rs::state::CoordEntry;

#[test]
fn requests_to_a_node() {
    assert!(matches!(dispatch("getSelf", None), AdminStep::GetSelf));
    assert!(matches!(dispatch("getPeers", None), AdminStep::GetPeers));
    assert!(matches!(dispatch("getRoutes", None), AdminStep::GetRoutes));
    match dispatch("addPeer", Some("tcp://a:1".to_string())) {
        AdminStep::AddPeer(uri) => assert_eq!(uri, "tcp://a:1"),
        other => panic!("{other:?}"),
    }
    match dispatch("addPeer", None) {
        AdminStep::Error(e) => assert_eq!(e, "missing \"uri\" field"),
        other => panic!("{other:?}"),
    }
    match dispatch("getselF", None) {
        AdminStep::Error(e) => assert_eq!(e, "unknown method: \"getselF\""),
        other => panic!("{other:?}"),
    }
    assert_eq!(request_text("  {} \r\n"), Some("{}"));
    assert_eq!(request_text(" \t"), None);
}

#[test]
fn a_node_tells_who_it_is() {
    let c = PacketConn::new([7u8; 32], [0u8; 16], 1_700_000_000_000);
    let info = self_info(&c, 1_000, 5_500);
    assert_eq!(info.uptime_us, 4_500);
    assert_eq!(info.pub_key, hex::encode(c.state.pub_key));
    assert_eq!(info.peer_count, 0);
    assert_eq!(info.address.unwrap()[0], 0x02);
}

#[test]
fn a_node_tells_which_coordinates_it_knows() {
    let mut c = PacketConn::new([7u8; 32], [1u8; 16], 1_700_000_000_000);
    c.state.coord_table.push(CoordEntry { key: [9u8; 32], coord: [2u8; 16] });
    let known = routes(&c);
    assert_eq!(known.len(), 2);
    assert_eq!(known[0].pub_key, hex::encode(c.state.pub_key));
    assert_eq!(known[0].coord, [1u8; 16]);
    assert_eq!((known[1].pub_key.as_str(), known[1].coord), ("09".repeat(32).as_str(), [2u8; 16]));
}

#[test]
fn keys_are_read_from_text() {
    assert_eq!(parse_hex_key(&format!(" {}\n", "0A".repeat(32))), Ok([10u8; 32]));
    let e = parse_hex_key("zz").unwrap_err();
    assert_eq!(e, KeyTextError::NotHex);
    assert_eq!(e.to_string(), "public key must be hex");
    let e = parse_hex_key("0011").unwrap_err();
    assert_eq!(e.to_string(), "public key must decode to 32 bytes, got 2");
}

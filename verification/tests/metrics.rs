use norn_rs::conn::PacketConn;
use norn_rs::metrics::{http_response, render, Counters, PeerRow, Snapshot};

const NOW_MS: u64 = 1_700_000_000_000;

fn snapshot(conn: &PacketConn, uptime_us: u64) -> Snapshot {
    let row = |stats| PeerRow {
        stats,
        loss: "0.2500".into(),
        trust: "1.0000".into(),
        uptime: "0.000".into(),
    };
    Snapshot {
        pub_key: conn.state.pub_key,
        uptime: format!("{:.3}", uptime_us as f64 / 1e6),
        peers: conn
            .get_peer_stats(0)
            .into_iter()
            .map(row)
            .collect(),
        counters: Counters {
            mutex_poison: 0,
            control_sent: 1,
            control_suppressed: 2,
            parent_changes: 3,
            no_route: 4,
            transit_greedy: 5,
            transit_cuckoo: 6,
            tx_bytes: vec![("TRAFFIC".into(), 7)],
        },
        trees: conn.get_tree_state(),
    }
}

fn conn() -> PacketConn {
    PacketConn::new([5u8; 32], [0u8; 16], NOW_MS)
}

#[test]
fn render_contains_required_help_and_type() {
    let body = render(&snapshot(&conn(), 0));
    assert!(
        body.contains("# HELP norn_uptime_seconds"),
        "exposition must include HELP for norn_uptime_seconds"
    );
    assert!(body.contains("# TYPE norn_uptime_seconds gauge"));
    assert!(body.contains("# HELP norn_peers_total"));
    assert!(body.contains("# TYPE norn_peers_total gauge"));
}

#[test]
fn render_uptime_is_nonnegative_and_grows() {
    let body = render(&snapshot(&conn(), 60_000_000));
    let line = body
        .lines()
        .find(|l| l.starts_with("norn_uptime_seconds "))
        .expect("uptime line present");
    let val: f64 = line.split_whitespace().nth(1).unwrap().parse().unwrap();
    assert!(val >= 60.0, "uptime must reflect a start 60s ago; got {}", val);
    assert_eq!(line, "norn_uptime_seconds 60.000");
}

#[test]
fn render_exposes_tree_state_for_all_k_trees() {
    let body = render(&snapshot(&conn(), 0));
    assert!(body.contains("# TYPE norn_tree_root gauge"));
    assert!(body.contains("# TYPE norn_tree_depth gauge"));
    for t in 0..3 {
        assert!(
            body.contains(&format!("norn_tree_depth{{tree=\"{}\"}}", t)),
            "must expose depth for tree {}",
            t,
        );
        assert!(
            body.contains(&format!("norn_tree_root{{tree=\"{}\",root=", t)),
            "must expose root for tree {}",
            t,
        );
    }
}

#[test]
fn render_exposes_self_pub_key() {
    let c = conn();
    let body = render(&snapshot(&c, 0));
    assert!(body.contains("# TYPE norn_self_pub_key gauge"));
    assert!(body.contains("norn_self_pub_key{pub_key=\""));
    assert!(body.contains(&hex::encode(c.state.pub_key)));
}

#[test]
fn render_exposes_mutex_poison_counter() {
    let body = render(&snapshot(&conn(), 0));
    assert!(
        body.contains("# TYPE norn_mutex_poison_total counter"),
        "mutex poison counter must be exposed as a Prometheus counter"
    );
    assert!(
        body.contains("norn_mutex_poison_total "),
        "counter sample line must be present"
    );
}

#[test]
fn render_no_peers_is_well_formed() {
    let body = render(&snapshot(&conn(), 0));
    assert!(body.contains("norn_peers_total 0"), "0 peers must render as norn_peers_total 0");
    assert!(body.contains("# TYPE norn_peer_rx_bytes_total counter"));
    assert!(!body.contains("norn_peer_rx_bytes_total{"));
}

#[test]
fn neighbours_have_their_samples() {
    let mut c = conn();
    c.state.add_peer([0xABu8; 32], 1, 0, 0);
    c.record_kernel_link_stats(&[0xABu8; 32], 1_002_003);
    let mut s = snapshot(&c, 0);
    s.peers[0].uptime = "1.234".to_string();
    s.trees[1].parent = Some([1u8; 32]);
    s.trees[1].is_root = false;
    let body = render(&s);
    let key = "ab".repeat(32);
    for line in [
        format!("norn_peer_lag_seconds{{peer=\"{key}\"}} 1.002003"),
        format!("norn_peer_jitter_seconds{{peer=\"{key}\"}} 0.000000"),
        format!("norn_peer_loss_rate{{peer=\"{key}\"}} 0.2500"),
        format!("norn_peer_trust{{peer=\"{key}\"}} 1.0000"),
        format!("norn_peer_uptime_seconds{{peer=\"{key}\"}} 1.234"),
        "norn_tx_bytes_by_type{type=\"TRAFFIC\"} 7".to_string(),
        "norn_transit_cuckoo_total 6".to_string(),
        format!("norn_tree_parent{{tree=\"1\",parent=\"{}\"}} 1", "01".repeat(32)),
        "norn_tree_is_root{tree=\"1\"} 0".to_string(),
    ] {
        assert!(body.lines().any(|l| l == line), "{line} missing in:\n{body}");
    }
    assert!(!body.contains("norn_tree_parent{tree=\"0\""));
}

#[test]
fn http_endpoint_serves_exposition() {
    let resp = http_response("ä\n");
    assert_eq!(
        resp,
        "HTTP/1.1 200 OK\r\nContent-Type: text/plain; version=0.0.4\r\n\
         Content-Length: 3\r\nConnection: close\r\n\r\nä\n"
    );
    let resp = http_response(&render(&snapshot(&conn(), 0)));
    assert!(resp.starts_with("HTTP/1.1 200"));
    assert!(resp.contains("# TYPE norn_uptime_seconds gauge"));
}

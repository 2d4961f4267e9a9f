use quantum_torrent::network::{
    bind_ip_available, bind_monitor_step, fallback_notice, listen_plan, plan_bind, rebind_failed_notice, BindAction,
};
use quantum_torrent::status::{session_status, SessionSnapshot};
use quantum_torrent::units::Units;

fn snap(listen: Option<u16>, dht: Option<usize>, peers: usize, incoming: u64, uptime: u64) -> SessionSnapshot {
    SessionSnapshot {
        listen_port: listen,
        dht_nodes: dht,
        peers,
        incoming,
        uptime_seconds: uptime,
        down_speed: "1.0 MiB/s".to_string(),
        up_speed: "0 B/s".to_string(),
        fetched_bytes: 1536,
        uploaded_bytes: 0,
    }
}

#[test]
fn online_when_reachable() {
    let st = session_status(&snap(Some(6881), Some(100), 3, 2, 400), Units::Binary, None, None, (Some(5), None)).unwrap();
    assert_eq!(st.state, "online");
    assert_eq!(st.detail, "Online. Listening on port 6881 · 100 DHT nodes · 3 peers · 2 incoming connections");
    assert_eq!(st.downloaded, "1.5 KiB");
    assert_eq!(st.uploaded, "0 B");
    assert_eq!(st.down_speed, "1.0 MiB/s");
    assert_eq!(st.notice, None);
    assert_eq!(st.down_limit, Some(5));
    assert_eq!(st.up_limit, None);
    assert_eq!(st.listen_port, Some(6881));
}

#[test]
fn firewalled_after_grace_without_incoming() {
    let st = session_status(&snap(Some(6881), None, 3, 0, 300), Units::Binary, None, None, (None, None)).unwrap();
    assert_eq!(st.state, "firewalled");
    assert_eq!(
        st.detail,
        "Firewalled — this is fine, just slower. Nothing has reached port 6881 from outside, so you only connect outward. Downloads work normally; you just reach fewer of the swarm (never other firewalled peers), and seeding is limited. Forwarding port 6881 would speed things up."
    );
    let early = session_status(&snap(Some(6881), None, 3, 0, 299), Units::Binary, None, None, (None, None)).unwrap();
    assert_eq!(early.state, "online");
    assert_eq!(early.detail, "Online. Listening on port 6881 · DHT disabled · 3 peers · 0 incoming connections");
}

#[test]
fn firewalled_without_a_listening_port() {
    let st = session_status(&snap(None, Some(7), 0, 0, 10), Units::Binary, None, None, (None, None)).unwrap();
    assert_eq!(st.state, "firewalled");
    assert_eq!(
        st.detail,
        "Firewalled — this is fine, just slower. Not listening for incoming connections, so you only connect outward. 7 DHT nodes · 0 peers."
    );
}

#[test]
fn connecting_then_offline_without_peers() {
    let st = session_status(&snap(Some(1), Some(0), 0, 0, 59), Units::Binary, None, None, (None, None)).unwrap();
    assert_eq!(st.state, "connecting");
    assert_eq!(st.detail, "Connecting — bootstrapping DHT and looking for peers.");
    let st = session_status(&snap(Some(1), Some(0), 0, 0, 60), Units::Binary, None, None, (None, None)).unwrap();
    assert_eq!(st.state, "offline");
    assert_eq!(st.detail, "Offline. No DHT nodes and no connected peers — check your network connection.");
}

#[test]
fn lost_interface_overrides_everything() {
    let s = snap(Some(6881), Some(100), 3, 2, 400);
    let st = session_status(&s, Units::Binary, Some("n".to_string()), Some(5), (None, None)).unwrap();
    assert_eq!(st.state, "connecting");
    assert_eq!(st.detail, "The bound network interface just dropped. Waiting 20s for it to come back                  before giving up.");
    assert_eq!(st.notice, None);
    let st = session_status(&s, Units::Binary, None, Some(25), (None, None)).unwrap();
    assert_eq!(st.state, "offline");
    assert_eq!(st.detail, "The bound network interface is gone — is the VPN connected? Nothing is sent              while it's missing.");
    assert_eq!(
        st.notice.as_deref(),
        Some("The bound network interface is gone — is the VPN connected? Nothing is sent                  while it's missing.")
    );
}

#[test]
fn standing_notice_keeps_offline() {
    let st = session_status(&snap(Some(6881), Some(100), 3, 2, 400), Units::Decimal, Some("VPN down".to_string()), None, (None, None))
        .unwrap();
    assert_eq!(st.state, "offline");
    assert_eq!(st.detail, "VPN down");
    assert_eq!(st.notice.as_deref(), Some("VPN down"));
    assert_eq!(st.downloaded, "1.5 KB");
}

#[test]
fn listening_ports() {
    let p = listen_plan(Some(51413), true, true);
    assert_eq!(p.ports, Some((51413, 51414)));
    assert!(p.upnp);
    assert_eq!(listen_plan(Some(65535), false, true).ports, Some((65535, 65535)));
    assert_eq!(listen_plan(None, true, true).ports, Some((6881, 6891)));
    let off = listen_plan(None, true, false);
    assert_eq!(off.ports, None);
    assert!(!off.upnp);
}

#[test]
fn bind_address_availability() {
    let ifs = vec!["192.168.1.5".to_string(), "10.8.0.2".to_string()];
    assert!(bind_ip_available("10.8.0.2", false, &ifs));
    assert!(!bind_ip_available("10.8.0.3", false, &ifs));
    assert!(bind_ip_available("127.0.0.1", true, &vec![]));
}

#[test]
fn missing_address_fails_closed() {
    let p = plan_bind(Some("10.8.0.2".to_string()), false);
    assert_eq!(p.bind_ip.as_deref(), Some("127.0.0.1"));
    assert_eq!(
        p.notice.as_deref(),
        Some("Set to bind to 10.8.0.2, but no interface has that address right now — is the VPN connected? Networking stays off until it returns.")
    );
    let p = plan_bind(Some("10.8.0.2".to_string()), true);
    assert_eq!(p.bind_ip.as_deref(), Some("10.8.0.2"));
    assert_eq!(p.notice, None);
    let p = plan_bind(None, false);
    assert_eq!(p.bind_ip, None);
    assert_eq!(p.notice, None);
}

#[test]
fn bind_monitor_ticks() {
    assert_eq!(bind_monitor_step(false, false, true, true), BindAction::ClearLost);
    assert_eq!(bind_monitor_step(true, true, true, false), BindAction::Rebind);
    assert_eq!(bind_monitor_step(true, true, false, true), BindAction::Rebind);
    assert_eq!(bind_monitor_step(true, true, false, false), BindAction::Wait);
    assert_eq!(bind_monitor_step(true, false, false, false), BindAction::MarkLost);
    assert_eq!(bind_monitor_step(true, false, true, false), BindAction::Wait);
}

#[test]
fn network_notices() {
    assert_eq!(rebind_failed_notice("10.8.0.2", "address in use"), "Could not rebind to 10.8.0.2: address in use");
    assert_eq!(
        fallback_notice("bad port"),
        "Could not start with your network settings (bad port). Running with defaults — check Network settings."
    );
}

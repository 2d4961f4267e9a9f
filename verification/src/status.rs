//! What the status bar says about the session's connectivity.
use vstd::prelude::*;
use crate::text;
use crate::text::push_decimal;
use crate::units;
use crate::units::{format_size, Units};

verus! {

/// Seconds with no inbound connection before a listening session counts as firewalled.
pub const FIREWALL_GRACE_SECS: u64 = 300;

/// Seconds a fresh session may spend looking for peers before it counts as offline.
pub const CONNECTING_GRACE_SECS: u64 = 60;

/// Seconds a vanished bound interface is waited for before the session counts as offline.
pub const BIND_DROPOUT_GRACE_SECS: u64 = 25;

/// The engine's counters at one moment, as the status bar reads them.
#[derive(Clone, Debug)]
pub struct SessionSnapshot {
    pub listen_port: Option<u16>,
    /// Size of the DHT routing table; `None` when DHT is off.
    pub dht_nodes: Option<usize>,
    pub peers: usize,
    pub incoming: u64,
    pub uptime_seconds: u64,
    /// Transfer rates, already rendered for display.
    pub down_speed: String,
    pub up_speed: String,
    pub fetched_bytes: u64,
    pub uploaded_bytes: u64,
}

/// The status bar's content.
#[derive(Clone, Debug)]
pub struct SessionStatus {
    pub state: String,
    pub detail: String,
    pub listen_port: Option<u16>,
    pub dht_nodes: Option<usize>,
    pub peers: usize,
    pub incoming: u64,
    pub down_speed: String,
    pub up_speed: String,
    pub downloaded: String,
    pub uploaded: String,
    pub notice: Option<String>,
    pub down_limit: Option<u32>,
    pub up_limit: Option<u32>,
}

/// "N DHT nodes", or "DHT disabled".
pub open spec fn dht_description(dht_nodes: Option<usize>) -> Seq<char> {
    match dht_nodes {
        Some(n) => text::decimal(n as nat) + " DHT nodes"@,
        None => "DHT disabled"@,
    }
}

/// Shown while a vanished bound interface is still being waited for.
pub open spec fn dropout_detail(secs_left: nat) -> Seq<char> {
    "The bound network interface just dropped. Waiting "@ + text::decimal(secs_left)
        + "s for it to come back                  before giving up."@
}

/// A listening session that nothing has reached from outside.
pub open spec fn firewalled_detail(port: u16) -> Seq<char> {
    "Firewalled — this is fine, just slower. Nothing has reached port "@ + text::decimal(port as nat)
        + " from outside, so you only connect outward. Downloads work normally; you just reach fewer of the swarm (never other firewalled peers), and seeding is limited. Forwarding port "@
        + text::decimal(port as nat) + " would speed things up."@
}

/// A listening, connected session.
pub open spec fn online_detail(port: u16, dht_nodes: Option<usize>, peers: nat, incoming: nat) -> Seq<char> {
    "Online. Listening on port "@ + text::decimal(port as nat) + " · "@ + dht_description(dht_nodes)
        + " · "@ + text::decimal(peers) + " peers · "@ + text::decimal(incoming)
        + " incoming connections"@
}

/// A connected session with no listening port.
pub open spec fn unlistened_detail(dht_nodes: Option<usize>, peers: nat) -> Seq<char> {
    "Firewalled — this is fine, just slower. Not listening for incoming connections, so you only connect outward. "@
        + dht_description(dht_nodes) + " · "@ + text::decimal(peers) + " peers."@
}

/// Some DHT node or some peer is known.
pub open spec fn is_connected(dht_nodes: Option<usize>, peers: nat) -> bool {
    (match dht_nodes {
        Some(n) => n > 0,
        None => false,
    }) || peers > 0
}

/// State word and explanation when nothing blocks the session.
pub open spec fn health(snap: SessionSnapshot) -> (Seq<char>, Seq<char>) {
    if !is_connected(snap.dht_nodes, snap.peers as nat) {
        if snap.uptime_seconds < CONNECTING_GRACE_SECS {
            ("connecting"@, "Connecting — bootstrapping DHT and looking for peers."@)
        } else {
            ("offline"@, "Offline. No DHT nodes and no connected peers — check your network connection."@)
        }
    } else {
        match snap.listen_port {
            Some(port) => if snap.incoming == 0 && snap.uptime_seconds >= FIREWALL_GRACE_SECS {
                ("firewalled"@, firewalled_detail(port))
            } else {
                ("online"@, online_detail(port, snap.dht_nodes, snap.peers as nat, snap.incoming as nat))
            },
            None => ("firewalled"@, unlistened_detail(snap.dht_nodes, snap.peers as nat)),
        }
    }
}

/// State word, explanation and banner notice. A lost bound interface comes
/// first, then a standing notice, then the session's own health.
pub open spec fn verdict(snap: SessionSnapshot, notice: Option<Seq<char>>, bind_lost_secs: Option<u64>) -> (
    Seq<char>,
    Seq<char>,
    Option<Seq<char>>,
) {
    match bind_lost_secs {
        Some(secs) => if secs < BIND_DROPOUT_GRACE_SECS {
            ("connecting"@, dropout_detail((BIND_DROPOUT_GRACE_SECS - secs) as nat), None)
        } else {
            (
                "offline"@,
                "The bound network interface is gone — is the VPN connected? Nothing is sent              while it's missing."@,
                Some(
                    "The bound network interface is gone — is the VPN connected? Nothing is sent                  while it's missing."@,
                ),
            )
        },
        None => match notice {
            Some(n) => ("offline"@, n, Some(n)),
            None => (health(snap).0, health(snap).1, None),
        },
    }
}

/// While the bound interface is missing, the session never reads as online
/// or firewalled, whatever the counters and any standing notice say: it is
/// connecting during the grace period, offline after it, and the banner
/// speaks up once the grace period is over.
pub proof fn law_lost_interface_first(snap: SessionSnapshot, notice: Option<Seq<char>>, secs: u64)
    ensures
        ({
            let v = verdict(snap, notice, Some(secs));
            &&& v.0 != "online"@
            &&& v.0 != "firewalled"@
            &&& (secs < BIND_DROPOUT_GRACE_SECS ==> v.0 == "connecting"@ && v.2 is None)
            &&& (secs >= BIND_DROPOUT_GRACE_SECS ==> v.0 == "offline"@ && v.2 is Some)
        }),
{
    reveal_strlit("online");
    reveal_strlit("firewalled");
    reveal_strlit("connecting");
    reveal_strlit("offline");
    assert("connecting"@[0] != "online"@[0]);
    assert("connecting"@[0] != "firewalled"@[0]);
    assert("offline"@[1] != "online"@[1]);
    assert("offline"@[0] != "firewalled"@[0]);
}

/// A standing notice (such as a missing bound address at start-up) keeps
/// the session offline and is shown both as the explanation and in the
/// banner.
pub proof fn law_notice_blocks(snap: SessionSnapshot, n: Seq<char>)
    ensures
        verdict(snap, Some(n), None) == ("offline"@, n, Some(n)),
{
}

/// Appends the DHT description.
fn push_dht_description(out: &mut String, dht_nodes: Option<usize>)
    ensures
        final(out)@ == old(out)@ + dht_description(dht_nodes),
{
    match dht_nodes {
        Some(n) => {
            push_decimal(out, n as u128);
            out.append(" DHT nodes");
        },
        None => {
            out.append("DHT disabled");
        },
    }
}

fn online_text(port: u16, dht_nodes: Option<usize>, peers: usize, incoming: u64) -> (r: String)
    ensures
        r@ == online_detail(port, dht_nodes, peers as nat, incoming as nat),
{
    let mut d = String::new();
    d.append("Online. Listening on port ");
    push_decimal(&mut d, port as u128);
    d.append(" · ");
    push_dht_description(&mut d, dht_nodes);
    d.append(" · ");
    push_decimal(&mut d, peers as u128);
    d.append(" peers · ");
    push_decimal(&mut d, incoming as u128);
    d.append(" incoming connections");
    assert(d@ =~= online_detail(port, dht_nodes, peers as nat, incoming as nat));
    d
}

fn firewalled_text(port: u16) -> (r: String)
    ensures
        r@ == firewalled_detail(port),
{
    let mut d = String::new();
    d.append("Firewalled — this is fine, just slower. Nothing has reached port ");
    push_decimal(&mut d, port as u128);
    d.append(
        " from outside, so you only connect outward. Downloads work normally; you just reach fewer of the swarm (never other firewalled peers), and seeding is limited. Forwarding port ",
    );
    push_decimal(&mut d, port as u128);
    d.append(" would speed things up.");
    assert(d@ =~= firewalled_detail(port));
    d
}

fn unlistened_text(dht_nodes: Option<usize>, peers: usize) -> (r: String)
    ensures
        r@ == unlistened_detail(dht_nodes, peers as nat),
{
    let mut d = String::new();
    d.append(
        "Firewalled — this is fine, just slower. Not listening for incoming connections, so you only connect outward. ",
    );
    push_dht_description(&mut d, dht_nodes);
    d.append(" · ");
    push_decimal(&mut d, peers as u128);
    d.append(" peers.");
    assert(d@ =~= unlistened_detail(dht_nodes, peers as nat));
    d
}

fn health_text(snap: &SessionSnapshot) -> (r: (String, String))
    ensures
        r.0@ == health(*snap).0,
        r.1@ == health(*snap).1,
{
    let connected = match snap.dht_nodes {
        Some(n) => n > 0,
        None => false,
    } || snap.peers > 0;
    if !connected {
        if snap.uptime_seconds < CONNECTING_GRACE_SECS {
            (
                String::from_str("connecting"),
                String::from_str("Connecting — bootstrapping DHT and looking for peers."),
            )
        } else {
            (
                String::from_str("offline"),
                String::from_str("Offline. No DHT nodes and no connected peers — check your network connection."),
            )
        }
    } else {
        match snap.listen_port {
            Some(port) => if snap.incoming == 0 && snap.uptime_seconds >= FIREWALL_GRACE_SECS {
                (String::from_str("firewalled"), firewalled_text(port))
            } else {
                (String::from_str("online"), online_text(port, snap.dht_nodes, snap.peers, snap.incoming))
            },
            None => (String::from_str("firewalled"), unlistened_text(snap.dht_nodes, snap.peers)),
        }
    }
}

fn dropout_text(secs_left: u64) -> (r: String)
    ensures
        r@ == dropout_detail(secs_left as nat),
{
    let mut d = String::new();
    d.append("The bound network interface just dropped. Waiting ");
    push_decimal(&mut d, secs_left as u128);
    d.append("s for it to come back                  before giving up.");
    assert(d@ =~= dropout_detail(secs_left as nat));
    d
}

/// All fields of `st` are those the status bar shows for this snapshot.
pub open spec fn status_shows(
    st: SessionStatus,
    snap: SessionSnapshot,
    units: Units,
    notice: Option<Seq<char>>,
    bind_lost_secs: Option<u64>,
    limits: (Option<u32>, Option<u32>),
) -> bool {
    let v = verdict(snap, notice, bind_lost_secs);
    &&& st.state@ == v.0
    &&& st.detail@ == v.1
    &&& text::opt_text(st.notice) == v.2
    &&& st.listen_port == snap.listen_port
    &&& st.dht_nodes == snap.dht_nodes
    &&& st.peers == snap.peers
    &&& st.incoming == snap.incoming
    &&& st.down_speed@ == snap.down_speed@
    &&& st.up_speed@ == snap.up_speed@
    &&& st.downloaded@ == units::size_text(snap.fetched_bytes as nat, units)
    &&& st.uploaded@ == units::size_text(snap.uploaded_bytes as nat, units)
    &&& st.down_limit == limits.0
    &&& st.up_limit == limits.1
}

/// Builds the status bar for a snapshot of the session, the standing notice
/// (if any), how long the bound interface has been gone (if it is), and the
/// active rate limits. It always succeeds.
pub fn session_status(
    snap: &SessionSnapshot,
    units: Units,
    notice: Option<String>,
    bind_lost_secs: Option<u64>,
    limits: (Option<u32>, Option<u32>),
) -> (r: Result<SessionStatus, String>)
    ensures
        (match r {
            Ok(st) => status_shows(st, *snap, units, text::opt_text(notice), bind_lost_secs, limits),
            Err(_) => false,
        }),
{
    let (state, detail, bar): (String, String, Option<String>) = match bind_lost_secs {
        Some(secs) => if secs < BIND_DROPOUT_GRACE_SECS {
            (String::from_str("connecting"), dropout_text(BIND_DROPOUT_GRACE_SECS - secs), None)
        } else {
            (
                String::from_str("offline"),
                String::from_str(
                    "The bound network interface is gone — is the VPN connected? Nothing is sent              while it's missing.",
                ),
                Some(
                    String::from_str(
                        "The bound network interface is gone — is the VPN connected? Nothing is sent                  while it's missing.",
                    ),
                ),
            )
        },
        None => match notice {
            Some(n) => {
                let d = n.clone();
                (String::from_str("offline"), d, Some(n))
            },
            None => {
                let (s, d) = health_text(snap);
                (s, d, None)
            },
        },
    };
    let down_speed = snap.down_speed.clone();
    let up_speed = snap.up_speed.clone();
    let downloaded = format_size(snap.fetched_bytes, units);
    let uploaded = format_size(snap.uploaded_bytes, units);
    Ok(
        SessionStatus {
            state,
            detail,
            listen_port: snap.listen_port,
            dht_nodes: snap.dht_nodes,
            peers: snap.peers,
            incoming: snap.incoming,
            down_speed,
            up_speed,
            downloaded,
            uploaded,
            notice: bar,
            down_limit: limits.0,
            up_limit: limits.1,
        },
    )
}


/// With nothing blocking the session (no lost interface, no standing
/// notice), a session with no DHT node and no connected peer is connecting
/// during its first `CONNECTING_GRACE_SECS` and offline after, whatever its
/// listen port; online and firewalled both need a DHT node or a peer, and
/// online needs a listen port.
pub proof fn law_unconnected_is_connecting_or_offline(snap: SessionSnapshot)
    ensures
        ({
            let v = verdict(snap, None, None);
            let reached = (snap.dht_nodes matches Some(n) && n > 0) || snap.peers > 0;
            &&& !reached && snap.uptime_seconds < CONNECTING_GRACE_SECS ==> v.0 == "connecting"@
            &&& !reached && snap.uptime_seconds >= CONNECTING_GRACE_SECS ==> v.0 == "offline"@ && v.1
                == "Offline. No DHT nodes and no connected peers — check your network connection."@
            &&& (v.0 == "online"@ || v.0 == "firewalled"@) ==> reached
            &&& v.0 == "online"@ ==> snap.listen_port is Some
        }),
{
    reveal_strlit("connecting");
    reveal_strlit("offline");
    reveal_strlit("online");
    reveal_strlit("firewalled");
    assert("connecting"@[0] == 'c' && "firewalled"@[0] == 'f');
    assert("connecting"@.len() == 10 && "online"@.len() == 6);
    assert("offline"@.len() == 7 && "firewalled"@.len() == 10);
    assert("connecting"@ != "online"@ && "connecting"@ != "firewalled"@);
    assert("offline"@ != "online"@ && "offline"@ != "firewalled"@);
    let reached = (snap.dht_nodes matches Some(n) && n > 0) || snap.peers > 0;
    assert(reached == is_connected(snap.dht_nodes, snap.peers as nat));
    assert(verdict(snap, None, None).0 == health(snap).0);
}

} // verus!

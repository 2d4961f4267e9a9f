//! Binding the engine to one network interface, and failing closed when that
//! interface is missing.
use vstd::prelude::*;
use crate::text::string_eq_str;

verus! {

/// Listening ports tried when no port is configured: 6881 up to, not
/// including, 6891.
pub const LISTEN_PORT_FIRST: u16 = 6881;

pub const LISTEN_PORT_END: u16 = 6891;

/// Where the engine binds when the configured address is missing.
pub open spec fn loopback_text() -> Seq<char> {
    "127.0.0.1"@
}

/// The ports to listen on, as a half-open range, and whether UPnP port
/// forwarding is asked for. Nothing of either when the session does not
/// listen.
#[derive(Clone, Debug)]
pub struct ListenPlan {
    pub ports: Option<(u16, u16)>,
    pub upnp: bool,
}

/// The listening side of the engine's options.
pub fn listen_plan(listen_port: Option<u16>, upnp: bool, listen: bool) -> (r: ListenPlan)
    ensures
        r.upnp == (listen && upnp),
        !listen ==> r.ports is None,
        listen ==> r.ports == Some(
            match listen_port {
                Some(p) => (p, if p == u16::MAX { p } else { (p + 1) as u16 }),
                None => (LISTEN_PORT_FIRST, LISTEN_PORT_END),
            },
        ),
{
    let ports = if listen {
        Some(
            match listen_port {
                Some(p) => (p, p.saturating_add(1)),
                None => (LISTEN_PORT_FIRST, LISTEN_PORT_END),
            },
        )
    } else {
        None
    };
    ListenPlan { ports, upnp: listen && upnp }
}

/// Whether the address is there to bind to: loopback and unspecified
/// addresses always are, any other only while some interface carries it.
/// Addresses are compared in their canonical text form.
pub fn bind_ip_available(ip: &str, loopback_or_unspecified: bool, interface_ips: &Vec<String>) -> (r: bool)
    ensures
        r == (loopback_or_unspecified || exists|i: int| 0 <= i < interface_ips.len() && (#[trigger] interface_ips@[i])@ == ip@),
{
    if loopback_or_unspecified {
        return true;
    }
    let mut i: usize = 0;
    while i < interface_ips.len()
        invariant
            i <= interface_ips.len(),
            forall|j: int| 0 <= j < i ==> (#[trigger] interface_ips@[j])@ != ip@,
        decreases interface_ips.len() - i,
    {
        if string_eq_str(&interface_ips[i], ip) {
            return true;
        }
        i = i + 1;
    }
    false
}

/// The notice shown while the configured address is missing.
pub open spec fn unbound_notice(ip: Seq<char>) -> Seq<char> {
    "Set to bind to "@ + ip
        + ", but no interface has that address right now — is the VPN connected? Networking stays off until it returns."@
}

/// The address the engine is started on, and the notice that goes with it.
#[derive(Clone, Debug)]
pub struct BindPlan {
    pub bind_ip: Option<String>,
    pub notice: Option<String>,
}

/// Fails closed: when the configured address is missing, binds to loopback
/// instead of to every interface, and says why. `bind_ip` is the configured
/// address when it parses.
pub fn plan_bind(bind_ip: Option<String>, available: bool) -> (r: BindPlan)
    ensures
        bind_ip is None ==> r.bind_ip is None && r.notice is None,
        bind_ip is Some && available ==> r.bind_ip == bind_ip && r.notice is None,
        bind_ip is Some && !available ==> r.bind_ip is Some && r.bind_ip->0@ == loopback_text()
            && r.notice is Some && r.notice->0@ == unbound_notice(bind_ip->0@),
{
    match bind_ip {
        None => BindPlan { bind_ip: None, notice: None },
        Some(ip) => if available {
            BindPlan { bind_ip: Some(ip), notice: None }
        } else {
            let mut n = String::new();
            n.append("Set to bind to ");
            n.append(ip.as_str());
            n.append(
                ", but no interface has that address right now — is the VPN connected? Networking stays off until it returns.",
            );
            assert(n@ =~= unbound_notice(ip@));
            BindPlan { bind_ip: Some(String::from_str("127.0.0.1")), notice: Some(n) }
        },
    }
}

/// What the bind monitor does on one tick.
#[derive(PartialEq, Eq, Structural, Debug, Clone, Copy)]
pub enum BindAction {
    /// No address is configured: forget any loss.
    ClearLost,
    /// The address is back (or a notice stands): rebuild the session on it.
    Rebind,
    /// The address just vanished: remember since when.
    MarkLost,
    /// Nothing changed.
    Wait,
}

/// One tick of the bind monitor, from whether an address is configured,
/// whether it is available now, whether it was already lost, and whether a
/// notice is standing.
pub fn bind_monitor_step(configured: bool, available: bool, was_lost: bool, blocked: bool) -> (r: BindAction)
    ensures
        r == (if !configured {
            BindAction::ClearLost
        } else if available && (was_lost || blocked) {
            BindAction::Rebind
        } else if !available && !was_lost {
            BindAction::MarkLost
        } else {
            BindAction::Wait
        }),
{
    if !configured {
        BindAction::ClearLost
    } else if available && (was_lost || blocked) {
        BindAction::Rebind
    } else if !available && !was_lost {
        BindAction::MarkLost
    } else {
        BindAction::Wait
    }
}

/// The notice left when rebuilding on a returned address failed.
pub fn rebind_failed_notice(ip: &str, error: &str) -> (r: String)
    ensures
        r@ == "Could not rebind to "@ + ip@ + ": "@ + error@,
{
    let mut n = String::new();
    n.append("Could not rebind to ");
    n.append(ip);
    n.append(": ");
    n.append(error);
    n
}

/// The notice left when the session came up on default settings because the
/// configured ones failed.
pub fn fallback_notice(error: &str) -> (r: String)
    ensures
        r@ == "Could not start with your network settings ("@ + error@
            + "). Running with defaults — check Network settings."@,
{
    let mut n = String::new();
    n.append("Could not start with your network settings (");
    n.append(error);
    n.append("). Running with defaults — check Network settings.");
    n
}

} // verus!

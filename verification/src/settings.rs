//! The user's settings: defaults, validation, rate limits, and which changes
//! need the engine rebuilt.
use vstd::prelude::*;
use crate::units::Units;
use crate::text::string_eq_str;
use crate::search::strings_view;
use crate::calendar;
use crate::calendar::epoch_to_date;

verus! {

/// The theme used when none is configured.
pub fn default_theme() -> (r: String)
    ensures
        r@ == "default"@,
{
    String::from_str("default")
}

/// The settings the library decides on. (The seeding ratio limit, a float,
/// is kept by the application beside these.)
#[derive(Clone, Debug)]
pub struct Settings {
    pub listen_port: Option<u16>,
    pub bind_ip: Option<String>,
    pub upnp: bool,
    pub units: Units,
    pub geoip_path: Option<String>,
    /// KiB/s; `None` or 0 means unlimited.
    pub download_limit: Option<u32>,
    pub upload_limit: Option<u32>,
    pub disabled_plugins: Vec<String>,
    pub compact: bool,
    pub theme: String,
    /// Minutes of seeding after which a torrent is paused; `None` or 0 means never.
    pub seed_time_limit: Option<u32>,
    /// Downloads allowed to run at once; `None` or 0 means no limit.
    pub max_active_downloads: Option<u32>,
    pub minimize_to_tray: bool,
}

impl Default for Settings {
    fn default() -> (r: Self)
        ensures
            r.listen_port is None,
            r.bind_ip is None,
            r.upnp,
            r.units == Units::Binary,
            r.geoip_path is None,
            r.download_limit is None,
            r.upload_limit is None,
            r.disabled_plugins@.len() == 0,
            !r.compact,
            r.theme@ == "default"@,
            r.seed_time_limit is None,
            r.max_active_downloads is None,
            !r.minimize_to_tray,
    {
        Settings {
            listen_port: None,
            bind_ip: None,
            upnp: true,
            units: Units::Binary,
            geoip_path: None,
            download_limit: None,
            upload_limit: None,
            disabled_plugins: Vec::new(),
            compact: false,
            theme: default_theme(),
            seed_time_limit: None,
            max_active_downloads: None,
            minimize_to_tray: false,
        }
    }
}

/// A limit in KiB/s as bytes per second: `None` for no limit (absent or 0),
/// saturating at `u32::MAX`.
pub open spec fn kib_to_bps_spec(kib: Option<u32>) -> Option<u32> {
    match kib {
        Some(v) => if v == 0 {
            None
        } else if v * 1024 > u32::MAX {
            Some(u32::MAX)
        } else {
            Some((v * 1024) as u32)
        },
        None => None,
    }
}

/// Converts a KiB/s limit to the engine's bytes per second; the result, when
/// there is one, is never 0.
pub fn kib_to_bps(kib: Option<u32>) -> (r: Option<u32>)
    ensures
        r == kib_to_bps_spec(kib),
        r matches Some(v) ==> v > 0,
{
    match kib {
        Some(v) => if v == 0 {
            None
        } else if v > u32::MAX / 1024 {
            Some(u32::MAX)
        } else {
            Some(v * 1024)
        },
        None => None,
    }
}

/// Rate limits in bytes per second, as the engine takes them.
#[derive(Clone, Debug)]
pub struct RateLimits {
    pub download_bps: Option<u32>,
    pub upload_bps: Option<u32>,
}

/// A limit that is set and not 0.
pub open spec fn active_limit(v: Option<u32>) -> Option<u32> {
    match v {
        Some(x) => if x > 0 { Some(x) } else { None },
        None => None,
    }
}

impl Settings {
    /// The engine's rate limits for these settings.
    pub fn limits(&self) -> (r: RateLimits)
        ensures
            r.download_bps == kib_to_bps_spec(self.download_limit),
            r.upload_bps == kib_to_bps_spec(self.upload_limit),
    {
        RateLimits { download_bps: kib_to_bps(self.download_limit), upload_bps: kib_to_bps(self.upload_limit) }
    }

    /// The limits in KiB/s that are in force, for display.
    pub fn active_limits(&self) -> (r: (Option<u32>, Option<u32>))
        ensures
            r.0 == active_limit(self.download_limit),
            r.1 == active_limit(self.upload_limit),
    {
        let d = match self.download_limit {
            Some(x) => if x > 0 { Some(x) } else { None },
            None => None,
        };
        let u = match self.upload_limit {
            Some(x) => if x > 0 { Some(x) } else { None },
            None => None,
        };
        (d, u)
    }

    /// Whether going from `self` to `other` needs a new engine: the port,
    /// bound address or UPnP changed. (Rate limits are applied live.)
    pub fn network_differs(&self, other: &Settings) -> (r: bool)
        ensures
            r == network_differs_spec(*self, *other),
    {
        self.listen_port != other.listen_port || !same_opt_string(&self.bind_ip, &other.bind_ip)
            || self.upnp != other.upnp
    }
}

/// The port, bound address or UPnP differ.
pub open spec fn network_differs_spec(a: Settings, b: Settings) -> bool {
    a.listen_port != b.listen_port || crate::text::opt_text(a.bind_ip) != crate::text::opt_text(b.bind_ip)
        || a.upnp != b.upnp
}

impl Settings {
    /// Whether going from `self` to `other` loads another GeoIP database: the
    /// configured path changed.
    pub fn geoip_differs(&self, other: &Settings) -> (r: bool)
        ensures
            r == (crate::text::opt_text(self.geoip_path) != crate::text::opt_text(other.geoip_path)),
    {
        !same_opt_string(&self.geoip_path, &other.geoip_path)
    }
}

/// Whether closing the window keeps the app running in the tray: it is not
/// quitting, and the user asked to minimize to the tray.
pub fn keeps_running_on_close(quitting: bool, minimize_to_tray: bool) -> (r: bool)
    ensures
        r == (!quitting && minimize_to_tray),
{
    !quitting && minimize_to_tray
}

/// A new engine is needed exactly when the listen port, the bound address or
/// the UPnP setting changes: any change of port (6881 to 51413 as much as
/// none to some) rebuilds it.
pub proof fn law_network_change_rebuilds(a: Settings, b: Settings)
    ensures
        network_differs_spec(a, b) <==> (a.listen_port != b.listen_port || crate::text::opt_text(a.bind_ip)
            != crate::text::opt_text(b.bind_ip) || a.upnp != b.upnp),
        a.listen_port != b.listen_port ==> network_differs_spec(a, b),
{
}

/// Changing only rate limits (or anything else but the port, the bound
/// address and UPnP) never restarts the engine; the limits are applied
/// live.
pub proof fn law_limits_apply_live(a: Settings, b: Settings)
    requires
        a.listen_port == b.listen_port,
        crate::text::opt_text(a.bind_ip) == crate::text::opt_text(b.bind_ip),
        a.upnp == b.upnp,
    ensures
        !network_differs_spec(a, b),
{
}

/// Whether two optional strings are both absent or have the same text.
pub fn same_opt_string(a: &Option<String>, b: &Option<String>) -> (r: bool)
    ensures
        r == (crate::text::opt_text(*a) == crate::text::opt_text(*b)),
{
    match (a, b) {
        (Some(x), Some(y)) => string_eq_str(x, y.as_str()),
        (None, None) => true,
        _ => false,
    }
}

/// Why new settings are refused, if they are: a bound address that does not
/// parse as an IP address (`bind_ip_parses` says whether it does), or port 0.
pub open spec fn settings_error(s: Settings, bind_ip_parses: bool) -> Option<Seq<char>> {
    match s.bind_ip {
        Some(ip) if !bind_ip_parses => Some("'"@ + ip@ + "' is not a valid IP address."@),
        _ => if s.listen_port == Some(0u16) {
            Some("Port 0 means 'any port' — leave it on automatic instead."@)
        } else {
            None
        },
    }
}

/// Checks new settings before they are applied.
pub fn validate_settings(s: &Settings, bind_ip_parses: bool) -> (r: Result<(), String>)
    ensures
        r is Ok <==> settings_error(*s, bind_ip_parses) is None,
        r matches Err(e) ==> Some(e@) == settings_error(*s, bind_ip_parses),
{
    if let Some(ip) = &s.bind_ip {
        if !bind_ip_parses {
            let mut e = String::new();
            e.append("'");
            e.append(ip.as_str());
            e.append("' is not a valid IP address.");
            return Err(e);
        }
    }
    if s.listen_port == Some(0u16) {
        return Err(String::from_str("Port 0 means 'any port' — leave it on automatic instead."));
    }
    Ok(())
}

/// Which country database to open: the configured one, else the bundled one;
/// and whether that is the bundled one.
pub fn geoip_source(configured: Option<String>, bundled: Option<String>) -> (r: (Option<String>, bool))
    ensures
        r.1 == configured is None,
        r.0 == (if configured is Some { configured } else { bundled }),
{
    match configured {
        Some(p) => (Some(p), false),
        None => (bundled, true),
    }
}

/// Which country database is active, and the attribution its licence
/// (CC BY 4.0) asks for.
#[derive(Clone, Debug)]
pub struct GeoipStatus {
    pub loaded: bool,
    pub bundled: bool,
    pub path: Option<String>,
    pub attribution: Option<String>,
    /// From the database's own metadata.
    pub database_type: Option<String>,
    pub built: Option<String>,
}

/// The credit line for the bundled DB-IP database.
pub open spec fn dbip_attribution() -> Seq<char> {
    "IP geolocation by DB-IP (db-ip.com), CC BY 4.0"@
}

/// The country database's status, from whether the bundled one is in use,
/// the configured and bundled paths, and the open database's type and
/// build time (seconds since the epoch), if one is open.
pub fn geoip_status(
    bundled: bool,
    configured_path: Option<String>,
    bundled_path: Option<String>,
    metadata: Option<(String, u64)>,
) -> (r: GeoipStatus)
    ensures
        r.loaded == metadata is Some,
        r.bundled == bundled,
        r.path == (if bundled { bundled_path } else { configured_path }),
        (r.loaded && bundled) ==> (r.attribution matches Some(a) && a@ == dbip_attribution()),
        !(r.loaded && bundled) ==> r.attribution is None,
        metadata is None ==> r.database_type is None && r.built is None,
        metadata matches Some((t, epoch)) ==> (r.database_type matches Some(d) && d@ == t@) && (r.built matches Some(
            b,
        ) && b@ == calendar::date_text(calendar::civil_date((epoch / 86400) as nat))),
{
    let loaded = metadata.is_some();
    let path = if bundled { bundled_path } else { configured_path };
    let attribution = if loaded && bundled {
        Some(String::from_str("IP geolocation by DB-IP (db-ip.com), CC BY 4.0"))
    } else {
        None
    };
    let (database_type, built) = match metadata {
        Some((t, epoch)) => (Some(t), Some(epoch_to_date(epoch))),
        None => (None, None),
    };
    GeoipStatus { loaded, bundled, path, attribution, database_type, built }
}

/// The error when new network settings failed and the previous ones could
/// not be restored either.
pub fn restore_failed_error(error: &str, restore_error: &str) -> (r: String)
    ensures
        r@ == error@ + "\n\nCould not restore previous settings: "@ + restore_error@,
{
    let mut e = String::new();
    e.append(error);
    e.append("\n\nCould not restore previous settings: ");
    e.append(restore_error);
    e
}

/// Whether `v` holds `id`.
pub open spec fn lists(v: Seq<String>, id: Seq<char>) -> bool {
    exists|i: int| 0 <= i < v.len() && (#[trigger] v[i])@ == id
}

/// `v` without the entries equal to `id`, in order.
pub open spec fn without(v: Seq<String>, id: Seq<char>) -> Seq<String>
    decreases v.len(),
{
    if v.len() == 0 {
        v
    } else {
        let rest = without(v.drop_last(), id);
        if v.last()@ == id {
            rest
        } else {
            rest.push(v.last())
        }
    }
}

proof fn lemma_without_excludes(v: Seq<String>, id: Seq<char>)
    ensures
        !lists(without(v, id), id),
    decreases v.len(),
{
    if v.len() > 0 {
        lemma_without_excludes(v.drop_last(), id);
        let rest = without(v.drop_last(), id);
        if v.last()@ != id {
            assert forall|k: int| 0 <= k < rest.len() + 1 implies (#[trigger] rest.push(v.last())[k])@ != id by {
                if k < rest.len() {
                    assert(rest.push(v.last())[k] == rest[k]);
                }
            }
        }
    }
}

/// `ids` without the entries equal to `id`, in order.
pub open spec fn drop_id(ids: Seq<Seq<char>>, id: Seq<char>) -> Seq<Seq<char>>
    decreases ids.len(),
{
    if ids.len() == 0 {
        ids
    } else {
        let rest = drop_id(ids.drop_last(), id);
        if ids.last() == id {
            rest
        } else {
            rest.push(ids.last())
        }
    }
}

/// The disabled ids after a source is enabled or disabled: `id` leaves the
/// list, and comes back at the end when it is disabled.
pub open spec fn disabled_ids_after(ids: Seq<Seq<char>>, id: Seq<char>, enabled: bool) -> Seq<Seq<char>> {
    if enabled {
        drop_id(ids, id)
    } else {
        drop_id(ids, id).push(id)
    }
}

proof fn lemma_drop_id_views(v: Seq<String>, id: Seq<char>)
    ensures
        strings_view(without(v, id)) == drop_id(strings_view(v), id),
    decreases v.len(),
{
    if v.len() > 0 {
        lemma_drop_id_views(v.drop_last(), id);
        assert(strings_view(v).drop_last() =~= strings_view(v.drop_last()));
        let rest = without(v.drop_last(), id);
        assert(strings_view(rest.push(v.last())) =~= strings_view(rest).push(v.last()@));
    }
}

/// No id dropped from a list is left in it.
pub proof fn lemma_drop_id_excludes(ids: Seq<Seq<char>>, id: Seq<char>)
    ensures
        !drop_id(ids, id).contains(id),
    decreases ids.len(),
{
    if ids.len() > 0 {
        lemma_drop_id_excludes(ids.drop_last(), id);
        let rest = drop_id(ids.drop_last(), id);
        if ids.last() != id {
            assert forall|k: int| 0 <= k < rest.len() + 1 implies rest.push(ids.last())[k] != id by {
                if k < rest.len() {
                    assert(rest.push(ids.last())[k] == rest[k]);
                }
            }
        }
    }
}

proof fn lemma_drop_id_absent(ids: Seq<Seq<char>>, id: Seq<char>)
    requires
        !ids.contains(id),
    ensures
        drop_id(ids, id) == ids,
    decreases ids.len(),
{
    if ids.len() > 0 {
        assert(!ids.drop_last().contains(id)) by {
            if ids.drop_last().contains(id) {
                let k = choose|k: int| 0 <= k < ids.drop_last().len() && ids.drop_last()[k] == id;
                assert(ids[k] == id);
            }
        }
        lemma_drop_id_absent(ids.drop_last(), id);
        assert(ids.last() == ids[ids.len() - 1]);
        assert(ids.drop_last().push(ids.last()) =~= ids);
    }
}

/// Enabling or disabling a source twice leaves the list as once does: the
/// disabled ids after the second call are those after the first.
pub proof fn law_set_plugin_disabled_idempotent(ids: Seq<Seq<char>>, id: Seq<char>, enabled: bool)
    ensures
        disabled_ids_after(disabled_ids_after(ids, id, enabled), id, enabled) == disabled_ids_after(ids, id, enabled),
{
    let once = drop_id(ids, id);
    lemma_drop_id_excludes(ids, id);
    lemma_drop_id_absent(once, id);
    if !enabled {
        let pushed = once.push(id);
        assert(pushed.drop_last() =~= once);
        assert(pushed.last() == id);
        assert(drop_id(pushed, id) == drop_id(once, id));
    }
}

/// Enables or disables a search source by id: afterwards `id` is on the
/// disabled list exactly when `enabled` is false; every other entry stays,
/// in order, and a disabled `id` comes last.
pub fn set_plugin_disabled(disabled: &mut Vec<String>, id: &str, enabled: bool)
    ensures
        lists(final(disabled)@, id@) == !enabled,
        enabled ==> final(disabled)@ == without(old(disabled)@, id@),
        !enabled ==> final(disabled)@.len() == without(old(disabled)@, id@).len() + 1
            && final(disabled)@.drop_last() == without(old(disabled)@, id@)
            && final(disabled)@.last()@ == id@,
        strings_view(final(disabled)@) == disabled_ids_after(strings_view(old(disabled)@), id@, enabled),
{
    let ghost start = old(disabled)@;
    let mut kept: Vec<String> = Vec::new();
    let mut i: usize = 0;
    while i < disabled.len()
        invariant
            i <= disabled@.len(),
            disabled@ == start,
            kept@ == without(start.take(i as int), id@),
        decreases disabled@.len() - i,
    {
        assert(start.take(i + 1 as int).drop_last() =~= start.take(i as int));
        assert(start.take(i + 1 as int).last() == start[i as int]);
        if !string_eq_str(&disabled[i], id) {
            kept.push(disabled[i].clone());
        }
        i = i + 1;
    }
    assert(start.take(start.len() as int) =~= start);
    let ghost kept_seq = kept@;
    proof {
        lemma_without_excludes(start, id@);
    }
    if !enabled {
        kept.push(String::from_str(id));
        assert(kept@.drop_last() =~= kept_seq);
        assert(kept@[kept_seq.len() as int]@ == id@);
    }
    proof {
        lemma_drop_id_views(start, id@);
        assert(strings_view(kept@) =~= disabled_ids_after(strings_view(start), id@, enabled));
    }
    *disabled = kept;
}

} // verus!

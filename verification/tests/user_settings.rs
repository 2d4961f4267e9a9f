use quantum_torrent::settings::{
    default_theme, geoip_source, geoip_status, kib_to_bps, restore_failed_error, set_plugin_disabled, validate_settings,
    Settings,
};
use quantum_torrent::units::Units;

#[test]
fn defaults() {
    let s = Settings::default();
    assert_eq!(default_theme(), "default");
    assert_eq!(s.theme, "default");
    assert!(s.upnp);
    assert_eq!(s.units, Units::Binary);
    assert_eq!(s.listen_port, None);
    assert!(s.disabled_plugins.is_empty());
    assert!(!s.minimize_to_tray);
}

#[test]
fn limits_in_bytes_per_second() {
    assert_eq!(kib_to_bps(None), None);
    assert_eq!(kib_to_bps(Some(0)), None);
    assert_eq!(kib_to_bps(Some(1)), Some(1024));
    assert_eq!(kib_to_bps(Some(4_194_303)), Some(4_294_966_272));
    assert_eq!(kib_to_bps(Some(4_194_304)), Some(u32::MAX));
    let s = Settings { download_limit: Some(100), upload_limit: Some(0), ..Settings::default() };
    let l = s.limits();
    assert_eq!(l.download_bps, Some(102_400));
    assert_eq!(l.upload_bps, None);
    assert_eq!(s.active_limits(), (Some(100), None));
}

#[test]
fn only_network_changes_rebuild() {
    let a = Settings::default();
    let b = Settings { download_limit: Some(5), theme: "dark".to_string(), ..Settings::default() };
    assert!(!a.network_differs(&b));
    let c = Settings { bind_ip: Some("10.0.0.1".to_string()), ..Settings::default() };
    assert!(a.network_differs(&c));
    let d = Settings { upnp: false, ..Settings::default() };
    assert!(a.network_differs(&d));
    let e = Settings { listen_port: Some(1), ..Settings::default() };
    assert!(a.network_differs(&e));
}

#[test]
fn settings_validation() {
    let bad_ip = Settings { bind_ip: Some("nope".to_string()), ..Settings::default() };
    assert_eq!(validate_settings(&bad_ip, false).unwrap_err(), "'nope' is not a valid IP address.");
    let port0 = Settings { listen_port: Some(0), ..Settings::default() };
    assert_eq!(validate_settings(&port0, true).unwrap_err(), "Port 0 means 'any port' — leave it on automatic instead.");
    assert!(validate_settings(&Settings::default(), false).is_ok());
    let ok = Settings { bind_ip: Some("10.0.0.1".to_string()), listen_port: Some(6881), ..Settings::default() };
    assert!(validate_settings(&ok, true).is_ok());
}

#[test]
fn toggling_search_sources() {
    let mut d = vec!["a".to_string(), "b".to_string(), "a".to_string()];
    set_plugin_disabled(&mut d, "a", true);
    assert_eq!(d, vec!["b".to_string()]);
    set_plugin_disabled(&mut d, "c", false);
    assert_eq!(d, vec!["b".to_string(), "c".to_string()]);
    set_plugin_disabled(&mut d, "b", false);
    assert_eq!(d, vec!["c".to_string(), "b".to_string()]);
}

#[test]
fn country_database_status() {
    assert_eq!(geoip_source(Some("/x.mmdb".to_string()), Some("/b.mmdb".to_string())), (Some("/x.mmdb".to_string()), false));
    assert_eq!(geoip_source(None, Some("/b.mmdb".to_string())), (Some("/b.mmdb".to_string()), true));
    let st = geoip_status(true, None, Some("/b.mmdb".to_string()), Some(("DBIP-Country-Lite".to_string(), 1_709_164_800)));
    assert!(st.loaded);
    assert_eq!(st.path.as_deref(), Some("/b.mmdb"));
    assert_eq!(st.attribution.as_deref(), Some("IP geolocation by DB-IP (db-ip.com), CC BY 4.0"));
    assert_eq!(st.database_type.as_deref(), Some("DBIP-Country-Lite"));
    assert_eq!(st.built.as_deref(), Some("2024-02-29"));
    let own = geoip_status(false, Some("/x.mmdb".to_string()), Some("/b.mmdb".to_string()), None);
    assert!(!own.loaded);
    assert_eq!(own.path.as_deref(), Some("/x.mmdb"));
    assert_eq!(own.attribution, None);
    assert_eq!(own.built, None);
}

#[test]
fn failed_restore_keeps_both_errors() {
    assert_eq!(restore_failed_error("port busy", "still busy"), "port busy\n\nCould not restore previous settings: still busy");
}

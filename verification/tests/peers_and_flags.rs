use quantum_torrent::peers::{client_name, client_peer_id, client_version, iso_to_flag, parse_u8};

fn hex(bytes: &[u8]) -> String {
    bytes.iter().map(|b| format!("{b:02x}")).collect()
}

#[test]
fn flags_from_country_codes() {
    assert_eq!(iso_to_flag("us").as_deref(), Some("\u{1F1FA}\u{1F1F8}"));
    assert_eq!(iso_to_flag("US").as_deref(), Some("\u{1F1FA}\u{1F1F8}"));
    assert_eq!(iso_to_flag("De").as_deref(), Some("\u{1F1E9}\u{1F1EA}"));
    assert_eq!(iso_to_flag("u1"), None);
    assert_eq!(iso_to_flag("usa"), None);
    assert_eq!(iso_to_flag(""), None);
}

#[test]
fn client_names_of_azureus_ids() {
    let q = hex(b"-qB4650-abcdefghijkl");
    assert_eq!(client_name(Some(&q)), "qBittorrent 4.6.5");
    let q = hex(b"-qB4600-abcdefghijkl");
    assert_eq!(client_name(Some(&q)), "qBittorrent 4.6");
    let t = hex(b"-TR2940-abcdefghijkl");
    assert_eq!(client_name(Some(&t)), "Transmission 2.9.4");
    let o = hex(b"-XY1000-abcdefghijkl");
    assert_eq!(client_name(Some(&o)), "XY 1.0");
    let upper = hex(b"-DE13F0-abcdefghijkl").to_uppercase();
    assert_eq!(client_name(Some(&upper)), "Deluge 1.3.12");
}

#[test]
fn client_names_of_other_ids() {
    assert_eq!(client_name(None), "-");
    assert_eq!(client_name(Some(&"zz".to_string())), "-");
    let shadow = hex(b"S58B----abcdefghijkl");
    assert_eq!(client_name(Some(&shadow)), "S58B----");
    let random = hex(&[0u8; 20]);
    assert_eq!(client_name(Some(&random)), "Unknown");
}

#[test]
fn version_components() {
    assert_eq!(parse_u8("0"), 0);
    assert_eq!(parse_u8("12"), 12);
    assert_eq!(parse_u8("300"), 255);
    assert_eq!(parse_u8(""), 0);
    assert_eq!(client_version("0", "1", "0"), (0, 1, 0, 0));
}

#[test]
fn peer_ids_carry_the_client_fingerprint() {
    let id = client_peer_id((0, 1, 0, 0));
    assert_eq!(id.len(), 20);
    assert_eq!(&id[..8], b"-qT0100-");
    let id = client_peer_id((12, 40, 62, 63));
    assert_eq!(&id[..8], b"-qTCe.--");
}

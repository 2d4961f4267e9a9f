use quantum_torrent::detail::{peer_host, sort_interfaces, sort_peers, sort_trackers, NetworkInterface, PeerKey, Tracker};
use quantum_torrent::torrents::{
    check_selection, display_name, file_not_found, is_openable, listed_files, magnet_link, preview_files, preview_title,
    source_to_add_torrent, status_label, torrent_not_found, total_size, unreadable_torrent_error, AddSource, EngineState,
    TorrentFile,
};
use quantum_torrent::units::Units;

fn file(path: Option<&str>, len: u64, padding: bool) -> TorrentFile {
    TorrentFile { path: path.map(|p| p.to_string()), len, padding }
}

#[test]
fn sources_to_add() {
    assert!(matches!(source_to_add_torrent("magnet:?xt=urn:btih:abc"), AddSource::Url(u) if u == "magnet:?xt=urn:btih:abc"));
    assert!(matches!(source_to_add_torrent("https://x/a.torrent"), AddSource::Url(_)));
    assert!(matches!(source_to_add_torrent("http://x/a.torrent"), AddSource::Url(_)));
    assert!(matches!(source_to_add_torrent("/home/u/a.torrent"), AddSource::File(p) if p == "/home/u/a.torrent"));
    assert!(matches!(source_to_add_torrent("ftp://x"), AddSource::File(_)));
    assert_eq!(unreadable_torrent_error("no such file"), "Could not read torrent file: no such file");
}

#[test]
fn open_requests() {
    assert!(is_openable("magnet:?xt=urn:btih:abc"));
    assert!(is_openable("/tmp/a.torrent"));
    assert!(is_openable("C:\\Users\\X\\LINUX.TORRENT"));
    assert!(!is_openable("/tmp/a.torrent.txt"));
    assert!(!is_openable("--flag"));
}

#[test]
fn status_words() {
    assert_eq!(status_label(EngineState::Initializing, false, false), "checking");
    assert_eq!(status_label(EngineState::Live, true, false), "seeding");
    assert_eq!(status_label(EngineState::Live, false, true), "downloading");
    assert_eq!(status_label(EngineState::Paused, false, true), "queued");
    assert_eq!(status_label(EngineState::Paused, true, false), "paused");
    assert_eq!(status_label(EngineState::Error, false, false), "error");
}

#[test]
fn names_and_errors() {
    assert_eq!(display_name(None, 7), "Torrent #7");
    assert_eq!(display_name(Some("Ubuntu".to_string()), 7), "Ubuntu");
    assert_eq!(torrent_not_found(12), "Torrent 12 not found");
    assert_eq!(file_not_found(3), "File 3 not found");
    assert_eq!(check_selection(&vec![]).unwrap_err(), "Select at least one file.");
    assert!(check_selection(&vec![0]).is_ok());
    assert_eq!(preview_title(None), "Unnamed torrent");
    assert_eq!(preview_title(Some(b"Debian".to_vec())), "Debian");
    assert_eq!(preview_title(Some(vec![b'a', 0xff, b'b'])), "a\u{FFFD}b");
}

#[test]
fn magnet_links() {
    let trackers = vec!["udp://t:80/announce".to_string(), "https://t2/a".to_string()];
    assert_eq!(
        magnet_link("abc", Some("a b".to_string()), &trackers),
        "magnet:?xt=urn:btih:abc&dn=a%20b&tr=udp%3A%2F%2Ft%3A80%2Fannounce&tr=https%3A%2F%2Ft2%2Fa"
    );
    assert_eq!(magnet_link("abc", None, &vec![]), "magnet:?xt=urn:btih:abc");
}

#[test]
fn preview_selects_all_but_padding() {
    let files = vec![file(Some("a/b.mkv"), 1536, false), file(None, 10, true)];
    let rows = preview_files(&files, Units::Binary);
    assert_eq!(rows.len(), 2);
    assert_eq!(rows[0].path, "a/b.mkv");
    assert_eq!(rows[0].size_str, "1.5 KiB");
    assert!(rows[0].selected);
    assert_eq!(rows[1].index, 1);
    assert_eq!(rows[1].path, "file_1");
    assert!(!rows[1].selected);
    assert!(rows[1].padding);
    assert_eq!(total_size(&files), 1546);
}

#[test]
fn managed_files_follow_the_selection() {
    let files = vec![file(Some("x"), 1, false), file(Some("y"), 2, false), file(Some("z"), 3, true)];
    let all = listed_files(&files, &None, Units::Decimal);
    assert!(all.iter().all(|r| r.selected));
    let some = listed_files(&files, &Some(vec![2, 0]), Units::Decimal);
    assert_eq!(some.iter().map(|r| r.selected).collect::<Vec<_>>(), vec![true, false, true]);
    assert_eq!(some[2].size_str, "3 B");
}

#[test]
fn peers_by_traffic_then_address() {
    let key = |addr: &str, down: u64, up: u64, slot: usize| PeerKey { addr: addr.to_string(), down_bytes: down, up_bytes: up, slot };
    let sorted = sort_peers(vec![key("b:1", 10, 0, 0), key("a:1", 5, 5, 1), key("c:1", 100, 1, 2), key("a:0", 0, 0, 3)]);
    let slots: Vec<usize> = sorted.iter().map(|p| p.slot).collect();
    assert_eq!(slots, vec![2, 1, 0, 3]);
}

#[test]
fn interfaces_loopback_last() {
    let i = |name: &str, ip: &str, lo: bool| NetworkInterface { name: name.to_string(), ip: ip.to_string(), is_loopback: lo };
    let sorted = sort_interfaces(vec![i("lo", "127.0.0.1", true), i("wlan0", "192.168.1.2", false), i("eth0", "10.0.0.2", false), i("eth0", "10.0.0.1", false)]);
    let order: Vec<&str> = sorted.iter().map(|x| x.ip.as_str()).collect();
    assert_eq!(order, vec!["10.0.0.1", "10.0.0.2", "192.168.1.2", "127.0.0.1"]);
}

#[test]
fn trackers_alphabetical() {
    let t = |u: &str| Tracker { url: u.to_string() };
    let sorted = sort_trackers(vec![t("udp://z"), t("http://b"), t("http://a")]);
    let urls: Vec<&str> = sorted.iter().map(|x| x.url.as_str()).collect();
    assert_eq!(urls, vec!["http://a", "http://b", "udp://z"]);
}

#[test]
fn peer_hosts() {
    assert_eq!(peer_host("1.2.3.4:6881").as_deref(), Some("1.2.3.4"));
    assert_eq!(peer_host("[2001:db8::1]:6881").as_deref(), Some("2001:db8::1"));
    assert_eq!(peer_host("[::1]:1").as_deref(), Some("::1"));
    assert_eq!(peer_host("nocolon"), None);
}

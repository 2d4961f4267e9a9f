use quantum_torrent::queue::QueueState;
use quantum_torrent::settings::{keeps_running_on_close, Settings};
use quantum_torrent::torrents::{added_id, not_staged_error, preview_answer, AddAnswer};

#[test]
fn closing_the_window_hides_it_only_when_asked() {
    assert!(keeps_running_on_close(false, true));
    assert!(!keeps_running_on_close(false, false));
    assert!(!keeps_running_on_close(true, true));
}

#[test]
fn a_new_geoip_path_reloads_the_database() {
    let a = Settings::default();
    let b = Settings { geoip_path: Some("/db.mmdb".to_string()), ..Settings::default() };
    let c = Settings { geoip_path: Some("/db.mmdb".to_string()), theme: "dark".to_string(), ..Settings::default() };
    assert!(a.geoip_differs(&b));
    assert!(!b.geoip_differs(&c));
    assert!(!a.geoip_differs(&a));
}

#[test]
fn previews_refuse_torrents_in_the_list() {
    assert!(preview_answer(AddAnswer::ListOnly).is_ok());
    assert_eq!(preview_answer(AddAnswer::AlreadyManaged(4)).unwrap_err(), "This torrent is already in the list.");
    assert_eq!(preview_answer(AddAnswer::Added(4)).unwrap_err(), "Unexpected: torrent was started during preview.");
}

#[test]
fn staged_torrents_keep_their_id() {
    assert_eq!(added_id(AddAnswer::Added(7)), Ok(7));
    assert_eq!(added_id(AddAnswer::AlreadyManaged(2)), Ok(2));
    assert_eq!(added_id(AddAnswer::ListOnly).unwrap_err(), "Unexpected list-only response.");
    assert_eq!(not_staged_error(), "This torrent is no longer staged — please add it again.");
}

#[test]
fn a_tick_keeps_only_live_torrents() {
    let mut q = QueueState::new();
    q.mark_queued(1);
    q.mark_queued(2);
    q.finish_seeding(3);
    q.seeding_since(3, 10);
    q.seeding_since(4, 20);
    // Torrents 2 and 3 are gone from the snapshot.
    let alive = vec![1usize, 4, 5];
    q.forget_missing(&alive);
    q.seeding_since(5, 30);
    assert_eq!(q.queued_ids(), vec![1]);
    assert!(!q.is_seed_done(3));
    assert_eq!(q.seeding_since(3, 40), 40);
    assert_eq!(q.seeding_since(4, 50), 20);
}

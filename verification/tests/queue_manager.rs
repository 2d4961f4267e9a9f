use quantum_torrent::queue::{seed_time_reached, QueuePlan, QueueState, TorrentSnap};

fn snap(id: usize, live: bool, finished: bool, paused: bool) -> TorrentSnap {
    TorrentSnap { id, finished, paused, live }
}

#[test]
fn over_the_limit_pauses_the_highest_ids() {
    let q = QueueState::new();
    let snaps = vec![snap(5, true, false, false), snap(1, true, false, false), snap(3, true, false, false), snap(9, true, true, false)];
    match q.plan_queue(&snaps, Some(2)) {
        QueuePlan::Pause(ids) => assert_eq!(ids, vec![5]),
        _ => panic!("expected pauses"),
    }
    match q.plan_queue(&snaps, Some(1)) {
        QueuePlan::Pause(ids) => assert_eq!(ids, vec![3, 5]),
        _ => panic!("expected pauses"),
    }
}

#[test]
fn no_limit_releases_the_queue() {
    let mut q = QueueState::new();
    q.mark_queued(4);
    q.mark_queued(2);
    q.mark_queued(7);
    let snaps = vec![snap(2, false, false, true), snap(4, true, false, false), snap(7, false, false, true)];
    assert!(matches!(q.plan_queue(&snaps, None), QueuePlan::Release));
    assert!(matches!(q.plan_queue(&snaps, Some(0)), QueuePlan::Release));
    let resume = q.release(&snaps);
    assert_eq!(resume, vec![2, 7]);
    assert!(!q.is_queued(4));
    assert!(q.is_queued(2));
    q.dequeue(2);
    assert_eq!(q.queued_ids(), vec![7]);
}

#[test]
fn free_slots_resume_lowest_queued_first() {
    let mut q = QueueState::new();
    for id in [8, 3, 6, 1] {
        q.mark_queued(id);
    }
    let snaps = vec![
        snap(1, false, false, true),
        snap(3, false, true, true),
        snap(6, true, false, false),
        snap(8, false, false, true),
        snap(10, true, false, false),
    ];
    let mut cursor = match q.plan_queue(&snaps, Some(3)) {
        QueuePlan::Fill(c) => c,
        _ => panic!("expected room"),
    };
    assert_eq!(cursor.slots, 1);
    assert_eq!(cursor.waiting, vec![1, 3, 6, 8]);
    assert_eq!(q.fill_next(&mut cursor, &snaps), Some(1));
    q.fill_result(&mut cursor, 1, false);
    assert!(q.is_queued(1));
    assert_eq!(cursor.slots, 1);
    // 3 has finished and 6 runs: both leave the queue; 8 is next.
    assert_eq!(q.fill_next(&mut cursor, &snaps), Some(8));
    assert!(!q.is_queued(3));
    assert!(!q.is_queued(6));
    q.fill_result(&mut cursor, 8, true);
    assert_eq!(cursor.slots, 0);
    assert!(!q.is_queued(8));
    assert_eq!(q.fill_next(&mut cursor, &snaps), None);
    assert_eq!(q.queued_ids(), vec![1]);
}

#[test]
fn no_resume_without_a_slot() {
    let mut q = QueueState::new();
    q.mark_queued(3);
    q.mark_queued(4);
    let snaps = vec![snap(1, true, false, false), snap(3, false, true, true), snap(4, false, false, true)];
    let mut cursor = match q.plan_queue(&snaps, Some(1)) {
        QueuePlan::Fill(c) => c,
        _ => panic!("expected a fill"),
    };
    assert_eq!(cursor.slots, 0);
    assert_eq!(q.fill_next(&mut cursor, &snaps), None);
    // Stopping at once leaves even the finished one queued, as the walk never reached it.
    assert!(q.is_queued(3));
}

#[test]
fn seeding_limits_stick() {
    let mut q = QueueState::new();
    q.mark_queued(2);
    let snaps = vec![snap(2, true, true, false), snap(5, true, true, false), snap(6, true, false, false)];
    assert_eq!(q.seeding_candidates(&snaps), vec![2, 5]);
    q.finish_seeding(2);
    assert!(q.is_seed_done(2));
    assert!(!q.is_queued(2));
    assert_eq!(q.seeding_candidates(&snaps), vec![5]);
    q.user_resumed(5, true);
    assert!(q.is_seed_done(5));
    q.user_resumed(6, false);
    assert!(!q.is_seed_done(6));
    assert_eq!(q.seeding_candidates(&snaps), Vec::<usize>::new());
}

#[test]
fn gone_torrents_are_forgotten() {
    let mut q = QueueState::new();
    q.mark_queued(1);
    q.mark_queued(2);
    q.mark_queued(2);
    q.finish_seeding(3);
    q.forget_missing(&vec![2, 3]);
    assert_eq!(q.queued_ids(), vec![2]);
    assert!(q.is_seed_done(3));
    q.forget_missing(&vec![]);
    assert!(!q.is_seed_done(3));
}

#[test]
fn seeding_time_limit() {
    assert!(!seed_time_reached(None, 1_000_000));
    assert!(!seed_time_reached(Some(0), 1_000_000));
    assert!(!seed_time_reached(Some(10), 599));
    assert!(seed_time_reached(Some(10), 600));
}

#[test]
fn seeding_clock_starts_once_and_is_forgotten() {
    let mut q = QueueState::new();
    assert_eq!(q.seeding_since(3, 100), 100);
    assert_eq!(q.seeding_since(3, 250), 100);
    assert_eq!(q.seeding_since(8, 300), 300);
    // A torrent that is gone loses its clock; one still there keeps it.
    q.forget_missing(&vec![8]);
    assert_eq!(q.seeding_since(3, 400), 400);
    assert_eq!(q.seeding_since(8, 500), 300);
    // Resuming by hand restarts the clock.
    q.user_resumed(8, true);
    assert_eq!(q.seeding_since(8, 600), 600);
    assert!(q.is_seed_done(8));
}

use quantum_torrent::relocate::{next_move, MoveStep};

#[test]
fn same_folder_needs_nothing() {
    assert_eq!(next_move(true, false, false, &vec![true], 0, false), MoveStep::Finished);
}

#[test]
fn folder_first_then_removal() {
    assert_eq!(next_move(false, false, false, &vec![true], 0, false), MoveStep::CreateFolder);
    assert_eq!(next_move(false, true, false, &vec![true], 0, false), MoveStep::RemoveKeepingData);
}

#[test]
fn files_move_in_order_skipping_missing_ones() {
    let exists = vec![false, true, false, true];
    assert_eq!(next_move(false, true, true, &exists, 0, false), MoveStep::Move(1));
    assert_eq!(next_move(false, true, true, &exists, 2, false), MoveStep::Move(3));
    assert_eq!(next_move(false, true, true, &exists, 4, false), MoveStep::ReAdd { at_new_folder: true });
    assert_eq!(next_move(false, true, true, &vec![false, false], 0, false), MoveStep::ReAdd { at_new_folder: true });
}

#[test]
fn a_failed_move_re_adds_at_the_old_folder() {
    let exists = vec![true, true];
    assert_eq!(next_move(false, true, true, &exists, 1, true), MoveStep::ReAdd { at_new_folder: false });
}

//! Moving a torrent's files to another folder. The engine cannot repoint a
//! live torrent's storage, so the torrent is removed (keeping its data), its
//! files are moved one by one, and it is added again: at the new folder when
//! every move succeeded, else at the old one so that a partial move still
//! leaves a working torrent. Files move one by one, not the whole folder,
//! because single-file torrents share the default folder with others.
use vstd::prelude::*;

verus! {

/// What to do next while moving a torrent.
#[derive(PartialEq, Eq, Structural, Debug, Clone, Copy)]
pub enum MoveStep {
    /// Nothing to do: the torrent is already in that folder.
    Finished,
    /// Create the new folder.
    CreateFolder,
    /// Remove the torrent from the session, keeping its data.
    RemoveKeepingData,
    /// Move the file with this index to the new folder.
    Move(usize),
    /// Add the torrent again, at the new folder or back at the old one.
    ReAdd { at_new_folder: bool },
}

/// The first index at or after `from` of a file that is present.
pub open spec fn first_present(exists: Seq<bool>, from: int) -> Option<int>
    decreases exists.len() - from,
{
    if from < 0 || from >= exists.len() {
        None
    } else if exists[from] {
        Some(from)
    } else {
        first_present(exists, from + 1)
    }
}

/// The step that moving a torrent's files takes next.
///
/// `same_folder`: the new folder is the one it is in. `created`: the new
/// folder was created. `removed`: the torrent was removed from the session.
/// `exists[i]`: file `i` is present in the old folder. `done`: the files
/// before this index were dealt with. `last_move_failed`: the last move
/// failed, which ends the moving.
pub fn next_move(
    same_folder: bool,
    created: bool,
    removed: bool,
    exists: &Vec<bool>,
    done: usize,
    last_move_failed: bool,
) -> (r: MoveStep)
    ensures
        same_folder ==> r == MoveStep::Finished,
        !same_folder && !created ==> r == MoveStep::CreateFolder,
        !same_folder && created && !removed ==> r == MoveStep::RemoveKeepingData,
        !same_folder && created && removed && last_move_failed ==> r == (MoveStep::ReAdd { at_new_folder: false }),
        !same_folder && created && removed && !last_move_failed ==> r == match first_present(exists@, done as int) {
            Some(i) => MoveStep::Move(i as usize),
            None => MoveStep::ReAdd { at_new_folder: true },
        },
{
    if same_folder {
        return MoveStep::Finished;
    }
    if !created {
        return MoveStep::CreateFolder;
    }
    if !removed {
        return MoveStep::RemoveKeepingData;
    }
    if last_move_failed {
        return MoveStep::ReAdd { at_new_folder: false };
    }
    let mut i = done;
    while i < exists.len()
        invariant
            !same_folder && created && removed && !last_move_failed,
            done <= i,
            first_present(exists@, done as int) == first_present(exists@, i as int),
        decreases exists@.len() - i,
    {
        if exists[i] {
            return MoveStep::Move(i);
        }
        i = i + 1;
    }
    MoveStep::ReAdd { at_new_folder: true }
}

} // verus!

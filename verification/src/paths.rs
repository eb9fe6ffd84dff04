//! The app's data folder in AppData, and its move from the old product
//! name to the new one.

use vstd::prelude::*;

verus! {

/// Which data folder the app uses.
#[derive(Clone, Copy, Debug, PartialEq, Eq, Structural)]
pub enum DataFolder {
    /// "LumenStream", the current name.
    Current,
    /// "LumenDownloader", the name before the rebrand.
    Legacy,
}

/// What to do about the data folder at start-up.
#[derive(Clone, Copy, Debug, PartialEq, Eq, Structural)]
pub enum DataDirStep {
    /// Use this folder.
    Use(DataFolder),
    /// Rename the legacy folder to the current name, then call
    /// `after_rename` with the outcome.
    RenameLegacy,
}

/// The step taken when the current folder exists or not, and the legacy
/// folder exists or not.
pub open spec fn data_dir_choice(current_exists: bool, legacy_exists: bool) -> DataDirStep {
    if !current_exists && legacy_exists {
        DataDirStep::RenameLegacy
    } else {
        DataDirStep::Use(DataFolder::Current)
    }
}

/// The folder used once the rename has worked or failed.
pub open spec fn rename_outcome(renamed: bool) -> DataFolder {
    if renamed {
        DataFolder::Current
    } else {
        DataFolder::Legacy
    }
}

/// One start-up from a disk on which the current and the legacy folder
/// exist or not, where a rename of the legacy folder works when
/// `rename_works`: the folder used, then whether each folder exists
/// afterwards. A rename that works moves the legacy folder to the current
/// name; one that fails leaves both as they were.
pub open spec fn data_dir_run(current_exists: bool, legacy_exists: bool, rename_works: bool) -> (
    DataFolder,
    bool,
    bool,
) {
    match data_dir_choice(current_exists, legacy_exists) {
        DataDirStep::Use(f) => (f, current_exists, legacy_exists),
        DataDirStep::RenameLegacy => {
            if rename_works {
                (rename_outcome(true), true, false)
            } else {
                (rename_outcome(false), current_exists, legacy_exists)
            }
        },
    }
}

/// Whether `folder` exists, given whether the current and the legacy folder
/// exist.
pub open spec fn folder_exists(folder: DataFolder, current_exists: bool, legacy_exists: bool) -> bool {
    match folder {
        DataFolder::Current => current_exists,
        DataFolder::Legacy => legacy_exists,
    }
}

/// The current folder when it exists or when there is nothing to move; a
/// rename of the legacy folder when only that one exists.
pub fn data_dir_step(current_exists: bool, legacy_exists: bool) -> (r: DataDirStep)
    ensures
        r == data_dir_choice(current_exists, legacy_exists),
        current_exists ==> r == DataDirStep::Use(DataFolder::Current),
        !current_exists && legacy_exists ==> r == DataDirStep::RenameLegacy,
        !current_exists && !legacy_exists ==> r == DataDirStep::Use(DataFolder::Current),
{
    if current_exists {
        DataDirStep::Use(DataFolder::Current)
    } else if legacy_exists {
        DataDirStep::RenameLegacy
    } else {
        DataDirStep::Use(DataFolder::Current)
    }
}

/// After the rename: the current folder when it worked, else the legacy
/// one, so that no data is left behind.
pub fn after_rename(renamed: bool) -> (r: DataFolder)
    ensures
        r == rename_outcome(renamed),
        renamed ==> r == DataFolder::Current,
        !renamed ==> r == DataFolder::Legacy,
{
    if renamed {
        DataFolder::Current
    } else {
        DataFolder::Legacy
    }
}

/// Choosing the data folder is idempotent: with no other change to the disk
/// in between, and a rename that works or fails alike both times, a second
/// start-up uses the same folder as the first and changes nothing on disk.
pub proof fn data_dir_is_idempotent(current_exists: bool, legacy_exists: bool, rename_works: bool)
    ensures
        ({
            let first = data_dir_run(current_exists, legacy_exists, rename_works);
            let second = data_dir_run(first.1, first.2, rename_works);
            second == first
        }),
{
}

/// Choosing the data folder never loses data: when either folder exists
/// before start-up, the folder used exists afterwards; and a legacy folder
/// is only ever gone because it now has the current name.
pub proof fn data_dir_keeps_data(current_exists: bool, legacy_exists: bool, rename_works: bool)
    ensures
        ({
            let (folder, cur, leg) = data_dir_run(current_exists, legacy_exists, rename_works);
            &&& (current_exists || legacy_exists) ==> folder_exists(folder, cur, leg)
            &&& current_exists ==> cur
            &&& legacy_exists && !leg ==> cur && folder == DataFolder::Current
        }),
{
}

} // verus!

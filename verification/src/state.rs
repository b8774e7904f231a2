//! Small pieces of application state the commands share: where data lives,
//! the expansion engine's status, and the radial picker's pending choice.

use vstd::prelude::*;

verus! {

/// `std::path::PathBuf`, carried through as is.
#[verifier::external_type_specification]
#[verifier::external_body]
pub struct ExPathBuf(std::path::PathBuf);

/// `Path::join`: `base` with `name` appended as a further component. Nothing
/// is claimed of the result: Verus sees no contents of a `PathBuf` (it has no
/// view), and the path `join` writes depends on the platform it runs on (its
/// separator and its rules for absolute paths), so the same arguments do not
/// give the same path on every machine.
#[verifier::external_body]
fn path_join(base: &std::path::PathBuf, name: &str) -> std::path::PathBuf {
    base.join(name)
}

/// Name of the SQLite database file in the data directory.
pub const DB_FILE_NAME: &'static str = "carimbo.db";

/// Name of the directory of captured clipboard images.
pub const CLIPS_DIR_NAME: &'static str = "clips";

/// Name of the directory of log files.
pub const LOGS_DIR_NAME: &'static str = "logs";

/// Where Carimbo keeps its data.
pub struct AppPaths {
    pub data_dir: std::path::PathBuf,
}

impl AppPaths {
    /// The SQLite database file, `carimbo.db` in the data directory.
    pub fn db_file(&self) -> std::path::PathBuf {
        path_join(&self.data_dir, DB_FILE_NAME)
    }

    /// The directory of captured clipboard images, `clips`.
    pub fn clips_dir(&self) -> std::path::PathBuf {
        path_join(&self.data_dir, CLIPS_DIR_NAME)
    }

    /// The directory of log files, `logs`.
    pub fn logs_dir(&self) -> std::path::PathBuf {
        path_join(&self.data_dir, LOGS_DIR_NAME)
    }
}

/// Whether text expansion is on, paused, and possible on this platform.
#[derive(Clone, Copy, Debug)]
pub struct ExpansionStatus {
    pub enabled: bool,
    pub paused: bool,
    /// Whether the running platform supports expansion at all.
    pub supported: bool,
}

/// The status on a platform that supports expansion: enabled exactly when the
/// engine is running (`Some` of whether it is paused), never paused when off.
pub fn expansion_status_of(running: Option<bool>) -> (s: ExpansionStatus)
    ensures
        s.supported,
        s.enabled == running is Some,
        s.paused == (running == Some(true)),
{
    match running {
        Some(paused) => ExpansionStatus { enabled: true, paused, supported: true },
        None => ExpansionStatus { enabled: false, paused: false, supported: true },
    }
}

/// An opaque handle to the window that was frontmost when captured; it is
/// re-validated before use.
#[derive(Clone, Copy, Debug)]
pub struct CapturedWindow(pub isize);

/// What the radial picker needs to finish once the user chooses: the app to
/// paste back into and how much of the typed trigger to delete first.
#[derive(Clone, Copy, Debug)]
pub struct PendingRadial {
    pub target: CapturedWindow,
    pub delete_chars: usize,
}

} // verus!

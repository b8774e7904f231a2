//! Backup of the user's own library: a versioned envelope with stable ids,
//! folders and use statistics. Reading and writing the JSON file, and the
//! database writes, are the caller's; the envelope's rules are here.

use vstd::prelude::*;
use crate::clipboard::{decimal, decimal_vec};
use crate::error::CoreError;
use crate::import::ImportOutcome;
use crate::models::{Folder, Snippet};
use crate::text::{push_char, push_str, str_eq};

verus! {

/// Bump when the envelope shape changes incompatibly. Import refuses versions
/// it doesn't understand rather than silently mis-reading them.
pub const BACKUP_VERSION: u32 = 1;

/// App identifier, so a stray JSON file isn't mistaken for a backup.
pub const BACKUP_APP: &'static str = "carimbo";

/// The on-disk backup document.
#[derive(Debug)]
pub struct Backup {
    /// Envelope schema version (see [`BACKUP_VERSION`]).
    pub version: u32,
    pub app: String,
    /// When the backup was taken (unix ms). Informational only.
    pub exported_at: i64,
    pub folders: Vec<Folder>,
    pub snippets: Vec<Snippet>,
}

impl Backup {
    /// The backup of the current library, taken at `now_ms`.
    pub fn new(folders: Vec<Folder>, snippets: Vec<Snippet>, now_ms: i64) -> (b: Backup)
        ensures
            b.version == BACKUP_VERSION,
            b.app@ == "carimbo"@,
            b.exported_at == now_ms,
            b.folders@ == folders@,
            b.snippets@ == snippets@,
    {
        Backup {
            version: BACKUP_VERSION,
            app: BACKUP_APP.to_owned(),
            exported_at: now_ms,
            folders,
            snippets,
        }
    }
}

/// Why a backup document is refused, if it is: another app's file, or a
/// version newer than this app understands.
pub open spec fn backup_refusal(app: Seq<char>, version: u32) -> Option<Seq<char>> {
    if app != "carimbo"@ {
        Some("this file isn't a Carimbo backup"@)
    } else if version > BACKUP_VERSION {
        Some(
            "backup version "@ + decimal(version as nat)
                + " is newer than this app supports (1)"@,
        )
    } else {
        None
    }
}

/// Checks a parsed backup before anything is written.
pub fn check_backup(b: &Backup) -> (r: Result<(), CoreError>)
    ensures
        match backup_refusal(b.app@, b.version) {
            Some(m) => r matches Err(CoreError::Invalid(x)) && x@ == m,
            None => r is Ok,
        },
{
    if !str_eq(b.app.as_str(), BACKUP_APP) {
        return Err(CoreError::Invalid("this file isn't a Carimbo backup".to_owned()));
    }
    if b.version > BACKUP_VERSION {
        let mut m = String::new();
        push_str(&mut m, "backup version ");
        let d = decimal_vec(b.version as usize);
        let ghost before = m@;
        let mut j: usize = 0;
        while j < d.len()
            invariant
                j <= d@.len(),
                m@ == before + d@.take(j as int),
            decreases d@.len() - j,
        {
            push_char(&mut m, d[j]);
            assert(d@.take(j + 1) == d@.take(j as int).push(d@[j as int]));
            j += 1;
        }
        assert(d@.take(d@.len() as int) == d@);
        push_str(&mut m, " is newer than this app supports (1)");
        return Err(CoreError::Invalid(m));
    }
    Ok(())
}

/// What a backup import did.
#[derive(Debug)]
pub struct ImportReport {
    pub folders_added: usize,
    pub snippets_added: usize,
    /// Snippets imported but whose shortcut was dropped due to a conflict.
    pub triggers_dropped: usize,
    /// Rows skipped because they already existed (same id).
    pub skipped: usize,
}

impl Default for ImportReport {
    fn default() -> (r: Self)
        ensures
            r.folders_added == 0 && r.snippets_added == 0 && r.triggers_dropped == 0 && r.skipped
                == 0,
    {
        ImportReport { folders_added: 0, snippets_added: 0, triggers_dropped: 0, skipped: 0 }
    }
}

impl ImportReport {
    /// Counts one folder: added, or skipped because it already existed.
    pub fn record_folder(&mut self, added: bool)
        requires
            old(self).folders_added < usize::MAX,
            old(self).skipped < usize::MAX,
        ensures
            final(self).folders_added == old(self).folders_added + (if added {
                1int
            } else {
                0int
            }),
            final(self).skipped == old(self).skipped + (if added {
                0int
            } else {
                1int
            }),
            final(self).snippets_added == old(self).snippets_added,
            final(self).triggers_dropped == old(self).triggers_dropped,
    {
        if added {
            self.folders_added += 1;
        } else {
            self.skipped += 1;
        }
    }

    /// Counts one snippet's outcome: a dropped trigger still counts as added.
    pub fn record_snippet(&mut self, outcome: ImportOutcome)
        requires
            old(self).snippets_added < usize::MAX,
            old(self).triggers_dropped < usize::MAX,
            old(self).skipped < usize::MAX,
        ensures
            final(self).snippets_added == old(self).snippets_added + (if outcome
                == ImportOutcome::Skipped {
                0int
            } else {
                1int
            }),
            final(self).triggers_dropped == old(self).triggers_dropped + (if outcome
                == ImportOutcome::InsertedTriggerDropped {
                1int
            } else {
                0int
            }),
            final(self).skipped == old(self).skipped + (if outcome == ImportOutcome::Skipped {
                1int
            } else {
                0int
            }),
            final(self).folders_added == old(self).folders_added,
    {
        match outcome {
            ImportOutcome::Inserted => {
                self.snippets_added += 1;
            },
            ImportOutcome::InsertedTriggerDropped => {
                self.snippets_added += 1;
                self.triggers_dropped += 1;
            },
            ImportOutcome::Skipped => {
                self.skipped += 1;
            },
        }
    }
}

/// A backup this app writes is one it accepts back.
pub proof fn law_own_backup_accepted()
    ensures
        backup_refusal("carimbo"@, BACKUP_VERSION) is None,
{
}

} // verus!

//! The rules synchronizer: one per-tool single file with no frontmatter,
//! pure last-write-wins byte replacement.

use vstd::prelude::*;

verus! {

use vstd::string::StringSliceAdditionalSpecFns;
use crate::config::Config;
use crate::history::{HistoryStore, HistoryRecorder, blobs_view, events_view, writes_view};
use crate::sync::{SyncStats, ExecutionMode, WriteAction, actions_view, write_raw_if_changed, FileState};
use crate::text::{lit, path_join};

/// What the rules category sees on disk.
pub struct RulesListing {
    /// The parent directory of the codex rules file exists.
    pub codex_parent_exists: bool,
    pub codex_file: Option<FileState>,
    pub central_file: Option<FileState>,
}

/// The view of an optional observed file.
pub open spec fn file_view(f: &Option<FileState>) -> Option<(Seq<u8>, u128)> {
    match f {
        Some(f) => Some((f.content@, f.mtime)),
        None => None,
    }
}

/// The bytes last-write-wins picks: the central copy only when it is
/// strictly newer than the tool copy.
pub open spec fn spec_rules_winner(
    codex_on: bool,
    codex: Option<(Seq<u8>, u128)>,
    central: Option<(Seq<u8>, u128)>,
) -> Option<Seq<u8>> {
    let cv: Option<(Seq<u8>, u128)> = if codex_on {
        codex
    } else {
        None
    };
    match (cv, central) {
        (Some(c), Some(z)) => Some(
            if z.1 > c.1 {
                z.0
            } else {
                c.0
            },
        ),
        (Some(c), None) => Some(c.0),
        (None, Some(z)) => Some(z.0),
        (None, None) => None,
    }
}

/// Whether the tool copy receives a write.
pub open spec fn spec_rules_writes_codex(
    codex_on: bool,
    codex: Option<(Seq<u8>, u128)>,
    central: Option<(Seq<u8>, u128)>,
) -> bool {
    match spec_rules_winner(codex_on, codex, central) {
        Some(w) => codex_on && !(codex matches Some(c) && c.0 == w),
        None => false,
    }
}

/// Whether the central copy receives a write.
pub open spec fn spec_rules_writes_central(
    codex_on: bool,
    codex: Option<(Seq<u8>, u128)>,
    central: Option<(Seq<u8>, u128)>,
) -> bool {
    match spec_rules_winner(codex_on, codex, central) {
        Some(w) => !(central matches Some(z) && z.0 == w),
        None => false,
    }
}

/// How many targets a rules pass updates.
pub open spec fn spec_rules_updated(
    codex_on: bool,
    codex: Option<(Seq<u8>, u128)>,
    central: Option<(Seq<u8>, u128)>,
) -> int {
    (if spec_rules_writes_codex(codex_on, codex, central) {
        1int
    } else {
        0int
    }) + (if spec_rules_writes_central(codex_on, codex, central) {
        1int
    } else {
        0int
    })
}

/// Synchronize the rules files by whole-file replacement.
pub fn sync_rules_with_mode(
    cfg: &Config,
    listing: &RulesListing,
    mode: ExecutionMode,
    store: &mut HistoryStore,
    rec: &mut HistoryRecorder,
    actions: &mut Vec<WriteAction>,
) -> (r: (SyncStats, bool))
    requires
        old(store).wf(),
    ensures
        final(store).wf(),
        final(store).root@ == old(store).root@,
        events_view(final(store).events@) == events_view(old(store).events@),
        final(rec).id == old(rec).id,
        final(rec).origin@ == old(rec).origin@,
        ({
            let codex_on = crate::config::list_has(cfg.enabled_tools@, crate::config::tool_codex())
                && listing.codex_parent_exists;
            let cv = file_view(&listing.codex_file);
            let zv = file_view(&listing.central_file);
            &&& r.0.updated == spec_rules_updated(codex_on, cv, zv)
            &&& (mode == ExecutionMode::Plan || r.0.updated == 0 ==> {
                &&& blobs_view(final(store).blobs@) == blobs_view(old(store).blobs@)
                &&& writes_view(final(rec).writes@) == writes_view(old(rec).writes@)
                &&& actions_view(final(actions)@) == actions_view(old(actions)@)
            })
            &&& (mode == ExecutionMode::Apply ==> actions_view(final(actions)@).len()
                == actions_view(old(actions)@).len() + r.0.updated)
            &&& (mode == ExecutionMode::Apply ==> writes_view(final(rec).writes@).len()
                == writes_view(old(rec).writes@).len() + r.0.updated)
            &&& forall|i: int|
                0 <= i < actions_view(old(actions)@).len() ==> #[trigger] actions_view(
                    final(actions)@,
                )[i] == actions_view(old(actions)@)[i]
        }),
{
    let codex_enabled: bool = cfg.tool_enabled(crate::config::tool_codex_id().as_slice())
        && listing.codex_parent_exists;
    let central_path: Vec<u8> = path_join(
        cfg.central_rules_dir.as_slice(),
        lit("codex/default.rules").as_slice(),
    );
    let mut stats: SyncStats = SyncStats { updated: 0 };

    // pick the winner's bytes
    let winner: Option<&Vec<u8>> = match (&listing.codex_file, &listing.central_file) {
        (Some(c), Some(z)) => {
            if codex_enabled {
                if z.mtime > c.mtime {
                    Some(&z.content)
                } else {
                    Some(&c.content)
                }
            } else {
                Some(&z.content)
            }
        },
        (Some(c), None) => {
            if codex_enabled {
                Some(&c.content)
            } else {
                None
            }
        },
        (None, Some(z)) => Some(&z.content),
        (None, None) => None,
    };
    let w: &Vec<u8> = match winner {
        Some(w) => w,
        None => {
            proof {
                assert(blobs_view(store.blobs@) =~= blobs_view(old(store).blobs@));
                assert(writes_view(rec.writes@) =~= writes_view(old(rec).writes@));
                assert(actions_view(actions@) =~= actions_view(old(actions)@));
                assert(events_view(store.events@) =~= events_view(old(store).events@));
            }
            return (stats, false);
        },
    };
    let differ: bool = match (&listing.codex_file, &listing.central_file) {
        (Some(c), Some(z)) => !crate::text::bytes_eq(c.content.as_slice(), z.content.as_slice()),
        _ => false,
    };
    let window_ok: bool = match (&listing.codex_file, &listing.central_file) {
        (Some(c), Some(z)) => {
            let mn: u128 = if c.mtime < z.mtime {
                c.mtime
            } else {
                z.mtime
            };
            let mx: u128 = if c.mtime > z.mtime {
                c.mtime
            } else {
                z.mtime
            };
            mx - mn <= crate::sync::CONFLICT_WINDOW_NS
        },
        _ => false,
    };
    let warned: bool = codex_enabled && differ && window_ok;

    if codex_enabled {
        let changed: bool = write_raw_if_changed(
            cfg.codex_rules_file.as_slice(),
            w.as_slice(),
            match &listing.codex_file {
                Some(c) => Some(&c.content),
                None => None,
            },
            mode,
            store,
            rec,
            actions,
        );
        if changed {
            stats.updated = stats.updated + 1;
        }
    }
    let changed_central: bool = write_raw_if_changed(
        central_path.as_slice(),
        w.as_slice(),
        match &listing.central_file {
            Some(z) => Some(&z.content),
            None => None,
        },
        mode,
        store,
        rec,
        actions,
    );
    if changed_central {
        stats.updated = stats.updated + 1;
    }
    (stats, warned)
}

/// A second rules pass over already-propagated contents updates nothing:
/// once every copy holds the winner's bytes, the pass is a no-op whatever
/// the new modification times are.
pub proof fn lemma_rules_idempotent(codex_on: bool, t1: u128, t2: u128, w: Seq<u8>)
    ensures
        spec_rules_updated(
            codex_on,
            if codex_on {
                Some((w, t1))
            } else {
                None
            },
            Some((w, t2)),
        ) == 0,
{
}

} // verus!

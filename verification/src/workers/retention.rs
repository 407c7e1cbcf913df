//! One iteration of the retention loop.

use crate::config::RetentionConfig;
use crate::db::cleanup::{
    cleaned, cleanup_old_terminal_tasks, cutoff, gc_empty_rule_slots, in_use,
    purge_old_archived_tasks, to_archive, to_purge,
};
use crate::models::{ArchiveRow, SlotRow};
use crate::store::{Store, Tables};
use vstd::prelude::*;

verus! {

/// What an iteration did.
#[derive(Clone, Copy, Debug, PartialEq, Eq, Structural)]
pub struct RetentionRound {
    /// Tasks archived, where tasks are archived at all.
    pub archived: Option<usize>,
    /// Archived tasks purged, where they are purged at all.
    pub purged: Option<usize>,
    /// Slots deleted.
    pub slots: usize,
}

/// Whether archived tasks are purged. An age of zero days keeps them for ever.
pub open spec fn purges(cfg: RetentionConfig) -> bool {
    cfg.enabled && cfg.archive_retention_days > 0
}

/// The archive without what is old enough.
pub open spec fn purged(archive: Seq<ArchiveRow>, cut: int, n: int) -> Seq<ArchiveRow> {
    let gone = to_purge(archive, cut, n);
    archive.filter(|a: ArchiveRow| !gone.contains(a.task.id))
}

/// The tables once terminal tasks were archived, where that is enabled.
pub open spec fn retained(s: Tables, cfg: RetentionConfig, now: int) -> Tables {
    if cfg.enabled {
        cleaned(s, cutoff(now, cfg.retention_days as int), cfg.batch_size as int, now)
    } else {
        s
    }
}

/// The tables after an iteration: terminal tasks are archived and archived tasks
/// purged as configured. Slots that are not in use are deleted in any case, since
/// their keys are made of metadata and never end.
pub open spec fn after_retention(s: Tables, cfg: RetentionConfig, now: int) -> Tables {
    let t = retained(s, cfg, now);
    Tables {
        archive: if purges(cfg) {
            purged(
                t.archive,
                cutoff(now, cfg.archive_retention_days as int),
                cfg.batch_size as int,
            )
        } else {
            t.archive
        },
        slots: t.slots.filter(|s: SlotRow| in_use(s)),
        ..t
    }
}

/// One iteration.
pub fn run_retention_tick(store: &mut Store, cfg: &RetentionConfig, now: i64) -> (r: RetentionRound)
    requires
        cfg.batch_size >= 0,
    ensures
        final(store)@ == after_retention(old(store)@, *cfg, now as int),
        r.archived == if cfg.enabled {
            Some(
                to_archive(
                    old(store)@,
                    cutoff(now as int, cfg.retention_days as int),
                    cfg.batch_size as int,
                ).len() as usize,
            )
        } else {
            None
        },
        r.purged == if purges(*cfg) {
            Some(
                (retained(old(store)@, *cfg, now as int).archive.len()
                    - final(store)@.archive.len()) as usize,
            )
        } else {
            None
        },
        r.slots == retained(old(store)@, *cfg, now as int).slots.len() - final(store)@.slots.len(),
{
    let mut archived: Option<usize> = None;
    let mut purged_count: Option<usize> = None;
    if cfg.enabled {
        archived = Some(cleanup_old_terminal_tasks(store, cfg.retention_days, cfg.batch_size, now));
    }
    let ghost t = store@;
    assert(t.archive.len() == store.archive@.len());
    assert(t.slots.len() == store.slots@.len());
    if cfg.enabled && cfg.archive_retention_days > 0 {
        purged_count = Some(
            purge_old_archived_tasks(
                &mut store.archive,
                cfg.archive_retention_days,
                cfg.batch_size,
                now,
            ),
        );
    }
    assert(store@.archive.len() == store.archive@.len());
    let slots: usize = gc_empty_rule_slots(&mut store.slots);
    assert(store@.slots.len() == store.slots@.len());
    assert(store@ =~= after_retention(old(store)@, *cfg, now as int));
    RetentionRound { archived, purged: purged_count, slots }
}

} // verus!

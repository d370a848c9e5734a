//! The transactional apply session.
//!
//! A run executes its pending batch inside one transaction. The session
//! holds the decisions only: which migration to execute next, and whether
//! to commit or roll back. The front end owns the transaction, performs
//! each action, and reports each outcome back. Whatever happens, the
//! store's entries advance by exactly the whole batch (on commit) or not
//! at all (on rollback): a failed or dry run never persists anything.

use vstd::prelude::*;
use crate::entry::{EntryModel, MigrationEntry, entry_views};
use crate::reconcile::{PlannedMigration, PlannedModel, lemma_pending_props, pending_of,
    planned_views, stored_has_name};

verus! {

/// What the front end must do next while driving a session.
pub enum SessionAction {
    /// Execute the SQL of the pending migration at this batch position and
    /// insert its tracking record, inside the open transaction.
    Execute(usize),
    /// Commit the transaction: the whole batch succeeded.
    Commit,
    /// Roll the transaction back: a migration failed, or this is a dry
    /// run.
    Rollback,
}

/// One transactional run over a pending batch, in batch order.
pub struct ApplySession {
    /// The pending migrations, in apply order.
    pub pending: Vec<PlannedMigration>,
    /// The identifiers the store assigned to the executed prefix of the
    /// batch.
    pub applied_ids: Vec<i64>,
    /// Whether the transaction must be rolled back even on success.
    pub dry_run: bool,
    /// Whether some migration of the batch failed.
    pub failed: bool,
}

impl ApplySession {
    /// The session invariant: at most one result per pending migration.
    pub open spec fn wf(self) -> bool {
        self.applied_ids@.len() <= self.pending@.len()
    }

    /// The decision the session takes in its current state.
    pub open spec fn spec_action(self) -> SessionAction {
        if self.failed {
            SessionAction::Rollback
        } else if self.applied_ids@.len() < self.pending@.len() {
            SessionAction::Execute(self.applied_ids@.len() as usize)
        } else if self.dry_run {
            SessionAction::Rollback
        } else {
            SessionAction::Commit
        }
    }

    /// Whether the run persists: every migration of the batch succeeded
    /// and this is no dry run.
    pub open spec fn commits(self) -> bool {
        &&& !self.failed
        &&& !self.dry_run
        &&& self.applied_ids@.len() == self.pending@.len()
    }

    /// The records the store gains when the session commits: one per
    /// batch position, carrying the migration's filename and hash and the
    /// assigned identifier.
    pub open spec fn new_entries(self) -> Seq<EntryModel> {
        Seq::new(
            self.applied_ids@.len(),
            |i: int|
                EntryModel {
                    id: Some(self.applied_ids@[i]),
                    filename: planned_views(self.pending@)[i].filename,
                    hash: planned_views(self.pending@)[i].hash,
                    timestamp: None,
                },
        )
    }

    /// The store's entries after the session, given those before: grown
    /// by exactly the applied batch on commit, unchanged otherwise.
    pub open spec fn store_after(self, before: Seq<EntryModel>) -> Seq<EntryModel> {
        if self.commits() {
            before + self.new_entries()
        } else {
            before
        }
    }

    /// Opens a session over the pending batch.
    pub fn new(pending: Vec<PlannedMigration>, dry_run: bool) -> (s: ApplySession)
        ensures
            s.wf(),
            s.pending == pending,
            s.dry_run == dry_run,
            !s.failed,
            s.applied_ids@.len() == 0,
    {
        ApplySession { pending, applied_ids: Vec::new(), dry_run, failed: false }
    }

    /// The next step the front end must take.
    pub fn next_action(&self) -> (a: SessionAction)
        ensures
            a == self.spec_action(),
    {
        if self.failed {
            SessionAction::Rollback
        } else if self.applied_ids.len() < self.pending.len() {
            SessionAction::Execute(self.applied_ids.len())
        } else if self.dry_run {
            SessionAction::Rollback
        } else {
            SessionAction::Commit
        }
    }

    /// The migration at a batch position.
    pub fn migration_at(&self, i: usize) -> (m: &PlannedMigration)
        requires
            i < self.pending@.len(),
        ensures
            m@ == planned_views(self.pending@)[i as int],
    {
        &self.pending[i]
    }

    /// Records that the batch's next migration executed and its tracking
    /// record was inserted, with the identifier the store assigned.
    pub fn record_success(&mut self, id: i64)
        requires
            old(self).wf(),
            old(self).spec_action() matches SessionAction::Execute(_),
        ensures
            final(self).wf(),
            final(self).pending == old(self).pending,
            final(self).dry_run == old(self).dry_run,
            !final(self).failed,
            final(self).applied_ids@ == old(self).applied_ids@.push(id),
    {
        self.applied_ids.push(id);
    }

    /// Records that the batch's next migration failed: the run must roll
    /// back.
    pub fn record_failure(&mut self)
        requires
            old(self).wf(),
        ensures
            final(self).wf(),
            final(self).pending == old(self).pending,
            final(self).dry_run == old(self).dry_run,
            final(self).applied_ids == old(self).applied_ids,
            final(self).failed,
    {
        self.failed = true;
    }

    /// Replays the session's outcome on a snapshot of the store's
    /// entries: what the store holds once the transaction committed or
    /// rolled back.
    pub fn finish(self, before: Vec<MigrationEntry>) -> (r: Vec<MigrationEntry>)
        requires
            self.wf(),
        ensures
            entry_views(r@) == self.store_after(entry_views(before@)),
    {
        let ghost sess = self;
        let ghost b0 = entry_views(before@);
        if self.failed || self.dry_run || self.applied_ids.len() < self.pending.len() {
            return before;
        }
        let ApplySession { pending, applied_ids, dry_run: _, failed: _ } = self;
        let ghost n = pending@.len();
        let mut out = before;
        let mut rest = pending;
        let total = applied_ids.len();
        let mut j: usize = 0;
        proof {
            assert(entry_views(out@) =~= b0 + sess.new_entries().subrange(0, 0));
            assert(planned_views(rest@) =~= planned_views(sess.pending@).subrange(0, n as int));
        }
        while rest.len() > 0
            invariant
                sess.wf(),
                sess.commits(),
                n == sess.pending@.len(),
                applied_ids@ == sess.applied_ids@,
                total == n,
                0 <= j <= n,
                j + rest@.len() == n,
                planned_views(rest@) == planned_views(sess.pending@).subrange(j as int, n as int),
                entry_views(out@) == b0 + sess.new_entries().subrange(0, j as int),
            decreases rest@.len(),
        {
            let ghost old_rest = planned_views(rest@);
            let ghost old_rest_vec = rest@;
            let ghost old_out = entry_views(out@);
            let p = rest.remove(0);
            let id = applied_ids[j];
            out.push(MigrationEntry { id: Some(id), filename: p.filename, hash: p.hash, timestamp: None });
            proof {
                assert(old_rest[0] == planned_views(sess.pending@)[j as int]);
                assert(rest@ =~= old_rest_vec.drop_first());
                assert forall|i: int| 0 <= i < rest@.len() implies #[trigger] planned_views(
                    rest@,
                )[i] == planned_views(sess.pending@).subrange(j + 1, n as int)[i] by {
                    assert(rest@[i] == old_rest_vec[i + 1]);
                    assert(planned_views(old_rest_vec)[i + 1] == old_rest_vec[i + 1]@);
                }
                assert(planned_views(rest@) =~= planned_views(sess.pending@).subrange(
                    j + 1,
                    n as int,
                ));
                assert(entry_views(out@) =~= old_out + seq![sess.new_entries()[j as int]]);
                assert(entry_views(out@) =~= b0 + sess.new_entries().subrange(0, j + 1));
            }
            j = j + 1;
        }
        proof {
            assert(sess.new_entries().subrange(0, n as int) =~= sess.new_entries());
        }
        out
    }
}

/// Law: a session that does not commit leaves the store's entries exactly
/// as they were — nothing from a rolled-back run is ever persisted.
pub proof fn lemma_no_commit_keeps_store(s: ApplySession, before: Seq<EntryModel>)
    requires
        !s.commits(),
    ensures
        s.store_after(before) == before,
{
}

/// Law: a dry run never changes the store's entries, whether or not the
/// batch succeeded.
pub proof fn lemma_dry_run_keeps_store(s: ApplySession, before: Seq<EntryModel>)
    requires
        s.dry_run,
    ensures
        s.store_after(before) == before,
{
}

/// Law: once any migration of the batch fails, the store's entries stay
/// as they were — migrations applied earlier in the run are undone.
pub proof fn lemma_failed_run_keeps_store(s: ApplySession, before: Seq<EntryModel>)
    requires
        s.failed,
    ensures
        s.store_after(before) == before,
{
}

/// Law: a committing session advances the store by exactly its batch:
/// every earlier entry stays, and one record per pending migration is
/// appended, in batch order, carrying its filename, hash, and assigned
/// identifier.
pub proof fn lemma_commit_advances_store(s: ApplySession, before: Seq<EntryModel>)
    requires
        s.wf(),
        s.commits(),
    ensures
        s.store_after(before).len() == before.len() + s.pending@.len(),
        forall|i: int| 0 <= i < before.len() ==> s.store_after(before)[i] == before[i],
        forall|i: int|
            0 <= i < s.pending@.len() ==> {
                let e = #[trigger] s.store_after(before)[before.len() + i];
                &&& e.filename == planned_views(s.pending@)[i].filename
                &&& e.hash == planned_views(s.pending@)[i].hash
                &&& e.id == Some(s.applied_ids@[i])
            },
{
}

/// Law (force mode): when the whole batch succeeds, the run persists one
/// record for every disk file the store did not know — and only such
/// files, so no drifted or missing entry is ever rewritten.
pub proof fn lemma_commit_persists_pending(
    stored: Seq<EntryModel>,
    disk: Seq<PlannedModel>,
    s: ApplySession,
)
    requires
        s.wf(),
        s.commits(),
        planned_views(s.pending@) == pending_of(stored, disk),
    ensures
        s.new_entries().len() == pending_of(stored, disk).len(),
        forall|i: int|
            0 <= i < s.new_entries().len() ==> !stored_has_name(
                stored,
                (#[trigger] s.new_entries()[i]).filename,
            ),
        forall|i: int|
            0 <= i < disk.len() && !stored_has_name(stored, (#[trigger] disk[i]).filename)
                ==> exists|k: int|
                0 <= k < s.new_entries().len() && (#[trigger] s.new_entries()[k]).filename
                    == disk[i].filename && s.new_entries()[k].hash == disk[i].hash,
{
    lemma_pending_props(stored, disk);
    let pend = pending_of(stored, disk);
    assert forall|i: int|
        0 <= i < disk.len() && !stored_has_name(stored, (#[trigger] disk[i]).filename)
        implies exists|k: int|
        0 <= k < s.new_entries().len() && (#[trigger] s.new_entries()[k]).filename
            == disk[i].filename && s.new_entries()[k].hash == disk[i].hash by {
        assert(pend.contains(disk[i]));
        let w = choose|w: int| 0 <= w < pend.len() && pend[w] == disk[i];
        assert(s.new_entries()[w].filename == disk[i].filename);
        assert(s.new_entries()[w].hash == disk[i].hash);
    }
}

} // verus!

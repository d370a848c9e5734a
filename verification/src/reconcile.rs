//! Classification of on-disk migrations against the stored history.
//!
//! Every stored entry is either unchanged (a disk file with its name and
//! hash exists), drifted (the file exists but its hash differs), or
//! missing (no file carries its name). Any drifted or missing entry is an
//! integrity violation: without force the whole run aborts before any
//! migration is applied; with force violations are skipped. Disk files
//! whose names the store does not know are the pending set, kept in apply
//! order.

use vstd::prelude::*;
use vstd::relations::sorted_by;
use crate::entry::{EntryModel, MigrationEntry, entry_views};
use crate::hash::{content_hash, hash_content};
use crate::scan::{SqlFile, file_names, file_views, lemma_lex_antisymmetric, lex_rel};

verus! {

/// One migration that a run may apply: filename, content hash, and the
/// full SQL text to execute.
#[derive(Debug)]
pub struct PlannedMigration {
    pub filename: String,
    pub hash: String,
    pub sql: String,
}

/// The mathematical value of a planned migration.
pub ghost struct PlannedModel {
    pub filename: Seq<char>,
    pub hash: Seq<char>,
    pub sql: Seq<char>,
}

impl View for PlannedMigration {
    type V = PlannedModel;

    open spec fn view(&self) -> PlannedModel {
        PlannedModel { filename: self.filename@, hash: self.hash@, sql: self.sql@ }
    }
}

/// The models of a list of planned migrations.
pub open spec fn planned_views(v: Seq<PlannedMigration>) -> Seq<PlannedModel> {
    v.map_values(|p: PlannedMigration| p@)
}

/// Whether some disk file carries the name.
pub open spec fn disk_has_name(disk: Seq<PlannedModel>, name: Seq<char>) -> bool {
    exists|i: int| 0 <= i < disk.len() && (#[trigger] disk[i]).filename == name
}

/// Whether some disk file carries both the name and the hash.
pub open spec fn disk_has_entry(disk: Seq<PlannedModel>, name: Seq<char>, hash: Seq<char>) -> bool {
    exists|i: int|
        0 <= i < disk.len() && (#[trigger] disk[i]).filename == name && disk[i].hash == hash
}

/// Whether the store knows the name.
pub open spec fn stored_has_name(stored: Seq<EntryModel>, name: Seq<char>) -> bool {
    exists|i: int| 0 <= i < stored.len() && (#[trigger] stored[i]).filename == name
}

/// A previously applied migration whose file is gone.
pub open spec fn entry_missing(disk: Seq<PlannedModel>, e: EntryModel) -> bool {
    !disk_has_name(disk, e.filename)
}

/// A previously applied migration whose file was edited afterwards.
pub open spec fn entry_drifted(disk: Seq<PlannedModel>, e: EntryModel) -> bool {
    disk_has_name(disk, e.filename) && !disk_has_entry(disk, e.filename, e.hash)
}

/// Whether the stored entry is an integrity violation against the disk:
/// drifted or missing.
pub open spec fn entry_violates(disk: Seq<PlannedModel>, e: EntryModel) -> bool {
    !disk_has_entry(disk, e.filename, e.hash)
}

/// Whether any stored entry is drifted or missing.
pub open spec fn has_violation(disk: Seq<PlannedModel>, stored: Seq<EntryModel>) -> bool {
    exists|i: int| 0 <= i < stored.len() && entry_violates(disk, #[trigger] stored[i])
}

/// No two disk files carry one name.
pub open spec fn unique_names(disk: Seq<PlannedModel>) -> bool {
    forall|i: int, j: int|
        0 <= i < j < disk.len() ==> (#[trigger] disk[i]).filename != (#[trigger] disk[j]).filename
}

/// Index of the first violating stored entry, or the number of stored
/// entries when none violates.
pub open spec fn first_violation(disk: Seq<PlannedModel>, stored: Seq<EntryModel>) -> int
    decreases stored.len(),
{
    if stored.len() == 0 {
        0
    } else if entry_violates(disk, stored[0]) {
        0
    } else {
        1 + first_violation(disk, stored.drop_first())
    }
}

/// `first_violation` points at the first violating entry, and runs off the
/// end exactly when nothing violates.
pub proof fn lemma_first_violation_props(disk: Seq<PlannedModel>, stored: Seq<EntryModel>)
    ensures
        0 <= first_violation(disk, stored) <= stored.len(),
        first_violation(disk, stored) < stored.len() ==> entry_violates(
            disk,
            stored[first_violation(disk, stored)],
        ),
        forall|j: int|
            0 <= j < first_violation(disk, stored) ==> !entry_violates(disk, #[trigger] stored[j]),
        first_violation(disk, stored) == stored.len() <==> !has_violation(disk, stored),
    decreases stored.len(),
{
    if stored.len() == 0 {
    } else if entry_violates(disk, stored[0]) {
    } else {
        let t = stored.drop_first();
        lemma_first_violation_props(disk, t);
        assert forall|j: int|
            0 <= j < first_violation(disk, stored) implies !entry_violates(
            disk,
            #[trigger] stored[j],
        ) by {
            if j > 0 {
                assert(t[j - 1] == stored[j]);
            }
        }
        if first_violation(disk, stored) == stored.len() {
            assert forall|i: int| 0 <= i < stored.len() implies !entry_violates(
                disk,
                #[trigger] stored[i],
            ) by {
                if i > 0 {
                    assert(t[i - 1] == stored[i]);
                }
            }
        } else {
            assert(stored[first_violation(disk, stored)] == t[first_violation(disk, t)]);
        }
    }
}

/// The kind of integrity violation found.
pub enum IntegrityKind {
    Drifted,
    Missing,
}

/// One integrity violation: which migration, and how it violates.
pub struct IntegrityViolation {
    pub kind: IntegrityKind,
    pub filename: String,
}

/// Index of the first disk file carrying the name.
fn find_by_name(disk: &Vec<PlannedMigration>, name: &String) -> (r: Option<usize>)
    ensures
        match r {
            Some(i) => 0 <= i < disk@.len() && planned_views(disk@)[i as int].filename == name@,
            None => !disk_has_name(planned_views(disk@), name@),
        },
{
    let mut i: usize = 0;
    while i < disk.len()
        invariant
            0 <= i <= disk@.len(),
            forall|j: int| 0 <= j < i ==> (#[trigger] planned_views(disk@)[j]).filename != name@,
        decreases disk@.len() - i,
    {
        if disk[i].filename == *name {
            return Some(i);
        }
        i = i + 1;
    }
    None
}

/// Classifies one stored entry against the disk: nothing when a file with
/// its name and hash stands there, otherwise how the entry violates.
fn classify_entry(e: &MigrationEntry, disk: &Vec<PlannedMigration>) -> (r: Option<IntegrityKind>)
    requires
        unique_names(planned_views(disk@)),
    ensures
        r is None <==> !entry_violates(planned_views(disk@), e@),
        r matches Some(k) ==> {
            &&& entry_violates(planned_views(disk@), e@)
            &&& (k is Missing <==> entry_missing(planned_views(disk@), e@))
            &&& (k is Drifted <==> entry_drifted(planned_views(disk@), e@))
        },
{
    let ghost dv = planned_views(disk@);
    match find_by_name(disk, &e.filename) {
        None => Some(IntegrityKind::Missing),
        Some(j) => {
            if disk[j].hash == e.hash {
                proof {
                    assert(disk_has_entry(dv, e@.filename, e@.hash));
                }
                None
            } else {
                proof {
                    let name = e@.filename;
                    assert forall|m: int|
                        0 <= m < dv.len() && (#[trigger] dv[m]).filename
                        == name implies dv[m].hash != e@.hash by {
                        if m != j {
                            assert(dv[m].filename != dv[j as int].filename);
                        }
                    }
                }
                Some(IntegrityKind::Drifted)
            }
        },
    }
}

/// Walks the stored history in order and reports the first drifted or
/// missing entry, or nothing when every stored entry is intact on disk.
pub fn check_integrity(stored: &Vec<MigrationEntry>, disk: &Vec<PlannedMigration>) -> (r: Option<
    IntegrityViolation,
>)
    requires
        unique_names(planned_views(disk@)),
    ensures
        r is None <==> !has_violation(planned_views(disk@), entry_views(stored@)),
        r matches Some(v) ==> {
            let k = first_violation(planned_views(disk@), entry_views(stored@));
            &&& k < stored@.len()
            &&& v.filename@ == entry_views(stored@)[k].filename
            &&& (v.kind is Missing <==> entry_missing(planned_views(disk@), entry_views(stored@)[k]))
            &&& (v.kind is Drifted <==> entry_drifted(planned_views(disk@), entry_views(stored@)[k]))
        },
{
    proof {
        lemma_first_violation_props(planned_views(disk@), entry_views(stored@));
    }
    let ghost dv = planned_views(disk@);
    let ghost sv = entry_views(stored@);
    let mut i: usize = 0;
    while i < stored.len()
        invariant
            0 <= i <= stored@.len(),
            dv == planned_views(disk@),
            sv == entry_views(stored@),
            unique_names(dv),
            forall|j: int| 0 <= j < i ==> !entry_violates(dv, #[trigger] sv[j]),
            first_violation(dv, sv) >= i,
        decreases stored@.len() - i,
    {
        proof {
            assert(sv[i as int] == stored@[i as int]@);
        }
        match classify_entry(&stored[i], disk) {
            None => {
                proof {
                    lemma_first_violation_props(dv, sv);
                }
            },
            Some(kind) => {
                proof {
                    lemma_first_violation_props(dv, sv);
                    assert(first_violation(dv, sv) == i);
                }
                return Some(
                    IntegrityViolation { kind, filename: stored[i].filename.clone() },
                );
            },
        }
        i = i + 1;
    }
    proof {
        lemma_first_violation_props(dv, sv);
    }
    None
}

/// The violating stored entries, in stored order.
pub open spec fn violators(disk: Seq<PlannedModel>, stored: Seq<EntryModel>) -> Seq<EntryModel>
    decreases stored.len(),
{
    if stored.len() == 0 {
        Seq::empty()
    } else {
        let prior = violators(disk, stored.drop_last());
        if entry_violates(disk, stored.last()) {
            prior.push(stored.last())
        } else {
            prior
        }
    }
}

/// There are violators exactly when some stored entry violates.
pub proof fn lemma_violators_empty(disk: Seq<PlannedModel>, stored: Seq<EntryModel>)
    ensures
        violators(disk, stored).len() == 0 <==> !has_violation(disk, stored),
    decreases stored.len(),
{
    if stored.len() > 0 {
        let t = stored.drop_last();
        lemma_violators_empty(disk, t);
        if entry_violates(disk, stored.last()) {
            assert(entry_violates(disk, stored[stored.len() - 1]));
        } else {
            if has_violation(disk, stored) {
                let i = choose|i: int|
                    0 <= i < stored.len() && entry_violates(disk, #[trigger] stored[i]);
                assert(t[i] == stored[i]);
            }
            if has_violation(disk, t) {
                let i = choose|i: int| 0 <= i < t.len() && entry_violates(disk, #[trigger] t[i]);
                assert(stored[i] == t[i]);
            }
        }
    }
}

/// Lists every drifted or missing stored entry, in stored order: one
/// violation per violating record, with how it violates.
pub fn all_violations(stored: &Vec<MigrationEntry>, disk: &Vec<PlannedMigration>) -> (r: Vec<
    IntegrityViolation,
>)
    requires
        unique_names(planned_views(disk@)),
    ensures
        r@.len() == violators(planned_views(disk@), entry_views(stored@)).len(),
        forall|k: int|
            0 <= k < r@.len() ==> {
                let e = violators(planned_views(disk@), entry_views(stored@))[k];
                &&& (#[trigger] r@[k]).filename@ == e.filename
                &&& (r@[k].kind is Missing <==> entry_missing(planned_views(disk@), e))
                &&& (r@[k].kind is Drifted <==> entry_drifted(planned_views(disk@), e))
            },
        r@.len() == 0 <==> !has_violation(planned_views(disk@), entry_views(stored@)),
{
    let ghost dv = planned_views(disk@);
    let ghost sv = entry_views(stored@);
    proof {
        lemma_violators_empty(dv, sv);
        assert(violators(dv, sv.subrange(0, 0)) =~= Seq::<EntryModel>::empty());
    }
    let mut out: Vec<IntegrityViolation> = Vec::new();
    let mut i: usize = 0;
    while i < stored.len()
        invariant
            0 <= i <= stored@.len(),
            dv == planned_views(disk@),
            sv == entry_views(stored@),
            unique_names(dv),
            out@.len() == violators(dv, sv.subrange(0, i as int)).len(),
            forall|k: int|
                0 <= k < out@.len() ==> {
                    let e = violators(dv, sv.subrange(0, i as int))[k];
                    &&& (#[trigger] out@[k]).filename@ == e.filename
                    &&& (out@[k].kind is Missing <==> entry_missing(dv, e))
                    &&& (out@[k].kind is Drifted <==> entry_drifted(dv, e))
                },
        decreases stored@.len() - i,
    {
        let ghost pre = violators(dv, sv.subrange(0, i as int));
        let ghost old_out = out@;
        proof {
            assert(sv[i as int] == stored@[i as int]@);
            assert(sv.subrange(0, i + 1).drop_last() =~= sv.subrange(0, i as int));
            assert(sv.subrange(0, i + 1).last() == sv[i as int]);
        }
        match classify_entry(&stored[i], disk) {
            None => {
                proof {
                    assert(violators(dv, sv.subrange(0, i + 1)) == pre);
                }
            },
            Some(kind) => {
                out.push(IntegrityViolation { kind, filename: stored[i].filename.clone() });
                proof {
                    let cur = violators(dv, sv.subrange(0, i + 1));
                    assert(cur == pre.push(sv[i as int]));
                    assert forall|k: int|
                        0 <= k < out@.len() implies {
                        let e = cur[k];
                        &&& (#[trigger] out@[k]).filename@ == e.filename
                        &&& (out@[k].kind is Missing <==> entry_missing(dv, e))
                        &&& (out@[k].kind is Drifted <==> entry_drifted(dv, e))
                    } by {
                        if k < out@.len() - 1 {
                            assert(out@[k] == old_out[k]);
                            assert(cur[k] == pre[k]);
                        } else {
                            assert(cur[k] == sv[i as int]);
                        }
                    }
                }
            },
        }
        i = i + 1;
    }
    proof {
        assert(sv.subrange(0, sv.len() as int) =~= sv);
    }
    out
}


/// The pending migrations: the disk files whose names the store does not
/// know, in disk order.
pub open spec fn pending_of(stored: Seq<EntryModel>, disk: Seq<PlannedModel>) -> Seq<PlannedModel>
    decreases disk.len(),
{
    if disk.len() == 0 {
        Seq::empty()
    } else {
        let rest = pending_of(stored, disk.drop_first());
        if stored_has_name(stored, disk[0].filename) {
            rest
        } else {
            seq![disk[0]] + rest
        }
    }
}

/// Every pending migration is a disk file the store does not know, and
/// every such disk file is pending.
pub proof fn lemma_pending_props(stored: Seq<EntryModel>, disk: Seq<PlannedModel>)
    ensures
        forall|k: int|
            0 <= k < pending_of(stored, disk).len() ==> !stored_has_name(
                stored,
                (#[trigger] pending_of(stored, disk)[k]).filename,
            ) && disk.contains(pending_of(stored, disk)[k]),
        forall|i: int|
            0 <= i < disk.len() && !stored_has_name(stored, (#[trigger] disk[i]).filename)
                ==> pending_of(stored, disk).contains(disk[i]),
    decreases disk.len(),
{
    if disk.len() > 0 {
        let t = disk.drop_first();
        let rest = pending_of(stored, t);
        lemma_pending_props(stored, t);
        let p = pending_of(stored, disk);
        assert forall|k: int|
            0 <= k < p.len() implies !stored_has_name(stored, (#[trigger] p[k]).filename)
            && disk.contains(p[k]) by {
            if stored_has_name(stored, disk[0].filename) {
                assert(p[k] == rest[k]);
                let w = choose|w: int| 0 <= w < t.len() && t[w] == rest[k];
                assert(disk[w + 1] == p[k]);
            } else {
                if k > 0 {
                    assert(p[k] == rest[k - 1]);
                    let w = choose|w: int| 0 <= w < t.len() && t[w] == rest[k - 1];
                    assert(disk[w + 1] == p[k]);
                } else {
                    assert(disk[0] == p[0]);
                }
            }
        }
        assert forall|i: int|
            0 <= i < disk.len() && !stored_has_name(stored, (#[trigger] disk[i]).filename)
            implies p.contains(disk[i]) by {
            if i == 0 {
                assert(p[0] == disk[0]);
            } else {
                assert(t[i - 1] == disk[i]);
                assert(rest.contains(t[i - 1]));
                let w = choose|w: int| 0 <= w < rest.len() && rest[w] == t[i - 1];
                if stored_has_name(stored, disk[0].filename) {
                    assert(p[w] == disk[i]);
                } else {
                    assert(p[w + 1] == disk[i]);
                }
            }
        }
    }
}

/// Keeps exactly the migrations the store does not know, in order.
pub fn pending_migrations(stored: &Vec<MigrationEntry>, disk: Vec<PlannedMigration>) -> (r: Vec<
    PlannedMigration,
>)
    ensures
        planned_views(r@) == pending_of(entry_views(stored@), planned_views(disk@)),
{
    let ghost sv = entry_views(stored@);
    let ghost all = planned_views(disk@);
    let mut rest = disk;
    let mut out: Vec<PlannedMigration> = Vec::new();
    proof {
        assert(planned_views(out@) =~= Seq::<PlannedModel>::empty());
    }
    while rest.len() > 0
        invariant
            sv == entry_views(stored@),
            pending_of(sv, all) == planned_views(out@) + pending_of(sv, planned_views(rest@)),
        decreases rest@.len(),
    {
        let ghost old_rest = planned_views(rest@);
        let ghost old_out = planned_views(out@);
        let p = rest.remove(0);
        proof {
            assert(planned_views(rest@) =~= old_rest.drop_first());
        }
        let keep = find_stored_by_name(stored, &p.filename).is_none();
        if keep {
            out.push(p);
            proof {
                assert(planned_views(out@) =~= old_out + seq![old_rest[0]]);
                assert(old_out + (seq![old_rest[0]] + pending_of(sv, old_rest.drop_first()))
                    =~= planned_views(out@) + pending_of(sv, planned_views(rest@)));
            }
        }
    }
    proof {
        assert(pending_of(sv, planned_views(rest@)) =~= Seq::<PlannedModel>::empty());
        assert(pending_of(sv, all) =~= planned_views(out@));
    }
    out
}

/// Index of the first stored entry carrying the name.
fn find_stored_by_name(stored: &Vec<MigrationEntry>, name: &String) -> (r: Option<usize>)
    ensures
        match r {
            Some(i) => 0 <= i < stored@.len() && entry_views(stored@)[i as int].filename == name@,
            None => !stored_has_name(entry_views(stored@), name@),
        },
{
    let mut i: usize = 0;
    while i < stored.len()
        invariant
            0 <= i <= stored@.len(),
            forall|j: int| 0 <= j < i ==> (#[trigger] entry_views(stored@)[j]).filename != name@,
        decreases stored@.len() - i,
    {
        if stored[i].filename == *name {
            return Some(i);
        }
        i = i + 1;
    }
    None
}

/// What a run decides after reconciliation: abort on the named violation,
/// or apply exactly the given pending migrations.
pub enum RunPlan {
    Abort(IntegrityViolation),
    Apply(Vec<PlannedMigration>),
}

/// Reconciles disk against store and decides the run. Without force any
/// drifted or missing entry aborts the whole run; with force such entries
/// are skipped. An applied plan holds exactly the pending migrations, in
/// disk order.
pub fn plan_run(stored: &Vec<MigrationEntry>, disk: Vec<PlannedMigration>, force: bool) -> (r:
    RunPlan)
    requires
        unique_names(planned_views(disk@)),
    ensures
        r is Abort <==> (!force && has_violation(planned_views(disk@), entry_views(stored@))),
        r matches RunPlan::Abort(v) ==> {
            let k = first_violation(planned_views(disk@), entry_views(stored@));
            &&& k < stored@.len()
            &&& v.filename@ == entry_views(stored@)[k].filename
            &&& (v.kind is Missing <==> entry_missing(planned_views(disk@), entry_views(stored@)[k]))
            &&& (v.kind is Drifted <==> entry_drifted(planned_views(disk@), entry_views(stored@)[k]))
        },
        r matches RunPlan::Apply(p) ==> planned_views(p@) == pending_of(
            entry_views(stored@),
            planned_views(disk@),
        ),
{
    if !force {
        if let Some(v) = check_integrity(stored, &disk) {
            return RunPlan::Abort(v);
        }
    }
    RunPlan::Apply(pending_migrations(stored, disk))
}


/// In a listing sorted by name, a repeated name has a repeat next door.
pub proof fn lemma_sorted_duplicate_adjacent(names: Seq<Seq<char>>, i: int, j: int)
    requires
        sorted_by(names, lex_rel()),
        0 <= i < j < names.len(),
        names[i] == names[j],
    ensures
        names[i] == names[i + 1],
{
    assert(lex_rel()(names[i], names[i + 1]));
    if i + 1 < j {
        assert(lex_rel()(names[i + 1], names[j]));
    }
    lemma_lex_antisymmetric(names[i], names[i + 1]);
}

/// Hashes a sorted directory listing into the planned migrations, one per
/// file, in apply order. Two files carrying one base name would collapse
/// in a history keyed by filename, so such a listing is refused with the
/// repeated name.
pub fn plan_from_files(files: Vec<SqlFile>) -> (r: Result<Vec<PlannedMigration>, String>)
    requires
        sorted_by(file_names(files@), lex_rel()),
    ensures
        r matches Ok(p) ==> {
            &&& p@.len() == files@.len()
            &&& forall|k: int|
                0 <= k < p@.len() ==> {
                    let pm = #[trigger] planned_views(p@)[k];
                    &&& pm.filename == file_views(files@)[k].filename
                    &&& pm.hash == content_hash(file_views(files@)[k].text)
                    &&& pm.sql == file_views(files@)[k].text
                }
            &&& unique_names(planned_views(p@))
        },
        r is Err <==> exists|i: int, j: int|
            0 <= i < j < files@.len() && file_names(files@)[i] == file_names(files@)[j],
        r matches Err(name) ==> exists|i: int, j: int|
            0 <= i < j < files@.len() && file_names(files@)[i] == file_names(files@)[j]
                && name@ == file_names(files@)[i],
{
    let ghost all = file_views(files@);
    let ghost names = file_names(files@);
    let mut rest = files;
    let nf = rest.len();
    let mut out: Vec<PlannedMigration> = Vec::new();
    let mut k: usize = 0;
    while rest.len() > 0
        invariant
            all == file_views(files@),
            names == file_names(files@),
            sorted_by(names, lex_rel()),
            nf == files@.len(),
            0 <= k <= nf,
            k + rest@.len() == files@.len(),
            forall|i: int| 0 <= i < rest@.len() ==> #[trigger] rest@[i] == files@[k + i],
            out@.len() == k,
            forall|m: int|
                0 <= m < k ==> {
                    let pm = #[trigger] planned_views(out@)[m];
                    &&& pm.filename == all[m].filename
                    &&& pm.hash == content_hash(all[m].text)
                    &&& pm.sql == all[m].text
                },
            forall|i: int, j: int| 0 <= i < j < k ==> names[i] != names[j],
        decreases rest@.len(),
    {
        let ghost old_rest = rest@;
        let f = rest.remove(0);
        proof {
            assert(rest@ =~= old_rest.drop_first());
            assert(f == files@[k as int]);
        }
        proof {
            assert(names[k as int] == files@[k as int]@.filename);
            if k > 0 {
                assert(planned_views(out@)[k - 1].filename == out@[k - 1].filename@);
                assert(names[k - 1] == all[k - 1].filename);
            }
        }
        if k > 0 && out[k - 1].filename == f.filename {
            proof {
                assert(names[k - 1] == names[k as int]);
            }
            return Err(f.filename);
        }
        proof {
            if k > 0 {
                assert(names[k - 1] != names[k as int]);
                assert forall|i: int| 0 <= i < k implies names[i] != names[k as int] by {
                    if names[i] == names[k as int] {
                        lemma_sorted_duplicate_adjacent(names, i, k as int);
                        assert(names[i] == names[i + 1]);
                        if i + 1 < k {
                            assert(names[i + 1] == names[k as int]);
                        }
                    }
                }
            }
        }
        let hash = hash_content(f.text.as_str());
        let ghost fv = f@;
        let ghost old_out = out@;
        let pm = PlannedMigration { filename: f.filename, hash, sql: f.text };
        out.push(pm);
        k = k + 1;
        proof {
            assert(out@ == old_out.push(pm));
            assert forall|m: int|
                0 <= m < k implies {
                let q = #[trigger] planned_views(out@)[m];
                &&& q.filename == all[m].filename
                &&& q.hash == content_hash(all[m].text)
                &&& q.sql == all[m].text
            } by {
                if m < k - 1 {
                    assert(out@[m] == old_out[m]);
                    assert(planned_views(old_out)[m] == old_out[m]@);
                } else {
                    assert(out@[m] == pm);
                    assert(pm@.filename == fv.filename);
                    assert(pm@.sql == fv.text);
                    assert(all[k - 1] == files@[k - 1]@);
                }
            }
        }
    }
    proof {
        assert forall|i: int, j: int|
            0 <= i < j < planned_views(out@).len() implies (#[trigger] planned_views(out@)[i]).filename
            != (#[trigger] planned_views(out@)[j]).filename by {
            assert(planned_views(out@)[i].filename == all[i].filename);
            assert(all[i].filename == names[i]);
            assert(all[j].filename == names[j]);
        }
    }
    Ok(out)
}

} // verus!

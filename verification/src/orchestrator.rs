//! The patching sequence and what each failure in it leads to. The
//! original archive is replaced only by the rename that commits the new
//! one; a failure before that leaves it as it was, a failure from that
//! rename on puts the backup back over it, and a failure from the copy of
//! the archive on removes the temporary files.
use crate::error::AppError;
use crate::feishu_locator::InstallInfo;
use crate::patcher::PatchReport;
use crate::state::{is_cleared, FeishuState, PatchSource, PatchesState, State};
use vstd::prelude::*;

verus! {

/// What applying the patch did.
#[derive(Debug)]
pub struct ApplyReport {
    pub patches_attempted: u32,
    pub patches_hit: u32,
    pub files_modified: Vec<String>,
    pub backup_path: String,
    pub hash_before: String,
    pub hash_after: String,
}

/// The steps of applying a patch, in order.
#[derive(Debug, Clone, Copy, PartialEq, Eq, Structural)]
pub enum ApplyStep {
    /// Refuse when `<archive>.bak` already exists.
    CheckBackup,
    /// Fingerprint the archive.
    HashBefore,
    /// Copy the archive to `<archive>.bak.tmp`.
    CopyToBackupTmp,
    /// Remove what an earlier run left in the work directory.
    ClearWorkDir,
    /// Unpack the archive into the work directory and apply the rules.
    ExtractAndPatch,
    /// Pack the work directory into `<archive>.new`.
    Repack,
    /// Rename `<archive>.bak.tmp` to `<archive>.bak`.
    CommitBackup,
    /// Rename `<archive>.new` over the archive.
    CommitArchive,
    /// Fingerprint the new archive.
    HashAfter,
    /// Record the new state.
    SaveState,
    /// Remove the work directory.
    RemoveWorkDir,
}

/// Temporary things that a failure may have to remove.
#[derive(Debug, Clone, Copy, PartialEq, Eq, Structural)]
pub enum Artifact {
    BackupTmp,
    NewArchive,
    WorkDir,
}

/// What follows a step.
#[derive(Debug)]
pub enum StepOutcome {
    /// Go on with this step.
    Continue(ApplyStep),
    /// The patch is applied.
    Done,
    /// Stop with the step's error, after putting `<archive>.bak` back over
    /// the archive if `restore_backup` says so (ignoring a failure of that)
    /// and removing the listed artifacts (ignoring failures).
    Fail { cleanup: Vec<Artifact>, restore_backup: bool },
}

/// The step that follows a successful one.
pub open spec fn next_step(s: ApplyStep) -> Option<ApplyStep> {
    match s {
        ApplyStep::CheckBackup => Some(ApplyStep::HashBefore),
        ApplyStep::HashBefore => Some(ApplyStep::CopyToBackupTmp),
        ApplyStep::CopyToBackupTmp => Some(ApplyStep::ClearWorkDir),
        ApplyStep::ClearWorkDir => Some(ApplyStep::ExtractAndPatch),
        ApplyStep::ExtractAndPatch => Some(ApplyStep::Repack),
        ApplyStep::Repack => Some(ApplyStep::CommitBackup),
        ApplyStep::CommitBackup => Some(ApplyStep::CommitArchive),
        ApplyStep::CommitArchive => Some(ApplyStep::HashAfter),
        ApplyStep::HashAfter => Some(ApplyStep::SaveState),
        ApplyStep::SaveState => Some(ApplyStep::RemoveWorkDir),
        ApplyStep::RemoveWorkDir => None,
    }
}

/// The steps after whose failure every temporary artifact is removed and
/// nothing else is needed: from the copy of the archive up to the commit
/// of the backup.
pub open spec fn cleans_up_all(s: ApplyStep) -> bool {
    s == ApplyStep::CopyToBackupTmp || s == ApplyStep::ClearWorkDir || s == ApplyStep::ExtractAndPatch
        || s == ApplyStep::Repack || s == ApplyStep::CommitBackup
}

/// The steps after whose failure the backup is put back over the archive:
/// the rename over the archive and the steps after it that can fail the
/// patch (fingerprinting the new archive and recording the state).
pub open spec fn restores_backup(s: ApplyStep) -> bool {
    s == ApplyStep::CommitArchive || s == ApplyStep::HashAfter || s == ApplyStep::SaveState
}

/// Every temporary artifact.
pub open spec fn all_artifacts() -> Seq<Artifact> {
    seq![Artifact::BackupTmp, Artifact::NewArchive, Artifact::WorkDir]
}

/// What follows a step that succeeded or failed: the next step after a
/// success (a failure to remove the work directory at the end is ignored);
/// after a failure from the rename over the archive on, the backup is put
/// back over the archive and the new archive and work directory are
/// removed (the backup's temporary copy no longer exists by then); after a
/// failure from the copy of the archive up to the commit of the backup,
/// every temporary artifact is removed; a failure before that stops at
/// once.
pub open spec fn outcome_for(step: ApplyStep, succeeded: bool, r: StepOutcome) -> bool {
    if succeeded || step == ApplyStep::RemoveWorkDir {
        match next_step(step) {
            Some(n) => r == StepOutcome::Continue(n),
            None => r is Done,
        }
    } else if restores_backup(step) {
        r matches StepOutcome::Fail { cleanup, restore_backup } && cleanup@ == seq![
            Artifact::NewArchive,
            Artifact::WorkDir,
        ] && restore_backup
    } else if cleans_up_all(step) {
        r matches StepOutcome::Fail { cleanup, restore_backup } && cleanup@ == all_artifacts()
            && !restore_backup
    } else {
        r matches StepOutcome::Fail { cleanup, restore_backup } && cleanup@.len() == 0
            && !restore_backup
    }
}

/// What follows a step (see `outcome_for`).
pub fn after_step(step: ApplyStep, succeeded: bool) -> (r: StepOutcome)
    ensures
        outcome_for(step, succeeded, r),
{
    if succeeded || step == ApplyStep::RemoveWorkDir {
        return match step {
            ApplyStep::CheckBackup => StepOutcome::Continue(ApplyStep::HashBefore),
            ApplyStep::HashBefore => StepOutcome::Continue(ApplyStep::CopyToBackupTmp),
            ApplyStep::CopyToBackupTmp => StepOutcome::Continue(ApplyStep::ClearWorkDir),
            ApplyStep::ClearWorkDir => StepOutcome::Continue(ApplyStep::ExtractAndPatch),
            ApplyStep::ExtractAndPatch => StepOutcome::Continue(ApplyStep::Repack),
            ApplyStep::Repack => StepOutcome::Continue(ApplyStep::CommitBackup),
            ApplyStep::CommitBackup => StepOutcome::Continue(ApplyStep::CommitArchive),
            ApplyStep::CommitArchive => StepOutcome::Continue(ApplyStep::HashAfter),
            ApplyStep::HashAfter => StepOutcome::Continue(ApplyStep::SaveState),
            ApplyStep::SaveState => StepOutcome::Continue(ApplyStep::RemoveWorkDir),
            ApplyStep::RemoveWorkDir => StepOutcome::Done,
        };
    }
    let mut cleanup: Vec<Artifact> = Vec::new();
    match step {
        ApplyStep::CheckBackup | ApplyStep::HashBefore => StepOutcome::Fail {
            cleanup,
            restore_backup: false,
        },
        ApplyStep::CommitArchive | ApplyStep::HashAfter | ApplyStep::SaveState => {
            cleanup.push(Artifact::NewArchive);
            cleanup.push(Artifact::WorkDir);
            proof {
                assert(cleanup@ =~= seq![Artifact::NewArchive, Artifact::WorkDir]);
            }
            StepOutcome::Fail { cleanup, restore_backup: true }
        },
        _ => {
            cleanup.push(Artifact::BackupTmp);
            cleanup.push(Artifact::NewArchive);
            cleanup.push(Artifact::WorkDir);
            proof {
                assert(cleanup@ =~= all_artifacts());
            }
            StepOutcome::Fail { cleanup, restore_backup: false }
        },
    }
}

// ---------------------------------------------------------------------------
// The files that the sequence touches, and what each step does to them
// ---------------------------------------------------------------------------

/// What the archive holds.
pub enum ArchiveContent {
    Original,
    Patched,
}

/// The files that the sequence touches: the archive, the backup
/// `<archive>.bak` (which only ever holds the original), and whether each
/// temporary artifact exists.
pub struct FsModel {
    pub archive: ArchiveContent,
    pub backup: bool,
    pub backup_tmp: bool,
    pub new_archive: bool,
    pub work_dir: bool,
}

/// The steps in the order they run.
pub open spec fn step_at(i: int) -> ApplyStep {
    if i <= 0 {
        ApplyStep::CheckBackup
    } else if i == 1 {
        ApplyStep::HashBefore
    } else if i == 2 {
        ApplyStep::CopyToBackupTmp
    } else if i == 3 {
        ApplyStep::ClearWorkDir
    } else if i == 4 {
        ApplyStep::ExtractAndPatch
    } else if i == 5 {
        ApplyStep::Repack
    } else if i == 6 {
        ApplyStep::CommitBackup
    } else if i == 7 {
        ApplyStep::CommitArchive
    } else if i == 8 {
        ApplyStep::HashAfter
    } else if i == 9 {
        ApplyStep::SaveState
    } else {
        ApplyStep::RemoveWorkDir
    }
}

/// The number of steps.
pub open spec fn step_count() -> int {
    11
}

/// What a step that succeeds does to the files.
pub open spec fn step_effect(s: ApplyStep, m: FsModel) -> FsModel {
    match s {
        ApplyStep::CopyToBackupTmp => FsModel { backup_tmp: true, ..m },
        ApplyStep::ClearWorkDir => FsModel { work_dir: false, ..m },
        ApplyStep::ExtractAndPatch => FsModel { work_dir: true, ..m },
        ApplyStep::Repack => FsModel { new_archive: true, ..m },
        ApplyStep::CommitBackup => FsModel { backup_tmp: false, backup: true, ..m },
        ApplyStep::CommitArchive => FsModel { new_archive: false, archive: ArchiveContent::Patched, ..m },
        ApplyStep::RemoveWorkDir => FsModel { work_dir: false, ..m },
        _ => m,
    }
}

/// The files after the first `k` steps succeeded.
pub open spec fn run_steps(m: FsModel, k: int) -> FsModel
    decreases k,
{
    if k <= 0 {
        m
    } else {
        step_effect(step_at(k - 1), run_steps(m, k - 1))
    }
}

/// What a step that fails may have done to the files: a copy, unpacking or
/// packing may have left a partial file or directory, and the removal of
/// the work directory may have removed part of it; a failed rename, a read
/// or the writing of the state changes none of them.
pub open spec fn failed_effect(s: ApplyStep, m: FsModel, m2: FsModel) -> bool {
    match s {
        ApplyStep::CopyToBackupTmp => m2 == FsModel { backup_tmp: m2.backup_tmp, ..m },
        ApplyStep::ClearWorkDir | ApplyStep::ExtractAndPatch | ApplyStep::RemoveWorkDir => m2
            == FsModel { work_dir: m2.work_dir, ..m },
        ApplyStep::Repack => m2 == FsModel { new_archive: m2.new_archive, ..m },
        _ => m2 == m,
    }
}

/// Whether an artifact is in the list.
pub open spec fn lists_artifact(cleanup: Seq<Artifact>, a: Artifact) -> bool {
    cleanup.contains(a)
}

/// What carrying out a failure's outcome does when every rename and removal
/// in it succeeds: the backup is renamed over the archive if the outcome
/// says so, then the listed artifacts are removed.
pub open spec fn cleaned(r: StepOutcome, m: FsModel) -> FsModel {
    match r {
        StepOutcome::Fail { cleanup, restore_backup } => {
            let restored = if restore_backup && m.backup {
                FsModel { archive: ArchiveContent::Original, backup: false, ..m }
            } else {
                m
            };
            FsModel {
                backup_tmp: restored.backup_tmp && !lists_artifact(cleanup@, Artifact::BackupTmp),
                new_archive: restored.new_archive && !lists_artifact(cleanup@, Artifact::NewArchive),
                work_dir: restored.work_dir && !lists_artifact(cleanup@, Artifact::WorkDir),
                ..restored
            }
        },
        _ => m,
    }
}

/// What carrying out a failure's outcome may do when removals can fail
/// (their failures are ignored): if the outcome puts the backup back and
/// the rename of the backup over the archive succeeds (`renamed`), the
/// archive is the original again and the backup is gone, otherwise both
/// are left as they were; each listed artifact is removed or left.
pub open spec fn carried_out(r: StepOutcome, m: FsModel, m2: FsModel, renamed: bool) -> bool {
    match r {
        StepOutcome::Fail { cleanup, restore_backup } => {
            &&& if restore_backup && m.backup && renamed {
                m2.archive == ArchiveContent::Original && !m2.backup
            } else {
                m2.archive == m.archive && m2.backup == m.backup
            }
            &&& m2.backup_tmp ==> m.backup_tmp
            &&& m2.new_archive ==> m.new_archive
            &&& m2.work_dir ==> m.work_dir
            &&& !lists_artifact(cleanup@, Artifact::BackupTmp) ==> m2.backup_tmp == m.backup_tmp
            &&& !lists_artifact(cleanup@, Artifact::NewArchive) ==> m2.new_archive == m.new_archive
            &&& !lists_artifact(cleanup@, Artifact::WorkDir) ==> m2.work_dir == m.work_dir
        },
        _ => m2 == m,
    }
}

/// The files before the sequence starts: the original archive, no backup
/// and no temporary file (a work directory may be left from an earlier
/// run).
pub open spec fn fresh(m: FsModel) -> bool {
    &&& m.archive == ArchiveContent::Original
    &&& !m.backup
    &&& !m.backup_tmp
    &&& !m.new_archive
}

proof fn lemma_run_prefix(m: FsModel, k: int)
    requires
        fresh(m),
        0 <= k <= step_count(),
    ensures
        k <= 7 ==> run_steps(m, k).archive == ArchiveContent::Original,
        k <= 6 ==> !run_steps(m, k).backup,
        k >= 7 ==> run_steps(m, k).backup,
        k >= 8 ==> run_steps(m, k).archive == ArchiveContent::Patched,
        k <= 2 ==> !run_steps(m, k).backup_tmp,
        k >= 7 ==> !run_steps(m, k).backup_tmp,
        k <= 5 ==> !run_steps(m, k).new_archive,
        k >= 8 ==> !run_steps(m, k).new_archive,
        k == step_count() ==> !run_steps(m, k).work_dir,
    decreases k,
{
    if k > 0 {
        lemma_run_prefix(m, k - 1);
    }
}

/// A patch that fails at any step leaves the original archive in place,
/// whatever the failing step had done and whichever removals fail in turn:
/// up to the rename over the archive it was never replaced, and after it
/// the backup is renamed back over it. Only if that rename itself fails is
/// the original left in the backup instead. A failure to remove the work
/// directory at the very end does not fail the patch.
pub proof fn lemma_failure_keeps_original(
    m0: FsModel,
    k: int,
    m2: FsModel,
    r: StepOutcome,
    m3: FsModel,
    renamed: bool,
)
    requires
        fresh(m0),
        0 <= k < step_count(),
        failed_effect(step_at(k), run_steps(m0, k), m2),
        outcome_for(step_at(k), false, r),
        carried_out(r, m2, m3, renamed),
    ensures
        k == step_count() - 1 <==> r is Done,
        r is Fail && (k <= 7 || renamed) ==> m3.archive == ArchiveContent::Original,
        r is Fail ==> m3.archive == ArchiveContent::Original || m3.backup,
{
    lemma_run_prefix(m0, k);
}

/// A patch that fails from the copy of the archive on, with the clean-up
/// succeeding, leaves the original archive and nothing else: no backup and
/// no temporary file.
pub proof fn lemma_failure_leaves_no_trace(m0: FsModel, k: int, m2: FsModel, r: StepOutcome)
    requires
        fresh(m0),
        2 <= k < step_count() - 1,
        failed_effect(step_at(k), run_steps(m0, k), m2),
        outcome_for(step_at(k), false, r),
    ensures
        cleaned(r, m2) == (FsModel {
            archive: ArchiveContent::Original,
            backup: false,
            backup_tmp: false,
            new_archive: false,
            work_dir: false,
        }),
{
    lemma_run_prefix(m0, k);
    let m1 = run_steps(m0, k);
    if k >= 7 {
        assert(m1.backup);
        assert(seq![Artifact::NewArchive, Artifact::WorkDir].contains(Artifact::NewArchive)) by {
            assert(seq![Artifact::NewArchive, Artifact::WorkDir][0] == Artifact::NewArchive);
        }
        assert(seq![Artifact::NewArchive, Artifact::WorkDir].contains(Artifact::WorkDir)) by {
            assert(seq![Artifact::NewArchive, Artifact::WorkDir][1] == Artifact::WorkDir);
        }
    } else {
        assert(all_artifacts()[0] == Artifact::BackupTmp);
        assert(all_artifacts()[1] == Artifact::NewArchive);
        assert(all_artifacts()[2] == Artifact::WorkDir);
    }
}

/// A run in which every step succeeds ends with the patched archive, the
/// original in the backup and no temporary file.
pub proof fn lemma_success_ends_patched(m0: FsModel)
    requires
        fresh(m0),
    ensures
        run_steps(m0, step_count()) == (FsModel {
            archive: ArchiveContent::Patched,
            backup: true,
            backup_tmp: false,
            new_archive: false,
            work_dir: false,
        }),
{
    lemma_run_prefix(m0, step_count());
}

/// What restoring does to the files once `check_restore` has found the
/// backup: the backup is renamed over the archive.
pub open spec fn restore_effect(m: FsModel) -> FsModel {
    FsModel { archive: ArchiveContent::Original, backup: false, ..m }
}

/// Restoring after a successful patch gives back the original archive,
/// with no backup and no temporary file left: the backup that restoring
/// needs is there, and renaming it over the archive puts the original
/// back. The state recorded then keeps the schema of the patch's record
/// (1) and records neither a patch nor rules.
pub proof fn lemma_patch_then_restore(
    m0: FsModel,
    install: InstallInfo,
    patch_version: Seq<char>,
    hash_before: Seq<char>,
    hash_after: Seq<char>,
    patched_at: Seq<char>,
    patched: State,
    restored: State,
)
    requires
        fresh(m0),
        records_patch(patched, install, patch_version, hash_before, hash_after, patched_at),
        is_cleared(restored, patched),
    ensures
        run_steps(m0, step_count()).backup,
        restore_effect(run_steps(m0, step_count())) == (FsModel {
            archive: ArchiveContent::Original,
            backup: false,
            backup_tmp: false,
            new_archive: false,
            work_dir: false,
        }),
        restored.schema == 1,
        restored.feishu is None,
        restored.patches is None,
{
    lemma_run_prefix(m0, step_count());
}

/// The sequence replaces the archive only right after the backup is
/// committed.
pub proof fn lemma_commit_order()
    ensures
        next_step(ApplyStep::CommitBackup) == Some(ApplyStep::CommitArchive),
        forall|s: ApplyStep| next_step(s) == Some(ApplyStep::CommitArchive) ==> s == ApplyStep::CommitBackup,
{
}

/// Checks before restoring: the backup must exist.
pub fn check_restore(bak_exists: bool, bak_path: &str) -> (r: Result<(), AppError>)
    ensures
        bak_exists <==> r is Ok,
        !bak_exists ==> (r matches Err(AppError::BackupMissing(p)) && p@ == bak_path@),
{
    if bak_exists {
        Ok(())
    } else {
        Err(AppError::BackupMissing(bak_path.to_owned()))
    }
}

/// Checks before patching: the backup must not exist yet.
pub fn check_no_backup(bak_exists: bool, bak_path: &str) -> (r: Result<(), AppError>)
    ensures
        !bak_exists <==> r is Ok,
        bak_exists ==> (r matches Err(AppError::BackupExists(p)) && p@ == bak_path@),
{
    if bak_exists {
        Err(AppError::BackupExists(bak_path.to_owned()))
    } else {
        Ok(())
    }
}

/// The state recorded after patching: schema 1, the installation with its
/// fingerprints and version (empty when unknown), and the built-in rules'
/// version.
pub open spec fn records_patch(
    s: State,
    install: InstallInfo,
    patch_version: Seq<char>,
    hash_before: Seq<char>,
    hash_after: Seq<char>,
    patched_at: Seq<char>,
) -> bool {
    &&& s.schema == 1
    &&& s.feishu matches Some(f) && f.path@ == install.install_path@ && f.version_seen@ == (match install.version {
        Some(v) => v@,
        None => Seq::empty(),
    }) && f.asar_hash_before@ == hash_before && f.asar_hash_after@ == hash_after
        && f.patched_at@ == patched_at
    &&& s.patches matches Some(p) && p.active_version@ == patch_version && p.active_source
        == PatchSource::Builtin && p.remote_pubkey_fingerprint is None
}

/// The state to record after patching (see `records_patch`).
pub fn patched_state(
    install: &InstallInfo,
    patch_version: &str,
    hash_before: &str,
    hash_after: &str,
    patched_at: &str,
) -> (s: State)
    ensures
        records_patch(s, *install, patch_version@, hash_before@, hash_after@, patched_at@),
{
    let version_seen = match &install.version {
        Some(v) => v.clone(),
        None => String::new(),
    };
    State {
        schema: 1,
        feishu: Some(
            FeishuState {
                path: install.install_path.clone(),
                version_seen,
                asar_hash_before: hash_before.to_owned(),
                asar_hash_after: hash_after.to_owned(),
                patched_at: patched_at.to_owned(),
            },
        ),
        patches: Some(
            PatchesState {
                active_version: patch_version.to_owned(),
                active_source: PatchSource::Builtin,
                remote_pubkey_fingerprint: None,
            },
        ),
    }
}

/// The report of a successful patch.
pub fn apply_report(report: PatchReport, backup_path: String, hash_before: String, hash_after: String) -> (r:
    ApplyReport)
    ensures
        r.patches_attempted == report.patches_attempted,
        r.patches_hit == report.patches_hit,
        r.files_modified == report.files_modified,
        r.backup_path == backup_path,
        r.hash_before == hash_before,
        r.hash_after == hash_after,
{
    ApplyReport {
        patches_attempted: report.patches_attempted,
        patches_hit: report.patches_hit,
        files_modified: report.files_modified,
        backup_path,
        hash_before,
        hash_after,
    }
}

} // verus!

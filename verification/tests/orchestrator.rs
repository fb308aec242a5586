use feishu_unreadme_app::error::AppError;
use feishu_unreadme_app::feishu_locator::InstallInfo;
use feishu_unreadme_app::orchestrator::{
    after_step, apply_report, check_no_backup, check_restore, patched_state, ApplyStep, Artifact, StepOutcome,
};
use feishu_unreadme_app::patcher::PatchReport;
use feishu_unreadme_app::state::PatchSource;

fn install() -> InstallInfo {
    InstallInfo {
        install_path: "/Applications/Lark.app".into(),
        asar_path: "/Applications/Lark.app/Contents/Resources/webcontent/messenger.asar".into(),
        version: Some("7.31.5".into()),
        is_running: false,
    }
}

#[test]
fn success_walks_every_step_in_order() {
    let mut step = ApplyStep::CheckBackup;
    let mut seen = vec![step];
    loop {
        match after_step(step, true) {
            StepOutcome::Continue(n) => {
                step = n;
                seen.push(n);
            }
            StepOutcome::Done => break,
            StepOutcome::Fail { .. } => panic!("no failure expected"),
        }
    }
    assert_eq!(
        seen,
        vec![
            ApplyStep::CheckBackup,
            ApplyStep::HashBefore,
            ApplyStep::CopyToBackupTmp,
            ApplyStep::ClearWorkDir,
            ApplyStep::ExtractAndPatch,
            ApplyStep::Repack,
            ApplyStep::CommitBackup,
            ApplyStep::CommitArchive,
            ApplyStep::HashAfter,
            ApplyStep::SaveState,
            ApplyStep::RemoveWorkDir,
        ]
    );
}

#[test]
fn failure_after_copy_removes_every_artifact() {
    for step in [
        ApplyStep::CopyToBackupTmp,
        ApplyStep::ClearWorkDir,
        ApplyStep::ExtractAndPatch,
        ApplyStep::Repack,
        ApplyStep::CommitBackup,
    ] {
        match after_step(step, false) {
            StepOutcome::Fail { cleanup, restore_backup } => {
                assert_eq!(cleanup, vec![Artifact::BackupTmp, Artifact::NewArchive, Artifact::WorkDir]);
                assert!(!restore_backup);
            }
            other => panic!("unexpected {other:?}"),
        }
    }
}

#[test]
fn failure_from_archive_rename_on_restores_backup() {
    for step in [ApplyStep::CommitArchive, ApplyStep::HashAfter, ApplyStep::SaveState] {
        match after_step(step, false) {
            StepOutcome::Fail { cleanup, restore_backup } => {
                assert_eq!(cleanup, vec![Artifact::NewArchive, Artifact::WorkDir]);
                assert!(restore_backup);
            }
            other => panic!("unexpected {other:?}"),
        }
    }
}

#[test]
fn early_failure_stops_without_cleanup() {
    for step in [ApplyStep::CheckBackup, ApplyStep::HashBefore] {
        match after_step(step, false) {
            StepOutcome::Fail { cleanup, restore_backup } => {
                assert!(cleanup.is_empty());
                assert!(!restore_backup);
            }
            other => panic!("unexpected {other:?}"),
        }
    }
    assert!(matches!(after_step(ApplyStep::RemoveWorkDir, false), StepOutcome::Done));
}

#[test]
fn existing_backup_blocks_apply_check() {
    assert!(matches!(check_no_backup(true, "/x/messenger.asar.bak"), Err(AppError::BackupExists(p)) if p == "/x/messenger.asar.bak"));
    assert!(check_no_backup(false, "/x/messenger.asar.bak").is_ok());
}

#[test]
fn restore_needs_backup() {
    assert!(matches!(check_restore(false, "/x/messenger.asar.bak"), Err(AppError::BackupMissing(p)) if p == "/x/messenger.asar.bak"));
    assert!(check_restore(true, "/x/messenger.asar.bak").is_ok());
}

#[test]
fn patched_state_records_install_and_hashes() {
    let s = patched_state(&install(), "2026-05-15", "sha256:before", "sha256:after", "2026-05-14T00:00:00Z");
    assert_eq!(s.schema, 1);
    let f = s.feishu.unwrap();
    assert_eq!(f.path, "/Applications/Lark.app");
    assert_eq!(f.version_seen, "7.31.5");
    assert_eq!(f.asar_hash_before, "sha256:before");
    assert_eq!(f.asar_hash_after, "sha256:after");
    let p = s.patches.unwrap();
    assert_eq!(p.active_version, "2026-05-15");
    assert_eq!(p.active_source, PatchSource::Builtin);
    assert!(p.remote_pubkey_fingerprint.is_none());
}

#[test]
fn patched_state_without_version_records_empty() {
    let mut i = install();
    i.version = None;
    let s = patched_state(&i, "v", "a", "b", "t");
    assert_eq!(s.feishu.unwrap().version_seen, "");
}

#[test]
fn apply_report_copies_fields() {
    let report = PatchReport {
        patches_attempted: 2,
        patches_hit: 2,
        files_modified: vec!["a.js".into()],
        per_patch: vec![("p".into(), 1)],
    };
    let r = apply_report(report, "bak".into(), "h1".into(), "h2".into());
    assert_eq!(r.patches_attempted, 2);
    assert_eq!(r.patches_hit, 2);
    assert_eq!(r.files_modified, vec!["a.js".to_string()]);
    assert_eq!(r.backup_path, "bak");
    assert_eq!(r.hash_before, "h1");
    assert_eq!(r.hash_after, "h2");
}

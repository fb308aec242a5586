use feishu_unreadme_app::commands::{derive_patch_state, PatchUiState};
use feishu_unreadme_app::digest::sha256_label;
use feishu_unreadme_app::feishu_locator::InstallInfo;
use feishu_unreadme_app::state::{initial_state, FeishuState, PatchSource, PatchesState, State};

fn install(version: Option<&str>) -> InstallInfo {
    InstallInfo {
        install_path: "/Applications/Lark.app".into(),
        asar_path: "/Applications/Lark.app/Contents/Resources/webcontent/messenger.asar".into(),
        version: version.map(|v| v.to_string()),
        is_running: false,
    }
}

fn patched(after: &str) -> State {
    State {
        schema: 1,
        feishu: Some(FeishuState {
            path: "/Applications/Lark.app".into(),
            version_seen: "7.31.5".into(),
            asar_hash_before: "sha256:before".into(),
            asar_hash_after: after.into(),
            patched_at: "2026-05-14T00:00:00Z".into(),
        }),
        patches: Some(PatchesState {
            active_version: "2026-05-15".into(),
            active_source: PatchSource::Builtin,
            remote_pubkey_fingerprint: None,
        }),
    }
}

#[test]
fn nothing_recorded_and_no_backup_is_unpatched() {
    let r = derive_patch_state(&install(Some("7.31.5")), &initial_state(), false, None);
    assert!(matches!(r, PatchUiState::Unpatched));
}

#[test]
fn nothing_recorded_but_backup_is_unknown() {
    let r = derive_patch_state(&install(Some("7.31.5")), &initial_state(), true, None);
    assert!(matches!(r, PatchUiState::Unknown));
}

#[test]
fn matching_hash_and_version_is_patched() {
    let contents = b"patched archive";
    let s = patched(&sha256_label(contents));
    match derive_patch_state(&install(Some("7.31.5")), &s, true, Some(contents)) {
        PatchUiState::Patched { feishu_version, patch_version } => {
            assert_eq!(feishu_version, "7.31.5");
            assert_eq!(patch_version, "2026-05-15");
        }
        other => panic!("unexpected {other:?}"),
    }
}

#[test]
fn changed_archive_with_backup_is_stale() {
    let s = patched(&sha256_label(b"patched archive"));
    match derive_patch_state(&install(Some("7.31.5")), &s, true, Some(b"updated by feishu")) {
        PatchUiState::Stale { feishu_version_seen } => assert_eq!(feishu_version_seen, "7.31.5"),
        other => panic!("unexpected {other:?}"),
    }
}

#[test]
fn matching_hash_is_patched_whatever_the_version() {
    let contents = b"patched archive";
    let s = patched(&sha256_label(contents));
    for version in [Some("7.40.0"), None] {
        match derive_patch_state(&install(version), &s, false, Some(contents)) {
            PatchUiState::Patched { feishu_version, patch_version } => {
                assert_eq!(feishu_version, "7.31.5");
                assert_eq!(patch_version, "2026-05-15");
            }
            other => panic!("unexpected {other:?}"),
        }
    }
}

#[test]
fn changed_archive_without_backup_is_unknown() {
    let s = patched(&sha256_label(b"patched archive"));
    let r = derive_patch_state(&install(Some("7.31.5")), &s, false, Some(b"other"));
    assert!(matches!(r, PatchUiState::Unknown));
}

#[test]
fn unreadable_archive_is_unknown() {
    let s = patched("sha256:after");
    let r = derive_patch_state(&install(Some("7.31.5")), &s, true, None);
    assert!(matches!(r, PatchUiState::Unknown));
}

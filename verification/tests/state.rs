use feishu_unreadme_app::state::{cleared_state, initial_state, state_file, FeishuState, PatchSource, PatchesState, State};

#[test]
fn load_missing_returns_empty_v1() {
    let s = initial_state();
    assert_eq!(s.schema, 1);
    assert!(s.feishu.is_none());
}

#[test]
fn state_file_is_state_json_in_dir() {
    let p = state_file("/tmp/some/dir");
    let expected = std::path::Path::new("/tmp/some/dir").join("state.json");
    assert_eq!(p, expected.to_string_lossy());
    assert!(p.starts_with("/tmp/some/dir"));
    assert!(p.ends_with("state.json"));
}

#[test]
fn default_state_is_schema_zero() {
    let s = State::default();
    assert_eq!(s.schema, 0);
    assert!(s.feishu.is_none());
    assert!(s.patches.is_none());
}

#[test]
fn cleared_state_keeps_schema_only() {
    let s = State {
        schema: 1,
        feishu: Some(FeishuState {
            path: "/Applications/Lark.app".into(),
            version_seen: "7.31.5".into(),
            asar_hash_before: "sha256:before".into(),
            asar_hash_after: "sha256:after".into(),
            patched_at: "2026-05-14T00:00:00Z".into(),
        }),
        patches: Some(PatchesState {
            active_version: "2026-05-14".into(),
            active_source: PatchSource::Builtin,
            remote_pubkey_fingerprint: None,
        }),
    };
    let c = cleared_state(s);
    assert_eq!(c.schema, 1);
    assert!(c.feishu.is_none());
    assert!(c.patches.is_none());
}

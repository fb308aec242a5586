use feishu_unreadme_app::error::AppError;
use feishu_unreadme_app::feishu_locator::{
    bundle_version, default_candidates, detect, find_messenger_asar, validate, DirEntry, DirListing, EntryKind,
    PathProbe, Platform,
};

fn file(path: &str, name: &str) -> DirEntry {
    DirEntry { path: path.to_string(), file_name: Some(name.to_string()), kind: EntryKind::NotDir }
}

fn dir(path: &str, name: &str, entries: Vec<DirEntry>) -> DirEntry {
    DirEntry {
        path: path.to_string(),
        file_name: Some(name.to_string()),
        kind: EntryKind::Dir(DirListing::Entries(entries)),
    }
}

/// A root holding `Contents/Resources/webcontent/messenger.asar`.
fn install_tree(root: &str) -> DirListing {
    let web = format!("{root}/Contents/Resources/webcontent");
    DirListing::Entries(vec![dir(
        &format!("{root}/Contents"),
        "Contents",
        vec![dir(
            &format!("{root}/Contents/Resources"),
            "Resources",
            vec![dir(
                &web,
                "webcontent",
                vec![file(&format!("{web}/messenger.asar"), "messenger.asar")],
            )],
        )],
    )])
}

#[test]
fn validate_nonexistent_path_returns_not_found() {
    let probe = PathProbe {
        root: "/definitely/not/here".to_string(),
        exists: false,
        listing: DirListing::Unreadable,
        info_plist: None,
    };
    let err = validate(&probe).unwrap_err();
    assert!(matches!(err, AppError::FeishuNotFound(_)));
}

#[test]
fn validate_dir_without_messenger_asar_returns_not_found() {
    let probe = PathProbe {
        root: "/tmp/empty-dir".to_string(),
        exists: true,
        listing: DirListing::Entries(Vec::new()),
        info_plist: None,
    };
    let err = validate(&probe).unwrap_err();
    assert!(matches!(err, AppError::FeishuNotFound(_)));
}

#[test]
fn validate_dir_with_messenger_asar_returns_info() {
    let root = "/tmp/fake-install";
    let probe = PathProbe {
        root: root.to_string(),
        exists: true,
        listing: install_tree(root),
        info_plist: None,
    };
    let info = validate(&probe).unwrap();
    assert!(info.asar_path.ends_with("webcontent/messenger.asar"));
    assert!(!info.is_running);
}

#[test]
fn validate_reports_the_chosen_directory_when_not_found() {
    let probe = PathProbe {
        root: "/x/y".to_string(),
        exists: true,
        listing: DirListing::Unreadable,
        info_plist: None,
    };
    match validate(&probe) {
        Err(AppError::FeishuNotFound(paths)) => assert_eq!(paths, vec!["/x/y".to_string()]),
        other => panic!("expected FeishuNotFound, got {other:?}"),
    }
}

const INFO_PLIST: &str = r#"<?xml version="1.0" encoding="UTF-8"?>
<!DOCTYPE plist PUBLIC "-//Apple//DTD PLIST 1.0//EN" "http://www.apple.com/DTDs/PropertyList-1.0.dtd">
<plist version="1.0">
<dict>
    <key>CFBundleName</key>
    <string>Lark</string>
    <key>CFBundleShortVersionString</key>
    <string>7.31.5</string>
</dict>
</plist>
"#;

#[test]
fn bundle_version_reads_the_short_version_string() {
    assert_eq!(bundle_version(Some(INFO_PLIST.as_bytes())).as_deref(), Some("7.31.5"));
    assert_eq!(bundle_version(None), None);
    assert_eq!(bundle_version(Some(b"not a plist")), None);
    let without = INFO_PLIST.replace("CFBundleShortVersionString", "CFBundleVersion");
    assert_eq!(bundle_version(Some(without.as_bytes())), None);
}

#[test]
fn validate_keeps_root_and_version() {
    let root = "/Applications/Lark.app";
    let probe = PathProbe {
        root: root.to_string(),
        exists: true,
        listing: install_tree(root),
        info_plist: Some(INFO_PLIST.as_bytes().to_vec()),
    };
    let info = validate(&probe).unwrap();
    assert_eq!(info.install_path, root);
    assert_eq!(
        info.asar_path,
        "/Applications/Lark.app/Contents/Resources/webcontent/messenger.asar"
    );
    assert_eq!(info.version.as_deref(), Some("7.31.5"));
}

#[test]
fn search_stops_at_six_levels() {
    // messenger.asar at depth 7 (a/b/c/d/e/f/messenger.asar) is out of reach
    let mut listing = DirListing::Entries(vec![file("/r/a/b/c/d/e/f/messenger.asar", "messenger.asar")]);
    for name in ["f", "e", "d", "c", "b", "a"] {
        listing = DirListing::Entries(vec![dir(&format!("/r/{name}"), name, match listing {
            DirListing::Entries(es) => es,
            DirListing::Unreadable => Vec::new(),
        })]);
    }
    assert_eq!(find_messenger_asar(&listing), None);
    // at depth 6 it is found
    let mut listing = DirListing::Entries(vec![file("/r/a/b/c/d/e/messenger.asar", "messenger.asar")]);
    for name in ["e", "d", "c", "b", "a"] {
        listing = DirListing::Entries(vec![dir(&format!("/r/{name}"), name, match listing {
            DirListing::Entries(es) => es,
            DirListing::Unreadable => Vec::new(),
        })]);
    }
    assert_eq!(find_messenger_asar(&listing), Some("/r/a/b/c/d/e/messenger.asar".to_string()));
}

#[test]
fn a_directory_named_messenger_asar_does_not_count() {
    let listing = DirListing::Entries(vec![
        dir("/r/messenger.asar", "messenger.asar", Vec::new()),
        file("/r/other/messenger.asar", "messenger.asar"),
    ]);
    assert_eq!(find_messenger_asar(&listing), Some("/r/other/messenger.asar".to_string()));
}

#[test]
fn detect_takes_first_candidate_with_an_install() {
    let probes = vec![
        PathProbe { root: "/a".to_string(), exists: false, listing: DirListing::Unreadable, info_plist: None },
        PathProbe { root: "/b".to_string(), exists: true, listing: install_tree("/b"), info_plist: None },
        PathProbe { root: "/c".to_string(), exists: true, listing: install_tree("/c"), info_plist: None },
    ];
    let info = detect(&probes).unwrap();
    assert_eq!(info.install_path, "/b");
}

#[test]
fn detect_lists_all_candidates_when_nothing_found() {
    let probes = vec![
        PathProbe { root: "/a".to_string(), exists: false, listing: DirListing::Unreadable, info_plist: None },
        PathProbe { root: "/b".to_string(), exists: true, listing: DirListing::Entries(Vec::new()), info_plist: None },
    ];
    match detect(&probes) {
        Err(AppError::FeishuNotFound(paths)) => assert_eq!(paths, vec!["/a".to_string(), "/b".to_string()]),
        other => panic!("expected FeishuNotFound, got {other:?}"),
    }
}

#[test]
fn default_candidates_per_platform() {
    assert_eq!(
        default_candidates(Platform::MacOs),
        vec![
            "/Applications/Lark.app".to_string(),
            "/Applications/Feishu.app".to_string(),
            "/Applications/飞书.app".to_string(),
        ]
    );
    assert!(default_candidates(Platform::Other).is_empty());
}

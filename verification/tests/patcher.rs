use feishu_unreadme_app::error::AppError;
use feishu_unreadme_app::patcher::{apply_patches, default_hits, plan_patches, JsFile, PatchRule};

fn js(path: &str, body: &str) -> JsFile {
    JsFile { path: path.to_string(), content: body.as_bytes().to_vec() }
}

fn rule(id: &str, regex: &str, payload: &str, required_hits: u32) -> PatchRule {
    PatchRule {
        id: id.into(),
        regex: regex.into(),
        payload: payload.into(),
        required_hits,
    }
}

fn content_of(outcome: &feishu_unreadme_app::patcher::PatchOutcome, path: &str) -> String {
    let f = outcome.patched.iter().find(|f| f.path == path).expect("file was patched");
    String::from_utf8(f.content.clone()).unwrap()
}

#[test]
fn applies_single_patch_inserts_at_start_of_match() {
    let files = vec![js("a.js", "x; log.info(\"updateMessagesMeRead\", t);")];
    let rules = vec![rule("r1", r#"\w+\.info\("updateMessagesMeRead""#, "/*PATCHED*/", 1)];
    let outcome = apply_patches(&files, &rules).unwrap();
    assert_eq!(outcome.report.patches_hit, 1);
    assert_eq!(outcome.report.hits_for("r1"), Some(1));
    let content = content_of(&outcome, "a.js");
    assert!(content.contains("/*PATCHED*/log.info"), "got: {content}");
}

#[test]
fn missing_required_hits_returns_patch_no_hit() {
    let files = vec![js("a.js", "x = 1;")];
    let rules = vec![rule("r1", r#"updateMessagesMeRead"#, "/*P*/", 1)];
    let err = apply_patches(&files, &rules).unwrap_err();
    match err {
        AppError::PatchNoHit { patch_id } => assert_eq!(patch_id, "r1"),
        other => panic!("expected PatchNoHit, got {other:?}"),
    }
}

#[test]
fn matches_full_member_chain_with_dot_in_charset() {
    let files = vec![js("a.js", "x; l.Ay.info(\"updateMessagesMeRead\", t);")];
    let rules = vec![rule("r1", r#"[\w.]+\.info\("updateMessagesMeRead""#, "INJ;", 1)];
    let outcome = apply_patches(&files, &rules).unwrap();
    let content = content_of(&outcome, "a.js");
    assert!(
        content.contains("INJ;l.Ay.info(\"updateMessagesMeRead\""),
        "got: {content}"
    );
    assert!(!content.contains("l.INJ;Ay"), "must not break member chain");
}

#[test]
fn reverse_order_keeps_offsets_correct_for_multiple_hits_in_one_file() {
    let files = vec![js(
        "a.js",
        "log.info(\"updateMessagesMeRead\", a); log.info(\"updateMessagesMeRead\", b);",
    )];
    let rules = vec![rule("r1", r#"log\.info\("updateMessagesMeRead""#, "X", 2)];
    let outcome = apply_patches(&files, &rules).unwrap();
    assert_eq!(outcome.report.hits_for("r1"), Some(2));
    let content = content_of(&outcome, "a.js");
    let count = content.matches("Xlog.info(\"updateMessagesMeRead\"").count();
    assert_eq!(count, 2, "got: {content}");
}

#[test]
fn exact_result_of_two_insertions() {
    let files = vec![js("a.js", "ab;ab")];
    let rules = vec![rule("r", "ab", "<>", 1)];
    let outcome = apply_patches(&files, &rules).unwrap();
    assert_eq!(content_of(&outcome, "a.js"), "<>ab;<>ab");
}

#[test]
fn insertions_at_one_offset_come_last_found_first() {
    // both rules match at offset 0; rule r1's match is found first
    let files = vec![js("a.js", "foo")];
    let rules = vec![rule("r1", "foo", "1", 1), rule("r2", "f", "2", 1)];
    let outcome = apply_patches(&files, &rules).unwrap();
    assert_eq!(content_of(&outcome, "a.js"), "21foo");
}

#[test]
fn untouched_files_are_not_reported() {
    let files = vec![js("a.js", "nothing"), js("b.js", "hit here"), js("c.js", "hit")];
    let rules = vec![rule("r", "hit", "!", 1)];
    let outcome = apply_patches(&files, &rules).unwrap();
    assert_eq!(outcome.report.files_modified, vec!["b.js".to_string(), "c.js".to_string()]);
    assert_eq!(outcome.patched.len(), 2);
    assert_eq!(content_of(&outcome, "b.js"), "!hit here");
    assert_eq!(outcome.report.patches_attempted, 1);
}

#[test]
fn hits_are_counted_over_all_files_and_by_id() {
    let files = vec![js("a.js", "k k"), js("b.js", "k")];
    let rules = vec![rule("same", "k", "", 3), rule("same", "zzz", "", 0), rule("other", "k", "", 0)];
    let outcome = apply_patches(&files, &rules).unwrap();
    assert_eq!(outcome.report.hits_for("same"), Some(3));
    assert_eq!(outcome.report.hits_for("other"), Some(3));
    assert_eq!(outcome.report.hits_for("missing"), None);
    // the table is ordered by id, each id once
    let ids: Vec<&str> = outcome.report.per_patch.iter().map(|(k, _)| k.as_str()).collect();
    assert_eq!(ids, vec!["other", "same"]);
    assert_eq!(outcome.report.patches_attempted, 3);
    assert_eq!(outcome.report.patches_hit, 3);
}

#[test]
fn first_rule_short_of_hits_is_reported() {
    let files = vec![js("a.js", "aaa")];
    let rules = vec![rule("ok", "a", "", 3), rule("short1", "b", "", 1), rule("short2", "c", "", 1)];
    match apply_patches(&files, &rules) {
        Err(AppError::PatchNoHit { patch_id }) => assert_eq!(patch_id, "short1"),
        other => panic!("expected PatchNoHit, got {other:?}"),
    }
}

#[test]
fn invalid_regex_is_an_internal_error_naming_the_rule() {
    let files = vec![js("a.js", "x")];
    let rules = vec![rule("bad", "foo(bar", "", 1)];
    match apply_patches(&files, &rules) {
        Err(AppError::Internal(msg)) => assert!(msg.starts_with("正则编译失败 bad: "), "got: {msg}"),
        other => panic!("expected Internal, got {other:?}"),
    }
}

#[test]
fn plan_uses_the_given_matches() {
    let files = vec![js("a.js", "0123456789")];
    let rules = vec![rule("r", "unused", "|", 2)];
    let matches = vec![vec![vec![3usize, 7usize]]];
    let outcome = plan_patches(&files, &rules, &matches).unwrap();
    assert_eq!(outcome.patched[0].content, b"012|3456|789".to_vec());
    assert_eq!(outcome.report.hits_for("r"), Some(2));
}

#[test]
fn payload_at_end_of_file() {
    let files = vec![js("a.js", "abc")];
    let rules = vec![rule("r", "", "|", 1)];
    let matches = vec![vec![vec![3usize]]];
    let outcome = plan_patches(&files, &rules, &matches).unwrap();
    assert_eq!(outcome.patched[0].content, b"abc|".to_vec());
}

#[test]
fn default_required_hits_is_one() {
    assert_eq!(default_hits(), 1);
}

#[test]
fn non_ascii_payload_is_inserted_as_utf8() {
    let files = vec![js("a.js", "x;log.info(1)")];
    let rules = vec![rule("p", r"log\.info", "/*补丁*/", 1)];
    let out = apply_patches(&files, &rules).unwrap();
    assert_eq!(content_of(&out, "a.js"), "x;/*补丁*/log.info(1)");
}

use min_review_bot::codeowners::CodeOwners;
use min_review_bot::conditional::OwnersConditional;
use min_review_bot::daemon::{pr_comment, pr_requirement, should_update_pr, tracked_author};
use min_review_bot::github::{
    changed_files, file_text, next_page, position_of_login, remove_prefix, strip_line_breaks,
    Error,
};

fn pair(a: &str, b: &str) -> (String, String) {
    (a.to_string(), b.to_string())
}

#[test]
fn remove_prefix_strips_a_or_b() {
    assert_eq!(remove_prefix("a/src/x.rs", false).expect("prefixed"), "src/x.rs");
    assert_eq!(remove_prefix("b/x", true).expect("prefixed"), "x");
    assert!(matches!(remove_prefix("b/x", false), Err(Error::InvalidDiffFile(f)) if f == "b/x"));
    assert!(matches!(remove_prefix("x", true), Err(Error::InvalidDiffFile(f)) if f == "x"));
}

#[test]
fn changed_files_collects_sources_and_targets() {
    let modified = vec![pair("a/src/m.rs", "b/src/m.rs")];
    let added = vec![pair("/dev/null", "b/new.rs")];
    let removed = vec![pair("a/old.rs", "/dev/null")];
    let files = changed_files(&modified, &added, &removed).expect("prefixed names");
    assert_eq!(
        files,
        vec!["new.rs".to_string(), "old.rs".to_string(), "src/m.rs".to_string()]
    );
}

#[test]
fn changed_files_refuses_the_first_unprefixed_name() {
    let modified = vec![pair("a/src/m.rs", "b/src/m.rs")];
    let added = vec![pair("/dev/null", "new.rs")];
    let removed = vec![pair("old.rs", "/dev/null")];
    assert!(matches!(
        changed_files(&modified, &added, &vec![]),
        Err(Error::InvalidDiffFile(f)) if f == "new.rs"
    ));
    assert!(matches!(
        changed_files(&modified, &added, &removed),
        Err(Error::InvalidDiffFile(f)) if f == "old.rs"
    ));
}

#[test]
fn file_text_decodes_one_item() {
    let text = file_text(vec![Some("aGVs\nbG8=\n".to_string())]).expect("valid content");
    assert_eq!(text, "hello");
}

#[test]
fn file_text_errors() {
    assert!(matches!(file_text(vec![]), Err(Error::GotMulticontent)));
    assert!(matches!(
        file_text(vec![Some("aGk=".to_string()), Some("aGk=".to_string())]),
        Err(Error::GotMulticontent)
    ));
    assert!(matches!(file_text(vec![None]), Err(Error::EmptyContents)));
    assert!(matches!(file_text(vec![Some("!!!".to_string())]), Err(Error::Base64Decode(_))));
    assert!(matches!(file_text(vec![Some("/w==".to_string())]), Err(Error::InvalidUtf8(_))));
}

#[test]
fn strip_line_breaks_removes_newlines_only() {
    assert_eq!(strip_line_breaks("a\nb c\n"), "ab c");
    assert_eq!(strip_line_breaks(""), "");
}

#[test]
fn position_of_login_finds_the_first() {
    let logins = vec!["x".to_string(), "bot".to_string(), "bot".to_string()];
    assert_eq!(position_of_login(&logins, "bot"), Some(1));
    assert_eq!(position_of_login(&logins, "nobody"), None);
}

#[test]
fn next_page_stops_on_an_empty_page() {
    assert_eq!(next_page(1, 100), Some(2));
    assert_eq!(next_page(3, 0), None);
    assert_eq!(next_page(u32::MAX, 5), None);
}

#[test]
fn should_update_pr_decisions() {
    let updates = vec![(7u64, 10u64), (8u64, 20u64)];
    assert!(!should_update_pr(7, Some(11), &updates, &vec![7]));
    assert!(should_update_pr(9, None, &updates, &vec![]));
    assert!(should_update_pr(7, Some(11), &updates, &vec![]));
    assert!(!should_update_pr(7, Some(10), &updates, &vec![]));
    assert!(!should_update_pr(8, None, &updates, &vec![]));
}

#[test]
fn pr_comment_layout() {
    assert_eq!(
        pr_comment("(@a)", "<ul></ul>"),
        "# File Owners\nThe minimum set of approvers required are:\n`(@a)`\n<details>\n    <summary>Details</summary>\n    <ul></ul>\n</details>"
    );
}

#[test]
fn tracked_author_needs_a_listed_login() {
    let users = vec!["alice".to_string(), "bob".to_string()];
    let alice = "alice".to_string();
    let carol = "carol".to_string();
    assert!(tracked_author(Some(&alice), &users));
    assert!(!tracked_author(Some(&carol), &users));
    assert!(!tracked_author(None, &users));
}

#[test]
fn pr_requirement_excludes_then_reduces() {
    let rules = CodeOwners::parse("*.rs @bot @core\ndocs/ @docs\n".to_string()).expect("rules parse");
    let files = ["src/a.rs", "src/b.rs", "docs/x.md"];
    assert_eq!(
        pr_requirement(&rules, &files, &vec!["@bot".to_string()]),
        OwnersConditional::And(vec![
            OwnersConditional::Owner("@docs".to_string()),
            OwnersConditional::Owner("@core".to_string()),
        ])
    );
    assert_eq!(
        pr_requirement(&rules, &["src/a.rs"], &vec!["@bot".to_string(), "@core".to_string()]),
        OwnersConditional::And(vec![])
    );
}

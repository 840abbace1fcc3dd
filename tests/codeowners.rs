use min_review_bot::codeowners::{matches_pattern, CodeOwners, ParseError};
use min_review_bot::github::{Error, Repo};

fn strings(list: &[&str]) -> Vec<String> {
    list.iter().map(|s| s.to_string()).collect()
}

fn patterns(rules: &CodeOwners) -> Vec<String> {
    rules.rules().iter().map(|r| r.pattern().to_string()).collect()
}

#[test]
fn one_rule_per_logical_line_in_order() {
    let text = "# owners\n\n/src/ @core\n*.md @docs @core # trailing\n\n   \nbin/\nlib/** @core\n";
    let rules = CodeOwners::parse(text.to_string()).expect("rules parse");
    assert_eq!(patterns(&rules), strings(&["/src/", "*.md", "bin/", "lib/**"]));
    let again = CodeOwners::parse(text.to_string()).expect("rules parse");
    assert_eq!(patterns(&again), patterns(&rules));
    assert_eq!(rules.rules()[1].owners(), &strings(&["@core", "@docs"]));
    assert!(rules.rules()[2].owners().is_empty());
}

#[test]
fn last_line_without_newline_is_kept() {
    let rules = CodeOwners::parse("a @x\nb @y".to_string()).expect("rules parse");
    assert_eq!(patterns(&rules), strings(&["a", "b"]));
    assert_eq!(rules.owners("b"), Some(strings(&["@y"])));
    let unowned = CodeOwners::parse("a".to_string()).expect("rules parse");
    assert_eq!(unowned.owners("a"), Some(vec![]));
}

#[test]
fn owners_collapse_and_sort() {
    let rules = CodeOwners::parse("a @z @b @z @org/team\n".to_string()).expect("rules parse");
    assert_eq!(rules.rules()[0].owners(), &strings(&["@b", "@org/team", "@z"]));
}

#[test]
fn empty_text_has_no_rules() {
    let rules = CodeOwners::parse(String::new()).expect("rules parse");
    assert!(rules.rules().is_empty());
    assert_eq!(rules.owners("anything"), None);
}

#[test]
fn owner_at_start_of_line_is_refused() {
    match CodeOwners::parse("docs/a @x\n@y z\n".to_string()) {
        Err(ParseError::OwnerStartLine(at, text)) => {
            assert_eq!(at, 10);
            assert_eq!(text, "@y");
        }
        other => panic!("unexpected {:?}", other),
    }
}

#[test]
fn offsets_count_bytes() {
    match CodeOwners::parse("# \u{e9}\n@y\n".to_string()) {
        Err(ParseError::OwnerStartLine(at, text)) => {
            assert_eq!(at, 5);
            assert_eq!(text, "@y");
        }
        other => panic!("unexpected {:?}", other),
    }
}

#[test]
fn two_paths_on_a_line_are_refused() {
    match CodeOwners::parse("a b\n".to_string()) {
        Err(ParseError::DoublePath(at, text)) => {
            assert_eq!(at, 2);
            assert_eq!(text, "b");
        }
        other => panic!("unexpected {:?}", other),
    }
}

#[test]
fn an_owner_followed_by_pattern_characters_is_a_path() {
    match CodeOwners::parse("a @x.y\n".to_string()) {
        Err(ParseError::DoublePath(at, text)) => {
            assert_eq!(at, 2);
            assert_eq!(text, "@x.y");
        }
        other => panic!("unexpected {:?}", other),
    }
}

#[test]
fn a_path_after_owners_is_refused() {
    match CodeOwners::parse("a @x b\n".to_string()) {
        Err(ParseError::PathAfterOwner(at, path)) => {
            assert_eq!(at, 5);
            assert_eq!(path, "a");
        }
        other => panic!("unexpected {:?}", other),
    }
}

#[test]
fn an_unknown_character_is_a_lex_failure() {
    match CodeOwners::parse("a ~\n".to_string()) {
        Err(ParseError::LexFailure(at, text)) => {
            assert_eq!(at, 2);
            assert_eq!(text, "~");
        }
        other => panic!("unexpected {:?}", other),
    }
    match CodeOwners::parse("a @x\r\n".to_string()) {
        Err(ParseError::LexFailure(at, text)) => {
            assert_eq!(at, 4);
            assert_eq!(text, "\r");
        }
        other => panic!("unexpected {:?}", other),
    }
}

#[test]
fn last_match_wins_regardless_of_specificity() {
    let specific_last = CodeOwners::parse("* @x\n/docs/ @y\n".to_string()).expect("rules parse");
    assert_eq!(specific_last.owners("docs/a.md"), Some(strings(&["@y"])));
    let general_last = CodeOwners::parse("/docs/ @y\n* @x\n".to_string()).expect("rules parse");
    assert_eq!(general_last.owners("docs/a.md"), Some(strings(&["@x"])));
}

#[test]
fn star_stays_within_a_segment() {
    assert!(matches_pattern("docs/readme.md", "docs/*"));
    assert!(matches_pattern("src/a.rs", "*.rs"));
    assert!(!matches_pattern("src/a.rs", "*.md"));
    assert!(!matches_pattern("src/a.rs", "/*.rs"));
    assert!(matches_pattern("a.rs", "/*.rs"));
}

#[test]
fn double_star_crosses_segments() {
    assert!(matches_pattern("a/b/c/d.txt", "a/**/d.txt"));
    assert!(matches_pattern("a/d.txt", "a/**/d.txt"));
    assert!(!matches_pattern("b/d.txt", "/a/**/d.txt"));
    assert!(matches_pattern("x/y/z", "**"));
}

#[test]
fn leading_slash_anchors_at_the_root() {
    assert!(matches_pattern("src/a.rs", "/src/*.rs"));
    assert!(!matches_pattern("lib/src/a.rs", "/src/*.rs"));
    assert!(matches_pattern("lib/src/a.rs", "src/*.rs"));
}

#[test]
fn trailing_slash_matches_directories_only() {
    assert!(!matches_pattern("docs", "docs/"));
    assert!(matches_pattern("docs/x.md", "docs/"));
    assert!(matches_pattern("a/docs/x.md", "docs/"));
    assert!(matches_pattern("apps/web/index.js", "apps"));
    assert!(matches_pattern("apps", "apps"));
}

#[test]
fn matching_is_case_sensitive() {
    assert!(!matches_pattern("README.md", "readme.md"));
    assert!(matches_pattern("README.md", "README.md"));
}

#[test]
fn repo_from_path() {
    let repo = Repo::from_path("rdelfin/async-zmq").expect("valid path");
    assert_eq!(repo.user(), "rdelfin");
    assert_eq!(repo.repo(), "async-zmq");
    assert!(matches!(Repo::from_path("a/b/c"), Err(Error::InvalidPath(p)) if p == "a/b/c"));
    assert!(matches!(Repo::from_path("nouser"), Err(Error::InvalidPath(p)) if p == "nouser"));
    let built = Repo::new("u".to_string(), "r".to_string());
    assert_eq!(built.user(), "u");
    assert_eq!(built.repo(), "r");
}

#[test]
fn cloned_rules_resolve_alike() {
    let rules = CodeOwners::parse("docs/* @z @a\n".to_string()).expect("rules parse");
    let copy = rules.clone();
    assert_eq!(copy.owners("docs/x.md"), Some(strings(&["@a", "@z"])));
    assert_eq!(patterns(&copy), patterns(&rules));
}

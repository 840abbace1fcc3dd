use min_review_bot::codeowners::CodeOwners;
use min_review_bot::conditional::OwnersConditional;

fn owner(name: &str) -> OwnersConditional {
    OwnersConditional::Owner(name.to_string())
}

fn names(list: &[&str]) -> Vec<String> {
    list.iter().map(|s| s.to_string()).collect()
}

#[test]
fn test_from_owners() {
    let owners_1 = names(&["owner_a", "owner_b"]);
    let owners_2 = names(&["owner_c"]);
    let owners_3 = names(&["owner_d"]);
    let owners_4 = names(&["owner_a"]);

    assert_eq!(
        OwnersConditional::from_owners_map(vec![
            ("a/file".to_string(), Some(owners_1)),
            ("b/file".to_string(), Some(owners_2)),
            ("d/file".to_string(), Some(owners_3)),
            ("e/file".to_string(), Some(owners_4)),
            ("w/file".to_string(), None),
        ]),
        OwnersConditional::And(vec![
            OwnersConditional::Or(vec![owner("owner_a"), owner("owner_b")]),
            owner("owner_c"),
            owner("owner_d"),
            owner("owner_a"),
        ])
    );
}

#[test]
fn test_reduce() {
    assert_eq!(
        OwnersConditional::And(vec![
            owner("owner_c"),
            owner("owner_d"),
            owner("owner_c"),
            owner("owner_c"),
            owner("owner_e"),
            owner("owner_c"),
        ])
        .reduce(),
        OwnersConditional::And(vec![owner("owner_c"), owner("owner_d"), owner("owner_e")])
    );

    assert_eq!(
        OwnersConditional::And(vec![
            owner("owner_c"),
            owner("owner_a"),
            OwnersConditional::Or(vec![owner("owner_c"), owner("owner_e")]),
        ])
        .reduce(),
        OwnersConditional::And(vec![owner("owner_c"), owner("owner_a")])
    );
}

#[test]
fn test_remove() {
    let exclude_owners = names(&["owner_a", "owner_d"]);
    assert_eq!(
        OwnersConditional::And(vec![owner("owner_a"), owner("owner_b"), owner("owner_c")])
            .remove_all(&exclude_owners)
            .expect("remove_all gave empty owners")
            .reduce(),
        OwnersConditional::And(vec![owner("owner_b"), owner("owner_c")])
    );

    assert_eq!(
        OwnersConditional::And(vec![
            OwnersConditional::Or(vec![owner("owner_a"), owner("owner_d")]),
            owner("owner_b"),
            owner("owner_c"),
        ])
        .remove_all(&exclude_owners)
        .expect("remove_all gave empty owners")
        .reduce(),
        OwnersConditional::And(vec![owner("owner_b"), owner("owner_c")])
    );

    assert_eq!(
        OwnersConditional::Or(vec![
            OwnersConditional::And(vec![owner("owner_a"), owner("owner_d")]),
            owner("owner_b"),
            owner("owner_c"),
        ])
        .remove_all(&exclude_owners)
        .expect("remove_all gave empty owners")
        .reduce(),
        OwnersConditional::Or(vec![owner("owner_b"), owner("owner_c")])
    );

    assert_eq!(
        OwnersConditional::And(vec![
            OwnersConditional::Or(vec![owner("owner_a"), owner("owner_e")]),
            owner("owner_b"),
            owner("owner_c"),
        ])
        .remove_all(&exclude_owners)
        .expect("remove_all gave empty owners")
        .reduce(),
        OwnersConditional::And(vec![owner("owner_e"), owner("owner_b"), owner("owner_c")])
    );

    assert_eq!(
        OwnersConditional::And(vec![owner("owner_a"), owner("owner_d")]).remove_all(&exclude_owners),
        None,
    );
}

#[test]
fn absorption_example() {
    let x = OwnersConditional::And(vec![
        owner("a"),
        owner("c"),
        OwnersConditional::Or(vec![owner("c"), owner("e")]),
    ]);
    assert_eq!(x.reduce(), OwnersConditional::And(vec![owner("a"), owner("c")]));
}

#[test]
fn absorption_drops_the_or_when_it_comes_first() {
    let x = OwnersConditional::And(vec![
        OwnersConditional::Or(vec![owner("c"), owner("e")]),
        owner("c"),
    ]);
    assert_eq!(x.reduce(), OwnersConditional::And(vec![owner("c")]));
}

#[test]
fn absorption_keeps_an_or_without_a_required_owner() {
    let x = OwnersConditional::And(vec![
        OwnersConditional::Or(vec![owner("b"), owner("e")]),
        owner("c"),
    ]);
    assert_eq!(
        x.reduce_or_duplicates(),
        OwnersConditional::And(vec![
            OwnersConditional::Or(vec![owner("b"), owner("e")]),
            owner("c"),
        ])
    );
}

#[test]
fn duplicate_example() {
    let x = OwnersConditional::And(vec![
        owner("c"),
        owner("d"),
        owner("c"),
        owner("c"),
        owner("e"),
        owner("c"),
    ]);
    assert_eq!(
        x.reduce_duplicates(),
        OwnersConditional::And(vec![owner("c"), owner("d"), owner("e")])
    );
}

#[test]
fn duplicates_compare_or_children_regardless_of_order() {
    let x = OwnersConditional::And(vec![
        OwnersConditional::Or(vec![owner("a"), owner("b")]),
        owner("c"),
        OwnersConditional::Or(vec![owner("b"), owner("a")]),
    ]);
    assert_eq!(
        x.reduce_duplicates(),
        OwnersConditional::And(vec![
            OwnersConditional::Or(vec![owner("a"), owner("b")]),
            owner("c"),
        ])
    );
}

#[test]
fn duplicates_are_not_removed_below_the_top_level() {
    let x = OwnersConditional::Or(vec![owner("a"), owner("a")]);
    assert_eq!(
        x.reduce(),
        OwnersConditional::Or(vec![owner("a"), owner("a")])
    );
}

#[test]
fn exclusion_example() {
    let excluded = names(&["a", "d"]);
    let x = OwnersConditional::And(vec![
        OwnersConditional::Or(vec![owner("a"), owner("d")]),
        owner("b"),
        owner("c"),
    ]);
    let removed = x.remove_all(&excluded).expect("a requirement remains");
    assert_eq!(removed.reduce(), OwnersConditional::And(vec![owner("b"), owner("c")]));
}

#[test]
fn exclusion_to_empty_example() {
    let excluded = names(&["a", "d"]);
    let x = OwnersConditional::And(vec![owner("a"), owner("d")]);
    assert!(x.remove_all(&excluded).is_none());
}

#[test]
fn exclusion_collapses_a_single_survivor() {
    let excluded = names(&["a"]);
    let x = OwnersConditional::And(vec![owner("a"), owner("b")]);
    assert_eq!(x.remove_all(&excluded), Some(owner("b")));
}

#[test]
fn removing_nothing_keeps_the_requirement() {
    let x = OwnersConditional::And(vec![
        owner("a"),
        OwnersConditional::Or(vec![owner("b"), owner("c")]),
    ]);
    let y = OwnersConditional::And(vec![
        owner("a"),
        OwnersConditional::Or(vec![owner("b"), owner("c")]),
    ]);
    assert_eq!(x.remove_all(&Vec::new()), Some(y));
}

#[test]
fn reduce_is_idempotent_on_a_built_requirement() {
    let rules = CodeOwners::parse(
        "*.rs @rust\nsrc/ @core @rust\ndocs/* @docs @core\n".to_string(),
    )
    .expect("rules parse");
    let files = ["src/a.rs", "src/b.rs", "docs/x.md", "build.rs"];
    let once = OwnersConditional::from_codeowners(&rules, &files).reduce();
    let twice = OwnersConditional::from_codeowners(&rules, &files).reduce().reduce();
    assert_eq!(once, twice);
    assert_eq!(
        once,
        OwnersConditional::And(vec![
            owner("@rust"),
            OwnersConditional::Or(vec![owner("@core"), owner("@docs")]),
        ])
    );
}

#[test]
fn builder_example() {
    let rules = CodeOwners::parse("docs/* @alice @bob\ndocs/readme.md @carol\n".to_string())
        .expect("rules parse");
    assert_eq!(
        rules.owners("docs/readme.md"),
        Some(vec!["@carol".to_string()])
    );
    assert_eq!(
        rules.owners("docs/other.md"),
        Some(vec!["@alice".to_string(), "@bob".to_string()])
    );
    let built = OwnersConditional::from_codeowners(&rules, &["docs/readme.md", "docs/other.md"]);
    assert_eq!(
        built,
        OwnersConditional::And(vec![
            OwnersConditional::Or(vec![owner("@alice"), owner("@bob")]),
            owner("@carol"),
        ])
    );
}

#[test]
fn builder_skips_unowned_and_untracked_files() {
    let rules = CodeOwners::parse("vendor/\n*.md @docs\n".to_string()).expect("rules parse");
    let built = OwnersConditional::from_codeowners(&rules, &["vendor/x.c", "main.c", "a.md", "a.md"]);
    assert_eq!(built, OwnersConditional::And(vec![owner("@docs")]));
    let none = OwnersConditional::from_codeowners(&rules, &[]);
    assert_eq!(none, OwnersConditional::And(vec![]));
}

#[test]
fn to_owners_map_sorts_paths_and_keeps_untracked_apart() {
    let rules = CodeOwners::parse("vendor/\n*.md @docs\n".to_string()).expect("rules parse");
    let map = min_review_bot::conditional::to_owners_map(&rules, &["z.md", "vendor/x.c", "main.c", "z.md"]);
    assert_eq!(
        map,
        vec![
            ("main.c".to_string(), None),
            ("vendor/x.c".to_string(), Some(vec![])),
            ("z.md".to_string(), Some(vec!["@docs".to_string()])),
        ]
    );
}

#[test]
fn render_writes_and_or_in_parentheses() {
    let x = OwnersConditional::And(vec![
        owner("@a"),
        OwnersConditional::Or(vec![owner("@b"), owner("@c")]),
    ]);
    assert_eq!(x.render(), "(@a && (@b || @c))");
    assert_eq!(owner("@solo").render(), "@solo");
    assert_eq!(OwnersConditional::And(vec![]).render(), "()");
}

#[test]
fn display_file_owners_lists_each_file() {
    let rules = CodeOwners::parse("docs/* @alice @bob\ndocs/readme.md @carol\nvendor/\n".to_string())
        .expect("rules parse");
    let report = min_review_bot::display_file_owners(
        &rules,
        &["docs/readme.md", "docs/other.md", "vendor/x", "zzz"],
    );
    assert_eq!(
        report,
        "<ul><li><code>docs/other.md</code><ul><li>@alice</li><li>@bob</li></ul></li>\
<li><code>docs/readme.md</code><ul><li>@carol</li></ul></li>\
<li><code>vendor/x</code></li><li><code>zzz</code></li></ul>"
    );
}

#[test]
fn from_owners_map_sorts_each_files_owners() {
    let built = OwnersConditional::from_owners_map(vec![
        ("a/file".to_string(), Some(names(&["b", "a"]))),
        ("b/file".to_string(), Some(names(&["c", "c"]))),
        ("c/file".to_string(), Some(vec![])),
    ]);
    assert_eq!(
        built,
        OwnersConditional::And(vec![
            OwnersConditional::Or(vec![owner("a"), owner("b")]),
            owner("c"),
        ])
    );
}

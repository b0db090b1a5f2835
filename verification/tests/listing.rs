use jetti::list::{discover_repos, walk_step, WalkStep};

fn strings(v: &[&str]) -> Vec<String> {
    v.iter().map(|s| s.to_string()).collect()
}

#[test]
fn listing_is_sorted() {
    let found = strings(&["github.com/zzz/repo", "github.com/aaa/repo", "codeberg.org/x/y"]);
    assert_eq!(
        discover_repos(found, None),
        strings(&["codeberg.org/x/y", "github.com/aaa/repo", "github.com/zzz/repo"])
    );
}

#[test]
fn listing_filters_by_prefix() {
    let found = strings(&["github.com/bob/tool", "github.com/alice/project", "gitlab.com/alice/x"]);
    assert_eq!(
        discover_repos(found, Some("github.com/alice")),
        strings(&["github.com/alice/project"])
    );
}

#[test]
fn listing_of_nothing_is_empty() {
    assert!(discover_repos(Vec::new(), None).is_empty());
    assert!(discover_repos(strings(&["a/b/c"]), Some("x")).is_empty());
}

#[test]
fn listing_order_is_byte_order_and_keeps_duplicates() {
    let found = strings(&["b", "B", "a/b", "a", "é", "a"]);
    let mut expected = found.clone();
    expected.sort();
    assert_eq!(discover_repos(found, None), expected);
}

#[test]
fn listing_ignores_walk_order() {
    let a = discover_repos(strings(&["x/1/a", "x/0/b", "w/2/c"]), Some("x"));
    let b = discover_repos(strings(&["w/2/c", "x/0/b", "x/1/a"]), Some("x"));
    assert_eq!(a, b);
}

#[test]
fn walk_steps() {
    assert_eq!(walk_step(Some("file.txt"), false, false), WalkStep::Skip);
    assert_eq!(walk_step(Some(".hidden"), true, true), WalkStep::Skip);
    assert_eq!(walk_step(Some("repo"), true, true), WalkStep::Record);
    assert_eq!(walk_step(Some("owner"), true, false), WalkStep::Descend);
    assert_eq!(walk_step(None, true, false), WalkStep::Descend);
    assert_eq!(walk_step(Some(""), true, true), WalkStep::Record);
}

#[test]
fn prefix_listing_is_full_listing_filtered() {
    let found = || {
        vec![
            "github.com/bob/y".to_string(),
            "github.com/alice/x".to_string(),
            "gitlab.com/al/z".to_string(),
            "github.com/alfred/w".to_string(),
        ]
    };
    let all = discover_repos(found(), None);
    let some = discover_repos(found(), Some("github.com/al"));
    let filtered: Vec<String> = all.iter().filter(|r| r.starts_with("github.com/al")).cloned().collect();
    assert_eq!(some, filtered);
    assert_eq!(some, vec!["github.com/alfred/w".to_string(), "github.com/alice/x".to_string()]);
    assert_eq!(discover_repos(found(), Some("")), all);
}

use jetti::tree::{build_tree, TreeLine};

#[test]
fn empty_input() {
    let (lines, nodes) = build_tree(&[]);
    assert!(lines.is_empty());
    assert!(nodes.is_empty());
}

#[test]
fn single_repo() {
    let paths = vec!["github.com/owner/repo".to_string()];
    let (lines, nodes) = build_tree(&paths);

    assert_eq!(nodes.len(), 1);
    assert_eq!(nodes[0].rel_path, "github.com/owner/repo");
    assert_eq!(nodes[0].name, "repo");

    // Should have: Host, Owner, Repo (no trailing Blank)
    assert_eq!(lines.len(), 3);
    assert!(matches!(&lines[0], TreeLine::Host(h) if h == "github.com"));
    assert!(matches!(&lines[1], TreeLine::Owner { name, .. } if name == "owner"));
    assert!(matches!(&lines[2], TreeLine::Repo(n) if n.name == "repo"));
}

#[test]
fn single_host_multiple_repos() {
    let paths = vec![
        "github.com/rust-lang/cfg-if".to_string(),
        "github.com/rust-lang/log".to_string(),
    ];
    let (lines, nodes) = build_tree(&paths);

    assert_eq!(nodes.len(), 2);
    assert_eq!(nodes[0].name, "cfg-if");
    assert_eq!(nodes[1].name, "log");

    // Last owner should use └──
    assert!(matches!(&lines[1], TreeLine::Owner { prefix, .. } if prefix == "└── "));
    // First repo should use ├──, last should use └──
    assert!(nodes[0].prefix.contains("├── "));
    assert!(nodes[1].prefix.contains("└── "));
}

#[test]
fn multiple_owners() {
    let paths = vec![
        "github.com/alice/project".to_string(),
        "github.com/bob/tool".to_string(),
    ];
    let (lines, nodes) = build_tree(&paths);

    assert_eq!(nodes.len(), 2);
    // First owner gets ├──, last gets └──
    assert!(
        matches!(&lines[1], TreeLine::Owner { name, prefix } if name == "alice" && prefix == "├── ")
    );
    assert!(
        matches!(&lines[3], TreeLine::Owner { name, prefix } if name == "bob" && prefix == "└── ")
    );
}

#[test]
fn multiple_hosts_have_blank_separator() {
    let paths = vec![
        "codeberg.org/user/repo".to_string(),
        "github.com/user/repo".to_string(),
    ];
    let (lines, _) = build_tree(&paths);

    // Should have blank between hosts
    let blank_count = lines
        .iter()
        .filter(|l| matches!(l, TreeLine::Blank))
        .count();
    assert_eq!(blank_count, 1);
}

#[test]
fn no_trailing_blank() {
    let paths = vec![
        "github.com/user/repo".to_string(),
        "gitlab.com/user/repo".to_string(),
    ];
    let (lines, _) = build_tree(&paths);

    // Last line should not be Blank
    assert!(!matches!(lines.last().unwrap(), TreeLine::Blank));
}

#[test]
fn continuation_prefixes() {
    let paths = vec![
        "github.com/owner/first".to_string(),
        "github.com/owner/second".to_string(),
    ];
    let (_, nodes) = build_tree(&paths);

    // Non-last repo should have │ in continuation
    assert!(nodes[0].continuation_prefix.contains("│"));
    // Last repo should have spaces in continuation
    assert!(!nodes[1].continuation_prefix.contains("│"));
}

#[test]
fn paths_with_fewer_than_three_parts_are_skipped() {
    let paths = vec![
        "github.com/owner/repo".to_string(),
        "malformed".to_string(),
        "also/malformed".to_string(),
    ];
    let (_, nodes) = build_tree(&paths);
    assert_eq!(nodes.len(), 1);
}

#[test]
fn repo_nodes_preserve_full_path() {
    let paths = vec!["github.com/rust-lang/log".to_string()];
    let (_, nodes) = build_tree(&paths);
    assert_eq!(nodes[0].rel_path, "github.com/rust-lang/log");
}

#[test]
fn hosts_are_sorted() {
    let paths = vec![
        "gitlab.com/user/repo".to_string(),
        "codeberg.org/user/repo".to_string(),
        "github.com/user/repo".to_string(),
    ];
    let (lines, _) = build_tree(&paths);

    let hosts: Vec<&str> = lines
        .iter()
        .filter_map(|l| match l {
            TreeLine::Host(h) => Some(h.as_str()),
            _ => None,
        })
        .collect();
    assert_eq!(hosts, vec!["codeberg.org", "github.com", "gitlab.com"]);
}

fn render(lines: &[TreeLine]) -> Vec<String> {
    lines
        .iter()
        .map(|l| match l {
            TreeLine::Host(h) => h.clone(),
            TreeLine::Owner { name, prefix } => format!("{prefix}{name}"),
            TreeLine::Repo(n) => format!("{}{}", n.prefix, n.name),
            TreeLine::Blank => String::new(),
        })
        .collect()
}

#[test]
fn tree_matches_documented_layout() {
    let paths = vec![
        "github.com/rust-lang/cfg-if".to_string(),
        "github.com/rust-lang/log".to_string(),
        "github.com/rapidity-rs/jetti".to_string(),
        "codeberg.org/forgejo/forgejo".to_string(),
    ];
    let (lines, nodes) = build_tree(&paths);
    assert_eq!(
        render(&lines),
        vec![
            "codeberg.org",
            "└── forgejo",
            "    └── forgejo",
            "",
            "github.com",
            "├── rapidity-rs",
            "│   └── jetti",
            "└── rust-lang",
            "    ├── cfg-if",
            "    └── log",
        ]
    );
    // nodes come in tree order
    let order: Vec<&str> = nodes.iter().map(|n| n.rel_path.as_str()).collect();
    assert_eq!(
        order,
        vec![
            "codeberg.org/forgejo/forgejo",
            "github.com/rapidity-rs/jetti",
            "github.com/rust-lang/cfg-if",
            "github.com/rust-lang/log",
        ]
    );
    assert_eq!(nodes[1].continuation_prefix, "│       ");
    assert_eq!(nodes[2].continuation_prefix, "    │   ");
}

#[test]
fn repos_of_one_owner_keep_input_order() {
    let paths = vec![
        "h.org/o/zeta".to_string(),
        "a.org/x/y".to_string(),
        "h.org/o/alpha".to_string(),
    ];
    let (_, nodes) = build_tree(&paths);
    let names: Vec<&str> = nodes.iter().map(|n| n.name.as_str()).collect();
    assert_eq!(names, vec!["y", "zeta", "alpha"]);
}

#[test]
fn repo_part_keeps_further_slashes_and_duplicates() {
    let paths = vec![
        "h/o/r/extra".to_string(),
        "h/o/r/extra".to_string(),
    ];
    let (lines, nodes) = build_tree(&paths);
    assert_eq!(nodes.len(), 2);
    assert_eq!(nodes[0].name, "r/extra");
    assert_eq!(nodes[1].rel_path, "h/o/r/extra");
    assert_eq!(lines.len(), 4);
}

#[test]
fn every_line_kind_in_order_for_two_hosts() {
    let paths = vec!["b/o/r".to_string(), "a/o/r".to_string()];
    let (lines, _) = build_tree(&paths);
    assert_eq!(render(&lines), vec!["a", "└── o", "    └── r", "", "b", "└── o", "    └── r"]);
    assert!(matches!(lines[0], TreeLine::Host(_)));
}

#[test]
fn nodes_are_the_repo_lines_and_blanks_only_separate_hosts() {
    let paths: Vec<String> = [
        "gitlab.com/z/a",
        "github.com/b/q",
        "github.com/a/p",
        "github.com/b/o",
        "short/path",
        "codeberg.org/c/r",
    ]
    .iter()
    .map(|s| s.to_string())
    .collect();
    let (lines, nodes) = build_tree(&paths);
    let repo_lines: Vec<String> = lines
        .iter()
        .filter_map(|l| match l {
            TreeLine::Repo(n) => Some(n.rel_path.clone()),
            _ => None,
        })
        .collect();
    let node_paths: Vec<String> = nodes.iter().map(|n| n.rel_path.clone()).collect();
    assert_eq!(repo_lines, node_paths);
    assert_eq!(
        node_paths,
        vec!["codeberg.org/c/r", "github.com/a/p", "github.com/b/q", "github.com/b/o", "gitlab.com/z/a"]
    );
    for n in &nodes {
        assert_eq!(n.rel_path.splitn(3, '/').nth(2).unwrap(), n.name);
    }
    for (j, l) in lines.iter().enumerate() {
        if matches!(l, TreeLine::Blank) {
            assert!(j > 0);
            assert!(matches!(lines[j + 1], TreeLine::Host(_)));
        }
    }
    assert!(!matches!(lines.last(), Some(TreeLine::Blank)));
}

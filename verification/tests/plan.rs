use jetti::config::{Config, Protocol};
use jetti::error::JettiError;
use jetti::plan::{
    check_removal, clone_args, clone_depth, clone_start, default_config_text, effective_protocol,
    dirs_to_prune, is_confirmation, CloneStart,
};
use jetti::repo::Repo;

#[test]
fn protocol_precedence() {
    assert_eq!(effective_protocol(Some(Protocol::Ssh), true, false, Protocol::Https), Protocol::Ssh);
    assert_eq!(effective_protocol(None, true, false, Protocol::Ssh), Protocol::Https);
    assert_eq!(effective_protocol(None, false, true, Protocol::Https), Protocol::Ssh);
    assert_eq!(effective_protocol(None, false, false, Protocol::Https), Protocol::Https);
}

#[test]
fn shallow_means_depth_one() {
    assert_eq!(clone_depth(true, None), Some(1));
    assert_eq!(clone_depth(false, Some(5)), Some(5));
    assert_eq!(clone_depth(false, None), None);
}

#[test]
fn clone_destination_handling() {
    assert_eq!(clone_start(false, false), CloneStart::Clone);
    assert_eq!(clone_start(true, true), CloneStart::AlreadyCloned);
    assert_eq!(clone_start(true, false), CloneStart::RemoveThenClone);
}

#[test]
fn git_clone_arguments() {
    assert_eq!(clone_args(None, "u", "/d"), vec!["clone", "u", "/d"]);
    assert_eq!(clone_args(Some(12), "u", "/d"), vec!["clone", "--depth", "12", "u", "/d"]);
}

#[test]
fn removal_checks() {
    let c = Config::default_for_home(Some("/h"));
    let repo = Repo::parse("owner/repo", &c).unwrap();
    match check_removal(&repo, "/h/dev/github.com/owner/repo", false, false) {
        Err(JettiError::Precondition(m)) => {
            assert!(m.contains("not found"));
            assert_eq!(m, "repository \x1b[1mowner/repo\x1b[0m not found at /h/dev/github.com/owner/repo");
        }
        other => panic!("unexpected {other:?}"),
    }
    match check_removal(&repo, "/d", true, false) {
        Err(JettiError::Precondition(m)) => assert_eq!(m, "refusing to remove non-git directory at /d"),
        other => panic!("unexpected {other:?}"),
    }
    assert!(check_removal(&repo, "/d", true, true).is_ok());
}

#[test]
fn confirmations() {
    for a in ["y\n", "Y", " yes ", "Yes\r\n"] {
        assert!(is_confirmation(a), "{a:?}");
    }
    for a in ["", "n", "YES", "yes please", "\n"] {
        assert!(!is_confirmation(a), "{a:?}");
    }
}

#[test]
fn default_config_file_text() {
    let t = default_config_text("/home/u/dev", "github.com", Protocol::Ssh);
    assert!(t.starts_with("# jetti configuration\n"));
    assert!(t.contains("root = \"/home/u/dev\"\n"));
    assert!(t.contains("default_host = \"github.com\"\n"));
    assert!(t.contains("protocol = \"ssh\"\n"));
    assert_eq!(t.matches("[[hosts]]").count(), 3);
    assert!(default_config_text("/r", "h", Protocol::Https).contains("protocol = \"https\"\n"));
}

#[test]
fn error_messages() {
    let e = JettiError::Io { action: "remove".into(), path: "/x".into(), reason: "denied".into() };
    assert_eq!(e.message(), "failed to remove /x: denied");
    assert_eq!(JettiError::ThreadPool("t".into()).message(), "failed to create thread pool: t");
    assert_eq!(JettiError::Precondition("p".into()).message(), "p");
    assert_eq!(JettiError::Subprocess("git clone exited with 1".into()).message(), "git clone exited with 1");
    assert_eq!(JettiError::InvalidRepo("bad".into()).message(), "bad");
}

#[test]
fn prune_owner_then_host_never_root() {
    let mut config = Config::default_for_home(Some("/home/u"));
    config.root = "/home/u/dev".to_string();
    let repo = Repo::parse("gitlab.com/user/project", &config).unwrap();
    assert_eq!(
        dirs_to_prune(&repo, &config.root),
        vec!["/home/u/dev/gitlab.com/user".to_string(), "/home/u/dev/gitlab.com".to_string()]
    );
    // The same directories that walking up from the repository path gives.
    let dest = std::path::PathBuf::from(repo.local_path(&config));
    let walked: Vec<String> = dest
        .ancestors()
        .skip(1)
        .take_while(|d| *d != std::path::Path::new(&config.root))
        .map(|d| d.to_string_lossy().into_owned())
        .collect();
    assert_eq!(dirs_to_prune(&repo, &config.root), walked);
    assert_eq!(dirs_to_prune(&repo, "/r/"), vec!["/r/gitlab.com/user".to_string(), "/r/gitlab.com".to_string()]);
}

#[test]
fn default_config_file_text_in_full() {
    let expected = r#"# jetti configuration
# See: https://github.com/rapidity-rs/jetti

# Root directory where repositories are cloned.
root = "/home/u/dev"

# Default host when only owner/repo is given (e.g. `jetti clone owner/repo`).
default_host = "github.com"

# Default clone protocol: "ssh" or "https".
protocol = "ssh"

# Use Jujutsu (jj git clone) instead of git clone by default.
use_jj = false

# Known hosts and their clone URL prefixes.
# NOTE: This list *replaces* the built-in defaults — it does not extend them.
# Remove or add entries as needed for your setup.
[[hosts]]
name = "github.com"
ssh_prefix = "git@github.com:"
https_prefix = "https://github.com/"

[[hosts]]
name = "gitlab.com"
ssh_prefix = "git@gitlab.com:"
https_prefix = "https://gitlab.com/"

[[hosts]]
name = "codeberg.org"
ssh_prefix = "git@codeberg.org:"
https_prefix = "https://codeberg.org/"
"#;
    assert_eq!(default_config_text("/home/u/dev", "github.com", Protocol::Ssh), expected);
}

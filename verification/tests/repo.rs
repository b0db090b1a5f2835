use std::path::{Path, PathBuf};

use jetti::config::{Config, Protocol};
use jetti::error::JettiError;
use jetti::repo::{is_plain_component, strip_git_suffix, Repo};

fn test_config() -> Config {
    Config::default()
}

fn join(root: &str, rel: &str) -> PathBuf {
    Path::new(root).join(rel)
}

#[test]
fn parse_owner_repo() {
    let repo = Repo::parse("rapidity-rs/jetti", &test_config()).unwrap();
    assert_eq!(repo.host, "github.com");
    assert_eq!(repo.owner, "rapidity-rs");
    assert_eq!(repo.name, "jetti");
}

#[test]
fn parse_host_owner_repo() {
    let repo = Repo::parse("gitlab.com/user/project", &test_config()).unwrap();
    assert_eq!(repo.host, "gitlab.com");
    assert_eq!(repo.owner, "user");
    assert_eq!(repo.name, "project");
}

#[test]
fn parse_https_url() {
    let repo = Repo::parse("https://github.com/rapidity-rs/jetti.git", &test_config()).unwrap();
    assert_eq!(repo.host, "github.com");
    assert_eq!(repo.owner, "rapidity-rs");
    assert_eq!(repo.name, "jetti");
}

#[test]
fn parse_ssh_url() {
    let repo = Repo::parse("git@github.com:rapidity-rs/jetti.git", &test_config()).unwrap();
    assert_eq!(repo.host, "github.com");
    assert_eq!(repo.owner, "rapidity-rs");
    assert_eq!(repo.name, "jetti");
}

#[test]
fn parse_codeberg() {
    let repo = Repo::parse("codeberg.org/user/repo", &test_config()).unwrap();
    assert_eq!(repo.host, "codeberg.org");
    assert_eq!(repo.owner, "user");
    assert_eq!(repo.name, "repo");
}

#[test]
fn clone_url_ssh_known_host() {
    let repo = Repo::parse("rapidity-rs/jetti", &test_config()).unwrap();
    assert_eq!(
        repo.clone_url(&test_config(), Protocol::Ssh),
        "git@github.com:rapidity-rs/jetti.git"
    );
}

#[test]
fn clone_url_https_known_host() {
    let repo = Repo::parse("rapidity-rs/jetti", &test_config()).unwrap();
    assert_eq!(
        repo.clone_url(&test_config(), Protocol::Https),
        "https://github.com/rapidity-rs/jetti.git"
    );
}

#[test]
fn clone_url_ssh_unknown_host() {
    let repo = Repo::parse("sr.ht/user/repo", &test_config()).unwrap();
    assert_eq!(
        repo.clone_url(&test_config(), Protocol::Ssh),
        "git@sr.ht:user/repo.git"
    );
}

#[test]
fn clone_url_https_unknown_host() {
    let repo = Repo::parse("sr.ht/user/repo", &test_config()).unwrap();
    assert_eq!(
        repo.clone_url(&test_config(), Protocol::Https),
        "https://sr.ht/user/repo.git"
    );
}

#[test]
fn local_path() {
    let config = test_config();
    let repo = Repo::parse("rapidity-rs/jetti", &config).unwrap();
    let expected = join(&config.root, "github.com/rapidity-rs/jetti");
    assert_eq!(PathBuf::from(repo.local_path(&config)), expected);
}

#[test]
fn rejects_bare_name() {
    assert!(Repo::parse("jetti", &test_config()).is_err());
}

#[test]
fn parse_http_url() {
    let repo = Repo::parse("http://github.com/owner/repo", &test_config()).unwrap();
    assert_eq!(repo.host, "github.com");
    assert_eq!(repo.owner, "owner");
    assert_eq!(repo.name, "repo");
}

#[test]
fn parse_https_url_without_git_suffix() {
    let repo = Repo::parse("https://github.com/owner/repo", &test_config()).unwrap();
    assert_eq!(repo.name, "repo");
}

#[test]
fn parse_ssh_infers_protocol() {
    let repo = Repo::parse("git@github.com:owner/repo.git", &test_config()).unwrap();
    assert_eq!(repo.inferred_protocol, Some(Protocol::Ssh));
}

#[test]
fn parse_https_infers_protocol() {
    let repo = Repo::parse("https://github.com/owner/repo", &test_config()).unwrap();
    assert_eq!(repo.inferred_protocol, Some(Protocol::Https));
}

#[test]
fn parse_owner_repo_no_inferred_protocol() {
    let repo = Repo::parse("owner/repo", &test_config()).unwrap();
    assert_eq!(repo.inferred_protocol, None);
}

#[test]
fn parse_host_owner_repo_no_inferred_protocol() {
    let repo = Repo::parse("gitlab.com/owner/repo", &test_config()).unwrap();
    assert_eq!(repo.inferred_protocol, None);
}

#[test]
fn parse_strips_trailing_slashes() {
    let repo = Repo::parse("https://github.com/owner/repo/", &test_config()).unwrap();
    assert_eq!(repo.name, "repo");
}

#[test]
fn parse_invalid_ssh_url() {
    assert!(Repo::parse("git@github.com", &test_config()).is_err());
}

#[test]
fn parse_invalid_https_url() {
    assert!(Repo::parse("https://github.com", &test_config()).is_err());
}

#[test]
fn rejects_https_url_with_extra_segments() {
    assert!(Repo::parse("https://github.com/owner/repo/tree/main", &test_config()).is_err());
}

#[test]
fn rejects_host_path_with_extra_segments() {
    assert!(Repo::parse("github.com/owner/repo/extra", &test_config()).is_err());
}

#[test]
fn local_path_different_host() {
    let config = test_config();
    let repo = Repo::parse("gitlab.com/user/project", &config).unwrap();
    let expected = join(&config.root, "gitlab.com/user/project");
    assert_eq!(PathBuf::from(repo.local_path(&config)), expected);
}

#[test]
fn rejects_host_without_repo_name() {
    let err = Repo::parse("gitlab.com/inkscape", &test_config()).unwrap_err();
    let msg = err.message();
    assert!(msg.contains("missing repo name"), "got: {msg}");
    assert!(msg.contains("gitlab.com/inkscape/REPO"), "got: {msg}");
}

#[test]
fn owner_without_dot_still_uses_default_host() {
    let repo = Repo::parse("owner/repo", &test_config()).unwrap();
    assert_eq!(repo.host, "github.com");
    assert_eq!(repo.owner, "owner");
    assert_eq!(repo.name, "repo");
}

#[test]
fn clone_url_uses_host_config() {
    let config = test_config();
    let repo = Repo::parse("gitlab.com/user/project", &config).unwrap();
    assert_eq!(
        repo.clone_url(&config, Protocol::Ssh),
        "git@gitlab.com:user/project.git"
    );
    assert_eq!(
        repo.clone_url(&config, Protocol::Https),
        "https://gitlab.com/user/project.git"
    );
}

// ---- further cases ----

fn config_with(default_host: &str, root: &str) -> Config {
    let mut c = Config::default_for_home(Some("/home/u"));
    c.default_host = default_host.to_string();
    c.root = root.to_string();
    c
}

#[test]
fn error_messages_name_the_input() {
    let c = test_config();
    assert_eq!(Repo::parse("git@github.com", &c).unwrap_err().message(), "invalid SSH URL: git@github.com");
    assert_eq!(Repo::parse("https://github.com", &c).unwrap_err().message(), "invalid URL: https://github.com");
    assert_eq!(
        Repo::parse("jetti", &c).unwrap_err().message(),
        "cannot parse repo specifier: jetti\nExpected: owner/repo, host/owner/repo, or a full URL"
    );
    assert_eq!(
        Repo::parse("gitlab.com/inkscape", &c).unwrap_err().message(),
        "missing repo name: gitlab.com/inkscape\nDid you mean: gitlab.com/inkscape/REPO?"
    );
    assert_eq!(
        Repo::parse("github.com/owner/repo/extra", &c).unwrap_err().message(),
        "expected exactly host/owner/repo or owner/repo: github.com/owner/repo/extra"
    );
    assert_eq!(
        Repo::parse("https://github.com/owner/", &c).unwrap_err().message(),
        "expected exactly host/owner/repo or owner/repo: github.com/owner"
    );
}

#[test]
fn default_host_comes_from_config() {
    let c = config_with("git.example.com", "/r");
    let repo = Repo::parse("team/project.git", &c).unwrap();
    assert_eq!(repo.host, "git.example.com");
    assert_eq!(repo.name, "project");
}

#[test]
fn ssh_url_with_port_like_path() {
    let c = test_config();
    let repo = Repo::parse("git@host:a/b:c", &c).unwrap();
    assert_eq!(repo.host, "host");
    assert_eq!(repo.owner, "a");
    assert_eq!(repo.name, "b:c");
}

#[test]
fn leading_and_trailing_slashes_of_the_path_are_ignored() {
    let repo = Repo::parse("git@h://o/n.git//", &test_config()).unwrap();
    assert_eq!((repo.host.as_str(), repo.owner.as_str(), repo.name.as_str()), ("h", "o", "n"));
}

#[test]
fn strip_git_suffix_removes_one_suffix() {
    assert_eq!(strip_git_suffix("a.git.git"), "a.git");
    assert_eq!(strip_git_suffix(".git"), "");
    assert_eq!(strip_git_suffix("repo"), "repo");
    assert_eq!(strip_git_suffix("gi"), "gi");
}

#[test]
fn non_ascii_specifiers() {
    let repo = Repo::parse("ḧöst.org/ówner/rëpo.git", &test_config()).unwrap();
    assert_eq!(repo.host, "ḧöst.org");
    assert_eq!(repo.owner, "ówner");
    assert_eq!(repo.name, "rëpo");
}

#[test]
fn clone_url_parses_back() {
    let c = test_config();
    for spec in ["sr.ht/user/repo", "github.com/u/r.git", "owner/name"] {
        let repo = Repo::parse(spec, &c).unwrap();
        for p in [Protocol::Ssh, Protocol::Https] {
            let again = Repo::parse(&repo.clone_url(&c, p), &c).unwrap();
            assert_eq!(again.host, repo.host);
            assert_eq!(again.owner, repo.owner);
            assert_eq!(again.name, repo.name);
            assert_eq!(again.inferred_protocol, Some(p));
        }
    }
}

#[test]
fn local_path_joins_like_paths() {
    let c = config_with("github.com", "/root/dir/");
    let repo = Repo::parse("o/n", &c).unwrap();
    assert_eq!(repo.local_path(&c), "/root/dir/github.com/o/n");
    let c = config_with("github.com", "");
    assert_eq!(repo.local_path(&c), "github.com/o/n");
}

fn rejected_as_unsafe(spec: &str, config: &Config) -> bool {
    match Repo::parse(spec, config) {
        Err(JettiError::InvalidRepo(m)) => m.starts_with("invalid repository path"),
        _ => false,
    }
}

#[test]
fn parse_rejects_parts_that_leave_the_root() {
    let config = test_config();
    assert!(rejected_as_unsafe("git@/etc:o/r", &config));
    assert!(rejected_as_unsafe("git@..:o/r", &config));
    assert!(rejected_as_unsafe("git@:o/r", &config));
    assert!(rejected_as_unsafe("git@a/b:o/r", &config));
    assert!(rejected_as_unsafe("github.com/../r", &config));
    assert!(rejected_as_unsafe("github.com/o/..", &config));
    assert!(rejected_as_unsafe("github.com/./r", &config));
    assert!(rejected_as_unsafe("github.com/o/.git", &config));
    assert!(rejected_as_unsafe("github.com/o/...git", &config));
    assert!(rejected_as_unsafe("https://../o/r", &config));
    assert!(rejected_as_unsafe("/o/r", &config));
    assert!(rejected_as_unsafe("o/..", &config));
    // A leading dot in the owner still reads as a host without a repository.
    let err = Repo::parse("../r", &config).unwrap_err();
    assert!(err.message().starts_with("missing repo name"));
    let m = match Repo::parse("git@/etc:o/r", &config) {
        Err(e) => e.message(),
        Ok(_) => String::new(),
    };
    assert_eq!(m, "invalid repository path (host, owner and name must be plain directory names): /etc/o/r");
}

#[test]
fn parse_rejects_unsafe_default_host() {
    let mut config = test_config();
    config.default_host = "..".to_string();
    assert!(rejected_as_unsafe("owner/repo", &config));
    config.default_host = "/etc".to_string();
    assert!(rejected_as_unsafe("owner/repo", &config));
}

#[test]
fn parsed_repositories_stay_under_root() {
    let mut config = test_config();
    config.root = "/home/u/dev".to_string();
    for spec in [
        "owner/repo",
        "gitlab.com/o/r.git",
        "git@host.example:o/r",
        "https://codeberg.org/o/r/",
        "http://h/o/..x",
        "git@h:o/.hidden",
    ] {
        let repo = Repo::parse(spec, &config).unwrap();
        let p = PathBuf::from(repo.local_path(&config));
        assert!(p.starts_with("/home/u/dev"), "{spec}");
        let rest: Vec<_> = p.strip_prefix("/home/u/dev").unwrap().components().collect();
        assert_eq!(rest.len(), 3, "{spec}");
        assert!(rest.iter().all(|c| matches!(c, std::path::Component::Normal(_))), "{spec}");
    }
}

#[test]
fn plain_components() {
    assert!(is_plain_component("log"));
    assert!(is_plain_component(".hidden"));
    assert!(is_plain_component("..."));
    assert!(!is_plain_component(""));
    assert!(!is_plain_component("."));
    assert!(!is_plain_component(".."));
    assert!(!is_plain_component("/etc"));
    assert!(!is_plain_component("a/b"));
}

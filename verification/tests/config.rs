use std::path::Path;

use jetti::config::{join_path, Config, Protocol};

#[test]
fn default_config_values() {
    let config = Config::default();
    assert!(Path::new(&config.root).ends_with("dev"));
    assert_eq!(config.default_host, "github.com");
    assert_eq!(config.protocol, Protocol::Ssh);
    assert_eq!(config.hosts.len(), 3);
}

#[test]
fn default_protocol_is_ssh() {
    assert_eq!(Protocol::default(), Protocol::Ssh);
}

#[test]
fn host_lookup_found() {
    let config = Config::default();
    let host = config.host("github.com").unwrap();
    assert_eq!(host.name, "github.com");
    assert_eq!(host.ssh_prefix, "git@github.com:");
    assert_eq!(host.https_prefix, "https://github.com/");
}

#[test]
fn host_lookup_not_found() {
    let config = Config::default();
    assert!(config.host("sr.ht").is_none());
}

#[test]
fn host_lookup_all_defaults() {
    let config = Config::default();
    assert!(config.host("github.com").is_some());
    assert!(config.host("gitlab.com").is_some());
    assert!(config.host("codeberg.org").is_some());
}

#[test]
fn default_for_home_roots_under_home() {
    let c = Config::default_for_home(Some("/home/alice"));
    assert_eq!(c.root, "/home/alice/dev");
    let c = Config::default_for_home(None);
    assert_eq!(c.root, "~/dev");
    assert_eq!(c.hosts[2].name, "codeberg.org");
    assert_eq!(c.hosts[1].https_prefix, "https://gitlab.com/");
}

#[test]
fn first_matching_host_wins() {
    let mut c = Config::default_for_home(Some("/h"));
    let mut dup = c.hosts[0].clone();
    dup.ssh_prefix = "other:".to_string();
    c.hosts.push(dup);
    assert_eq!(c.host("github.com").unwrap().ssh_prefix, "git@github.com:");
}

#[test]
fn config_path_prefers_xdg() {
    assert_eq!(Config::path_for(Some("/x"), Some("/home/u")), "/x/jetti/config.toml");
    assert_eq!(Config::path_for(None, Some("/home/u")), "/home/u/.config/jetti/config.toml");
    assert_eq!(Config::path_for(None, None), "~/.config/jetti/config.toml");
    assert!(Path::new(&Config::path_for(None, Some("/h"))).ends_with("jetti/config.toml"));
}

#[test]
fn join_path_like_std() {
    for (base, part) in [("a", "b"), ("a/", "b"), ("", "b"), ("a", "/b"), ("a", ""), ("/", "x")] {
        let expected = Path::new(base).join(part);
        assert_eq!(Path::new(&join_path(base, part)), expected.as_path(), "{base} + {part}");
    }
}

#[test]
fn protocol_names() {
    assert_eq!(Protocol::Ssh.name(), "ssh");
    assert_eq!(Protocol::Https.name(), "https");
}

#[test]
fn config_path_with_xdg_value() {
    assert_eq!(Config::path_with_xdg(Some("/cfg")), "/cfg/jetti/config.toml");
    assert!(Path::new(&Config::path_with_xdg(None)).ends_with(".config/jetti/config.toml"));
}

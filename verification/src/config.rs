//! Configuration values: the clone protocol, the known hosts and the root
//! directory, with the defaults that stand when no configuration file exists.

use vstd::prelude::*;

use crate::text::{owned, str_eq};

verus! {

/// The protocol used to clone repositories.
#[derive(Debug, Clone, Copy, PartialEq, Eq, Structural)]
pub enum Protocol {
    Ssh,
    Https,
}

impl Default for Protocol {
    fn default() -> (p: Protocol)
        ensures
            p == Protocol::Ssh,
    {
        Protocol::Ssh
    }
}

impl Protocol {
    /// The name of the protocol as written in a configuration file.
    pub fn name(&self) -> (s: &'static str)
        ensures
            s@ == protocol_name(*self),
    {
        match self {
            Protocol::Ssh => "ssh",
            Protocol::Https => "https",
        }
    }
}

/// The name of a protocol as written in a configuration file.
pub open spec fn protocol_name(p: Protocol) -> Seq<char> {
    match p {
        Protocol::Ssh => "ssh"@,
        Protocol::Https => "https"@,
    }
}

/// What the `config` command does when given a subcommand.
#[derive(Debug, Clone, Copy, PartialEq, Eq, Structural)]
pub enum ConfigAction {
    /// Open the configuration file in the editor.
    Edit,
    /// Print the path of the configuration file.
    Path,
    /// Create the default configuration file if it does not exist.
    Init,
}

/// A known git host with its clone URL prefixes.
#[derive(Debug, Clone)]
pub struct HostConfig {
    /// The hostname (e.g. `github.com`).
    pub name: String,
    /// SSH clone URL prefix (e.g. `git@github.com:`).
    pub ssh_prefix: String,
    /// HTTPS clone URL prefix (e.g. `https://github.com/`).
    pub https_prefix: String,
}

/// The contents of a [`HostConfig`].
pub struct HostModel {
    pub name: Seq<char>,
    pub ssh_prefix: Seq<char>,
    pub https_prefix: Seq<char>,
}

impl View for HostConfig {
    type V = HostModel;

    open spec fn view(&self) -> HostModel {
        HostModel { name: self.name@, ssh_prefix: self.ssh_prefix@, https_prefix: self.https_prefix@ }
    }
}

/// Top-level configuration.
#[derive(Debug, Clone)]
pub struct Config {
    /// Root directory where repositories are cloned.
    pub root: String,
    /// Default host when only owner/repo is given.
    pub default_host: String,
    /// Default clone protocol.
    pub protocol: Protocol,
    /// Known hosts and their clone URL prefixes.
    pub hosts: Vec<HostConfig>,
}

/// The contents of a [`Config`].
pub struct ConfigModel {
    pub root: Seq<char>,
    pub default_host: Seq<char>,
    pub protocol: Protocol,
    pub hosts: Seq<HostModel>,
}

impl View for Config {
    type V = ConfigModel;

    open spec fn view(&self) -> ConfigModel {
        ConfigModel {
            root: self.root@,
            default_host: self.default_host@,
            protocol: self.protocol,
            hosts: self.hosts@.map_values(|h: HostConfig| h@),
        }
    }
}

/// The first host in `hosts` whose name is `name`.
pub open spec fn lookup_host(hosts: Seq<HostModel>, name: Seq<char>) -> Option<HostModel>
    decreases hosts.len(),
{
    if hosts.len() == 0 {
        None
    } else if hosts[0].name == name {
        Some(hosts[0])
    } else {
        lookup_host(hosts.drop_first(), name)
    }
}

/// A host found by name has that name and is one of the hosts.
pub proof fn lemma_lookup_host_finds(hosts: Seq<HostModel>, name: Seq<char>)
    ensures
        lookup_host(hosts, name) matches Some(h) ==> h.name == name && hosts.contains(h),
        lookup_host(hosts, name) is None ==> forall|i: int| 0 <= i < hosts.len() ==> (#[trigger] hosts[i]).name != name,
    decreases hosts.len(),
{
    if hosts.len() > 0 {
        lemma_lookup_host_finds(hosts.drop_first(), name);
        if hosts[0].name != name {
            if let Some(h) = lookup_host(hosts, name) {
                let j = choose|j: int| 0 <= j < hosts.drop_first().len() && hosts.drop_first()[j] == h;
                assert(hosts[j + 1] == h);
            }
            assert forall|i: int| 0 <= i < hosts.len() && lookup_host(hosts, name) is None implies (#[trigger] hosts[i]).name != name by {
                if i > 0 {
                    assert(hosts[i] == hosts.drop_first()[i - 1]);
                }
            }
        } else {
            assert(hosts[0] == hosts[0]);
        }
    }
}

/// The host found by name is the first host with that name.
pub proof fn lemma_lookup_host_first(hosts: Seq<HostModel>, name: Seq<char>, i: int)
    requires
        0 <= i < hosts.len(),
        hosts[i].name == name,
        forall|j: int| 0 <= j < i ==> (#[trigger] hosts[j]).name != name,
    ensures
        lookup_host(hosts, name) == Some(hosts[i]),
    decreases i,
{
    if i > 0 {
        let rest = hosts.drop_first();
        assert forall|j: int| 0 <= j < i - 1 implies (#[trigger] rest[j]).name != name by {
            assert(rest[j] == hosts[j + 1]);
        }
        assert(hosts[0].name != name);
        lemma_lookup_host_first(rest, name, i - 1);
        assert(rest[i - 1] == hosts[i]);
    }
}

/// `base` joined with `part` the way a path is extended by one more part: a
/// part that starts with `/` replaces the base, and a separator is put in
/// between unless the base is empty or already ends in one.
pub open spec fn path_join(base: Seq<char>, part: Seq<char>) -> Seq<char> {
    if part.len() > 0 && part[0] == '/' {
        part
    } else if base.len() > 0 && base.last() != '/' {
        base + "/"@ + part
    } else {
        base + part
    }
}

/// The hosts known without a configuration file.
pub open spec fn default_hosts() -> Seq<HostModel> {
    seq![
        HostModel { name: "github.com"@, ssh_prefix: "git@github.com:"@, https_prefix: "https://github.com/"@ },
        HostModel { name: "gitlab.com"@, ssh_prefix: "git@gitlab.com:"@, https_prefix: "https://gitlab.com/"@ },
        HostModel { name: "codeberg.org"@, ssh_prefix: "git@codeberg.org:"@, https_prefix: "https://codeberg.org/"@ },
    ]
}

/// The home directory, or `~` when it is unknown.
pub open spec fn home_or_tilde(home: Option<Seq<char>>) -> Seq<char> {
    match home {
        Some(h) => h,
        None => "~"@,
    }
}

/// The configuration in force when no configuration file exists, for a user
/// whose home directory is `home`.
pub open spec fn default_config(home: Option<Seq<char>>) -> ConfigModel {
    ConfigModel {
        root: path_join(home_or_tilde(home), "dev"@),
        default_host: "github.com"@,
        protocol: Protocol::Ssh,
        hosts: default_hosts(),
    }
}

/// The location of the configuration file, given `$XDG_CONFIG_HOME` and the
/// home directory.
pub open spec fn config_file_path(xdg_config_home: Option<Seq<char>>, home: Option<Seq<char>>) -> Seq<char> {
    let base = match xdg_config_home {
        Some(x) => x,
        None => path_join(home_or_tilde(home), ".config"@),
    };
    path_join(path_join(base, "jetti"@), "config.toml"@)
}

/// `base` joined with `part` (see [`path_join`]).
pub fn join_path(base: &str, part: &str) -> (r: String)
    ensures
        r@ == path_join(base@, part@),
{
    let p = crate::text::chars_of(part);
    let b = crate::text::chars_of(base);
    if p.len() > 0 && p[0] == '/' {
        owned(part)
    } else if b.len() > 0 && b[b.len() - 1] != '/' {
        let mut r = owned(base);
        r.append("/");
        r.append(part);
        r
    } else {
        let mut r = owned(base);
        r.append(part);
        r
    }
}

/// The home directory of the current user, as `dirs::home_dir` finds it
/// (`$HOME`, else the password database). The answer depends on the
/// environment, so nothing is stated of it; a path that is not valid UTF-8
/// is converted lossily.
#[verifier::external_body]
fn home_dir() -> (r: Option<String>) {
    dirs::home_dir().map(|p| p.to_string_lossy().into_owned())
}

fn new_host(name: &str, ssh_prefix: &str, https_prefix: &str) -> (h: HostConfig)
    ensures
        h@ == (HostModel { name: name@, ssh_prefix: ssh_prefix@, https_prefix: https_prefix@ }),
{
    HostConfig { name: owned(name), ssh_prefix: owned(ssh_prefix), https_prefix: owned(https_prefix) }
}

impl Config {
    /// The default configuration for a user whose home directory is `home`.
    pub fn default_for_home(home: Option<&str>) -> (c: Config)
        ensures
            c@ == default_config(match home { Some(h) => Some(h@), None => None }),
    {
        let base = match home {
            Some(h) => h,
            None => "~",
        };
        let root = join_path(base, "dev");
        let mut hosts: Vec<HostConfig> = Vec::new();
        hosts.push(new_host("github.com", "git@github.com:", "https://github.com/"));
        hosts.push(new_host("gitlab.com", "git@gitlab.com:", "https://gitlab.com/"));
        hosts.push(new_host("codeberg.org", "git@codeberg.org:", "https://codeberg.org/"));
        let c = Config { root, default_host: owned("github.com"), protocol: Protocol::Ssh, hosts };
        assert(c@.hosts =~= default_hosts());
        c
    }

    /// The location of the configuration file: `$XDG_CONFIG_HOME/jetti/config.toml`,
    /// else `<home>/.config/jetti/config.toml`.
    pub fn path_for(xdg_config_home: Option<&str>, home: Option<&str>) -> (p: String)
        ensures
            p@ == config_file_path(
                match xdg_config_home { Some(x) => Some(x@), None => None },
                match home { Some(h) => Some(h@), None => None },
            ),
    {
        let base = match xdg_config_home {
            Some(x) => owned(x),
            None => {
                let h = match home {
                    Some(h) => h,
                    None => "~",
                };
                join_path(h, ".config")
            },
        };
        let dir = join_path(base.as_str(), "jetti");
        join_path(dir.as_str(), "config.toml")
    }

    /// The location of the configuration file given the value of
    /// `$XDG_CONFIG_HOME`; the home directory is asked for only when that
    /// value is absent.
    pub fn path_with_xdg(xdg_config_home: Option<&str>) -> (p: String)
        ensures
            match xdg_config_home {
                Some(x) => p@ == config_file_path(Some(x@), None),
                None => exists|home: Option<Seq<char>>| p@ == config_file_path(None, home),
            },
    {
        match xdg_config_home {
            Some(x) => Config::path_for(Some(x), None),
            None => {
                let home = home_dir();
                match &home {
                    Some(h) => Config::path_for(None, Some(h.as_str())),
                    None => Config::path_for(None, None),
                }
            },
        }
    }

    /// Look up a host by name: the first known host with that name.
    pub fn host(&self, name: &str) -> (r: Option<&HostConfig>)
        ensures
            match r {
                Some(h) => lookup_host(self@.hosts, name@) == Some(h@),
                None => lookup_host(self@.hosts, name@) is None,
            },
            r matches Some(h) ==> exists|i: int|
                0 <= i < self@.hosts.len() && #[trigger] self@.hosts[i] == h@ && h@.name == name@ && forall|j: int|
                    0 <= j < i ==> (#[trigger] self@.hosts[j]).name != name@,
            r is None ==> forall|i: int| 0 <= i < self@.hosts.len() ==> (#[trigger] self@.hosts[i]).name != name@,
    {
        let mut i: usize = 0;
        assert(self@.hosts.skip(0) =~= self@.hosts);
        while i < self.hosts.len()
            invariant
                i <= self.hosts.len(),
                lookup_host(self@.hosts, name@) == lookup_host(self@.hosts.skip(i as int), name@),
                forall|j: int| 0 <= j < i ==> (#[trigger] self@.hosts[j]).name != name@,
            decreases self.hosts.len() - i,
        {
            let h = &self.hosts[i];
            assert(self@.hosts.skip(i as int)[0] == h@);
            assert(self@.hosts.skip(i as int).drop_first() =~= self@.hosts.skip(i + 1));
            if str_eq(h.name.as_str(), name) {
                proof {
                    assert(self@.hosts[i as int] == h@);
                    lemma_lookup_host_first(self@.hosts, name@, i as int);
                }
                return Some(h);
            }
            i = i + 1;
        }
        None
    }
}

impl Default for Config {
    /// The configuration used when no configuration file exists: root
    /// `<home>/dev`, default host `github.com`, protocol SSH, and the hosts
    /// github.com, gitlab.com and codeberg.org.
    fn default() -> (c: Config)
        ensures
            exists|home: Option<Seq<char>>| c@ == default_config(home),
    {
        let home = home_dir();
        let c = match &home {
            Some(h) => Config::default_for_home(Some(h.as_str())),
            None => Config::default_for_home(None),
        };
        c
    }
}

} // verus!

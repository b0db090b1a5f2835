//! Repository specifiers: parsing them into host, owner and name, and
//! building clone URLs and local paths from the parts.

use vstd::prelude::*;

use crate::config::{self, join_path, Config, HostModel, Protocol};
use crate::error::JettiError;
use crate::text::{
    self, char_len, contains_char, ends_with, owned, slice, split_once_char, starts_with, trim_char_str,
};

verus! {

/// A parsed repository specifier resolved to its components.
#[derive(Debug, Clone, PartialEq, Eq)]
pub struct Repo {
    /// The git host (e.g. `github.com`).
    pub host: String,
    /// The repository owner or organization (e.g. `rust-lang`).
    pub owner: String,
    /// The repository name (e.g. `log`).
    pub name: String,
    /// Protocol inferred from the input URL, if any. When present it takes
    /// priority over the command-line flag and the configured default.
    pub inferred_protocol: Option<Protocol>,
}

/// The contents of a [`Repo`].
pub struct RepoModel {
    pub host: Seq<char>,
    pub owner: Seq<char>,
    pub name: Seq<char>,
    pub inferred_protocol: Option<Protocol>,
}

impl View for Repo {
    type V = RepoModel;

    open spec fn view(&self) -> RepoModel {
        RepoModel {
            host: self.host@,
            owner: self.owner@,
            name: self.name@,
            inferred_protocol: self.inferred_protocol,
        }
    }
}

/// `s` without one trailing `.git`, if it has one.
pub open spec fn without_git_suffix(s: Seq<char>) -> Seq<char> {
    if text::is_suffix(".git"@, s) {
        s.take(s.len() - ".git"@.len())
    } else {
        s
    }
}

/// `c` can stand as one directory name under the root: it is not empty, not
/// `.` or `..`, and holds no `/` (so it cannot be an absolute path either).
pub open spec fn plain_component(c: Seq<char>) -> bool {
    c.len() > 0 && c != "."@ && c != ".."@ && !c.contains('/')
}

/// The error for a specifier whose host, owner or name would not stay a
/// single directory under the root.
pub open spec fn unsafe_path_message(host: Seq<char>, rest: Seq<char>) -> Seq<char> {
    "invalid repository path (host, owner and name must be plain directory names): "@ + host + "/"@ + rest
}

/// A repository on `host` at `path`, where `path` must be exactly
/// `owner/name` once leading and trailing slashes are removed, and host, owner
/// and name (without `.git`) must be plain directory names. On failure, the
/// message of the error.
pub open spec fn repo_from_host_and_path(
    host: Seq<char>,
    path: Seq<char>,
    inferred: Option<Protocol>,
) -> Result<RepoModel, Seq<char>> {
    let t = text::trim_char(path, '/');
    let owner = text::before_first(t, '/');
    let name = text::after_first(t, '/');
    if t.contains('/') && !name.contains('/') && owner.len() > 0 && name.len() > 0 {
        if plain_component(host) && plain_component(owner) && plain_component(without_git_suffix(name)) {
            Ok(RepoModel { host, owner, name: without_git_suffix(name), inferred_protocol: inferred })
        } else {
            Err(unsafe_path_message(host, t))
        }
    } else {
        Err("expected exactly host/owner/repo or owner/repo: "@ + host + "/"@ + t)
    }
}

/// What a repository specifier denotes, with `default_host` for the short
/// `owner/repo` form; on failure, the message of the error.
///
/// - `git@host:owner/repo[.git]` infers SSH;
/// - `https://host/owner/repo[.git]` and `http://...` infer HTTPS;
/// - `host/owner/repo` names the host explicitly;
/// - `owner/repo` uses the default host, unless `owner` holds a `.`, which is
///   taken as a host with the repository name missing.
///
/// In every form the host, owner and name (without `.git`) must be plain
/// directory names, so that the repository stays under the root.
pub open spec fn parse_repo(input: Seq<char>, default_host: Seq<char>) -> Result<RepoModel, Seq<char>> {
    if text::is_prefix("git@"@, input) {
        let rest = input.skip("git@"@.len() as int);
        if rest.contains(':') {
            repo_from_host_and_path(text::before_first(rest, ':'), text::after_first(rest, ':'), Some(Protocol::Ssh))
        } else {
            Err("invalid SSH URL: "@ + input)
        }
    } else if text::is_prefix("https://"@, input) || text::is_prefix("http://"@, input) {
        let rest = if text::is_prefix("https://"@, input) {
            input.skip("https://"@.len() as int)
        } else {
            input.skip("http://"@.len() as int)
        };
        let path = text::after_first(rest, '/');
        if rest.contains('/') && path.contains('/') {
            repo_from_host_and_path(text::before_first(rest, '/'), path, Some(Protocol::Https))
        } else {
            Err("invalid URL: "@ + input)
        }
    } else {
        let first = text::before_first(input, '/');
        let path = text::after_first(input, '/');
        if input.contains('/') && path.contains('/') {
            repo_from_host_and_path(first, path, None)
        } else if input.contains('/') {
            if first.contains('.') {
                Err("missing repo name: "@ + input + "\nDid you mean: "@ + first + "/"@ + path + "/REPO?"@)
            } else if plain_component(default_host) && plain_component(first) && plain_component(
                without_git_suffix(path),
            ) {
                Ok(RepoModel { host: default_host, owner: first, name: without_git_suffix(path), inferred_protocol: None })
            } else {
                Err(unsafe_path_message(default_host, input))
            }
        } else {
            Err("cannot parse repo specifier: "@ + input + "\nExpected: owner/repo, host/owner/repo, or a full URL"@)
        }
    }
}

/// `r` is the outcome that `expected` describes.
pub open spec fn repo_outcome(r: Result<Repo, JettiError>, expected: Result<RepoModel, Seq<char>>) -> bool {
    match (r, expected) {
        (Ok(repo), Ok(m)) => repo@ == m,
        (Err(e), Err(msg)) => e matches JettiError::InvalidRepo(s) && s@ == msg,
        _ => false,
    }
}

/// The URL to clone `repo` with `protocol`: the host's configured prefix when
/// the host is known, else the conventional `git@host:` or `https://host/`.
pub open spec fn clone_url_of(repo: RepoModel, hosts: Seq<HostModel>, protocol: Protocol) -> Seq<char> {
    let tail = repo.owner + "/"@ + repo.name + ".git"@;
    match (protocol, config::lookup_host(hosts, repo.host)) {
        (Protocol::Ssh, Some(h)) => h.ssh_prefix + tail,
        (Protocol::Ssh, None) => "git@"@ + repo.host + ":"@ + tail,
        (Protocol::Https, Some(h)) => h.https_prefix + tail,
        (Protocol::Https, None) => "https://"@ + repo.host + "/"@ + tail,
    }
}

/// The clone URL of a repository on a configured host is that host's prefix
/// for the protocol (of the first host entry with that name) followed by
/// `owner/name.git`; on a host that is not configured it is the conventional
/// `git@host:owner/name.git` or `https://host/owner/name.git`.
pub proof fn lemma_clone_url_prefix(repo: RepoModel, hosts: Seq<HostModel>, protocol: Protocol)
    ensures
        forall|i: int|
            0 <= i < hosts.len() && (#[trigger] hosts[i]).name == repo.host && (forall|j: int|
                0 <= j < i ==> (#[trigger] hosts[j]).name != repo.host) ==> clone_url_of(repo, hosts, protocol) == match protocol {
                Protocol::Ssh => hosts[i].ssh_prefix,
                Protocol::Https => hosts[i].https_prefix,
            } + repo.owner + "/"@ + repo.name + ".git"@,
        (forall|i: int| 0 <= i < hosts.len() ==> (#[trigger] hosts[i]).name != repo.host) ==> clone_url_of(
            repo,
            hosts,
            protocol,
        ) == match protocol {
            Protocol::Ssh => "git@"@ + repo.host + ":"@,
            Protocol::Https => "https://"@ + repo.host + "/"@,
        } + repo.owner + "/"@ + repo.name + ".git"@,
{
    assert forall|i: int|
        0 <= i < hosts.len() && (#[trigger] hosts[i]).name == repo.host && (forall|j: int|
            0 <= j < i ==> (#[trigger] hosts[j]).name != repo.host) implies clone_url_of(repo, hosts, protocol) == match protocol {
            Protocol::Ssh => hosts[i].ssh_prefix,
            Protocol::Https => hosts[i].https_prefix,
        } + repo.owner + "/"@ + repo.name + ".git"@ by {
        config::lemma_lookup_host_first(hosts, repo.host, i);
        let tail = repo.owner + "/"@ + repo.name + ".git"@;
        match protocol {
            Protocol::Ssh => assert(hosts[i].ssh_prefix + tail =~= hosts[i].ssh_prefix + repo.owner + "/"@ + repo.name + ".git"@),
            Protocol::Https => assert(hosts[i].https_prefix + tail =~= hosts[i].https_prefix + repo.owner + "/"@ + repo.name + ".git"@),
        }
    }
    config::lemma_lookup_host_finds(hosts, repo.host);
    if forall|i: int| 0 <= i < hosts.len() ==> (#[trigger] hosts[i]).name != repo.host {
        if let Some(h) = config::lookup_host(hosts, repo.host) {
            let k = choose|k: int| 0 <= k < hosts.len() && hosts[k] == h;
            assert(hosts[k].name == repo.host);
        }
        let tail = repo.owner + "/"@ + repo.name + ".git"@;
        assert("git@"@ + repo.host + ":"@ + tail =~= "git@"@ + repo.host + ":"@ + repo.owner + "/"@ + repo.name + ".git"@);
        assert("https://"@ + repo.host + "/"@ + tail =~= "https://"@ + repo.host + "/"@ + repo.owner + "/"@ + repo.name + ".git"@);
    }
}

/// The directory of `repo` under `root`: `<root>/<host>/<owner>/<name>`.
pub open spec fn local_path_of(repo: RepoModel, root: Seq<char>) -> Seq<char> {
    config::path_join(config::path_join(config::path_join(root, repo.host), repo.owner), repo.name)
}

/// `h` holds the conventional clone URL prefixes of `host`.
pub open spec fn conventional_prefixes(h: HostModel, host: Seq<char>) -> bool {
    h.ssh_prefix == "git@"@ + host + ":"@ && h.https_prefix == "https://"@ + host + "/"@
}

/// `sep` occurs in `a + sep + b` first right after `a` when `a` does not hold it.
proof fn lemma_split_at_first(a: Seq<char>, sep: Seq<char>, b: Seq<char>, c: char)
    requires
        sep.len() == 1,
        sep[0] == c,
        !a.contains(c),
    ensures
        (a + sep + b).contains(c),
        text::before_first(a + sep + b, c) == a,
        text::after_first(a + sep + b, c) == b,
{
    let s = a + sep + b;
    assert(s[a.len() as int] == c);
    assert forall|j: int| 0 <= j < a.len() implies s[j] != c by {
        assert(s[j] == a[j]);
    }
    assert(text::is_first(s, c, a.len() as int));
    text::lemma_is_first_unique(s, c, a.len() as int);
    assert(s.take(a.len() as int) =~= a);
    assert(s.skip(a.len() + 1int) =~= b);
}

/// The path part `owner/name.git` of a clone URL reads back as `owner` and `name`.
proof fn lemma_tail_parses(host: Seq<char>, owner: Seq<char>, name: Seq<char>, p: Option<Protocol>)
    requires
        plain_component(host),
        plain_component(owner),
        plain_component(name),
    ensures
        repo_from_host_and_path(host, owner + "/"@ + name + ".git"@, p)
            == Ok::<RepoModel, Seq<char>>(RepoModel { host, owner, name, inferred_protocol: p }),
{
    reveal_strlit("/");
    reveal_strlit(".git");
    let suffix = name + ".git"@;
    let tail = owner + "/"@ + suffix;
    assert(tail =~= owner + "/"@ + name + ".git"@);
    assert(tail[0] == owner[0]);
    assert(owner[0] != '/');
    assert(tail.last() == 't');
    text::lemma_trim_start(tail, '/', 0);
    assert(tail.skip(0) =~= tail);
    text::lemma_trim_end(tail, '/', tail.len() as int);
    assert(tail.take(tail.len() as int) =~= tail);
    assert(text::trim_char(tail, '/') == tail);
    lemma_split_at_first(owner, "/"@, suffix, '/');
    assert(!suffix.contains('/')) by {
        assert forall|j: int| 0 <= j < suffix.len() implies suffix[j] != '/' by {
            if j < name.len() {
                assert(suffix[j] == name[j]);
            } else {
                assert(suffix[j] == ".git"@[j - name.len()]);
            }
        }
    }
    assert(text::is_suffix(".git"@, suffix)) by {
        assert(suffix.skip(suffix.len() - ".git"@.len()) =~= ".git"@);
    }
    assert(without_git_suffix(suffix) =~= name);
}

/// A clone URL built for a repository with plain host, owner and name, on a
/// host without configured prefixes or with the conventional ones, parses
/// back to the same repository, with the URL's protocol inferred.
pub proof fn lemma_clone_url_parses_back(
    repo: RepoModel,
    hosts: Seq<HostModel>,
    protocol: Protocol,
    default_host: Seq<char>,
)
    requires
        config::lookup_host(hosts, repo.host) matches Some(h) ==> conventional_prefixes(h, repo.host),
        protocol == Protocol::Ssh ==> !repo.host.contains(':'),
        plain_component(repo.host),
        plain_component(repo.owner),
        plain_component(repo.name),
    ensures
        parse_repo(clone_url_of(repo, hosts, protocol), default_host) == Ok::<RepoModel, Seq<char>>(
            RepoModel { inferred_protocol: Some(protocol), ..repo },
        ),
{
    reveal_strlit("git@");
    reveal_strlit("https://");
    reveal_strlit(":");
    reveal_strlit("/");
    let tail = repo.owner + "/"@ + repo.name + ".git"@;
    lemma_tail_parses(repo.host, repo.owner, repo.name, Some(protocol));
    let url = clone_url_of(repo, hosts, protocol);
    match protocol {
        Protocol::Ssh => {
            assert(url =~= "git@"@ + (repo.host + ":"@ + tail));
            assert(url.take("git@"@.len() as int) =~= "git@"@);
            let rest = url.skip("git@"@.len() as int);
            assert(rest =~= repo.host + ":"@ + tail);
            lemma_split_at_first(repo.host, ":"@, tail, ':');
        },
        Protocol::Https => {
            assert(url =~= "https://"@ + (repo.host + "/"@ + tail));
            assert(url[0] == 'h');
            assert(!text::is_prefix("git@"@, url)) by {
                assert(url.take(4)[0] == 'h');
            }
            assert(url.take("https://"@.len() as int) =~= "https://"@);
            let rest = url.skip("https://"@.len() as int);
            assert(rest =~= repo.host + "/"@ + tail);
            lemma_split_at_first(repo.host, "/"@, tail, '/');
            assert(tail[repo.owner.len() as int] == '/');
        },
    }
}

/// The protocol of a parsed specifier is inferred from its form: SSH for
/// `git@` URLs, HTTPS for `https://` and `http://` URLs, none otherwise.
pub proof fn lemma_inferred_protocol(input: Seq<char>, default_host: Seq<char>)
    ensures
        parse_repo(input, default_host) matches Ok(m) ==> m.inferred_protocol == if text::is_prefix("git@"@, input) {
            Some(Protocol::Ssh)
        } else if text::is_prefix("https://"@, input) || text::is_prefix("http://"@, input) {
            Some(Protocol::Https)
        } else {
            None
        },
{
}

/// The path `host/owner/name` of a repository below the root.
pub open spec fn relative_path_of(repo: RepoModel) -> Seq<char> {
    repo.host + "/"@ + repo.owner + "/"@ + repo.name
}

/// With plain host, owner and name, the local path is the root extended by
/// `host/owner/name` (with a `/` in between unless the root is empty or ends
/// in one), so it starts with the root.
pub proof fn lemma_local_path_parts(repo: RepoModel, root: Seq<char>)
    requires
        plain_component(repo.host),
        plain_component(repo.owner),
        plain_component(repo.name),
    ensures
        local_path_of(repo, root) == config::path_join(root, relative_path_of(repo)),
        text::is_prefix(root, local_path_of(repo, root)),
        local_path_of(repo, root) == root + relative_path_of(repo) || local_path_of(repo, root) == root + "/"@
            + relative_path_of(repo),
{
    reveal_strlit("/");
    let (h, o, n) = (repo.host, repo.owner, repo.name);
    assert(h[0] != '/' && h.last() != '/' && o[0] != '/' && o.last() != '/' && n[0] != '/') by {
        assert(h.contains(h[0]) && h.contains(h[h.len() - 1]));
        assert(o.contains(o[0]) && o.contains(o[o.len() - 1]));
        assert(n.contains(n[0]));
    }
    let a = config::path_join(root, h);
    assert(a.len() > 0 && a.last() == h.last());
    let b = config::path_join(a, o);
    assert(b =~= a + "/"@ + o);
    assert(b.last() == o.last());
    let c = config::path_join(b, n);
    assert(c =~= b + "/"@ + n);
    let rel = relative_path_of(repo);
    assert(rel[0] == h[0]);
    if root.len() > 0 && root.last() != '/' {
        assert(c =~= root + "/"@ + rel);
        assert((root + "/"@ + rel).take(root.len() as int) =~= root);
    } else {
        assert(c =~= root + rel);
        assert((root + rel).take(root.len() as int) =~= root);
    }
}

/// Every repository that a specifier names lies under the root: its host,
/// owner and name are plain directory names (never empty, `.`, `..` or
/// holding `/`), and its local path is `<root>/<host>/<owner>/<name>`.
pub proof fn lemma_local_path_under_root(input: Seq<char>, default_host: Seq<char>, root: Seq<char>)
    ensures
        parse_repo(input, default_host) matches Ok(m) ==> {
            &&& plain_component(m.host)
            &&& plain_component(m.owner)
            &&& plain_component(m.name)
            &&& local_path_of(m, root) == config::path_join(root, relative_path_of(m))
            &&& text::is_prefix(root, local_path_of(m, root))
        },
{
    if let Ok(m) = parse_repo(input, default_host) {
        lemma_local_path_parts(m, root);
    }
}

/// `s` without one trailing `.git`, if it has one.
pub fn strip_git_suffix(s: &str) -> (r: &str)
    ensures
        r@ == without_git_suffix(s@),
{
    if ends_with(s, ".git") {
        let n = char_len(s);
        let k = char_len(".git");
        let r = slice(s, 0, n - k);
        assert(r@ =~= s@.take(s@.len() - ".git"@.len()));
        r
    } else {
        s
    }
}

/// Whether `c` is a plain directory name (see [`plain_component`]).
pub fn is_plain_component(c: &str) -> (r: bool)
    ensures
        r == plain_component(c@),
{
    proof {
        reveal_strlit(".");
        reveal_strlit("..");
    }
    char_len(c) > 0 && !text::str_eq(c, ".") && !text::str_eq(c, "..") && !contains_char(c, '/')
}

fn unsafe_path(host: &str, rest: &str) -> (e: JettiError)
    ensures
        e matches JettiError::InvalidRepo(s) && s@ == unsafe_path_message(host@, rest@),
{
    let mut m = owned("invalid repository path (host, owner and name must be plain directory names): ");
    m.append(host);
    m.append("/");
    m.append(rest);
    JettiError::InvalidRepo(m)
}

fn invalid(m: String) -> (e: JettiError)
    ensures
        e matches JettiError::InvalidRepo(s) && s@ == m@,
{
    JettiError::InvalidRepo(m)
}

impl Repo {
    /// Build a repository on `host` from `path`, which must be `owner/name`
    /// once leading and trailing slashes are removed.
    fn from_host_and_path(host: &str, path: &str, inferred_protocol: Option<Protocol>) -> (r: Result<Repo, JettiError>)
        ensures
            repo_outcome(r, repo_from_host_and_path(host@, path@, inferred_protocol)),
    {
        let t = trim_char_str(path, '/');
        match split_once_char(t, '/') {
            Some((owner, name)) => {
                if !contains_char(name, '/') && char_len(owner) > 0 && char_len(name) > 0 {
                    let stripped = strip_git_suffix(name);
                    if is_plain_component(host) && is_plain_component(owner) && is_plain_component(stripped) {
                        return Ok(Repo {
                            host: owned(host),
                            owner: owned(owner),
                            name: owned(stripped),
                            inferred_protocol,
                        });
                    }
                    return Err(unsafe_path(host, t));
                }
            },
            None => {},
        }
        let mut m = owned("expected exactly host/owner/repo or owner/repo: ");
        m.append(host);
        m.append("/");
        m.append(t);
        Err(invalid(m))
    }

    /// Parse a repository specifier (see [`parse_repo`] for the accepted forms).
    pub fn parse(input: &str, config: &Config) -> (r: Result<Repo, JettiError>)
        ensures
            repo_outcome(r, parse_repo(input@, config@.default_host)),
            r matches Ok(repo) ==> plain_component(repo@.host) && plain_component(repo@.owner) && plain_component(
                repo@.name,
            ),
    {
        let n = char_len(input);
        if starts_with(input, "git@") {
            let rest = slice(input, char_len("git@"), n);
            assert(rest@ =~= input@.skip("git@"@.len() as int));
            return match split_once_char(rest, ':') {
                Some((host, path)) => Repo::from_host_and_path(host, path, Some(Protocol::Ssh)),
                None => {
                    let mut m = owned("invalid SSH URL: ");
                    m.append(input);
                    Err(invalid(m))
                },
            };
        }
        let https = starts_with(input, "https://");
        if https || starts_with(input, "http://") {
            let rest = if https {
                slice(input, char_len("https://"), n)
            } else {
                slice(input, char_len("http://"), n)
            };
            assert(https ==> rest@ =~= input@.skip("https://"@.len() as int));
            assert(!https ==> rest@ =~= input@.skip("http://"@.len() as int));
            match split_once_char(rest, '/') {
                Some((host, path)) => {
                    if contains_char(path, '/') {
                        return Repo::from_host_and_path(host, path, Some(Protocol::Https));
                    }
                },
                None => {},
            }
            let mut m = owned("invalid URL: ");
            m.append(input);
            return Err(invalid(m));
        }
        match split_once_char(input, '/') {
            Some((first, path)) => {
                if contains_char(path, '/') {
                    Repo::from_host_and_path(first, path, None)
                } else if contains_char(first, '.') {
                    let mut m = owned("missing repo name: ");
                    m.append(input);
                    m.append("\nDid you mean: ");
                    m.append(first);
                    m.append("/");
                    m.append(path);
                    m.append("/REPO?");
                    Err(invalid(m))
                } else {
                    let stripped = strip_git_suffix(path);
                    if is_plain_component(config.default_host.as_str()) && is_plain_component(first)
                        && is_plain_component(stripped) {
                        Ok(Repo {
                            host: config.default_host.clone(),
                            owner: owned(first),
                            name: owned(stripped),
                            inferred_protocol: None,
                        })
                    } else {
                        Err(unsafe_path(config.default_host.as_str(), input))
                    }
                }
            },
            None => {
                let mut m = owned("cannot parse repo specifier: ");
                m.append(input);
                m.append("\nExpected: owner/repo, host/owner/repo, or a full URL");
                Err(invalid(m))
            },
        }
    }

    /// The URL to clone this repository with `protocol`.
    pub fn clone_url(&self, config: &Config, protocol: Protocol) -> (u: String)
        ensures
            u@ == clone_url_of(self@, config@.hosts, protocol),
            forall|i: int|
                0 <= i < config@.hosts.len() && (#[trigger] config@.hosts[i]).name == self@.host && (forall|j: int|
                    0 <= j < i ==> (#[trigger] config@.hosts[j]).name != self@.host) ==> u@ == match protocol {
                    Protocol::Ssh => config@.hosts[i].ssh_prefix,
                    Protocol::Https => config@.hosts[i].https_prefix,
                } + self@.owner + "/"@ + self@.name + ".git"@,
            (forall|i: int| 0 <= i < config@.hosts.len() ==> (#[trigger] config@.hosts[i]).name != self@.host) ==> u@
                == match protocol {
                Protocol::Ssh => "git@"@ + self@.host + ":"@,
                Protocol::Https => "https://"@ + self@.host + "/"@,
            } + self@.owner + "/"@ + self@.name + ".git"@,
    {
        proof {
            lemma_clone_url_prefix(self@, config@.hosts, protocol);
        }
        let mut u = match (protocol, config.host(self.host.as_str())) {
            (Protocol::Ssh, Some(h)) => h.ssh_prefix.clone(),
            (Protocol::Ssh, None) => {
                let mut u = owned("git@");
                u.append(self.host.as_str());
                u.append(":");
                u
            },
            (Protocol::Https, Some(h)) => h.https_prefix.clone(),
            (Protocol::Https, None) => {
                let mut u = owned("https://");
                u.append(self.host.as_str());
                u.append("/");
                u
            },
        };
        u.append(self.owner.as_str());
        u.append("/");
        u.append(self.name.as_str());
        u.append(".git");
        u
    }

    /// The local directory of this repository: `<root>/<host>/<owner>/<name>`.
    pub fn local_path(&self, config: &Config) -> (p: String)
        ensures
            p@ == local_path_of(self@, config@.root),
            plain_component(self@.host) && plain_component(self@.owner) && plain_component(self@.name) ==> {
                &&& p@ == config::path_join(config@.root, relative_path_of(self@))
                &&& text::is_prefix(config@.root, p@)
            },
    {
        proof {
            if plain_component(self@.host) && plain_component(self@.owner) && plain_component(self@.name) {
                lemma_local_path_parts(self@, config@.root);
            }
        }
        let a = join_path(config.root.as_str(), self.host.as_str());
        let b = join_path(a.as_str(), self.owner.as_str());
        join_path(b.as_str(), self.name.as_str())
    }
}

} // verus!

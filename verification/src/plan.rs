//! The decisions of the clone, remove and configuration commands: which
//! protocol and depth a clone uses, what happens to an existing destination,
//! when a removal is refused or confirmed, and the default configuration file.

use owo_colors::OwoColorize;
use vstd::prelude::*;

use crate::config::{self, Protocol};
use crate::error::JettiError;
use crate::output::{self, decimal_string, trim};
use crate::repo::Repo;
use crate::text::{self, owned, str_eq};

verus! {

/// The protocol a clone uses: the one inferred from the URL, else the one a
/// `--https` or `--ssh` flag asks for, else the configured default.
pub open spec fn effective_protocol_of(
    inferred: Option<Protocol>,
    https_flag: bool,
    ssh_flag: bool,
    configured: Protocol,
) -> Protocol {
    match inferred {
        Some(p) => p,
        None => if https_flag {
            Protocol::Https
        } else if ssh_flag {
            Protocol::Ssh
        } else {
            configured
        },
    }
}

/// The precedence of the clone protocol: a protocol inferred from the
/// specifier wins; otherwise `--https` gives HTTPS and `--ssh` gives SSH;
/// with neither flag the configured protocol is used. Flags and configuration
/// never override an inferred protocol.
pub proof fn lemma_protocol_precedence(inferred: Option<Protocol>, https_flag: bool, ssh_flag: bool, configured: Protocol)
    ensures
        inferred matches Some(q) ==> effective_protocol_of(inferred, https_flag, ssh_flag, configured) == q,
        inferred is None && https_flag ==> effective_protocol_of(inferred, https_flag, ssh_flag, configured)
            == Protocol::Https,
        inferred is None && !https_flag && ssh_flag ==> effective_protocol_of(
            inferred,
            https_flag,
            ssh_flag,
            configured,
        ) == Protocol::Ssh,
        inferred is None && !https_flag && !ssh_flag ==> effective_protocol_of(
            inferred,
            https_flag,
            ssh_flag,
            configured,
        ) == configured,
{
}

/// The protocol a clone uses (see [`effective_protocol_of`]).
pub fn effective_protocol(inferred: Option<Protocol>, https_flag: bool, ssh_flag: bool, configured: Protocol) -> (p:
    Protocol)
    ensures
        p == effective_protocol_of(inferred, https_flag, ssh_flag, configured),
        inferred matches Some(q) ==> p == q,
        inferred is None && https_flag ==> p == Protocol::Https,
        inferred is None && !https_flag && ssh_flag ==> p == Protocol::Ssh,
        inferred is None && !https_flag && !ssh_flag ==> p == configured,
{
    proof {
        lemma_protocol_precedence(inferred, https_flag, ssh_flag, configured);
    }
    match inferred {
        Some(p) => p,
        None => if https_flag {
            Protocol::Https
        } else if ssh_flag {
            Protocol::Ssh
        } else {
            configured
        },
    }
}

/// The clone depth: 1 for `--shallow`, else the `--depth` given, if any.
pub fn clone_depth(shallow: bool, depth: Option<u32>) -> (d: Option<u32>)
    ensures
        d == (if shallow { Some(1u32) } else { depth }),
{
    if shallow {
        Some(1)
    } else {
        depth
    }
}

/// What a clone does with its destination directory.
#[derive(Debug, Clone, Copy, PartialEq, Eq, Structural)]
pub enum CloneStart {
    /// The repository is already there: report it and stop.
    AlreadyCloned,
    /// A directory without `.git` (a failed partial clone): remove it, then clone.
    RemoveThenClone,
    /// Nothing there: clone.
    Clone,
}

/// What a clone does with its destination, given whether it exists and
/// whether it holds `.git`.
pub fn clone_start(dest_exists: bool, has_git: bool) -> (r: CloneStart)
    ensures
        r == (if !dest_exists {
            CloneStart::Clone
        } else if has_git {
            CloneStart::AlreadyCloned
        } else {
            CloneStart::RemoveThenClone
        }),
{
    if !dest_exists {
        CloneStart::Clone
    } else if has_git {
        CloneStart::AlreadyCloned
    } else {
        CloneStart::RemoveThenClone
    }
}

/// The arguments of `git clone`: `--depth N` when a depth is given, then the
/// URL and the destination.
pub open spec fn clone_args_of(depth: Option<u32>, url: Seq<char>, dest: Seq<char>) -> Seq<Seq<char>> {
    let head = match depth {
        Some(d) => seq!["clone"@, "--depth"@, output::decimal(d as nat)],
        None => seq!["clone"@],
    };
    head + seq![url, dest]
}

/// The arguments of `git clone` (see [`clone_args_of`]).
pub fn clone_args(depth: Option<u32>, url: &str, dest: &str) -> (r: Vec<String>)
    ensures
        r@.map_values(|s: String| s@) == clone_args_of(depth, url@, dest@),
        r.len() == if depth is Some { 5int } else { 3int },
        r@[0]@ == "clone"@,
        r@[r.len() - 2]@ == url@,
        r@[r.len() - 1]@ == dest@,
        depth matches Some(d) ==> r@[1]@ == "--depth"@ && output::parse_usize(r@[2]@) == Some(d as usize),
{
    let mut r: Vec<String> = Vec::new();
    r.push(owned("clone"));
    match depth {
        Some(d) => {
            r.push(owned("--depth"));
            r.push(decimal_string(d as usize));
        },
        None => {},
    }
    r.push(owned(url));
    r.push(owned(dest));
    assert(r@.map_values(|s: String| s@) =~= clone_args_of(depth, url@, dest@));
    r
}

/// `s` in bold, as a terminal shows it.
pub open spec fn bold_text(s: Seq<char>) -> Seq<char> {
    "\x1b[1m"@ + s + "\x1b[0m"@
}

/// `owo_colors::OwoColorize::bold`, displayed: `s` between the ANSI codes for
/// bold and reset, as the `BoldDisplay` formatter of owo-colors writes them.
#[verifier::external_body]
fn bold(s: &str) -> (r: String)
    ensures
        r@ == bold_text(s@),
{
    format!("{}", s.bold())
}

/// Why a removal is refused, if it is: the repository directory must exist and
/// hold `.git`.
pub open spec fn removal_refusal(repo: crate::repo::RepoModel, dest: Seq<char>, dest_exists: bool, has_git: bool) -> Option<Seq<char>> {
    if !dest_exists {
        Some("repository "@ + bold_text(repo.owner + "/"@ + repo.name) + " not found at "@ + dest)
    } else if !has_git {
        Some("refusing to remove non-git directory at "@ + dest)
    } else {
        None
    }
}

/// Check that `repo`, at `dest`, may be removed.
pub fn check_removal(repo: &Repo, dest: &str, dest_exists: bool, has_git: bool) -> (r: Result<(), JettiError>)
    ensures
        match (r, removal_refusal(repo@, dest@, dest_exists, has_git)) {
            (Ok(()), None) => true,
            (Err(JettiError::Precondition(m)), Some(msg)) => m@ == msg,
            _ => false,
        },
        r is Ok <==> dest_exists && has_git,
        !dest_exists ==> (r matches Err(JettiError::Precondition(m)) && text::is_infix(dest@, m@)),
{
    if !dest_exists {
        let mut name = owned(repo.owner.as_str());
        name.append("/");
        name.append(repo.name.as_str());
        let mut m = owned("repository ");
        m.append(bold(name.as_str()).as_str());
        m.append(" not found at ");
        let ghost before = m@;
        m.append(dest);
        assert(m@.subrange(before.len() as int, (before.len() + dest@.len()) as int) =~= dest@);
        return Err(JettiError::Precondition(m));
    }
    if !has_git {
        let mut m = owned("refusing to remove non-git directory at ");
        m.append(dest);
        return Err(JettiError::Precondition(m));
    }
    Ok(())
}

/// The directories that removing `repo` may leave empty, innermost first:
/// its owner's directory, then its host's. The root itself is not among them.
pub open spec fn dirs_to_prune_of(repo: crate::repo::RepoModel, root: Seq<char>) -> Seq<Seq<char>> {
    seq![config::path_join(config::path_join(root, repo.host), repo.owner), config::path_join(root, repo.host)]
}

/// The directories to try to remove, innermost first, after `repo` was
/// removed from under `root`; the cleanup stops at the first one that cannot
/// be removed (because it is not empty).
pub fn dirs_to_prune(repo: &Repo, root: &str) -> (r: Vec<String>)
    ensures
        r@.map_values(|d: String| d@) == dirs_to_prune_of(repo@, root@),
        crate::repo::plain_component(repo@.host) && crate::repo::plain_component(repo@.owner) ==> forall|i: int|
            0 <= i < r.len() ==> text::is_prefix(root@, #[trigger] r@[i]@) && r@[i]@.len() > root@.len(),
{
    let host_dir = config::join_path(root, repo.host.as_str());
    let owner_dir = config::join_path(host_dir.as_str(), repo.owner.as_str());
    proof {
        if crate::repo::plain_component(repo@.host) && crate::repo::plain_component(repo@.owner) {
            lemma_join_plain(root@, repo@.host);
            lemma_join_plain(host_dir@, repo@.owner);
            assert(owner_dir@.take(host_dir@.len() as int).take(root@.len() as int) =~= owner_dir@.take(
                root@.len() as int,
            ));
        }
    }
    let mut r: Vec<String> = Vec::new();
    r.push(owner_dir);
    r.push(host_dir);
    assert(r@.map_values(|d: String| d@) =~= dirs_to_prune_of(repo@, root@));
    r
}

/// Joining a plain directory name extends the base: the base is a prefix of
/// the result, which is longer.
proof fn lemma_join_plain(base: Seq<char>, c: Seq<char>)
    requires
        crate::repo::plain_component(c),
    ensures
        text::is_prefix(base, config::path_join(base, c)),
        config::path_join(base, c).len() > base.len(),
{
    reveal_strlit("/");
    assert(c.contains(c[0]));
    if base.len() > 0 && base.last() != '/' {
        assert((base + "/"@ + c).take(base.len() as int) =~= base);
    } else {
        assert((base + c).take(base.len() as int) =~= base);
    }
}

/// The answers that confirm a removal, once surrounding white space is gone.
pub open spec fn confirms(answer: Seq<char>) -> bool {
    let a = output::trim_white(answer);
    a == "y"@ || a == "Y"@ || a == "yes"@ || a == "Yes"@
}

/// The removal prompt defaults to no: `y`, `Y`, `yes` or `Yes`, followed by
/// any white space (such as the newline the terminal sends), confirm; an
/// answer of nothing but white space does not; and every confirming answer
/// starts with `y` or `Y` once white space is trimmed.
pub proof fn lemma_confirmation_answers(tail: Seq<char>, answer: Seq<char>)
    requires
        forall|i: int| 0 <= i < tail.len() ==> output::white_space(#[trigger] tail[i]),
    ensures
        confirms("y"@ + tail),
        confirms("Y"@ + tail),
        confirms("yes"@ + tail),
        confirms("Yes"@ + tail),
        !confirms(tail),
        confirms(answer) ==> output::trim_white(answer).len() > 0 && (output::trim_white(answer)[0] == 'y'
            || output::trim_white(answer)[0] == 'Y'),
{
    reveal_strlit("y");
    reveal_strlit("Y");
    reveal_strlit("yes");
    reveal_strlit("Yes");
    output::lemma_trim_line("y"@, tail);
    output::lemma_trim_line("Y"@, tail);
    output::lemma_trim_line("yes"@, tail);
    output::lemma_trim_line("Yes"@, tail);
    output::lemma_trim_all_white(tail);
}

/// Whether `answer` confirms a removal (see [`confirms`]).
pub fn is_confirmation(answer: &str) -> (r: bool)
    ensures
        r == confirms(answer@),
{
    let a = trim(answer);
    str_eq(a, "y") || str_eq(a, "Y") || str_eq(a, "yes") || str_eq(a, "Yes")
}

/// The text of a new configuration file, with comments, holding `root`,
/// `default_host`, `protocol`, `use_jj = false` and the three default hosts.
pub open spec fn default_config_text_of(root: Seq<char>, default_host: Seq<char>, protocol: Protocol) -> Seq<char> {
    "# jetti configuration\n# See: https://github.com/rapidity-rs/jetti\n\n# Root directory where repositories are cloned.\nroot = \""@
        + root
        + "\"\n\n# Default host when only owner/repo is given (e.g. `jetti clone owner/repo`).\ndefault_host = \""@
        + default_host
        + "\"\n\n# Default clone protocol: \"ssh\" or \"https\".\nprotocol = \""@
        + config::protocol_name(protocol)
        + "\"\n\n# Use Jujutsu (jj git clone) instead of git clone by default.\nuse_jj = false\n\n# Known hosts and their clone URL prefixes.\n# NOTE: This list *replaces* the built-in defaults — it does not extend them.\n# Remove or add entries as needed for your setup.\n[[hosts]]\nname = \"github.com\"\nssh_prefix = \"git@github.com:\"\nhttps_prefix = \"https://github.com/\"\n\n[[hosts]]\nname = \"gitlab.com\"\nssh_prefix = \"git@gitlab.com:\"\nhttps_prefix = \"https://gitlab.com/\"\n\n[[hosts]]\nname = \"codeberg.org\"\nssh_prefix = \"git@codeberg.org:\"\nhttps_prefix = \"https://codeberg.org/\"\n"@
}

/// The text of a new configuration file (see [`default_config_text_of`]).
pub fn default_config_text(root: &str, default_host: &str, protocol: Protocol) -> (t: String)
    ensures
        t@ == default_config_text_of(root@, default_host@, protocol),
{
    let mut t = owned(
        "# jetti configuration\n# See: https://github.com/rapidity-rs/jetti\n\n# Root directory where repositories are cloned.\nroot = \"",
    );
    t.append(root);
    t.append(
        "\"\n\n# Default host when only owner/repo is given (e.g. `jetti clone owner/repo`).\ndefault_host = \"",
    );
    t.append(default_host);
    t.append("\"\n\n# Default clone protocol: \"ssh\" or \"https\".\nprotocol = \"");
    t.append(protocol.name());
    t.append(
        "\"\n\n# Use Jujutsu (jj git clone) instead of git clone by default.\nuse_jj = false\n\n# Known hosts and their clone URL prefixes.\n# NOTE: This list *replaces* the built-in defaults — it does not extend them.\n# Remove or add entries as needed for your setup.\n[[hosts]]\nname = \"github.com\"\nssh_prefix = \"git@github.com:\"\nhttps_prefix = \"https://github.com/\"\n\n[[hosts]]\nname = \"gitlab.com\"\nssh_prefix = \"git@gitlab.com:\"\nhttps_prefix = \"https://gitlab.com/\"\n\n[[hosts]]\nname = \"codeberg.org\"\nssh_prefix = \"git@codeberg.org:\"\nhttps_prefix = \"https://codeberg.org/\"\n",
    );
    t
}

} // verus!

//! The tree layout of a repository listing.
//!
//! A flat list of `host/owner/repo` paths becomes a tree: hosts in order,
//! under each host its owners in order, under each owner its repositories in
//! the order they were given, drawn with `├──`, `└──` and `│` connectors.

use vstd::prelude::*;

use crate::text::{self, compare_str, owned, split_once_char, str_eq, Order};

verus! {

/// A repository in the tree, with its display position.
#[derive(Debug, Clone)]
pub struct RepoNode {
    /// Full relative path (e.g. `github.com/rust-lang/log`).
    pub rel_path: String,
    /// Just the repository name (e.g. `log`).
    pub name: String,
    /// The tree prefix drawn before the name (e.g. `│   ├── `).
    pub prefix: String,
    /// The prefix for content that continues below the name (e.g. `│   │   `).
    pub continuation_prefix: String,
}

/// The contents of a [`RepoNode`].
pub struct RepoNodeModel {
    pub rel_path: Seq<char>,
    pub name: Seq<char>,
    pub prefix: Seq<char>,
    pub continuation_prefix: Seq<char>,
}

impl View for RepoNode {
    type V = RepoNodeModel;

    open spec fn view(&self) -> RepoNodeModel {
        RepoNodeModel {
            rel_path: self.rel_path@,
            name: self.name@,
            prefix: self.prefix@,
            continuation_prefix: self.continuation_prefix@,
        }
    }
}

/// One line of the rendered tree.
#[derive(Debug)]
pub enum TreeLine {
    /// A host header (e.g. `github.com`).
    Host(String),
    /// An owner with its tree prefix (e.g. `├── ` and `rust-lang`).
    Owner { name: String, prefix: String },
    /// A repository leaf.
    Repo(RepoNode),
    /// The blank line between two hosts.
    Blank,
}

/// The contents of a [`TreeLine`].
pub enum TreeLineModel {
    Host(Seq<char>),
    Owner { name: Seq<char>, prefix: Seq<char> },
    Repo(RepoNodeModel),
    Blank,
}

impl View for TreeLine {
    type V = TreeLineModel;

    open spec fn view(&self) -> TreeLineModel {
        match self {
            TreeLine::Host(h) => TreeLineModel::Host(h@),
            TreeLine::Owner { name, prefix } => TreeLineModel::Owner { name: name@, prefix: prefix@ },
            TreeLine::Repo(n) => TreeLineModel::Repo(n@),
            TreeLine::Blank => TreeLineModel::Blank,
        }
    }
}

/// A path split into host, owner and repository: host and owner are the
/// texts before the first and second `/`, the repository all that follows.
pub struct Entry {
    pub host: Seq<char>,
    pub owner: Seq<char>,
    pub repo: Seq<char>,
    pub path: Seq<char>,
}

/// `p` split at its first two `/`, when it has at least two.
pub open spec fn split_path(p: Seq<char>) -> Option<Entry> {
    let rest = text::after_first(p, '/');
    if p.contains('/') && rest.contains('/') {
        Some(
            Entry {
                host: text::before_first(p, '/'),
                owner: text::before_first(rest, '/'),
                repo: text::after_first(rest, '/'),
                path: p,
            },
        )
    } else {
        None
    }
}

/// The entries of the paths that have at least three parts, in input order.
pub open spec fn entries_of(paths: Seq<Seq<char>>) -> Seq<Entry>
    decreases paths.len(),
{
    if paths.len() == 0 {
        Seq::empty()
    } else {
        let front = entries_of(paths.drop_last());
        match split_path(paths.last()) {
            Some(e) => front.push(e),
            None => front,
        }
    }
}

/// `a` and `b` have the same host and owner.
pub open spec fn same_key(a: Entry, b: Entry) -> bool {
    a.host == b.host && a.owner == b.owner
}

/// `a` comes before `b` by host, then by owner.
pub open spec fn key_lt(a: Entry, b: Entry) -> bool {
    text::str_lt(a.host, b.host) || (a.host == b.host && text::str_lt(a.owner, b.owner))
}

/// `a` comes before `b` by host and owner, or has the same ones.
pub open spec fn key_le(a: Entry, b: Entry) -> bool {
    key_lt(a, b) || same_key(a, b)
}

/// `s` ordered by host, then by owner.
pub open spec fn sorted_by_key(s: Seq<Entry>) -> bool {
    forall|i: int, j: int| 0 <= i < j < s.len() ==> key_le(#[trigger] s[i], #[trigger] s[j])
}

/// `e` placed into `s` after every entry whose key is not greater than its own
/// (in a sorted `s`: after all entries of its host and owner).
pub open spec fn insert_entry(s: Seq<Entry>, e: Entry) -> Seq<Entry>
    decreases s.len(),
{
    if s.len() == 0 {
        seq![e]
    } else if key_lt(e, s.last()) {
        insert_entry(s.drop_last(), e).push(s.last())
    } else {
        s.push(e)
    }
}

/// The entries grouped by host and owner, in order of host, then owner; the
/// entries of one host and owner keep their input order.
pub open spec fn group_entries(t: Seq<Entry>) -> Seq<Entry>
    decreases t.len(),
{
    if t.len() == 0 {
        Seq::empty()
    } else {
        insert_entry(group_entries(t.drop_last()), t.last())
    }
}

/// Entry `i` opens a new host.
pub open spec fn starts_host(s: Seq<Entry>, i: int) -> bool {
    i == 0 || s[i - 1].host != s[i].host
}

/// Entry `i` opens a new owner.
pub open spec fn starts_owner(s: Seq<Entry>, i: int) -> bool {
    i == 0 || !same_key(s[i - 1], s[i])
}

/// No later entry of the same host has another owner.
pub open spec fn is_last_owner(s: Seq<Entry>, i: int) -> bool {
    forall|j: int| i < j < s.len() && (#[trigger] s[j]).host == s[i].host ==> s[j].owner == s[i].owner
}

/// Entry `i` is the last one of its host and owner.
pub open spec fn is_last_repo(s: Seq<Entry>, i: int) -> bool {
    i + 1 == s.len() || !same_key(s[i], s[i + 1])
}

/// The branch drawn before the last child, or before any other child.
pub open spec fn branch(last: bool) -> Seq<char> {
    if last {
        "└── "@
    } else {
        "├── "@
    }
}

/// What continues below a child: blank after the last child, a bar otherwise.
pub open spec fn continuation(last: bool) -> Seq<char> {
    if last {
        "    "@
    } else {
        "│   "@
    }
}

/// The repository node of entry `i`.
pub open spec fn node_at(s: Seq<Entry>, i: int) -> RepoNodeModel {
    let oc = continuation(is_last_owner(s, i));
    RepoNodeModel {
        rel_path: s[i].path,
        name: s[i].repo,
        prefix: oc + branch(is_last_repo(s, i)),
        continuation_prefix: oc + continuation(is_last_repo(s, i)),
    }
}

/// The lines that entry `i` adds to the tree: a blank line and a host header
/// when it opens a host (no blank before the first host), an owner line when
/// it opens an owner, and its own repository line.
pub open spec fn chunk(s: Seq<Entry>, i: int) -> Seq<TreeLineModel> {
    let host_lines = if starts_host(s, i) {
        if i > 0 {
            seq![TreeLineModel::Blank, TreeLineModel::Host(s[i].host)]
        } else {
            seq![TreeLineModel::Host(s[i].host)]
        }
    } else {
        Seq::empty()
    };
    let owner_lines = if starts_owner(s, i) {
        seq![TreeLineModel::Owner { name: s[i].owner, prefix: branch(is_last_owner(s, i)) }]
    } else {
        Seq::empty()
    };
    host_lines + owner_lines + seq![TreeLineModel::Repo(node_at(s, i))]
}

/// The lines of the first `k` entries.
pub open spec fn render(s: Seq<Entry>, k: int) -> Seq<TreeLineModel>
    decreases k,
{
    if k <= 0 {
        Seq::empty()
    } else {
        render(s, k - 1) + chunk(s, k - 1)
    }
}

/// All lines of the tree of the grouped entries `s`.
pub open spec fn tree_lines_of(s: Seq<Entry>) -> Seq<TreeLineModel> {
    render(s, s.len() as int)
}

/// The repository nodes of the grouped entries `s`, in tree order.
pub open spec fn tree_nodes_of(s: Seq<Entry>) -> Seq<RepoNodeModel> {
    Seq::new(s.len(), |i: int| node_at(s, i))
}

/// The grouped entries of `paths`.
pub open spec fn tree_entries(paths: Seq<String>) -> Seq<Entry> {
    group_entries(entries_of(paths.map_values(|p: String| p@)))
}

// ---------------------------------------------------------------------------
// Order lemmas.

/// Of two entries, one comes first or both share host and owner.
pub proof fn lemma_key_total(a: Entry, b: Entry)
    ensures
        key_lt(a, b) || same_key(a, b) || key_lt(b, a),
{
    text::lemma_str_lt_total(a.host, b.host);
    text::lemma_str_lt_total(a.owner, b.owner);
}

/// An entry that comes first is not after, nor level with, the other.
pub proof fn lemma_key_asymmetric(a: Entry, b: Entry)
    ensures
        key_lt(a, b) ==> !key_lt(b, a) && !same_key(a, b),
{
    text::lemma_str_lt_asymmetric(a.host, b.host);
    text::lemma_str_lt_asymmetric(a.owner, b.owner);
    text::lemma_str_lt_asymmetric(b.host, a.host);
    text::lemma_str_lt_asymmetric(b.owner, a.owner);
}

/// The order of entries is transitive.
pub proof fn lemma_key_le_transitive(a: Entry, b: Entry, c: Entry)
    requires
        key_le(a, b),
        key_le(b, c),
    ensures
        key_le(a, c),
        key_lt(a, b) || key_lt(b, c) ==> key_lt(a, c),
{
    if text::str_lt(a.host, b.host) && text::str_lt(b.host, c.host) {
        text::lemma_str_lt_transitive(a.host, b.host, c.host);
    }
    if a.host == b.host && b.host == c.host && text::str_lt(a.owner, b.owner) && text::str_lt(b.owner, c.owner) {
        text::lemma_str_lt_transitive(a.owner, b.owner, c.owner);
    }
}

/// `insert_entry` puts `e` at position `k` when everything from `k` on comes
/// after `e` and the entry before `k` does not.
pub proof fn lemma_insert_at(s: Seq<Entry>, e: Entry, k: int)
    requires
        0 <= k <= s.len(),
        forall|j: int| k <= j < s.len() ==> key_lt(e, #[trigger] s[j]),
        k == 0 || !key_lt(e, s[k - 1]),
    ensures
        insert_entry(s, e) == s.insert(k, e),
    decreases s.len(),
{
    if s.len() == 0 {
        assert(seq![e] =~= s.insert(0, e));
    } else if k == s.len() {
        assert(s.push(e) =~= s.insert(k, e));
    } else {
        assert(key_lt(e, s.last()));
        lemma_insert_at(s.drop_last(), e, k);
        assert(s.drop_last().insert(k, e).push(s.last()) =~= s.insert(k, e));
    }
}

/// Inserting into a sorted sequence keeps it sorted and adds exactly `e`.
pub proof fn lemma_insert_sorted(s: Seq<Entry>, e: Entry)
    requires
        sorted_by_key(s),
    ensures
        sorted_by_key(insert_entry(s, e)),
        insert_entry(s, e).to_multiset() == s.to_multiset().insert(e),
    decreases s.len(),
{
    if s.len() == 0 {
        assert(seq![e] =~= s.push(e));
        s.to_multiset_ensures();
    } else if key_lt(e, s.last()) {
        let front = s.drop_last();
        assert(sorted_by_key(front));
        lemma_insert_sorted(front, e);
        let r = insert_entry(front, e);
        let r2 = r.push(s.last());
        assert forall|i: int, j: int| 0 <= i < j < r2.len() implies key_le(#[trigger] r2[i], #[trigger] r2[j]) by {
            if j == r2.len() - 1 {
                // every element of r is e or an element of front
                assert(r.to_multiset().count(r2[i]) > 0) by {
                    r.to_multiset_ensures();
                    assert(r.contains(r2[i]));
                }
                assert(s.to_multiset() =~= front.to_multiset().insert(s.last())) by {
                    assert(front.push(s.last()) =~= s);
                    front.to_multiset_ensures();
                }
                if r2[i] == e {
                    assert(key_le(e, s.last()));
                } else {
                    front.to_multiset_ensures();
                    assert(front.to_multiset().count(r2[i]) > 0);
                    assert(front.contains(r2[i]));
                    let m = choose|m: int| 0 <= m < front.len() && front[m] == r2[i];
                    assert(s[m] == front[m]);
                    assert(key_le(s[m], s[s.len() - 1]));
                }
            } else {
                assert(r2[i] == r[i] && r2[j] == r[j]);
            }
        }
        assert(front.push(s.last()) =~= s);
        front.to_multiset_ensures();
        r.to_multiset_ensures();
    } else {
        let r2 = s.push(e);
        assert forall|i: int, j: int| 0 <= i < j < r2.len() implies key_le(#[trigger] r2[i], #[trigger] r2[j]) by {
            if j == r2.len() - 1 {
                lemma_key_total(e, s.last());
                assert(key_le(s.last(), e));
                if i < s.len() - 1 {
                    assert(key_le(s[i], s[s.len() - 1]));
                    lemma_key_le_transitive(s[i], s.last(), e);
                }
            } else {
                assert(r2[i] == s[i] && r2[j] == s[j]);
            }
        }
        s.to_multiset_ensures();
    }
}

/// A path split into host, owner and repository (see [`split_path`]).
struct Parts {
    host: String,
    owner: String,
    repo: String,
    path: String,
}

impl View for Parts {
    type V = Entry;

    closed spec fn view(&self) -> Entry {
        Entry { host: self.host@, owner: self.owner@, repo: self.repo@, path: self.path@ }
    }
}

fn split_parts(p: &str) -> (r: Option<Parts>)
    ensures
        match r {
            Some(x) => split_path(p@) == Some(x@),
            None => split_path(p@) is None,
        },
{
    match split_once_char(p, '/') {
        Some((host, rest)) => match split_once_char(rest, '/') {
            Some((owner, repo)) => Some(Parts { host: owned(host), owner: owned(owner), repo: owned(repo), path: owned(p) }),
            None => None,
        },
        None => None,
    }
}

/// The order of `a` and `b` by host, then owner.
fn compare_key(a: &Parts, b: &Parts) -> (r: Order)
    ensures
        r == Order::Less <==> key_lt(a@, b@),
        r == Order::Equal <==> same_key(a@, b@),
        r == Order::Greater <==> key_lt(b@, a@),
{
    proof {
        lemma_key_asymmetric(a@, b@);
        lemma_key_asymmetric(b@, a@);
        lemma_key_total(a@, b@);
    }
    match compare_str(a.host.as_str(), b.host.as_str()) {
        Order::Equal => compare_str(a.owner.as_str(), b.owner.as_str()),
        o => o,
    }
}

fn same_key_exec(a: &Parts, b: &Parts) -> (r: bool)
    ensures
        r == same_key(a@, b@),
{
    str_eq(a.host.as_str(), b.host.as_str()) && str_eq(a.owner.as_str(), b.owner.as_str())
}

fn copy_str(s: &String) -> (r: String)
    ensures
        r@ == s@,
{
    s.clone()
}

/// Whether entry `i` is the last of its owner under its host (see [`is_last_owner`]).
fn last_owner_exec(s: &Vec<Parts>, i: usize) -> (r: bool)
    requires
        i < s.len(),
        sorted_by_key(s@.map_values(|p: Parts| p@)),
    ensures
        r == is_last_owner(s@.map_values(|p: Parts| p@), i as int),
{
    let ghost m = s@.map_values(|p: Parts| p@);
    let mut j: usize = i + 1;
    while j < s.len() && same_key_exec(&s[j], &s[i])
        invariant
            m == s@.map_values(|p: Parts| p@),
            i < j <= s.len(),
            forall|k: int| i < k < j ==> same_key(#[trigger] m[k], m[i as int]),
        decreases s.len() - j,
    {
        j = j + 1;
    }
    if j == s.len() {
        return true;
    }
    let same_host = str_eq(s[j].host.as_str(), s[i].host.as_str());
    proof {
        assert(m[j as int] == s@[j as int]@);
        assert(m[i as int] == s@[i as int]@);
        if !same_host {
            let hi = m[i as int].host;
            let hj = m[j as int].host;
            assert(key_le(m[i as int], m[j as int]));
            assert(text::str_lt(hi, hj));
            text::lemma_str_lt_asymmetric(hi, hj);
            assert forall|k: int| i < k < m.len() && (#[trigger] m[k]).host == m[i as int].host implies m[k].owner
                == m[i as int].owner by {
                if k > j {
                    assert(key_le(m[j as int], m[k]));
                }
            }
        } else {
            assert(m[j as int].host == m[i as int].host && m[j as int].owner != m[i as int].owner);
        }
    }
    !same_host
}

/// Build the tree layout of `host/owner/repo` paths. Paths with fewer than
/// three parts are skipped. Returns the lines to render and the repository
/// nodes in the order they appear in the tree.
pub fn build_tree(paths: &[String]) -> (r: (Vec<TreeLine>, Vec<RepoNode>))
    ensures
        r.0@.map_values(|l: TreeLine| l@) == tree_lines_of(tree_entries(paths@)),
        r.1@.map_values(|n: RepoNode| n@) == tree_nodes_of(tree_entries(paths@)),
        r.1.len() == tree_entries(paths@).len(),
        forall|i: int|
            0 <= i < r.1.len() ==> (#[trigger] r.1@[i]).prefix@ == (if more_owners_after(tree_entries(paths@), i) {
                "│   "@
            } else {
                "    "@
            }) + (if more_repos_after(tree_entries(paths@), i) {
                "├── "@
            } else {
                "└── "@
            }),
{
    let ghost views = paths@.map_values(|p: String| p@);
    // Group the entries by host and owner, keeping input order within a group.
    let mut sorted: Vec<Parts> = Vec::new();
    let mut i: usize = 0;
    while i < paths.len()
        invariant
            i <= paths.len(),
            views == paths@.map_values(|p: String| p@),
            sorted@.map_values(|p: Parts| p@) == group_entries(entries_of(views.take(i as int))),
            sorted_by_key(sorted@.map_values(|p: Parts| p@)),
        decreases paths.len() - i,
    {
        let ghost before = sorted@.map_values(|p: Parts| p@);
        assert(views.take(i + 1).drop_last() =~= views.take(i as int));
        assert(views.take(i + 1).last() == paths@[i as int]@);
        match split_parts(paths[i].as_str()) {
            Some(e) => {
                let ghost ev = e@;
                let mut k: usize = sorted.len();
                while k > 0 && compare_key(&sorted[k - 1], &e) == Order::Greater
                    invariant
                        k <= sorted.len(),
                        before == sorted@.map_values(|p: Parts| p@),
                        ev == e@,
                        forall|j: int| k <= j < before.len() ==> key_lt(ev, #[trigger] before[j]),
                    decreases k,
                {
                    k = k - 1;
                }
                proof {
                    if k > 0 {
                        assert(before[k - 1] == sorted@[k - 1]@);
                    }
                    lemma_insert_at(before, ev, k as int);
                    lemma_insert_sorted(before, ev);
                    let t = entries_of(views.take(i as int));
                    assert(entries_of(views.take(i + 1)) == t.push(ev));
                    assert(t.push(ev).drop_last() =~= t);
                    assert(group_entries(t.push(ev)) == insert_entry(group_entries(t), ev));
                }
                sorted.insert(k, e);
                assert(sorted@.map_values(|p: Parts| p@) =~= before.insert(k as int, ev));
            },
            None => {
                assert(entries_of(views.take(i + 1)) == entries_of(views.take(i as int)));
            },
        }
        i = i + 1;
    }
    assert(views.take(paths.len() as int) =~= views);
    let ghost s = sorted@.map_values(|p: Parts| p@);
    assert(s == tree_entries(paths@));
    // Render.
    let mut lines: Vec<TreeLine> = Vec::new();
    let mut nodes: Vec<RepoNode> = Vec::new();
    let n = sorted.len();
    let mut i: usize = 0;
    while i < n
        invariant
            n == sorted.len(),
            s == sorted@.map_values(|p: Parts| p@),
            sorted_by_key(s),
            i <= n,
            lines@.map_values(|l: TreeLine| l@) == render(s, i as int),
            nodes@.map_values(|x: RepoNode| x@) == tree_nodes_of(s).take(i as int),
        decreases n - i,
    {
        let e = &sorted[i];
        let ghost lines_before = lines@.map_values(|l: TreeLine| l@);
        let new_host = i == 0 || !str_eq(sorted[i - 1].host.as_str(), e.host.as_str());
        let new_owner = i == 0 || !same_key_exec(&sorted[i - 1], e);
        let last_repo = i + 1 == n || !same_key_exec(e, &sorted[i + 1]);
        let last_owner = last_owner_exec(&sorted, i);
        let owner_cont = if last_owner { "    " } else { "│   " };
        let repo_branch = if last_repo { "└── " } else { "├── " };
        let repo_cont = if last_repo { "    " } else { "│   " };
        let ghost host_lines: Seq<TreeLineModel> = if starts_host(s, i as int) {
            if i > 0 {
                seq![TreeLineModel::Blank, TreeLineModel::Host(s[i as int].host)]
            } else {
                seq![TreeLineModel::Host(s[i as int].host)]
            }
        } else {
            Seq::empty()
        };
        if new_host {
            if i > 0 {
                lines.push(TreeLine::Blank);
            }
            lines.push(TreeLine::Host(copy_str(&e.host)));
        }
        assert(lines@.map_values(|l: TreeLine| l@) =~= lines_before + host_lines);
        let ghost owner_lines: Seq<TreeLineModel> = if starts_owner(s, i as int) {
            seq![TreeLineModel::Owner { name: s[i as int].owner, prefix: branch(is_last_owner(s, i as int)) }]
        } else {
            Seq::empty()
        };
        if new_owner {
            let owner_branch = if last_owner { "└── " } else { "├── " };
            lines.push(TreeLine::Owner { name: copy_str(&e.owner), prefix: owned(owner_branch) });
        }
        assert(lines@.map_values(|l: TreeLine| l@) =~= lines_before + host_lines + owner_lines);
        let mut prefix = owned(owner_cont);
        prefix.append(repo_branch);
        let mut cont = owned(owner_cont);
        cont.append(repo_cont);
        let node = RepoNode {
            rel_path: copy_str(&e.path),
            name: copy_str(&e.repo),
            prefix: copy_str(&prefix),
            continuation_prefix: copy_str(&cont),
        };
        assert(node@ == node_at(s, i as int));
        lines.push(
            TreeLine::Repo(
                RepoNode { rel_path: copy_str(&e.path), name: copy_str(&e.repo), prefix, continuation_prefix: cont },
            ),
        );
        let ghost nodes_before = nodes@.map_values(|x: RepoNode| x@);
        assert(tree_nodes_of(s)[i as int] == node_at(s, i as int));
        let ghost nv = node@;
        nodes.push(node);
        assert(nodes@.map_values(|x: RepoNode| x@) =~= nodes_before.push(nv));
        assert(tree_nodes_of(s).take(i + 1) =~= tree_nodes_of(s).take(i as int).push(tree_nodes_of(s)[i as int]));
        assert(lines@.map_values(|l: TreeLine| l@) =~= render(s, i + 1));
        assert(nodes@.map_values(|x: RepoNode| x@) =~= tree_nodes_of(s).take(i + 1));
        i = i + 1;
    }
    assert(tree_nodes_of(s).take(n as int) =~= tree_nodes_of(s));
    proof {
        lemma_node_prefixes(paths@);
        assert forall|i: int| 0 <= i < nodes.len() implies (#[trigger] nodes@[i]).prefix@ == (if more_owners_after(s, i) {
            "│   "@
        } else {
            "    "@
        }) + (if more_repos_after(s, i) {
            "├── "@
        } else {
            "└── "@
        }) by {
            assert(nodes@.map_values(|x: RepoNode| x@)[i] == nodes@[i]@);
        }
    }
    (lines, nodes)
}

/// The entries of `s` with host `h` and owner `o`, in order.
pub open spec fn with_key(s: Seq<Entry>, h: Seq<char>, o: Seq<char>) -> Seq<Entry> {
    s.filter(|e: Entry| e.host == h && e.owner == o)
}

/// The repository nodes among `lines`, in order.
pub open spec fn repo_nodes_in(lines: Seq<TreeLineModel>) -> Seq<RepoNodeModel>
    decreases lines.len(),
{
    if lines.len() == 0 {
        Seq::empty()
    } else {
        let front = repo_nodes_in(lines.drop_last());
        match lines.last() {
            TreeLineModel::Repo(n) => front.push(n),
            _ => front,
        }
    }
}

proof fn lemma_insert_with_key(s: Seq<Entry>, e: Entry, h: Seq<char>, o: Seq<char>)
    ensures
        with_key(insert_entry(s, e), h, o) == if e.host == h && e.owner == o {
            with_key(s, h, o).push(e)
        } else {
            with_key(s, h, o)
        },
    decreases s.len(),
{
    broadcast use vstd::seq::Seq::lemma_filter_push;

    let p = |x: Entry| x.host == h && x.owner == o;
    if s.len() == 0 {
        assert(seq![e] =~= Seq::<Entry>::empty().push(e));
        assert(Seq::<Entry>::empty().filter(p) =~= Seq::<Entry>::empty()) by {
            reveal(Seq::filter);
        }
    } else if key_lt(e, s.last()) {
        let front = s.drop_last();
        lemma_insert_with_key(front, e, h, o);
        assert(front.push(s.last()) =~= s);
        lemma_key_asymmetric(e, s.last());
    } else {
    }
}

/// Grouping orders the entries by host and owner, keeps every entry (as a
/// multiset), and keeps the input order of the entries of each host and owner.
pub proof fn lemma_grouping(t: Seq<Entry>)
    ensures
        sorted_by_key(group_entries(t)),
        group_entries(t).to_multiset() == t.to_multiset(),
        forall|h: Seq<char>, o: Seq<char>| #[trigger] with_key(group_entries(t), h, o) == with_key(t, h, o),
    decreases t.len(),
{
    broadcast use vstd::seq::Seq::lemma_filter_push;

    if t.len() == 0 {
        assert(group_entries(t) =~= t);
    } else {
        let front = t.drop_last();
        lemma_grouping(front);
        lemma_insert_sorted(group_entries(front), t.last());
        assert(front.push(t.last()) =~= t);
        front.to_multiset_ensures();
        assert(t.to_multiset() == front.push(t.last()).to_multiset());
        assert forall|h: Seq<char>, o: Seq<char>| #[trigger] with_key(group_entries(t), h, o) == with_key(t, h, o) by {
            lemma_insert_with_key(group_entries(front), t.last(), h, o);
            assert(with_key(group_entries(front), h, o) == with_key(front, h, o));
        }
    }
}

proof fn lemma_repo_nodes_concat(a: Seq<TreeLineModel>, b: Seq<TreeLineModel>)
    ensures
        repo_nodes_in(a + b) == repo_nodes_in(a) + repo_nodes_in(b),
    decreases b.len(),
{
    if b.len() == 0 {
        assert(a + b =~= a);
        assert(repo_nodes_in(a) + repo_nodes_in(b) =~= repo_nodes_in(a));
    } else {
        lemma_repo_nodes_concat(a, b.drop_last());
        assert((a + b).drop_last() =~= a + b.drop_last());
        assert((a + b).last() == b.last());
        match b.last() {
            TreeLineModel::Repo(n) => {
                assert(repo_nodes_in(a) + repo_nodes_in(b) =~= (repo_nodes_in(a) + repo_nodes_in(b.drop_last())).push(n));
            },
            _ => {},
        }
    }
}

proof fn lemma_repo_nodes_render(s: Seq<Entry>, k: int)
    requires
        0 <= k <= s.len(),
    ensures
        repo_nodes_in(render(s, k)) == tree_nodes_of(s).take(k),
    decreases k,
{
    if k == 0 {
        assert(tree_nodes_of(s).take(0) =~= Seq::<RepoNodeModel>::empty());
    } else {
        lemma_repo_nodes_render(s, k - 1);
        let i = k - 1;
        let c = chunk(s, i);
        lemma_repo_nodes_concat(render(s, i), c);
        let host_lines = if starts_host(s, i) {
            if i > 0 {
                seq![TreeLineModel::Blank, TreeLineModel::Host(s[i].host)]
            } else {
                seq![TreeLineModel::Host(s[i].host)]
            }
        } else {
            Seq::empty()
        };
        let owner_lines = if starts_owner(s, i) {
            seq![TreeLineModel::Owner { name: s[i].owner, prefix: branch(is_last_owner(s, i)) }]
        } else {
            Seq::empty()
        };
        let last = seq![TreeLineModel::Repo(node_at(s, i))];
        assert(c == host_lines + owner_lines + last);
        lemma_repo_nodes_concat(host_lines + owner_lines, last);
        lemma_repo_nodes_concat(host_lines, owner_lines);
        reveal_with_fuel(repo_nodes_in, 3);
        assert(repo_nodes_in(host_lines) =~= Seq::<RepoNodeModel>::empty());
        assert(repo_nodes_in(owner_lines) =~= Seq::<RepoNodeModel>::empty());
        assert(repo_nodes_in(last) =~= seq![node_at(s, i)]);
        assert(tree_nodes_of(s).take(k) =~= tree_nodes_of(s).take(k - 1).push(node_at(s, k - 1)));
    }
}

/// The repository nodes are exactly the repository lines of the tree, in the
/// order they appear in it.
pub proof fn lemma_nodes_follow_tree(s: Seq<Entry>)
    ensures
        repo_nodes_in(tree_lines_of(s)) == tree_nodes_of(s),
{
    lemma_repo_nodes_render(s, s.len() as int);
    assert(tree_nodes_of(s).take(s.len() as int) =~= tree_nodes_of(s));
}

proof fn lemma_render_len(s: Seq<Entry>, k: int)
    requires
        0 <= k,
    ensures
        render(s, k).len() >= k,
        k > 0 ==> render(s, k).last() == TreeLineModel::Repo(node_at(s, k - 1)),
    decreases k,
{
    if k > 0 {
        lemma_render_len(s, k - 1);
    }
}

proof fn lemma_render_first(s: Seq<Entry>, k: int)
    requires
        0 < k,
    ensures
        render(s, k).len() > 0,
        render(s, k)[0] == TreeLineModel::Host(s[0].host),
    decreases k,
{
    if k == 1 {
        assert(render(s, 0) =~= Seq::<TreeLineModel>::empty());
        assert(render(s, 1) =~= chunk(s, 0));
    } else {
        lemma_render_first(s, k - 1);
    }
}

/// The tree is empty exactly when there are no entries; otherwise it opens with
/// the first host's header and ends with a repository line, never a blank.
pub proof fn lemma_tree_ends(s: Seq<Entry>)
    ensures
        tree_lines_of(s).len() == 0 <==> s.len() == 0,
        s.len() > 0 ==> tree_lines_of(s)[0] == TreeLineModel::Host(s[0].host),
        s.len() > 0 ==> tree_lines_of(s).last() == TreeLineModel::Repo(node_at(s, s.len() - 1)),
{
    lemma_render_len(s, s.len() as int);
    if s.len() > 0 {
        lemma_render_first(s, s.len() as int);
    }
}

/// The paths of entries, in order.
pub open spec fn paths_of(s: Seq<Entry>) -> Seq<Seq<char>> {
    Seq::new(s.len(), |i: int| s[i].path)
}

/// The relative paths of repository nodes, in order.
pub open spec fn rel_paths_of(nodes: Seq<RepoNodeModel>) -> Seq<Seq<char>> {
    Seq::new(nodes.len(), |i: int| nodes[i].rel_path)
}

/// The paths with at least three parts, in input order.
pub open spec fn three_part_paths(paths: Seq<Seq<char>>) -> Seq<Seq<char>> {
    paths.filter(|p: Seq<char>| split_path(p) is Some)
}

proof fn lemma_insert_paths(s: Seq<Entry>, e: Entry)
    ensures
        paths_of(insert_entry(s, e)).to_multiset() == paths_of(s).to_multiset().insert(e.path),
    decreases s.len(),
{
    broadcast use vstd::seq_lib::group_to_multiset_ensures;

    if s.len() == 0 {
        assert(paths_of(seq![e]) =~= paths_of(s).push(e.path));
    } else if key_lt(e, s.last()) {
        let front = s.drop_last();
        lemma_insert_paths(front, e);
        let r = insert_entry(front, e);
        assert(paths_of(r.push(s.last())) =~= paths_of(r).push(s.last().path));
        assert(paths_of(s) =~= paths_of(front).push(s.last().path));
    } else {
        assert(paths_of(s.push(e)) =~= paths_of(s).push(e.path));
    }
}

proof fn lemma_group_paths(t: Seq<Entry>)
    ensures
        paths_of(group_entries(t)).to_multiset() == paths_of(t).to_multiset(),
    decreases t.len(),
{
    broadcast use vstd::seq_lib::group_to_multiset_ensures;

    if t.len() == 0 {
        assert(group_entries(t) =~= t);
    } else {
        let front = t.drop_last();
        lemma_group_paths(front);
        lemma_insert_paths(group_entries(front), t.last());
        assert(paths_of(t) =~= paths_of(front).push(t.last().path));
    }
}

proof fn lemma_entries_paths(paths: Seq<Seq<char>>)
    ensures
        paths_of(entries_of(paths)) == three_part_paths(paths),
    decreases paths.len(),
{
    broadcast use vstd::seq::Seq::lemma_filter_push;

    if paths.len() == 0 {
        assert(paths.filter(|p: Seq<char>| split_path(p) is Some) =~= paths) by {
            reveal(Seq::filter);
        }
        assert(paths_of(entries_of(paths)) =~= paths);
    } else {
        let front = paths.drop_last();
        lemma_entries_paths(front);
        assert(front.push(paths.last()) =~= paths);
        match split_path(paths.last()) {
            Some(e) => {
                assert(paths_of(entries_of(front).push(e)) =~= paths_of(entries_of(front)).push(paths.last()));
            },
            None => {},
        }
    }
}

/// Every input path with at least three parts gives exactly one repository
/// node, whose relative path is that path; every other path is skipped.
pub proof fn lemma_every_path_once(paths: Seq<String>)
    ensures
        rel_paths_of(tree_nodes_of(tree_entries(paths))).to_multiset() == three_part_paths(
            paths.map_values(|p: String| p@),
        ).to_multiset(),
{
    let t = entries_of(paths.map_values(|p: String| p@));
    let s = group_entries(t);
    assert(rel_paths_of(tree_nodes_of(s)) =~= paths_of(s));
    lemma_group_paths(t);
    lemma_entries_paths(paths.map_values(|p: String| p@));
}

/// The host headers among `lines`, in order.
pub open spec fn hosts_in(lines: Seq<TreeLineModel>) -> Seq<Seq<char>>
    decreases lines.len(),
{
    if lines.len() == 0 {
        Seq::empty()
    } else {
        let front = hosts_in(lines.drop_last());
        match lines.last() {
            TreeLineModel::Host(h) => front.push(h),
            _ => front,
        }
    }
}

proof fn lemma_hosts_concat(a: Seq<TreeLineModel>, b: Seq<TreeLineModel>)
    ensures
        hosts_in(a + b) == hosts_in(a) + hosts_in(b),
    decreases b.len(),
{
    if b.len() == 0 {
        assert(a + b =~= a);
        assert(hosts_in(a) + hosts_in(b) =~= hosts_in(a));
    } else {
        lemma_hosts_concat(a, b.drop_last());
        assert((a + b).drop_last() =~= a + b.drop_last());
        match b.last() {
            TreeLineModel::Host(h) => {
                assert(hosts_in(a) + hosts_in(b) =~= (hosts_in(a) + hosts_in(b.drop_last())).push(h));
            },
            _ => {},
        }
    }
}

/// The hosts of the first `k` entries at which a new host starts.
proof fn lemma_hosts_render(s: Seq<Entry>, k: int)
    requires
        0 <= k <= s.len(),
        sorted_by_key(s),
    ensures
        forall|a: int, b: int|
            0 <= a < b < hosts_in(render(s, k)).len() ==> text::str_lt(
                #[trigger] hosts_in(render(s, k))[a],
                #[trigger] hosts_in(render(s, k))[b],
            ),
        forall|a: int|
            0 <= a < hosts_in(render(s, k)).len() ==> exists|i: int|
                0 <= i < k && #[trigger] hosts_in(render(s, k))[a] == s[i].host,
    decreases k,
{
    if k > 0 {
        let i = k - 1;
        lemma_hosts_render(s, i);
        let prev = hosts_in(render(s, i));
        let c = chunk(s, i);
        lemma_hosts_concat(render(s, i), c);
        let host_lines = if starts_host(s, i) {
            if i > 0 {
                seq![TreeLineModel::Blank, TreeLineModel::Host(s[i].host)]
            } else {
                seq![TreeLineModel::Host(s[i].host)]
            }
        } else {
            Seq::empty()
        };
        let owner_lines = if starts_owner(s, i) {
            seq![TreeLineModel::Owner { name: s[i].owner, prefix: branch(is_last_owner(s, i)) }]
        } else {
            Seq::empty()
        };
        let last = seq![TreeLineModel::Repo(node_at(s, i))];
        assert(c == host_lines + owner_lines + last);
        lemma_hosts_concat(host_lines + owner_lines, last);
        lemma_hosts_concat(host_lines, owner_lines);
        reveal_with_fuel(hosts_in, 3);
        assert(hosts_in(owner_lines) =~= Seq::<Seq<char>>::empty());
        assert(hosts_in(last) =~= Seq::<Seq<char>>::empty());
        let all = hosts_in(render(s, k));
        if starts_host(s, i) {
            assert(hosts_in(host_lines) =~= seq![s[i].host]);
            assert(all =~= prev.push(s[i].host));
            assert forall|a: int| 0 <= a < prev.len() implies text::str_lt(prev[a], s[i].host) by {
                let j = choose|j: int| 0 <= j < i && prev[a] == s[j].host;
                assert(key_le(s[i - 1], s[i]));
                assert(text::str_lt(s[i - 1].host, s[i].host));
                if j < i - 1 {
                    assert(key_le(s[j], s[i - 1]));
                    if text::str_lt(s[j].host, s[i - 1].host) {
                        text::lemma_str_lt_transitive(s[j].host, s[i - 1].host, s[i].host);
                    }
                }
            }
            assert forall|a: int, b: int| 0 <= a < b < all.len() implies text::str_lt(
                #[trigger] all[a],
                #[trigger] all[b],
            ) by {
                if b < prev.len() {
                    assert(all[a] == prev[a] && all[b] == prev[b]);
                } else {
                    assert(all[a] == prev[a]);
                }
            }
            assert forall|a: int| 0 <= a < all.len() implies exists|j: int|
                0 <= j < k && #[trigger] all[a] == s[j].host by {
                if a < prev.len() {
                    assert(all[a] == prev[a]);
                    let j = choose|j: int| 0 <= j < i && prev[a] == s[j].host;
                    assert(all[a] == s[j].host);
                } else {
                    assert(all[a] == s[i].host);
                }
            }
        } else {
            assert(hosts_in(host_lines) =~= Seq::<Seq<char>>::empty());
            assert(all =~= prev);
            assert forall|a: int| 0 <= a < all.len() implies exists|j: int|
                0 <= j < k && #[trigger] all[a] == s[j].host by {
                let j = choose|j: int| 0 <= j < i && prev[a] == s[j].host;
                assert(all[a] == s[j].host);
            }
        }
    }
}

/// The host headers of the tree of any paths come in strictly increasing
/// order, so every host appears once.
pub proof fn lemma_hosts_increase(paths: Seq<String>)
    ensures
        ({
            let hosts = hosts_in(tree_lines_of(tree_entries(paths)));
            forall|a: int, b: int| 0 <= a < b < hosts.len() ==> text::str_lt(#[trigger] hosts[a], #[trigger] hosts[b])
        }),
{
    let s = tree_entries(paths);
    lemma_grouping(entries_of(paths.map_values(|p: String| p@)));
    lemma_hosts_render(s, s.len() as int);
}


/// Every entry of `paths` is what its path splits into.
proof fn lemma_entries_split(paths: Seq<Seq<char>>)
    ensures
        forall|i: int| 0 <= i < entries_of(paths).len() ==> split_path(#[trigger] entries_of(paths)[i].path)
            == Some(entries_of(paths)[i]),
    decreases paths.len(),
{
    if paths.len() > 0 {
        let front = paths.drop_last();
        lemma_entries_split(front);
        match split_path(paths.last()) {
            Some(e) => {
                let t = entries_of(front).push(e);
                assert forall|i: int| 0 <= i < t.len() implies split_path(#[trigger] t[i].path) == Some(t[i]) by {
                    if i < t.len() - 1 {
                        assert(t[i] == entries_of(front)[i]);
                    }
                }
            },
            None => {},
        }
    }
}

/// What `build_tree` gives for `paths`, as one law: the repository nodes are
/// the repository lines of the tree, in the same order; their relative paths
/// are the input paths with at least three parts (duplicates kept, others
/// dropped); each node's relative path splits into the host, owner and
/// repository of its entry, and its name is that repository; the entries are
/// ordered by host, then owner, and within one host and owner keep the order
/// of the input.
pub proof fn lemma_build_tree_law(paths: Seq<String>)
    ensures
        ({
            let views = paths.map_values(|p: String| p@);
            let t = entries_of(views);
            let s = tree_entries(paths);
            let nodes = tree_nodes_of(s);
            &&& repo_nodes_in(tree_lines_of(s)) == nodes
            &&& rel_paths_of(nodes).to_multiset() == three_part_paths(views).to_multiset()
            &&& paths_of(t) == three_part_paths(views)
            &&& nodes.len() == s.len()
            &&& forall|i: int|
                0 <= i < nodes.len() ==> split_path(#[trigger] nodes[i].rel_path) == Some(s[i]) && nodes[i].name
                    == s[i].repo
            &&& sorted_by_key(s)
            &&& forall|h: Seq<char>, o: Seq<char>| #[trigger] with_key(s, h, o) == with_key(t, h, o)
        }),
{
    broadcast use vstd::seq_lib::group_to_multiset_ensures;

    let views = paths.map_values(|p: String| p@);
    let t = entries_of(views);
    let s = group_entries(t);
    lemma_nodes_follow_tree(s);
    lemma_every_path_once(paths);
    lemma_entries_paths(views);
    lemma_grouping(t);
    lemma_entries_split(views);
    let nodes = tree_nodes_of(s);
    assert forall|i: int| 0 <= i < nodes.len() implies split_path(#[trigger] nodes[i].rel_path) == Some(s[i])
        && nodes[i].name == s[i].repo by {
        assert(nodes[i] == node_at(s, i));
        assert(s.to_multiset().count(s[i]) > 0);
        assert(t.contains(s[i]));
        let j = choose|j: int| 0 <= j < t.len() && t[j] == s[i];
        assert(split_path(t[j].path) == Some(t[j]));
    }
}

/// In entries ordered by host and owner, entry `i` is under the last owner
/// of its host (drawn with `└── ` and a blank continuation) exactly when no
/// owner of the same host comes after its own.
pub proof fn lemma_last_owner_is_greatest(s: Seq<Entry>, i: int)
    requires
        sorted_by_key(s),
        0 <= i < s.len(),
    ensures
        is_last_owner(s, i) <==> forall|j: int|
            0 <= j < s.len() && (#[trigger] s[j]).host == s[i].host ==> text::str_le(s[j].owner, s[i].owner),
{
    if is_last_owner(s, i) {
        assert forall|j: int| 0 <= j < s.len() && (#[trigger] s[j]).host == s[i].host implies text::str_le(
            s[j].owner,
            s[i].owner,
        ) by {
            if j < i {
                assert(key_le(s[j], s[i]));
                text::lemma_str_lt_asymmetric(s[j].host, s[i].host);
            }
        }
    }
    if forall|j: int|
        0 <= j < s.len() && (#[trigger] s[j]).host == s[i].host ==> text::str_le(s[j].owner, s[i].owner) {
        assert forall|j: int| i < j < s.len() && (#[trigger] s[j]).host == s[i].host implies s[j].owner
            == s[i].owner by {
            assert(key_le(s[i], s[j]));
            assert(text::str_le(s[j].owner, s[i].owner));
            text::lemma_str_lt_asymmetric(s[i].host, s[j].host);
            text::lemma_str_lt_asymmetric(s[i].owner, s[j].owner);
        }
    }
}

/// In entries ordered by host and owner, entry `i` is the last repository of
/// its owner (drawn with `└── `) exactly when no later entry has its host and
/// owner.
pub proof fn lemma_last_repo_ends_group(s: Seq<Entry>, i: int)
    requires
        sorted_by_key(s),
        0 <= i < s.len(),
    ensures
        is_last_repo(s, i) <==> forall|j: int| i < j < s.len() ==> !same_key(s[i], #[trigger] s[j]),
{
    if is_last_repo(s, i) && i + 1 < s.len() {
        assert forall|j: int| i < j < s.len() implies !same_key(s[i], #[trigger] s[j]) by {
            assert(key_le(s[i], s[i + 1]));
            assert(key_lt(s[i], s[i + 1]));
            if j > i + 1 {
                assert(key_le(s[i + 1], s[j]));
                lemma_key_le_transitive(s[i], s[i + 1], s[j]);
            }
            lemma_key_asymmetric(s[i], s[j]);
        }
    }
}

proof fn lemma_render_blanks(s: Seq<Entry>, k: int)
    requires
        0 <= k <= s.len(),
    ensures
        forall|j: int|
            0 <= j < render(s, k).len() && #[trigger] render(s, k)[j] == TreeLineModel::Blank ==> 0 < j && j + 1
                < render(s, k).len() && render(s, k)[j + 1] is Host,
    decreases k,
{
    if k > 0 {
        let i = k - 1;
        lemma_render_blanks(s, i);
        lemma_render_len(s, i);
        let r = render(s, i);
        let c = chunk(s, i);
        let all = render(s, k);
        assert(all == r + c);
        assert forall|j: int| 0 <= j < all.len() && #[trigger] all[j] == TreeLineModel::Blank implies 0 < j && j
            + 1 < all.len() && all[j + 1] is Host by {
            if j < r.len() {
                assert(r[j] == all[j]);
                assert(all[j + 1] == r[j + 1]);
            } else {
                let host_lines = if starts_host(s, i) {
                    if i > 0 {
                        seq![TreeLineModel::Blank, TreeLineModel::Host(s[i].host)]
                    } else {
                        seq![TreeLineModel::Host(s[i].host)]
                    }
                } else {
                    Seq::<TreeLineModel>::empty()
                };
                let owner_lines = if starts_owner(s, i) {
                    seq![TreeLineModel::Owner { name: s[i].owner, prefix: branch(is_last_owner(s, i)) }]
                } else {
                    Seq::<TreeLineModel>::empty()
                };
                let last = seq![TreeLineModel::Repo(node_at(s, i))];
                assert(c == host_lines + owner_lines + last);
                let m = j - r.len();
                assert(c[m] == all[j]);
                assert(m == 0 && starts_host(s, i) && i > 0) by {
                    if m >= host_lines.len() {
                        if m < host_lines.len() + owner_lines.len() {
                            assert(c[m] == owner_lines[m - host_lines.len()]);
                        } else {
                            assert(c[m] == last[m - host_lines.len() - owner_lines.len()]);
                        }
                    } else if starts_host(s, i) && i > 0 {
                        assert(c[m] == host_lines[m]);
                    } else if starts_host(s, i) {
                        assert(c[m] == host_lines[m]);
                    }
                }
                assert(c[1] == host_lines[1]);
                assert(all[j + 1] == c[1]);
            }
        }
    }
}

/// The layout of the tree of `paths`: a blank line stands only between two
/// hosts (never first, and always right before a host header); an owner is
/// drawn as the last of its host exactly when no owner of that host comes
/// after it; a repository is drawn as the last of its owner exactly when no
/// later repository has that host and owner.
pub proof fn lemma_tree_layout(paths: Seq<String>)
    ensures
        ({
            let s = tree_entries(paths);
            let lines = tree_lines_of(s);
            &&& forall|j: int|
                0 <= j < lines.len() && #[trigger] lines[j] == TreeLineModel::Blank ==> 0 < j && j + 1
                    < lines.len() && lines[j + 1] is Host
            &&& forall|i: int|
                0 <= i < s.len() ==> (is_last_owner(s, i) <==> forall|j: int|
                    0 <= j < s.len() && (#[trigger] s[j]).host == s[i].host ==> text::str_le(
                        s[j].owner,
                        s[i].owner,
                    ))
            &&& forall|i: int|
                0 <= i < s.len() ==> (is_last_repo(s, i) <==> forall|j: int|
                    i < j < s.len() ==> !same_key(s[i], #[trigger] s[j]))
        }),
{
    let s = tree_entries(paths);
    lemma_grouping(entries_of(paths.map_values(|p: String| p@)));
    lemma_render_blanks(s, s.len() as int);
    assert forall|i: int| 0 <= i < s.len() implies (is_last_owner(s, i) <==> forall|j: int|
        0 <= j < s.len() && (#[trigger] s[j]).host == s[i].host ==> text::str_le(s[j].owner, s[i].owner)) by {
        lemma_last_owner_is_greatest(s, i);
    }
    assert forall|i: int| 0 <= i < s.len() implies (is_last_repo(s, i) <==> forall|j: int|
        i < j < s.len() ==> !same_key(s[i], #[trigger] s[j])) by {
        lemma_last_repo_ends_group(s, i);
    }
}


/// Another owner of the same host sorts after the owner of entry `i`.
pub open spec fn more_owners_after(s: Seq<Entry>, i: int) -> bool {
    exists|j: int| 0 <= j < s.len() && (#[trigger] s[j]).host == s[i].host && text::str_lt(s[i].owner, s[j].owner)
}

/// A later entry has the host and owner of entry `i`.
pub open spec fn more_repos_after(s: Seq<Entry>, i: int) -> bool {
    exists|j: int| i < j < s.len() && same_key(s[i], #[trigger] s[j])
}

proof fn lemma_last_owner_no_greater(s: Seq<Entry>, i: int)
    requires
        sorted_by_key(s),
        0 <= i < s.len(),
    ensures
        is_last_owner(s, i) <==> !more_owners_after(s, i),
        is_last_repo(s, i) <==> !more_repos_after(s, i),
{
    lemma_last_owner_is_greatest(s, i);
    lemma_last_repo_ends_group(s, i);
    if is_last_owner(s, i) && more_owners_after(s, i) {
        let j = choose|j: int|
            0 <= j < s.len() && (#[trigger] s[j]).host == s[i].host && text::str_lt(s[i].owner, s[j].owner);
        assert(text::str_le(s[j].owner, s[i].owner));
        text::lemma_str_lt_asymmetric(s[i].owner, s[j].owner);
    }
    if !more_owners_after(s, i) {
        assert forall|j: int| 0 <= j < s.len() && (#[trigger] s[j]).host == s[i].host implies text::str_le(
            s[j].owner,
            s[i].owner,
        ) by {
            text::lemma_str_lt_total(s[j].owner, s[i].owner);
        }
    }
}

/// Every repository node of the tree of `paths` is drawn under its owner:
/// its prefix starts with a bar `│   ` when another owner of the same host
/// comes after its owner (the owners' connector continues past it) and with
/// blanks otherwise, and ends with `├── ` when another repository of the same
/// owner follows it and `└── ` when it is the owner's last. Its continuation
/// prefix has the same first half and then a bar or blanks by the same rule.
pub proof fn lemma_node_prefixes(paths: Seq<String>)
    ensures
        ({
            let s = tree_entries(paths);
            let nodes = tree_nodes_of(s);
            forall|i: int|
                0 <= i < nodes.len() ==> {
                    &&& (#[trigger] nodes[i]).prefix == (if more_owners_after(s, i) {
                        "│   "@
                    } else {
                        "    "@
                    }) + (if more_repos_after(s, i) {
                        "├── "@
                    } else {
                        "└── "@
                    })
                    &&& nodes[i].continuation_prefix == (if more_owners_after(s, i) {
                        "│   "@
                    } else {
                        "    "@
                    }) + (if more_repos_after(s, i) {
                        "│   "@
                    } else {
                        "    "@
                    })
                }
        }),
{
    let s = tree_entries(paths);
    lemma_grouping(entries_of(paths.map_values(|p: String| p@)));
    let nodes = tree_nodes_of(s);
    assert forall|i: int| 0 <= i < nodes.len() implies {
        &&& (#[trigger] nodes[i]).prefix == (if more_owners_after(s, i) {
            "│   "@
        } else {
            "    "@
        }) + (if more_repos_after(s, i) {
            "├── "@
        } else {
            "└── "@
        })
        &&& nodes[i].continuation_prefix == (if more_owners_after(s, i) {
            "│   "@
        } else {
            "    "@
        }) + (if more_repos_after(s, i) {
            "│   "@
        } else {
            "    "@
        })
    } by {
        lemma_last_owner_no_greater(s, i);
        assert(nodes[i] == node_at(s, i));
    }
}

proof fn lemma_render_owner_lines(s: Seq<Entry>, k: int)
    requires
        0 <= k <= s.len(),
        sorted_by_key(s),
    ensures
        forall|m: int|
            0 <= m < render(s, k).len() ==> match #[trigger] render(s, k)[m] {
                TreeLineModel::Owner { name, prefix } => exists|i: int|
                    0 <= i < s.len() && #[trigger] s[i].owner == name && prefix == if more_owners_after(s, i) {
                        "├── "@
                    } else {
                        "└── "@
                    },
                _ => true,
            },
    decreases k,
{
    if k > 0 {
        let i = k - 1;
        lemma_render_owner_lines(s, i);
        lemma_last_owner_no_greater(s, i);
        let r = render(s, i);
        let c = chunk(s, i);
        let all = render(s, k);
        assert(all == r + c);
        assert forall|m: int| 0 <= m < all.len() implies match #[trigger] all[m] {
            TreeLineModel::Owner { name, prefix } => exists|i: int|
                0 <= i < s.len() && #[trigger] s[i].owner == name && prefix == if more_owners_after(s, i) {
                    "├── "@
                } else {
                    "└── "@
                },
            _ => true,
        } by {
            if m < r.len() {
                assert(all[m] == r[m]);
            } else {
                let host_lines = if starts_host(s, i) {
                    if i > 0 {
                        seq![TreeLineModel::Blank, TreeLineModel::Host(s[i].host)]
                    } else {
                        seq![TreeLineModel::Host(s[i].host)]
                    }
                } else {
                    Seq::<TreeLineModel>::empty()
                };
                let owner_lines = if starts_owner(s, i) {
                    seq![TreeLineModel::Owner { name: s[i].owner, prefix: branch(is_last_owner(s, i)) }]
                } else {
                    Seq::<TreeLineModel>::empty()
                };
                let last = seq![TreeLineModel::Repo(node_at(s, i))];
                assert(c == host_lines + owner_lines + last);
                let q = m - r.len();
                assert(c[q] == all[m]);
                if q < host_lines.len() {
                    assert(c[q] == host_lines[q]);
                } else if q < host_lines.len() + owner_lines.len() {
                    assert(c[q] == owner_lines[q - host_lines.len()]);
                    assert(s[i].owner == s[i].owner);
                } else {
                    assert(c[q] == last[q - host_lines.len() - owner_lines.len()]);
                }
            }
        }
    }
}

/// Every owner line of the tree of `paths` is drawn with `├── ` when another
/// owner of the same host comes after it and with `└── ` when it is the
/// host's last owner.
pub proof fn lemma_owner_prefixes(paths: Seq<String>)
    ensures
        ({
            let s = tree_entries(paths);
            let lines = tree_lines_of(s);
            forall|m: int|
                0 <= m < lines.len() ==> match #[trigger] lines[m] {
                    TreeLineModel::Owner { name, prefix } => exists|i: int|
                        0 <= i < s.len() && #[trigger] s[i].owner == name && prefix == if more_owners_after(s, i) {
                            "├── "@
                        } else {
                            "└── "@
                        },
                    _ => true,
                }
        }),
{
    let s = tree_entries(paths);
    lemma_grouping(entries_of(paths.map_values(|p: String| p@)));
    lemma_render_owner_lines(s, s.len() as int);
}

} // verus!

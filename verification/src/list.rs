//! Discovering repositories under the root: what the directory walk does with
//! each entry, and the sorted, prefix-filtered listing of what it found.

use vstd::prelude::*;

use crate::text::{self, compare_str, starts_with, Order};

verus! {

/// `s` is in non-decreasing lexicographic order.
pub open spec fn sorted_strs(s: Seq<Seq<char>>) -> bool {
    forall|i: int, j: int| 0 <= i < j < s.len() ==> text::str_le(#[trigger] s[i], #[trigger] s[j])
}

/// The paths that start with `prefix` (all of them when there is no prefix),
/// in input order.
pub open spec fn with_prefix(paths: Seq<Seq<char>>, prefix: Option<Seq<char>>) -> Seq<Seq<char>> {
    match prefix {
        Some(p) => paths.filter(|x: Seq<char>| text::is_prefix(p, x)),
        None => paths,
    }
}

/// The views of a list of strings.
pub open spec fn views(v: Seq<String>) -> Seq<Seq<char>> {
    v.map_values(|s: String| s@)
}

/// What the directory walk does with one entry of a directory.
#[derive(Debug, Clone, Copy, PartialEq, Eq, Structural)]
pub enum WalkStep {
    /// Not a directory, or a hidden one: ignored.
    Skip,
    /// A directory holding `.git`: recorded as a repository, not entered.
    Record,
    /// Any other directory: searched for repositories in turn.
    Descend,
}

/// The step for an entry named `name` (`None` when the name is not valid
/// text), which is a directory when `is_dir`, and holds `.git` when `has_git`.
pub open spec fn walk_step_of(name: Option<Seq<char>>, is_dir: bool, has_git: bool) -> WalkStep {
    if !is_dir {
        WalkStep::Skip
    } else if name matches Some(n) && n.len() > 0 && n[0] == '.' {
        WalkStep::Skip
    } else if has_git {
        WalkStep::Record
    } else {
        WalkStep::Descend
    }
}

/// Decide what the directory walk does with one entry: skip files and
/// hidden directories, record directories holding `.git` without entering
/// them (repositories are not nested), and enter every other directory.
pub fn walk_step(name: Option<&str>, is_dir: bool, has_git: bool) -> (r: WalkStep)
    ensures
        r == walk_step_of(match name { Some(n) => Some(n@), None => None }, is_dir, has_git),
        !is_dir ==> r == WalkStep::Skip,
        r == WalkStep::Record <==> is_dir && has_git && !(name matches Some(n) && text::is_prefix("."@, n@)),
        r == WalkStep::Descend <==> is_dir && !has_git && !(name matches Some(n) && text::is_prefix("."@, n@)),
{
    if !is_dir {
        return WalkStep::Skip;
    }
    match name {
        Some(n) => {
            if starts_with(n, ".") {
                proof {
                    reveal_strlit(".");
                    assert(n@.take(1)[0] == n@[0]);
                }
                return WalkStep::Skip;
            }
            proof {
                reveal_strlit(".");
                if n@.len() > 0 && n@[0] == '.' {
                    assert(n@.take(1) =~= "."@);
                }
            }
        },
        None => {},
    }
    if has_git {
        WalkStep::Record
    } else {
        WalkStep::Descend
    }
}

/// The listing of the repositories a walk found: those whose relative path
/// starts with `prefix` (all when there is none), sorted.
pub fn discover_repos(found: Vec<String>, prefix: Option<&str>) -> (r: Vec<String>)
    ensures
        sorted_strs(views(r@)),
        views(r@).to_multiset() == with_prefix(
            views(found@),
            match prefix { Some(p) => Some(p@), None => None },
        ).to_multiset(),
{
    broadcast use vstd::seq_lib::group_to_multiset_ensures;
    broadcast use vstd::seq::Seq::lemma_filter_push;

    let ghost pv = match prefix { Some(p) => Some(p@), None => None };
    let ghost fv = views(found@);
    let mut r: Vec<String> = Vec::new();
    let mut rest = found;
    // `rest` is consumed from the back; work on the reversed order and then
    // rely on the multiset statement, which does not depend on order.
    let ghost consumed: Seq<Seq<char>> = Seq::empty();
    assert(fv =~= views(rest@) + consumed);
    while rest.len() > 0
        invariant
            fv == views(rest@) + consumed,
            pv == match prefix { Some(p) => Some(p@), None => None },
            sorted_strs(views(r@)),
            views(r@).to_multiset() == with_prefix(consumed, pv).to_multiset(),
        decreases rest.len(),
    {
        let x = rest.pop().unwrap();
        let ghost xv = x@;
        let ghost old_r = views(r@);
        let ghost old_consumed = consumed;
        proof {
            consumed = seq![xv] + consumed;
        }
        let keep = match prefix {
            Some(p) => starts_with(x.as_str(), p),
            None => true,
        };
        assert(keep == match pv {
            Some(p) => text::is_prefix(p, xv),
            None => true,
        });
        assert(with_prefix(consumed, pv).to_multiset() == if keep {
            with_prefix(old_consumed, pv).to_multiset().insert(xv)
        } else {
            with_prefix(old_consumed, pv).to_multiset()
        }) by {
            lemma_with_prefix_prepend(xv, old_consumed, pv);
        }
        if keep {
            let mut k: usize = r.len();
            while k > 0 && compare_str(r[k - 1].as_str(), x.as_str()) == Order::Greater
                invariant
                    k <= r.len(),
                    old_r == views(r@),
                    xv == x@,
                    forall|j: int| k <= j < old_r.len() ==> text::str_lt(xv, #[trigger] old_r[j]),
                decreases k,
            {
                k = k - 1;
            }
            proof {
                if k > 0 {
                    assert(old_r[k - 1] == r@[k - 1]@);
                    text::lemma_str_lt_total(old_r[k - 1], xv);
                }
                assert forall|i: int, j: int| 0 <= i < j < old_r.len() + 1 implies text::str_le(
                    #[trigger] old_r.insert(k as int, xv)[i],
                    #[trigger] old_r.insert(k as int, xv)[j],
                ) by {
                    let s2 = old_r.insert(k as int, xv);
                    if i < k && j == k {
                        if i < k - 1 {
                            assert(text::str_le(old_r[i], old_r[k - 1]));
                            text::lemma_str_le_transitive(old_r[i], old_r[k - 1], xv);
                        }
                    } else if i == k {
                        assert(text::str_lt(xv, old_r[j - 1]));
                    } else if i < k && j > k {
                        assert(text::str_le(old_r[i], old_r[j - 1]));
                    } else if i > k {
                        assert(text::str_le(old_r[i - 1], old_r[j - 1]));
                    } else {
                        assert(text::str_le(old_r[i], old_r[j]));
                    }
                }
            }
            r.insert(k, x);
            assert(views(r@) =~= old_r.insert(k as int, xv));
            proof {
                vstd::seq_lib::to_multiset_insert(old_r, k as int, xv);
            }
        }
        assert(fv =~= views(rest@) + consumed);
    }
    assert(consumed =~= fv);
    r
}

/// Adding a path in front adds it to the matching paths exactly when it matches.
proof fn lemma_with_prefix_prepend(x: Seq<char>, s: Seq<Seq<char>>, prefix: Option<Seq<char>>)
    ensures
        with_prefix(seq![x] + s, prefix).to_multiset() == match prefix {
            Some(p) => if text::is_prefix(p, x) {
                with_prefix(s, prefix).to_multiset().insert(x)
            } else {
                with_prefix(s, prefix).to_multiset()
            },
            None => with_prefix(s, prefix).to_multiset().insert(x),
        },
{
    broadcast use vstd::seq_lib::group_to_multiset_ensures;

    match prefix {
        Some(p) => {
            let f = |y: Seq<char>| text::is_prefix(p, y);
            vstd::seq_lib::lemma_seq_union_to_multiset_commutative(seq![x], s);
            Seq::filter_distributes_over_add(seq![x], s, f);
            assert(seq![x].filter(f) =~= if f(x) { seq![x] } else { Seq::empty() }) by {
                reveal_with_fuel(Seq::filter, 2);
                assert(seq![x].drop_last() =~= Seq::<Seq<char>>::empty());
            }
            assert(seq![x].filter(f) + s.filter(f) =~= if f(x) { s.filter(f).insert(0, x) } else { s.filter(f) });
        },
        None => {
            assert(seq![x] + s =~= s.insert(0, x));
        },
    }
}

/// A sorted listing is determined by the paths it holds: two sorted sequences
/// with the same paths (as multisets) are equal, so the listing does not
/// depend on the order in which the walk met the repositories.
pub proof fn lemma_sorted_listing_unique(a: Seq<Seq<char>>, b: Seq<Seq<char>>)
    requires
        sorted_strs(a),
        sorted_strs(b),
        a.to_multiset() == b.to_multiset(),
    ensures
        a == b,
    decreases a.len(),
{
    broadcast use vstd::seq_lib::group_to_multiset_ensures;

    vstd::seq_lib::to_multiset_len(a);
    vstd::seq_lib::to_multiset_len(b);
    if a.len() == 0 {
        assert(b.len() == 0);
        assert(a =~= b);
    } else {
        assert(b.len() > 0);
        assert(a.to_multiset().count(a[0]) > 0);
        assert(b.contains(a[0]));
        let j = choose|j: int| 0 <= j < b.len() && b[j] == a[0];
        assert(b.to_multiset().count(b[0]) > 0);
        assert(a.contains(b[0]));
        let i = choose|i: int| 0 <= i < a.len() && a[i] == b[0];
        if j > 0 {
            assert(text::str_le(b[0], b[j]));
        }
        if i > 0 {
            assert(text::str_le(a[0], a[i]));
        }
        text::lemma_str_lt_asymmetric(a[0], b[0]);
        assert(a[0] == b[0]);
        vstd::seq_lib::to_multiset_remove(a, 0);
        vstd::seq_lib::to_multiset_remove(b, 0);
        assert(a.remove(0) =~= a.drop_first());
        assert(b.remove(0) =~= b.drop_first());
        lemma_sorted_listing_unique(a.drop_first(), b.drop_first());
        assert(a =~= b) by {
            assert forall|k: int| 0 <= k < a.len() implies a[k] == b[k] by {
                if k > 0 {
                    assert(a[k] == a.drop_first()[k - 1]);
                    assert(b[k] == b.drop_first()[k - 1]);
                }
            }
        }
    }
}

/// Every repository in a listing filtered by a prefix starts with that prefix.
pub proof fn lemma_listing_matches_prefix(listing: Seq<Seq<char>>, found: Seq<Seq<char>>, prefix: Seq<char>)
    requires
        listing.to_multiset() == with_prefix(found, Some(prefix)).to_multiset(),
    ensures
        forall|i: int| 0 <= i < listing.len() ==> text::is_prefix(prefix, #[trigger] listing[i]),
{
    broadcast use vstd::seq_lib::group_to_multiset_ensures;
    broadcast use vstd::seq_lib::group_filter_ensures;

    let kept = with_prefix(found, Some(prefix));
    assert forall|i: int| 0 <= i < listing.len() implies text::is_prefix(prefix, #[trigger] listing[i]) by {
        assert(listing.to_multiset().count(listing[i]) > 0);
        assert(kept.contains(listing[i]));
        let j = choose|j: int| 0 <= j < kept.len() && kept[j] == listing[i];
        found.lemma_filter_pred(|x: Seq<char>| text::is_prefix(prefix, x), j);
    }
}


/// The number of times `x` occurs among the elements of `s` that satisfy `f`.
proof fn lemma_filter_count(s: Seq<Seq<char>>, f: spec_fn(Seq<char>) -> bool, x: Seq<char>)
    ensures
        s.filter(f).to_multiset().count(x) == if f(x) {
            s.to_multiset().count(x)
        } else {
            0
        },
    decreases s.len(),
{
    broadcast use vstd::seq_lib::group_to_multiset_ensures;
    broadcast use vstd::seq::Seq::lemma_filter_push;

    if s.len() == 0 {
        assert(s.filter(f) =~= s) by {
            reveal(Seq::filter);
        }
    } else {
        let front = s.drop_last();
        lemma_filter_count(front, f, x);
        assert(front.push(s.last()) =~= s);
    }
}

/// Keeping the elements that satisfy `f` keeps a sorted sequence sorted.
proof fn lemma_filter_sorted(a: Seq<Seq<char>>, f: spec_fn(Seq<char>) -> bool)
    requires
        sorted_strs(a),
    ensures
        sorted_strs(a.filter(f)),
    decreases a.len(),
{
    broadcast use vstd::seq_lib::group_to_multiset_ensures;
    broadcast use vstd::seq::Seq::lemma_filter_push;

    if a.len() == 0 {
        assert(a.filter(f) =~= a) by {
            reveal(Seq::filter);
        }
    } else {
        let front = a.drop_last();
        assert(sorted_strs(front));
        lemma_filter_sorted(front, f);
        assert(front.push(a.last()) =~= a);
        if f(a.last()) {
            let r = front.filter(f);
            let r2 = r.push(a.last());
            assert forall|i: int, j: int| 0 <= i < j < r2.len() implies text::str_le(
                #[trigger] r2[i],
                #[trigger] r2[j],
            ) by {
                if j == r2.len() - 1 {
                    assert(r2[i] == r[i]);
                    assert(r.contains(r[i]));
                    assert(r.to_multiset().count(r[i]) > 0);
                    lemma_filter_count(front, f, r[i]);
                    assert(front.contains(r[i]));
                    let m = choose|m: int| 0 <= m < front.len() && front[m] == r[i];
                    assert(a[m] == front[m]);
                    assert(text::str_le(a[m], a[a.len() - 1]));
                } else {
                    assert(r2[i] == r[i] && r2[j] == r[j]);
                }
            }
        }
    }
}

/// Over the same walk result, the listing for a prefix is the full listing
/// with only the paths that start with the prefix kept; with the empty prefix
/// it is the full listing.
pub proof fn lemma_prefix_listing_is_filtered(
    found: Seq<Seq<char>>,
    all: Seq<Seq<char>>,
    listed: Seq<Seq<char>>,
    prefix: Seq<char>,
)
    requires
        sorted_strs(all),
        all.to_multiset() == with_prefix(found, None).to_multiset(),
        sorted_strs(listed),
        listed.to_multiset() == with_prefix(found, Some(prefix)).to_multiset(),
    ensures
        listed == all.filter(|x: Seq<char>| text::is_prefix(prefix, x)),
        prefix.len() == 0 ==> listed == all,
{
    let f = |x: Seq<char>| text::is_prefix(prefix, x);
    lemma_filter_sorted(all, f);
    assert(all.filter(f).to_multiset() =~= found.filter(f).to_multiset()) by {
        assert forall|x: Seq<char>| all.filter(f).to_multiset().count(x) == found.filter(f).to_multiset().count(x) by {
            lemma_filter_count(all, f, x);
            lemma_filter_count(found, f, x);
        }
    }
    lemma_sorted_listing_unique(listed, all.filter(f));
    if prefix.len() == 0 {
        assert(listed.to_multiset() =~= all.to_multiset()) by {
            assert forall|x: Seq<char>| listed.to_multiset().count(x) == all.to_multiset().count(x) by {
                assert(x.take(0) =~= prefix);
                lemma_filter_count(found, f, x);
            }
        }
        lemma_sorted_listing_unique(listed, all);
    }
}

} // verus!

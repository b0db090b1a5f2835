//! Character-level operations on strings, stated over `Seq<char>`.
//!
//! Every executable helper here works on the Unicode scalar values of its
//! argument, so its contract speaks of `s@` directly.

use vstd::prelude::*;
use vstd::string::*;

verus! {

/// `p` is a prefix of `s`.
pub open spec fn is_prefix(p: Seq<char>, s: Seq<char>) -> bool {
    p.len() <= s.len() && s.take(p.len() as int) == p
}

/// `p` is a suffix of `s`.
pub open spec fn is_suffix(p: Seq<char>, s: Seq<char>) -> bool {
    p.len() <= s.len() && s.skip(s.len() - p.len()) == p
}

/// `t` occurs in `s` as a run of consecutive characters.
pub open spec fn is_infix(t: Seq<char>, s: Seq<char>) -> bool {
    exists|i: int| 0 <= i && i + t.len() <= s.len() && #[trigger] s.subrange(i, i + t.len()) == t
}

/// `i` is the position of the first occurrence of `c` in `s`.
pub open spec fn is_first(s: Seq<char>, c: char, i: int) -> bool {
    &&& 0 <= i < s.len()
    &&& s[i] == c
    &&& forall|j: int| 0 <= j < i ==> s[j] != c
}

/// The position of the first occurrence of `c` in `s`, if any.
pub open spec fn first_index(s: Seq<char>, c: char) -> Option<int> {
    if exists|i: int| is_first(s, c, i) {
        Some(choose|i: int| is_first(s, c, i))
    } else {
        None
    }
}

/// Everything before the first `c` (all of `s` when there is none).
pub open spec fn before_first(s: Seq<char>, c: char) -> Seq<char> {
    match first_index(s, c) {
        Some(i) => s.take(i),
        None => s,
    }
}

/// Everything after the first `c` (empty when there is none).
pub open spec fn after_first(s: Seq<char>, c: char) -> Seq<char> {
    match first_index(s, c) {
        Some(i) => s.skip(i + 1),
        None => Seq::empty(),
    }
}

/// `s` without its leading run of `c`.
pub open spec fn trim_start_char(s: Seq<char>, c: char) -> Seq<char>
    decreases s.len(),
{
    if s.len() > 0 && s[0] == c {
        trim_start_char(s.drop_first(), c)
    } else {
        s
    }
}

/// `s` without its trailing run of `c`.
pub open spec fn trim_end_char(s: Seq<char>, c: char) -> Seq<char>
    decreases s.len(),
{
    if s.len() > 0 && s.last() == c {
        trim_end_char(s.drop_last(), c)
    } else {
        s
    }
}

/// `s` without its leading and trailing runs of `c`.
pub open spec fn trim_char(s: Seq<char>, c: char) -> Seq<char> {
    trim_end_char(trim_start_char(s, c), c)
}

/// The first occurrence, when `c` occurs at all, is well defined.
pub proof fn lemma_first_index(s: Seq<char>, c: char)
    ensures
        match first_index(s, c) {
            Some(i) => is_first(s, c, i),
            None => !s.contains(c),
        },
    decreases s.len(),
{
    if s.len() > 0 {
        if s[0] == c {
            assert(is_first(s, c, 0));
        } else {
            lemma_first_index(s.drop_first(), c);
            match first_index(s.drop_first(), c) {
                Some(i) => {
                    assert forall|j: int| 0 <= j < i + 1 implies s[j] != c by {
                        if j > 0 {
                            assert(s[j] == s.drop_first()[j - 1]);
                        }
                    }
                    assert(is_first(s, c, i + 1));
                },
                None => {
                    assert forall|j: int| 0 <= j < s.len() implies s[j] != c by {
                        if j > 0 {
                            assert(s[j] == s.drop_first()[j - 1]);
                        }
                    }
                },
            }
        }
    }
}

/// The first occurrence is unique.
pub proof fn lemma_is_first_unique(s: Seq<char>, c: char, i: int)
    requires
        is_first(s, c, i),
    ensures
        first_index(s, c) == Some(i),
{
    let k = choose|k: int| is_first(s, c, k);
    assert(is_first(s, c, k));
}

/// `trim_start_char` drops exactly a run of `c` that stops at a non-`c`.
pub proof fn lemma_trim_start(s: Seq<char>, c: char, a: int)
    requires
        0 <= a <= s.len(),
        forall|j: int| 0 <= j < a ==> s[j] == c,
        a == s.len() || s[a] != c,
    ensures
        trim_start_char(s, c) == s.skip(a),
    decreases a,
{
    if a > 0 {
        assert forall|j: int| 0 <= j < a - 1 implies s.drop_first()[j] == c by {
            assert(s.drop_first()[j] == s[j + 1]);
        }
        lemma_trim_start(s.drop_first(), c, a - 1);
        assert(s.drop_first().skip(a - 1) =~= s.skip(a));
    } else {
        assert(s.skip(0) =~= s);
    }
}

/// `trim_end_char` drops exactly a run of `c` that stops at a non-`c`.
pub proof fn lemma_trim_end(s: Seq<char>, c: char, b: int)
    requires
        0 <= b <= s.len(),
        forall|j: int| b <= j < s.len() ==> s[j] == c,
        b == 0 || s[b - 1] != c,
    ensures
        trim_end_char(s, c) == s.take(b),
    decreases s.len() - b,
{
    if b < s.len() {
        assert(s.last() == c);
        assert forall|j: int| b <= j < s.drop_last().len() implies s.drop_last()[j] == c by {
            assert(s.drop_last()[j] == s[j]);
        }
        lemma_trim_end(s.drop_last(), c, b);
        assert(s.drop_last().take(b) =~= s.take(b));
    } else {
        assert(s.take(b) =~= s);
    }
}

/// The characters of `s`, one element per Unicode scalar value.
pub fn chars_of(s: &str) -> (v: Vec<char>)
    ensures
        v@ == s@,
{
    let n = s.unicode_len();
    let mut v: Vec<char> = Vec::new();
    let mut i: usize = 0;
    while i < n
        invariant
            n == s@.len(),
            i <= n,
            v@ == s@.take(i as int),
        decreases n - i,
    {
        let c = s.get_char(i);
        v.push(c);
        assert(s@.take(i + 1) =~= s@.take(i as int).push(c));
        i = i + 1;
    }
    assert(s@.take(n as int) =~= s@);
    v
}

/// The number of characters of `s`.
pub fn char_len(s: &str) -> (n: usize)
    ensures
        n == s@.len(),
{
    s.unicode_len()
}

/// The characters of `s` from position `from` up to (not including) `to`.
pub fn slice(s: &str, from: usize, to: usize) -> (r: &str)
    requires
        from <= to <= s@.len(),
    ensures
        r@ == s@.subrange(from as int, to as int),
{
    s.substring_char(from, to)
}

/// An owned copy of `s`.
pub fn owned(s: &str) -> (r: String)
    ensures
        r@ == s@,
{
    String::from_str(s)
}

/// Whether `a` and `b` hold the same characters.
pub fn str_eq(a: &str, b: &str) -> (r: bool)
    ensures
        r == (a@ == b@),
{
    let x = chars_of(a);
    let y = chars_of(b);
    if x.len() != y.len() {
        return false;
    }
    let mut i: usize = 0;
    while i < x.len()
        invariant
            x@ == a@,
            y@ == b@,
            x.len() == y.len(),
            i <= x.len(),
            forall|j: int| 0 <= j < i ==> x@[j] == y@[j],
        decreases x.len() - i,
    {
        if x[i] != y[i] {
            return false;
        }
        i = i + 1;
    }
    assert(x@ =~= y@);
    true
}

/// Whether `s` starts with `p`.
pub fn starts_with(s: &str, p: &str) -> (r: bool)
    ensures
        r == is_prefix(p@, s@),
{
    let x = chars_of(s);
    let y = chars_of(p);
    if y.len() > x.len() {
        return false;
    }
    let mut i: usize = 0;
    while i < y.len()
        invariant
            x@ == s@,
            y@ == p@,
            y.len() <= x.len(),
            i <= y.len(),
            forall|j: int| 0 <= j < i ==> x@[j] == y@[j],
        decreases y.len() - i,
    {
        if x[i] != y[i] {
            assert(s@.take(p@.len() as int)[i as int] != p@[i as int]);
            return false;
        }
        i = i + 1;
    }
    assert(s@.take(p@.len() as int) =~= p@);
    true
}

/// Whether `s` ends with `p`.
pub fn ends_with(s: &str, p: &str) -> (r: bool)
    ensures
        r == is_suffix(p@, s@),
{
    let x = chars_of(s);
    let y = chars_of(p);
    if y.len() > x.len() {
        return false;
    }
    let off = x.len() - y.len();
    let mut i: usize = 0;
    while i < y.len()
        invariant
            x@ == s@,
            y@ == p@,
            off == x.len() - y.len(),
            i <= y.len(),
            forall|j: int| 0 <= j < i ==> x@[off + j] == y@[j],
        decreases y.len() - i,
    {
        if x[off + i] != y[i] {
            assert(s@.skip(s@.len() - p@.len())[i as int] != p@[i as int]);
            return false;
        }
        i = i + 1;
    }
    assert(s@.skip(s@.len() - p@.len()) =~= p@);
    true
}

/// The position of the first `c` in `s`, if any.
pub fn find_char(s: &str, c: char) -> (r: Option<usize>)
    ensures
        match r {
            Some(i) => first_index(s@, c) == Some(i as int) && is_first(s@, c, i as int),
            None => first_index(s@, c) is None && !s@.contains(c),
        },
{
    let x = chars_of(s);
    let mut i: usize = 0;
    while i < x.len()
        invariant
            x@ == s@,
            i <= x.len(),
            forall|j: int| 0 <= j < i ==> x@[j] != c,
        decreases x.len() - i,
    {
        if x[i] == c {
            proof {
                lemma_is_first_unique(s@, c, i as int);
            }
            return Some(i);
        }
        i = i + 1;
    }
    proof {
        lemma_first_index(s@, c);
        if s@.contains(c) {
            let k = choose|k: int| 0 <= k < s@.len() && s@[k] == c;
            assert(x@[k] == c);
        }
    }
    None
}

/// The text before and after the first `c` in `s`, if `c` occurs.
pub fn split_once_char(s: &str, c: char) -> (r: Option<(&str, &str)>)
    ensures
        match r {
            Some((a, b)) => s@.contains(c) && a@ == before_first(s@, c) && b@ == after_first(s@, c),
            None => !s@.contains(c),
        },
{
    match find_char(s, c) {
        Some(i) => {
            let n = char_len(s);
            let a = slice(s, 0, i);
            let b = slice(s, i + 1, n);
            assert(s@[i as int] == c);
            assert(a@ =~= s@.take(i as int));
            assert(b@ =~= s@.skip(i + 1));
            Some((a, b))
        },
        None => None,
    }
}

/// Whether `c` occurs in `s`.
pub fn contains_char(s: &str, c: char) -> (r: bool)
    ensures
        r == s@.contains(c),
{
    find_char(s, c).is_some()
}

/// `s` without its leading and trailing runs of `c`.
pub fn trim_char_str(s: &str, c: char) -> (r: &str)
    ensures
        r@ == trim_char(s@, c),
{
    let x = chars_of(s);
    let n = x.len();
    let mut a: usize = 0;
    while a < n && x[a] == c
        invariant
            x@ == s@,
            n == x.len(),
            a <= n,
            forall|j: int| 0 <= j < a ==> x@[j] == c,
        decreases n - a,
    {
        a = a + 1;
    }
    proof {
        lemma_trim_start(s@, c, a as int);
    }
    let mut b: usize = n;
    while b > a && x[b - 1] == c
        invariant
            x@ == s@,
            n == x.len(),
            a <= b <= n,
            forall|j: int| b <= j < n ==> x@[j] == c,
        decreases b - a,
    {
        b = b - 1;
    }
    proof {
        let t = s@.skip(a as int);
        assert forall|j: int| b - a <= j < t.len() implies t[j] == c by {
            assert(t[j] == s@[j + a]);
        }
        if b > a {
            assert(t[b - a - 1] == s@[b - 1]);
        }
        lemma_trim_end(t, c, b - a);
        assert(t.take(b - a) =~= s@.subrange(a as int, b as int));
    }
    slice(s, a, b)
}

/// `a` comes strictly before `b` in lexicographic order of characters (the
/// order of Rust's `str`): after a common prefix, either `a` ends while `b`
/// goes on, or `a` has the smaller character.
pub open spec fn str_lt(a: Seq<char>, b: Seq<char>) -> bool {
    exists|k: int| #[trigger] lt_at(a, b, k)
}

/// `a` and `b` agree before position `k` and `a` is smaller at `k`.
pub open spec fn lt_at(a: Seq<char>, b: Seq<char>, k: int) -> bool {
    &&& 0 <= k <= a.len()
    &&& k <= b.len()
    &&& a.take(k) == b.take(k)
    &&& ((k == a.len() && k < b.len()) || (k < a.len() && k < b.len() && (a[k] as int) < (b[k] as int)))
}

/// `a` comes before `b` or equals it.
pub open spec fn str_le(a: Seq<char>, b: Seq<char>) -> bool {
    str_lt(a, b) || a == b
}

/// No string comes before itself, and of two strings at most one comes first.
pub proof fn lemma_str_lt_asymmetric(a: Seq<char>, b: Seq<char>)
    ensures
        str_lt(a, b) ==> !str_lt(b, a),
        str_lt(a, b) ==> a != b,
{
    if str_lt(a, b) {
        let k1 = choose|k: int| lt_at(a, b, k);
        assert(lt_at(a, b, k1));
        if str_lt(b, a) {
            let k2 = choose|k: int| lt_at(b, a, k);
            assert(lt_at(b, a, k2));
            if k1 < k2 {
                assert(a.take(k2)[k1] == b.take(k2)[k1]);
            } else if k2 < k1 {
                assert(a.take(k1)[k2] == b.take(k1)[k2]);
            }
        }
        if a == b {
            assert(lt_at(a, a, k1));
        }
    }
}

/// The order is transitive.
pub proof fn lemma_str_lt_transitive(a: Seq<char>, b: Seq<char>, c: Seq<char>)
    requires
        str_lt(a, b),
        str_lt(b, c),
    ensures
        str_lt(a, c),
{
    let k1 = choose|k: int| lt_at(a, b, k);
    let k2 = choose|k: int| lt_at(b, c, k);
    assert(lt_at(a, b, k1));
    assert(lt_at(b, c, k2));
    if k1 < k2 {
        assert(b.take(k2)[k1] == c.take(k2)[k1]);
        assert(a.take(k1) =~= c.take(k1)) by {
            assert forall|j: int| 0 <= j < k1 implies a.take(k1)[j] == c.take(k1)[j] by {
                assert(a.take(k1)[j] == b.take(k1)[j]);
                assert(b.take(k2)[j] == c.take(k2)[j]);
            }
        }
        assert(lt_at(a, c, k1));
    } else if k2 < k1 {
        assert(a.take(k1)[k2] == b.take(k1)[k2]);
        assert(a.take(k2) =~= c.take(k2)) by {
            assert forall|j: int| 0 <= j < k2 implies a.take(k2)[j] == c.take(k2)[j] by {
                assert(a.take(k1)[j] == b.take(k1)[j]);
                assert(b.take(k2)[j] == c.take(k2)[j]);
            }
        }
        assert(lt_at(a, c, k2));
    } else {
        assert(a.take(k1) =~= c.take(k1)) by {
            assert forall|j: int| 0 <= j < k1 implies a.take(k1)[j] == c.take(k1)[j] by {
                assert(a.take(k1)[j] == b.take(k1)[j]);
                assert(b.take(k2)[j] == c.take(k2)[j]);
            }
        }
        assert(lt_at(a, c, k1));
    }
}

/// `str_le` is transitive.
pub proof fn lemma_str_le_transitive(a: Seq<char>, b: Seq<char>, c: Seq<char>)
    requires
        str_le(a, b),
        str_le(b, c),
    ensures
        str_le(a, c),
{
    if str_lt(a, b) && str_lt(b, c) {
        lemma_str_lt_transitive(a, b, c);
    }
}

/// Of two different strings, one comes first.
pub proof fn lemma_str_lt_total(a: Seq<char>, b: Seq<char>)
    ensures
        a == b || str_lt(a, b) || str_lt(b, a),
    decreases a.len(),
{
    if a.len() == 0 || b.len() == 0 {
        if a.len() == 0 && b.len() > 0 {
            assert(a.take(0) =~= b.take(0));
            assert(lt_at(a, b, 0));
        } else if b.len() == 0 && a.len() > 0 {
            assert(a.take(0) =~= b.take(0));
            assert(lt_at(b, a, 0));
        } else {
            assert(a =~= b);
        }
    } else if a[0] != b[0] {
        assert(a.take(0) =~= b.take(0));
        if (a[0] as int) < (b[0] as int) {
            assert(lt_at(a, b, 0));
        } else {
            assert(lt_at(b, a, 0));
        }
    } else {
        let a1 = a.drop_first();
        let b1 = b.drop_first();
        lemma_str_lt_total(a1, b1);
        if a1 == b1 {
            assert(a =~= b) by {
                assert forall|j: int| 0 <= j < a.len() implies a[j] == b[j] by {
                    if j > 0 {
                        assert(a[j] == a1[j - 1]);
                        assert(b[j] == b1[j - 1]);
                    }
                }
            }
        } else if str_lt(a1, b1) {
            let k = choose|k: int| lt_at(a1, b1, k);
            assert(lt_at(a1, b1, k));
            assert(a.take(k + 1) =~= b.take(k + 1)) by {
                assert forall|j: int| 0 <= j < k + 1 implies #[trigger] a.take(k + 1)[j] == b.take(k + 1)[j] by {
                    if j > 0 {
                        assert(a1.take(k)[j - 1] == b1.take(k)[j - 1]);
                    }
                }
            }
            assert(lt_at(a, b, k + 1));
        } else {
            let k = choose|k: int| lt_at(b1, a1, k);
            assert(lt_at(b1, a1, k));
            assert(b.take(k + 1) =~= a.take(k + 1)) by {
                assert forall|j: int| 0 <= j < k + 1 implies #[trigger] b.take(k + 1)[j] == a.take(k + 1)[j] by {
                    if j > 0 {
                        assert(b1.take(k)[j - 1] == a1.take(k)[j - 1]);
                    }
                }
            }
            assert(lt_at(b, a, k + 1));
        }
    }
}

/// The outcome of comparing two strings.
#[derive(Debug, Clone, Copy, PartialEq, Eq, Structural)]
pub enum Order {
    Less,
    Equal,
    Greater,
}

/// The order of `a` and `b` (see [`str_lt`]).
pub open spec fn order_of(a: Seq<char>, b: Seq<char>) -> Order {
    if str_lt(a, b) {
        Order::Less
    } else if a == b {
        Order::Equal
    } else {
        Order::Greater
    }
}

/// Compare `a` and `b` in lexicographic order of characters.
pub fn compare_str(a: &str, b: &str) -> (r: Order)
    ensures
        r == order_of(a@, b@),
        r == Order::Less <==> str_lt(a@, b@),
        r == Order::Equal <==> a@ == b@,
        r == Order::Greater <==> str_lt(b@, a@),
{
    let x = chars_of(a);
    let y = chars_of(b);
    let mut i: usize = 0;
    while i < x.len() && i < y.len()
        invariant
            x@ == a@,
            y@ == b@,
            i <= x.len(),
            i <= y.len(),
            x@.take(i as int) == y@.take(i as int),
        decreases x.len() - i,
    {
        if x[i] != y[i] {
            proof {
                lemma_str_lt_asymmetric(a@, b@);
                lemma_str_lt_asymmetric(b@, a@);
            }
            if x[i] < y[i] {
                assert(lt_at(a@, b@, i as int));
                return Order::Less;
            } else {
                assert(lt_at(b@, a@, i as int));
                return Order::Greater;
            }
        }
        assert(x@.take(i + 1) =~= x@.take(i as int).push(x@[i as int]));
        assert(y@.take(i + 1) =~= y@.take(i as int).push(y@[i as int]));
        i = i + 1;
    }
    proof {
        lemma_str_lt_asymmetric(a@, b@);
        lemma_str_lt_asymmetric(b@, a@);
    }
    if x.len() == y.len() {
        assert(a@ =~= b@) by {
            assert(x@.take(i as int) =~= x@);
            assert(y@.take(i as int) =~= y@);
        }
        assert(!str_lt(a@, b@)) by {
            if str_lt(a@, b@) {
                lemma_str_lt_asymmetric(a@, a@);
            }
        }
        Order::Equal
    } else if x.len() < y.len() {
        assert(lt_at(a@, b@, i as int));
        Order::Less
    } else {
        assert(lt_at(b@, a@, i as int));
        Order::Greater
    }
}

} // verus!

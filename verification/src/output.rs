//! Reading the text that git prints, and writing numbers as text.

use vstd::prelude::*;

use crate::text::{self, char_len, chars_of, owned, slice, split_once_char};

verus! {

/// Whether `c` has the Unicode `White_Space` property, the property that
/// `char::is_whitespace` and `str::trim` go by: tab, line feed, vertical tab,
/// form feed, carriage return, space, next line, no-break space, Ogham space
/// mark, the spaces U+2000 to U+200A, line and paragraph separators, narrow
/// no-break space, medium mathematical space and ideographic space.
pub open spec fn white_space(c: char) -> bool {
    let n = c as int;
    ||| 0x09 <= n <= 0x0D
    ||| n == 0x20
    ||| n == 0x85
    ||| n == 0xA0
    ||| n == 0x1680
    ||| 0x2000 <= n <= 0x200A
    ||| n == 0x2028
    ||| n == 0x2029
    ||| n == 0x202F
    ||| n == 0x205F
    ||| n == 0x3000
}

/// Whether `c` is white space (see [`white_space`]).
pub fn is_white_space(c: char) -> (r: bool)
    ensures
        r == white_space(c),
{
    let n = c as u32;
    (0x09 <= n && n <= 0x0D) || n == 0x20 || n == 0x85 || n == 0xA0 || n == 0x1680 || (0x2000 <= n && n
        <= 0x200A) || n == 0x2028 || n == 0x2029 || n == 0x202F || n == 0x205F || n == 0x3000
}

/// `s` without leading and trailing white space.
pub open spec fn trim_white(s: Seq<char>) -> Seq<char> {
    trim_white_end(trim_white_start(s))
}

/// `s` without its leading white space.
pub open spec fn trim_white_start(s: Seq<char>) -> Seq<char>
    decreases s.len(),
{
    if s.len() > 0 && white_space(s[0]) {
        trim_white_start(s.drop_first())
    } else {
        s
    }
}

/// `s` without its trailing white space.
pub open spec fn trim_white_end(s: Seq<char>) -> Seq<char>
    decreases s.len(),
{
    if s.len() > 0 && white_space(s.last()) {
        trim_white_end(s.drop_last())
    } else {
        s
    }
}

proof fn lemma_trim_white_start(s: Seq<char>, a: int)
    requires
        0 <= a <= s.len(),
        forall|j: int| 0 <= j < a ==> white_space(s[j]),
        a == s.len() || !white_space(s[a]),
    ensures
        trim_white_start(s) == s.skip(a),
    decreases a,
{
    if a > 0 {
        assert forall|j: int| 0 <= j < a - 1 implies white_space(s.drop_first()[j]) by {
            assert(s.drop_first()[j] == s[j + 1]);
        }
        lemma_trim_white_start(s.drop_first(), a - 1);
        assert(s.drop_first().skip(a - 1) =~= s.skip(a));
    } else {
        assert(s.skip(0) =~= s);
    }
}

proof fn lemma_trim_white_end(s: Seq<char>, b: int)
    requires
        0 <= b <= s.len(),
        forall|j: int| b <= j < s.len() ==> white_space(s[j]),
        b == 0 || !white_space(s[b - 1]),
    ensures
        trim_white_end(s) == s.take(b),
    decreases s.len() - b,
{
    if b < s.len() {
        assert forall|j: int| b <= j < s.drop_last().len() implies white_space(s.drop_last()[j]) by {
            assert(s.drop_last()[j] == s[j]);
        }
        lemma_trim_white_end(s.drop_last(), b);
        assert(s.drop_last().take(b) =~= s.take(b));
    } else {
        assert(s.take(b) =~= s);
    }
}

/// `s` without leading and trailing white space.
pub fn trim(s: &str) -> (r: &str)
    ensures
        r@ == trim_white(s@),
{
    let x = chars_of(s);
    let n = x.len();
    let mut a: usize = 0;
    while a < n && is_white_space(x[a])
        invariant
            x@ == s@,
            n == x.len(),
            a <= n,
            forall|j: int| 0 <= j < a ==> white_space(x@[j]),
        decreases n - a,
    {
        a = a + 1;
    }
    proof {
        lemma_trim_white_start(s@, a as int);
    }
    let mut b: usize = n;
    while b > a && is_white_space(x[b - 1])
        invariant
            x@ == s@,
            n == x.len(),
            a <= b <= n,
            forall|j: int| b <= j < n ==> white_space(x@[j]),
        decreases b - a,
    {
        b = b - 1;
    }
    proof {
        let t = s@.skip(a as int);
        assert forall|j: int| b - a <= j < t.len() implies white_space(t[j]) by {
            assert(t[j] == s@[j + a]);
        }
        if b > a {
            assert(t[b - a - 1] == s@[b - 1]);
        }
        lemma_trim_white_end(t, b - a);
        assert(t.take(b - a) =~= s@.subrange(a as int, b as int));
    }
    slice(s, a, b)
}

/// The character of decimal digit `d`.
pub open spec fn digit_char(d: nat) -> char {
    (48 + d) as char
}

/// The decimal digits of `n`, most significant first, with no leading zeros.
pub open spec fn decimal(n: nat) -> Seq<char>
    decreases n,
{
    if n < 10 {
        seq![digit_char(n)]
    } else {
        decimal(n / 10).push(digit_char(n % 10))
    }
}

fn digit_str(d: usize) -> (s: &'static str)
    requires
        d < 10,
    ensures
        s@ == seq![digit_char(d as nat)],
{
    proof {
        reveal_strlit("0");
        reveal_strlit("1");
        reveal_strlit("2");
        reveal_strlit("3");
        reveal_strlit("4");
        reveal_strlit("5");
        reveal_strlit("6");
        reveal_strlit("7");
        reveal_strlit("8");
        reveal_strlit("9");
    }
    let s = if d == 0 {
        "0"
    } else if d == 1 {
        "1"
    } else if d == 2 {
        "2"
    } else if d == 3 {
        "3"
    } else if d == 4 {
        "4"
    } else if d == 5 {
        "5"
    } else if d == 6 {
        "6"
    } else if d == 7 {
        "7"
    } else if d == 8 {
        "8"
    } else {
        "9"
    };
    assert(s@ =~= seq![digit_char(d as nat)]);
    s
}

proof fn lemma_digit_char_value(d: nat)
    requires
        d < 10,
    ensures
        digit_char(d) as nat == 48 + d,
        is_digit(digit_char(d)),
{
    let c = digit_char(d);
    assert(c as nat == 48 + d) by {
        assert((48 + d) as char as nat == 48 + d);
    }
}

/// Writing a number in decimal and reading it back gives the number: the
/// text is a non-empty run of decimal digits whose value is `n`.
pub proof fn lemma_decimal_parses_back(n: nat)
    ensures
        decimal(n).len() > 0,
        all_digits(decimal(n)),
        digits_value(decimal(n)) == n,
        n <= usize::MAX ==> parse_usize(decimal(n)) == Some(n as usize),
    decreases n,
{
    if n >= 10 {
        lemma_decimal_parses_back(n / 10);
        let d = decimal(n);
        assert(d.drop_last() =~= decimal(n / 10));
        assert(d.last() == digit_char(n % 10));
        lemma_digit_char_value((n % 10) as nat);
        assert(n == (n / 10) * 10 + n % 10) by (nonlinear_arith);
        assert(digits_value(d.drop_last()) == n / 10);
        assert(digits_value(d) == digits_value(d.drop_last()) * 10 + ((d.last() as nat) - 48) as nat);
        assert(digits_value(d) == n);
        assert forall|i: int| 0 <= i < d.len() implies is_digit(#[trigger] d[i]) by {
            if i < d.len() - 1 {
                assert(d[i] == decimal(n / 10)[i]);
            }
        }
    } else {
        assert(decimal(n).drop_last() =~= Seq::<char>::empty());
        lemma_digit_char_value(n);
        assert(digits_value(decimal(n).drop_last()) == 0);
        assert(digits_value(decimal(n)) == n);
    }
    let d = decimal(n);
    assert(d[0] != '+') by {
        assert(is_digit(d[0]));
    }
    assert(unsigned_part(d) == d);
}

/// `n` written in decimal.
pub fn decimal_string(n: usize) -> (s: String)
    ensures
        s@ == decimal(n as nat),
        parse_usize(s@) == Some(n),
    decreases n,
{
    proof {
        lemma_decimal_parses_back(n as nat);
        assert((n as nat) as usize == n);
    }
    if n < 10 {
        owned(digit_str(n))
    } else {
        let mut s = decimal_string(n / 10);
        s.append(digit_str(n % 10));
        s
    }
}

/// `c` is a decimal digit.
pub open spec fn is_digit(c: char) -> bool {
    '0' <= c && c <= '9'
}

/// The value of a string of decimal digits.
pub open spec fn digits_value(s: Seq<char>) -> nat
    decreases s.len(),
{
    if s.len() == 0 {
        0
    } else {
        digits_value(s.drop_last()) * 10 + ((s.last() as nat) - 48) as nat
    }
}

/// `s` without one leading `+`.
pub open spec fn unsigned_part(s: Seq<char>) -> Seq<char> {
    if s.len() > 0 && s[0] == '+' {
        s.drop_first()
    } else {
        s
    }
}

/// Every character of `d` is a decimal digit.
pub open spec fn all_digits(d: Seq<char>) -> bool {
    forall|i: int| 0 <= i < d.len() ==> is_digit(#[trigger] d[i])
}

/// What `str::parse::<usize>` gives: the value of a non-empty string of
/// decimal digits, optionally after one `+`, when it fits in a `usize`.
pub open spec fn parse_usize(s: Seq<char>) -> Option<usize> {
    let d = unsigned_part(s);
    if d.len() > 0 && all_digits(d) && digits_value(d) <= usize::MAX {
        Some(digits_value(d) as usize)
    } else {
        None
    }
}

proof fn lemma_digits_value_grows(s: Seq<char>, k: int)
    requires
        0 <= k <= s.len(),
        forall|i: int| 0 <= i < s.len() ==> is_digit(#[trigger] s[i]),
    ensures
        digits_value(s.take(k)) <= digits_value(s),
    decreases s.len() - k,
{
    if k < s.len() {
        lemma_digits_value_grows(s.drop_last(), k);
        assert(s.drop_last().take(k) =~= s.take(k));
        assert(is_digit(s.last()));
    } else {
        assert(s.take(k) =~= s);
    }
}

/// Parse a decimal number the way `str::parse::<usize>` does.
pub fn parse_decimal(s: &str) -> (r: Option<usize>)
    ensures
        r == parse_usize(s@),
{
    let x = chars_of(s);
    let start: usize = if x.len() > 0 && x[0] == '+' { 1 } else { 0 };
    let ghost d = unsigned_part(s@);
    assert(d =~= s@.skip(start as int));
    if start >= x.len() {
        return None;
    }
    let mut v: usize = 0;
    let mut i: usize = start;
    while i < x.len()
        invariant
            x@ == s@,
            d == s@.skip(start as int),
            d == unsigned_part(s@),
            start <= i <= x.len(),
            forall|j: int| 0 <= j < i - start ==> is_digit(#[trigger] d[j]),
            v == digits_value(d.take(i - start)),
        decreases x.len() - i,
    {
        let c = x[i];
        if !('0' <= c && c <= '9') {
            assert(!is_digit(d[i - start]));
            assert(!all_digits(d));
            assert(parse_usize(s@) is None);
            return None;
        }
        let dv = (c as u32 - 48) as usize;
        assert(d.take(i + 1 - start).drop_last() =~= d.take(i - start));
        assert(d.take(i + 1 - start).last() == c);
        if v > (usize::MAX - dv) / 10 {
            proof {
                assert(digits_value(d.take(i + 1 - start)) == v * 10 + dv);
                assert(v * 10 + dv > usize::MAX) by (nonlinear_arith)
                    requires
                        v > (usize::MAX - dv) / 10,
                        dv <= 9,
                ;
                if all_digits(d) {
                    lemma_digits_value_grows(d, i + 1 - start);
                    assert(digits_value(d) > usize::MAX);
                }
                assert(parse_usize(s@) is None);
            }
            return None;
        }
        assert(v * 10 + dv <= usize::MAX) by (nonlinear_arith)
            requires
                v <= (usize::MAX - dv) / 10,
                dv <= 9,
        ;
        v = v * 10 + dv;
        i = i + 1;
    }
    assert(d.take(i - start) =~= d);
    Some(v)
}

/// `line` without one trailing carriage return.
pub open spec fn strip_cr(line: Seq<char>) -> Seq<char> {
    if line.len() > 0 && line.last() == '\r' {
        line.drop_last()
    } else {
        line
    }
}

/// The number of non-empty lines of `t`, where lines end at `\n` (a `\r`
/// right before it belongs to the line ending) and a final line needs no
/// line ending.
pub open spec fn nonempty_lines(t: Seq<char>) -> nat
    decreases t.len(),
{
    if t.len() == 0 {
        0
    } else if t.contains('\n') {
        proof {
            text::lemma_first_index(t, '\n');
        }
        (if strip_cr(text::before_first(t, '\n')).len() > 0 {
            1nat
        } else {
            0nat
        }) + nonempty_lines(text::after_first(t, '\n'))
    } else {
        1
    }
}

/// Count the non-empty lines of `t` (see [`nonempty_lines`]).
pub fn count_nonempty_lines(t: &str) -> (n: usize)
    ensures
        n == nonempty_lines(t@),
{
    let total = char_len(t);
    let mut rest: &str = t;
    let mut count: usize = 0;
    while char_len(rest) > 0
        invariant
            total == t@.len(),
            count + nonempty_lines(rest@) == nonempty_lines(t@),
            count + rest@.len() <= t@.len(),
        decreases rest@.len(),
    {
        match split_once_char(rest, '\n') {
            Some((line, after)) => {
                proof {
                    text::lemma_first_index(rest@, '\n');
                }
                let k = char_len(line);
                let nonempty = if k > 0 && text::ends_with(line, "\r") {
                    proof {
                        reveal_strlit("\r");
                        assert(line@.skip(line@.len() - 1)[0] == line@.last());
                    }
                    k > 1
                } else {
                    proof {
                        reveal_strlit("\r");
                        if k > 0 && line@.last() == '\r' {
                            assert(line@.skip(line@.len() - 1) =~= "\r"@);
                        }
                    }
                    k > 0
                };
                assert(nonempty == (strip_cr(line@).len() > 0));
                if nonempty {
                    count = count + 1;
                }
                rest = after;
            },
            None => {
                count = count + 1;
                rest = "";
                proof {
                    reveal_strlit("");
                }
            },
        }
    }
    count
}

/// The revision (or branch) a successful git query printed: its output
/// without surrounding white space; nothing when the query failed.
pub fn rev_from_output(success: bool, stdout: &str) -> (r: Option<String>)
    ensures
        match r {
            Some(v) => success && v@ == trim_white(stdout@),
            None => !success,
        },
{
    if success {
        Some(owned(trim(stdout)))
    } else {
        None
    }
}

/// The commits ahead of and behind the upstream, read from the output of
/// `git rev-list --left-right --count HEAD...@{u}`: two tab-separated numbers
/// (a number that does not parse counts as 0); (0, 0) when the command failed
/// or printed anything else.
pub open spec fn ahead_behind_of(success: bool, stdout: Seq<char>) -> (usize, usize) {
    let t = trim_white(stdout);
    let left = text::before_first(t, '\t');
    let right = text::after_first(t, '\t');
    if success && t.contains('\t') && !right.contains('\t') {
        (
            match parse_usize(left) {
                Some(v) => v,
                None => 0,
            },
            match parse_usize(right) {
                Some(v) => v,
                None => 0,
            },
        )
    } else {
        (0, 0)
    }
}

/// Read the ahead/behind counts (see [`ahead_behind_of`]).
pub fn ahead_behind_from(success: bool, stdout: &str) -> (r: (usize, usize))
    ensures
        r == ahead_behind_of(success, stdout@),
{
    if !success {
        return (0, 0);
    }
    let t = trim(stdout);
    match split_once_char(t, '\t') {
        Some((left, right)) => {
            if text::contains_char(right, '\t') {
                (0, 0)
            } else {
                let a = match parse_decimal(left) {
                    Some(v) => v,
                    None => 0,
                };
                let b = match parse_decimal(right) {
                    Some(v) => v,
                    None => 0,
                };
                (a, b)
            }
        },
        None => (0, 0),
    }
}


/// `a`, a tab, `b`: the first tab is right after `a` when `a` has none.
proof fn lemma_split_at_tab(a: Seq<char>, b: Seq<char>)
    requires
        !a.contains('\t'),
    ensures
        (a + "\t"@ + b).contains('\t'),
        text::before_first(a + "\t"@ + b, '\t') == a,
        text::after_first(a + "\t"@ + b, '\t') == b,
{
    reveal_strlit("\t");
    let s = a + "\t"@ + b;
    assert(s[a.len() as int] == '\t');
    assert forall|j: int| 0 <= j < a.len() implies s[j] != '\t' by {
        assert(s[j] == a[j]);
    }
    text::lemma_is_first_unique(s, '\t', a.len() as int);
    assert(s.take(a.len() as int) =~= a);
    assert(s.skip(a.len() + 1int) =~= b);
}

/// What `git rev-list --left-right --count` prints, two numbers separated by
/// a tab and ended by a newline, reads back as those two numbers.
pub proof fn lemma_ahead_behind_reads_counts(a: usize, b: usize)
    ensures
        ahead_behind_of(true, decimal(a as nat) + "\t"@ + decimal(b as nat) + "\n"@) == (a, b),
{
    reveal_strlit("\t");
    reveal_strlit("\n");
    let da = decimal(a as nat);
    let db = decimal(b as nat);
    lemma_decimal_parses_back(a as nat);
    lemma_decimal_parses_back(b as nat);
    assert((a as nat) as usize == a);
    assert((b as nat) as usize == b);
    let core = da + "\t"@ + db;
    let x = core + "\n"@;
    assert(is_digit(da[0]) && is_digit(db[db.len() - 1]));
    assert(!white_space(x[0])) by {
        assert(x[0] == da[0]);
    }
    lemma_trim_white_start(x, 0);
    assert(x.skip(0) =~= x);
    assert(x[x.len() - 1] == '\n');
    assert(!white_space(x[x.len() - 2])) by {
        assert(x[x.len() - 2] == db[db.len() - 1]);
    }
    lemma_trim_white_end(x, x.len() - 1);
    assert(x.take(x.len() - 1) =~= core);
    assert(trim_white(x) == core);
    assert(!da.contains('\t')) by {
        assert forall|i: int| 0 <= i < da.len() implies da[i] != '\t' by {
            assert(is_digit(da[i]));
        }
    }
    assert(!db.contains('\t')) by {
        assert forall|i: int| 0 <= i < db.len() implies db[i] != '\t' by {
            assert(is_digit(db[i]));
        }
    }
    lemma_split_at_tab(da, db);
}

/// A revision printed on a line of its own (git ends it with a newline)
/// reads back as that revision: trimming removes only the surrounding white
/// space.
pub proof fn lemma_trim_line(h: Seq<char>, tail: Seq<char>)
    requires
        h.len() > 0,
        !white_space(h[0]),
        !white_space(h[h.len() - 1]),
        forall|i: int| 0 <= i < tail.len() ==> white_space(#[trigger] tail[i]),
    ensures
        trim_white(h + tail) == h,
        trim_white(h) == h,
{
    let x = h + tail;
    assert(x[0] == h[0]);
    lemma_trim_white_start(x, 0);
    assert(x.skip(0) =~= x);
    assert forall|j: int| h.len() <= j < x.len() implies white_space(x[j]) by {
        assert(x[j] == tail[j - h.len()]);
    }
    assert(x[h.len() - 1] == h[h.len() - 1]);
    lemma_trim_white_end(x, h.len() as int);
    assert(x.take(h.len() as int) =~= h);
    lemma_trim_white_start(h, 0);
    assert(h.skip(0) =~= h);
    lemma_trim_white_end(h, h.len() as int);
    assert(h.take(h.len() as int) =~= h);
}

/// Each line of text before a newline adds one to the count of non-empty
/// lines when it holds anything besides a carriage return, and nothing when
/// it is empty.
pub proof fn lemma_nonempty_lines_step(line: Seq<char>, rest: Seq<char>)
    requires
        !line.contains('\n'),
    ensures
        nonempty_lines(line + "\n"@ + rest) == (if strip_cr(line).len() > 0 {
            1nat
        } else {
            0nat
        }) + nonempty_lines(rest),
{
    reveal_strlit("\n");
    let s = line + "\n"@ + rest;
    assert(s[line.len() as int] == '\n');
    assert forall|j: int| 0 <= j < line.len() implies s[j] != '\n' by {
        assert(s[j] == line[j]);
    }
    text::lemma_is_first_unique(s, '\n', line.len() as int);
    assert(s.take(line.len() as int) =~= line);
    assert(s.skip(line.len() + 1int) =~= rest);
}

/// Text made of white space alone trims to nothing.
pub proof fn lemma_trim_all_white(t: Seq<char>)
    requires
        forall|i: int| 0 <= i < t.len() ==> white_space(#[trigger] t[i]),
    ensures
        trim_white(t).len() == 0,
{
    lemma_trim_white_start(t, t.len() as int);
    assert(t.skip(t.len() as int) =~= Seq::<char>::empty());
}

} // verus!

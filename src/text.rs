//! Character-level building blocks shared by the envelope and header grammars:
//! splitting into lines, whitespace trimming, searching, decimal numbers.
use vstd::prelude::*;

verus! {

/// Whitespace inside a line: space, tab and carriage return.
pub open spec fn is_ws(c: char) -> bool {
    c == ' ' || c == '\t' || c == '\r'
}

/// A line made of whitespace only (the empty line included).
pub open spec fn is_blank(l: Seq<char>) -> bool {
    forall|i: int| 0 <= i < l.len() ==> is_ws(#[trigger] l[i])
}

/// The lines of `t`, split at each `'\n'`; a text always has at least one line.
pub open spec fn lines_of(t: Seq<char>) -> Seq<Seq<char>>
    decreases t.len(),
{
    if t.len() == 0 {
        seq![Seq::<char>::empty()]
    } else {
        let p = lines_of(t.drop_last());
        if t.last() == '\n' {
            p.push(Seq::<char>::empty())
        } else {
            p.update(p.len() - 1, p.last().push(t.last()))
        }
    }
}

/// Character offset at which line `k` of `ls` starts in the text that was split.
pub open spec fn line_offset(ls: Seq<Seq<char>>, k: int) -> int
    decreases k,
{
    if k <= 0 {
        0
    } else {
        line_offset(ls, k - 1) + ls[k - 1].len() + 1
    }
}

/// Lines joined back with `'\n'` between them.
pub open spec fn join_lines(ls: Seq<Seq<char>>) -> Seq<char>
    decreases ls.len(),
{
    if ls.len() == 0 {
        Seq::empty()
    } else if ls.len() == 1 {
        ls[0]
    } else {
        join_lines(ls.drop_last()).push('\n') + ls.last()
    }
}

pub open spec fn has_no_newline(s: Seq<char>) -> bool {
    forall|i: int| 0 <= i < s.len() ==> #[trigger] s[i] != '\n'
}

pub open spec fn trim_start(s: Seq<char>) -> Seq<char>
    decreases s.len(),
{
    if s.len() > 0 && is_ws(s[0]) {
        trim_start(s.drop_first())
    } else {
        s
    }
}

pub open spec fn trim_end(s: Seq<char>) -> Seq<char>
    decreases s.len(),
{
    if s.len() > 0 && is_ws(s.last()) {
        trim_end(s.drop_last())
    } else {
        s
    }
}

pub open spec fn trim(s: Seq<char>) -> Seq<char> {
    trim_end(trim_start(s))
}

pub open spec fn starts_with(s: Seq<char>, p: Seq<char>) -> bool {
    p.len() <= s.len() && s.take(p.len() as int) == p
}

pub open spec fn ends_with(s: Seq<char>, p: Seq<char>) -> bool {
    p.len() <= s.len() && s.skip(s.len() - p.len()) == p
}

/// Index of the first `c` in `s`, or -1.
pub open spec fn find_char(s: Seq<char>, c: char) -> int
    decreases s.len(),
{
    if s.len() == 0 {
        -1
    } else if s[0] == c {
        0
    } else {
        let r = find_char(s.drop_first(), c);
        if r < 0 {
            -1
        } else {
            r + 1
        }
    }
}

/// Index of the first line at or after `from` that satisfies `p`, or `ls.len()`.
pub open spec fn first_from(ls: Seq<Seq<char>>, from: int, p: spec_fn(Seq<char>) -> bool) -> int
    decreases ls.len() - from,
{
    if from < 0 || from >= ls.len() {
        ls.len() as int
    } else if p(ls[from]) {
        from
    } else {
        first_from(ls, from + 1, p)
    }
}

pub open spec fn is_digit(c: char) -> bool {
    '0' <= c <= '9'
}

pub open spec fn digit_value(c: char) -> nat {
    (c as u32 - '0' as u32) as nat
}

pub open spec fn digit_char(d: nat) -> char {
    (('0' as u32) + d) as char
}

/// The number that a run of decimal digits spells.
pub open spec fn digits_value(s: Seq<char>) -> nat
    decreases s.len(),
{
    if s.len() == 0 {
        0
    } else {
        digits_value(s.drop_last()) * 10 + digit_value(s.last())
    }
}

pub open spec fn all_digits(s: Seq<char>) -> bool {
    forall|i: int| 0 <= i < s.len() ==> is_digit(#[trigger] s[i])
}

/// A `u32` written in decimal: one or more digits whose value fits.
pub open spec fn decimal_u32(s: Seq<char>) -> Option<u32> {
    if s.len() > 0 && all_digits(s) && digits_value(s) <= u32::MAX {
        Some(digits_value(s) as u32)
    } else {
        None
    }
}

/// The shortest decimal spelling of `n`.
pub open spec fn decimal(n: nat) -> Seq<char>
    decreases n,
{
    if n < 10 {
        seq![digit_char(n)]
    } else {
        decimal(n / 10).push(digit_char(n % 10))
    }
}


pub open spec fn views(v: Seq<Vec<char>>) -> Seq<Seq<char>> {
    v.map_values(|l: Vec<char>| l@)
}

pub proof fn lemma_lines_nonempty(t: Seq<char>)
    ensures
        lines_of(t).len() >= 1,
    decreases t.len(),
{
    if t.len() > 0 {
        lemma_lines_nonempty(t.drop_last());
    }
}

proof fn lemma_line_offset_prefix(a: Seq<Seq<char>>, b: Seq<Seq<char>>, k: int)
    requires
        0 <= k <= a.len(),
        k <= b.len(),
        forall|j: int| 0 <= j < k ==> a[j] == b[j],
    ensures
        line_offset(a, k) == line_offset(b, k),
    decreases k,
{
    if k > 0 {
        lemma_line_offset_prefix(a, b, k - 1);
    }
}

pub proof fn lemma_trim_start_at(s: Seq<char>, a: int)
    requires
        0 <= a <= s.len(),
        forall|j: int| 0 <= j < a ==> is_ws(#[trigger] s[j]),
        a == s.len() || !is_ws(s[a]),
    ensures
        trim_start(s) == s.skip(a),
    decreases a,
{
    if a > 0 {
        assert(is_ws(s[0]));
        let t = s.drop_first();
        assert forall|j: int| 0 <= j < a - 1 implies is_ws(#[trigger] t[j]) by {
            assert(t[j] == s[j + 1]);
        }
        if a - 1 < t.len() {
            assert(t[a - 1] == s[a]);
        }
        lemma_trim_start_at(t, a - 1);
        assert(t.skip(a - 1) =~= s.skip(a));
    } else {
        assert(s.skip(0) =~= s);
    }
}

pub proof fn lemma_trim_end_at(s: Seq<char>, b: int)
    requires
        0 <= b <= s.len(),
        forall|j: int| b <= j < s.len() ==> is_ws(#[trigger] s[j]),
        b == 0 || !is_ws(s[b - 1]),
    ensures
        trim_end(s) == s.take(b),
    decreases s.len() - b,
{
    if b < s.len() {
        assert(is_ws(s.last()));
        let t = s.drop_last();
        assert forall|j: int| b <= j < t.len() implies is_ws(#[trigger] t[j]) by {
            assert(t[j] == s[j]);
        }
        if b > 0 {
            assert(t[b - 1] == s[b - 1]);
        }
        lemma_trim_end_at(t, b);
        assert(t.take(b) =~= s.take(b));
    } else {
        assert(s.take(b) =~= s);
    }
}

pub proof fn lemma_find_char_at(s: Seq<char>, c: char, i: int)
    requires
        0 <= i <= s.len(),
        forall|j: int| 0 <= j < i ==> #[trigger] s[j] != c,
        i == s.len() || s[i] == c,
    ensures
        find_char(s, c) == (if i == s.len() { -1 } else { i }),
    decreases i,
{
    if i > 0 {
        let t = s.drop_first();
        assert forall|j: int| 0 <= j < i - 1 implies #[trigger] t[j] != c by {
            assert(t[j] == s[j + 1]);
        }
        if i < s.len() {
            assert(t[i - 1] == s[i]);
        }
        lemma_find_char_at(t, c, i - 1);
    }
}

/// A copy of `s[a..b]`.
pub fn copy_range(s: &Vec<char>, a: usize, b: usize) -> (r: Vec<char>)
    requires
        a <= b <= s.len(),
    ensures
        r@ == s@.subrange(a as int, b as int),
{
    let mut r: Vec<char> = Vec::new();
    let mut i: usize = a;
    while i < b
        invariant
            a <= i <= b <= s.len(),
            r@ == s@.subrange(a as int, i as int),
        decreases b - i,
    {
        r.push(s[i]);
        i = i + 1;
        assert(r@ =~= s@.subrange(a as int, i as int));
    }
    r
}

/// Appends `s[a..b]` to `out`.
pub fn push_range(out: &mut Vec<char>, s: &Vec<char>, a: usize, b: usize)
    requires
        a <= b <= s.len(),
    ensures
        final(out)@ == old(out)@ + s@.subrange(a as int, b as int),
{
    let mut i: usize = a;
    while i < b
        invariant
            a <= i <= b <= s.len(),
            out@ == old(out)@ + s@.subrange(a as int, i as int),
        decreases b - i,
    {
        out.push(s[i]);
        i = i + 1;
        assert(out@ =~= old(out)@ + s@.subrange(a as int, i as int));
    }
}

/// Appends the characters of `lit` to `out`.
pub fn push_str(out: &mut Vec<char>, lit: &str)
    ensures
        final(out)@ == old(out)@ + lit@,
{
    let n = lit.unicode_len();
    let mut i: usize = 0;
    while i < n
        invariant
            n == lit@.len(),
            i <= n,
            out@ == old(out)@ + lit@.take(i as int),
        decreases n - i,
    {
        out.push(lit.get_char(i));
        i = i + 1;
        assert(out@ =~= old(out)@ + lit@.take(i as int));
    }
    assert(lit@.take(n as int) =~= lit@);
}

/// Whether `s[at..]` begins with the characters of `lit`.
pub fn has_str_at(s: &Vec<char>, at: usize, lit: &str) -> (r: bool)
    requires
        at <= s.len(),
    ensures
        r == starts_with(s@.skip(at as int), lit@),
{
    let n = lit.unicode_len();
    if n > s.len() - at {
        return false;
    }
    let mut i: usize = 0;
    while i < n
        invariant
            n == lit@.len(),
            at + n <= s.len(),
            i <= n,
            s@.skip(at as int).take(i as int) == lit@.take(i as int),
        decreases n - i,
    {
        if s[at + i] != lit.get_char(i) {
            assert(s@.skip(at as int).take(n as int)[i as int] != lit@[i as int]);
            return false;
        }
        i = i + 1;
        assert(s@.skip(at as int).take(i as int) =~= lit@.take(i as int));
    }
    assert(lit@.take(n as int) =~= lit@);
    true
}

/// Whether `s` is exactly the characters of `lit`.
pub fn equals_str(s: &Vec<char>, lit: &str) -> (r: bool)
    ensures
        r == (s@ == lit@),
{
    let b = has_str_at(s, 0, lit);
    assert(s@.skip(0) =~= s@);
    if b && lit.unicode_len() == s.len() {
        assert(s@.take(s@.len() as int) =~= s@);
        true
    } else {
        false
    }
}

/// Whether `s` ends with the characters of `lit`.
pub fn ends_with_str(s: &Vec<char>, lit: &str) -> (r: bool)
    ensures
        r == ends_with(s@, lit@),
{
    let n = lit.unicode_len();
    if n > s.len() {
        return false;
    }
    let b = has_str_at(s, s.len() - n, lit);
    assert(s@.skip(s.len() - n).take(n as int) =~= s@.skip(s.len() - n));
    b
}

pub fn is_ws_char(c: char) -> (r: bool)
    ensures
        r == is_ws(c),
{
    c == ' ' || c == '\t' || c == '\r'
}

pub fn is_blank_line(l: &Vec<char>) -> (r: bool)
    ensures
        r == is_blank(l@),
{
    let mut i: usize = 0;
    while i < l.len()
        invariant
            i <= l.len(),
            forall|j: int| 0 <= j < i ==> is_ws(#[trigger] l@[j]),
        decreases l.len() - i,
    {
        if !is_ws_char(l[i]) {
            return false;
        }
        i = i + 1;
    }
    true
}

/// Index of the first `c` in `s`, if any.
pub fn find_char_in(s: &Vec<char>, c: char) -> (r: Option<usize>)
    ensures
        match r {
            Some(i) => find_char(s@, c) == i as int && i < s.len(),
            None => find_char(s@, c) == -1,
        },
{
    let mut i: usize = 0;
    while i < s.len()
        invariant
            i <= s.len(),
            forall|j: int| 0 <= j < i ==> #[trigger] s@[j] != c,
        decreases s.len() - i,
    {
        if s[i] == c {
            proof {
                lemma_find_char_at(s@, c, i as int);
            }
            return Some(i);
        }
        i = i + 1;
    }
    proof {
        lemma_find_char_at(s@, c, i as int);
    }
    None
}

/// Index of the first character of `s` that is not whitespace (`s.len()` if none).
pub fn skip_ws(s: &Vec<char>) -> (a: usize)
    ensures
        a <= s.len(),
        trim_start(s@) == s@.skip(a as int),
{
    let mut a: usize = 0;
    while a < s.len() && is_ws_char(s[a])
        invariant
            a <= s.len(),
            forall|j: int| 0 <= j < a ==> is_ws(#[trigger] s@[j]),
        decreases s.len() - a,
    {
        a = a + 1;
    }
    proof {
        lemma_trim_start_at(s@, a as int);
    }
    a
}

/// Length of `s` once its trailing whitespace is dropped.
pub fn trimmed_end_len(s: &Vec<char>) -> (b: usize)
    ensures
        b <= s.len(),
        trim_end(s@) == s@.take(b as int),
{
    let mut b: usize = s.len();
    while b > 0 && is_ws_char(s[b - 1])
        invariant
            b <= s.len(),
            forall|j: int| b <= j < s.len() ==> is_ws(#[trigger] s@[j]),
        decreases b,
    {
        b = b - 1;
    }
    proof {
        lemma_trim_end_at(s@, b as int);
    }
    b
}

pub fn trim_end_of(s: &Vec<char>) -> (r: Vec<char>)
    ensures
        r@ == trim_end(s@),
{
    let b = trimmed_end_len(s);
    let r = copy_range(s, 0, b);
    assert(r@ =~= s@.take(b as int));
    r
}

pub fn trim_of(s: &Vec<char>) -> (r: Vec<char>)
    ensures
        r@ == trim(s@),
{
    let a = skip_ws(s);
    let t = copy_range(s, a, s.len());
    assert(t@ =~= s@.skip(a as int));
    trim_end_of(&t)
}

/// Splits `t` into its lines, with the offset at which each starts.
pub fn split_lines(t: &Vec<char>) -> (r: (Vec<Vec<char>>, Vec<usize>))
    ensures
        views(r.0@) == lines_of(t@),
        r.1.len() == r.0.len(),
        forall|k: int| 0 <= k < r.1.len() ==> r.1@[k] == line_offset(lines_of(t@), k),
        forall|k: int| 0 <= k < r.1.len() ==> r.1@[k] + r.0@[k].len() <= t.len(),
{
    let mut lines: Vec<Vec<char>> = Vec::new();
    let mut starts: Vec<usize> = Vec::new();
    let mut cur: Vec<char> = Vec::new();
    let mut i: usize = 0;
    starts.push(0);
    assert(t@.take(0) =~= Seq::<char>::empty());
    assert(views(lines@).push(cur@) =~= lines_of(t@.take(0)));
    while i < t.len()
        invariant
            i <= t.len(),
            lines_of(t@.take(i as int)) == views(lines@).push(cur@),
            starts.len() == lines.len() + 1,
            forall|k: int|
                0 <= k < starts.len() ==> starts@[k] == line_offset(
                    lines_of(t@.take(i as int)),
                    k,
                ),
            starts@[lines.len() as int] + cur.len() == i,
            forall|k: int| 0 <= k < lines.len() ==> starts@[k] + lines@[k].len() < i,
        decreases t.len() - i,
    {
        let ghost before = lines_of(t@.take(i as int));
        let c = t[i];
        assert(t@.take(i + 1).drop_last() =~= t@.take(i as int));
        if c == '\n' {
            let ghost old_lines = lines@;
            lines.push(cur);
            cur = Vec::new();
            starts.push(i + 1);
            proof {
                let after = lines_of(t@.take(i + 1));
                assert(after == before.push(Seq::<char>::empty()));
                assert(views(lines@) =~= views(old_lines).push(before.last()));
                assert(after =~= views(lines@).push(cur@));
                assert forall|k: int| 0 <= k < starts.len() implies starts@[k] == line_offset(
                    after,
                    k,
                ) by {
                    if k < starts.len() - 1 {
                        lemma_line_offset_prefix(before, after, k);
                    } else {
                        assert(line_offset(after, k) == line_offset(after, k - 1) + after[k
                            - 1].len() + 1);
                        lemma_line_offset_prefix(before, after, k - 1);
                    }
                }
            }
        } else {
            cur.push(c);
            proof {
                let after = lines_of(t@.take(i + 1));
                assert(after =~= views(lines@).push(cur@));
                assert forall|k: int| 0 <= k < starts.len() implies starts@[k] == line_offset(
                    after,
                    k,
                ) by {
                    lemma_line_offset_prefix(before, after, k);
                }
            }
        }
        i = i + 1;
    }
    lines.push(cur);
    assert(t@.take(t.len() as int) =~= t@);
    assert(views(lines@) =~= lines_of(t@));
    (lines, starts)
}

/// Reads a `u32` written in decimal.
pub fn parse_u32(s: &Vec<char>) -> (r: Option<u32>)
    ensures
        r == decimal_u32(s@),
{
    if s.len() == 0 {
        return None;
    }
    let mut acc: u64 = 0;
    let mut i: usize = 0;
    while i < s.len()
        invariant
            i <= s.len(),
            all_digits(s@.take(i as int)),
            acc == digits_value(s@.take(i as int)),
            acc <= u32::MAX,
        decreases s.len() - i,
    {
        let c = s[i];
        if !('0' <= c && c <= '9') {
            assert(!all_digits(s@));
            return None;
        }
        let d = (c as u32 - '0' as u32) as u64;
        assert(s@.take(i + 1).drop_last() =~= s@.take(i as int));
        let next = acc * 10 + d;
        if next > u32::MAX as u64 {
            proof {
                if all_digits(s@) {
                    lemma_digits_value_grows(s@, i + 1, s@.len() as int);
                    assert(s@.take(s@.len() as int) =~= s@);
                }
            }
            return None;
        }
        acc = next;
        i = i + 1;
    }
    assert(s@.take(s@.len() as int) =~= s@);
    Some(acc as u32)
}

/// Over a run of digits, a longer prefix never spells a smaller number.
proof fn lemma_digits_value_grows(s: Seq<char>, i: int, j: int)
    requires
        0 <= i <= j <= s.len(),
        forall|k: int| 0 <= k < j ==> is_digit(#[trigger] s[k]),
    ensures
        digits_value(s.take(i)) <= digits_value(s.take(j)),
    decreases j - i,
{
    if i < j {
        lemma_digits_value_grows(s, i, j - 1);
        assert(s.take(j).drop_last() =~= s.take(j - 1));
    }
}

/// Appends the decimal spelling of `n` to `out`.
pub fn push_decimal(out: &mut Vec<char>, n: u32)
    ensures
        final(out)@ == old(out)@ + decimal(n as nat),
    decreases n,
{
    if n >= 10 {
        push_decimal(out, n / 10);
    }
    let d = n % 10;
    let c = char_of_digit(d);
    out.push(c);
    proof {
        if n >= 10 {
            assert(decimal(n as nat) == decimal((n / 10) as nat).push(digit_char((n % 10) as nat)));
        }
    }
    assert(final(out)@ =~= old(out)@ + decimal(n as nat)) by {
        if n < 10 {
            assert(decimal(n as nat) =~= seq![digit_char(n as nat)]);
        }
    }
}

fn char_of_digit(d: u32) -> (c: char)
    requires
        d < 10,
    ensures
        c == digit_char(d as nat),
{
    if d == 0 { '0' }
    else if d == 1 { '1' }
    else if d == 2 { '2' }
    else if d == 3 { '3' }
    else if d == 4 { '4' }
    else if d == 5 { '5' }
    else if d == 6 { '6' }
    else if d == 7 { '7' }
    else if d == 8 { '8' }
    else { '9' }
}

/// The decimal spelling of a number is read back as that number.
pub proof fn lemma_decimal_round_trip(n: u32)
    ensures
        decimal_u32(decimal(n as nat)) == Some(n),
        decimal(n as nat).len() > 0,
        all_digits(decimal(n as nat)),
{
    lemma_decimal_digits(n as nat);
}

proof fn lemma_digit_char(d: nat)
    requires
        d < 10,
    ensures
        is_digit(digit_char(d)),
        digit_value(digit_char(d)) == d,
{
    assert((digit_char(d) as u32) == '0' as u32 + d);
}

proof fn lemma_decimal_digits(n: nat)
    ensures
        decimal(n).len() > 0,
        all_digits(decimal(n)),
        digits_value(decimal(n)) == n,
    decreases n,
{
    lemma_digit_char(n % 10);
    if n < 10 {
        let s = decimal(n);
        assert(s.drop_last() =~= Seq::<char>::empty());
        assert(s.last() == digit_char(n));
        assert(digits_value(s) == digits_value(s.drop_last()) * 10 + digit_value(s.last()));
    } else {
        lemma_decimal_digits(n / 10);
        let s = decimal(n);
        assert(s.drop_last() =~= decimal(n / 10));
        assert(s.last() == digit_char(n % 10));
        assert(digits_value(s) == digits_value(decimal(n / 10)) * 10 + digit_value(s.last()));
        assert((n / 10) * 10 + n % 10 == n) by (nonlinear_arith);
        assert forall|i: int| 0 <= i < s.len() implies is_digit(#[trigger] s[i]) by {
            if i < s.len() - 1 {
                assert(s[i] == decimal(n / 10)[i]);
            }
        }
    }
}

pub open spec fn blank_pred() -> spec_fn(Seq<char>) -> bool {
    |l: Seq<char>| is_blank(l)
}

/// Index of the first blank line at or after `from` (`ls.len()` if none).
pub fn first_blank(ls: &Vec<Vec<char>>, from: usize) -> (r: usize)
    requires
        from <= ls.len(),
    ensures
        from <= r <= ls.len(),
        r == first_from(views(ls@), from as int, blank_pred()),
        r < ls.len() ==> is_blank(ls@[r as int]@),
{
    let mut i: usize = from;
    while i < ls.len() && !is_blank_line(&ls[i])
        invariant
            from <= i <= ls.len(),
            first_from(views(ls@), from as int, blank_pred()) == first_from(
                views(ls@),
                i as int,
                blank_pred(),
            ),
        decreases ls.len() - i,
    {
        i = i + 1;
    }
    i
}

/// The characters of `s`.
pub fn chars_of(s: &str) -> (r: Vec<char>)
    ensures
        r@ == s@,
        utf8_len(s@) <= usize::MAX,
{
    let bytes = s.as_bytes();
    let n = bytes.len();
    assert(n == utf8_len(s@));
    let mut v: Vec<char> = Vec::new();
    for c in it: s.chars()
        invariant
            v@ == it.seq().take(it.index() as int),
    {
        v.push(c);
    }
    v
}

/// Whether `a` and `b` hold the same characters.
pub fn same_chars(a: &Vec<char>, b: &Vec<char>) -> (r: bool)
    ensures
        r == (a@ == b@),
{
    if a.len() != b.len() {
        return false;
    }
    let mut i: usize = 0;
    while i < a.len()
        invariant
            i <= a.len() == b.len(),
            forall|j: int| 0 <= j < i ==> a@[j] == b@[j],
        decreases a.len() - i,
    {
        if a[i] != b[i] {
            return false;
        }
        i = i + 1;
    }
    assert(a@ =~= b@);
    true
}

/// The trimmed lines `lo..hi` of `ls`, run together.
pub open spec fn concat_trimmed(ls: Seq<Seq<char>>, lo: int, hi: int) -> Seq<char>
    decreases hi - lo,
{
    if hi <= lo {
        Seq::empty()
    } else {
        concat_trimmed(ls, lo, hi - 1) + trim(ls[hi - 1])
    }
}

pub fn concat_trimmed_lines(ls: &Vec<Vec<char>>, lo: usize, hi: usize) -> (r: Vec<char>)
    requires
        lo <= hi <= ls.len(),
    ensures
        r@ == concat_trimmed(views(ls@), lo as int, hi as int),
{
    let mut out: Vec<char> = Vec::new();
    let mut k: usize = lo;
    while k < hi
        invariant
            lo <= k <= hi <= ls.len(),
            out@ == concat_trimmed(views(ls@), lo as int, k as int),
        decreases hi - k,
    {
        let t = trim_of(&ls[k]);
        push_range(&mut out, &t, 0, t.len());
        assert(t@.subrange(0, t@.len() as int) =~= t@);
        k = k + 1;
    }
    out
}

proof fn lemma_lines_of_plain(y: Seq<char>)
    requires
        has_no_newline(y),
    ensures
        lines_of(y) == seq![y],
    decreases y.len(),
{
    if y.len() > 0 {
        let y0 = y.drop_last();
        assert(has_no_newline(y0)) by {
            assert forall|i: int| 0 <= i < y0.len() implies #[trigger] y0[i] != '\n' by {
                assert(y0[i] == y[i]);
            }
        }
        lemma_lines_of_plain(y0);
        assert(y0.push(y.last()) =~= y);
        assert(lines_of(y) =~= seq![y]);
    } else {
        assert(y =~= Seq::<char>::empty());
    }
}

proof fn lemma_lines_of_after_break(x: Seq<char>, y: Seq<char>)
    requires
        has_no_newline(y),
    ensures
        lines_of(x.push('\n') + y) == lines_of(x).push(y),
    decreases y.len(),
{
    let t = x.push('\n') + y;
    if y.len() == 0 {
        assert(t =~= x.push('\n'));
        assert(t.drop_last() =~= x);
        assert(y =~= Seq::<char>::empty());
    } else {
        let y0 = y.drop_last();
        assert(has_no_newline(y0)) by {
            assert forall|i: int| 0 <= i < y0.len() implies #[trigger] y0[i] != '\n' by {
                assert(y0[i] == y[i]);
            }
        }
        lemma_lines_of_after_break(x, y0);
        assert(t.drop_last() =~= x.push('\n') + y0);
        assert(t.last() == y.last());
        assert(y0.push(y.last()) =~= y);
        assert(lines_of(t) =~= lines_of(x).push(y));
    }
}

/// Splitting lines that were joined gives them back, when none holds a line break.
pub proof fn lemma_lines_of_join(ls: Seq<Seq<char>>)
    requires
        ls.len() > 0,
        forall|k: int| 0 <= k < ls.len() ==> has_no_newline(#[trigger] ls[k]),
    ensures
        lines_of(join_lines(ls)) == ls,
    decreases ls.len(),
{
    if ls.len() == 1 {
        lemma_lines_of_plain(ls[0]);
        assert(ls =~= seq![ls[0]]);
    } else {
        let init = ls.drop_last();
        assert forall|k: int| 0 <= k < init.len() implies has_no_newline(#[trigger] init[k]) by {
            assert(init[k] == ls[k]);
        }
        lemma_lines_of_join(init);
        assert(has_no_newline(ls[ls.len() - 1]));
        lemma_lines_of_after_break(join_lines(init), ls.last());
        assert(init.push(ls.last()) =~= ls);
    }
}

/// The first line at or after `from` that satisfies `p` is `at`.
pub proof fn lemma_first_from_at(
    ls: Seq<Seq<char>>,
    from: int,
    at: int,
    p: spec_fn(Seq<char>) -> bool,
)
    requires
        0 <= from <= at <= ls.len(),
        forall|k: int| from <= k < at ==> !p(#[trigger] ls[k]),
        at == ls.len() || p(ls[at]),
    ensures
        first_from(ls, from, p) == at,
    decreases at - from,
{
    if from < at {
        lemma_first_from_at(ls, from + 1, at, p);
    }
}

/// Trimming leaves alone a run without whitespace at either end.
pub proof fn lemma_trim_plain(s: Seq<char>)
    requires
        forall|i: int| 0 <= i < s.len() ==> !is_ws(#[trigger] s[i]),
    ensures
        trim(s) == s,
        trim_start(s) == s,
        trim_end(s) == s,
{
    lemma_trim_start_at(s, 0);
    assert(s.skip(0) =~= s);
    lemma_trim_end_at(s, s.len() as int);
    assert(s.take(s.len() as int) =~= s);
}

/// Lines that are all blank run together to nothing.
pub proof fn lemma_blank_lines_vanish(ls: Seq<Seq<char>>, lo: int, hi: int)
    requires
        0 <= lo,
        hi <= ls.len(),
        forall|k: int| lo <= k < hi ==> is_blank(#[trigger] ls[k]),
    ensures
        concat_trimmed(ls, lo, hi) == Seq::<char>::empty(),
    decreases hi - lo,
{
    if lo < hi {
        lemma_blank_lines_vanish(ls, lo, hi - 1);
        let l = ls[hi - 1];
        assert(is_blank(l));
        lemma_trim_start_at(l, l.len() as int);
        assert(l.skip(l.len() as int) =~= Seq::<char>::empty());
        assert(concat_trimmed(ls, lo, hi) =~= Seq::<char>::empty());
    }
}

/// The number of bytes of `s` in UTF-8.
pub open spec fn utf8_len(s: Seq<char>) -> nat {
    vstd::utf8::encode_utf8(s).len()
}

/// The byte offset, in the UTF-8 encoding of `t`, of character position `pos`.
pub open spec fn byte_offset(t: Seq<char>, pos: int) -> int {
    utf8_len(t.take(pos)) as int
}

proof fn lemma_encode_utf8_concat(a: Seq<char>, b: Seq<char>)
    ensures
        vstd::utf8::encode_utf8(a + b) == vstd::utf8::encode_utf8(a) + vstd::utf8::encode_utf8(b),
    decreases a.len(),
{
    if a.len() == 0 {
        assert(a + b =~= b);
        assert(vstd::utf8::encode_utf8(a) =~= Seq::<u8>::empty());
        assert(Seq::<u8>::empty() + vstd::utf8::encode_utf8(b) =~= vstd::utf8::encode_utf8(b));
    } else {
        lemma_encode_utf8_concat(a.drop_first(), b);
        assert((a + b).drop_first() =~= a.drop_first() + b);
        assert((a + b)[0] == a[0]);
        assert(vstd::utf8::encode_utf8(a + b) =~= vstd::utf8::encode_utf8(a) + vstd::utf8::encode_utf8(
            b,
        ));
    }
}

/// The number of bytes of `c` in UTF-8.
fn char_width(c: char) -> (w: usize)
    ensures
        w == vstd::utf8::encode_scalar(c as u32).len(),
{
    let u = c as u32;
    if u <= 0x7F {
        1
    } else if u <= 0x7FF {
        2
    } else if u <= 0xFFFF && !(0xD800 <= u && u <= 0xDFFF) {
        3
    } else {
        4
    }
}

/// The byte offset of character position `pos` in the UTF-8 encoding of `t`.
pub fn byte_offset_of(t: &Vec<char>, pos: usize) -> (r: usize)
    requires
        pos <= t.len(),
        utf8_len(t@) <= usize::MAX,
    ensures
        r == byte_offset(t@, pos as int),
{
    let mut acc: usize = 0;
    let mut i: usize = 0;
    assert(t@.take(0) =~= Seq::<char>::empty());
    while i < pos
        invariant
            i <= pos <= t.len(),
            utf8_len(t@) <= usize::MAX,
            acc == utf8_len(t@.take(i as int)),
        decreases pos - i,
    {
        let w = char_width(t[i]);
        proof {
            let c = t@[i as int];
            lemma_encode_utf8_concat(t@.take(i as int), seq![c]);
            assert(t@.take(i as int) + seq![c] =~= t@.take(i + 1));
            let one = seq![c];
            assert(one[0] == c);
            assert(one.drop_first() =~= Seq::<char>::empty());
            assert(vstd::utf8::encode_utf8(one.drop_first()) =~= Seq::<u8>::empty());
            assert(vstd::utf8::encode_utf8(one) == vstd::utf8::encode_scalar(c as u32)
                + vstd::utf8::encode_utf8(one.drop_first()));
            assert(vstd::utf8::encode_utf8(one) =~= vstd::utf8::encode_scalar(c as u32));
            lemma_encode_utf8_concat(t@.take(i + 1), t@.skip(i + 1));
            assert(t@.take(i + 1) + t@.skip(i + 1) =~= t@);
        }
        acc = acc + w;
        i = i + 1;
    }
    acc
}

} // verus!

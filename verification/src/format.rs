//! Reading size strings such as `500MB` or `1.5GB`, and writing byte counts for people.

use vstd::prelude::*;
use crate::error::FileSplitError;
use crate::strings;
use vstd::string::*;

verus! {

// ─── Plain unsigned integers ──────────────────────────────────────────────────

/// The digits of `t` after an optional leading `+`.
pub open spec fn unsigned_body(t: Seq<char>) -> Seq<char> {
    if t.len() > 0 && t[0] == '+' {
        t.drop_first()
    } else {
        t
    }
}

/// What `u64::from_str` gives for `t`: an optional `+` and at least one
/// digit, with a value that fits in 64 bits.
pub open spec fn plain_u64(t: Seq<char>) -> Option<u64> {
    let d = unsigned_body(t);
    if d.len() > 0 && strings::all_digits(d) && strings::digits_value(d) <= u64::MAX {
        Some(strings::digits_value(d) as u64)
    } else {
        None
    }
}

proof fn lemma_digits_value_take_step(s: Seq<char>, i: int)
    requires
        0 <= i < s.len(),
    ensures
        strings::digits_value(s.take(i + 1)) == strings::digits_value(s.take(i)) * 10 + strings::digit_value(s[i]),
{
    assert(s.take(i + 1).drop_last() =~= s.take(i));
}

/// A prefix of a string of digits is worth no more than the whole string.
proof fn lemma_digits_prefix_le(s: Seq<char>, i: int)
    requires
        strings::all_digits(s),
        0 <= i <= s.len(),
    ensures
        strings::digits_value(s.take(i)) <= strings::digits_value(s),
    decreases s.len() - i,
{
    if i == s.len() {
        assert(s.take(i) =~= s);
    } else {
        lemma_digits_value_take_step(s, i);
        lemma_digits_prefix_le(s, i + 1);
    }
}

/// The value of a digit character, computed.
fn digit_of(c: char) -> (d: u64)
    requires
        strings::is_digit(c),
    ensures
        d == strings::digit_value(c),
        d < 10,
{
    ((c as u32) - 48) as u64
}

/// Reads `t` as `u64::from_str` does.
pub fn parse_plain_u64(t: &Vec<char>) -> (r: Option<u64>)
    ensures
        r == plain_u64(t@),
{
    let n = t.len();
    let start: usize = if n > 0 && t[0] == '+' {
        1
    } else {
        0
    };
    let ghost d = unsigned_body(t@);
    assert(d =~= t@.subrange(start as int, n as int));
    if start == n {
        return None;
    }
    let mut v: u64 = 0;
    let mut i: usize = start;
    while i < n
        invariant
            start <= i <= n,
            n == t@.len(),
            d == t@.subrange(start as int, n as int),
            d == unsigned_body(t@),
            strings::all_digits(d.take(i - start)),
            v == strings::digits_value(d.take(i - start)),
        decreases n - i,
    {
        let c = t[i];
        if !('0' <= c && c <= '9') {
            assert(!strings::is_digit(d[i - start]));
            return None;
        }
        let dv = digit_of(c);
        proof {
            lemma_digits_value_take_step(d, i - start);
        }
        if v > (u64::MAX - dv) / 10 {
            proof {
                if strings::all_digits(d) {
                    lemma_digits_prefix_le(d, i - start + 1);
                }
            }
            return None;
        }
        v = v * 10 + dv;
        i = i + 1;
        assert(d.take(i - start).drop_last() =~= d.take(i - 1 - start));
    }
    assert(d.take(n - start) =~= d);
    Some(v)
}

// ─── Decimal numerals ─────────────────────────────────────────────────────────

/// The index of the first character of `s` that satisfies `p`, or `s.len()`
/// when there is none.
pub open spec fn first_where(s: Seq<char>, p: spec_fn(char) -> bool) -> nat
    decreases s.len(),
{
    if s.len() == 0 || p(s[0]) {
        0
    } else {
        1 + first_where(s.drop_first(), p)
    }
}

/// Whether `c` is a decimal point.
pub open spec fn is_point(c: char) -> bool {
    c == '.'
}

/// The parts of a decimal numeral as `f64::from_str` accepts it when no letter
/// occurs in it: an optional sign, then digits with at most one `.` among them
/// and at least one digit in all. The parts are whether the sign is `-`, the
/// digits before the point and the digits after it.
pub open spec fn decimal_numeral(t: Seq<char>) -> Option<(bool, Seq<char>, Seq<char>)> {
    let signed = t.len() > 0 && (t[0] == '+' || t[0] == '-');
    let negative = t.len() > 0 && t[0] == '-';
    let body = if signed {
        t.drop_first()
    } else {
        t
    };
    let k = first_where(body, |c: char| is_point(c));
    let whole = body.take(k as int);
    let fraction = if k < body.len() {
        body.skip(k + 1int)
    } else {
        Seq::empty()
    };
    if strings::all_digits(whole) && strings::all_digits(fraction) && whole.len() + fraction.len()
        > 0 {
        Some((negative, whole, fraction))
    } else {
        None
    }
}

proof fn lemma_first_where_at(s: Seq<char>, p: spec_fn(char) -> bool, k: int)
    requires
        0 <= k <= s.len(),
        forall|j: int| 0 <= j < k ==> !p(#[trigger] s[j]),
        k == s.len() || p(s[k]),
    ensures
        first_where(s, p) == k,
    decreases k,
{
    if k > 0 {
        let t = s.drop_first();
        assert forall|j: int| 0 <= j < k - 1 implies !p(#[trigger] t[j]) by {
            assert(t[j] == s[j + 1]);
        }
        if k - 1 < t.len() {
            assert(t[k - 1] == s[k]);
        }
        lemma_first_where_at(t, p, k - 1);
    }
}

/// Whether every character of `v` from `from` up to `to` is a digit.
fn digits_between(v: &Vec<char>, from: usize, to: usize) -> (r: bool)
    requires
        from <= to <= v.len(),
    ensures
        r == strings::all_digits(v@.subrange(from as int, to as int)),
{
    let mut i = from;
    while i < to
        invariant
            from <= i <= to <= v.len(),
            strings::all_digits(v@.subrange(from as int, i as int)),
        decreases to - i,
    {
        if !('0' <= v[i] && v[i] <= '9') {
            assert(!strings::is_digit(v@.subrange(from as int, to as int)[i - from]));
            return false;
        }
        i = i + 1;
        assert forall|j: int| 0 <= j < i - from implies strings::is_digit(
            #[trigger] v@.subrange(from as int, i as int)[j],
        ) by {
            if j < i - 1 - from {
                assert(v@.subrange(from as int, i as int)[j] == v@.subrange(
                    from as int,
                    i - 1,
                )[j]);
            }
        }
    }
    true
}

/// The characters of `v` from `from` up to `to`.
fn copy_range(v: &Vec<char>, from: usize, to: usize) -> (r: Vec<char>)
    requires
        from <= to <= v.len(),
    ensures
        r@ == v@.subrange(from as int, to as int),
{
    let mut r: Vec<char> = Vec::new();
    let mut i = from;
    while i < to
        invariant
            from <= i <= to <= v.len(),
            r@ == v@.subrange(from as int, i as int),
        decreases to - i,
    {
        r.push(v[i]);
        i = i + 1;
        assert(r@ =~= v@.subrange(from as int, i as int));
    }
    r
}

/// Splits a decimal numeral into its sign, whole digits and fraction digits.
pub fn parse_decimal(t: &Vec<char>) -> (r: Option<(bool, Vec<char>, Vec<char>)>)
    ensures
        match r {
            Some((negative, whole, fraction)) => decimal_numeral(t@) == Some(
                (negative, whole@, fraction@),
            ),
            None => decimal_numeral(t@) is None,
        },
{
    let n = t.len();
    let signed = n > 0 && (t[0] == '+' || t[0] == '-');
    let negative = n > 0 && t[0] == '-';
    let start: usize = if signed {
        1
    } else {
        0
    };
    let ghost body = if signed {
        t@.drop_first()
    } else {
        t@
    };
    assert(body =~= t@.subrange(start as int, n as int));
    let mut k = start;
    while k < n && t[k] != '.'
        invariant
            start <= k <= n,
            n == t@.len(),
            body == t@.subrange(start as int, n as int),
            forall|j: int| 0 <= j < k - start ==> !is_point(#[trigger] body[j]),
        decreases n - k,
    {
        k = k + 1;
    }
    proof {
        lemma_first_where_at(body, |c: char| is_point(c), k - start);
    }
    let frac_from = if k < n {
        k + 1
    } else {
        n
    };
    assert(body.take(k - start) =~= t@.subrange(start as int, k as int));
    if k < n {
        assert(body.skip(k - start + 1) =~= t@.subrange(frac_from as int, n as int));
    } else {
        assert(Seq::<char>::empty() =~= t@.subrange(frac_from as int, n as int));
    }
    if digits_between(t, start, k) && digits_between(t, frac_from, n) && (k - start) + (n
        - frac_from) > 0 {
        let whole = copy_range(t, start, k);
        let fraction = copy_range(t, frac_from, n);
        Some((negative, whole, fraction))
    } else {
        None
    }
}

/// Ten to the power `n`.
pub open spec fn pow10(n: nat) -> nat
    decreases n,
{
    if n == 0 {
        1
    } else {
        10 * pow10((n - 1) as nat)
    }
}

/// The whole number of bytes in `whole.fraction` units of `m` bytes, rounded down.
pub open spec fn scaled_value(whole: Seq<char>, fraction: Seq<char>, m: nat) -> nat {
    strings::digits_value(whole) * m + (strings::digits_value(fraction) * m) / pow10(
        fraction.len(),
    )
}

/// The byte count that a numeral in units of `m` bytes stands for: nothing for
/// a negative numeral, and at most `u64::MAX`.
pub open spec fn size_in_bytes(negative: bool, whole: Seq<char>, fraction: Seq<char>, m: nat) -> u64 {
    if negative {
        0
    } else if scaled_value(whole, fraction, m) > u64::MAX {
        u64::MAX
    } else {
        scaled_value(whole, fraction, m) as u64
    }
}

/// `(0.f * m)` rounded down, one digit of `f` at a time from the right.
spec fn fraction_floor(f: Seq<char>, m: nat) -> nat
    decreases f.len(),
{
    if f.len() == 0 {
        0
    } else {
        (strings::digit_value(f[0]) * m + fraction_floor(f.drop_first(), m)) / 10
    }
}

proof fn lemma_pow10_positive(n: nat)
    ensures
        pow10(n) > 0,
    decreases n,
{
    if n > 0 {
        lemma_pow10_positive((n - 1) as nat);
    }
}

/// The value of a digit string split after its first digit.
proof fn lemma_digits_value_first(f: Seq<char>)
    requires
        f.len() > 0,
    ensures
        strings::digits_value(f) == strings::digit_value(f[0]) * pow10((f.len() - 1) as nat)
            + strings::digits_value(f.drop_first()),
    decreases f.len(),
{
    if f.len() == 1 {
        assert(f.drop_last() =~= Seq::<char>::empty());
        assert(f.drop_first() =~= Seq::<char>::empty());
        assert(f.last() == f[0]);
        assert(strings::digits_value(f.drop_last()) == 0);
        assert(pow10((f.len() - 1) as nat) == 1);
        let x = strings::digit_value(f[0]) as int;
        let y = pow10((f.len() - 1) as nat) as int;
        assert(x * y == x) by (nonlinear_arith)
            requires
                y == 1,
        ;
    } else {
        let g = f.drop_last();
        lemma_digits_value_first(g);
        assert(g[0] == f[0]);
        assert(g.drop_first() =~= f.drop_first().drop_last());
        assert(f.drop_first().last() == f.last());
        let a = strings::digit_value(f[0]) as int;
        let p = pow10((f.len() - 2) as nat) as int;
        let b = strings::digits_value(g.drop_first()) as int;
        let l = strings::digit_value(f.last()) as int;
        assert(strings::digits_value(f) == strings::digits_value(g) * 10 + l);
        assert(strings::digits_value(f.drop_first()) == b * 10 + l);
        assert(pow10((f.len() - 1) as nat) == 10 * p);
        assert((a * p + b) * 10 + l == a * (10 * p) + (b * 10 + l)) by (nonlinear_arith);
        assert(strings::digits_value(g) == a * p + b);
        assert(strings::digits_value(f) == a * (10 * p) + (b * 10 + l));
        let pp = pow10((f.len() - 1) as nat) as int;
        assert(a * pp == a * (10 * p)) by (nonlinear_arith)
            requires
                pp == 10 * p,
        ;
    }
}

proof fn lemma_fraction_floor(f: Seq<char>, m: nat)
    ensures
        fraction_floor(f, m) == (strings::digits_value(f) * m) / pow10(f.len()),
    decreases f.len(),
{
    if f.len() > 0 {
        let r = f.drop_first();
        lemma_fraction_floor(r, m);
        lemma_digits_value_first(f);
        lemma_pow10_positive(r.len());
        let a = (strings::digit_value(f[0]) * m) as int;
        let q = pow10(r.len()) as int;
        let b = (strings::digits_value(r) * m) as int;
        assert(b / q + a == (b + a * q) / q) by {
            vstd::arithmetic::div_mod::lemma_hoist_over_denominator(b, a, q as nat);
        }
        assert((b + a * q) / q / 10 == (b + a * q) / (q * 10)) by {
            vstd::arithmetic::div_mod::lemma_div_denominator(b + a * q, q, 10);
        }
        let d = strings::digit_value(f[0]) as int;
        let v = strings::digits_value(r) as int;
        assert(fraction_floor(f, m) == (a + fraction_floor(r, m)) / 10);
        assert(strings::digits_value(f) == d * q + v);
        assert(b + a * q == (d * q + v) * m) by (nonlinear_arith)
            requires
                a == d * m,
                b == v * m,
        ;
        assert(q * 10 == pow10(f.len()));
        assert((strings::digits_value(f) * m) as int == b + a * q);
    } else {
        assert(strings::digits_value(f) == 0);
        assert(pow10(0) == 1);
    }
}

/// The bound on the running fraction: below one unit.
proof fn lemma_fraction_step_bound(d: nat, m: nat, acc: nat)
    requires
        d < 10,
        acc <= m,
    ensures
        (d * m + acc) / 10 <= m,
        d * m + acc <= 10 * m,
{
    assert(d * m <= 9 * m) by (nonlinear_arith)
        requires
            d < 10,
    ;
}

/// The number of bytes in `whole.fraction` units of `m` bytes, as
/// [`size_in_bytes`] gives it.
pub fn scale_decimal(negative: bool, whole: &Vec<char>, fraction: &Vec<char>, m: u64) -> (r: u64)
    requires
        strings::all_digits(whole@),
        strings::all_digits(fraction@),
    ensures
        r == size_in_bytes(negative, whole@, fraction@, m as nat),
{
    if negative {
        return 0;
    }
    if m == 0 {
        proof {
            let wv = strings::digits_value(whole@) as int;
            let fv = strings::digits_value(fraction@) as int;
            assert(wv * 0 == 0 && fv * 0 == 0) by (nonlinear_arith);
            lemma_pow10_positive(fraction@.len());
        }
        return 0;
    }
    let ghost mm = m as nat;
    let mut w: u128 = 0;
    let mut i: usize = 0;
    while i < whole.len()
        invariant
            i <= whole.len(),
            strings::all_digits(whole@),
            w == strings::digits_value(whole@.take(i as int)),
            w <= u64::MAX,
            m > 0,
            mm == m,
            !negative,
        decreases whole.len() - i,
    {
        let dv = digit_of(whole[i]) as u128;
        proof {
            lemma_digits_value_take_step(whole@, i as int);
        }
        let nw = w * 10 + dv;
        if nw > u64::MAX as u128 {
            proof {
                lemma_digits_prefix_le(whole@, i + 1);
                let wv = strings::digits_value(whole@);
                assert(wv * mm >= wv) by (nonlinear_arith)
                    requires
                        mm >= 1,
                ;
                lemma_pow10_positive(fraction@.len());
                assert(scaled_value(whole@, fraction@, mm) >= wv * mm);
                assert(wv >= nw);
            }
            return u64::MAX;
        }
        w = nw;
        i = i + 1;
    }
    assert(whole@.take(i as int) =~= whole@);
    let mut acc: u128 = 0;
    let mut j: usize = fraction.len();
    assert(fraction@.skip(j as int) =~= Seq::<char>::empty());
    while j > 0
        invariant
            j <= fraction.len(),
            strings::all_digits(fraction@),
            acc == fraction_floor(fraction@.skip(j as int), mm),
            acc <= m,
            mm == m,
        decreases j,
    {
        let dv = digit_of(fraction[j - 1]) as u128;
        proof {
            lemma_fraction_step_bound(dv as nat, mm, acc as nat);
            assert(fraction@.skip(j - 1).drop_first() =~= fraction@.skip(j as int));
        }
        acc = (dv * (m as u128) + acc) / 10;
        j = j - 1;
    }
    assert(fraction@.skip(0) =~= fraction@);
    proof {
        lemma_fraction_floor(fraction@, mm);
        assert(w * m <= (u64::MAX as int) * (u64::MAX as int)) by (nonlinear_arith)
            requires
                w <= u64::MAX,
                m <= u64::MAX,
        ;
    }
    let total: u128 = w * (m as u128) + acc;
    if total > u64::MAX as u128 {
        u64::MAX
    } else {
        total as u64
    }
}

// ─── Units ────────────────────────────────────────────────────────────────────

/// Whether `u` names the unit with the given letter: the letter alone, or
/// followed by `B`, or by `IB`.
pub open spec fn is_unit_name(u: Seq<char>, letter: char) -> bool {
    ||| u == seq![letter]
    ||| u == seq![letter, 'B']
    ||| u == seq![letter, 'I', 'B']
}

/// The number of bytes in the unit that the upper-case suffix `u` names.
pub open spec fn multiplier_for(u: Seq<char>) -> Option<u64> {
    if u == seq!['B'] {
        Some(1)
    } else if is_unit_name(u, 'K') {
        Some(1024)
    } else if is_unit_name(u, 'M') {
        Some(1048576)
    } else if is_unit_name(u, 'G') {
        Some(1073741824)
    } else if is_unit_name(u, 'T') {
        Some(1099511627776)
    } else {
        None
    }
}

/// The number of bytes in the unit that an upper-case suffix names: `B`; `K`,
/// `KB`, `KIB`; and the same for `M`, `G` and `T`, in powers of 1024.
pub fn suffix_multiplier(u: &Vec<char>) -> (r: Option<u64>)
    ensures
        r == multiplier_for(u@),
{
    let n = u.len();
    if n == 0 || n > 3 {
        assert(u@.len() != 1 && u@.len() != 2 && u@.len() != 3);
        return None;
    }
    let letter = u[0];
    if n == 1 && letter == 'B' {
        assert(u@ =~= seq!['B']);
        return Some(1);
    }
    let tail_ok = n == 1 || (n == 2 && u[1] == 'B') || (n == 3 && u[1] == 'I' && u[2] == 'B');
    if !tail_ok {
        proof {
            assert forall|l: char| !is_unit_name(u@, l) by {
                if u@ == seq![l, 'B'] {
                    assert(u@[1] == 'B');
                }
                if u@ == seq![l, 'I', 'B'] {
                    assert(u@[1] == 'I' && u@[2] == 'B');
                }
            }
            if u@ == seq!['B'] {
                assert(u@.len() == 1);
            }
        }
        return None;
    }
    proof {
        if n == 1 {
            assert(u@ =~= seq![letter]);
        } else if n == 2 {
            assert(u@ =~= seq![letter, 'B']);
        } else {
            assert(u@ =~= seq![letter, 'I', 'B']);
        }
        assert forall|l: char| l != letter implies !is_unit_name(u@, l) by {
            if u@ == seq![l] || u@ == seq![l, 'B'] || u@ == seq![l, 'I', 'B'] {
                assert(u@[0] == l);
            }
        }
        if u@ == seq!['B'] {
            assert(u@[0] == 'B' && n == 1);
        }
    }
    if letter == 'K' {
        Some(1024)
    } else if letter == 'M' {
        Some(1048576)
    } else if letter == 'G' {
        Some(1073741824)
    } else if letter == 'T' {
        Some(1099511627776)
    } else {
        None
    }
}

// ─── Unicode properties that std computes ─────────────────────────────────────

/// Whether `c` has the Unicode `Alphabetic` property, as `char::is_alphabetic`
/// reports it.
pub uninterp spec fn unicode_alphabetic(c: char) -> bool;

/// The upper-case mapping of `s`, as `str::to_uppercase` gives it.
pub uninterp spec fn unicode_uppercase(s: Seq<char>) -> Seq<char>;

/// Whether `c` has the Unicode `Alphabetic` property: among ASCII characters
/// exactly the letters, beyond ASCII as the Unicode tables say.
pub open spec fn alphabetic(c: char) -> bool {
    if strings::is_ascii_char(c) {
        strings::is_ascii_letter(c)
    } else {
        unicode_alphabetic(c)
    }
}

/// The Unicode upper-case mapping of `s`: for ASCII text, its letters made
/// upper-case; beyond ASCII as the Unicode tables say.
pub open spec fn uppercase_of(s: Seq<char>) -> Seq<char> {
    if strings::all_ascii(s) {
        strings::ascii_upper(s)
    } else {
        unicode_uppercase(s)
    }
}

/// `char::is_alphabetic`: whether `c` has the Unicode `Alphabetic` property,
/// which among ASCII characters holds exactly for the letters. Beyond ASCII
/// the property's table is long, so its result is only named there.
#[verifier::external_body]
fn is_alphabetic(c: char) -> (r: bool)
    ensures
        strings::is_ascii_char(c) ==> r == strings::is_ascii_letter(c),
        !strings::is_ascii_char(c) ==> r == unicode_alphabetic(c),
{
    c.is_alphabetic()
}

/// `str::to_uppercase`: the Unicode upper-case mapping of `s`, which for ASCII
/// text maps `a`..`z` to `A`..`Z` and keeps every other character. Beyond
/// ASCII its tables are long, so its result is only named there.
#[verifier::external_body]
fn to_uppercase(s: &str) -> (r: String)
    ensures
        strings::all_ascii(s@) ==> r@ == strings::ascii_upper(s@),
        !strings::all_ascii(s@) ==> r@ == unicode_uppercase(s@),
{
    s.to_uppercase()
}

/// The index of the first alphabetic character of `t`, or `t.len()`.
pub open spec fn first_alphabetic(t: Seq<char>) -> nat {
    first_where(t, |c: char| alphabetic(c))
}

// ─── Byte offsets ─────────────────────────────────────────────────────────────

/// The number of bytes that UTF-8 takes for `c`.
pub open spec fn utf8_width(c: char) -> nat {
    let u = c as u32;
    if u < 0x80 {
        1
    } else if u < 0x800 {
        2
    } else if u < 0x10000 {
        3
    } else {
        4
    }
}

/// The index of the character of `s` that starts at byte `b` of its UTF-8
/// encoding (`s.len()` for the end), or `None` when `b` falls inside a
/// character or past the end.
pub open spec fn char_at_byte(s: Seq<char>, b: nat) -> Option<nat>
    decreases s.len(),
{
    if b == 0 {
        Some(0)
    } else if s.len() == 0 || utf8_width(s[0]) > b {
        None
    } else {
        match char_at_byte(s.drop_first(), (b - utf8_width(s[0])) as nat) {
            Some(k) => Some(k + 1),
            None => None,
        }
    }
}

fn utf8_width_of(c: char) -> (w: usize)
    ensures
        w == utf8_width(c),
{
    let u = c as u32;
    if u < 0x80 {
        1
    } else if u < 0x800 {
        2
    } else if u < 0x10000 {
        3
    } else {
        4
    }
}

/// The index of the character of `s` that starts at byte `b`, if one does.
fn char_index_at_byte(s: &Vec<char>, b: usize) -> (r: Option<usize>)
    ensures
        r matches Some(k) ==> char_at_byte(s@, b as nat) == Some(k as nat),
        r is None ==> char_at_byte(s@, b as nat) is None,
{
    let mut i: usize = 0;
    let mut off: usize = 0;
    assert(s@.skip(0) =~= s@);
    while off < b
        invariant
            i <= s.len(),
            off <= b,
            char_at_byte(s@, b as nat) == match char_at_byte(s@.skip(i as int), (b - off) as nat) {
                Some(k) => Some((k + i) as nat),
                None => None,
            },
        decreases b - off,
    {
        let ghost rest = s@.skip(i as int);
        if i == s.len() {
            return None;
        }
        let w = utf8_width_of(s[i]);
        assert(rest[0] == s@[i as int]);
        if w > b - off {
            return None;
        }
        assert(rest.drop_first() =~= s@.skip(i + 1));
        off = off + w;
        i = i + 1;
    }
    Some(i)
}

// ─── Size strings ─────────────────────────────────────────────────────────────

/// The reason given for a suffix that names no unit.
pub open spec fn unknown_suffix_message(u: Seq<char>) -> Seq<char> {
    "unknown suffix '"@ + u + "'"@
}

/// Whether reading `s` as a size gets past the split between number and
/// suffix. That split is made at the byte offset equal to the character index
/// of the first alphabetic character, and it fails when that offset falls
/// inside a character.
pub open spec fn splits_cleanly(s: Seq<char>) -> bool {
    let t = strings::trimmed(s);
    let p = first_alphabetic(t);
    plain_u64(t) is Some || p == t.len() || char_at_byte(t, p) is Some
}

/// What reading `s` as a size gives: a byte count, or the reason it is not one.
///
/// Surrounding white space is ignored. A plain unsigned integer is a byte
/// count. Otherwise the text is split before its first alphabetic character
/// into a decimal number and a unit suffix, each taken without surrounding
/// white space; the suffix, upper-cased, must name a unit, and the number of
/// units is rounded down to whole bytes.
pub open spec fn size_reading(s: Seq<char>) -> Result<u64, Seq<char>> {
    let t = strings::trimmed(s);
    if plain_u64(t) is Some {
        Ok(plain_u64(t)->0)
    } else {
        let p = first_alphabetic(t);
        if p == t.len() {
            Err(t)
        } else {
            let q = char_at_byte(t, p)->0;
            match decimal_numeral(strings::trimmed(t.take(q as int))) {
                None => Err(t),
                Some((negative, whole, fraction)) => {
                    let upper = uppercase_of(strings::trimmed(t.skip(q as int)));
                    match multiplier_for(upper) {
                        None => Err(unknown_suffix_message(upper)),
                        Some(m) => Ok(size_in_bytes(negative, whole, fraction, m as nat)),
                    }
                }
            }
        }
    }
}

/// The index of the first alphabetic character of `t`, or `t.len()`.
fn find_first_alphabetic(t: &Vec<char>) -> (p: usize)
    ensures
        p == first_alphabetic(t@),
{
    let mut p: usize = 0;
    while p < t.len() && !is_alphabetic(t[p])
        invariant
            p <= t.len(),
            forall|j: int| 0 <= j < p ==> !alphabetic(#[trigger] t@[j]),
        decreases t.len() - p,
    {
        p = p + 1;
    }
    proof {
        lemma_first_where_at(t@, |c: char| alphabetic(c), p as int);
    }
    p
}

/// Whether reading `s` as a size gets past the split between number and suffix.
pub fn size_text_splits(s: &str) -> (r: bool)
    ensures
        r == splits_cleanly(s@),
{
    let chars = strings::chars_of(s);
    let t = strings::trim_chars(&chars);
    if parse_plain_u64(&t).is_some() {
        return true;
    }
    let p = find_first_alphabetic(&t);
    p == t.len() || char_index_at_byte(&t, p).is_some()
}

/// Reads a size such as `1024`, `500mb` or `1.5GB` as a number of bytes.
///
/// Surrounding white space is ignored and a plain unsigned integer is a byte
/// count. Otherwise the number before the first alphabetic character is a
/// decimal numeral and the rest names a unit, in any case: `B`, or `K`, `KB`,
/// `KiB` (1024 bytes), and likewise `M`, `G`, `T` for the next powers of 1024.
/// The number of units is multiplied out exactly and rounded down; a negative
/// number gives 0 and a result beyond `u64::MAX` gives `u64::MAX`.
pub fn parse_size(s: &str) -> (r: Result<u64, FileSplitError>)
    requires
        splits_cleanly(s@),
    ensures
        match r {
            Ok(n) => size_reading(s@) == Ok::<u64, Seq<char>>(n),
            Err(FileSplitError::InvalidSize(reason)) => size_reading(s@) == Err::<u64, Seq<char>>(
                reason@,
            ),
            Err(_) => false,
        },
{
    let chars = strings::chars_of(s);
    let t = strings::trim_chars(&chars);
    if let Some(n) = parse_plain_u64(&t) {
        return Ok(n);
    }
    let p = find_first_alphabetic(&t);
    if p == t.len() {
        return Err(FileSplitError::InvalidSize(strings::string_from_chars(&t)));
    }
    let q = match char_index_at_byte(&t, p) {
        Some(q) => q,
        None => {
            assert(false);
            return Err(FileSplitError::InvalidSize(strings::string_from_chars(&t)));
        },
    };
    proof {
        lemma_char_at_byte_bound(t@, p as nat);
    }
    let number = copy_range(&t, 0, q);
    assert(number@ =~= t@.take(q as int));
    let number = strings::trim_chars(&number);
    let (negative, whole, fraction) = match parse_decimal(&number) {
        Some(parts) => parts,
        None => {
            return Err(FileSplitError::InvalidSize(strings::string_from_chars(&t)));
        },
    };
    let suffix = copy_range(&t, q, t.len());
    assert(suffix@ =~= t@.skip(q as int));
    let suffix = strings::string_from_chars(&strings::trim_chars(&suffix));
    let upper = to_uppercase(suffix.as_str());
    let upper_chars = strings::chars_of(upper.as_str());
    match suffix_multiplier(&upper_chars) {
        Some(m) => Ok(scale_decimal(negative, &whole, &fraction, m)),
        None => {
            let mut reason = String::from_str("unknown suffix '");
            reason.append(upper.as_str());
            reason.append("'");
            Err(FileSplitError::InvalidSize(reason))
        },
    }
}

/// A character index found for a byte offset is within the string.
proof fn lemma_char_at_byte_bound(s: Seq<char>, b: nat)
    ensures
        char_at_byte(s, b) matches Some(k) ==> k <= s.len(),
    decreases s.len(),
{
    if b > 0 && s.len() > 0 && utf8_width(s[0]) <= b {
        lemma_char_at_byte_bound(s.drop_first(), (b - utf8_width(s[0])) as nat);
    }
}

/// [`parse_size`] for every string: `None` where the split between number and
/// suffix would fall inside a character.
pub fn parse_size_checked(s: &str) -> (r: Option<Result<u64, FileSplitError>>)
    ensures
        r is None <==> !splits_cleanly(s@),
        r matches Some(res) ==> match res {
            Ok(n) => size_reading(s@) == Ok::<u64, Seq<char>>(n),
            Err(FileSplitError::InvalidSize(reason)) => size_reading(s@) == Err::<u64, Seq<char>>(
                reason@,
            ),
            Err(_) => false,
        },
{
    if size_text_splits(s) {
        Some(parse_size(s))
    } else {
        None
    }
}

// ─── Byte counts for people ───────────────────────────────────────────────────

/// The text that `humansize::format_size` gives for `bytes` with the `BINARY`
/// options.
pub uninterp spec fn humansize_binary(bytes: u64) -> Seq<char>;

/// Formats a byte count for people with `humansize::format_size` and its
/// `BINARY` options: the count in the largest binary unit (`B`, `KiB`, `MiB`,
/// ...) that keeps it at least 1, with up to two decimal places and a space
/// before the unit. Below 1024 the count is written whole, followed by ` B`.
/// The rest of the float formatting is not stated.
#[verifier::external_body]
pub fn format_bytes(bytes: u64) -> (r: String)
    ensures
        r@ == humansize_binary(bytes),
        bytes < 1024 ==> r@ == strings::decimal_digits(bytes as nat) + " B"@,
{
    humansize::format_size(bytes, humansize::BINARY)
}

// ─── Laws ─────────────────────────────────────────────────────────────────────

/// In ASCII text every character is one byte, so each character index is a
/// byte offset of the same value.
proof fn lemma_ascii_char_at_byte(t: Seq<char>, p: nat)
    requires
        p <= t.len(),
        forall|i: int| 0 <= i < t.len() ==> (#[trigger] t[i] as u32) < 0x80,
    ensures
        char_at_byte(t, p) == Some(p),
    decreases p,
{
    if p > 0 {
        let r = t.drop_first();
        assert(utf8_width(t[0]) == 1);
        assert forall|i: int| 0 <= i < r.len() implies (#[trigger] r[i] as u32) < 0x80 by {
            assert(r[i] == t[i + 1]);
        }
        lemma_ascii_char_at_byte(r, (p - 1) as nat);
    }
}

proof fn lemma_first_where_bound(s: Seq<char>, p: spec_fn(char) -> bool)
    ensures
        first_where(s, p) <= s.len(),
    decreases s.len(),
{
    if s.len() > 0 && !p(s[0]) {
        lemma_first_where_bound(s.drop_first(), p);
    }
}

/// A size string in ASCII is always split cleanly between number and suffix.
pub proof fn law_ascii_sizes_split_cleanly(s: Seq<char>)
    requires
        forall|i: int| 0 <= i < s.len() ==> (#[trigger] s[i] as u32) < 0x80,
    ensures
        splits_cleanly(s),
{
    let t = strings::trimmed(s);
    let a = strings::leading_white(s);
    if a != s.len() {
        assert forall|i: int| 0 <= i < t.len() implies (#[trigger] t[i] as u32) < 0x80 by {
            lemma_trimmed_range(s);
            assert(t[i] == s[i + a]);
        }
    }
    lemma_first_where_bound(t, |c: char| alphabetic(c));
    lemma_ascii_char_at_byte(t, first_alphabetic(t));
}

/// Trimming takes a contiguous run of `s`.
proof fn lemma_trimmed_range(s: Seq<char>)
    ensures
        strings::leading_white(s) != s.len() ==> strings::leading_white(s) + strings::trailing_white(
            s,
        ) <= s.len(),
    decreases s.len(),
{
    lemma_leading_white_bound(s);
    if strings::leading_white(s) != s.len() {
        lemma_white_counts_disjoint(s);
    }
}

proof fn lemma_leading_white_bound(s: Seq<char>)
    ensures
        strings::leading_white(s) <= s.len(),
    decreases s.len(),
{
    if s.len() > 0 && strings::is_white_space(s[0]) {
        lemma_leading_white_bound(s.drop_first());
    }
}

proof fn lemma_white_counts_disjoint(s: Seq<char>)
    requires
        strings::leading_white(s) < s.len(),
    ensures
        strings::leading_white(s) + strings::trailing_white(s) <= s.len(),
    decreases s.len(),
{
    if strings::trailing_white(s) > 0 {
        let d = s.drop_last();
        if strings::leading_white(s) < d.len() {
            lemma_leading_white_same_prefix(s, d);
            lemma_white_counts_disjoint(d);
        } else {
            lemma_leading_white_stops(s);
        }
    }
}

/// The leading white space ends at a character that is not white space.
proof fn lemma_leading_white_stops(s: Seq<char>)
    requires
        strings::leading_white(s) < s.len(),
    ensures
        !strings::is_white_space(s[strings::leading_white(s) as int]),
    decreases s.len(),
{
    if s.len() > 0 && strings::is_white_space(s[0]) {
        let r = s.drop_first();
        lemma_leading_white_stops(r);
        assert(r[strings::leading_white(r) as int] == s[strings::leading_white(s) as int]);
    }
}

/// Taking the last character off leaves the leading white space alone while
/// some other character remains.
proof fn lemma_leading_white_same_prefix(s: Seq<char>, d: Seq<char>)
    requires
        d == s.drop_last(),
        strings::leading_white(s) < s.len(),
        strings::trailing_white(s) > 0,
    ensures
        strings::leading_white(d) == strings::leading_white(s),
    decreases s.len(),
{
    if s.len() > 0 && strings::is_white_space(s[0]) {
        let s1 = s.drop_first();
        let d1 = d.drop_first();
        assert(d1 =~= s1.drop_last());
        assert(s1.last() == s.last());
        if s1.len() > 0 {
            lemma_leading_white_same_prefix(s1, d1);
        }
    }
}

/// A byte count written in decimal reads back as itself.
pub proof fn law_plain_count_reads_back(n: u64)
    ensures
        splits_cleanly(strings::decimal_digits(n as nat)),
        size_reading(strings::decimal_digits(n as nat)) == Ok::<u64, Seq<char>>(n),
{
    let d = strings::decimal_digits(n as nat);
    strings::lemma_decimal_digits(n as nat);
    assert(strings::is_digit(d[0]));
    assert(strings::is_digit(d.last()));
    assert(strings::leading_white(d) == 0);
    assert(strings::trailing_white(d) == 0);
    assert(d.subrange(0, d.len() as int) =~= d);
    assert(strings::trimmed(d) == d);
    assert(unsigned_body(d) == d);
}

/// A decimal literal made of whole digits `w` and, when there are any,
/// a point and fraction digits `f`.
pub open spec fn numeral_text(w: Seq<char>, f: Seq<char>) -> Seq<char> {
    if f.len() == 0 {
        w
    } else {
        w + seq!['.'] + f
    }
}

/// Whether `u` names a unit in any mix of ASCII cases.
pub open spec fn is_unit_suffix(u: Seq<char>) -> bool {
    strings::all_ascii(u) && multiplier_for(strings::ascii_upper(u)) is Some
}

proof fn lemma_unit_suffix_letters(u: Seq<char>)
    requires
        is_unit_suffix(u),
    ensures
        u.len() > 0,
        forall|i: int| 0 <= i < u.len() ==> strings::is_ascii_letter(#[trigger] u[i]),
{
    let up = strings::ascii_upper(u);
    assert(up.len() == u.len());
    assert forall|i: int| 0 <= i < u.len() implies strings::is_ascii_letter(#[trigger] u[i]) by {
        let c = up[i];
        assert(c == strings::ascii_upper_char(u[i]));
        assert(c == 'B' || c == 'K' || c == 'I' || c == 'M' || c == 'G' || c == 'T');
    }
}

/// A number followed by a unit, in any ASCII case, is read as that number of
/// units, multiplied out exactly and rounded down.
pub proof fn law_number_with_unit(w: Seq<char>, f: Seq<char>, u: Seq<char>)
    requires
        strings::all_digits(w),
        strings::all_digits(f),
        w.len() + f.len() > 0,
        is_unit_suffix(u),
    ensures
        splits_cleanly(numeral_text(w, f) + u),
        size_reading(numeral_text(w, f) + u) == Ok::<u64, Seq<char>>(
            size_in_bytes(false, w, f, multiplier_for(strings::ascii_upper(u))->0 as nat),
        ),
{
    lemma_unit_suffix_letters(u);
    let lit = numeral_text(w, f);
    let t = lit + u;
    let p = lit.len();
    // Every character of the literal is a digit or the point.
    assert forall|i: int| 0 <= i < p implies (strings::is_digit(#[trigger] lit[i]) || lit[i]
        == '.') by {
        if f.len() > 0 && i >= w.len() + 1 {
            assert(lit[i] == f[i - w.len() - 1]);
        } else if i < w.len() {
            assert(lit[i] == w[i]);
        }
    }
    assert forall|i: int| 0 <= i < t.len() implies (#[trigger] t[i] as u32) < 0x80 by {
        if i < p {
            assert(t[i] == lit[i]);
            assert(strings::is_digit(lit[i]) || lit[i] == '.');
        } else {
            assert(t[i] == u[i - p]);
        }
    }
    // Nothing is trimmed: the text starts with a digit or point and ends with a letter.
    assert(t[0] == lit[0]);
    assert(t.last() == u.last());
    assert(strings::leading_white(t) == 0);
    assert(strings::trailing_white(t) == 0);
    assert(t.subrange(0, t.len() as int) =~= t);
    assert(strings::trimmed(t) == t);
    // It is not a plain integer: it holds a letter.
    assert(unsigned_body(t) == t);
    assert(t[p as int] == u[0]);
    assert(!strings::is_digit(t[p as int]));
    assert(plain_u64(t) is None);
    // The first alphabetic character starts the unit.
    assert forall|j: int| 0 <= j < p implies !(|c: char| alphabetic(c))(#[trigger] t[j]) by {
        assert(t[j] == lit[j]);
        assert(strings::is_digit(lit[j]) || lit[j] == '.');
    }
    lemma_first_where_at(t, |c: char| alphabetic(c), p as int);
    assert(first_alphabetic(t) == p);
    lemma_ascii_char_at_byte(t, p);
    // The number is the literal and the suffix is the unit.
    assert(t.take(p as int) =~= lit);
    assert(t.skip(p as int) =~= u);
    lemma_plain_text_untrimmed(lit);
    lemma_plain_text_untrimmed(u);
    lemma_numeral_text_parts(w, f);
    assert(strings::all_ascii(u));
}

/// A text that neither starts nor ends with white space is its own trim.
proof fn lemma_plain_text_untrimmed(s: Seq<char>)
    requires
        s.len() > 0,
        !strings::is_white_space(s[0]),
        !strings::is_white_space(s.last()),
    ensures
        strings::trimmed(s) == s,
{
    assert(s.subrange(0, s.len() as int) =~= s);
}

/// A literal made from whole and fraction digits reads back as those parts.
proof fn lemma_numeral_text_parts(w: Seq<char>, f: Seq<char>)
    requires
        strings::all_digits(w),
        strings::all_digits(f),
        w.len() + f.len() > 0,
    ensures
        decimal_numeral(numeral_text(w, f)) == Some((false, w, f)),
{
    let lit = numeral_text(w, f);
    let k = w.len() as int;
    assert forall|j: int| 0 <= j < k implies !(|c: char| is_point(c))(#[trigger] lit[j]) by {
        assert(lit[j] == w[j]);
    }
    if f.len() > 0 {
        assert(lit[k] == '.');
        lemma_first_where_at(lit, |c: char| is_point(c), k);
        assert(lit.take(k) =~= w);
        assert(lit.skip(k + 1) =~= f);
    } else {
        lemma_first_where_at(lit, |c: char| is_point(c), k);
        assert(lit.take(k) =~= w);
    }
    assert(lit[0] != '+' && lit[0] != '-') by {
        if k > 0 {
            assert(lit[0] == w[0]);
        }
    }
}

/// The value of a numeral, scaled to a whole number over `10^fraction digits`.
pub open spec fn numeral_numerator(w: Seq<char>, f: Seq<char>) -> nat {
    strings::digits_value(w) * pow10(f.len()) + strings::digits_value(f)
}

/// Whether the numeral `wa.fa` is at most the numeral `wb.fb`.
pub open spec fn numeral_le(wa: Seq<char>, fa: Seq<char>, wb: Seq<char>, fb: Seq<char>) -> bool {
    numeral_numerator(wa, fa) * pow10(fb.len()) <= numeral_numerator(wb, fb) * pow10(fa.len())
}

proof fn lemma_scaled_as_fraction(w: Seq<char>, f: Seq<char>, m: nat)
    ensures
        scaled_value(w, f, m) == (numeral_numerator(w, f) * m) / pow10(f.len()),
{
    lemma_pow10_positive(f.len());
    let p = pow10(f.len()) as int;
    let a = (strings::digits_value(w) * m) as int;
    let b = (strings::digits_value(f) * m) as int;
    vstd::arithmetic::div_mod::lemma_hoist_over_denominator(b, a, p as nat);
    let dw = strings::digits_value(w) as int;
    let df = strings::digits_value(f) as int;
    assert(b + a * p == (dw * p + df) * m) by (nonlinear_arith)
        requires
            a == dw * m,
            b == df * m,
    ;
}

proof fn lemma_floor_div_monotone(x: int, p: int, y: int, q: int)
    requires
        x >= 0,
        y >= 0,
        p > 0,
        q > 0,
        x * q <= y * p,
    ensures
        x / p <= y / q,
{
    let u = x / p;
    let v = y / q;
    vstd::arithmetic::div_mod::lemma_fundamental_div_mod(x, p);
    vstd::arithmetic::div_mod::lemma_fundamental_div_mod(y, q);
    vstd::arithmetic::div_mod::lemma_mod_bound(x, p);
    vstd::arithmetic::div_mod::lemma_mod_bound(y, q);
    let r = x % p;
    let s = y % q;
    assert(u <= v) by (nonlinear_arith)
        requires
            x == p * u + r,
            y == q * v + s,
            0 <= r < p,
            0 <= s < q,
            x * q <= y * p,
            p > 0,
            q > 0,
            u >= 0,
    ;
}

/// A larger number of the same unit is never read as fewer bytes.
pub proof fn law_size_monotone(wa: Seq<char>, fa: Seq<char>, wb: Seq<char>, fb: Seq<char>, m: nat)
    requires
        numeral_le(wa, fa, wb, fb),
    ensures
        size_in_bytes(false, wa, fa, m) <= size_in_bytes(false, wb, fb, m),
{
    lemma_scaled_as_fraction(wa, fa, m);
    lemma_scaled_as_fraction(wb, fb, m);
    lemma_pow10_positive(fa.len());
    lemma_pow10_positive(fb.len());
    let x = (numeral_numerator(wa, fa) * m) as int;
    let y = (numeral_numerator(wb, fb) * m) as int;
    let pa = pow10(fa.len()) as int;
    let pb = pow10(fb.len()) as int;
    let na = numeral_numerator(wa, fa) as int;
    let nb = numeral_numerator(wb, fb) as int;
    assert(x * pb <= y * pa) by (nonlinear_arith)
        requires
            x == na * m,
            y == nb * m,
            na * pb <= nb * pa,
            m >= 0,
    ;
    lemma_floor_div_monotone(x, pa, y, pb);
}

/// For numbers with the same unit in any ASCII case, the larger number is
/// never read as fewer bytes.
pub proof fn law_unit_sizes_monotone(
    wa: Seq<char>,
    fa: Seq<char>,
    wb: Seq<char>,
    fb: Seq<char>,
    u: Seq<char>,
)
    requires
        strings::all_digits(wa),
        strings::all_digits(fa),
        strings::all_digits(wb),
        strings::all_digits(fb),
        wa.len() + fa.len() > 0,
        wb.len() + fb.len() > 0,
        is_unit_suffix(u),
        numeral_le(wa, fa, wb, fb),
    ensures
        size_reading(numeral_text(wa, fa) + u) is Ok,
        size_reading(numeral_text(wb, fb) + u) is Ok,
        size_reading(numeral_text(wa, fa) + u)->Ok_0 <= size_reading(numeral_text(wb, fb) + u)->Ok_0,
{
    law_number_with_unit(wa, fa, u);
    law_number_with_unit(wb, fb, u);
    law_size_monotone(wa, fa, wb, fb, multiplier_for(strings::ascii_upper(u))->0 as nat);
}

// ─── Case ─────────────────────────────────────────────────────────────────────

/// `c` with an ASCII letter made upper-case (`up`) or lower-case.
pub open spec fn case_char(c: char, up: bool) -> char {
    if up {
        strings::ascii_upper_char(c)
    } else {
        strings::ascii_lower_char(c)
    }
}

/// `s` with its ASCII letters made upper-case (`up`) or lower-case.
pub open spec fn case_text(s: Seq<char>, up: bool) -> Seq<char> {
    s.map_values(|c: char| case_char(c, up))
}

/// The byte count of a reading, if it is one.
pub open spec fn reading_value(r: Result<u64, Seq<char>>) -> Option<u64> {
    match r {
        Ok(n) => Some(n),
        Err(_) => None,
    }
}

/// What changing the case of an ASCII character keeps.
proof fn lemma_case_char(c: char, up: bool)
    requires
        strings::is_ascii_char(c),
    ensures
        strings::is_ascii_char(case_char(c, up)),
        strings::is_white_space(case_char(c, up)) == strings::is_white_space(c),
        strings::is_digit(case_char(c, up)) == strings::is_digit(c),
        alphabetic(case_char(c, up)) == alphabetic(c),
        !alphabetic(c) ==> case_char(c, up) == c,
        strings::ascii_upper_char(case_char(c, up)) == strings::ascii_upper_char(c),
{
}

proof fn lemma_case_text_index(s: Seq<char>, up: bool)
    ensures
        case_text(s, up).len() == s.len(),
        forall|i: int| 0 <= i < s.len() ==> #[trigger] case_text(s, up)[i] == case_char(s[i], up),
{
}

proof fn lemma_case_leading(s: Seq<char>, up: bool)
    requires
        strings::all_ascii(s),
    ensures
        strings::leading_white(case_text(s, up)) == strings::leading_white(s),
    decreases s.len(),
{
    if s.len() > 0 {
        lemma_case_char(s[0], up);
        assert(case_text(s, up).drop_first() =~= case_text(s.drop_first(), up));
        assert(case_text(s, up)[0] == case_char(s[0], up));
        lemma_case_leading(s.drop_first(), up);
    }
}

proof fn lemma_case_trailing(s: Seq<char>, up: bool)
    requires
        strings::all_ascii(s),
    ensures
        strings::trailing_white(case_text(s, up)) == strings::trailing_white(s),
    decreases s.len(),
{
    if s.len() > 0 {
        lemma_case_char(s.last(), up);
        assert(case_text(s, up).drop_last() =~= case_text(s.drop_last(), up));
        assert(case_text(s, up).last() == case_char(s.last(), up));
        lemma_case_trailing(s.drop_last(), up);
    }
}

proof fn lemma_case_trimmed(s: Seq<char>, up: bool)
    requires
        strings::all_ascii(s),
    ensures
        strings::trimmed(case_text(s, up)) == case_text(strings::trimmed(s), up),
        strings::all_ascii(strings::trimmed(s)),
{
    lemma_case_leading(s, up);
    lemma_case_trailing(s, up);
    lemma_trimmed_range(s);
    let a = strings::leading_white(s);
    if a != s.len() {
        let b = s.len() - strings::trailing_white(s);
        assert(case_text(s, up).subrange(a as int, b) =~= case_text(s.subrange(a as int, b), up));
        assert forall|i: int| 0 <= i < b - a implies strings::is_ascii_char(
            #[trigger] s.subrange(a as int, b)[i],
        ) by {
            assert(s.subrange(a as int, b)[i] == s[i + a]);
        }
    } else {
        assert(case_text(Seq::<char>::empty(), up) =~= Seq::<char>::empty());
    }
}

proof fn lemma_case_all_ascii(s: Seq<char>, up: bool)
    requires
        strings::all_ascii(s),
    ensures
        strings::all_ascii(case_text(s, up)),
{
    assert forall|i: int| 0 <= i < s.len() implies strings::is_ascii_char(
        #[trigger] case_text(s, up)[i],
    ) by {
        lemma_case_char(s[i], up);
    }
}

/// The first index satisfying `p` is one: no earlier character satisfies it,
/// and the one there does (unless it is the end).
proof fn lemma_first_where_props(s: Seq<char>, p: spec_fn(char) -> bool)
    ensures
        first_where(s, p) <= s.len(),
        forall|j: int| 0 <= j < first_where(s, p) ==> !p(#[trigger] s[j]),
        first_where(s, p) < s.len() ==> p(s[first_where(s, p) as int]),
    decreases s.len(),
{
    if s.len() > 0 && !p(s[0]) {
        let r = s.drop_first();
        lemma_first_where_props(r, p);
        assert forall|j: int| 0 <= j < first_where(s, p) implies !p(#[trigger] s[j]) by {
            if j > 0 {
                assert(s[j] == r[j - 1]);
            }
        }
    }
}

proof fn lemma_case_plain_u64(t: Seq<char>, up: bool)
    requires
        strings::all_ascii(t),
    ensures
        plain_u64(case_text(t, up)) == plain_u64(t),
{
    let ct = case_text(t, up);
    lemma_case_text_index(t, up);
    if t.len() > 0 {
        lemma_case_char(t[0], up);
    }
    let d = unsigned_body(t);
    let cd = unsigned_body(ct);
    assert(cd =~= case_text(d, up));
    lemma_case_text_index(d, up);
    assert forall|i: int| 0 <= i < d.len() implies strings::is_digit(#[trigger] cd[i])
        == strings::is_digit(d[i]) by {
        assert(strings::is_ascii_char(d[i])) by {
            if t.len() > 0 && t[0] == '+' {
                assert(d[i] == t[i + 1]);
            } else {
                assert(d[i] == t[i]);
            }
        }
        lemma_case_char(d[i], up);
    }
    if strings::all_digits(d) {
        assert forall|i: int| 0 <= i < d.len() implies #[trigger] cd[i] == d[i] by {
            assert(strings::is_digit(d[i]));
            assert(strings::is_ascii_char(d[i]));
            lemma_case_char(d[i], up);
        }
        assert(cd =~= d);
    } else {
        let i = choose|i: int| 0 <= i < d.len() && !strings::is_digit(d[i]);
        assert(!strings::is_digit(cd[i]));
    }
}

proof fn lemma_size_case(s: Seq<char>, up: bool)
    requires
        strings::all_ascii(s),
    ensures
        reading_value(size_reading(case_text(s, up))) == reading_value(size_reading(s)),
{
    let cs = case_text(s, up);
    lemma_case_trimmed(s, up);
    let t = strings::trimmed(s);
    let ct = strings::trimmed(cs);
    assert(ct == case_text(t, up));
    lemma_case_text_index(t, up);
    lemma_case_plain_u64(t, up);
    if plain_u64(t) is None {
        let p = first_alphabetic(t);
        lemma_first_where_props(t, |c: char| alphabetic(c));
        assert forall|j: int| 0 <= j < p implies !(|c: char| alphabetic(c))(#[trigger] ct[j]) by {
            assert(!alphabetic(t[j]));
            lemma_case_char(t[j], up);
        }
        if p < t.len() {
            lemma_case_char(t[p as int], up);
        }
        lemma_first_where_at(ct, |c: char| alphabetic(c), p as int);
        assert(first_alphabetic(ct) == p);
        if p < t.len() {
            lemma_case_all_ascii(t, up);
            lemma_ascii_char_at_byte(t, p);
            lemma_ascii_char_at_byte(ct, p);
            // The number part has no letters, so it is unchanged.
            assert forall|j: int| 0 <= j < p implies #[trigger] ct[j] == t[j] by {
                assert(!alphabetic(t[j]));
                lemma_case_char(t[j], up);
            }
            assert(ct.take(p as int) =~= t.take(p as int));
            // The suffix upper-cases alike.
            let sx = t.skip(p as int);
            assert(ct.skip(p as int) =~= case_text(sx, up));
            assert forall|i: int| 0 <= i < sx.len() implies strings::is_ascii_char(
                #[trigger] sx[i],
            ) by {
                assert(sx[i] == t[i + p]);
            }
            lemma_case_trimmed(sx, up);
            let tsx = strings::trimmed(sx);
            lemma_case_all_ascii(tsx, up);
            lemma_case_text_index(tsx, up);
            assert(strings::ascii_upper(case_text(tsx, up)) =~= strings::ascii_upper(tsx)) by {
                assert forall|i: int| 0 <= i < tsx.len() implies #[trigger] strings::ascii_upper(
                    case_text(tsx, up),
                )[i] == strings::ascii_upper(tsx)[i] by {
                    lemma_case_char(tsx[i], up);
                }
            }
            assert(uppercase_of(strings::trimmed(ct.skip(p as int))) == uppercase_of(tsx));
        }
    }
}

/// Changing the case of the ASCII letters of a size string does not change
/// the byte count it is read as, or whether it is read as one.
pub proof fn law_size_case_insensitive(s: Seq<char>)
    requires
        strings::all_ascii(s),
    ensures
        reading_value(size_reading(strings::ascii_lower(s))) == reading_value(size_reading(s)),
        reading_value(size_reading(strings::ascii_upper(s))) == reading_value(size_reading(s)),
{
    lemma_size_case(s, false);
    lemma_size_case(s, true);
    assert(case_text(s, false) =~= strings::ascii_lower(s));
    assert(case_text(s, true) =~= strings::ascii_upper(s));
}


proof fn lemma_unit_reading(w: Seq<char>, f: Seq<char>, u: Seq<char>, m: u64)
    requires
        strings::all_digits(w),
        strings::all_digits(f),
        w.len() + f.len() > 0,
        strings::all_ascii(u),
        multiplier_for(strings::ascii_upper(u)) == Some(m),
    ensures
        size_reading(numeral_text(w, f) + u) == Ok::<u64, Seq<char>>(
            size_in_bytes(false, w, f, m as nat),
        ),
{
    law_number_with_unit(w, f, u);
}

/// Every spelling of a unit names the same number of bytes: `B` is one byte,
/// and each of the letters `K`, `M`, `G` and `T` names the same power of 1024
/// on its own, followed by `B`, or followed by `IB`, in any ASCII case. So a
/// number with any of these suffixes is read as that many units: `100M`,
/// `100MB`, `100mib` and `100MiB` all give 104857600 bytes.
pub proof fn law_unit_spellings(w: Seq<char>, f: Seq<char>, u: Seq<char>)
    requires
        strings::all_digits(w),
        strings::all_digits(f),
        w.len() + f.len() > 0,
        strings::all_ascii(u),
    ensures
        strings::ascii_upper(u) == seq!['B'] ==> size_reading(numeral_text(w, f) + u) == Ok::<
            u64,
            Seq<char>,
        >(size_in_bytes(false, w, f, 1)),
        strings::ascii_upper(u) == seq!['K'] || strings::ascii_upper(u) == seq!['K', 'B']
            || strings::ascii_upper(u) == seq!['K', 'I', 'B'] ==> size_reading(numeral_text(w, f)
            + u) == Ok::<u64, Seq<char>>(size_in_bytes(false, w, f, 1024)),
        strings::ascii_upper(u) == seq!['M'] || strings::ascii_upper(u) == seq!['M', 'B']
            || strings::ascii_upper(u) == seq!['M', 'I', 'B'] ==> size_reading(numeral_text(w, f)
            + u) == Ok::<u64, Seq<char>>(size_in_bytes(false, w, f, 1048576)),
        strings::ascii_upper(u) == seq!['G'] || strings::ascii_upper(u) == seq!['G', 'B']
            || strings::ascii_upper(u) == seq!['G', 'I', 'B'] ==> size_reading(numeral_text(w, f)
            + u) == Ok::<u64, Seq<char>>(size_in_bytes(false, w, f, 1073741824)),
        strings::ascii_upper(u) == seq!['T'] || strings::ascii_upper(u) == seq!['T', 'B']
            || strings::ascii_upper(u) == seq!['T', 'I', 'B'] ==> size_reading(numeral_text(w, f)
            + u) == Ok::<u64, Seq<char>>(size_in_bytes(false, w, f, 1099511627776)),
{
    let up = strings::ascii_upper(u);
    if up.len() >= 1 && up.len() <= 3 {
        let l = up[0];
        if l == 'B' || l == 'K' || l == 'M' || l == 'G' || l == 'T' {
            if up == seq![l] || up == seq![l, 'B'] || up == seq![l, 'I', 'B'] {
                assert(multiplier_for(up) == if up == seq!['B'] {
                    Some(1u64)
                } else if l == 'K' {
                    Some(1024u64)
                } else if l == 'M' {
                    Some(1048576u64)
                } else if l == 'G' {
                    Some(1073741824u64)
                } else if l == 'T' {
                    Some(1099511627776u64)
                } else {
                    None
                }) by {
                    assert forall|x: char| x != l implies !is_unit_name(up, x) by {
                        assert(up[0] == l);
                        if up == seq![x] || up == seq![x, 'B'] || up == seq![x, 'I', 'B'] {
                            assert(up[0] == x);
                        }
                    }
                    if l == 'B' && up != seq!['B'] {
                        assert(up[1] == 'B' || up[1] == 'I');
                        assert(up.len() >= 2);
                    }
                }
                if up == seq!['B'] {
                    lemma_unit_reading(w, f, u, 1);
                } else if l == 'K' {
                    lemma_unit_reading(w, f, u, 1024);
                } else if l == 'M' {
                    lemma_unit_reading(w, f, u, 1048576);
                } else if l == 'G' {
                    lemma_unit_reading(w, f, u, 1073741824);
                } else if l == 'T' {
                    lemma_unit_reading(w, f, u, 1099511627776);
                }
            }
        }
    }
}

} // verus!

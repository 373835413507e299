//! Exact fixed-point price codec.
//!
//! Prices and sizes travel on the wire as decimal strings and are held by
//! the engine as integers scaled by [`PRICE_SCALE`] (10^8). The scaled
//! representation gives a total, exact order on prices, which
//! floating-point keys cannot. This module defines the decimal grammar,
//! the scaled value of a decimal string, a verified parser and formatter,
//! and the round-trip law connecting them.

use vstd::prelude::*;
use vstd::string::StrSliceExecFns;
use vstd::string::StringExecFns;

verus! {

/// Number of scaled units per whole price unit: 10^8.
pub const PRICE_SCALE: i64 = 100_000_000;

/// Number of decimal digits carried after the point: 8.
pub const FRAC_DIGITS: usize = 8;

pub open spec fn is_digit(c: char) -> bool {
    '0' as int <= c as int <= '9' as int
}

pub open spec fn digit_val(c: char) -> int {
    c as int - '0' as int
}

pub open spec fn all_digits(s: Seq<char>) -> bool {
    forall|i: int| 0 <= i < s.len() ==> is_digit(#[trigger] s[i])
}

/// Value of a digit string read in base 10 (0 for the empty string).
pub open spec fn digits_val(s: Seq<char>) -> int
    decreases s.len(),
{
    if s.len() == 0 {
        0
    } else {
        digits_val(s.drop_last()) * 10 + digit_val(s.last())
    }
}

pub open spec fn pow10(n: nat) -> int
    decreases n,
{
    if n == 0 {
        1
    } else {
        10 * pow10((n - 1) as nat)
    }
}

/// Index of the first `'.'` in `s`, or `s.len()` if there is none.
pub open spec fn dot_pos(s: Seq<char>) -> int
    decreases s.len(),
{
    if s.len() == 0 {
        0
    } else if s[0] == '.' {
        0
    } else {
        1 + dot_pos(s.skip(1))
    }
}

/// The digits before the first `'.'` (the whole string if no dot).
pub open spec fn int_part(u: Seq<char>) -> Seq<char> {
    u.take(dot_pos(u))
}

/// The characters after the first `'.'` (empty if no dot).
pub open spec fn frac_part(u: Seq<char>) -> Seq<char> {
    if dot_pos(u) < u.len() {
        u.skip(dot_pos(u) + 1)
    } else {
        Seq::<char>::empty()
    }
}

/// An unsigned decimal: digits, at most one dot, at least one digit
/// overall. Both `"1."` and `".5"` are accepted, as `"1"` and `"0.5"` are.
pub open spec fn valid_unsigned(u: Seq<char>) -> bool {
    &&& all_digits(int_part(u))
    &&& all_digits(frac_part(u))
    &&& int_part(u).len() + frac_part(u).len() >= 1
}

pub open spec fn has_sign(s: Seq<char>) -> bool {
    s.len() > 0 && (s[0] == '-' || s[0] == '+')
}

pub open spec fn unsigned_of(s: Seq<char>) -> Seq<char> {
    if has_sign(s) {
        s.skip(1)
    } else {
        s
    }
}

pub open spec fn sign_of(s: Seq<char>) -> int {
    if s.len() > 0 && s[0] == '-' {
        -1
    } else {
        1
    }
}

/// A decimal string in plain notation: an optional sign followed by an
/// unsigned decimal.
pub open spec fn valid_decimal(s: Seq<char>) -> bool {
    valid_unsigned(unsigned_of(s))
}

/// Scaled value of the fractional digits: the first [`FRAC_DIGITS`]
/// digits, right-padded with zeros; further digits are truncated away.
pub open spec fn frac_scaled(fp: Seq<char>) -> int {
    if fp.len() >= FRAC_DIGITS {
        digits_val(fp.take(FRAC_DIGITS as int))
    } else {
        digits_val(fp) * pow10((FRAC_DIGITS - fp.len()) as nat)
    }
}

pub open spec fn unsigned_scaled(u: Seq<char>) -> int {
    digits_val(int_part(u)) * (PRICE_SCALE as int) + frac_scaled(frac_part(u))
}

/// The mathematical scaled value of a decimal string.
pub open spec fn decimal_scaled(s: Seq<char>) -> int {
    sign_of(s) * unsigned_scaled(unsigned_of(s))
}

/// What parsing a price string yields: its scaled value, when the string
/// is a plain decimal and the value fits in an `i64`.
pub open spec fn spec_parse_scaled(s: Seq<char>) -> Option<i64> {
    if valid_decimal(s) && i64::MIN <= decimal_scaled(s) <= i64::MAX {
        Some(decimal_scaled(s) as i64)
    } else {
        None
    }
}

pub proof fn lemma_dot_pos_bounds(u: Seq<char>)
    ensures
        0 <= dot_pos(u) <= u.len(),
        dot_pos(u) < u.len() ==> u[dot_pos(u)] == '.',
        forall|j: int| 0 <= j < dot_pos(u) ==> #[trigger] u[j] != '.',
    decreases u.len(),
{
    if u.len() == 0 {
    } else if u[0] == '.' {
    } else {
        lemma_dot_pos_bounds(u.skip(1));
        assert forall|j: int| 0 <= j < dot_pos(u) implies #[trigger] u[j] != '.' by {
            if j > 0 {
                assert(u.skip(1)[j - 1] == u[j]);
            }
        }
    }
}

/// If the first `k` characters hold no dot and position `k` is a dot or
/// the end, then `k` is exactly the first-dot position.
pub proof fn lemma_dot_pos_at(u: Seq<char>, k: int)
    requires
        0 <= k <= u.len(),
        forall|j: int| 0 <= j < k ==> #[trigger] u[j] != '.',
        k < u.len() ==> u[k] == '.',
    ensures
        dot_pos(u) == k,
{
    lemma_dot_pos_bounds(u);
    if dot_pos(u) < k {
        assert(u[dot_pos(u)] == '.');
    }
}

pub proof fn lemma_digits_val_nonneg(s: Seq<char>)
    requires
        all_digits(s),
    ensures
        digits_val(s) >= 0,
    decreases s.len(),
{
    if s.len() > 0 {
        assert(all_digits(s.drop_last()));
        lemma_digits_val_nonneg(s.drop_last());
        assert(is_digit(s.last()));
    }
}

pub proof fn lemma_digits_val_bound(s: Seq<char>)
    requires
        all_digits(s),
    ensures
        0 <= digits_val(s) < pow10(s.len() as nat),
    decreases s.len(),
{
    if s.len() == 0 {
    } else {
        assert(all_digits(s.drop_last()));
        lemma_digits_val_bound(s.drop_last());
        assert(is_digit(s.last()));
        assert(pow10(s.len() as nat) == 10 * pow10(s.drop_last().len() as nat));
    }
}

pub proof fn lemma_pow10_pos(n: nat)
    ensures
        pow10(n) >= 1,
    decreases n,
{
    if n > 0 {
        lemma_pow10_pos((n - 1) as nat);
    }
}

/// What parsing an unsigned integer string yields: its value, when the
/// string is all digits (at least one) and the value fits in a `u64`.
pub open spec fn spec_parse_u64(s: Seq<char>) -> Option<u64> {
    if all_digits(s) && s.len() >= 1 && digits_val(s) <= u64::MAX {
        Some(digits_val(s) as u64)
    } else {
        None
    }
}

pub proof fn lemma_pow10_add(a: nat, b: nat)
    ensures
        pow10(a) * pow10(b) == pow10(a + b),
    decreases a,
{
    if a == 0 {
        assert(pow10(0) * pow10(b) == pow10(b));
    } else {
        lemma_pow10_add((a - 1) as nat, b);
        assert(pow10(a) == 10 * pow10((a - 1) as nat));
        assert((10 * pow10((a - 1) as nat)) * pow10(b) == 10 * (pow10((a - 1) as nat) * pow10(b)))
            by (nonlinear_arith);
    }
}

pub proof fn lemma_pow10_8()
    ensures
        pow10(8) == 100_000_000,
{
    reveal_with_fuel(pow10, 9);
}

pub proof fn lemma_pow10_mono(a: nat, b: nat)
    requires
        a <= b,
    ensures
        pow10(a) <= pow10(b),
    decreases b,
{
    if a < b {
        lemma_pow10_mono(a, (b - 1) as nat);
        lemma_pow10_pos((b - 1) as nat);
    }
}

fn pow10_i128(e: usize) -> (r: i128)
    requires
        e <= 8,
    ensures
        r == pow10(e as nat),
        1 <= r <= 100_000_000,
{
    let mut r: i128 = 1;
    let mut k: usize = 0;
    while k < e
        invariant
            k <= e <= 8,
            r == pow10(k as nat),
            1 <= r <= 100_000_000,
        decreases e - k,
    {
        proof {
            lemma_pow10_pos(k as nat);
            assert(pow10((k + 1) as nat) == 10 * pow10(k as nat));
            lemma_pow10_8();
            lemma_pow10_mono((k + 1) as nat, 8);
        }
        r = r * 10;
        k = k + 1;
    }
    r
}

/// Scan decimal digits of `s` starting at `from`, accumulating their
/// value with a cap: the accumulator is exact while the value stays at
/// most `lim` and is pinned to `lim + 1` once the value exceeds `lim`.
pub(crate) fn scan_digits(s: &str, n: usize, from: usize, lim: i128) -> (r: (usize, i128, usize))
    requires
        n == s@.len(),
        from <= n,
        0 <= lim <= 0x1_0000_0000_0000_0000i128,
    ensures
        from <= r.0 <= n,
        r.2 == r.0 - from,
        all_digits(s@.subrange(from as int, r.0 as int)),
        r.0 < n ==> !is_digit(s@[r.0 as int]),
        digits_val(s@.subrange(from as int, r.0 as int)) <= lim ==> r.1 == digits_val(
            s@.subrange(from as int, r.0 as int),
        ),
        digits_val(s@.subrange(from as int, r.0 as int)) > lim ==> r.1 == lim + 1,
        0 <= r.1 <= lim + 1,
    decreases n - from,
{
    let mut i: usize = from;
    let mut acc: i128 = 0;
    loop
        invariant
            n == s@.len(),
            from <= i <= n,
            0 <= lim <= 0x1_0000_0000_0000_0000i128,
            all_digits(s@.subrange(from as int, i as int)),
            digits_val(s@.subrange(from as int, i as int)) <= lim ==> acc == digits_val(
                s@.subrange(from as int, i as int),
            ),
            digits_val(s@.subrange(from as int, i as int)) > lim ==> acc == lim + 1,
            0 <= acc <= lim + 1,
        ensures
            i == n || !is_digit(s@[i as int]),
        decreases n - i,
    {
        if i == n {
            break ;
        }
        let c: char = s.get_char(i);
        let cv: u32 = c as u32;
        if !(cv >= 48 && cv <= 57) {
            proof {
                assert(!is_digit(s@[i as int]));
            }
            break ;
        }
        let d: i128 = (cv - 48) as i128;
        proof {
            let pre = s@.subrange(from as int, i as int);
            let post = s@.subrange(from as int, i as int + 1);
            assert(post.drop_last() =~= pre);
            assert(post.last() == s@[i as int]);
            assert(is_digit(s@[i as int]));
            assert(forall|j: int| 0 <= j < pre.len() ==> #[trigger] post[j] == pre[j]);
            assert(all_digits(post));
            assert(digits_val(post) == digits_val(pre) * 10 + digit_val(s@[i as int]));
            lemma_digits_val_nonneg(pre);
            assert(digit_val(s@[i as int]) == d);
        }
        if acc > lim {
            acc = lim + 1;
        } else {
            let t: i128 = acc * 10 + d;
            if t > lim {
                acc = lim + 1;
            } else {
                acc = t;
            }
        }
        i = i + 1;
    }
    (i, acc, i - from)
}

/// Parse a plain decimal string (optional sign, digits, optional dot,
/// fractional digits) into its value scaled by [`PRICE_SCALE`].
///
/// Returns `None` exactly when the string does not match the grammar or
/// the scaled value does not fit in an `i64`. Fractional digits past the
/// eighth are truncated away, as the scaled representation demands.
pub fn parse_scaled(s: &str) -> (r: Option<i64>)
    ensures
        r == spec_parse_scaled(s@),
{
    let n: usize = s.unicode_len();
    let ghost sv: Seq<char> = s@;
    let mut start: usize = 0;
    let mut neg: bool = false;
    if n > 0 {
        let c0: char = s.get_char(0);
        if c0 == '-' {
            neg = true;
            start = 1;
        } else if c0 == '+' {
            start = 1;
        }
    }
    let lim: i128 = 0x8000_0000_0000_0000i128;
    let ghost u: Seq<char> = unsigned_of(sv);
    proof {
        assert(u =~= sv.skip(start as int));
        assert(sign_of(sv) == if neg { -1int } else { 1int });
    }

    let (ip_end, ip_acc, ip_len) = scan_digits(s, n, start, lim);
    let ghost ipart = sv.subrange(start as int, ip_end as int);
    proof {
        assert(ipart =~= u.take(ip_len as int));
        assert forall|j: int| 0 <= j < ip_len implies is_digit(#[trigger] u[j]) by {
            assert(u[j] == sv[start + j]);
            assert(ipart[j] == sv[start + j]);
        }
        assert forall|j: int| 0 <= j < ip_len implies #[trigger] u[j] != '.' by {
            assert(is_digit(u[j]));
        }
    }

    let mut frac_acc: i128 = 0;
    let mut frac_len: usize = 0;
    let mut end: usize = ip_end;
    let mut saw_dot: bool = false;

    if ip_end < n {
        let c: char = s.get_char(ip_end);
        if c != '.' {
            // A character that is neither a digit, a dot, nor the end:
            // the string is not a plain decimal.
            proof {
                lemma_dot_pos_bounds(u);
                let k: int = ip_len as int;
                assert(u[k] == sv[ip_end as int]);
                if dot_pos(u) <= k {
                    assert(u[dot_pos(u)] == '.');
                    if dot_pos(u) < k {
                        assert(is_digit(u[dot_pos(u)]));
                    }
                    assert(false);
                }
                assert(int_part(u)[k] == u[k]);
                assert(!is_digit(int_part(u)[k]));
                assert(!valid_unsigned(u));
            }
            return None;
        }
        saw_dot = true;
        let (f_end, f_acc, f_len) = scan_digits(s, n, ip_end + 1, lim);
        frac_acc = f_acc;
        frac_len = f_len;
        end = f_end;
    }

    proof {
        if saw_dot {
            assert(u[ip_len as int] == sv[ip_end as int]);
            lemma_dot_pos_at(u, ip_len as int);
            assert(int_part(u) =~= ipart);
            assert(frac_part(u) =~= sv.subrange(ip_end as int + 1, n as int));
        } else {
            lemma_dot_pos_at(u, ip_len as int);
            assert(int_part(u) =~= ipart);
            assert(frac_part(u) =~= Seq::<char>::empty());
        }
    }

    if end < n {
        // A non-digit inside the fractional part: not a plain decimal.
        proof {
            let fp = frac_part(u);
            let scanned = sv.subrange(ip_end as int + 1, end as int);
            assert(fp[frac_len as int] == sv[end as int]);
            assert(!is_digit(fp[frac_len as int]));
            assert(!valid_unsigned(u));
        }
        return None;
    }

    if ip_len == 0 && frac_len == 0 {
        // No digits at all.
        proof {
            assert(int_part(u).len() + frac_part(u).len() == 0);
        }
        return None;
    }

    let ghost fp = frac_part(u);
    proof {
        if saw_dot {
            assert(fp =~= sv.subrange(ip_end as int + 1, end as int));
            assert(fp.len() == frac_len);
            assert(all_digits(fp));
        } else {
            assert(fp.len() == 0);
            assert(frac_len == 0);
        }
        assert(all_digits(int_part(u)));
        assert(valid_unsigned(u));
        assert(valid_decimal(sv));
        lemma_digits_val_nonneg(fp);
    }

    // The fractional value scaled to 8 digits: digits past the eighth
    // are truncated; fewer than eight are padded with zeros.
    let f8: i128;
    if frac_len >= FRAC_DIGITS {
        f8 = frac_prefix(s, n, ip_end + 1);
        proof {
            let f8p = fp.take(FRAC_DIGITS as int);
            assert(f8p =~= sv.subrange(ip_end as int + 1, ip_end as int + 1 + FRAC_DIGITS as int));
            assert(f8 == digits_val(f8p));
            assert(f8 == frac_scaled(fp));
            assert forall|j: int| 0 <= j < f8p.len() implies is_digit(#[trigger] f8p[j]) by {
                assert(f8p[j] == fp[j]);
            }
            lemma_digits_val_bound(f8p);
            lemma_pow10_8();
            assert(0 <= f8 < 100_000_000);
        }
    } else {
        proof {
            lemma_digits_val_bound(fp);
            lemma_pow10_mono(fp.len() as nat, 8);
            lemma_pow10_8();
            assert(digits_val(fp) <= lim);
            assert(frac_acc == digits_val(fp));
        }
        let mult: i128 = pow10_i128(FRAC_DIGITS - frac_len);
        proof {
            lemma_pow10_add(fp.len() as nat, (FRAC_DIGITS - fp.len()) as nat);
            lemma_mul_bound_small(digits_val(fp), pow10(fp.len() as nat), mult as int);
            assert(frac_acc * mult == frac_scaled(fp));
        }
        f8 = frac_acc * mult;
        proof {
            assert(0 <= f8 < 100_000_000);
        }
    }

    let ghost dv = digits_val(int_part(u));
    if ip_acc > lim {
        // The integer part alone already exceeds any representable price.
        proof {
            lemma_digits_val_nonneg(int_part(u));
            assert(dv > lim);
            assert(dv * (PRICE_SCALE as int) >= dv * 1) by (nonlinear_arith)
                requires
                    dv > 0,
            ;
            assert(unsigned_scaled(u) > lim);
            if neg {
                assert(decimal_scaled(sv) == -1 * unsigned_scaled(u));
                assert(decimal_scaled(sv) < i64::MIN);
            } else {
                assert(decimal_scaled(sv) > i64::MAX);
            }
        }
        return None;
    }

    proof {
        assert(ip_acc == dv);
        lemma_digits_val_nonneg(int_part(u));
        assert(ip_acc * (PRICE_SCALE as i128) >= 0) by (nonlinear_arith)
            requires
                ip_acc >= 0,
        ;
        assert(ip_acc * (PRICE_SCALE as i128) <= lim * (PRICE_SCALE as i128)) by (nonlinear_arith)
            requires
                0 <= ip_acc <= lim,
        ;
    }
    let total: i128 = ip_acc * (PRICE_SCALE as i128) + f8;
    proof {
        assert(total == unsigned_scaled(u));
    }
    if neg {
        if total > lim {
            proof {
                assert(decimal_scaled(sv) == -1 * unsigned_scaled(u));
                assert(decimal_scaled(sv) < i64::MIN);
            }
            return None;
        }
        proof {
            assert(decimal_scaled(sv) == -1 * unsigned_scaled(u));
            assert(i64::MIN <= decimal_scaled(sv) <= i64::MAX);
        }
        Some((-total) as i64)
    } else {
        if total > lim - 1 {
            proof {
                assert(decimal_scaled(sv) == unsigned_scaled(u));
                assert(decimal_scaled(sv) > i64::MAX);
            }
            return None;
        }
        proof {
            assert(decimal_scaled(sv) == unsigned_scaled(u));
            assert(i64::MIN <= decimal_scaled(sv) <= i64::MAX);
        }
        Some(total as i64)
    }
}

/// Value of exactly the first [`FRAC_DIGITS`] digits at `from`.
fn frac_prefix(s: &str, n: usize, from: usize) -> (r: i128)
    requires
        n == s@.len(),
        from + FRAC_DIGITS <= n,
        all_digits(s@.subrange(from as int, from as int + FRAC_DIGITS as int)),
    ensures
        r == digits_val(s@.subrange(from as int, from as int + FRAC_DIGITS as int)),
        0 <= r < 100_000_000,
{
    let mut i: usize = from;
    let mut acc: i128 = 0;
    while i < from + FRAC_DIGITS
        invariant
            n == s@.len(),
            from <= i <= from + FRAC_DIGITS <= n,
            all_digits(s@.subrange(from as int, from as int + FRAC_DIGITS as int)),
            acc == digits_val(s@.subrange(from as int, i as int)),
            0 <= acc < 100_000_000,
        decreases from + FRAC_DIGITS - i,
    {
        let c: char = s.get_char(i);
        let cv: u32 = c as u32;
        proof {
            let whole = s@.subrange(from as int, from as int + FRAC_DIGITS as int);
            assert(whole[i - from] == s@[i as int]);
            assert(is_digit(s@[i as int]));
            let pre = s@.subrange(from as int, i as int);
            let post = s@.subrange(from as int, i as int + 1);
            assert(post.drop_last() =~= pre);
            assert(post.last() == s@[i as int]);
            assert(digits_val(post) == digits_val(pre) * 10 + digit_val(s@[i as int]));
            assert(forall|j: int| 0 <= j < post.len() ==> #[trigger] post[j] == whole[j]);
            assert(all_digits(post));
            lemma_digits_val_bound(post);
            lemma_pow10_mono(post.len() as nat, 8);
            lemma_pow10_8();
        }
        let d: i128 = (cv - 48) as i128;
        acc = acc * 10 + d;
        i = i + 1;
    }
    proof {
        lemma_digits_val_nonneg(s@.subrange(from as int, from as int + FRAC_DIGITS as int));
    }
    acc
}

proof fn lemma_mul_bound_small(v: int, bound: int, mult: int)
    requires
        0 <= v < bound,
        1 <= mult,
        bound * mult <= 100_000_000,
    ensures
        0 <= v * mult < 100_000_000,
{
    assert(0 <= v * mult && v * mult <= (bound - 1) * mult && (bound - 1) * mult < bound * mult)
        by (nonlinear_arith)
        requires
            0 <= v < bound,
            1 <= mult,
    ;
}


/// Parse an unsigned decimal integer.
///
/// Returns `None` exactly when the string is empty, holds a non-digit,
/// or the value does not fit in a `u64`.
pub fn parse_u64(s: &str) -> (r: Option<u64>)
    ensures
        r == spec_parse_u64(s@),
{
    let n: usize = s.unicode_len();
    let lim: i128 = 0xffff_ffff_ffff_ffffi128;
    let (end, acc, len) = scan_digits(s, n, 0, lim);
    if end < n {
        proof {
            assert(s@.subrange(0, n as int) =~= s@);
            assert(!is_digit(s@[end as int]));
        }
        return None;
    }
    proof {
        assert(s@.subrange(0, end as int) =~= s@);
    }
    if len == 0 {
        return None;
    }
    if acc > lim {
        proof {
            assert(digits_val(s@) > u64::MAX);
        }
        return None;
    }
    proof {
        lemma_digits_val_nonneg(s@);
    }
    Some(acc as u64)
}

pub open spec fn digit_char(d: int) -> char {
    if d == 0 {
        '0'
    } else if d == 1 {
        '1'
    } else if d == 2 {
        '2'
    } else if d == 3 {
        '3'
    } else if d == 4 {
        '4'
    } else if d == 5 {
        '5'
    } else if d == 6 {
        '6'
    } else if d == 7 {
        '7'
    } else if d == 8 {
        '8'
    } else {
        '9'
    }
}

/// Decimal digit string of `x`, most significant digit first, no
/// leading zeros (a single `'0'` for zero).
pub open spec fn digits_of(x: nat) -> Seq<char>
    decreases x,
{
    if x < 10 {
        seq![digit_char(x as int)]
    } else {
        digits_of(x / 10) + seq![digit_char((x % 10) as int)]
    }
}

/// The `w` least significant decimal digits of `x`, zero-padded on the
/// left.
pub open spec fn padded_digits(x: nat, w: nat) -> Seq<char>
    decreases w,
{
    if w == 0 {
        Seq::<char>::empty()
    } else {
        padded_digits(x / 10, (w - 1) as nat) + seq![digit_char((x % 10) as int)]
    }
}

/// Canonical decimal rendering of a nonnegative scaled value: the whole
/// part, then — only when the fractional part is nonzero — a dot and
/// all eight fractional digits.
pub open spec fn spec_format_unsigned(n: int) -> Seq<char> {
    let ip = n / (PRICE_SCALE as int);
    let fp = n % (PRICE_SCALE as int);
    if fp == 0 {
        digits_of(ip as nat)
    } else {
        digits_of(ip as nat) + seq!['.'] + padded_digits(fp as nat, FRAC_DIGITS as nat)
    }
}

/// Canonical decimal rendering of a scaled value.
pub open spec fn spec_format_scaled(n: int) -> Seq<char> {
    if n < 0 {
        seq!['-'] + spec_format_unsigned(-n)
    } else {
        spec_format_unsigned(n)
    }
}

pub proof fn lemma_digit_char(d: int)
    requires
        0 <= d <= 9,
    ensures
        is_digit(digit_char(d)),
        digit_val(digit_char(d)) == d,
{
}

pub proof fn lemma_digits_of(x: nat)
    ensures
        all_digits(digits_of(x)),
        digits_of(x).len() >= 1,
        digits_val(digits_of(x)) == x,
    decreases x,
{
    if x < 10 {
        lemma_digit_char(x as int);
        assert(digits_of(x) =~= seq![digit_char(x as int)]);
        assert(digits_of(x).len() == 1);
        assert(digits_of(x).last() == digit_char(x as int));
        assert(digits_of(x).drop_last() =~= Seq::<char>::empty());
        assert(digits_val(digits_of(x)) == digits_val(digits_of(x).drop_last()) * 10 + digit_val(
            digits_of(x).last(),
        ));
    } else {
        lemma_digits_of(x / 10);
        lemma_digit_char((x % 10) as int);
        let a = digits_of(x / 10);
        let s = digits_of(x);
        assert(s == a + seq![digit_char((x % 10) as int)]);
        assert(s.drop_last() =~= a);
        assert(s.last() == digit_char((x % 10) as int));
        assert(digits_val(s) == digits_val(a) * 10 + (x % 10));
        assert(forall|j: int| 0 <= j < a.len() ==> #[trigger] s[j] == a[j]);
        assert(all_digits(s));
    }
}

pub proof fn lemma_padded_digits(x: nat, w: nat)
    requires
        x < pow10(w),
    ensures
        all_digits(padded_digits(x, w)),
        padded_digits(x, w).len() == w,
        digits_val(padded_digits(x, w)) == x,
    decreases w,
{
    if w == 0 {
        lemma_pow10_pos(0);
    } else {
        assert(pow10(w) == 10 * pow10((w - 1) as nat));
        assert(x / 10 < pow10((w - 1) as nat)) by (nonlinear_arith)
            requires
                x < 10 * pow10((w - 1) as nat),
                pow10((w - 1) as nat) >= 1,
        {
            lemma_pow10_pos((w - 1) as nat);
        }
        lemma_pow10_pos((w - 1) as nat);
        lemma_padded_digits(x / 10, (w - 1) as nat);
        lemma_digit_char((x % 10) as int);
        let a = padded_digits(x / 10, (w - 1) as nat);
        let s = padded_digits(x, w);
        assert(s == a + seq![digit_char((x % 10) as int)]);
        assert(s.drop_last() =~= a);
        assert(s.last() == digit_char((x % 10) as int));
        assert(digits_val(s) == digits_val(a) * 10 + (x % 10));
        assert(forall|j: int| 0 <= j < a.len() ==> #[trigger] s[j] == a[j]);
        assert(all_digits(s));
    }
}

fn append_digit(out: &mut String, d: u64)
    requires
        d < 10,
    ensures
        final(out)@ == old(out)@ + seq![digit_char(d as int)],
{
    if d == 0 {
        proof {
            reveal_strlit("0");
        }
        out.append("0");
    } else if d == 1 {
        proof {
            reveal_strlit("1");
        }
        out.append("1");
    } else if d == 2 {
        proof {
            reveal_strlit("2");
        }
        out.append("2");
    } else if d == 3 {
        proof {
            reveal_strlit("3");
        }
        out.append("3");
    } else if d == 4 {
        proof {
            reveal_strlit("4");
        }
        out.append("4");
    } else if d == 5 {
        proof {
            reveal_strlit("5");
        }
        out.append("5");
    } else if d == 6 {
        proof {
            reveal_strlit("6");
        }
        out.append("6");
    } else if d == 7 {
        proof {
            reveal_strlit("7");
        }
        out.append("7");
    } else if d == 8 {
        proof {
            reveal_strlit("8");
        }
        out.append("8");
    } else {
        proof {
            reveal_strlit("9");
        }
        out.append("9");
    }
    proof {
        assert(final(out)@ =~= old(out)@ + seq![digit_char(d as int)]);
    }
}

fn append_u64(out: &mut String, x: u64)
    ensures
        final(out)@ == old(out)@ + digits_of(x as nat),
    decreases x,
{
    if x < 10 {
        append_digit(out, x);
    } else {
        append_u64(out, x / 10);
        append_digit(out, x % 10);
        proof {
            assert((old(out)@ + digits_of((x / 10) as nat)) + seq![
                digit_char((x % 10) as int),
            ] =~= old(out)@ + digits_of(x as nat));
        }
    }
}

fn append_padded(out: &mut String, x: u64, w: usize)
    requires
        x < pow10(w as nat),
        w <= 8,
    ensures
        final(out)@ == old(out)@ + padded_digits(x as nat, w as nat),
    decreases w,
{
    if w == 0 {
    } else {
        proof {
            assert(pow10(w as nat) == 10 * pow10((w - 1) as nat));
            assert(x / 10 < pow10((w - 1) as nat)) by (nonlinear_arith)
                requires
                    x < 10 * pow10((w - 1) as nat),
                    pow10((w - 1) as nat) >= 1,
            {
                lemma_pow10_pos((w - 1) as nat);
            }
        }
        append_padded(out, x / 10, w - 1);
        append_digit(out, x % 10);
        proof {
            assert((old(out)@ + padded_digits((x / 10) as nat, (w - 1) as nat)) + seq![
                digit_char((x % 10) as int),
            ] =~= old(out)@ + padded_digits(x as nat, w as nat));
        }
    }
}

/// Decimal digit string of an unsigned integer.
pub fn format_u64(x: u64) -> (r: String)
    ensures
        r@ == digits_of(x as nat),
{
    let mut out = String::new();
    append_u64(&mut out, x);
    proof {
        assert(out@ =~= digits_of(x as nat));
    }
    out
}

/// Canonical decimal rendering of a scaled value (inverse of
/// [`parse_scaled`] on everything it produces).
pub fn format_scaled(n: i64) -> (r: String)
    ensures
        r@ == spec_format_scaled(n as int),
{
    let mut out = String::new();
    let mag: u64;
    if n < 0 {
        proof {
            reveal_strlit("-");
        }
        out.append("-");
        mag = (-(n as i128)) as u64;
    } else {
        mag = n as u64;
    }
    let ip: u64 = mag / 100_000_000;
    let fp: u64 = mag % 100_000_000;
    append_u64(&mut out, ip);
    if fp > 0 {
        proof {
            reveal_strlit(".");
            lemma_pow10_8();
        }
        out.append(".");
        append_padded(&mut out, fp, FRAC_DIGITS);
    }
    proof {
        if n < 0 {
            assert(mag == -(n as int));
        } else {
            assert(mag == n as int);
        }
        assert(ip == (mag as int) / (PRICE_SCALE as int));
        assert(fp == (mag as int) % (PRICE_SCALE as int));
        if fp == 0 {
            if n < 0 {
                assert(out@ =~= seq!['-'] + digits_of(ip as nat));
                assert(out@ =~= spec_format_scaled(n as int));
            } else {
                assert(out@ =~= spec_format_scaled(n as int));
            }
        } else {
            if n < 0 {
                assert(out@ =~= seq!['-'] + (digits_of(ip as nat) + seq!['.'] + padded_digits(
                    fp as nat,
                    FRAC_DIGITS as nat,
                )));
                assert(out@ =~= spec_format_scaled(n as int));
            } else {
                assert(out@ =~= digits_of(ip as nat) + seq!['.'] + padded_digits(
                    fp as nat,
                    FRAC_DIGITS as nat,
                ));
            }
        }
    }
    out
}

/// Price round-trip law: every nonnegative scaled price — every price
/// with up to eight decimal digits — parses back from its canonical
/// rendering to exactly the same scaled value.
pub proof fn lemma_price_round_trip(n: i64)
    requires
        n >= 0,
    ensures
        spec_parse_scaled(spec_format_scaled(n as int)) == Some(n),
{
    lemma_pow10_8();
    let scale = PRICE_SCALE as int;
    let ip = (n as int) / scale;
    let fp = (n as int) % scale;
    let a = digits_of(ip as nat);
    lemma_digits_of(ip as nat);
    let s = spec_format_scaled(n as int);
    if fp == 0 {
        assert(s == a);
        assert(is_digit(s[0]));
        assert(!has_sign(s));
        assert(unsigned_of(s) == s);
        assert forall|j: int| 0 <= j < s.len() implies #[trigger] s[j] != '.' by {
            assert(is_digit(s[j]));
        }
        lemma_dot_pos_at(s, s.len() as int);
        assert(int_part(s) =~= s);
        assert(frac_part(s) =~= Seq::<char>::empty());
        assert(valid_unsigned(s));
        assert(frac_scaled(frac_part(s)) == 0);
        assert(unsigned_scaled(s) == ip * scale);
        assert(ip * scale == n as int);
        assert(decimal_scaled(s) == n as int);
    } else {
        let b = padded_digits(fp as nat, FRAC_DIGITS as nat);
        lemma_padded_digits(fp as nat, FRAC_DIGITS as nat);
        assert(s == a + seq!['.'] + b);
        assert(s[0] == a[0]);
        assert(is_digit(s[0]));
        assert(!has_sign(s));
        assert(unsigned_of(s) == s);
        assert forall|j: int| 0 <= j < a.len() implies #[trigger] s[j] != '.' by {
            assert(s[j] == a[j]);
            assert(is_digit(a[j]));
        }
        assert(s[a.len() as int] == '.');
        lemma_dot_pos_at(s, a.len() as int);
        assert(int_part(s) =~= a);
        assert(frac_part(s) =~= b);
        assert(valid_unsigned(s));
        assert(b.len() == FRAC_DIGITS);
        assert(b.take(FRAC_DIGITS as int) =~= b);
        assert(frac_scaled(frac_part(s)) == fp);
        assert(unsigned_scaled(s) == ip * scale + fp);
        assert(ip * scale + fp == n as int);
        assert(decimal_scaled(s) == n as int);
    }
}

} // verus!

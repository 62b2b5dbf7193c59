//! Decimal numbers in text: unsigned integers, and non-negative decimals held
//! in millionths.

use vstd::prelude::*;
use vstd::string::StrSliceExecFns;

verus! {

pub open spec fn is_digit(c: char) -> bool {
    '0' <= c <= '9'
}

pub open spec fn digit_value(c: char) -> int {
    c as int - '0' as int
}

pub open spec fn all_digits(s: Seq<char>) -> bool {
    forall|i: int| 0 <= i < s.len() ==> is_digit(#[trigger] s[i])
}

/// The value of a string of decimal digits.
pub open spec fn digits_value(s: Seq<char>) -> int
    decreases s.len(),
{
    if s.len() == 0 {
        0
    } else {
        10 * digits_value(s.drop_last()) + digit_value(s.last())
    }
}

pub open spec fn pow10(n: nat) -> int
    decreases n,
{
    if n == 0 {
        1
    } else {
        10 * pow10((n - 1) as nat)
    }
}

/// The value of an unsigned integer as `str::parse` reads it: an optional `+`,
/// then one or more digits.
pub open spec fn unsigned_value(s: Seq<char>) -> Option<int> {
    let d = if s.len() > 0 && s[0] == '+' {
        s.drop_first()
    } else {
        s
    };
    if d.len() > 0 && all_digits(d) {
        Some(digits_value(d))
    } else {
        None
    }
}

/// Millionths in the fraction digits `f`, rounded half up at the seventh digit.
pub open spec fn fraction_micros(f: Seq<char>) -> int {
    if f.len() <= 6 {
        digits_value(f) * pow10((6 - f.len()) as nat)
    } else {
        digits_value(f.subrange(0, 6)) + if digit_value(f[6]) >= 5 {
            1int
        } else {
            0int
        }
    }
}

/// `p` is the position of the first `.` in `s`.
pub open spec fn first_dot(s: Seq<char>, p: int) -> bool {
    0 <= p < s.len() && s[p] == '.' && forall|q: int| 0 <= q < p ==> s[q] != '.'
}

/// The value in millionths of a decimal `digits[.digits]`, rounded half up.
pub open spec fn decimal_micros(s: Seq<char>) -> Option<int> {
    if exists|p: int| first_dot(s, p) {
        let p = choose|p: int| first_dot(s, p);
        let ip = s.subrange(0, p);
        let fp = s.subrange(p + 1, s.len() as int);
        if ip.len() > 0 && all_digits(ip) && fp.len() > 0 && all_digits(fp) {
            Some(digits_value(ip) * 1_000_000 + fraction_micros(fp))
        } else {
            None
        }
    } else if s.len() > 0 && all_digits(s) {
        Some(digits_value(s) * 1_000_000)
    } else {
        None
    }
}

proof fn lemma_digits_push(s: Seq<char>, c: char)
    ensures
        digits_value(s.push(c)) == 10 * digits_value(s) + digit_value(c),
{
    assert(s.push(c).drop_last() =~= s);
}

proof fn lemma_digits_nonneg(s: Seq<char>)
    requires
        all_digits(s),
    ensures
        digits_value(s) >= 0,
    decreases s.len(),
{
    if s.len() > 0 {
        assert(all_digits(s.drop_last()));
        lemma_digits_nonneg(s.drop_last());
    }
}

/// A longer run of digits is worth at least as much as its prefix.
proof fn lemma_digits_prefix(s: Seq<char>, m: int)
    requires
        0 <= m <= s.len(),
        all_digits(s),
    ensures
        digits_value(s.subrange(0, m)) <= digits_value(s),
    decreases s.len() - m,
{
    if m < s.len() {
        assert(s.subrange(0, m + 1) =~= s.subrange(0, m).push(s[m]));
        lemma_digits_push(s.subrange(0, m), s[m]);
        assert(all_digits(s.subrange(0, m)));
        lemma_digits_nonneg(s.subrange(0, m));
        lemma_digits_prefix(s, m + 1);
    } else {
        assert(s.subrange(0, m) =~= s);
    }
}

/// Reads the digits `s[from..to]`; `None` when one is not a digit or the value exceeds
/// `limit`.
fn digits_upto(s: &str, from: usize, to: usize, limit: u64) -> (r: Option<u64>)
    requires
        from <= to <= s@.len(),
    ensures
        r matches Some(v) ==> all_digits(s@.subrange(from as int, to as int)) && v == digits_value(
            s@.subrange(from as int, to as int),
        ) && v <= limit,
        r is None ==> !all_digits(s@.subrange(from as int, to as int)) || digits_value(
            s@.subrange(from as int, to as int),
        ) > limit,
{
    let ghost whole = s@.subrange(from as int, to as int);
    let mut acc: u64 = 0;
    let mut i: usize = from;
    assert(s@.subrange(from as int, from as int) =~= Seq::<char>::empty());
    while i < to
        invariant
            from <= i <= to <= s@.len(),
            whole == s@.subrange(from as int, to as int),
            all_digits(s@.subrange(from as int, i as int)),
            acc == digits_value(s@.subrange(from as int, i as int)),
            acc <= limit,
        decreases to - i,
    {
        let c = s.get_char(i);
        assert(s@.subrange(from as int, i + 1) =~= s@.subrange(from as int, i as int).push(c));
        if !('0' <= c && c <= '9') {
            assert(whole[i - from] == c);
            return None;
        }
        let d = (c as u32 - '0' as u32) as u64;
        proof {
            lemma_digits_push(s@.subrange(from as int, i as int), c);
        }
        if d > limit || acc > (limit - d) / 10 {
            proof {
                if d <= limit {
                    assert(10 * acc + d > limit) by (nonlinear_arith)
                        requires
                            acc > (limit - d) / 10,
                            d <= limit,
                    ;
                }
                assert(all_digits(s@.subrange(from as int, i + 1)));
                if all_digits(whole) {
                    assert(whole.subrange(0, i + 1 - from) =~= s@.subrange(from as int, i + 1));
                    lemma_digits_prefix(whole, i + 1 - from);
                }
            }
            return None;
        }
        acc = acc * 10 + d;
        i = i + 1;
    }
    Some(acc)
}

/// Reads an unsigned integer as `str::parse` does (an optional `+`, then digits);
/// `None` when the text is not one or the value exceeds `limit`.
pub fn parse_unsigned(s: &str, limit: u64) -> (r: Option<u64>)
    ensures
        r matches Some(v) ==> unsigned_value(s@) == Some(v as int) && v <= limit,
        r is None ==> (unsigned_value(s@) matches Some(v) ==> v > limit),
{
    let n = s.unicode_len();
    let from: usize = if n > 0 && s.get_char(0) == '+' {
        1
    } else {
        0
    };
    let ghost d = if s@.len() > 0 && s@[0] == '+' {
        s@.drop_first()
    } else {
        s@
    };
    assert(d =~= s@.subrange(from as int, n as int));
    if from == n {
        return None;
    }
    digits_upto(s, from, n, limit)
}

/// Whether `s[from..to]` holds digits only.
fn digits_only(s: &str, from: usize, to: usize) -> (r: bool)
    requires
        from <= to <= s@.len(),
    ensures
        r == all_digits(s@.subrange(from as int, to as int)),
{
    let mut i: usize = from;
    while i < to
        invariant
            from <= i <= to <= s@.len(),
            forall|j: int| from <= j < i ==> is_digit(#[trigger] s@[j]),
        decreases to - i,
    {
        let c = s.get_char(i);
        if !('0' <= c && c <= '9') {
            assert(s@.subrange(from as int, to as int)[i - from] == c);
            return false;
        }
        i = i + 1;
    }
    assert forall|j: int| 0 <= j < to - from implies is_digit(#[trigger] s@.subrange(from as int, to as int)[j]) by {
        assert(s@.subrange(from as int, to as int)[j] == s@[from + j]);
    }
    true
}

/// Millionths in the fraction digits `s[from..to]`, which are all digits.
fn fraction_value(s: &str, from: usize, to: usize) -> (r: u64)
    requires
        from < to <= s@.len(),
        all_digits(s@.subrange(from as int, to as int)),
    ensures
        r == fraction_micros(s@.subrange(from as int, to as int)),
        r <= 1_000_000,
{
    let ghost f = s@.subrange(from as int, to as int);
    let len = to - from;
    if len <= 6 {
        proof {
            lemma_digits_bound(f);
            lemma_pow10_monotone(f.len(), 6);
            lemma_pow10_small(6);
        }
        let v = match digits_upto(s, from, to, 999_999) {
            Some(v) => v,
            None => {
                proof {
                    assert(false);
                }
                0
            },
        };
        let mut scaled = v;
        let mut k: usize = len;
        assert(pow10(0) == 1);
        while k < 6
            invariant
                len <= k <= 6,
                len == f.len(),
                v == digits_value(f),
                v < pow10(len as nat),
                scaled == v * pow10((k - len) as nat),
                scaled < pow10(k as nat),
            decreases 6 - k,
        {
            proof {
                assert(pow10((k + 1 - len) as nat) == 10 * pow10((k - len) as nat));
                assert(pow10((k + 1) as nat) == 10 * pow10(k as nat));
                assert(v * (10 * pow10((k - len) as nat)) == 10 * (v * pow10((k - len) as nat))) by (nonlinear_arith);
                lemma_pow10_small(k as nat);
            }
            scaled = scaled * 10;
            k = k + 1;
        }
        proof {
            lemma_pow10_small(6);
        }
        scaled
    } else {
        let head = match digits_upto(s, from, from + 6, 999_999) {
            Some(v) => v,
            None => {
                proof {
                    assert(f.subrange(0, 6) =~= s@.subrange(from as int, from + 6));
                    assert(all_digits(f.subrange(0, 6)));
                    lemma_digits_bound(f.subrange(0, 6));
                    lemma_pow10_small(6);
                }
                0
            },
        };
        assert(f.subrange(0, 6) =~= s@.subrange(from as int, from + 6));
        let c = s.get_char(from + 6);
        assert(f[6] == c);
        if c >= '5' {
            head + 1
        } else {
            head
        }
    }
}

proof fn lemma_pow10_small(k: nat)
    requires
        k <= 6,
    ensures
        1 <= pow10(k) <= 1_000_000,
        k == 6 ==> pow10(k) == 1_000_000,
{
    assert(pow10(0) == 1);
    assert(pow10(1) == 10);
    assert(pow10(2) == 100);
    assert(pow10(3) == 1000);
    assert(pow10(4) == 10000);
    assert(pow10(5) == 100000);
    assert(pow10(6) == 1000000);
}

proof fn lemma_pow10_monotone(a: nat, b: nat)
    requires
        a <= b,
    ensures
        pow10(a) <= pow10(b),
    decreases b - a,
{
    if a < b {
        lemma_pow10_monotone(a, (b - 1) as nat);
        assert(pow10(b) == 10 * pow10((b - 1) as nat));
        lemma_pow10_positive((b - 1) as nat);
    }
}

proof fn lemma_pow10_positive(n: nat)
    ensures
        pow10(n) >= 1,
    decreases n,
{
    if n > 0 {
        lemma_pow10_positive((n - 1) as nat);
    }
}

/// A run of `n` digits is worth less than `10^n`.
proof fn lemma_digits_bound(s: Seq<char>)
    requires
        all_digits(s),
    ensures
        0 <= digits_value(s) < pow10(s.len()),
    decreases s.len(),
{
    if s.len() > 0 {
        assert(all_digits(s.drop_last()));
        lemma_digits_bound(s.drop_last());
        assert(is_digit(s[s.len() - 1]));
    }
}

/// Reads a non-negative decimal (`digits`, or `digits.digits`) in millionths of a unit,
/// rounded half up at the seventh decimal; `None` when the text is not one or the
/// value does not fit a `u64`.
pub fn parse_micros(s: &str) -> (r: Option<u64>)
    ensures
        r matches Some(v) ==> decimal_micros(s@) == Some(v as int),
        r is None ==> (decimal_micros(s@) matches Some(v) ==> v > u64::MAX),
{
    let n = s.unicode_len();
    let mut p: usize = 0;
    while p < n && s.get_char(p) != '.'
        invariant
            0 <= p <= n == s@.len(),
            forall|q: int| 0 <= q < p ==> s@[q] != '.',
        decreases n - p,
    {
        p = p + 1;
    }
    let ghost sv = s@;
    let (int_end, has_dot) = if p < n {
        proof {
            assert(first_dot(sv, p as int));
            assert forall|q: int| first_dot(sv, q) implies q == p by {
                if q < p {
                    assert(sv[q] != '.');
                } else if q > p {
                    assert(sv[p as int] == '.');
                }
            }
        }
        (p, true)
    } else {
        proof {
            assert(!exists|q: int| first_dot(sv, q));
        }
        (n, false)
    };
    if int_end == 0 {
        return None;
    }
    let whole = match digits_upto(s, 0, int_end, 18_446_744_073_709) {
        Some(v) => v,
        None => {
            proof {
                if all_digits(sv.subrange(0, int_end as int)) {
                    if !has_dot {
                        assert(sv.subrange(0, int_end as int) =~= sv);
                    }
                    if has_dot && all_digits(sv.subrange(int_end + 1, n as int)) && int_end + 1 < n {
                        lemma_digits_bound(sv.subrange(int_end + 1, n as int));
                        assert(fraction_micros(sv.subrange(int_end + 1, n as int)) >= 0) by {
                            let f = sv.subrange(int_end + 1, n as int);
                            if f.len() <= 6 {
                                lemma_pow10_positive((6 - f.len()) as nat);
                                assert(digits_value(f) * pow10((6 - f.len()) as nat) >= 0) by (nonlinear_arith)
                                    requires digits_value(f) >= 0, pow10((6 - f.len()) as nat) >= 1;
                            } else {
                                assert(all_digits(f.subrange(0, 6)));
                                lemma_digits_nonneg(f.subrange(0, 6));
                            }
                        }
                    }
                }
            }
            return None;
        },
    };
    let frac: u64 = if has_dot {
        if int_end + 1 == n || !digits_only(s, int_end + 1, n) {
            return None;
        }
        fraction_value(s, int_end + 1, n)
    } else {
        0
    };
    let total: u128 = whole as u128 * 1_000_000 + frac as u128;
    if total > u64::MAX as u128 {
        return None;
    }
    proof {
        if !has_dot {
            assert(sv.subrange(0, int_end as int) =~= sv);
        }
    }
    Some(total as u64)
}

/// `k` zeros.
pub open spec fn zeros(k: nat) -> Seq<char> {
    Seq::new(k, |i: int| '0')
}

/// The digits of a mantissa `digits[.digits]` and the position of its decimal point.
pub open spec fn mantissa_parts(m: Seq<char>) -> Option<(Seq<char>, int)> {
    if exists|p: int| first_dot(m, p) {
        let p = choose|p: int| first_dot(m, p);
        let ip = m.subrange(0, p);
        let fp = m.subrange(p + 1, m.len() as int);
        if ip.len() > 0 && all_digits(ip) && fp.len() > 0 && all_digits(fp) {
            Some((ip + fp, p))
        } else {
            None
        }
    } else if m.len() > 0 && all_digits(m) {
        Some((m, m.len() as int))
    } else {
        None
    }
}

/// `digits` with the decimal point at position `p`, which may lie before or after them,
/// written as a plain decimal.
pub open spec fn place_point(digits: Seq<char>, p: int) -> Seq<char> {
    if p <= 0 {
        seq!['0', '.'] + zeros((-p) as nat) + digits
    } else if p < digits.len() {
        digits.subrange(0, p) + seq!['.'] + digits.subrange(p, digits.len() as int)
    } else {
        digits + zeros((p - digits.len()) as nat)
    }
}

/// `q` is the position of the first `e` or `E` in `s`.
pub open spec fn first_exp(s: Seq<char>, q: int) -> bool {
    &&& 0 <= q < s.len()
    &&& (s[q] == 'e' || s[q] == 'E')
    &&& forall|r: int| 0 <= r < q ==> s[r] != 'e' && s[r] != 'E'
}

/// The largest exponent, in magnitude, that a number may carry.
pub const MAX_EXPONENT: u64 = 1000;

/// An exponent: an optional sign, then digits, at most `MAX_EXPONENT` in magnitude.
pub open spec fn exponent_value(t: Seq<char>) -> Option<int> {
    if t.len() > 1 && t[0] == '-' && all_digits(t.drop_first()) {
        if digits_value(t.drop_first()) <= MAX_EXPONENT {
            Some(-digits_value(t.drop_first()))
        } else {
            None
        }
    } else {
        match unsigned_value(t) {
            Some(v) => if v <= MAX_EXPONENT {
                Some(v)
            } else {
                None
            },
            None => None,
        }
    }
}

/// The value in millionths of an unsigned number, plain (`2.5`) or with an exponent
/// (`25e-1`, `2.5E0`), rounded half up.
pub open spec fn number_micros(s: Seq<char>) -> Option<int> {
    if exists|q: int| first_exp(s, q) {
        let q = choose|q: int| first_exp(s, q);
        match (mantissa_parts(s.subrange(0, q)), exponent_value(s.subrange(q + 1, s.len() as int))) {
            (Some((d, p)), Some(e)) => decimal_micros(place_point(d, p + e)),
            _ => None,
        }
    } else {
        decimal_micros(s)
    }
}

/// The value in millionths of a number with an optional sign, `+` or `-`, where its
/// magnitude is at most `i64::MAX`.
pub open spec fn signed_micros(s: Seq<char>) -> Option<i64> {
    let (negative, rest) = if s.len() > 0 && s[0] == '-' {
        (true, s.drop_first())
    } else if s.len() > 0 && s[0] == '+' {
        (false, s.drop_first())
    } else {
        (false, s)
    };
    match number_micros(rest) {
        Some(v) => if 0 <= v <= i64::MAX {
            Some(
                if negative {
                    (-v) as i64
                } else {
                    v as i64
                },
            )
        } else {
            None
        },
        None => None,
    }
}

/// Appends `k` zeros.
fn push_zeros(out: &mut String, k: u64)
    ensures
        final(out)@ == old(out)@ + zeros(k as nat),
{
    let mut i: u64 = 0;
    assert(old(out)@ =~= old(out)@ + zeros(0));
    while i < k
        invariant
            0 <= i <= k,
            out@ == old(out)@ + zeros(i as nat),
        decreases k - i,
    {
        proof {
            reveal_strlit("0");
        }
        out.append("0");
        assert(out@ =~= old(out)@ + zeros((i + 1) as nat));
        i = i + 1;
    }
}

/// Reads an exponent.
fn parse_exponent(t: &str) -> (r: Option<i64>)
    ensures
        r matches Some(e) ==> exponent_value(t@) == Some(e as int),
        r is None ==> exponent_value(t@) is None,
{
    let n = t.unicode_len();
    if n > 1 && t.get_char(0) == '-' {
        assert(t@.drop_first() =~= t@.subrange(1, n as int));
        if digits_only(t, 1, n) {
            return match digits_upto(t, 1, n, MAX_EXPONENT) {
                Some(v) => Some(-(v as i64)),
                None => None,
            };
        }
    }
    match parse_unsigned(t, MAX_EXPONENT) {
        Some(v) => Some(v as i64),
        None => None,
    }
}

/// Reads an unsigned number, plain or with an exponent, in millionths.
fn parse_number_micros(s: &str) -> (r: Option<u64>)
    ensures
        r matches Some(v) ==> number_micros(s@) == Some(v as int),
        r is None ==> (number_micros(s@) matches Some(v) ==> v > u64::MAX),
{
    let n = s.unicode_len();
    let mut q: usize = 0;
    while q < n && s.get_char(q) != 'e' && s.get_char(q) != 'E'
        invariant
            0 <= q <= n == s@.len(),
            forall|r: int| 0 <= r < q ==> s@[r] != 'e' && s@[r] != 'E',
        decreases n - q,
    {
        q = q + 1;
    }
    let ghost sv = s@;
    if q == n {
        assert(!exists|k: int| first_exp(sv, k));
        return parse_micros(s);
    }
    proof {
        assert(first_exp(sv, q as int));
        assert forall|k: int| first_exp(sv, k) implies k == q by {
            if k < q {
                assert(sv[k] != 'e' && sv[k] != 'E');
            } else if k > q {
                assert(sv[q as int] == 'e' || sv[q as int] == 'E');
            }
        }
    }
    let m = s.substring_char(0, q);
    let e = match parse_exponent(s.substring_char(q + 1, n)) {
        Some(e) => e,
        None => return None,
    };
    // the mantissa's digits and the position of its point
    let k = m.unicode_len();
    let mut p: usize = 0;
    while p < k && m.get_char(p) != '.'
        invariant
            0 <= p <= k == m@.len(),
            forall|r: int| 0 <= r < p ==> m@[r] != '.',
        decreases k - p,
    {
        p = p + 1;
    }
    let ghost mv = m@;
    let (digits, point) = if p < k {
        proof {
            assert(first_dot(mv, p as int));
            assert forall|r: int| first_dot(mv, r) implies r == p by {
                if r < p {
                    assert(mv[r] != '.');
                } else if r > p {
                    assert(mv[p as int] == '.');
                }
            }
        }
        if p == 0 || p + 1 == k || !digits_only(m, 0, p) || !digits_only(m, p + 1, k) {
            return None;
        }
        let mut d = String::from_str(m.substring_char(0, p));
        d.append(m.substring_char(p + 1, k));
        (d, p)
    } else {
        proof {
            assert(!exists|r: int| first_dot(mv, r));
        }
        assert(mv.subrange(0, k as int) =~= mv);
        if k == 0 || !digits_only(m, 0, k) {
            return None;
        }
        (String::from_str(m), k)
    };
    assert(mantissa_parts(mv) == Some((digits@, point as int)));
    let len = digits.as_str().unicode_len();
    assert(point <= len);
    let at = point as i128 + e as i128;
    let mut text = String::new();
    proof {
        reveal_strlit("0.");
        reveal_strlit(".");
    }
    if at <= 0 {
        text.append("0.");
        push_zeros(&mut text, (-at) as u64);
        text.append(digits.as_str());
        assert(text@ =~= place_point(digits@, at as int));
    } else if at < len as i128 {
        text.append(digits.as_str().substring_char(0, at as usize));
        text.append(".");
        text.append(digits.as_str().substring_char(at as usize, len));
        assert(text@ =~= place_point(digits@, at as int));
    } else {
        text.append(digits.as_str());
        push_zeros(&mut text, (at - len as i128) as u64);
        assert(text@ =~= place_point(digits@, at as int));
    }
    parse_micros(text.as_str())
}

/// Reads a number with an optional sign, plain or with an exponent, in millionths rounded
/// half up in magnitude; `None` when the text is not one or the magnitude exceeds
/// `i64::MAX`.
pub fn parse_signed_micros(s: &str) -> (r: Option<i64>)
    ensures
        r == signed_micros(s@),
{
    let n = s.unicode_len();
    let first = if n > 0 {
        s.get_char(0)
    } else {
        ' '
    };
    let negative = first == '-';
    let rest = if first == '-' || first == '+' {
        s.substring_char(1, n)
    } else {
        s.substring_char(0, n)
    };
    assert(s@.subrange(0, n as int) =~= s@);
    assert(n > 0 ==> s@.drop_first() =~= s@.subrange(1, n as int));
    match parse_number_micros(rest) {
        Some(v) => if v <= i64::MAX as u64 {
            if negative {
                Some(-(v as i64))
            } else {
                Some(v as i64)
            }
        } else {
            None
        },
        None => None,
    }
}

} // verus!

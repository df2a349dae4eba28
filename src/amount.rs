//! Fixed-point amounts: four decimal digits, held as ten-thousandths of a
//! currency unit.
//!
//! An amount is written as decimal digits with an optional fractional part
//! (`12`, `12.5`, `.5`, `12.`), optionally after a `+` and optionally
//! followed by a decimal exponent (`1e3`, `2.5E-1`, `1e+2`). The value is cut
//! off after the fourth fractional digit. A minus sign (amounts are never
//! negative), the non-finite words, or any other character make the text
//! invalid.

use vstd::prelude::*;

verus! {

/// Ten-thousandths in one currency unit.
pub const SCALE: u64 = 10000;

pub open spec fn is_digit(c: char) -> bool {
    '0' <= c <= '9'
}

pub open spec fn digit_value(c: char) -> int {
    (c as u32) as int - ('0' as u32) as int
}

pub open spec fn all_digits(s: Seq<char>) -> bool {
    forall|i: int| 0 <= i < s.len() ==> is_digit(#[trigger] s[i])
}

/// The number that a string of decimal digits denotes.
pub open spec fn digits_value(s: Seq<char>) -> int
    decreases s.len(),
{
    if s.len() == 0 {
        0
    } else {
        digits_value(s.drop_last()) * 10 + digit_value(s.last())
    }
}

/// The index of the first `.` in `s`, or its length where it has none.
pub open spec fn dot_index(s: Seq<char>) -> int
    decreases s.len(),
{
    if s.len() == 0 {
        0
    } else if s[0] == '.' {
        0
    } else {
        1 + dot_index(s.drop_first())
    }
}

/// The digits before the decimal point.
pub open spec fn integer_part(s: Seq<char>) -> Seq<char> {
    s.take(dot_index(s))
}

/// The digits after the decimal point (none where there is no point).
pub open spec fn fraction_part(s: Seq<char>) -> Seq<char> {
    if dot_index(s) < s.len() {
        s.skip(dot_index(s) + 1)
    } else {
        Seq::empty()
    }
}

/// `10` to the power `n`.
pub open spec fn pow10(n: nat) -> nat
    decreases n,
{
    if n == 0 {
        1
    } else {
        10 * pow10((n - 1) as nat)
    }
}

/// `v` times `10` to the power `k`, cut off to an integer.
pub open spec fn shifted(v: int, k: int) -> int {
    if k >= 0 {
        v * pow10(k as nat)
    } else {
        v / pow10((-k) as nat) as int
    }
}

/// The index of the first `e` or `E` in `s`, or its length where it has none.
pub open spec fn marker_index(s: Seq<char>) -> int
    decreases s.len(),
{
    if s.len() == 0 {
        0
    } else if s[0] == 'e' || s[0] == 'E' {
        0
    } else {
        1 + marker_index(s.drop_first())
    }
}

/// The text before the exponent.
pub open spec fn mantissa(s: Seq<char>) -> Seq<char> {
    s.take(marker_index(s))
}

/// The exponent that a text gives: zero where it has no exponent part, and
/// `None` where its exponent part is not an optionally signed run of digits.
pub open spec fn exponent_value(s: Seq<char>) -> Option<int> {
    if marker_index(s) == s.len() {
        Some(0)
    } else {
        let x = s.skip(marker_index(s) + 1);
        let signed = x.len() > 0 && (x[0] == '-' || x[0] == '+');
        let d = if signed {
            x.drop_first()
        } else {
            x
        };
        if d.len() > 0 && all_digits(d) {
            Some(
                if signed && x[0] == '-' {
                    -digits_value(d)
                } else {
                    digits_value(d)
                },
            )
        } else {
            None
        }
    }
}

/// The value of an unsigned amount's text in ten-thousandths, or `None` where
/// the text is not an amount.
pub open spec fn amount_value(s: Seq<char>) -> Option<int> {
    let m = mantissa(s);
    let ip = integer_part(m);
    let fp = fraction_part(m);
    match exponent_value(s) {
        Some(e) => if all_digits(ip) && all_digits(fp) && ip.len() + fp.len() > 0 {
            Some(shifted(digits_value(ip + fp), e + 4 - fp.len()))
        } else {
            None
        },
        None => None,
    }
}

/// The text without one leading `+`.
pub open spec fn unsigned_text(s: Seq<char>) -> Seq<char> {
    if s.len() > 0 && s[0] == '+' {
        s.drop_first()
    } else {
        s
    }
}

/// `v` as a `u64`, where it fits one.
pub open spec fn as_u64(v: int) -> Option<u64> {
    if 0 <= v <= u64::MAX {
        Some(v as u64)
    } else {
        None
    }
}

/// The amount that a text denotes where it is one and fits a `u64`.
pub open spec fn parsed_amount(s: Seq<char>) -> Option<u64> {
    match amount_value(unsigned_text(s)) {
        Some(v) => as_u64(v),
        None => None,
    }
}

pub open spec fn digit_char(d: int) -> char {
    seq!['0', '1', '2', '3', '4', '5', '6', '7', '8', '9'][d]
}

/// The decimal digits of `n`, without leading zeros.
pub open spec fn decimal_text(n: nat) -> Seq<char>
    decreases n,
{
    if n < 10 {
        seq![digit_char(n as int)]
    } else {
        decimal_text(n / 10).push(digit_char((n % 10) as int))
    }
}

/// An amount in ten-thousandths written with exactly four fractional digits,
/// with a `-` in front where it is negative.
pub open spec fn fixed4_text(v: int) -> Seq<char> {
    let m = if v < 0 {
        -v
    } else {
        v
    };
    let f = m % SCALE as int;
    let sign = if v < 0 {
        seq!['-']
    } else {
        Seq::empty()
    };
    sign + decimal_text((m / SCALE as int) as nat) + seq!['.'] + seq![
        digit_char(f / 1000),
        digit_char(f / 100 % 10),
        digit_char(f / 10 % 10),
        digit_char(f % 10),
    ]
}

proof fn lemma_dot_index(s: Seq<char>, p: int)
    requires
        0 <= p <= s.len(),
        forall|j: int| 0 <= j < p ==> s[j] != '.',
        p == s.len() || s[p] == '.',
    ensures
        dot_index(s) == p,
    decreases p,
{
    if p > 0 {
        assert forall|j: int| 0 <= j < p - 1 implies s.drop_first()[j] != '.' by {
            assert(s.drop_first()[j] == s[j + 1]);
        }
        lemma_dot_index(s.drop_first(), p - 1);
    }
}

proof fn lemma_digits_value_step(s: Seq<char>, i: int)
    requires
        0 <= i < s.len(),
    ensures
        digits_value(s.take(i + 1)) == digits_value(s.take(i)) * 10 + digit_value(s[i]),
{
    assert(s.take(i + 1).drop_last() =~= s.take(i));
}

proof fn lemma_digits_value_monotonic(s: Seq<char>, i: int)
    requires
        0 <= i <= s.len(),
        all_digits(s),
    ensures
        digits_value(s.take(i)) <= digits_value(s),
    decreases s.len() - i,
{
    if i < s.len() {
        lemma_digits_value_step(s, i);
        assert(is_digit(s[i]));
        assert(digits_value(s.take(i)) >= 0) by {
            lemma_digits_value_nonneg(s.take(i));
        }
        lemma_digits_value_monotonic(s, i + 1);
    } else {
        assert(s.take(i) =~= s);
    }
}

proof fn lemma_digits_value_nonneg(s: Seq<char>)
    requires
        all_digits(s),
    ensures
        digits_value(s) >= 0,
    decreases s.len(),
{
    if s.len() > 0 {
        assert(is_digit(s.last()));
        lemma_digits_value_nonneg(s.drop_last());
    }
}

proof fn lemma_marker_index(s: Seq<char>, q: int)
    requires
        0 <= q <= s.len(),
        forall|j: int| 0 <= j < q ==> s[j] != 'e' && s[j] != 'E',
        q == s.len() || s[q] == 'e' || s[q] == 'E',
    ensures
        marker_index(s) == q,
    decreases q,
{
    if q > 0 {
        assert forall|j: int| 0 <= j < q - 1 implies s.drop_first()[j] != 'e' && s.drop_first()[j]
            != 'E' by {
            assert(s.drop_first()[j] == s[j + 1]);
        }
        lemma_marker_index(s.drop_first(), q - 1);
    }
}

proof fn lemma_pow10_positive(n: nat)
    ensures
        pow10(n) >= 1,
    decreases n,
{
    if n > 0 {
        lemma_pow10_positive((n - 1) as nat);
    }
}

proof fn lemma_pow10_monotonic(a: nat, b: nat)
    requires
        a <= b,
    ensures
        pow10(a) <= pow10(b),
    decreases b,
{
    if a < b {
        lemma_pow10_monotonic(a, (b - 1) as nat);
        lemma_pow10_positive((b - 1) as nat);
    }
}

proof fn lemma_pow10_exceeds_u64(n: nat)
    requires
        n >= 20,
    ensures
        pow10(n) > u64::MAX,
{
    reveal_with_fuel(pow10, 21);
    lemma_pow10_monotonic(20, n);
}

/// Splitting a run of digits: the digits before `i` count `10^(len - i)`
/// times, and the rest is less than that.
proof fn lemma_digits_value_split(s: Seq<char>, i: int)
    requires
        0 <= i <= s.len(),
        all_digits(s),
    ensures
        digits_value(s) == digits_value(s.take(i)) * pow10((s.len() - i) as nat) + digits_value(
            s.skip(i),
        ),
        0 <= digits_value(s.skip(i)) < pow10((s.len() - i) as nat),
    decreases s.len(),
{
    if i == s.len() {
        assert(s.take(i) =~= s);
        assert(s.skip(i) =~= Seq::<char>::empty());
        assert(digits_value(s.skip(i)) == 0);
        assert(pow10((s.len() - i) as nat) == 1);
        assert(digits_value(s.take(i)) * pow10((s.len() - i) as nat) == digits_value(s));
        lemma_digits_value_nonneg(s);
    } else {
        let t = s.drop_last();
        assert(all_digits(t)) by {
            assert forall|k: int| 0 <= k < t.len() implies is_digit(#[trigger] t[k]) by {
                assert(t[k] == s[k]);
            }
        }
        lemma_digits_value_split(t, i);
        assert(t.take(i) =~= s.take(i));
        assert(s.skip(i).drop_last() =~= t.skip(i));
        assert(s.skip(i).last() == s.last());
        assert(is_digit(s.last()));
        let n = (s.len() - i) as nat;
        let p = pow10((n - 1) as nat);
        let a = digits_value(s.take(i));
        let r = digits_value(t.skip(i));
        let d = digit_value(s.last());
        assert(pow10(n) == 10 * p);
        assert(digits_value(s) == (a * p + r) * 10 + d);
        assert(digits_value(s.skip(i)) == r * 10 + d);
        lemma_digits_value_nonneg(s.take(i));
        assert((a * p + r) * 10 + d == a * (10 * p) + (r * 10 + d)) by (nonlinear_arith);
        assert(r * 10 + d < 10 * p) by (nonlinear_arith)
            requires
                r < p,
                d <= 9,
        ;
        assert(digits_value(s.take(i)) * pow10((s.len() - i) as nat) == a * (10 * p));
    }
}

/// Dropping the last `m` digits is dividing by `10^m`.
proof fn lemma_digits_value_drop(s: Seq<char>, m: int)
    requires
        0 <= m <= s.len(),
        all_digits(s),
    ensures
        digits_value(s) / pow10(m as nat) as int == digits_value(s.take(s.len() - m)),
{
    lemma_digits_value_split(s, s.len() - m);
    lemma_pow10_positive(m as nat);
    vstd::arithmetic::div_mod::lemma_fundamental_div_mod_converse(
        digits_value(s),
        pow10(m as nat) as int,
        digits_value(s.take(s.len() - m)),
        digits_value(s.skip(s.len() - m)),
    );
}

/// A run of `n` digits is less than `10^n`.
proof fn lemma_digits_value_bound(s: Seq<char>)
    requires
        all_digits(s),
    ensures
        digits_value(s) < pow10(s.len()),
{
    lemma_digits_value_split(s, 0);
    assert(s.skip(0) =~= s);
}

/// The characters of `text`, in order.
fn chars_of(text: &str) -> (r: Vec<char>)
    ensures
        r@ == text@,
{
    let mut out: Vec<char> = Vec::new();
    for c in it: text.chars()
        invariant
            it.seq() == text@,
            out@ == text@.take(it.index() as int),
    {
        out.push(c);
    }
    assert(out@ =~= text@);
    out
}

fn is_digit_char(c: char) -> (r: bool)
    ensures
        r == is_digit(c),
{
    '0' <= c && c <= '9'
}

fn digit_of(c: char) -> (r: u64)
    requires
        is_digit(c),
    ensures
        r as int == digit_value(c),
        r < 10,
{
    (c as u32 - '0' as u32) as u64
}

/// Exponents up to this magnitude are read exactly; any larger one already
/// makes every nonzero amount overflow or vanish.
const EXPONENT_CAP: u128 = 1000000000000000000000000000000;

/// The index of the exponent marker in `v`, or its length.
fn find_marker(v: &Vec<char>) -> (q: usize)
    ensures
        q == marker_index(v@),
        q <= v.len(),
{
    let mut q: usize = 0;
    while q < v.len() && v[q] != 'e' && v[q] != 'E'
        invariant
            q <= v.len(),
            forall|j: int| 0 <= j < q ==> v@[j] != 'e' && v@[j] != 'E',
        decreases v.len() - q,
    {
        q = q + 1;
    }
    proof {
        lemma_marker_index(v@, q as int);
    }
    q
}

/// The index of the decimal point among the first `q` characters of `v`, or
/// `q`.
fn find_point(v: &Vec<char>, q: usize) -> (p: usize)
    requires
        q <= v.len(),
    ensures
        p == dot_index(v@.take(q as int)),
        p <= q,
{
    let ghost m = v@.take(q as int);
    let mut p: usize = 0;
    while p < q && v[p] != '.'
        invariant
            p <= q <= v.len(),
            m == v@.take(q as int),
            forall|j: int| 0 <= j < p ==> m[j] != '.',
        decreases q - p,
    {
        p = p + 1;
    }
    proof {
        lemma_dot_index(m, p as int);
    }
    p
}

/// Facts on the parts of the mantissa `v[..q]` whose point is at `p`.
proof fn lemma_parts(s: Seq<char>, p: int, q: int)
    requires
        0 <= p <= q <= s.len(),
        p == dot_index(s.take(q)),
    ensures
        integer_part(s.take(q)) =~= s.take(p),
        fraction_part(s.take(q)).len() == if p < q {
            q - p - 1
        } else {
            0
        },
        forall|k: int|
            0 <= k < fraction_part(s.take(q)).len() ==> #[trigger] fraction_part(s.take(q))[k]
                == s[p + 1 + k],
{
}

/// Whether every character of the mantissa `v[..q]` but its point is a digit.
fn mantissa_is_digits(v: &Vec<char>, p: usize, q: usize) -> (r: bool)
    requires
        p <= q <= v.len(),
        p == dot_index(v@.take(q as int)),
    ensures
        r == (all_digits(integer_part(v@.take(q as int))) && all_digits(
            fraction_part(v@.take(q as int)),
        )),
{
    let ghost ip = integer_part(v@.take(q as int));
    let ghost fp = fraction_part(v@.take(q as int));
    proof {
        lemma_parts(v@, p as int, q as int);
    }
    let mut j: usize = 0;
    while j < q
        invariant
            j <= q <= v.len(),
            p <= q,
            ip == integer_part(v@.take(q as int)),
            fp == fraction_part(v@.take(q as int)),
            ip =~= v@.take(p as int),
            fp.len() == if p < q {
                q - p - 1
            } else {
                0
            },
            forall|k: int| 0 <= k < fp.len() ==> #[trigger] fp[k] == v@[p + 1 + k],
            forall|k: int| 0 <= k < j && k != p ==> is_digit(#[trigger] v@[k]),
        decreases q - j,
    {
        if j != p && !is_digit_char(v[j]) {
            proof {
                if j < p {
                    assert(ip[j as int] == v@[j as int]);
                    assert(!is_digit(ip[j as int]));
                } else {
                    assert(fp[j - p - 1] == v@[j as int]);
                    assert(!is_digit(fp[j - p - 1]));
                }
            }
            return false;
        }
        j = j + 1;
    }
    assert forall|k: int| 0 <= k < ip.len() implies is_digit(#[trigger] ip[k]) by {
        assert(ip[k] == v@[k]);
    }
    assert forall|k: int| 0 <= k < fp.len() implies is_digit(#[trigger] fp[k]) by {
        assert(fp[k] == v@[p + 1 + k]);
    }
    true
}

/// Reads the exponent after the marker at `q`: its sign and its magnitude,
/// exact below `EXPONENT_CAP` and held at the cap above it.
fn read_exponent(v: &Vec<char>, q: usize) -> (r: Option<(bool, u128)>)
    requires
        q == marker_index(v@),
        q <= v.len(),
    ensures
        match exponent_value(v@) {
            None => r is None,
            Some(e) => r matches Some((neg, mag)) && mag <= EXPONENT_CAP && (mag < EXPONENT_CAP
                ==> e == if neg {
                -(mag as int)
            } else {
                mag as int
            }) && (mag == EXPONENT_CAP && !neg ==> e >= EXPONENT_CAP) && (mag == EXPONENT_CAP
                && neg ==> e <= -EXPONENT_CAP),
        },
{
    let n = v.len();
    if q == n {
        return Some((false, 0));
    }
    let ghost s = v@;
    let ghost x = s.skip(q + 1);
    let mut neg = false;
    let mut start: usize = q + 1;
    if start < n && (v[start] == '-' || v[start] == '+') {
        neg = v[start] == '-';
        start = start + 1;
    }
    let ghost d = s.skip(start as int);
    assert(d =~= if x.len() > 0 && (x[0] == '-' || x[0] == '+') {
        x.drop_first()
    } else {
        x
    });
    assert(neg == (x.len() > 0 && x[0] == '-'));
    if start == n {
        assert(d.len() == 0);
        return None;
    }
    let mut mag: u128 = 0;
    let mut i: usize = start;
    while i < n
        invariant
            q < start <= i <= n == s.len(),
            v@ == s,
            q == marker_index(s),
            x == s.skip(q + 1),
            d =~= s.skip(start as int),
            d =~= if x.len() > 0 && (x[0] == '-' || x[0] == '+') {
                x.drop_first()
            } else {
                x
            },
            neg == (x.len() > 0 && x[0] == '-'),
            mag <= EXPONENT_CAP,
            all_digits(d.take(i - start)),
            digits_value(d.take(i - start)) < EXPONENT_CAP ==> mag == digits_value(
                d.take(i - start),
            ),
            digits_value(d.take(i - start)) >= EXPONENT_CAP ==> mag == EXPONENT_CAP,
        decreases n - i,
    {
        let c = v[i];
        assert(d[i - start] == c);
        if !is_digit_char(c) {
            assert(!all_digits(d));
            return None;
        }
        let dg = digit_of(c);
        proof {
            lemma_digits_value_step(d, i - start);
            lemma_digits_value_nonneg(d.take(i - start));
            assert forall|k: int| 0 <= k < i + 1 - start implies is_digit(
                #[trigger] d.take(i + 1 - start)[k],
            ) by {
                if k < i - start {
                    assert(d.take(i + 1 - start)[k] == d.take(i - start)[k]);
                }
            }
        }
        if mag < EXPONENT_CAP {
            mag = mag * 10 + dg as u128;
            if mag > EXPONENT_CAP {
                mag = EXPONENT_CAP;
            }
        }
        i = i + 1;
    }
    assert(d.take(n - start) =~= d);
    Some((neg, mag))
}

/// The value of the first `t` digits of the mantissa `v[..q]` (its point at
/// `p` left out), or `None` where that value does not fit a `u64`.
fn read_digits(v: &Vec<char>, p: usize, q: usize, t: usize) -> (r: Option<u64>)
    requires
        p <= q <= v.len(),
        p == dot_index(v@.take(q as int)),
        all_digits(integer_part(v@.take(q as int)) + fraction_part(v@.take(q as int))),
        t <= (integer_part(v@.take(q as int)) + fraction_part(v@.take(q as int))).len(),
    ensures
        ({
            let w = (integer_part(v@.take(q as int)) + fraction_part(v@.take(q as int))).take(
                t as int,
            );
            match r {
                Some(x) => x as int == digits_value(w),
                None => digits_value(w) > u64::MAX,
            }
        }),
{
    let ghost ip = integer_part(v@.take(q as int));
    let ghost fp = fraction_part(v@.take(q as int));
    let ghost dd = ip + fp;
    let ghost w = dd.take(t as int);
    proof {
        lemma_parts(v@, p as int, q as int);
    }
    assert(all_digits(w)) by {
        assert forall|i: int| 0 <= i < w.len() implies is_digit(#[trigger] w[i]) by {
            assert(w[i] == dd[i]);
        }
    }
    let mut val: u64 = 0;
    let mut i: usize = 0;
    while i < t
        invariant
            i <= t <= dd.len(),
            p <= q <= v.len(),
            ip == integer_part(v@.take(q as int)),
            fp == fraction_part(v@.take(q as int)),
            w =~= dd.take(t as int),
            dd == ip + fp,
            ip =~= v@.take(p as int),
            forall|k: int| 0 <= k < fp.len() ==> #[trigger] fp[k] == v@[p + 1 + k],
            fp.len() == if p < q {
                q - p - 1
            } else {
                0
            },
            all_digits(w),
            val as int == digits_value(w.take(i as int)),
        decreases t - i,
    {
        let c = if i < p {
            v[i]
        } else {
            v[i + 1]
        };
        assert(w[i as int] == c) by {
            assert(w[i as int] == dd[i as int]);
            if i >= p {
                assert(dd[i as int] == fp[i - p]);
            }
        }
        let dg = digit_of(c);
        proof {
            lemma_digits_value_step(w, i as int);
        }
        if val > (u64::MAX - dg) / 10 {
            proof {
                assert(val * 10 + dg > u64::MAX) by (nonlinear_arith)
                    requires
                        val > (u64::MAX - dg) / 10,
                        dg < 10,
                ;
                lemma_digits_value_monotonic(w, i + 1);
            }
            return None;
        }
        val = val * 10 + dg;
        i = i + 1;
    }
    assert(w.take(t as int) =~= w);
    Some(val)
}

/// `val` times `10^k`, where it fits a `u64`.
fn times_pow10(val: u64, k: u32) -> (r: Option<u64>)
    ensures
        r == as_u64(val * pow10(k as nat)),
{
    let mut out = val;
    let mut done: u32 = 0;
    assert(pow10(0) == 1);
    while done < k
        invariant
            done <= k,
            out as int == val * pow10(done as nat),
        decreases k - done,
    {
        proof {
            assert(pow10((done + 1) as nat) == 10 * pow10(done as nat));
            assert(val * pow10((done + 1) as nat) == out * 10) by (nonlinear_arith)
                requires
                    out as int == val * pow10(done as nat),
                    pow10((done + 1) as nat) == 10 * pow10(done as nat),
            ;
        }
        if out > u64::MAX / 10 {
            proof {
                lemma_pow10_monotonic((done + 1) as nat, k as nat);
                assert(val * pow10(k as nat) >= val * pow10((done + 1) as nat)) by (nonlinear_arith)
                    requires
                        val >= 0,
                        pow10((done + 1) as nat) <= pow10(k as nat),
                ;
            }
            return None;
        }
        out = out * 10;
        done = done + 1;
    }
    Some(out)
}

/// The digits of the mantissa `v[..q]` (point at `p`) moved by the exponent
/// `e` plus four places, given as a sign and a magnitude held at the cap.
fn shift_digits(v: &Vec<char>, p: usize, q: usize, neg: bool, mag: u128, e: Ghost<int>) -> (r: Option<u64>)
    requires
        p <= q <= v.len(),
        p == dot_index(v@.take(q as int)),
        all_digits(integer_part(v@.take(q as int)) + fraction_part(v@.take(q as int))),
        mag <= EXPONENT_CAP,
        mag < EXPONENT_CAP ==> e@ == if neg {
            -(mag as int)
        } else {
            mag as int
        },
        mag == EXPONENT_CAP && !neg ==> e@ >= EXPONENT_CAP,
        mag == EXPONENT_CAP && neg ==> e@ <= -EXPONENT_CAP,
    ensures
        r == as_u64(
            shifted(
                digits_value(integer_part(v@.take(q as int)) + fraction_part(v@.take(q as int))),
                e@ + 4 - fraction_part(v@.take(q as int)).len(),
            ),
        ),
{
    let ghost ip = integer_part(v@.take(q as int));
    let ghost fp = fraction_part(v@.take(q as int));
    let ghost dd = ip + fp;
    proof {
        lemma_parts(v@, p as int, q as int);
        lemma_digits_value_nonneg(dd);
    }
    let fl: usize = if p < q {
        q - p - 1
    } else {
        0
    };
    let len: usize = p + fl;
    assert(dd.len() == len);
    let k: i128 = if neg {
        -(mag as i128)
    } else {
        mag as i128
    } + 4 - fl as i128;
    let ghost ek: int = e@ + 4 - fl;
    assert(k < 0 && -k < len ==> ek == k);
    assert(k < 0 ==> ek <= k);
    assert(k >= 0 ==> ek >= k);
    assert(k >= 0 && k < 20 ==> ek == k);
    if k < 0 && -k >= len as i128 {
        proof {
            lemma_digits_value_bound(dd);
            lemma_pow10_monotonic(len as nat, (-ek) as nat);
            assert(digits_value(dd) / pow10((-ek) as nat) as int == 0) by (nonlinear_arith)
                requires
                    0 <= digits_value(dd) < pow10(len as nat),
                    pow10(len as nat) <= pow10((-ek) as nat),
            ;
        }
        return Some(0);
    }
    let t: usize = if k < 0 {
        len - (-k) as usize
    } else {
        len
    };
    let ghost w = dd.take(t as int);
    proof {
        if k < 0 {
            lemma_digits_value_drop(dd, -ek);
        } else {
            assert(w =~= dd);
            lemma_pow10_positive(ek as nat);
            assert(digits_value(w) * pow10(ek as nat) >= digits_value(w)) by (nonlinear_arith)
                requires
                    digits_value(w) >= 0,
                    pow10(ek as nat) >= 1,
            ;
        }
    }
    let val = match read_digits(v, p, q, t) {
        None => {
            return None;
        },
        Some(x) => x,
    };
    if k < 0 {
        return Some(val);
    }
    if val == 0 {
        assert(digits_value(w) == 0);
        assert(digits_value(w) * pow10(ek as nat) == 0) by (nonlinear_arith)
            requires
                digits_value(w) == 0,
        ;
        return Some(0);
    }
    if k >= 20 {
        proof {
            lemma_pow10_exceeds_u64(ek as nat);
            assert(digits_value(w) * pow10(ek as nat) >= pow10(ek as nat)) by (nonlinear_arith)
                requires
                    digits_value(w) >= 1,
            ;
        }
        return None;
    }
    times_pow10(val, k as u32)
}

/// Reads an amount in ten-thousandths from its text. Returns `None` where the
/// text is not an amount, or where its value does not fit a `u64`.
pub fn parse_amount(text: &str) -> (r: Option<u64>)
    ensures
        r == parsed_amount(text@),
{
    let mut v = chars_of(text);
    if v.len() > 0 && v[0] == '+' {
        v.remove(0);
    }
    let ghost s = unsigned_text(text@);
    assert(v@ =~= s);
    let q = find_marker(&v);
    let p = find_point(&v, q);
    let ghost m = mantissa(s);
    let ghost ip = integer_part(m);
    let ghost fp = fraction_part(m);
    proof {
        lemma_parts(s, p as int, q as int);
    }
    let fl: usize = if p < q {
        q - p - 1
    } else {
        0
    };
    if p + fl == 0 || !mantissa_is_digits(&v, p, q) {
        return None;
    }
    let (neg, mag) = match read_exponent(&v, q) {
        None => {
            return None;
        },
        Some(x) => x,
    };
    let ghost e = exponent_value(s)->Some_0;
    assert(all_digits(ip + fp)) by {
        let dd = ip + fp;
        assert forall|i: int| 0 <= i < dd.len() implies is_digit(#[trigger] dd[i]) by {
            if i >= ip.len() {
                assert(dd[i] == fp[i - ip.len()]);
            }
        }
    }
    shift_digits(&v, p, q, neg, mag, Ghost(e))
}

/// The one-character text of a decimal digit.
fn digit_str(d: u64) -> (r: &'static str)
    requires
        d < 10,
    ensures
        r@ == seq![digit_char(d as int)],
{
    if d == 0 {
        proof {
            reveal_strlit("0");
        }
        "0"
    } else if d == 1 {
        proof {
            reveal_strlit("1");
        }
        "1"
    } else if d == 2 {
        proof {
            reveal_strlit("2");
        }
        "2"
    } else if d == 3 {
        proof {
            reveal_strlit("3");
        }
        "3"
    } else if d == 4 {
        proof {
            reveal_strlit("4");
        }
        "4"
    } else if d == 5 {
        proof {
            reveal_strlit("5");
        }
        "5"
    } else if d == 6 {
        proof {
            reveal_strlit("6");
        }
        "6"
    } else if d == 7 {
        proof {
            reveal_strlit("7");
        }
        "7"
    } else if d == 8 {
        proof {
            reveal_strlit("8");
        }
        "8"
    } else {
        proof {
            reveal_strlit("9");
        }
        "9"
    }
}

/// Appends the decimal digits of `n` to `s`.
fn push_decimal(s: &mut String, n: u64)
    ensures
        final(s)@ == old(s)@ + decimal_text(n as nat),
    decreases n,
{
    if n >= 10 {
        push_decimal(s, n / 10);
    }
    s.append(digit_str(n % 10));
    proof {
        if n >= 10 {
            assert(old(s)@ + decimal_text(n as nat) =~= old(s)@ + decimal_text((n / 10) as nat) + seq![
                digit_char((n % 10) as int),
            ]);
        } else {
            assert(old(s)@ + decimal_text(n as nat) =~= old(s)@ + seq![digit_char((n % 10) as int)]);
        }
    }
}

/// Writes an amount in ten-thousandths with exactly four fractional digits:
/// `-1.5` is written `-1.5000`.
pub fn format_amount(v: i64) -> (r: String)
    ensures
        r@ == fixed4_text(v as int),
{
    let mut s = String::new();
    let m: u64 = if v < 0 {
        proof {
            reveal_strlit("-");
        }
        s.append("-");
        (0i128 - v as i128) as u64
    } else {
        v as u64
    };
    push_decimal(&mut s, m / SCALE);
    proof {
        reveal_strlit(".");
    }
    s.append(".");
    let f = m % SCALE;
    s.append(digit_str(f / 1000));
    s.append(digit_str(f / 100 % 10));
    s.append(digit_str(f / 10 % 10));
    s.append(digit_str(f % 10));
    assert(s@ =~= fixed4_text(v as int));
    s
}

} // verus!

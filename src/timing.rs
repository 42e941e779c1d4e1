//! Time values as whole microseconds, read from and written as decimal seconds.

use vstd::prelude::*;

verus! {

/// Microseconds in one second: every timestamp in this library is a count of
/// microseconds.
pub const MICROS_PER_SECOND: u64 = 1_000_000;

/// Digits kept after the decimal point of a time in seconds.
pub const FRACTION_DIGITS: usize = 6;

pub open spec fn is_digit(b: u8) -> bool {
    48 <= b <= 57
}

pub open spec fn all_digits(s: Seq<u8>) -> bool {
    forall|i: int| 0 <= i < s.len() ==> #[trigger] is_digit(s[i])
}

/// The number that a run of ASCII digits denotes.
pub open spec fn decimal_value(s: Seq<u8>) -> nat
    decreases s.len(),
{
    if s.len() == 0 {
        0
    } else {
        decimal_value(s.drop_last()) * 10 + (s.last() - 48) as nat
    }
}

pub open spec fn pow10(n: nat) -> nat
    decreases n,
{
    if n == 0 {
        1
    } else {
        10 * pow10((n - 1) as nat)
    }
}

/// ASCII white space, as `trim` removes it.
pub open spec fn is_space(b: u8) -> bool {
    b == 32 || (9 <= b <= 13)
}

/// The text without white space at either end.
pub open spec fn trimmed(s: Seq<u8>) -> Seq<u8>
    decreases s.len(),
{
    if s.len() > 0 && is_space(s[0]) {
        trimmed(s.drop_first())
    } else if s.len() > 0 && is_space(s.last()) {
        trimmed(s.drop_last())
    } else {
        s
    }
}

/// `k` splits `s` into an integer part `s[..k]` and, when `k < len`, a point
/// and a fraction `s[k+1..]`, both made of digits, with at least one digit.
pub open spec fn is_seconds_split(s: Seq<u8>, k: int) -> bool {
    &&& 0 <= k <= s.len()
    &&& all_digits(s.take(k))
    &&& (k == s.len() || (s[k] == 46u8 && all_digits(s.skip(k + 1))))
    &&& (k > 0 || s.len() > 1)
}

/// The fraction digits as microseconds: the first six digits, padded with
/// zeros; later digits are dropped.
pub open spec fn fraction_micros(f: Seq<u8>) -> nat {
    if f.len() >= FRACTION_DIGITS {
        decimal_value(f.take(FRACTION_DIGITS as int))
    } else {
        decimal_value(f) * pow10((FRACTION_DIGITS - f.len()) as nat)
    }
}

pub open spec fn split_micros(s: Seq<u8>, k: int) -> nat {
    let frac = if k < s.len() {
        s.skip(k + 1)
    } else {
        Seq::<u8>::empty()
    };
    (decimal_value(s.take(k)) * MICROS_PER_SECOND + fraction_micros(frac)) as nat
}

/// The microseconds that `s` denotes when it is written as decimal seconds
/// (`12`, `12.5`, `.5`, `12.`); `None` for any other text.
pub open spec fn seconds_value(s: Seq<u8>) -> Option<nat> {
    if exists|k: int| is_seconds_split(s, k) {
        Some(split_micros(s, choose|k: int| is_seconds_split(s, k)))
    } else {
        None
    }
}

pub open spec fn is_exponent_mark(b: u8) -> bool {
    b == 101u8 || b == 69u8
}

/// The value of an exponent part `x`: `e` or `E`, an optional sign, and
/// digits whose value fits in `u64`.
pub open spec fn exponent_value(x: Seq<u8>) -> Option<int> {
    if x.len() >= 1 && is_exponent_mark(x[0]) {
        let signed = x.len() >= 2 && (x[1] == 45u8 || x[1] == 43u8);
        let ds = if signed {
            x.skip(2)
        } else {
            x.skip(1)
        };
        if ds.len() > 0 && all_digits(ds) && decimal_value(ds) <= u64::MAX {
            Some(
                if signed && x[1] == 45u8 {
                    -(decimal_value(ds) as int)
                } else {
                    decimal_value(ds) as int
                },
            )
        } else {
            None
        }
    } else {
        None
    }
}

/// The digits of a mantissa `m` split at `k`, without its point.
pub open spec fn mantissa_digits(m: Seq<u8>, k: int) -> Seq<u8> {
    if k < m.len() {
        m.take(k) + m.skip(k + 1)
    } else {
        m.take(k)
    }
}

/// The whole number that the first `w` digits of `d` make, with zeros
/// appended where `d` has fewer.
pub open spec fn window_value(d: Seq<u8>, w: int) -> nat {
    if w <= 0 {
        0
    } else if w <= d.len() {
        decimal_value(d.take(w))
    } else {
        decimal_value(d) * pow10((w - d.len()) as nat)
    }
}

/// `t[..p]` is a mantissa split at `k` and `t[p..]` an exponent.
pub open spec fn is_scientific_split(t: Seq<u8>, p: int, k: int) -> bool {
    &&& 0 <= p <= t.len()
    &&& is_seconds_split(t.take(p), k)
    &&& exponent_value(t.skip(p)) is Some
}

/// The microseconds of `mantissa * 10^exponent` seconds, the digits past
/// the microseconds dropped: the decimal point moves by the exponent.
pub open spec fn scientific_micros(t: Seq<u8>, p: int, k: int) -> nat {
    window_value(
        mantissa_digits(t.take(p), k),
        k + FRACTION_DIGITS + exponent_value(t.skip(p)).unwrap(),
    )
}

/// The microseconds of a time written in decimal seconds, plain (`12.5`)
/// or with an exponent (`1.25e1`, `5e-05`).
#[verifier::opaque]
pub open spec fn time_value(t: Seq<u8>) -> Option<nat> {
    match seconds_value(t) {
        Some(v) => Some(v),
        None => if exists|p: int, k: int| is_scientific_split(t, p, k) {
            let pk = choose|p: int, k: int| is_scientific_split(t, p, k);
            Some(scientific_micros(t, pk.0, pk.1))
        } else {
            None
        },
    }
}

/// A time with an optional sign: `+` changes nothing, and a time before the
/// start (`-0.02`) is read as the start, 0, when its size fits in `u64`.
pub open spec fn signed_seconds_value(t: Seq<u8>) -> Option<nat> {
    if t.len() > 0 && t[0] == 45u8 {
        match fitting(time_value(t.drop_first())) {
            Some(_) => Some(0),
            None => None,
        }
    } else if t.len() > 0 && t[0] == 43u8 {
        time_value(t.drop_first())
    } else {
        time_value(t)
    }
}

/// A value as `u64`, when it fits.
pub open spec fn fitting(v: Option<nat>) -> Option<u64> {
    match v {
        Some(n) => if n <= u64::MAX {
            Some(n as u64)
        } else {
            None
        },
        None => None,
    }
}

/// What reading a time in seconds gives: the microseconds after white space
/// is trimmed, when the text is a time that fits in `u64`.
pub open spec fn parsed_seconds(s: Seq<u8>) -> Option<u64> {
    fitting(signed_seconds_value(trimmed(s)))
}

proof fn lemma_split_unique(s: Seq<u8>, k1: int, k2: int)
    requires
        is_seconds_split(s, k1),
        is_seconds_split(s, k2),
    ensures
        k1 == k2,
{
    if k1 < k2 {
        assert(s.take(k2)[k1] == s[k1] && is_digit(s.take(k2)[k1]));
    } else if k2 < k1 {
        assert(s.take(k1)[k2] == s[k2] && is_digit(s.take(k1)[k2]));
    }
}

proof fn lemma_decimal_push(s: Seq<u8>, i: int)
    requires
        0 <= i < s.len(),
    ensures
        decimal_value(s.take(i + 1)) == decimal_value(s.take(i)) * 10 + (s[i] - 48) as nat,
{
    assert(s.take(i + 1).drop_last() =~= s.take(i));
}

/// Reads the leading digits of `s[from..to]`: how many there are and their
/// value, or `None` when the value leaves `u64`.
pub(crate) fn read_digits(s: &[u8], from: usize, to: usize) -> (r: (usize, Option<u64>))
    requires
        from <= to <= s@.len(),
    ensures
        from <= r.0 <= to,
        all_digits(s@.subrange(from as int, r.0 as int)),
        r.0 == to || !is_digit(s@[r.0 as int]),
        r.1 == (if decimal_value(s@.subrange(from as int, r.0 as int)) <= u64::MAX {
            Some(decimal_value(s@.subrange(from as int, r.0 as int)) as u64)
        } else {
            None
        }),
{
    let mut i = from;
    let mut acc: Option<u64> = Some(0);
    while i < to && 48 <= s[i] && s[i] <= 57
        invariant
            from <= i <= to <= s@.len(),
            all_digits(s@.subrange(from as int, i as int)),
            acc == (if decimal_value(s@.subrange(from as int, i as int)) <= u64::MAX {
                Some(decimal_value(s@.subrange(from as int, i as int)) as u64)
            } else {
                None
            }),
        decreases to - i,
    {
        let ghost sub = s@.subrange(from as int, to as int);
        proof {
            lemma_decimal_push(sub, (i - from) as int);
            assert(sub.take((i - from) as int) =~= s@.subrange(from as int, i as int));
            assert(sub.take((i - from) as int + 1) =~= s@.subrange(from as int, i + 1));
        }
        let d = (s[i] - 48) as u64;
        acc = match acc {
            Some(v) => if v <= (u64::MAX - d) / 10 {
                Some(v * 10 + d)
            } else {
                None
            },
            None => None,
        };
        i = i + 1;
        assert(all_digits(s@.subrange(from as int, i as int))) by {
            assert forall|j: int| 0 <= j < i - from implies #[trigger] is_digit(
                s@.subrange(from as int, i as int)[j],
            ) by {
                if j < i - 1 - from {
                    assert(s@.subrange(from as int, i - 1)[j] == s@[from + j]);
                }
            }
        }
    }
    (i, acc)
}

/// The bounds of `s[from..to]` without white space at either end.
pub fn trim_bounds(s: &[u8], from: usize, to: usize) -> (r: (usize, usize))
    requires
        from <= to <= s@.len(),
    ensures
        from <= r.0 <= r.1 <= to,
        s@.subrange(r.0 as int, r.1 as int) == trimmed(s@.subrange(from as int, to as int)),
{
    let mut a = from;
    while a < to && (s[a] == 32 || (9 <= s[a] && s[a] <= 13))
        invariant
            from <= a <= to <= s@.len(),
            trimmed(s@.subrange(from as int, to as int)) == trimmed(s@.subrange(a as int, to as int)),
        decreases to - a,
    {
        assert(s@.subrange(a as int, to as int).drop_first() =~= s@.subrange(a + 1, to as int));
        a = a + 1;
    }
    let mut b = to;
    while b > a && (s[b - 1] == 32 || (9 <= s[b - 1] && s[b - 1] <= 13))
        invariant
            from <= a <= b <= to <= s@.len(),
            a < b ==> !is_space(s@[a as int]),
            trimmed(s@.subrange(from as int, to as int)) == trimmed(s@.subrange(a as int, b as int)),
        decreases b - a,
    {
        assert(s@.subrange(a as int, b as int).drop_last() =~= s@.subrange(a as int, b - 1));
        b = b - 1;
    }
    proof {
        let t = s@.subrange(a as int, b as int);
        if t.len() > 0 {
            assert(t[0] == s@[a as int]);
            assert(t.last() == s@[b - 1]);
        }
    }
    (a, b)
}

/// Reads the fraction digits `s[from..to]` as microseconds.
fn read_fraction(s: &[u8], from: usize, to: usize) -> (r: u64)
    requires
        from <= to <= s@.len(),
        all_digits(s@.subrange(from as int, to as int)),
    ensures
        r == fraction_micros(s@.subrange(from as int, to as int)),
        r < MICROS_PER_SECOND,
{
    let ghost f = s@.subrange(from as int, to as int);
    let stop = if to - from > FRACTION_DIGITS {
        from + FRACTION_DIGITS
    } else {
        to
    };
    let (end, first) = read_digits(s, from, stop);
    if end < stop {
        assert(f[end - from] == s@[end as int]);
        assert(is_digit(f[end - from]));
    }
    assert(end == stop);
    let ghost head = s@.subrange(from as int, stop as int);
    proof {
        if f.len() >= FRACTION_DIGITS {
            assert(f.take(FRACTION_DIGITS as int) =~= head);
        } else {
            assert(f =~= head);
        }
        assert(all_digits(head)) by {
            assert forall|i: int| 0 <= i < head.len() implies #[trigger] is_digit(head[i]) by {
                assert(head[i] == f[i]);
            }
        }
        lemma_decimal_below_pow10(head);
        lemma_pow10_mono((stop - from) as nat, FRACTION_DIGITS as nat);
        lemma_pow10_six();
        assert(pow10(0) == 1);
    }
    let mut frac = first.unwrap();
    let mut places = stop - from;
    assert(frac == decimal_value(head));
    assert((places - (stop - from)) as nat == 0);
    assert(frac == decimal_value(head) * pow10((places - (stop - from)) as nat));
    while places < FRACTION_DIGITS
        invariant
            from <= stop <= to <= s@.len(),
            head == s@.subrange(from as int, stop as int),
            stop - from <= places <= FRACTION_DIGITS,
            frac == decimal_value(head) * pow10((places - (stop - from)) as nat),
            frac < pow10(places as nat),
        decreases FRACTION_DIGITS - places,
    {
        proof {
            lemma_pow10_mono((places + 1) as nat, FRACTION_DIGITS as nat);
            lemma_pow10_six();
        }
        let ghost before = frac;
        frac = frac * 10;
        places = places + 1;
        proof {
            let e = (places - (stop - from)) as nat;
            assert(pow10(e) == 10 * pow10((e - 1) as nat));
            assert(frac == decimal_value(head) * pow10(e)) by (nonlinear_arith)
                requires
                    before == decimal_value(head) * pow10((e - 1) as nat),
                    frac == before * 10,
                    pow10(e) == 10 * pow10((e - 1) as nat),
            ;
        }
    }
    proof {
        lemma_pow10_six();
        assert(pow10(0) == 1);
        if f.len() < FRACTION_DIGITS {
            assert(f.len() == stop - from);
        }
    }
    frac
}

proof fn lemma_fraction_of_nothing()
    ensures
        fraction_micros(Seq::<u8>::empty()) == 0,
{
    let e = Seq::<u8>::empty();
    assert(decimal_value(e) == 0);
    let p = pow10((FRACTION_DIGITS - e.len()) as nat);
    assert(0 * p == 0) by (nonlinear_arith);
}

proof fn lemma_seconds_value_at(t: Seq<u8>, k: int)
    requires
        is_seconds_split(t, k),
    ensures
        seconds_value(t) == Some(split_micros(t, k)),
{
    let j = choose|j: int| is_seconds_split(t, j);
    lemma_split_unique(t, j, k);
}

/// With `k` the end of the leading digits, `t` is no time unless `k` splits it.
proof fn lemma_seconds_value_none(t: Seq<u8>, k: int)
    requires
        0 <= k <= t.len(),
        all_digits(t.take(k)),
        k == t.len() || !is_digit(t[k]),
        !is_seconds_split(t, k),
    ensures
        seconds_value(t) is None,
{
    if exists|j: int| is_seconds_split(t, j) {
        let j = choose|j: int| is_seconds_split(t, j);
        if j < k {
            assert(is_digit(t.take(k)[j]));
        } else if j > k {
            assert(is_digit(t.take(j)[k]));
        } else {
        }
    }
}

/// Reads a time written in decimal seconds, with white space around it, as
/// microseconds.
pub fn parse_seconds(s: &[u8]) -> (r: Option<u64>)
    ensures
        r == parsed_seconds(s@),
{
    let (a, b) = trim_bounds(s, 0, s.len());
    assert(s@.subrange(0, s@.len() as int) =~= s@);
    let ghost t = s@.subrange(a as int, b as int);
    if a < b && (s[a] == 45 || s[a] == 43) {
        assert(t[0] == s@[a as int]);
        assert(t.drop_first() =~= s@.subrange(a + 1, b as int));
        let v = read_time(s, a + 1, b);
        if s[a] == 45 {
            match v {
                Some(_) => Some(0),
                None => None,
            }
        } else {
            v
        }
    } else {
        read_time(s, a, b)
    }
}

proof fn lemma_split_chars(m: Seq<u8>, k: int, i: int)
    requires
        is_seconds_split(m, k),
        0 <= i < m.len(),
    ensures
        is_digit(m[i]) || (i == k && m[i] == 46u8),
{
    if i < k {
        assert(is_digit(m.take(k)[i]));
    } else if i > k {
        assert(is_digit(m.skip(k + 1)[i - k - 1]));
    }
}

/// The first exponent mark in `s[a..b]`, or `b`.
fn first_mark(s: &[u8], a: usize, b: usize) -> (p: usize)
    requires
        a <= b <= s@.len(),
    ensures
        a <= p <= b,
        forall|j: int| a <= j < p ==> !is_exponent_mark(#[trigger] s@[j]),
        p < b ==> is_exponent_mark(s@[p as int]),
{
    let mut p = a;
    while p < b && s[p] != 101 && s[p] != 69
        invariant
            a <= p <= b <= s@.len(),
            forall|j: int| a <= j < p ==> !is_exponent_mark(#[trigger] s@[j]),
        decreases b - p,
    {
        p = p + 1;
    }
    p
}

/// Where `s[a..p]` splits as a time without exponent, if it does.
fn mantissa_split(s: &[u8], a: usize, p: usize) -> (r: Option<usize>)
    requires
        a <= p <= s@.len(),
    ensures
        match r {
            Some(k) => a <= k <= p && is_seconds_split(s@.subrange(a as int, p as int), k - a),
            None => forall|k: int| !is_seconds_split(s@.subrange(a as int, p as int), k),
        },
{
    let ghost t = s@.subrange(a as int, p as int);
    let (k, _) = read_digits(s, a, p);
    let ghost kk = (k - a) as int;
    assert(t.take(kk) =~= s@.subrange(a as int, k as int));
    if k < p {
        assert(t[kk] == s@[k as int]);
    }
    let has_point = k < p && s[k] == 46;
    if has_point {
        let (e, _) = read_digits(s, k + 1, p);
        if e < p {
            proof {
                assert(t.skip(kk + 1)[e - k - 1] == s@[e as int]);
                lemma_seconds_value_none(t, kk);
            }
            return None;
        }
        assert(t.skip(kk + 1) =~= s@.subrange(k + 1, p as int));
    }
    if !(k == p || has_point) || (k == a && p - a <= 1) {
        proof {
            lemma_seconds_value_none(t, kk);
        }
        return None;
    }
    Some(k)
}

/// The sign and size of the exponent `s[p..b]`.
fn read_exponent(s: &[u8], p: usize, b: usize) -> (r: Option<(bool, u64)>)
    requires
        p < b <= s@.len(),
    ensures
        match exponent_value(s@.subrange(p as int, b as int)) {
            Some(v) => r matches Some(x) && v == (if x.0 {
                -(x.1 as int)
            } else {
                x.1 as int
            }),
            None => r is None,
        },
{
    let ghost x = s@.subrange(p as int, b as int);
    assert(x[0] == s@[p as int]);
    if s[p] != 101 && s[p] != 69 {
        return None;
    }
    let signed = p + 1 < b && (s[p + 1] == 45 || s[p + 1] == 43);
    if p + 1 < b {
        assert(x[1] == s@[p + 1]);
    }
    let from = if signed {
        p + 2
    } else {
        p + 1
    };
    assert(x.skip(from - p) =~= s@.subrange(from as int, b as int));
    let (end, value) = read_digits(s, from, b);
    if end == from || end < b {
        proof {
            if end < b {
                assert(x.skip(from - p)[end - from] == s@[end as int]);
            }
        }
        return None;
    }
    assert(s@.subrange(from as int, end as int) =~= x.skip(from - p));
    match value {
        Some(v) => Some((signed && s[p + 1] == 45, v)),
        None => None,
    }
}

/// The digits of the mantissa `s[a..p]` split at `k`, without its point.
fn mantissa_digit_vec(s: &[u8], a: usize, k: usize, p: usize) -> (d: Vec<u8>)
    requires
        a <= k <= p <= s@.len(),
    ensures
        d@ == mantissa_digits(s@.subrange(a as int, p as int), k - a),
{
    let ghost m = s@.subrange(a as int, p as int);
    let mut d: Vec<u8> = Vec::new();
    let mut i = a;
    while i < k
        invariant
            a <= i <= k <= p <= s@.len(),
            d@ == s@.subrange(a as int, i as int),
        decreases k - i,
    {
        d.push(s[i]);
        i = i + 1;
        assert(d@ =~= s@.subrange(a as int, i as int));
    }
    assert(m.take(k - a) =~= d@);
    if k < p {
        let ghost head = d@;
        let mut j = k + 1;
        assert(d@ =~= head + s@.subrange(k + 1, j as int));
        while j < p
            invariant
                k < j <= p <= s@.len(),
                d@ == head + s@.subrange(k + 1, j as int),
            decreases p - j,
        {
            d.push(s[j]);
            j = j + 1;
            assert(d@ =~= head + s@.subrange(k + 1, j as int));
        }
        assert(m.skip(k - a + 1) =~= s@.subrange(k + 1, p as int));
    }
    d
}

proof fn lemma_all_digits_sub(m: Seq<u8>, k: int)
    requires
        is_seconds_split(m, k),
    ensures
        all_digits(mantissa_digits(m, k)),
{
    let d = mantissa_digits(m, k);
    assert forall|i: int| 0 <= i < d.len() implies #[trigger] is_digit(d[i]) by {
        if i < k {
            assert(is_digit(m.take(k)[i]));
        } else {
            assert(is_digit(m.skip(k + 1)[i - k]));
        }
    }
}

/// The first `w` digits of `d`, with zeros appended, as a number that fits.
fn read_window(d: &Vec<u8>, w: i128) -> (r: Option<u64>)
    requires
        all_digits(d@),
    ensures
        r == fitting(Some(window_value(d@, w as int))),
{
    let n = d.len();
    if w <= 0 {
        return Some(0);
    }
    if w <= n as i128 {
        let (end, value) = read_digits(d.as_slice(), 0, w as usize);
        assert(d@.subrange(0, w as int) =~= d@.take(w as int));
        if end < w as usize {
            assert(is_digit(d@[end as int]));
        }
        return value;
    }
    let (end, value) = read_digits(d.as_slice(), 0, n);
    assert(d@.subrange(0, n as int) =~= d@);
    if end < n {
        assert(is_digit(d@[end as int]));
    }
    let ghost whole = decimal_value(d@);
    let ghost x = (w - n) as nat;
    proof {
        lemma_pow10_mono(0, x);
    }
    let v = match value {
        Some(v) => v,
        None => {
            assert(whole * pow10(x) >= whole) by (nonlinear_arith)
                requires
                    pow10(x) >= 1,
            ;
            return None;
        },
    };
    if v == 0 {
        assert(whole * pow10(x) == 0) by (nonlinear_arith)
            requires
                whole == 0,
        ;
        return Some(0);
    }
    let mut acc: u64 = v;
    let mut i: i128 = 0;
    assert(acc == whole * pow10(0)) by {
        assert(pow10(0) == 1);
    }
    while i < w - n as i128
        invariant
            0 <= i <= w - n,
            x == w - n,
            n == d@.len(),
            w > n,
            whole == decimal_value(d@),
            whole == v,
            v >= 1,
            acc == whole * pow10(i as nat),
        decreases w - n as i128 - i,
    {
        match acc.checked_mul(10) {
            Some(next) => {
                proof {
                    assert(pow10((i + 1) as nat) == 10 * pow10(i as nat));
                    assert(next == whole * pow10((i + 1) as nat)) by (nonlinear_arith)
                        requires
                            next == acc * 10,
                            acc == whole * pow10(i as nat),
                            pow10((i + 1) as nat) == 10 * pow10(i as nat),
                    ;
                }
                acc = next;
            },
            None => {
                proof {
                    assert(pow10((i + 1) as nat) == 10 * pow10(i as nat));
                    lemma_pow10_mono((i + 1) as nat, x);
                    assert(whole * pow10(x) >= whole * pow10((i + 1) as nat)) by (nonlinear_arith)
                        requires
                            pow10(x) >= pow10((i + 1) as nat),
                            whole >= 1,
                    ;
                    assert(whole * pow10((i + 1) as nat) == acc * 10) by (nonlinear_arith)
                        requires
                            acc == whole * pow10(i as nat),
                            pow10((i + 1) as nat) == 10 * pow10(i as nat),
                    ;
                }
                return None;
            },
        }
        i = i + 1;
    }
    Some(acc)
}

/// Reads `s[a..b]` as a time in decimal seconds without a sign, plain or
/// with an exponent.
fn read_time(s: &[u8], a: usize, b: usize) -> (r: Option<u64>)
    requires
        a <= b <= s@.len(),
    ensures
        r == fitting(time_value(s@.subrange(a as int, b as int))),
{
    reveal(time_value);
    let ghost t = s@.subrange(a as int, b as int);
    let p = first_mark(s, a, b);
    let ghost pp = (p - a) as int;
    if p == b {
        proof {
            assert forall|q: int, k: int| !is_scientific_split(t, q, k) by {
                if 0 <= q < t.len() {
                    assert(t[q] == s@[a + q]);
                }
                if is_scientific_split(t, q, k) {
                    assert(t.skip(q).len() >= 1);
                    assert(t.skip(q)[0] == t[q]);
                }
            }
        }
        return read_unsigned_seconds(s, a, b);
    }
    proof {
        assert(t[pp] == s@[p as int]);
        assert forall|k: int| !is_seconds_split(t, k) by {
            if is_seconds_split(t, k) {
                lemma_split_chars(t, k, pp);
            }
        }
    }
    let ghost m = t.take(pp);
    assert(m =~= s@.subrange(a as int, p as int));
    assert(t.skip(pp) =~= s@.subrange(p as int, b as int));
    // Any split of `t` puts the exponent at its first mark.
    proof {
        assert forall|q: int, k: int| is_scientific_split(t, q, k) implies q == pp by {
            if q < pp {
                assert(t.skip(q)[0] == t[q]);
                assert(t[q] == s@[a + q]);
            } else if q > pp {
                assert(t.take(q)[pp] == t[pp]);
                lemma_split_chars(t.take(q), k, pp);
            }
        }
    }
    let k = match mantissa_split(s, a, p) {
        Some(k) => k,
        None => {
            proof {
                assert forall|q: int, j: int| !is_scientific_split(t, q, j) by {
                    if is_scientific_split(t, q, j) {
                        assert(q == pp);
                    }
                }
            }
            return None;
        },
    };
    let (negative, e) = match read_exponent(s, p, b) {
        Some(x) => x,
        None => {
            proof {
                assert forall|q: int, j: int| !is_scientific_split(t, q, j) by {
                    if is_scientific_split(t, q, j) {
                        assert(q == pp);
                    }
                }
            }
            return None;
        },
    };
    let ghost kk = (k - a) as int;
    proof {
        assert(is_scientific_split(t, pp, kk));
        let pk = choose|q: int, j: int| is_scientific_split(t, q, j);
        assert(pk.0 == pp);
        lemma_split_unique(m, pk.1, kk);
        lemma_all_digits_sub(m, kk);
    }
    let d = mantissa_digit_vec(s, a, k, p);
    let w: i128 = if negative {
        (k - a) as i128 + FRACTION_DIGITS as i128 - e as i128
    } else {
        (k - a) as i128 + FRACTION_DIGITS as i128 + e as i128
    };
    read_window(&d, w)
}

/// Reads `s[a..b]` as decimal seconds without a sign.
fn read_unsigned_seconds(s: &[u8], a: usize, b: usize) -> (r: Option<u64>)
    requires
        a <= b <= s@.len(),
    ensures
        r == fitting(seconds_value(s@.subrange(a as int, b as int))),
{
    let ghost t = s@.subrange(a as int, b as int);
    let (k, int_value) = read_digits(s, a, b);
    let ghost kk = (k - a) as int;
    assert(t.take(kk) =~= s@.subrange(a as int, k as int));
    if k < b {
        assert(t[kk] == s@[k as int]);
    }
    let has_point = k < b && s[k] == 46;
    let mut frac: u64 = 0;
    if has_point {
        let (e, _) = read_digits(s, k + 1, b);
        if e < b {
            proof {
                assert(t.skip(kk + 1)[e - k - 1] == s@[e as int]);
                lemma_seconds_value_none(t, kk);
            }
            return None;
        }
        assert(t.skip(kk + 1) =~= s@.subrange(k + 1, b as int));
        frac = read_fraction(s, k + 1, b);
    }
    if !(k == b || has_point) || (k == a && b - a <= 1) {
        proof {
            lemma_seconds_value_none(t, kk);
        }
        return None;
    }
    proof {
        lemma_seconds_value_at(t, kk);
        if !has_point {
            assert(decimal_value(Seq::<u8>::empty()) == 0);
            lemma_fraction_of_nothing();
        }
    }
    let ghost whole = decimal_value(t.take(kk));
    assert(whole * MICROS_PER_SECOND >= whole) by (nonlinear_arith);
    match int_value {
        Some(v) => match v.checked_mul(MICROS_PER_SECOND) {
            Some(m) => m.checked_add(frac),
            None => None,
        },
        None => None,
    }
}

proof fn lemma_pow10_mono(a: nat, b: nat)
    requires
        a <= b,
    ensures
        1 <= pow10(a) <= pow10(b),
    decreases b,
{
    if a < b {
        lemma_pow10_mono(a, (b - 1) as nat);
    } else if a > 0 {
        lemma_pow10_mono((a - 1) as nat, (a - 1) as nat);
    }
}

proof fn lemma_pow10_six()
    ensures
        pow10(FRACTION_DIGITS as nat) == MICROS_PER_SECOND,
{
    reveal_with_fuel(pow10, 7);
}

proof fn lemma_decimal_below_pow10(s: Seq<u8>)
    requires
        all_digits(s),
    ensures
        decimal_value(s) < pow10(s.len()),
    decreases s.len(),
{
    if s.len() > 0 {
        assert(is_digit(s[s.len() - 1]));
        assert(all_digits(s.drop_last())) by {
            assert forall|i: int| 0 <= i < s.drop_last().len() implies #[trigger] is_digit(
                s.drop_last()[i],
            ) by {
                assert(is_digit(s[i]));
            }
        }
        lemma_decimal_below_pow10(s.drop_last());
    }
}

pub open spec fn digit_char(d: nat) -> char {
    if d == 0 { '0' }
    else if d == 1 { '1' }
    else if d == 2 { '2' }
    else if d == 3 { '3' }
    else if d == 4 { '4' }
    else if d == 5 { '5' }
    else if d == 6 { '6' }
    else if d == 7 { '7' }
    else if d == 8 { '8' }
    else { '9' }
}

/// `n` in decimal, without leading zeros.
pub open spec fn decimal_chars(n: nat) -> Seq<char>
    decreases n,
{
    if n < 10 {
        seq![digit_char(n)]
    } else {
        decimal_chars(n / 10).push(digit_char(n % 10))
    }
}

/// The last `width` decimal digits of `n`, with leading zeros.
pub open spec fn padded_chars(n: nat, width: nat) -> Seq<char>
    decreases width,
{
    if width == 0 {
        seq![]
    } else {
        padded_chars(n / 10, (width - 1) as nat).push(digit_char(n % 10))
    }
}

/// The digits of a fraction `f / 10^width`, without trailing zeros.
pub open spec fn fraction_chars(f: nat, width: nat) -> Seq<char>
    decreases width,
{
    if width > 0 && f % 10 == 0 {
        fraction_chars(f / 10, (width - 1) as nat)
    } else {
        padded_chars(f, width)
    }
}

/// A time in microseconds written as decimal seconds: whole seconds, then a
/// point and the fraction only when there is one (`90`, `90.5`, `0.000125`).
pub open spec fn seconds_chars(t: nat) -> Seq<char> {
    let whole = t / MICROS_PER_SECOND as nat;
    let frac = t % MICROS_PER_SECOND as nat;
    if frac == 0 {
        decimal_chars(whole)
    } else {
        decimal_chars(whole) + seq!['.'] + fraction_chars(frac, FRACTION_DIGITS as nat)
    }
}

fn digit_str(d: u64) -> (r: &'static str)
    requires
        d < 10,
    ensures
        r@ == seq![digit_char(d as nat)],
{
    if d == 0 {
        proof { reveal_strlit("0"); }
        "0"
    } else if d == 1 {
        proof { reveal_strlit("1"); }
        "1"
    } else if d == 2 {
        proof { reveal_strlit("2"); }
        "2"
    } else if d == 3 {
        proof { reveal_strlit("3"); }
        "3"
    } else if d == 4 {
        proof { reveal_strlit("4"); }
        "4"
    } else if d == 5 {
        proof { reveal_strlit("5"); }
        "5"
    } else if d == 6 {
        proof { reveal_strlit("6"); }
        "6"
    } else if d == 7 {
        proof { reveal_strlit("7"); }
        "7"
    } else if d == 8 {
        proof { reveal_strlit("8"); }
        "8"
    } else {
        proof { reveal_strlit("9"); }
        "9"
    }
}

fn push_decimal(out: &mut String, n: u64)
    ensures
        final(out)@ == old(out)@ + decimal_chars(n as nat),
    decreases n,
{
    if n >= 10 {
        push_decimal(out, n / 10);
    }
    out.append(digit_str(n % 10));
}

fn push_padded(out: &mut String, n: u64, width: u64)
    ensures
        final(out)@ == old(out)@ + padded_chars(n as nat, width as nat),
    decreases width,
{
    if width > 0 {
        push_padded(out, n / 10, width - 1);
        out.append(digit_str(n % 10));
    }
}

fn push_fraction(out: &mut String, f: u64, width: u64)
    ensures
        final(out)@ == old(out)@ + fraction_chars(f as nat, width as nat),
    decreases width,
{
    if width > 0 && f % 10 == 0 {
        push_fraction(out, f / 10, width - 1);
    } else {
        push_padded(out, f, width);
    }
}

/// Appends a time in microseconds as decimal seconds.
pub fn push_seconds(out: &mut String, t: u64)
    ensures
        final(out)@ == old(out)@ + seconds_chars(t as nat),
{
    push_decimal(out, t / MICROS_PER_SECOND);
    let frac = t % MICROS_PER_SECOND;
    if frac != 0 {
        proof { reveal_strlit("."); }
        out.append(".");
        push_fraction(out, frac, FRACTION_DIGITS as u64);
    }
    assert(out@ =~= old(out)@ + seconds_chars(t as nat));
}

/// A time in microseconds written as decimal seconds.
pub fn format_seconds(t: u64) -> (r: String)
    ensures
        r@ == seconds_chars(t as nat),
{
    let mut out = String::new();
    push_seconds(&mut out, t);
    assert(out@ =~= seconds_chars(t as nat));
    out
}

} // verus!

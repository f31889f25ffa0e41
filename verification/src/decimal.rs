//! Reading a position's coordinate from a token in Rust's float syntax: an optional
//! sign, digits with an optional decimal point, and an optional exponent. Positions
//! on the field are whole cells, so a token is read when the number it writes is a
//! whole number; a token whose number has a fractional part, and the words `inf`,
//! `infinity` and `nan`, are not read (the field keeps its value).
use vstd::prelude::*;
use vstd::arithmetic::div_mod::lemma_fundamental_div_mod_converse;
use crate::protocol::{is_digit, digits_value, sat_i32};

verus! {

/// `10` to the power `k`.
pub open spec fn pow10(k: nat) -> nat
    decreases k,
{
    if k == 0 {
        1
    } else {
        10 * pow10((k - 1) as nat)
    }
}

/// Every byte of `s` is a decimal digit (`s` may be empty).
pub open spec fn digits_only(s: Seq<u8>) -> bool {
    forall|i: int| 0 <= i < s.len() ==> is_digit(#[trigger] s[i])
}

/// The end of the run of digits of `s` that starts at `from`.
pub open spec fn run_end(s: Seq<u8>, from: int) -> int
    decreases s.len() - from,
{
    if 0 <= from < s.len() && is_digit(s[from]) {
        run_end(s, from + 1)
    } else {
        from
    }
}

/// The exponent part of a number in float syntax, starting at `c`: nothing at the end
/// of the token, or `e`/`E`, an optional sign and digits reaching the end. Gives whether
/// the exponent is negative and its digits.
pub open spec fn exponent_parts(s: Seq<u8>, c: int) -> Option<(bool, Seq<u8>)> {
    if c == s.len() {
        Some((false, Seq::<u8>::empty()))
    } else if s[c] == 101u8 || s[c] == 69u8 {
        let d: int = if c + 1 < s.len() && (s[c + 1] == 43u8 || s[c + 1] == 45u8) {
            c + 2
        } else {
            c + 1
        };
        let eneg = c + 1 < s.len() && s[c + 1] == 45u8;
        let f = run_end(s, d);
        if f == s.len() && f > d {
            Some((eneg, s.subrange(d, f)))
        } else {
            None
        }
    } else {
        None
    }
}

/// The parts of a number in float syntax: whether it is negative, the digits of its
/// mantissa (those before the decimal point, then those after it), the number of
/// digits after the point, whether the exponent is negative, and the exponent's digits.
pub open spec fn float_parts(s: Seq<u8>) -> Option<(bool, Seq<u8>, nat, bool, Seq<u8>)> {
    let a: int = if s.len() > 0 && (s[0] == 43u8 || s[0] == 45u8) { 1 } else { 0 };
    let neg = s.len() > 0 && s[0] == 45u8;
    let b = run_end(s, a);
    let dot = b < s.len() && s[b] == 46u8;
    let c = if dot { run_end(s, b + 1) } else { b };
    let frac = if dot { s.subrange(b + 1, c) } else { Seq::<u8>::empty() };
    let mant = s.subrange(a, b) + frac;
    if mant.len() == 0 {
        None
    } else {
        match exponent_parts(s, c) {
            Some((eneg, ex)) => Some((neg, mant, frac.len(), eneg, ex)),
            None => None,
        }
    }
}

/// `m * 10^k` when it is a whole number.
pub open spec fn whole_value(m: nat, k: int) -> Option<nat> {
    if k >= 0 {
        Some(m * pow10(k as nat))
    } else if m % pow10((-k) as nat) == 0 {
        Some(m / pow10((-k) as nat))
    } else {
        None
    }
}

/// The whole number that a token in float syntax writes, if it writes one.
pub open spec fn float_whole_spec(tok: Seq<u8>) -> Option<int> {
    match float_parts(tok) {
        None => None,
        Some((neg, mant, fl, eneg, ex)) => {
            let e = digits_value(ex) as int;
            let k = (if eneg { -e } else { e }) - fl;
            match whole_value(digits_value(mant), k) {
                Some(v) => Some(if neg { -(v as int) } else { v as int }),
                None => None,
            }
        },
    }
}

/// A coordinate: a token in float syntax that writes a whole number, clamped to the
/// range of `i32` (as a float is clamped when cast to an integer).
pub open spec fn parse_coord_spec(tok: Seq<u8>) -> Option<i32> {
    match float_whole_spec(tok) {
        Some(v) => Some(sat_i32(v) as i32),
        None => None,
    }
}

/// Magnitudes at and beyond `2^31` are all clamped alike.
pub open spec fn cap31(v: nat) -> nat {
    if v < 0x8000_0000 {
        v
    } else {
        0x8000_0000
    }
}

/// A whole value, clamped.
pub open spec fn cap_whole(o: Option<nat>) -> Option<nat> {
    match o {
        Some(v) => Some(cap31(v)),
        None => None,
    }
}

/// Powers of ten are positive and grow with the exponent.
pub proof fn lemma_pow10(i: nat, j: nat)
    requires
        i <= j,
    ensures
        0 < pow10(i) <= pow10(j),
        pow10(i + 1) == 10 * pow10(i),
    decreases j,
{
    if i < j {
        lemma_pow10(i, (j - 1) as nat);
    } else if i > 0 {
        lemma_pow10((i - 1) as nat, (i - 1) as nat);
    }
}

/// `10^10` is beyond the clamp.
pub proof fn lemma_pow10_ten()
    ensures
        pow10(10) == 10_000_000_000,
{
    reveal_with_fuel(pow10, 11);
}

/// The run of digits starting at `from` ends at the first byte that is not a digit.
pub proof fn lemma_run_end(s: Seq<u8>, from: int)
    requires
        0 <= from <= s.len(),
    ensures
        from <= run_end(s, from) <= s.len(),
        forall|i: int| from <= i < run_end(s, from) ==> is_digit(#[trigger] s[i]),
        run_end(s, from) < s.len() ==> !is_digit(s[run_end(s, from)]),
    decreases s.len() - from,
{
    if from < s.len() && is_digit(s[from]) {
        lemma_run_end(s, from + 1);
    }
}

/// A run of digits that reaches the end of `s`.
pub proof fn lemma_run_to_end(s: Seq<u8>, from: int)
    requires
        0 <= from <= s.len(),
        forall|i: int| from <= i < s.len() ==> is_digit(#[trigger] s[i]),
    ensures
        run_end(s, from) == s.len(),
    decreases s.len() - from,
{
    if from < s.len() {
        lemma_run_to_end(s, from + 1);
    }
}

/// Digits denote a number below `10^len`.
pub proof fn lemma_digits_bound(s: Seq<u8>)
    requires
        digits_only(s),
    ensures
        digits_value(s) < pow10(s.len()),
    decreases s.len(),
{
    if s.len() > 0 {
        let t = s.drop_last();
        assert(digits_only(t)) by {
            assert forall|i: int| 0 <= i < t.len() implies is_digit(#[trigger] t[i]) by {
                assert(t[i] == s[i]);
            }
        }
        lemma_digits_bound(t);
        lemma_pow10((t.len()) as nat, (t.len()) as nat);
        assert(is_digit(s[s.len() - 1]));
        let d = (s.last() - 48) as nat;
        assert(digits_value(t) * 10 + d < pow10(s.len())) by (nonlinear_arith)
            requires
                digits_value(t) < pow10(t.len()),
                d < 10,
                pow10(s.len()) == 10 * pow10(t.len()),
        ;
    }
}

/// The value of two runs of digits written one after the other.
pub proof fn lemma_digits_concat(a: Seq<u8>, b: Seq<u8>)
    ensures
        digits_value(a + b) == digits_value(a) * pow10(b.len()) + digits_value(b),
    decreases b.len(),
{
    if b.len() == 0 {
        assert(a + b =~= a);
        assert(pow10(0) == 1);
        assert(digits_value(a) * 1 == digits_value(a)) by (nonlinear_arith);
    } else {
        let b0 = b.drop_last();
        lemma_digits_concat(a, b0);
        assert((a + b).drop_last() =~= a + b0);
        assert((a + b).last() == b.last());
        lemma_pow10(b0.len() as nat, b0.len() as nat);
        let d = (b.last() - 48) as nat;
        assert((digits_value(a) * pow10(b0.len()) + digits_value(b0)) * 10 + d == digits_value(a)
            * pow10(b.len()) + (digits_value(b0) * 10 + d)) by (nonlinear_arith)
            requires
                pow10(b.len()) == 10 * pow10(b0.len()),
        ;
        assert(digits_value(a + b) == digits_value(a + b0) * 10 + d);
        assert(digits_value(b) == digits_value(b0) * 10 + d);
    }
}

/// Digits denote zero exactly when they are all `0`.
pub proof fn lemma_digits_zero(s: Seq<u8>)
    requires
        digits_only(s),
    ensures
        (digits_value(s) == 0) == (forall|i: int| 0 <= i < s.len() ==> #[trigger] s[i] == 48u8),
    decreases s.len(),
{
    if s.len() > 0 {
        let t = s.drop_last();
        assert(digits_only(t)) by {
            assert forall|i: int| 0 <= i < t.len() implies is_digit(#[trigger] t[i]) by {
                assert(t[i] == s[i]);
            }
        }
        lemma_digits_zero(t);
        assert(is_digit(s[s.len() - 1]));
        if digits_value(s) == 0 {
            assert forall|i: int| 0 <= i < s.len() implies #[trigger] s[i] == 48u8 by {
                if i < s.len() - 1 {
                    assert(s[i] == t[i]);
                }
            }
        }
        if forall|i: int| 0 <= i < s.len() ==> #[trigger] s[i] == 48u8 {
            assert forall|i: int| 0 <= i < t.len() implies #[trigger] t[i] == 48u8 by {
                assert(t[i] == s[i]);
            }
            assert(s[s.len() - 1] == 48u8);
        }
    }
}


/// With the last `j` of its digits as the fraction, a number of digits is whole exactly
/// when those digits are all `0`, and then it is the number the others write.
pub proof fn lemma_whole_negative(d: Seq<u8>, j: nat)
    requires
        digits_only(d),
        j > 0,
    ensures
        j >= d.len() ==> whole_value(digits_value(d), -(j as int)) == (if digits_value(d) == 0 {
            Some(0nat)
        } else {
            None
        }),
        j < d.len() ==> whole_value(digits_value(d), -(j as int)) == (if (forall|i: int|
            d.len() - j <= i < d.len() ==> #[trigger] d[i] == 48u8) {
            Some(digits_value(d.subrange(0, d.len() - j)))
        } else {
            None
        }),
{
    let m = digits_value(d);
    lemma_digits_bound(d);
    if j >= d.len() {
        lemma_pow10(d.len(), j);
        lemma_fundamental_div_mod_converse(m as int, pow10(j) as int, 0, m as int);
    } else {
        let a = d.subrange(0, d.len() - j);
        let b = d.subrange(d.len() - j, d.len() as int);
        assert(d =~= a + b);
        assert(digits_only(b)) by {
            assert forall|i: int| 0 <= i < b.len() implies is_digit(#[trigger] b[i]) by {
                assert(b[i] == d[i + d.len() - j]);
            }
        }
        lemma_digits_concat(a, b);
        lemma_digits_bound(b);
        lemma_digits_zero(b);
        lemma_fundamental_div_mod_converse(
            m as int,
            pow10(j) as int,
            digits_value(a) as int,
            digits_value(b) as int,
        );
        if forall|i: int| d.len() - j <= i < d.len() ==> #[trigger] d[i] == 48u8 {
            assert forall|i: int| 0 <= i < b.len() implies #[trigger] b[i] == 48u8 by {
                assert(b[i] == d[i + d.len() - j]);
            }
        } else {
            let i = choose|i: int| d.len() - j <= i < d.len() && #[trigger] d[i] != 48u8;
            assert(b[i - (d.len() - j)] == d[i]);
        }
    }
}

/// An exponent far beyond the length of the token gives the same clamped result as
/// one just beyond it.
pub proof fn lemma_exponent_cap(m: nat, n: nat, fl: nat, len: nat, eneg: bool, e: nat)
    requires
        m < pow10(n),
        n <= len,
        fl <= len,
        e >= len + 64,
    ensures
        cap_whole(whole_value(m, (if eneg { -(e as int) } else { e as int }) - fl)) == cap_whole(
            whole_value(m, (if eneg { -((len + 64) as int) } else { (len + 64) as int }) - fl),
        ),
{
    let c: nat = len + 64;
    if !eneg {
        let k1 = (e - fl) as nat;
        let k2 = (c - fl) as nat;
        lemma_pow10(10, k1);
        lemma_pow10(10, k2);
        lemma_pow10_ten();
        if m > 0 {
            assert(m * pow10(k1) >= pow10(k1)) by (nonlinear_arith)
                requires
                    m > 0,
            ;
            assert(m * pow10(k2) >= pow10(k2)) by (nonlinear_arith)
                requires
                    m > 0,
            ;
        } else {
            assert(m * pow10(k1) == 0) by (nonlinear_arith)
                requires
                    m == 0,
            ;
            assert(m * pow10(k2) == 0) by (nonlinear_arith)
                requires
                    m == 0,
            ;
        }
    } else {
        let j1 = e + fl;
        let j2 = c + fl;
        lemma_pow10(n, j1);
        lemma_pow10(n, j2);
        lemma_fundamental_div_mod_converse(m as int, pow10(j1) as int, 0, m as int);
        lemma_fundamental_div_mod_converse(m as int, pow10(j2) as int, 0, m as int);
    }
}

/// The number that `s[start..end]` writes, clamped at `cap`.
fn value_capped(s: &[u8], start: usize, end: usize, cap: u128) -> (r: u128)
    requires
        start <= end <= s@.len(),
        digits_only(s@.subrange(start as int, end as int)),
        cap <= 0x1_0000_0000_0000_0000_0000,
    ensures
        r == (if digits_value(s@.subrange(start as int, end as int)) < cap {
            digits_value(s@.subrange(start as int, end as int)) as int
        } else {
            cap as int
        }),
{
    let ghost ds = s@.subrange(start as int, end as int);
    let mut acc: u128 = 0;
    let mut i: usize = start;
    while i < end
        invariant
            start <= i <= end <= s@.len(),
            cap <= 0x1_0000_0000_0000_0000_0000,
            ds == s@.subrange(start as int, end as int),
            digits_only(ds),
            acc == (if digits_value(ds.take(i - start)) < cap {
                digits_value(ds.take(i - start)) as int
            } else {
                cap as int
            }),
        decreases end - i,
    {
        let ghost k: int = i - start;
        assert(ds.take(k + 1).drop_last() =~= ds.take(k));
        assert(ds.take(k + 1).last() == s@[i as int]);
        assert(is_digit(ds[k]));
        let d: u128 = (s[i] - 48) as u128;
        let ghost old_value = digits_value(ds.take(k));
        assert(digits_value(ds.take(k + 1)) == old_value * 10 + d);
        if acc >= cap {
            assert(old_value * 10 + d >= cap) by (nonlinear_arith)
                requires
                    old_value >= cap,
                    d >= 0,
            ;
        } else {
            let next: u128 = acc * 10 + d;
            if next >= cap {
                acc = cap;
            } else {
                acc = next;
            }
        }
        i = i + 1;
    }
    assert(ds.take(end - start) =~= ds);
    acc
}

/// The end of the run of digits of `s` from `from`.
fn scan_digits(s: &[u8], from: usize) -> (r: usize)
    requires
        from <= s@.len(),
    ensures
        r == run_end(s@, from as int),
{
    let mut j = from;
    while j < s.len() && 48 <= s[j] && s[j] <= 57
        invariant
            from <= j <= s@.len(),
            run_end(s@, from as int) == run_end(s@, j as int),
        decreases s@.len() - j,
    {
        j = j + 1;
    }
    j
}


/// The clamped whole value of the number the digits `d` write times `10^k`, or `None`
/// where that number is not whole.
fn whole_capped(d: &[u8], k: i128) -> (r: Option<u64>)
    requires
        digits_only(d@),
        -0x1_0000_0000_0000_0000_0000 < k < 0x1_0000_0000_0000_0000_0000,
    ensures
        match cap_whole(whole_value(digits_value(d@), k as int)) {
            Some(v) => r == Some(v as u64),
            None => r is None,
        },
{
    let n = d.len();
    let ghost m = digits_value(d@);
    assert(d@.subrange(0, n as int) =~= d@);
    if k >= 0 {
        let m_c = value_capped(d, 0, n, 0x8000_0000);
        let kk: u128 = k as u128;
        if m_c == 0 {
            assert(m * pow10(kk as nat) == 0) by (nonlinear_arith)
                requires
                    m == 0,
            ;
            return Some(0);
        }
        assert(pow10(0) == 1);
        assert(m * pow10(0) == m) by (nonlinear_arith)
            requires
                pow10(0) == 1,
        ;
        let mut acc: u128 = m_c;
        let mut i: u128 = 0;
        while i < kk && acc < 0x8000_0000
            invariant
                i <= kk,
                m > 0,
                m == digits_value(d@),
                acc == cap31(m * pow10(i as nat)),
            decreases kk - i,
        {
            proof {
                lemma_pow10(i as nat, i as nat);
            }
            let ghost before = m * pow10(i as nat);
            assert(m * pow10((i + 1) as nat) == before * 10) by (nonlinear_arith)
                requires
                    pow10((i + 1) as nat) == 10 * pow10(i as nat),
                    before == m * pow10(i as nat),
            ;
            if acc * 10 >= 0x8000_0000 {
                acc = 0x8000_0000;
            } else {
                acc = acc * 10;
            }
            i = i + 1;
        }
        if i < kk {
            proof {
                lemma_pow10(i as nat, kk as nat);
            }
            assert(m * pow10(kk as nat) >= m * pow10(i as nat)) by (nonlinear_arith)
                requires
                    pow10(kk as nat) >= pow10(i as nat),
                    m > 0,
            ;
        }
        Some(acc as u64)
    } else {
        let j: u128 = (0 - k) as u128;
        proof {
            lemma_whole_negative(d@, j as nat);
        }
        if j >= n as u128 {
            let m_c = value_capped(d, 0, n, 1);
            if m_c == 0 {
                Some(0)
            } else {
                None
            }
        } else {
            let split: usize = n - (j as usize);
            let mut t: usize = split;
            while t < n
                invariant
                    split <= t <= n,
                    n == d@.len(),
                    j as int == -(k as int),
                    split as int == d@.len() - j,
                    0 < j < d@.len(),
                    digits_only(d@),
                    forall|i: int| split <= i < t ==> #[trigger] d@[i] == 48u8,
                decreases n - t,
            {
                if d[t] != 48u8 {
                    proof {
                        lemma_whole_negative(d@, j as nat);
                    }
                    return None;
                }
                t = t + 1;
            }
            assert(digits_only(d@.subrange(0, split as int))) by {
                assert forall|i: int| 0 <= i < split implies is_digit(
                    #[trigger] d@.subrange(0, split as int)[i],
                ) by {
                    assert(d@.subrange(0, split as int)[i] == d@[i]);
                }
            }
            let v = value_capped(d, 0, split, 0x8000_0000);
            Some(v as u64)
        }
    }
}

/// Copies the mantissa's digits: `tok[a..b]`, then `tok[b + 1..c]` after a decimal point.
fn read_mantissa(tok: &[u8], a: usize, b: usize, dot: bool, c: usize) -> (mant: Vec<u8>)
    requires
        a <= b <= c <= tok@.len(),
        dot ==> b + 1 <= c,
        !dot ==> c == b,
        forall|i: int| a <= i < b ==> is_digit(#[trigger] tok@[i]),
        forall|i: int| b + 1 <= i < c ==> is_digit(#[trigger] tok@[i]),
    ensures
        mant@ == tok@.subrange(a as int, b as int) + (if dot {
            tok@.subrange(b + 1, c as int)
        } else {
            Seq::<u8>::empty()
        }),
        digits_only(mant@),
{
    let n = tok.len();
    let mut mant: Vec<u8> = Vec::new();
    let mut i: usize = a;
    while i < b
        invariant
            a <= i <= b <= n,
            n == tok@.len(),
            mant@ == tok@.subrange(a as int, i as int),
        decreases b - i,
    {
        mant.push(tok[i]);
        assert(tok@.subrange(a as int, i + 1) =~= tok@.subrange(a as int, i as int).push(
            tok@[i as int],
        ));
        i = i + 1;
    }
    if dot {
        let ghost start = mant@;
        let mut i: usize = b + 1;
        while i < c
            invariant
                b + 1 <= i <= c <= n,
                n == tok@.len(),
                mant@ == start + tok@.subrange(b + 1, i as int),
            decreases c - i,
        {
            mant.push(tok[i]);
            assert(tok@.subrange(b + 1, i + 1) =~= tok@.subrange(b + 1, i as int).push(
                tok@[i as int],
            ));
            i = i + 1;
        }
    } else {
        assert(mant@ =~= tok@.subrange(a as int, b as int) + Seq::<u8>::empty());
    }
    assert(digits_only(mant@)) by {
        assert forall|i: int| 0 <= i < mant@.len() implies is_digit(#[trigger] mant@[i]) by {
            if i < b - a {
                assert(mant@[i] == tok@[a + i]);
            } else {
                assert(mant@[i] == tok@[b + 1 + (i - (b - a))]);
            }
        }
    }
    mant
}

/// Reads the exponent part starting at `c`: whether it is negative and its value,
/// clamped just beyond the token's length.
fn read_exponent(tok: &[u8], c: usize) -> (r: Option<(bool, u128)>)
    requires
        c <= tok@.len(),
    ensures
        match exponent_parts(tok@, c as int) {
            None => r is None,
            Some((eneg, ex)) => digits_only(ex) && r == Some(
                (
                    eneg,
                    (if digits_value(ex) < tok@.len() + 64 {
                        digits_value(ex) as int
                    } else {
                        (tok@.len() + 64) as int
                    }) as u128,
                ),
            ),
        },
{
    let n = tok.len();
    if c == n {
        assert(digits_value(Seq::<u8>::empty()) == 0);
        return Some((false, 0));
    }
    if !(tok[c] == 101u8 || tok[c] == 69u8) {
        return None;
    }
    let d: usize = if c + 1 < n && (tok[c + 1] == 43u8 || tok[c + 1] == 45u8) {
        c + 2
    } else {
        c + 1
    };
    let eneg = c + 1 < n && tok[c + 1] == 45u8;
    let f = scan_digits(tok, d);
    proof {
        lemma_run_end(tok@, d as int);
    }
    if !(f == n && f > d) {
        return None;
    }
    let ghost ex = tok@.subrange(d as int, f as int);
    assert(digits_only(ex)) by {
        assert forall|i: int| 0 <= i < ex.len() implies is_digit(#[trigger] ex[i]) by {
            assert(ex[i] == tok@[d + i]);
        }
    }
    let e_c = value_capped(tok, d, f, (n as u128) + 64);
    Some((eneg, e_c))
}

/// The clamped coordinate for a sign, mantissa digits, number of fraction digits and
/// exponent (its value clamped at `len + 64`, `len` bounding the other lengths).
fn scaled_coord(neg: bool, mant: &Vec<u8>, fl: usize, eneg: bool, e_c: u128, ghost_e: Ghost<nat>, len: usize) -> (r: Option<i32>)
    requires
        digits_only(mant@),
        mant@.len() <= len,
        fl <= len,
        e_c == (if ghost_e@ < len + 64 { ghost_e@ as int } else { len + 64 }),
    ensures
        r == (match whole_value(
            digits_value(mant@),
            (if eneg { -(ghost_e@ as int) } else { ghost_e@ as int }) - fl,
        ) {
            Some(v) => Some(sat_i32(if neg { -(v as int) } else { v as int }) as i32),
            None => None,
        }),
{
    let k: i128 = (if eneg { -(e_c as i128) } else { e_c as i128 }) - (fl as i128);
    proof {
        if ghost_e@ >= len + 64 {
            lemma_digits_bound(mant@);
            lemma_exponent_cap(digits_value(mant@), mant@.len(), fl as nat, len as nat, eneg, ghost_e@);
        }
    }
    match whole_capped(mant.as_slice(), k) {
        None => None,
        Some(v) => {
            if neg {
                if v >= 0x8000_0000 {
                    Some(i32::MIN)
                } else {
                    Some(-(v as i32))
                }
            } else {
                if v > 0x7fff_ffff {
                    Some(i32::MAX)
                } else {
                    Some(v as i32)
                }
            }
        },
    }
}

/// Reads a coordinate: `None` where the token is not in float syntax or does not write
/// a whole number.
pub fn parse_coord(tok: &[u8]) -> (r: Option<i32>)
    ensures
        r == parse_coord_spec(tok@),
{
    let n = tok.len();
    let a: usize = if n > 0 && (tok[0] == 43u8 || tok[0] == 45u8) { 1 } else { 0 };
    let neg = n > 0 && tok[0] == 45u8;
    let b = scan_digits(tok, a);
    proof {
        lemma_run_end(tok@, a as int);
    }
    let dot = b < n && tok[b] == 46u8;
    let c = if dot { scan_digits(tok, b + 1) } else { b };
    proof {
        if dot {
            lemma_run_end(tok@, b + 1);
        }
    }
    let mant = read_mantissa(tok, a, b, dot, c);
    let fl: usize = if dot { c - (b + 1) } else { 0 };
    if mant.len() == 0 {
        return None;
    }
    match read_exponent(tok, c) {
        None => None,
        Some((eneg, e_c)) => {
            let ghost ex = exponent_parts(tok@, c as int).unwrap().1;
            scaled_coord(neg, &mant, fl, eneg, e_c, Ghost(digits_value(ex)), n)
        },
    }
}

} // verus!

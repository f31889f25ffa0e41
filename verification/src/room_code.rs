//! Six-character base-62 room codes: an IPv4 address (as its `u32` value)
//! written with the alphabet `0-9`, `a-z`, `A-Z`, most significant digit first.
use vstd::prelude::*;
use vstd::arithmetic::div_mod::{lemma_fundamental_div_mod_converse, lemma_mod_breakdown};

verus! {

/// Number of characters in a room code.
pub const CODE_LEN: usize = 6;

/// The character written for the base-62 digit `d` (`0 <= d < 62`):
/// `0-9` for 0..=9, `a-z` for 10..=35 and `A-Z` for 36..=61.
pub open spec fn digit_char(d: int) -> char {
    if d < 10 {
        (48 + d) as char
    } else if d < 36 {
        (97 + d - 10) as char
    } else {
        (65 + d - 36) as char
    }
}

/// The base-62 digit that the character `c` stands for, if any.
pub open spec fn char_digit(c: char) -> Option<int> {
    let v = c as int;
    if 48 <= v < 58 {
        Some(v - 48)
    } else if 97 <= v < 123 {
        Some(v - 97 + 10)
    } else if 65 <= v < 91 {
        Some(v - 65 + 36)
    } else {
        None
    }
}

/// `62` to the power `k`.
pub open spec fn pow62(k: nat) -> nat
    decreases k,
{
    if k == 0 {
        1
    } else {
        62 * pow62((k - 1) as nat)
    }
}

/// The last `k` base-62 digits of `n`, most significant first.
pub open spec fn code_digits(n: nat, k: nat) -> Seq<char>
    decreases k,
{
    if k == 0 {
        Seq::empty()
    } else {
        code_digits(n / 62, (k - 1) as nat).push(digit_char((n % 62) as int))
    }
}

/// The room code of an address.
pub open spec fn ip_code(ip: u32) -> Seq<char> {
    code_digits(ip as nat, CODE_LEN as nat)
}

/// The digit value of a character, zero for a character outside the alphabet.
pub open spec fn digit_value(c: char) -> nat {
    match char_digit(c) {
        Some(v) => v as nat,
        None => 0,
    }
}

/// The number that a sequence of base-62 digits denotes, most significant first.
pub open spec fn code_value(s: Seq<char>) -> nat
    decreases s.len(),
{
    if s.len() == 0 {
        0
    } else {
        code_value(s.drop_last()) * 62 + digit_value(s.last())
    }
}

/// Every character of `s` is a base-62 digit.
pub open spec fn all_digits(s: Seq<char>) -> bool {
    forall|i: int| 0 <= i < s.len() ==> (#[trigger] char_digit(s[i])) is Some
}

/// The address that a room code stands for: defined on six base-62 characters,
/// whose value is taken modulo 2^32.
pub open spec fn code_ip(s: Seq<char>) -> Option<u32> {
    if s.len() == CODE_LEN && all_digits(s) {
        Some((code_value(s) % 0x1_0000_0000) as u32)
    } else {
        None
    }
}

/// The character of a digit.
pub fn digit_to_char(d: u8) -> (c: char)
    requires
        d < 62,
    ensures
        c == digit_char(d as int),
{
    if d < 10 {
        (48u8 + d) as char
    } else if d < 36 {
        (87u8 + d) as char
    } else {
        (29u8 + d) as char
    }
}

/// The digit of a character, if it is one.
pub fn char_to_digit(c: char) -> (r: Option<u8>)
    ensures
        match r {
            Some(v) => char_digit(c) == Some(v as int),
            None => char_digit(c) is None,
        },
{
    if '0' <= c && c <= '9' {
        Some((c as u32 - 48) as u8)
    } else if 'a' <= c && c <= 'z' {
        Some((c as u32 - 87) as u8)
    } else if 'A' <= c && c <= 'Z' {
        Some((c as u32 - 29) as u8)
    } else {
        None
    }
}

/// Builds a `String` from its characters.
///
/// Trusted: calls std's `FromIterator<char>` for `String` (`collect`), whose
/// documentation says that the string holds the iterated characters in order.
#[verifier::external_body]
fn string_from_chars(chars: Vec<char>) -> (s: String)
    ensures
        s@ == chars@,
{
    chars.into_iter().collect()
}

/// The room code of an IPv4 address given as its `u32` value.
pub fn ip_to_6digit(ip: u32) -> (code: String)
    ensures
        code@ == ip_code(ip),
        code@.len() == CODE_LEN,
        all_digits(code@),
{
    let mut num: u32 = ip;
    let mut digits: Vec<char> = Vec::new();
    let mut i: usize = 0;
    while i < CODE_LEN
        invariant
            i <= CODE_LEN,
            code_digits(ip as nat, CODE_LEN as nat) == code_digits(num as nat, (CODE_LEN - i) as nat)
                + digits@,
        decreases CODE_LEN - i,
    {
        let c = digit_to_char((num % 62) as u8);
        let ghost before = digits@;
        digits.insert(0, c);
        assert(digits@ == seq![c] + before);
        assert(code_digits(num as nat, (CODE_LEN - i) as nat) == code_digits(
            (num / 62) as nat,
            (CODE_LEN - i - 1) as nat,
        ).push(c));
        num = num / 62;
        i = i + 1;
    }
    assert(code_digits(num as nat, 0) == Seq::<char>::empty());
    assert(digits@ =~= code_digits(ip as nat, CODE_LEN as nat));
    proof {
        lemma_code_digits_all_digits(ip as nat, CODE_LEN as nat);
    }
    string_from_chars(digits)
}

/// A room code is made of base-62 characters.
pub proof fn lemma_code_digits_all_digits(n: nat, k: nat)
    ensures
        code_digits(n, k).len() == k,
        all_digits(code_digits(n, k)),
    decreases k,
{
    if k > 0 {
        lemma_code_digits_all_digits(n / 62, (k - 1) as nat);
        let s = code_digits(n, k);
        assert forall|i: int| 0 <= i < s.len() implies (#[trigger] char_digit(s[i])) is Some by {
            if i < k - 1 {
                assert(s[i] == code_digits(n / 62, (k - 1) as nat)[i]);
            }
        }
    }
}


/// The address that a room code stands for, or `None` where the text is not
/// six base-62 characters (its byte length is checked first, as `str::len` gives it).
pub fn code_to_ip(code: &str) -> (r: Option<u32>)
    ensures
        r == code_ip(code@),
{
    if code.len() != CODE_LEN {
        proof {
            if code@.len() == CODE_LEN && all_digits(code@) {
                lemma_all_digits_ascii(code@);
                vstd::utf8::is_ascii_chars_encode_utf8(code@);
            }
        }
        return None;
    }
    let n = code.unicode_len();
    if n != CODE_LEN {
        return None;
    }
    let mut num: u64 = 0;
    let mut i: usize = 0;
    while i < CODE_LEN
        invariant
            i <= CODE_LEN,
            code@.len() == CODE_LEN,
            all_digits(code@.take(i as int)),
            num == code_value(code@.take(i as int)),
            num < pow62(i as nat),
        decreases CODE_LEN - i,
    {
        let c = code.get_char(i);
        match char_to_digit(c) {
            None => {
                assert(char_digit(code@[i as int]) is None);
                return None;
            },
            Some(v) => {
                assert(code@.take(i + 1).drop_last() =~= code@.take(i as int));
                assert(code@.take(i + 1).last() == c);
                proof {
                    lemma_pow62_bound(i as nat);
                    lemma_pow62_monotone((i + 1) as nat, CODE_LEN as nat);
                    lemma_pow62_six();
                }
                assert(num * 62 + (v as int) < pow62((i + 1) as nat)) by (nonlinear_arith)
                    requires
                        num < pow62(i as nat),
                        v < 62,
                        pow62((i + 1) as nat) == 62 * pow62(i as nat),
                ;
                num = num * 62 + v as u64;
                let ghost t = code@.take(i + 1);
                assert forall|j: int| 0 <= j < t.len() implies (#[trigger] char_digit(t[j])) is Some by {
                    if j < i {
                        assert(t[j] == code@.take(i as int)[j]);
                    }
                }
            },
        }
        i = i + 1;
    }
    assert(code@.take(CODE_LEN as int) =~= code@);
    let r = #[verifier::truncate] (num as u32);
    assert(r == num % 0x1_0000_0000) by (bit_vector)
        requires
            r == num as u32,
    ;
    Some(r)
}

/// `pow62(k + 1)` is `62 * pow62(k)`, and powers are positive.
pub proof fn lemma_pow62_bound(k: nat)
    ensures
        pow62(k + 1) == 62 * pow62(k),
        pow62(k) > 0,
    decreases k,
{
    if k > 0 {
        lemma_pow62_bound((k - 1) as nat);
    }
}

/// Powers of 62 grow with the exponent.
pub proof fn lemma_pow62_monotone(i: nat, j: nat)
    requires
        i <= j,
    ensures
        pow62(i) <= pow62(j),
    decreases j,
{
    if i < j {
        lemma_pow62_monotone(i, (j - 1) as nat);
        lemma_pow62_bound((j - 1) as nat);
    }
}

/// Base-62 characters are ASCII.
pub proof fn lemma_all_digits_ascii(s: Seq<char>)
    requires
        all_digits(s),
    ensures
        vstd::utf8::is_ascii_chars(s),
{
    assert forall|i: int| 0 <= i < s.len() implies '\0' <= #[trigger] s[i] <= '\u{7f}' by {
        assert(char_digit(s[i]) is Some);
    }
}

/// The digits written for `n` denote `n` modulo `62^k`.
pub proof fn lemma_code_digits_value(n: nat, k: nat)
    ensures
        code_value(code_digits(n, k)) == n % pow62(k),
    decreases k,
{
    if k == 0 {
        assert(n % 1 == 0) by (nonlinear_arith);
    } else {
        lemma_code_digits_value(n / 62, (k - 1) as nat);
        lemma_pow62_bound((k - 1) as nat);
        let s = code_digits(n, k);
        assert(s.drop_last() =~= code_digits(n / 62, (k - 1) as nat));
        let d = (n % 62) as int;
        assert(char_digit(digit_char(d)) == Some(d));
        lemma_mod_breakdown(n as int, 62, pow62((k - 1) as nat) as int);
        assert(62 * pow62((k - 1) as nat) == pow62((k - 1) as nat) * 62) by (nonlinear_arith);
        assert(code_value(s) == (n / 62) % pow62((k - 1) as nat) * 62 + n % 62);
        assert((n / 62) % pow62((k - 1) as nat) * 62 == 62 * ((n / 62) % pow62((k - 1) as nat)))
            by (nonlinear_arith);
    }
}

/// Reading back the digits of a number of base-62 characters gives back those characters.
pub proof fn lemma_code_value_digits(s: Seq<char>)
    requires
        all_digits(s),
    ensures
        code_digits(code_value(s), s.len()) == s,
    decreases s.len(),
{
    if s.len() > 0 {
        let t = s.drop_last();
        assert(all_digits(t)) by {
            assert forall|i: int| 0 <= i < t.len() implies (#[trigger] char_digit(t[i])) is Some by {
                assert(t[i] == s[i]);
                assert(char_digit(s[i]) is Some);
            }
        }
        lemma_code_value_digits(t);
        assert(char_digit(s[s.len() - 1]) is Some);
        let d = digit_value(s.last());
        assert(d < 62);
        let v = code_value(s);
        lemma_fundamental_div_mod_converse(v as int, 62, code_value(t) as int, d as int);
        assert(digit_char(d as int) == s.last());
        assert(s =~= t.push(s.last()));
    }
}

/// The largest room-code value: `62^6 - 1` is above `u32::MAX`, so every address has a code.
pub proof fn lemma_pow62_six()
    ensures
        pow62(CODE_LEN as nat) == 56_800_235_584,
{
    reveal_with_fuel(pow62, 7);
}

/// Law: the room code of an address reads back as that address.
pub proof fn law_code_round_trip(ip: u32)
    ensures
        code_ip(ip_code(ip)) == Some(ip),
{
    lemma_code_digits_all_digits(ip as nat, CODE_LEN as nat);
    lemma_code_digits_value(ip as nat, CODE_LEN as nat);
    lemma_pow62_six();
    vstd::arithmetic::div_mod::lemma_small_mod(ip as nat, pow62(CODE_LEN as nat));
    vstd::arithmetic::div_mod::lemma_small_mod(ip as nat, 0x1_0000_0000);
}

/// Law: a room code whose value fits in 32 bits is the code of the address it stands for.
pub proof fn law_code_canonical(s: Seq<char>)
    requires
        code_ip(s) is Some,
        code_value(s) < 0x1_0000_0000,
    ensures
        ip_code(code_ip(s).unwrap()) == s,
{
    lemma_code_value_digits(s);
    vstd::arithmetic::div_mod::lemma_small_mod(code_value(s), 0x1_0000_0000);
}


/// The digit values of a sequence of base-62 characters.
pub open spec fn digit_values(s: Seq<char>) -> Seq<nat> {
    s.map_values(|c: char| digit_value(c))
}

/// `x` comes before `y` in lexicographic order (for sequences of equal length): they
/// differ, and at the first place where they differ `x` holds the smaller value.
pub open spec fn lex_less(x: Seq<nat>, y: Seq<nat>) -> bool
    decreases x.len(),
{
    if x.len() == 0 || y.len() == 0 {
        false
    } else {
        lex_less(x.drop_last(), y.drop_last()) || (x.drop_last() == y.drop_last() && x.last()
            < y.last())
    }
}

/// The value of base-62 characters depends on their digit values alone.
pub proof fn lemma_code_value_of_digit_values(s: Seq<char>, t: Seq<char>)
    requires
        digit_values(s) == digit_values(t),
    ensures
        code_value(s) == code_value(t),
    decreases s.len(),
{
    assert(s.len() == digit_values(s).len());
    assert(t.len() == digit_values(t).len());
    if s.len() > 0 {
        assert(digit_values(s.drop_last()) =~= digit_values(s).drop_last());
        assert(digit_values(t.drop_last()) =~= digit_values(t).drop_last());
        lemma_code_value_of_digit_values(s.drop_last(), t.drop_last());
        assert(digit_value(s.last()) == digit_values(s).last());
        assert(digit_value(t.last()) == digit_values(t).last());
    }
}

/// For numbers below `62^k`, the smaller number has the lexicographically smaller digits.
pub proof fn lemma_code_digits_order(n: nat, m: nat, k: nat)
    requires
        n < pow62(k),
        m < pow62(k),
    ensures
        (n < m) == lex_less(digit_values(code_digits(n, k)), digit_values(code_digits(m, k))),
    decreases k,
{
    if k == 0 {
        assert(pow62(0) == 1);
    } else {
        let p = pow62((k - 1) as nat);
        lemma_pow62_bound((k - 1) as nat);
        let qn = n / 62;
        let qm = m / 62;
        let rn = n % 62;
        let rm = m % 62;
        assert(n == 62 * qn + rn && 0 <= rn < 62);
        assert(m == 62 * qm + rm && 0 <= rm < 62);
        assert(qn < p && qm < p) by (nonlinear_arith)
            requires
                n == 62 * qn + rn,
                m == 62 * qm + rm,
                0 <= rn,
                0 <= rm,
                n < 62 * p,
                m < 62 * p,
        ;
        lemma_code_digits_order(qn, qm, (k - 1) as nat);
        let cn = code_digits(qn, (k - 1) as nat);
        let cm = code_digits(qm, (k - 1) as nat);
        let x = digit_values(cn);
        let y = digit_values(cm);
        assert(char_digit(digit_char(rn as int)) == Some(rn as int));
        assert(char_digit(digit_char(rm as int)) == Some(rm as int));
        let dn = digit_values(code_digits(n, k));
        let dm = digit_values(code_digits(m, k));
        assert(dn =~= x.push(rn));
        assert(dm =~= y.push(rm));
        assert(dn.drop_last() =~= x);
        assert(dm.drop_last() =~= y);
        lemma_code_digits_all_digits(n, k);
        lemma_code_digits_all_digits(m, k);
        assert(dn.len() > 0 && dm.len() > 0);
        if x == y {
            lemma_code_value_of_digit_values(cn, cm);
            lemma_code_digits_value(qn, (k - 1) as nat);
            lemma_code_digits_value(qm, (k - 1) as nat);
            vstd::arithmetic::div_mod::lemma_small_mod(qn, p);
            vstd::arithmetic::div_mod::lemma_small_mod(qm, p);
            assert(qn == qm);
        }
        assert((n < m) == (qn < qm || (qn == qm && rn < rm))) by (nonlinear_arith)
            requires
                n == 62 * qn + rn,
                m == 62 * qm + rm,
                0 <= rn < 62,
                0 <= rm < 62,
        ;
    }
}

/// Law: room codes keep the order of addresses: the smaller address has the code whose
/// digits (their places in the alphabet `0-9a-zA-Z`) come first in lexicographic order.
pub proof fn law_code_order(a: u32, b: u32)
    ensures
        (a < b) == lex_less(digit_values(ip_code(a)), digit_values(ip_code(b))),
{
    lemma_pow62_six();
    lemma_code_digits_order(a as nat, b as nat, CODE_LEN as nat);
}

} // verus!

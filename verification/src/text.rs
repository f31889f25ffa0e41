//! Short texts typed by a player or exchanged when two players connect: trimming
//! white space, the join code field and the greeting words.
use vstd::prelude::*;
use crate::room_code::{code_ip, code_to_ip};

verus! {

/// The word a joining player sends first.
pub const START_WORD: &'static str = "Start!";

/// The word the hosting player answers with.
pub const READY_WORD: &'static str = "Ready!";

/// Unicode white space (the `White_Space` property that `char::is_whitespace` tests).
pub open spec fn is_white(c: char) -> bool {
    let v = c as u32;
    (0x09 <= v <= 0x0d) || v == 0x20 || v == 0x85 || v == 0xa0 || v == 0x1680 || (0x2000 <= v
        <= 0x200a) || v == 0x2028 || v == 0x2029 || v == 0x202f || v == 0x205f || v == 0x3000
}

/// Whether a character is Unicode white space.
pub fn is_white_char(c: char) -> (r: bool)
    ensures
        r == is_white(c),
{
    let v = c as u32;
    (0x09 <= v && v <= 0x0d) || v == 0x20 || v == 0x85 || v == 0xa0 || v == 0x1680 || (0x2000
        <= v && v <= 0x200a) || v == 0x2028 || v == 0x2029 || v == 0x202f || v == 0x205f || v
        == 0x3000
}

/// `s` without the white space at its start.
pub open spec fn trim_start_spec(s: Seq<char>) -> Seq<char>
    decreases s.len(),
{
    if s.len() > 0 && is_white(s[0]) {
        trim_start_spec(s.drop_first())
    } else {
        s
    }
}

/// `s` without the white space at its end.
pub open spec fn trim_end_spec(s: Seq<char>) -> Seq<char>
    decreases s.len(),
{
    if s.len() > 0 && is_white(s.last()) {
        trim_end_spec(s.drop_last())
    } else {
        s
    }
}

/// `s` without white space at either end (as `str::trim`).
pub open spec fn trim_spec(s: Seq<char>) -> Seq<char> {
    trim_end_spec(trim_start_spec(s))
}

/// `s` without white space at either end.
pub fn trim(s: &str) -> (r: &str)
    ensures
        r@ == trim_spec(s@),
{
    let n = s.unicode_len();
    let mut i: usize = 0;
    assert(s@.subrange(0, n as int) =~= s@);
    while i < n && is_white_char(s.get_char(i))
        invariant
            i <= n,
            n == s@.len(),
            trim_start_spec(s@) == trim_start_spec(s@.subrange(i as int, n as int)),
        decreases n - i,
    {
        assert(s@.subrange(i as int, n as int).drop_first() =~= s@.subrange(i + 1, n as int));
        i = i + 1;
    }
    let ghost front = s@.subrange(i as int, n as int);
    assert(trim_start_spec(front) == front);
    let mut j: usize = n;
    while j > i && is_white_char(s.get_char(j - 1))
        invariant
            i <= j <= n,
            n == s@.len(),
            front == s@.subrange(i as int, n as int),
            trim_end_spec(front) == trim_end_spec(s@.subrange(i as int, j as int)),
        decreases j - i,
    {
        assert(s@.subrange(i as int, j as int).drop_last() =~= s@.subrange(i as int, j - 1));
        j = j - 1;
    }
    s.substring_char(i, j)
}

/// Whether `msg`, trimmed, is `word`.
pub fn is_trimmed_word(msg: &str, word: &str) -> (r: bool)
    ensures
        r == (trim_spec(msg@) == word@),
{
    let t = trim(msg);
    let n = t.unicode_len();
    let m = word.unicode_len();
    if n != m {
        return false;
    }
    let mut i: usize = 0;
    while i < n
        invariant
            i <= n,
            n == t@.len(),
            m == word@.len(),
            n == m,
            t@ == trim_spec(msg@),
            forall|k: int| 0 <= k < i ==> t@[k] == word@[k],
        decreases n - i,
    {
        if t.get_char(i) != word.get_char(i) {
            assert(t@ != word@) by {
                if t@ == word@ {
                    assert(t@[i as int] == word@[i as int]);
                }
            }
            return false;
        }
        i = i + 1;
    }
    assert(t@ =~= word@);
    true
}

/// The address that a typed join code stands for, white space around it ignored.
pub fn parse_join_code(text: &str) -> (r: Option<u32>)
    ensures
        r == code_ip(trim_spec(text@)),
{
    code_to_ip(trim(text))
}

} // verus!

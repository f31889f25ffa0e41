//! The text messages that two players exchange: positions as whole numbers,
//! fields separated by spaces and lines by newlines.
use vstd::prelude::*;
use vstd::arithmetic::div_mod::lemma_fundamental_div_mod_converse;
use crate::grid::{Pos, pos};
use crate::decimal::{parse_coord, parse_coord_spec, pow10, run_end, lemma_run_to_end};

verus! {

/// Decimal digits of `n`, most significant first, without leading zeros.
pub open spec fn nat_text(n: nat) -> Seq<u8>
    decreases n,
{
    if n < 10 {
        seq![(48 + n) as u8]
    } else {
        nat_text(n / 10).push((48 + n % 10) as u8)
    }
}

/// A whole number as text: a minus sign for a negative number, then its digits.
pub open spec fn int_text(v: int) -> Seq<u8> {
    if v < 0 {
        seq![45u8] + nat_text((-v) as nat)
    } else {
        nat_text(v as nat)
    }
}

/// The byte is a decimal digit.
pub open spec fn is_digit(b: u8) -> bool {
    48 <= b <= 57
}

/// One or more decimal digits.
pub open spec fn is_digits(s: Seq<u8>) -> bool {
    s.len() > 0 && forall|i: int| 0 <= i < s.len() ==> is_digit(#[trigger] s[i])
}

/// The number written by decimal digits, most significant first.
pub open spec fn digits_value(s: Seq<u8>) -> nat
    decreases s.len(),
{
    if s.len() == 0 {
        0
    } else {
        digits_value(s.drop_last()) * 10 + (s.last() - 48) as nat
    }
}

/// A whole number: an optional sign (`+` or `-`) and one or more decimal digits.
pub open spec fn parse_int_spec(tok: Seq<u8>) -> Option<int> {
    if tok.len() > 0 && tok[0] == 45u8 && is_digits(tok.drop_first()) {
        Some(-(digits_value(tok.drop_first()) as int))
    } else if tok.len() > 0 && tok[0] == 43u8 && is_digits(tok.drop_first()) {
        Some(digits_value(tok.drop_first()) as int)
    } else if is_digits(tok) {
        Some(digits_value(tok) as int)
    } else {
        None
    }
}

/// `v` clamped to the range of `i32`.
pub open spec fn sat_i32(v: int) -> int {
    if v < i32::MIN {
        i32::MIN as int
    } else if v > i32::MAX {
        i32::MAX as int
    } else {
        v
    }
}

/// An unsigned 32-bit number: an optional `+` and decimal digits of a value that fits.
pub open spec fn parse_u32_spec(tok: Seq<u8>) -> Option<u32> {
    match parse_int_spec(tok) {
        Some(v) => if tok[0] != 45u8 && v <= u32::MAX {
            Some(v as u32)
        } else {
            None
        },
        None => None,
    }
}

/// Appends the decimal digits of `n`.
fn push_nat(buf: &mut Vec<u8>, n: u64)
    ensures
        final(buf)@ == old(buf)@ + nat_text(n as nat),
{
    let mut m: u64 = n;
    let mut digits: Vec<u8> = Vec::new();
    while m >= 10
        invariant
            nat_text(n as nat) == nat_text(m as nat) + digits@,
        decreases m,
    {
        let d: u8 = (48 + m % 10) as u8;
        let ghost before = digits@;
        digits.insert(0, d);
        assert(digits@ == seq![d] + before);
        assert(nat_text(m as nat) == nat_text((m / 10) as nat).push(d));
        m = m / 10;
    }
    let d: u8 = (48 + m) as u8;
    digits.insert(0, d);
    assert(digits@ =~= nat_text(n as nat));
    let mut i: usize = 0;
    let ghost start = buf@;
    while i < digits.len()
        invariant
            i <= digits@.len(),
            buf@ == start + digits@.take(i as int),
        decreases digits@.len() - i,
    {
        buf.push(digits[i]);
        assert(digits@.take(i + 1) =~= digits@.take(i as int).push(digits@[i as int]));
        i = i + 1;
    }
    assert(digits@.take(digits@.len() as int) =~= digits@);
}

/// Appends a whole number as text.
fn push_int(buf: &mut Vec<u8>, v: i32)
    ensures
        final(buf)@ == old(buf)@ + int_text(v as int),
{
    if v < 0 {
        buf.push(45u8);
        let m: i64 = -(v as i64);
        push_nat(buf, m as u64);
        assert(final(buf)@ =~= old(buf)@ + int_text(v as int));
    } else {
        push_nat(buf, v as u64);
    }
}

/// The value of a run of digits, clamped at `cap`.
fn digits_capped(tok: &[u8], start: usize, cap: u64) -> (r: u64)
    requires
        start <= tok@.len(),
        is_digits(tok@.subrange(start as int, tok@.len() as int)),
        cap <= 0x1_0000_0000,
    ensures
        r == (if digits_value(tok@.subrange(start as int, tok@.len() as int)) < cap {
            digits_value(tok@.subrange(start as int, tok@.len() as int)) as int
        } else {
            cap as int
        }),
{
    let mut acc: u64 = 0;
    let mut i: usize = start;
    let ghost ds = tok@.subrange(start as int, tok@.len() as int);
    while i < tok.len()
        invariant
            start <= i <= tok@.len(),
            cap <= 0x1_0000_0000,
            ds == tok@.subrange(start as int, tok@.len() as int),
            is_digits(ds),
            acc == (if digits_value(ds.take(i - start)) < cap {
                digits_value(ds.take(i - start)) as int
            } else {
                cap as int
            }),
        decreases tok@.len() - i,
    {
        let ghost k: int = i - start;
        assert(ds.take(k + 1).drop_last() =~= ds.take(k));
        assert(ds.take(k + 1).last() == tok@[i as int]);
        assert(is_digit(ds[k]));
        let d: u64 = (tok[i] - 48) as u64;
        let ghost old_value = digits_value(ds.take(k));
        assert(digits_value(ds.take(k + 1)) == old_value * 10 + d);
        if acc >= cap {
            assert(old_value * 10 + d >= cap) by (nonlinear_arith)
                requires
                    old_value >= cap,
                    d >= 0,
            ;
        } else {
            let next: u64 = acc * 10 + d;
            if next >= cap {
                acc = cap;
            } else {
                acc = next;
            }
        }
        i = i + 1;
    }
    assert(ds.take(tok@.len() - start) =~= ds);
    acc
}

/// Whether `tok[start..]` is one or more decimal digits.
fn all_digits_from(tok: &[u8], start: usize) -> (r: bool)
    requires
        start <= tok@.len(),
    ensures
        r == is_digits(tok@.subrange(start as int, tok@.len() as int)),
{
    if start >= tok.len() {
        return false;
    }
    let ghost ds = tok@.subrange(start as int, tok@.len() as int);
    let mut i: usize = start;
    while i < tok.len()
        invariant
            start <= i <= tok@.len(),
            ds == tok@.subrange(start as int, tok@.len() as int),
            forall|j: int| 0 <= j < i - start ==> is_digit(#[trigger] ds[j]),
        decreases tok@.len() - i,
    {
        if !(48 <= tok[i] && tok[i] <= 57) {
            assert(!is_digit(ds[i - start]));
            return false;
        }
        i = i + 1;
    }
    true
}

/// Reads an unsigned 32-bit number; `None` where the token is not one.
pub fn parse_u32(tok: &[u8]) -> (r: Option<u32>)
    ensures
        r == parse_u32_spec(tok@),
{
    if tok.len() > 0 && tok[0] == 43u8 && all_digits_from(tok, 1) {
        assert(tok@.subrange(1, tok@.len() as int) =~= tok@.drop_first());
        let v = digits_capped(tok, 1, 0x1_0000_0000);
        if v > 0xffff_ffff {
            None
        } else {
            Some(v as u32)
        }
    } else if all_digits_from(tok, 0) {
        assert(tok@.subrange(0, tok@.len() as int) =~= tok@);
        let v = digits_capped(tok, 0, 0x1_0000_0000);
        if v > 0xffff_ffff {
            None
        } else {
            Some(v as u32)
        }
    } else {
        proof {
            if tok@.len() > 0 && (tok@[0] == 45u8 || tok@[0] == 43u8) {
                assert(tok@.subrange(1, tok@.len() as int) =~= tok@.drop_first());
            }
            assert(tok@.subrange(0, tok@.len() as int) =~= tok@);
        }
        None
    }
}


/// The pieces of `s` between occurrences of the byte `sep` (one more piece than
/// there are separators).
pub open spec fn split_on(s: Seq<u8>, sep: u8) -> Seq<Seq<u8>>
    decreases s.len(),
{
    if s.len() == 0 {
        seq![Seq::empty()]
    } else {
        let rest = split_on(s.drop_last(), sep);
        if s.last() == sep {
            rest.push(Seq::empty())
        } else {
            rest.update(rest.len() - 1, rest.last().push(s.last()))
        }
    }
}

/// The contents of a list of byte vectors.
pub open spec fn views(vs: Seq<Vec<u8>>) -> Seq<Seq<u8>> {
    vs.map_values(|v: Vec<u8>| v@)
}

/// A line without the carriage return that ends it, if any.
pub open spec fn strip_cr(l: Seq<u8>) -> Seq<u8> {
    if l.len() > 0 && l.last() == 13u8 {
        l.drop_last()
    } else {
        l
    }
}

/// The lines of a text as `str::lines` yields them: split at `\n`, a `\r` before a
/// `\n` dropped, and no empty last line after a final `\n`.
pub open spec fn lines_spec(s: Seq<u8>) -> Seq<Seq<u8>> {
    let pieces = split_on(s, 10u8);
    let ended = pieces.drop_last().map_values(|l: Seq<u8>| strip_cr(l));
    if pieces.last().len() == 0 {
        ended
    } else {
        ended.push(pieces.last())
    }
}

/// The fields of a line, separated by single spaces.
pub open spec fn fields_spec(line: Seq<u8>) -> Seq<Seq<u8>> {
    split_on(line, 32u8)
}

/// `split_on` always yields at least one piece.
pub proof fn lemma_split_nonempty(s: Seq<u8>, sep: u8)
    ensures
        split_on(s, sep).len() >= 1,
    decreases s.len(),
{
    if s.len() > 0 {
        lemma_split_nonempty(s.drop_last(), sep);
    }
}

/// Splits a byte slice at every occurrence of `sep`.
pub fn split_bytes(s: &[u8], sep: u8) -> (r: Vec<Vec<u8>>)
    ensures
        views(r@) == split_on(s@, sep),
{
    let mut pieces: Vec<Vec<u8>> = Vec::new();
    let mut cur: Vec<u8> = Vec::new();
    let mut i: usize = 0;
    while i < s.len()
        invariant
            i <= s@.len(),
            views(pieces@).push(cur@) == split_on(s@.take(i as int), sep),
        decreases s@.len() - i,
    {
        let ghost prev = split_on(s@.take(i as int), sep);
        proof {
            lemma_split_nonempty(s@.take(i as int), sep);
        }
        assert(s@.take(i + 1).drop_last() =~= s@.take(i as int));
        assert(s@.take(i + 1).last() == s@[i as int]);
        if s[i] == sep {
            let done = cur;
            pieces.push(done);
            cur = Vec::new();
            assert(views(pieces@).push(cur@) =~= prev.push(Seq::empty()));
        } else {
            cur.push(s[i]);
            assert(views(pieces@).push(cur@) =~= prev.update(prev.len() - 1, prev.last().push(s@[i as int])));
        }
        i = i + 1;
    }
    assert(s@.take(s@.len() as int) =~= s@);
    pieces.push(cur);
    assert(views(pieces@) =~= split_on(s@, sep));
    pieces
}

/// The lines of a message, as `str::lines` yields them.
pub fn split_lines(s: &[u8]) -> (r: Vec<Vec<u8>>)
    ensures
        views(r@) == lines_spec(s@),
{
    let mut pieces = split_bytes(s, 10u8);
    proof {
        lemma_split_nonempty(s@, 10u8);
    }
    let last = pieces.pop().unwrap();
    let ghost all = split_on(s@, 10u8);
    assert(views(pieces@) =~= all.drop_last());
    let mut res: Vec<Vec<u8>> = Vec::new();
    let mut k: usize = 0;
    while k < pieces.len()
        invariant
            k <= pieces@.len(),
            all.len() >= 1,
            views(pieces@) == all.drop_last(),
            views(res@) == all.drop_last().take(k as int).map_values(|l: Seq<u8>| strip_cr(l)),
        decreases pieces@.len() - k,
    {
        let line: &Vec<u8> = &pieces[k];
        let mut copy: Vec<u8> = Vec::new();
        let n = line.len();
        let keep: usize = if n > 0 && line[n - 1] == 13u8 { n - 1 } else { n };
        let mut j: usize = 0;
        while j < keep
            invariant
                j <= keep <= line@.len(),
                copy@ == line@.take(j as int),
            decreases keep - j,
        {
            copy.push(line[j]);
            assert(line@.take(j + 1) =~= line@.take(j as int).push(line@[j as int]));
            j = j + 1;
        }
        assert(views(pieces@)[k as int] == line@);
        assert(copy@ =~= strip_cr(line@));
        let ghost before = views(res@);
        res.push(copy);
        assert(views(res@) =~= before.push(strip_cr(line@)));
        assert(all.drop_last().take(k + 1) =~= all.drop_last().take(k as int).push(line@));
        assert(views(res@) =~= all.drop_last().take(k + 1).map_values(|l: Seq<u8>| strip_cr(l)));
        k = k + 1;
    }
    assert(all.drop_last().take(pieces@.len() as int) =~= all.drop_last());
    assert(last@ == all.last());
    if last.len() > 0 {
        res.push(last);
        assert(views(res@) =~= lines_spec(s@));
    }
    res
}


/// A position read from the fields of a line: the first field gives `x` and the second
/// `y`; a field that is missing or not a whole number keeps the coordinate of `p`.
pub open spec fn read_pos_spec(fields: Seq<Seq<u8>>, p: Pos) -> Pos {
    Pos {
        x: if fields.len() > 0 && parse_coord_spec(fields[0]) is Some {
            parse_coord_spec(fields[0]).unwrap()
        } else {
            p.x
        },
        y: if fields.len() > 1 && parse_coord_spec(fields[1]) is Some {
            parse_coord_spec(fields[1]).unwrap()
        } else {
            p.y
        },
    }
}

/// What a message from the other player says: the apple, the power-up, the power-up's
/// kind, whether the sender took the power-up, the sender's direction and its snake.
pub struct PeerUpdate {
    pub apple: Pos,
    pub powerup: Pos,
    pub powerup_kind: u32,
    pub consumed: bool,
    pub dir: Pos,
    pub snake: Vec<Pos>,
}

impl View for PeerUpdate {
    type V = (Pos, Pos, u32, bool, Pos, Seq<Pos>);

    open spec fn view(&self) -> Self::V {
        (self.apple, self.powerup, self.powerup_kind, self.consumed, self.dir, self.snake@)
    }
}

/// The segments listed by the lines of a message after its third line.
pub open spec fn body_spec(ls: Seq<Seq<u8>>) -> Seq<Pos> {
    ls.skip(3).map_values(|l: Seq<u8>| read_pos_spec(fields_spec(l), pos(0, 0)))
}

/// A message read over the values known before it. Line 1 holds the apple; line 2 the
/// power-up, its kind and a `1` where the sender took it; line 3 the sender's
/// direction; every further line one segment of the sender's snake, tail first. A
/// missing or unreadable field keeps the value known before (a segment's, zero).
pub open spec fn decode_spec(msg: Seq<u8>, apple: Pos, powerup: Pos, kind: u32, dir: Pos) -> (
    Pos,
    Pos,
    u32,
    bool,
    Pos,
    Seq<Pos>,
) {
    let ls = lines_spec(msg);
    let f1 = if ls.len() > 1 { fields_spec(ls[1]) } else { Seq::empty() };
    (
        if ls.len() > 0 { read_pos_spec(fields_spec(ls[0]), apple) } else { apple },
        if ls.len() > 1 { read_pos_spec(f1, powerup) } else { powerup },
        if f1.len() > 2 && parse_u32_spec(f1[2]) is Some { parse_u32_spec(f1[2]).unwrap() } else { kind },
        f1.len() > 3 && parse_u32_spec(f1[3]) == Some(1u32),
        if ls.len() > 2 { read_pos_spec(fields_spec(ls[2]), dir) } else { dir },
        if ls.len() > 3 { body_spec(ls) } else { Seq::empty() },
    )
}

fn read_pos(fields: &Vec<Vec<u8>>, p: Pos) -> (r: Pos)
    ensures
        r == read_pos_spec(views(fields@), p),
{
    let mut r = p;
    assert(fields@.len() > 0 ==> views(fields@)[0] == fields@[0]@);
    assert(fields@.len() > 1 ==> views(fields@)[1] == fields@[1]@);
    if fields.len() > 0 {
        match parse_coord(fields[0].as_slice()) {
            Some(v) => {
                r.x = v;
            },
            None => {},
        }
    }
    if fields.len() > 1 {
        match parse_coord(fields[1].as_slice()) {
            Some(v) => {
                r.y = v;
            },
            None => {},
        }
    }
    r
}

/// Reads a message of the other player over the values known before it.
pub fn decode_peer_message(msg: &[u8], apple: Pos, powerup: Pos, kind: u32, dir: Pos) -> (r:
    PeerUpdate)
    ensures
        r@ == decode_spec(msg@, apple, powerup, kind, dir),
{
    let ls = split_lines(msg);
    let ghost lv = lines_spec(msg@);
    let mut out = PeerUpdate {
        apple,
        powerup,
        powerup_kind: kind,
        consumed: false,
        dir,
        snake: Vec::new(),
    };
    assert(ls@.len() > 0 ==> views(ls@)[0] == ls@[0]@);
    assert(ls@.len() > 1 ==> views(ls@)[1] == ls@[1]@);
    assert(ls@.len() > 2 ==> views(ls@)[2] == ls@[2]@);
    if ls.len() > 0 {
        let f = split_bytes(ls[0].as_slice(), 32u8);
        out.apple = read_pos(&f, apple);
    }
    if ls.len() > 1 {
        let f = split_bytes(ls[1].as_slice(), 32u8);
        out.powerup = read_pos(&f, powerup);
        if f.len() > 2 {
            match parse_u32(f[2].as_slice()) {
                Some(v) => {
                    out.powerup_kind = v;
                },
                None => {},
            }
            assert(views(f@)[2] == f@[2]@);
        }
        if f.len() > 3 {
            match parse_u32(f[3].as_slice()) {
                Some(v) => {
                    if v == 1 {
                        out.consumed = true;
                    }
                },
                None => {},
            }
            assert(views(f@)[3] == f@[3]@);
        }
    }
    if ls.len() > 2 {
        let f = split_bytes(ls[2].as_slice(), 32u8);
        out.dir = read_pos(&f, dir);
    }
    let mut snake: Vec<Pos> = Vec::new();
    if ls.len() > 3 {
        let mut k: usize = 3;
        while k < ls.len()
            invariant
                3 <= k <= ls@.len(),
                views(ls@) == lv,
                snake@ == lv.subrange(3, k as int).map_values(
                    |l: Seq<u8>| read_pos_spec(fields_spec(l), pos(0, 0)),
                ),
            decreases ls@.len() - k,
        {
            let f = split_bytes(ls[k].as_slice(), 32u8);
            assert(views(ls@)[k as int] == ls@[k as int]@);
            let p = read_pos(&f, Pos { x: 0, y: 0 });
            snake.push(p);
            assert(lv.subrange(3, k + 1) =~= lv.subrange(3, k as int).push(lv[k as int]));
            assert(snake@ =~= lv.subrange(3, k + 1).map_values(
                |l: Seq<u8>| read_pos_spec(fields_spec(l), pos(0, 0)),
            ));
            k = k + 1;
        }
        assert(lv.subrange(3, lv.len() as int) =~= lv.skip(3));
    }
    out.snake = snake;
    out
}


/// A position as text: its two coordinates separated by a space.
pub open spec fn pos_text(p: Pos) -> Seq<u8> {
    int_text(p.x as int) + seq![32u8] + int_text(p.y as int)
}

/// Lines joined with newlines between them (none after the last).
pub open spec fn join_lines(ls: Seq<Seq<u8>>) -> Seq<u8>
    decreases ls.len(),
{
    if ls.len() == 0 {
        Seq::empty()
    } else if ls.len() == 1 {
        ls[0]
    } else {
        ls[0] + seq![10u8] + join_lines(ls.drop_first())
    }
}

/// A snake as text: one line per segment, tail first.
pub open spec fn body_text(snake: Seq<Pos>) -> Seq<u8> {
    join_lines(snake.map_values(|p: Pos| pos_text(p)))
}

/// The message sent when a new power-up appears: the apple, then the power-up and its
/// kind, then the sender's snake.
pub open spec fn spawn_message(apple: Pos, powerup: Pos, kind: u32, snake: Seq<Pos>) -> Seq<u8> {
    pos_text(apple) + seq![10u8] + pos_text(powerup) + seq![32u8] + nat_text(kind as nat) + seq![
        10u8,
    ] + body_text(snake)
}

/// The message sent after each step: the apple; the power-up, its kind and `1` or `0`
/// as the sender took it or not; the sender's direction; then the sender's snake.
pub open spec fn step_message(
    apple: Pos,
    powerup: Pos,
    kind: u32,
    consumed: bool,
    dir: Pos,
    snake: Seq<Pos>,
) -> Seq<u8> {
    pos_text(apple) + seq![10u8] + pos_text(powerup) + seq![32u8] + nat_text(kind as nat) + seq![
        32u8,
    ] + (if consumed { seq![49u8] } else { seq![48u8] }) + seq![10u8] + pos_text(dir) + seq![10u8]
        + body_text(snake)
}

fn push_pos(buf: &mut Vec<u8>, p: Pos)
    ensures
        final(buf)@ == old(buf)@ + pos_text(p),
{
    push_int(buf, p.x);
    buf.push(32u8);
    push_int(buf, p.y);
    assert(final(buf)@ =~= old(buf)@ + pos_text(p));
}

/// Joining one more line adds a newline and the line.
pub proof fn lemma_join_push(ls: Seq<Seq<u8>>, x: Seq<u8>)
    requires
        ls.len() >= 1,
    ensures
        join_lines(ls.push(x)) == join_lines(ls) + seq![10u8] + x,
    decreases ls.len(),
{
    if ls.len() == 1 {
        assert(ls.push(x).drop_first() =~= seq![x]);
        assert(join_lines(seq![x]) == x);
        assert(ls.push(x)[0] == ls[0]);
        assert(join_lines(ls) == ls[0]);
        assert(join_lines(ls.push(x)) =~= join_lines(ls) + seq![10u8] + x);
    } else {
        assert(ls.push(x).drop_first() =~= ls.drop_first().push(x));
        lemma_join_push(ls.drop_first(), x);
        assert(ls.push(x)[0] == ls[0]);
        assert(join_lines(ls.push(x)) =~= join_lines(ls) + seq![10u8] + x);
    }
}

fn push_body(buf: &mut Vec<u8>, snake: &Vec<Pos>)
    ensures
        final(buf)@ == old(buf)@ + body_text(snake@),
{
    let ghost texts = snake@.map_values(|p: Pos| pos_text(p));
    let ghost start = buf@;
    let mut k: usize = 0;
    while k < snake.len()
        invariant
            k <= snake@.len(),
            texts == snake@.map_values(|p: Pos| pos_text(p)),
            buf@ == start + join_lines(texts.take(k as int)),
        decreases snake@.len() - k,
    {
        let ghost before = buf@;
        if k > 0 {
            buf.push(10u8);
        }
        push_pos(buf, snake[k]);
        proof {
            assert(texts.take(k + 1) =~= texts.take(k as int).push(texts[k as int]));
            if k > 0 {
                lemma_join_push(texts.take(k as int), texts[k as int]);
            } else {
                assert(texts.take(1) =~= seq![texts[0]]);
            }
        }
        assert(buf@ =~= start + join_lines(texts.take(k + 1)));
        k = k + 1;
    }
    assert(texts.take(snake@.len() as int) =~= texts);
}

/// The message announcing a new power-up.
pub fn encode_spawn_message(apple: Pos, powerup: Pos, kind: u32, snake: &Vec<Pos>) -> (r: Vec<u8>)
    ensures
        r@ == spawn_message(apple, powerup, kind, snake@),
{
    let mut buf: Vec<u8> = Vec::new();
    push_pos(&mut buf, apple);
    buf.push(10u8);
    push_pos(&mut buf, powerup);
    buf.push(32u8);
    push_nat(&mut buf, kind as u64);
    buf.push(10u8);
    push_body(&mut buf, snake);
    assert(buf@ =~= spawn_message(apple, powerup, kind, snake@));
    buf
}

/// The message sent after a step.
pub fn encode_step_message(
    apple: Pos,
    powerup: Pos,
    kind: u32,
    consumed: bool,
    dir: Pos,
    snake: &Vec<Pos>,
) -> (r: Vec<u8>)
    ensures
        r@ == step_message(apple, powerup, kind, consumed, dir, snake@),
{
    let mut buf: Vec<u8> = Vec::new();
    push_pos(&mut buf, apple);
    buf.push(10u8);
    push_pos(&mut buf, powerup);
    buf.push(32u8);
    push_nat(&mut buf, kind as u64);
    buf.push(32u8);
    buf.push(if consumed { 49u8 } else { 48u8 });
    buf.push(10u8);
    push_pos(&mut buf, dir);
    buf.push(10u8);
    push_body(&mut buf, snake);
    assert(buf@ =~= step_message(apple, powerup, kind, consumed, dir, snake@));
    buf
}


/// The byte `b` does not occur in `s`.
pub open spec fn lacks(s: Seq<u8>, b: u8) -> bool {
    forall|i: int| 0 <= i < s.len() ==> s[i] != b
}

/// The digits of a number are decimal digits that denote it.
pub proof fn lemma_nat_text(n: nat)
    ensures
        is_digits(nat_text(n)),
        digits_value(nat_text(n)) == n,
    decreases n,
{
    if n < 10 {
        let t = nat_text(n);
        assert(t.drop_last() =~= Seq::<u8>::empty());
        assert(digits_value(t) == digits_value(t.drop_last()) * 10 + (t.last() - 48) as nat);
    } else {
        lemma_nat_text(n / 10);
        let t = nat_text(n);
        assert(t.drop_last() =~= nat_text(n / 10));
        assert forall|i: int| 0 <= i < t.len() implies is_digit(#[trigger] t[i]) by {
            if i < t.len() - 1 {
                assert(t[i] == nat_text(n / 10)[i]);
            }
        }
        lemma_fundamental_div_mod_converse(n as int, 10, (n / 10) as int, (n % 10) as int);
        assert(digits_value(t) == digits_value(t.drop_last()) * 10 + (t.last() - 48) as nat);
    }
}

/// The text of a number holds no space, newline or carriage return.
pub proof fn lemma_int_text_plain(v: int)
    ensures
        lacks(int_text(v), 32u8),
        lacks(int_text(v), 10u8),
        lacks(int_text(v), 13u8),
        int_text(v).len() > 0,
        is_digit(int_text(v).last()),
{
    let n: nat = if v < 0 { (-v) as nat } else { v as nat };
    lemma_nat_text(n);
    let t = int_text(v);
    assert forall|i: int| 0 <= i < t.len() implies t[i] != 32u8 && t[i] != 10u8 && t[i] != 13u8 by {
        if v < 0 {
            if i > 0 {
                assert(t[i] == nat_text(n)[i - 1]);
            }
        }
    }
    if v < 0 {
        assert(t.last() == nat_text(n).last());
    }
}

/// A coordinate reads back from its text.
pub proof fn lemma_parse_coord_text(v: i32)
    ensures
        parse_coord_spec(int_text(v as int)) == Some(v),
{
    let t = int_text(v as int);
    let n: nat = if v < 0 { (-v) as nat } else { v as nat };
    lemma_nat_text(n);
    let a: int = if v < 0 { 1 } else { 0 };
    if v < 0 {
        assert(t.drop_first() =~= nat_text(n));
        assert forall|i: int| 1 <= i < t.len() implies is_digit(#[trigger] t[i]) by {
            assert(t[i] == nat_text(n)[i - 1]);
        }
        assert(t.subrange(1, t.len() as int) =~= nat_text(n));
    } else {
        assert(is_digit(t[0]));
        assert(t.subrange(0, t.len() as int) =~= nat_text(n));
    }
    lemma_run_to_end(t, a);
    assert(run_end(t, a) == t.len());
    assert(t.subrange(a, t.len() as int) + Seq::<u8>::empty() =~= nat_text(n));
    assert(digits_value(Seq::<u8>::empty()) == 0);
    assert(pow10(0) == 1);
    assert(n * pow10(0) == n) by (nonlinear_arith)
        requires
            pow10(0) == 1,
    ;
}

/// An unsigned number reads back from its digits.
pub proof fn lemma_parse_u32_text(k: u32)
    ensures
        parse_u32_spec(nat_text(k as nat)) == Some(k),
{
    lemma_nat_text(k as nat);
    assert(is_digit(nat_text(k as nat)[0]));
}

/// Text without the separator is a single piece.
pub proof fn lemma_split_plain(a: Seq<u8>, sep: u8)
    requires
        lacks(a, sep),
    ensures
        split_on(a, sep) == seq![a],
    decreases a.len(),
{
    if a.len() == 0 {
        assert(a =~= Seq::<u8>::empty());
    } else {
        assert(a.last() != sep);
        assert(lacks(a.drop_last(), sep));
        lemma_split_plain(a.drop_last(), sep);
        assert(a.drop_last().push(a.last()) =~= a);
        assert(split_on(a, sep) =~= seq![a]);
    }
}

/// Splitting a concatenation joins the last piece of the first part with the first
/// piece of the second.
pub proof fn lemma_split_concat(a: Seq<u8>, b: Seq<u8>, sep: u8)
    ensures
        split_on(a + b, sep) == split_on(a, sep).drop_last() + seq![
            split_on(a, sep).last() + split_on(b, sep)[0],
        ] + split_on(b, sep).drop_first(),
    decreases b.len(),
{
    lemma_split_nonempty(a, sep);
    if b.len() == 0 {
        assert(a + b =~= a);
        assert(split_on(a, sep).last() + Seq::<u8>::empty() =~= split_on(a, sep).last());
        assert(split_on(a, sep) =~= split_on(a, sep).drop_last() + seq![split_on(a, sep).last()]);
    } else {
        let b0 = b.drop_last();
        lemma_split_concat(a, b0, sep);
        lemma_split_nonempty(b0, sep);
        assert((a + b).drop_last() =~= a + b0);
        assert((a + b).last() == b.last());
        let sa = split_on(a, sep);
        let sb0 = split_on(b0, sep);
        if b.last() == sep {
            assert(split_on(a + b, sep) =~= sa.drop_last() + seq![sa.last() + split_on(b, sep)[0]]
                + split_on(b, sep).drop_first());
        } else {
            if sb0.len() == 1 {
                assert(split_on(a + b, sep) =~= sa.drop_last() + seq![
                    sa.last() + split_on(b, sep)[0],
                ] + split_on(b, sep).drop_first());
            } else {
                assert(split_on(a + b, sep) =~= sa.drop_last() + seq![
                    sa.last() + split_on(b, sep)[0],
                ] + split_on(b, sep).drop_first());
            }
        }
    }
}

/// Splitting a piece without the separator, the separator and more text.
pub proof fn lemma_split_cons(x: Seq<u8>, y: Seq<u8>, sep: u8)
    requires
        lacks(x, sep),
    ensures
        split_on(x + seq![sep] + y, sep) == seq![x] + split_on(y, sep),
{
    lemma_split_plain(x, sep);
    let xs = x + seq![sep];
    assert(xs.drop_last() =~= x);
    assert(split_on(xs, sep) =~= seq![x, Seq::<u8>::empty()]);
    lemma_split_concat(xs, y, sep);
    lemma_split_nonempty(y, sep);
    assert(Seq::<u8>::empty() + split_on(y, sep)[0] =~= split_on(y, sep)[0]);
    assert(split_on(x + seq![sep] + y, sep) =~= seq![x] + split_on(y, sep));
}

/// Lines without newlines, joined, split back into those lines.
pub proof fn lemma_split_join(ls: Seq<Seq<u8>>)
    requires
        ls.len() >= 1,
        forall|i: int| 0 <= i < ls.len() ==> lacks(#[trigger] ls[i], 10u8),
    ensures
        split_on(join_lines(ls), 10u8) == ls,
    decreases ls.len(),
{
    if ls.len() == 1 {
        lemma_split_plain(ls[0], 10u8);
        assert(ls =~= seq![ls[0]]);
    } else {
        let rest = ls.drop_first();
        assert forall|i: int| 0 <= i < rest.len() implies lacks(#[trigger] rest[i], 10u8) by {
            assert(rest[i] == ls[i + 1]);
        }
        lemma_split_join(rest);
        lemma_split_cons(ls[0], join_lines(rest), 10u8);
        assert(ls =~= seq![ls[0]] + rest);
    }
}


/// A position's text is one line of two fields, and reads back as the position.
pub proof fn lemma_pos_text(p: Pos, q: Pos)
    ensures
        lacks(pos_text(p), 10u8),
        pos_text(p).len() > 0,
        strip_cr(pos_text(p)) == pos_text(p),
        fields_spec(pos_text(p)) == seq![int_text(p.x as int), int_text(p.y as int)],
        read_pos_spec(fields_spec(pos_text(p)), q) == p,
{
    lemma_int_text_plain(p.x as int);
    lemma_int_text_plain(p.y as int);
    let t = pos_text(p);
    let tx = int_text(p.x as int);
    let ty = int_text(p.y as int);
    assert forall|i: int| 0 <= i < t.len() implies t[i] != 10u8 by {
        if i < tx.len() {
            assert(t[i] == tx[i]);
        } else if i > tx.len() {
            assert(t[i] == ty[i - tx.len() - 1]);
        }
    }
    assert(t.last() == ty.last());
    lemma_split_cons(tx, ty, 32u8);
    lemma_split_plain(ty, 32u8);
    assert(seq![tx] + seq![ty] =~= seq![tx, ty]);
    lemma_parse_coord_text(p.x);
    lemma_parse_coord_text(p.y);
}

/// The second line of a step message: the power-up, its kind and the taken flag.
pub open spec fn kind_line(powerup: Pos, kind: u32, consumed: bool) -> Seq<u8> {
    pos_text(powerup) + seq![32u8] + nat_text(kind as nat) + seq![32u8] + (if consumed {
        seq![49u8]
    } else {
        seq![48u8]
    })
}

/// The second line of a step message reads back as what it was made of.
pub proof fn lemma_kind_line(powerup: Pos, kind: u32, consumed: bool, q: Pos)
    ensures
        lacks(kind_line(powerup, kind, consumed), 10u8),
        strip_cr(kind_line(powerup, kind, consumed)) == kind_line(powerup, kind, consumed),
        kind_line(powerup, kind, consumed).len() > 0,
        fields_spec(kind_line(powerup, kind, consumed)).len() == 4,
        read_pos_spec(fields_spec(kind_line(powerup, kind, consumed)), q) == powerup,
        parse_u32_spec(fields_spec(kind_line(powerup, kind, consumed))[2]) == Some(kind),
        (parse_u32_spec(fields_spec(kind_line(powerup, kind, consumed))[3]) == Some(1u32))
            == consumed,
{
    let flag: Seq<u8> = if consumed { seq![49u8] } else { seq![48u8] };
    let kt = nat_text(kind as nat);
    let pt = pos_text(powerup);
    let l1 = kind_line(powerup, kind, consumed);
    lemma_pos_text(powerup, q);
    lemma_nat_text(kind as nat);
    assert(lacks(kt, 10u8) && lacks(kt, 32u8)) by {
        assert forall|i: int| 0 <= i < kt.len() implies kt[i] != 10u8 && kt[i] != 32u8 by {
            assert(is_digit(kt[i]));
        }
    }
    assert(lacks(l1, 10u8)) by {
        assert forall|i: int| 0 <= i < l1.len() implies l1[i] != 10u8 by {
            if i < pt.len() {
                assert(l1[i] == pt[i]);
            } else if pt.len() < i < pt.len() + 1 + kt.len() {
                assert(l1[i] == kt[i - pt.len() - 1]);
            }
        }
    }
    assert(l1.last() == flag[0]);
    let tpx = int_text(powerup.x as int);
    let tpy = int_text(powerup.y as int);
    lemma_int_text_plain(powerup.y as int);
    lemma_int_text_plain(powerup.x as int);
    assert(l1 =~= tpx + seq![32u8] + (tpy + seq![32u8] + (kt + seq![32u8] + flag)));
    lemma_split_cons(tpx, tpy + seq![32u8] + (kt + seq![32u8] + flag), 32u8);
    lemma_split_cons(tpy, kt + seq![32u8] + flag, 32u8);
    lemma_split_cons(kt, flag, 32u8);
    lemma_split_plain(flag, 32u8);
    let f1 = fields_spec(l1);
    assert(f1 =~= seq![tpx, tpy, kt, flag]);
    lemma_parse_u32_text(kind);
    assert(flag =~= nat_text((if consumed { 1nat } else { 0nat })));
    lemma_parse_u32_text(if consumed { 1u32 } else { 0u32 });
    lemma_parse_coord_text(powerup.x);
    lemma_parse_coord_text(powerup.y);
}

/// The lines of a snake's text are the texts of its segments.
pub proof fn lemma_body_lines(snake: Seq<Pos>)
    ensures
        snake.len() == 0 ==> split_on(body_text(snake), 10u8) == seq![Seq::<u8>::empty()],
        snake.len() > 0 ==> split_on(body_text(snake), 10u8) == snake.map_values(
            |p: Pos| pos_text(p),
        ),
        forall|i: int|
            0 <= i < snake.len() ==> strip_cr(#[trigger] pos_text(snake[i])) == pos_text(snake[i])
                && pos_text(snake[i]).len() > 0 && read_pos_spec(
                fields_spec(pos_text(snake[i])),
                pos(0, 0),
            ) == snake[i],
{
    let texts = snake.map_values(|p: Pos| pos_text(p));
    assert forall|i: int| 0 <= i < snake.len() implies strip_cr(#[trigger] pos_text(snake[i]))
        == pos_text(snake[i]) && pos_text(snake[i]).len() > 0 && read_pos_spec(
        fields_spec(pos_text(snake[i])),
        pos(0, 0),
    ) == snake[i] by {
        lemma_pos_text(snake[i], pos(0, 0));
    }
    if snake.len() == 0 {
        assert(texts =~= Seq::<Seq<u8>>::empty());
        assert(body_text(snake) =~= Seq::<u8>::empty());
    } else {
        assert forall|i: int| 0 <= i < texts.len() implies lacks(#[trigger] texts[i], 10u8) by {
            lemma_pos_text(snake[i], snake[i]);
        }
        lemma_split_join(texts);
    }
}

/// The lines of a message made of three lines and a snake's text.
pub proof fn lemma_message_lines(l0: Seq<u8>, l1: Seq<u8>, l2: Seq<u8>, snake: Seq<Pos>)
    requires
        lacks(l0, 10u8),
        lacks(l1, 10u8),
        lacks(l2, 10u8),
        strip_cr(l0) == l0,
        strip_cr(l1) == l1,
        strip_cr(l2) == l2,
    ensures
        lines_spec(l0 + seq![10u8] + l1 + seq![10u8] + l2 + seq![10u8] + body_text(snake))
            == seq![l0, l1, l2] + snake.map_values(|p: Pos| pos_text(p)),
{
    let body = body_text(snake);
    let texts = snake.map_values(|p: Pos| pos_text(p));
    let m = l0 + seq![10u8] + l1 + seq![10u8] + l2 + seq![10u8] + body;
    assert(m =~= l0 + seq![10u8] + (l1 + seq![10u8] + (l2 + seq![10u8] + body)));
    lemma_split_cons(l0, l1 + seq![10u8] + (l2 + seq![10u8] + body), 10u8);
    lemma_split_cons(l1, l2 + seq![10u8] + body, 10u8);
    lemma_split_cons(l2, body, 10u8);
    lemma_body_lines(snake);
    let pieces = split_on(m, 10u8);
    assert(pieces =~= seq![l0, l1, l2] + split_on(body, 10u8));
    if snake.len() == 0 {
        assert(lines_spec(m) =~= seq![l0, l1, l2] + texts);
    } else {
        assert forall|i: int| 0 <= i < texts.len() implies strip_cr(#[trigger] texts[i])
            == texts[i] by {
            assert(texts[i] == pos_text(snake[i]));
        }
        assert(texts.last() == pos_text(snake.last()));
        assert(lines_spec(m) =~= seq![l0, l1, l2] + texts);
    }
}

/// Law: the message sent after a step reads back, whatever was known before it, as
/// the apple, power-up, kind, taken flag, direction and snake it was made of.
pub proof fn law_step_message_round_trip(
    apple: Pos,
    powerup: Pos,
    kind: u32,
    consumed: bool,
    dir: Pos,
    snake: Seq<Pos>,
    known_apple: Pos,
    known_powerup: Pos,
    known_kind: u32,
    known_dir: Pos,
)
    ensures
        decode_spec(
            step_message(apple, powerup, kind, consumed, dir, snake),
            known_apple,
            known_powerup,
            known_kind,
            known_dir,
        ) == (apple, powerup, kind, consumed, dir, snake),
{
    let pa = pos_text(apple);
    let l1 = kind_line(powerup, kind, consumed);
    let pd = pos_text(dir);
    let m = step_message(apple, powerup, kind, consumed, dir, snake);
    lemma_pos_text(apple, known_apple);
    lemma_pos_text(dir, known_dir);
    lemma_kind_line(powerup, kind, consumed, known_powerup);
    assert(m =~= pa + seq![10u8] + l1 + seq![10u8] + pd + seq![10u8] + body_text(snake));
    lemma_message_lines(pa, l1, pd, snake);
    let ls = lines_spec(m);
    let texts = snake.map_values(|p: Pos| pos_text(p));
    assert(ls == seq![pa, l1, pd] + texts);
    assert(ls[0] == pa && ls[1] == l1 && ls[2] == pd);
    if snake.len() > 0 {
        lemma_body_lines(snake);
        assert(ls.skip(3) =~= texts);
        assert(body_spec(ls) =~= snake);
    } else {
        assert(ls.len() == 3);
    }
}


/// The lines of a message made of two lines and a snake's text.
pub proof fn lemma_two_line_message(l0: Seq<u8>, l1: Seq<u8>, snake: Seq<Pos>)
    requires
        lacks(l0, 10u8),
        lacks(l1, 10u8),
        strip_cr(l0) == l0,
        strip_cr(l1) == l1,
    ensures
        lines_spec(l0 + seq![10u8] + l1 + seq![10u8] + body_text(snake)) == seq![l0, l1]
            + snake.map_values(|p: Pos| pos_text(p)),
{
    let body = body_text(snake);
    let texts = snake.map_values(|p: Pos| pos_text(p));
    let m = l0 + seq![10u8] + l1 + seq![10u8] + body;
    assert(m =~= l0 + seq![10u8] + (l1 + seq![10u8] + body));
    lemma_split_cons(l0, l1 + seq![10u8] + body, 10u8);
    lemma_split_cons(l1, body, 10u8);
    lemma_body_lines(snake);
    assert(split_on(m, 10u8) =~= seq![l0, l1] + split_on(body, 10u8));
    if snake.len() > 0 {
        assert forall|i: int| 0 <= i < texts.len() implies strip_cr(#[trigger] texts[i])
            == texts[i] by {
            assert(texts[i] == pos_text(snake[i]));
        }
        assert(texts.last() == pos_text(snake.last()));
    }
    assert(lines_spec(m) =~= seq![l0, l1] + texts);
}

/// Law: a power-up announcement reads back as its apple, power-up and kind, with the
/// power-up not taken; having no direction line, its first snake segment is read as
/// the sender's direction and the rest as the sender's snake.
pub proof fn law_spawn_message_reading(
    apple: Pos,
    powerup: Pos,
    kind: u32,
    snake: Seq<Pos>,
    known_apple: Pos,
    known_powerup: Pos,
    known_kind: u32,
    known_dir: Pos,
)
    ensures
        decode_spec(spawn_message(apple, powerup, kind, snake), known_apple, known_powerup, known_kind, known_dir)
            == (
            apple,
            powerup,
            kind,
            false,
            if snake.len() > 0 { snake[0] } else { known_dir },
            if snake.len() > 1 { snake.drop_first() } else { Seq::<Pos>::empty() },
        ),
{
    let pa = pos_text(apple);
    let kt = nat_text(kind as nat);
    let pt = pos_text(powerup);
    let l1 = pt + seq![32u8] + kt;
    lemma_pos_text(apple, known_apple);
    lemma_pos_text(powerup, known_powerup);
    lemma_nat_text(kind as nat);
    assert(lacks(kt, 10u8) && lacks(kt, 32u8) && lacks(kt, 13u8)) by {
        assert forall|i: int| 0 <= i < kt.len() implies kt[i] != 10u8 && kt[i] != 32u8 && kt[i]
            != 13u8 by {
            assert(is_digit(kt[i]));
        }
    }
    assert(lacks(l1, 10u8)) by {
        assert forall|i: int| 0 <= i < l1.len() implies l1[i] != 10u8 by {
            if i < pt.len() {
                assert(l1[i] == pt[i]);
            } else if i > pt.len() {
                assert(l1[i] == kt[i - pt.len() - 1]);
            }
        }
    }
    assert(l1.last() == kt.last());
    let m = spawn_message(apple, powerup, kind, snake);
    assert(m =~= pa + seq![10u8] + l1 + seq![10u8] + body_text(snake));
    lemma_two_line_message(pa, l1, snake);
    let ls = lines_spec(m);
    let texts = snake.map_values(|p: Pos| pos_text(p));
    assert(ls == seq![pa, l1] + texts);
    // the fields of the second line
    let tpx = int_text(powerup.x as int);
    let tpy = int_text(powerup.y as int);
    lemma_int_text_plain(powerup.y as int);
    lemma_int_text_plain(powerup.x as int);
    assert(l1 =~= tpx + seq![32u8] + (tpy + seq![32u8] + kt));
    lemma_split_cons(tpx, tpy + seq![32u8] + kt, 32u8);
    lemma_split_cons(tpy, kt, 32u8);
    lemma_split_plain(kt, 32u8);
    assert(fields_spec(l1) =~= seq![tpx, tpy, kt]);
    lemma_parse_u32_text(kind);
    lemma_parse_coord_text(powerup.x);
    lemma_parse_coord_text(powerup.y);
    lemma_body_lines(snake);
    assert(ls[0] == pa && ls[1] == l1);
    if snake.len() > 0 {
        assert(ls[2] == pos_text(snake[0]));
        lemma_pos_text(snake[0], known_dir);
    }
    if snake.len() > 1 {
        assert(ls.skip(3) =~= texts.drop_first());
        assert(body_spec(ls) =~= snake.drop_first());
    }
}

} // verus!

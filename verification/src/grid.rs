//! The playing field: cells, moving the head of a snake with wrap-around,
//! steering, and choosing a free cell for a new apple or power-up.
use vstd::prelude::*;

verus! {

/// Width of the playing field in cells.
pub const GRID_WIDTH: i32 = 12;

/// Height of the playing field in cells.
pub const GRID_HEIGHT: i32 = 12;

/// A cell position, or a direction, on the field. Coordinates are whole numbers;
/// a position received from the other player may lie outside the field.
#[derive(Clone, Copy, PartialEq, Eq, Structural, Debug)]
pub struct Pos {
    pub x: i32,
    pub y: i32,
}

/// The position `(x, y)`.
pub open spec fn pos(x: int, y: int) -> Pos {
    Pos { x: x as i32, y: y as i32 }
}

/// `v` clamped to the range of `i8`, as a cast of a float to `i8` clamps it.
pub open spec fn sat_i8(v: int) -> int {
    if v < -128 {
        -128
    } else if v > 127 {
        127
    } else {
        v
    }
}

/// `v` clamped to the range of `u8`, as a cast of a float to `u8` clamps it.
pub open spec fn sat_u8(v: int) -> int {
    if v < 0 {
        0
    } else if v > 255 {
        255
    } else {
        v
    }
}

/// `v` wrapped into the range of `i8` (two's complement).
pub open spec fn wrap_i8(v: int) -> int {
    (v + 128) % 256 - 128
}

/// The remainder of `a` divided by `m > 0`, with the sign of `a` (as Rust's `%`).
pub open spec fn trunc_rem(a: int, m: int) -> int {
    if a >= 0 {
        a % m
    } else {
        -((-a) % m)
    }
}

/// One coordinate of the next head: `(h + d + size) % size` computed on `i8`
/// values, wrapping on overflow.
pub open spec fn step_coord(h: int, d: int, size: int) -> int {
    trunc_rem(wrap_i8(sat_i8(h) + sat_i8(d) + size), size)
}

/// The cell that a snake whose head is at `head` enters when it moves by `dir`.
pub open spec fn next_head_spec(head: Pos, dir: Pos) -> Pos {
    pos(
        step_coord(head.x as int, dir.x as int, GRID_WIDTH as int),
        step_coord(head.y as int, dir.y as int, GRID_HEIGHT as int),
    )
}

/// The position lies on the field.
pub open spec fn in_grid(p: Pos) -> bool {
    0 <= p.x < GRID_WIDTH && 0 <= p.y < GRID_HEIGHT
}

/// A direction of one step along an axis.
pub open spec fn is_unit_dir(d: Pos) -> bool {
    (d.x == 0 && (d.y == 1 || d.y == -1)) || (d.y == 0 && (d.x == 1 || d.x == -1))
}

fn clamp_i8(v: i32) -> (r: i32)
    ensures
        r == sat_i8(v as int),
{
    if v < -128 {
        -128
    } else if v > 127 {
        127
    } else {
        v
    }
}

fn clamp_u8(v: i32) -> (r: i32)
    ensures
        r == sat_u8(v as int),
{
    if v < 0 {
        0
    } else if v > 255 {
        255
    } else {
        v
    }
}

fn next_coord(h: i32, d: i32, size: i32) -> (r: i32)
    requires
        0 < size <= 127,
    ensures
        r == step_coord(h as int, d as int, size as int),
{
    let a: i32 = clamp_i8(h) + clamp_i8(d) + size;
    let w: i32 = (a + 384) % 256 - 128;
    assert(w == wrap_i8(a as int));
    if w >= 0 {
        w % size
    } else {
        -((-w) % size)
    }
}

/// The cell that a snake whose head is at `head` enters when it moves by `dir`,
/// wrapping around the edges of the field.
pub fn next_head(head: Pos, dir: Pos) -> (r: Pos)
    ensures
        r == next_head_spec(head, dir),
        in_grid(head) && is_unit_dir(dir) ==> in_grid(r) && r == pos(
            (head.x + dir.x + GRID_WIDTH) % (GRID_WIDTH as int),
            (head.y + dir.y + GRID_HEIGHT) % (GRID_HEIGHT as int),
        ),
{
    Pos { x: next_coord(head.x, dir.x, GRID_WIDTH), y: next_coord(head.y, dir.y, GRID_HEIGHT) }
}

/// Law: from a cell of the field, one step in any of the four directions lands on
/// the field again, on the neighbouring cell modulo the field's size.
pub proof fn law_step_stays_on_field(head: Pos, dir: Pos)
    requires
        in_grid(head),
        is_unit_dir(dir),
    ensures
        in_grid(next_head_spec(head, dir)),
        next_head_spec(head, dir) == pos(
            (head.x + dir.x + GRID_WIDTH) % (GRID_WIDTH as int),
            (head.y + dir.y + GRID_HEIGHT) % (GRID_HEIGHT as int),
        ),
{
}


/// The steering keys pressed during one frame (`A`, `D`, `W`, `S`).
#[derive(Clone, Copy, PartialEq, Eq, Structural, Debug)]
pub struct Keys {
    pub left: bool,
    pub right: bool,
    pub up: bool,
    pub down: bool,
}

/// The direction the snake will take at its next step, after the keys of a frame:
/// the first pressed key of left, right, up, down (in that order) is taken, unless
/// it points against the current direction `cur`; otherwise `next` is kept.
pub open spec fn steer_spec(cur: Pos, next: Pos, keys: Keys) -> Pos {
    if keys.left {
        if cur != pos(1, 0) { pos(-1, 0) } else { next }
    } else if keys.right {
        if cur != pos(-1, 0) { pos(1, 0) } else { next }
    } else if keys.up {
        if cur != pos(0, 1) { pos(0, -1) } else { next }
    } else if keys.down {
        if cur != pos(0, -1) { pos(0, 1) } else { next }
    } else {
        next
    }
}

/// The direction for the next step after the keys of a frame.
pub fn steer(cur: Pos, next: Pos, keys: Keys) -> (r: Pos)
    ensures
        r == steer_spec(cur, next, keys),
{
    if keys.left {
        if cur != (Pos { x: 1, y: 0 }) {
            Pos { x: -1, y: 0 }
        } else {
            next
        }
    } else if keys.right {
        if cur != (Pos { x: -1, y: 0 }) {
            Pos { x: 1, y: 0 }
        } else {
            next
        }
    } else if keys.up {
        if cur != (Pos { x: 0, y: 1 }) {
            Pos { x: 0, y: -1 }
        } else {
            next
        }
    } else if keys.down {
        if cur != (Pos { x: 0, y: -1 }) {
            Pos { x: 0, y: 1 }
        } else {
            next
        }
    } else {
        next
    }
}

/// Law: a key never turns the snake straight back against the direction it moves in,
/// and a frame without keys keeps the chosen direction.
pub proof fn law_steer_never_reverses(cur: Pos, next: Pos, keys: Keys)
    ensures
        steer_spec(cur, next, keys) != next ==> !(steer_spec(cur, next, keys).x == -cur.x
            && steer_spec(cur, next, keys).y == -cur.y),
        !keys.left && !keys.right && !keys.up && !keys.down ==> steer_spec(cur, next, keys)
            == next,
        is_unit_dir(next) ==> is_unit_dir(steer_spec(cur, next, keys)),
{
}

/// Law: each key turns the snake its way unless that is straight back: the first
/// pressed key of left, right, up and down decides; it gives its own direction when the
/// current direction is not its opposite, and otherwise the chosen direction stays.
pub proof fn law_steer_takes_keys(cur: Pos, next: Pos, keys: Keys)
    ensures
        keys.left && cur != pos(1, 0) ==> steer_spec(cur, next, keys) == pos(-1, 0),
        keys.left && cur == pos(1, 0) ==> steer_spec(cur, next, keys) == next,
        !keys.left && keys.right && cur != pos(-1, 0) ==> steer_spec(cur, next, keys) == pos(1, 0),
        !keys.left && keys.right && cur == pos(-1, 0) ==> steer_spec(cur, next, keys) == next,
        !keys.left && !keys.right && keys.up && cur != pos(0, 1) ==> steer_spec(cur, next, keys)
            == pos(0, -1),
        !keys.left && !keys.right && keys.up && cur == pos(0, 1) ==> steer_spec(cur, next, keys)
            == next,
        !keys.left && !keys.right && !keys.up && keys.down && cur != pos(0, -1) ==> steer_spec(
            cur,
            next,
            keys,
        ) == pos(0, 1),
        !keys.left && !keys.right && !keys.up && keys.down && cur == pos(0, -1) ==> steer_spec(
            cur,
            next,
            keys,
        ) == next,
{
}

/// Milliseconds between two steps: 100 while the speed key is held, else 250,
/// cut to 70% while the snake is slowed by a power-up.
pub open spec fn step_interval_spec(fast: bool, slowed: bool) -> int {
    let base = if fast { 100int } else { 250int };
    if slowed { base * 7 / 10 } else { base }
}

/// Milliseconds between two steps of the snake.
pub fn step_interval(fast: bool, slowed: bool) -> (r: u64)
    ensures
        r == step_interval_spec(fast, slowed),
        r == (if fast { if slowed { 70int } else { 100int } } else { if slowed { 175int } else { 250int } }),
{
    let base: u64 = if fast { 100 } else { 250 };
    if slowed { base * 7 / 10 } else { base }
}

/// The contents of the snakes, as sequences of cells.
pub open spec fn bodies(snakes: Seq<&Vec<Pos>>) -> Seq<Seq<Pos>> {
    snakes.map_values(|s: &Vec<Pos>| s@)
}

/// The item at `p` blocks the field cell `c` (its coordinates clamped to `u8`, as the
/// cell of a float position is taken).
pub open spec fn covers(p: Pos, c: Pos) -> bool {
    sat_u8(p.x as int) == c.x && sat_u8(p.y as int) == c.y
}

/// The cell `c` is taken by a segment of one of the snakes or by one of the other items.
pub open spec fn occupied(snakes: Seq<Seq<Pos>>, others: Seq<Pos>, c: Pos) -> bool {
    (exists|k: int, m: int|
        0 <= k < snakes.len() && 0 <= m < snakes[k].len() && covers(#[trigger] snakes[k][m], c))
        || (exists|k: int| 0 <= k < others.len() && covers(#[trigger] others[k], c))
}

/// The `k`-th cell of the field, column by column.
pub open spec fn grid_cell(k: int) -> Pos {
    pos(k / (GRID_HEIGHT as int), k % (GRID_HEIGHT as int))
}

/// All cells of the field, column by column.
pub open spec fn all_cells() -> Seq<Pos> {
    Seq::new((GRID_WIDTH * GRID_HEIGHT) as nat, |k: int| grid_cell(k))
}

/// The cells of the field that nothing occupies, column by column.
pub open spec fn free_cells_spec(snakes: Seq<Seq<Pos>>, others: Seq<Pos>) -> Seq<Pos> {
    all_cells().filter(|c: Pos| !occupied(snakes, others, c))
}

/// Whether an item or a snake segment takes the cell `c`.
pub fn is_occupied(snakes: &[&Vec<Pos>], others: &[Pos], c: Pos) -> (r: bool)
    ensures
        r == occupied(bodies(snakes@), others@, c),
{
    let ghost b = bodies(snakes@);
    let mut k: usize = 0;
    while k < snakes.len()
        invariant
            k <= snakes@.len(),
            b == bodies(snakes@),
            forall|k2: int, m: int|
                0 <= k2 < k && 0 <= m < b[k2].len() ==> !covers(#[trigger] b[k2][m], c),
        decreases snakes@.len() - k,
    {
        let body: &Vec<Pos> = snakes[k];
        assert(b[k as int] == body@);
        let mut m: usize = 0;
        while m < body.len()
            invariant
                m <= body@.len(),
                k < snakes@.len(),
                b == bodies(snakes@),
                b[k as int] == body@,
                forall|k2: int, m2: int|
                    0 <= k2 < k && 0 <= m2 < b[k2].len() ==> !covers(#[trigger] b[k2][m2], c),
                forall|m2: int| 0 <= m2 < m ==> !covers(#[trigger] b[k as int][m2], c),
            decreases body@.len() - m,
        {
            let p = body[m];
            if clamp_u8(p.x) == c.x && clamp_u8(p.y) == c.y {
                assert(covers(b[k as int][m as int], c));
                return true;
            }
            m = m + 1;
        }
        k = k + 1;
    }
    let mut k: usize = 0;
    while k < others.len()
        invariant
            k <= others@.len(),
            forall|k2: int, m: int|
                0 <= k2 < b.len() && 0 <= m < b[k2].len() ==> !covers(#[trigger] b[k2][m], c),
            forall|k2: int| 0 <= k2 < k ==> !covers(#[trigger] others@[k2], c),
        decreases others@.len() - k,
    {
        let p = others[k];
        if clamp_u8(p.x) == c.x && clamp_u8(p.y) == c.y {
            assert(covers(others@[k as int], c));
            return true;
        }
        k = k + 1;
    }
    false
}

/// The free cells of the field, column by column.
///
/// The cells are listed in a `Vec`, in a fixed order, where a hash set of cells could
/// be walked in an order that changes from one process to the next: a draw then picks
/// one free cell, and which one was never fixed by the game. The order is stated, and
/// with it the cell that each draw picks.
pub fn free_cells(snakes: &[&Vec<Pos>], others: &[Pos]) -> (r: Vec<Pos>)
    ensures
        r@ == free_cells_spec(bodies(snakes@), others@),
{
    let ghost pred = |c: Pos| !occupied(bodies(snakes@), others@, c);
    let mut res: Vec<Pos> = Vec::new();
    let mut i: i32 = 0;
    while i < GRID_WIDTH
        invariant
            0 <= i <= GRID_WIDTH,
            pred == (|c: Pos| !occupied(bodies(snakes@), others@, c)),
            res@ == all_cells().take(i * GRID_HEIGHT).filter(pred),
        decreases GRID_WIDTH - i,
    {
        let mut j: i32 = 0;
        while j < GRID_HEIGHT
            invariant
                0 <= i < GRID_WIDTH,
                0 <= j <= GRID_HEIGHT,
                pred == (|c: Pos| !occupied(bodies(snakes@), others@, c)),
                res@ == all_cells().take(i * GRID_HEIGHT + j).filter(pred),
            decreases GRID_HEIGHT - j,
        {
            let c = Pos { x: i, y: j };
            let ghost n: int = i * GRID_HEIGHT + j;
            assert(all_cells()[n] == c);
            assert(all_cells().take(n + 1).drop_last() =~= all_cells().take(n));
            assert(all_cells().take(n + 1).last() == c);
            reveal_with_fuel(Seq::filter, 1);
            if !is_occupied(snakes, others, c) {
                res.push(c);
            }
            j = j + 1;
        }
        i = i + 1;
    }
    assert(all_cells().take(GRID_WIDTH * GRID_HEIGHT) =~= all_cells());
    res
}


/// The cell chosen by the draw `roll` among the free cells: the free cell at index
/// `roll` modulo their number; none where no cell is free.
pub open spec fn pick_cell_spec(free: Seq<Pos>, roll: u32) -> Option<Pos> {
    if free.len() == 0 {
        None
    } else {
        Some(free[(roll as int) % (free.len() as int)])
    }
}

/// A pseudo-random `u32`.
///
/// Trusted: calls `macroquad::rand::rand` (quad-rand's global generator). It returns
/// any `u32`; nothing is stated of the value.
#[verifier::external_body]
pub(crate) fn random_u32() -> u32 {
    macroquad::rand::rand()
}

/// The free cell that the draw `roll` chooses, or `None` when the field is full.
pub fn choose_free_cell(snakes: &[&Vec<Pos>], others: &[Pos], roll: u32) -> (r: Option<Pos>)
    ensures
        r == pick_cell_spec(free_cells_spec(bodies(snakes@), others@), roll),
{
    let free = free_cells(snakes, others);
    if free.len() == 0 {
        None
    } else {
        Some(free[(roll as usize) % free.len()])
    }
}

/// Law: every free cell lies on the field and is taken by no snake and no item,
/// and a cell chosen among them is one of them.
pub proof fn law_free_cells_are_free(snakes: Seq<Seq<Pos>>, others: Seq<Pos>, roll: u32)
    ensures
        forall|i: int|
            0 <= i < free_cells_spec(snakes, others).len() ==> in_grid(
                #[trigger] free_cells_spec(snakes, others)[i],
            ) && !occupied(snakes, others, free_cells_spec(snakes, others)[i]),
        pick_cell_spec(free_cells_spec(snakes, others), roll) matches Some(c) ==> in_grid(c)
            && !occupied(snakes, others, c),
{
    let pred = |c: Pos| !occupied(snakes, others, c);
    broadcast use vstd::seq_lib::group_filter_ensures;
    let f = all_cells().filter(pred);
    assert forall|i: int| 0 <= i < f.len() implies in_grid(#[trigger] f[i]) && !occupied(
        snakes,
        others,
        f[i],
    ) by {
        assert(pred(f[i]));
        assert(f.contains(f[i]));
        all_cells().lemma_filter_contains_rev(pred, f[i]);
        assert(all_cells().contains(f[i]));
        let k = choose|k: int| 0 <= k < all_cells().len() && all_cells()[k] == f[i];
        assert(all_cells()[k] == grid_cell(k));
    }
    if f.len() > 0 {
        let i = (roll as int) % (f.len() as int);
        assert(0 <= i < f.len());
        assert(in_grid(f[i]));
    }
}

/// A free cell for a new apple or power-up, chosen with the game's pseudo-random
/// generator. The field must have a free cell.
pub fn gen_apple(snakes: &[&Vec<Pos>], others: &[Pos]) -> (r: Pos)
    requires
        free_cells_spec(bodies(snakes@), others@).len() > 0,
    ensures
        free_cells_spec(bodies(snakes@), others@).contains(r),
        in_grid(r),
        !occupied(bodies(snakes@), others@, r),
{
    let roll = random_u32();
    let r = choose_free_cell(snakes, others, roll);
    proof {
        law_free_cells_are_free(bodies(snakes@), others@, roll);
        let f = free_cells_spec(bodies(snakes@), others@);
        assert(f[(roll as int) % (f.len() as int)] == r.unwrap());
    }
    r.unwrap()
}


/// The snake after one step into `next`: `next` becomes the head, and the tail cell
/// is dropped unless `next` is the apple.
pub open spec fn advance_spec(snake: Seq<Pos>, next: Pos, apple: Pos) -> Seq<Pos> {
    if next != apple {
        snake.push(next).drop_first()
    } else {
        snake.push(next)
    }
}

/// Moves the snake (tail first, head last) into `next`; returns whether it ate the apple.
pub fn advance_snake(snake: &mut Vec<Pos>, next: Pos, apple: Pos) -> (ate: bool)
    ensures
        ate == (next == apple),
        final(snake)@ == advance_spec(old(snake)@, next, apple),
{
    snake.push(next);
    if next != apple {
        snake.remove(0);
        assert(final(snake)@ =~= old(snake)@.push(next).drop_first());
        false
    } else {
        true
    }
}

/// Law: a step makes `next` the head; the snake grows by one cell exactly when it
/// eats the apple, and otherwise keeps its length and follows its own body.
pub proof fn law_advance_grows_on_apple(snake: Seq<Pos>, next: Pos, apple: Pos)
    requires
        snake.len() > 0,
    ensures
        advance_spec(snake, next, apple).last() == next,
        next == apple ==> advance_spec(snake, next, apple).len() == snake.len() + 1
            && advance_spec(snake, next, apple).drop_last() == snake,
        next != apple ==> advance_spec(snake, next, apple).len() == snake.len()
            && advance_spec(snake, next, apple).drop_last() == snake.drop_first(),
{
    assert(snake.push(next).drop_last() =~= snake);
    assert(snake.push(next).drop_first().drop_last() =~= snake.drop_first());
}

} // verus!

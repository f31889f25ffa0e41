use snake_game::grid::{
    advance_snake, choose_free_cell, free_cells, gen_apple, is_occupied, next_head, steer,
    step_interval, Keys, Pos,
};

fn p(x: i32, y: i32) -> Pos {
    Pos { x, y }
}

fn keys(left: bool, right: bool, up: bool, down: bool) -> Keys {
    Keys { left, right, up, down }
}

#[test]
fn head_moves_one_cell() {
    assert_eq!(next_head(p(5, 5), p(1, 0)), p(6, 5));
    assert_eq!(next_head(p(5, 5), p(0, -1)), p(5, 4));
}

#[test]
fn head_wraps_around_edges() {
    assert_eq!(next_head(p(11, 5), p(1, 0)), p(0, 5));
    assert_eq!(next_head(p(0, 0), p(-1, 0)), p(11, 0));
    assert_eq!(next_head(p(0, 0), p(0, -1)), p(0, 11));
    assert_eq!(next_head(p(3, 11), p(0, 1)), p(3, 0));
}

#[test]
fn head_off_field_follows_i8_arithmetic() {
    // -20 + 0 + 12 = -8, and -8 % 12 keeps the sign.
    assert_eq!(next_head(p(-20, 0), p(0, 0)), p(-8, 0));
    // 300 clamps to 127; 127 + 1 + 12 wraps to -116, and -116 % 12 = -8.
    assert_eq!(next_head(p(300, 0), p(1, 0)), p(-8, 0));
}

#[test]
fn steering_takes_first_key() {
    assert_eq!(steer(p(0, 1), p(0, 1), keys(true, true, false, false)), p(-1, 0));
    assert_eq!(steer(p(0, 1), p(0, 1), keys(false, true, true, false)), p(1, 0));
    assert_eq!(steer(p(1, 0), p(1, 0), keys(false, false, true, true)), p(0, -1));
    assert_eq!(steer(p(1, 0), p(1, 0), keys(false, false, false, true)), p(0, 1));
}

#[test]
fn steering_never_reverses() {
    assert_eq!(steer(p(1, 0), p(1, 0), keys(true, false, false, false)), p(1, 0));
    assert_eq!(steer(p(-1, 0), p(0, 1), keys(false, true, false, false)), p(0, 1));
    assert_eq!(steer(p(0, 1), p(0, 1), keys(false, false, true, false)), p(0, 1));
    assert_eq!(steer(p(0, -1), p(0, -1), keys(false, false, false, true)), p(0, -1));
    // a blocked first key does not fall through to the next one
    assert_eq!(steer(p(1, 0), p(1, 0), keys(true, false, true, false)), p(1, 0));
}

#[test]
fn no_keys_keep_direction() {
    assert_eq!(steer(p(1, 0), p(0, 1), keys(false, false, false, false)), p(0, 1));
}

#[test]
fn step_intervals() {
    assert_eq!(step_interval(false, false), 250);
    assert_eq!(step_interval(true, false), 100);
    assert_eq!(step_interval(false, true), 175);
    assert_eq!(step_interval(true, true), 70);
}

#[test]
fn free_cells_skip_snake_and_items() {
    let snake = vec![p(0, 0), p(0, 1), p(5, 5)];
    let free = free_cells(&[&snake], &[p(11, 11)]);
    assert_eq!(free.len(), 144 - 4);
    assert_eq!(free[0], p(0, 2));
    assert!(!free.contains(&p(5, 5)));
    assert!(!free.contains(&p(11, 11)));
    assert_eq!(*free.last().unwrap(), p(11, 10));
}

#[test]
fn missing_powerup_blocks_the_corner() {
    // (-1, -1) stands for "no power-up"; clamped to the field's range it is (0, 0).
    let snake = vec![p(5, 5)];
    assert!(is_occupied(&[&snake], &[p(-1, -1)], p(0, 0)));
    let free = free_cells(&[&snake], &[p(-1, -1)]);
    assert!(!free.contains(&p(0, 0)));
    assert_eq!(free.len(), 142);
}

#[test]
fn cells_far_outside_clamp() {
    let snake = vec![p(300, -7)];
    assert!(is_occupied(&[&snake], &[], p(255, 0)));
    assert!(!is_occupied(&[&snake], &[], p(11, 0)));
}

#[test]
fn roll_picks_free_cell_by_index() {
    let snake = vec![p(0, 0)];
    assert_eq!(choose_free_cell(&[&snake], &[], 0), Some(p(0, 1)));
    assert_eq!(choose_free_cell(&[&snake], &[], 11), Some(p(1, 0)));
    // 143 free cells: 143 wraps to index 0
    assert_eq!(choose_free_cell(&[&snake], &[], 143), Some(p(0, 1)));
    assert_eq!(choose_free_cell(&[&snake], &[], 142), Some(p(11, 11)));
}

#[test]
fn full_field_has_no_free_cell() {
    let mut snake = Vec::new();
    for x in 0..12 {
        for y in 0..12 {
            snake.push(p(x, y));
        }
    }
    assert_eq!(choose_free_cell(&[&snake], &[], 7), None);
    let mut other = snake.clone();
    other.pop();
    assert_eq!(choose_free_cell(&[&other], &[], 7), Some(p(11, 11)));
}

#[test]
fn random_apple_is_free() {
    let snake = vec![p(3, 3), p(3, 4)];
    let enemy = vec![p(8, 8)];
    for _ in 0..50 {
        let a = gen_apple(&[&snake, &enemy], &[p(6, 6)]);
        assert!(0 <= a.x && a.x < 12 && 0 <= a.y && a.y < 12);
        assert!(a != p(3, 3) && a != p(3, 4) && a != p(8, 8) && a != p(6, 6));
    }
}

#[test]
fn snake_follows_without_apple() {
    let mut snake = vec![p(1, 1), p(2, 1)];
    let ate = advance_snake(&mut snake, p(3, 1), p(7, 7));
    assert!(!ate);
    assert_eq!(snake, vec![p(2, 1), p(3, 1)]);
}

#[test]
fn snake_grows_on_apple() {
    let mut snake = vec![p(1, 1), p(2, 1)];
    let ate = advance_snake(&mut snake, p(3, 1), p(3, 1));
    assert!(ate);
    assert_eq!(snake, vec![p(1, 1), p(2, 1), p(3, 1)]);
}

use snake_game::game::{kind_of_roll, FrameError, FrameInput, Game, Rolls, Scene};
use snake_game::grid::{Keys, Pos};

fn p(x: i32, y: i32) -> Pos {
    Pos { x, y }
}

const NO_KEYS: Keys = Keys { left: false, right: false, up: false, down: false };

fn input(now: i64) -> FrameInput {
    FrameInput { now, keys: NO_KEYS, fast: false, escape: false, start_solo: false, start_duel: false }
}

fn rolls(cell: u32, kind: u32, apple: u32) -> Rolls {
    Rolls { powerup_cell: cell, powerup_kind: kind, apple_cell: apple }
}

fn solo_game() -> Game {
    let mut g = Game::opening(0, 0);
    let mut i = input(100);
    i.start_solo = true;
    g.menu_frame(i, 13);
    g
}

#[test]
fn opening_state() {
    let g = Game::opening(42, 5);
    assert_eq!(g.scene, Scene::MainMenu);
    assert_eq!(g.snake, vec![p(10, 10)]);
    assert_eq!(g.enemy_snake, vec![p(10, 10)]);
    assert_eq!(g.apple, p(0, 5));
    assert_eq!(g.powerup, p(-1, -1));
    assert_eq!(g.powerup_type, 2);
    assert_eq!(g.next_dir, p(1, 0));
    assert_eq!(g.step_time, 42);
    assert_eq!(g.time_skip, 250);
    assert!(!g.slowed);
}

#[test]
fn new_game_apple_is_free() {
    for _ in 0..20 {
        let g = Game::new(0);
        assert!(0 <= g.apple.x && g.apple.x < 12 && 0 <= g.apple.y && g.apple.y < 12);
        assert_ne!(g.apple, p(10, 10));
    }
}

#[test]
fn menu_starts_single_player() {
    let g = solo_game();
    assert_eq!(g.scene, Scene::Playing);
    assert_eq!(g.snake, vec![p(10, 10)]);
    assert_eq!(g.apple, p(1, 1));
    assert_eq!(g.step_time, 100);
    assert_eq!(g.powerup_time, 100);
}

#[test]
fn menu_opens_two_player_setup_and_escape_returns() {
    let mut g = Game::opening(0, 0);
    let mut i = input(10);
    i.start_duel = true;
    let sent = g.frame(i, None, rolls(0, 0, 0)).unwrap();
    assert!(sent.is_empty());
    assert_eq!(g.scene, Scene::Setup2Player);
    let mut i = input(20);
    i.escape = true;
    g.frame(i, None, rolls(0, 0, 0)).unwrap();
    assert_eq!(g.scene, Scene::MainMenu);
}

#[test]
fn solo_waits_for_interval() {
    let mut g = solo_game();
    g.solo_frame(input(350), rolls(0, 0, 0)).unwrap();
    assert_eq!(g.snake, vec![p(10, 10)]);
    g.solo_frame(input(351), rolls(0, 0, 0)).unwrap();
    assert_eq!(g.snake, vec![p(11, 10)]);
    assert_eq!(g.cur_dir, p(1, 0));
    assert_eq!(g.step_time, 351);
}

#[test]
fn solo_speed_key_shortens_interval() {
    let mut g = solo_game();
    let mut i = input(201);
    i.fast = true;
    g.solo_frame(i, rolls(0, 0, 0)).unwrap();
    assert_eq!(g.time_skip, 100);
    assert_eq!(g.snake, vec![p(11, 10)]);
}

#[test]
fn solo_steering_applies_at_next_step() {
    let mut g = solo_game();
    let mut i = input(351);
    i.keys.down = true;
    g.solo_frame(i, rolls(0, 0, 0)).unwrap();
    assert_eq!(g.snake, vec![p(10, 11)]);
    assert_eq!(g.cur_dir, p(0, 1));
}

#[test]
fn solo_eats_apple_and_grows() {
    let mut g = solo_game();
    g.apple = p(11, 10);
    g.solo_frame(input(351), rolls(0, 0, 0)).unwrap();
    assert_eq!(g.snake, vec![p(10, 10), p(11, 10)]);
    // free cells exclude the snake and the (-1, -1) power-up clamped to (0, 0)
    assert_eq!(g.apple, p(0, 1));
}

#[test]
fn solo_powerup_appears_after_pause() {
    let mut g = solo_game();
    g.solo_frame(input(12600), rolls(0, 0, 0)).unwrap();
    assert_eq!(g.powerup, p(-1, -1));
    g.step_time = 12601;
    g.solo_frame(input(12601), rolls(0, 0, 0)).unwrap();
    assert_eq!(g.powerup, p(0, 0));
    assert_eq!(g.powerup_type, 1);
}

#[test]
fn solo_slowdown_and_its_end() {
    let mut g = solo_game();
    g.powerup = p(11, 10);
    g.powerup_type = 1;
    g.solo_frame(input(351), rolls(0, 0, 0)).unwrap();
    assert!(g.slowed);
    assert_eq!(g.powerup, p(-1, -1));
    assert_eq!(g.powerup_time, 351);
    g.solo_frame(input(400), rolls(0, 0, 0)).unwrap();
    assert_eq!(g.time_skip, 175);
    g.solo_frame(input(7851), rolls(0, 0, 0)).unwrap();
    assert!(g.slowed);
    g.solo_frame(input(7852), rolls(0, 0, 0)).unwrap();
    assert!(!g.slowed);
}

#[test]
fn solo_escape_returns_to_menu() {
    let mut g = solo_game();
    let mut i = input(351);
    i.escape = true;
    g.solo_frame(i, rolls(0, 0, 0)).unwrap();
    assert_eq!(g.scene, Scene::MainMenu);
    // the rest of the frame still plays
    assert_eq!(g.snake, vec![p(11, 10)]);
}

#[test]
fn solo_full_field_stops_the_game() {
    let mut g = solo_game();
    let mut snake = Vec::new();
    for x in 0..12 {
        for y in 0..12 {
            if !(x == 11 && y == 11) {
                snake.push(p(x, y));
            }
        }
    }
    g.snake = snake;
    g.next_dir = p(0, 1);
    g.apple = p(11, 11);
    assert_eq!(g.solo_frame(input(351), rolls(0, 0, 0)), Err(FrameError::FieldFull));
}

#[test]
fn solo_empty_snake_stops_the_game() {
    let mut g = solo_game();
    g.snake = Vec::new();
    assert_eq!(g.solo_frame(input(351), rolls(0, 0, 0)), Err(FrameError::EmptySnake));
    let mut g = solo_game();
    g.snake = Vec::new();
    assert_eq!(g.solo_frame(input(300), rolls(0, 0, 0)), Ok(()));
}

#[test]
fn duel_start_positions() {
    let mut host = Game::opening(0, 0);
    host.begin_duel(true, 5);
    assert_eq!(host.scene, Scene::Playing2Player);
    assert_eq!(host.snake, vec![p(3, 6)]);
    assert_eq!(host.enemy_snake, vec![p(9, 6)]);
    assert_eq!(host.next_dir, p(-1, 0));
    assert_eq!(host.apple, p(6, 6));
    let mut joiner = Game::opening(0, 0);
    joiner.begin_duel(false, 5);
    assert_eq!(joiner.snake, vec![p(9, 6)]);
    assert_eq!(joiner.enemy_snake, vec![p(3, 6)]);
    assert_eq!(joiner.next_dir, p(1, 0));
}

#[test]
fn duel_step_sends_state_and_peer_sees_it() {
    let mut host = Game::opening(0, 0);
    host.begin_duel(true, 0);
    let mut joiner = Game::opening(0, 0);
    joiner.begin_duel(false, 0);
    let sent = host.duel_frame(input(251), None, rolls(0, 0, 0)).unwrap();
    assert_eq!(sent, vec![b"6 6\n-1 -1 2 0\n-1 0\n2 6".to_vec()]);
    assert_eq!(host.snake, vec![p(2, 6)]);
    joiner.duel_frame(input(100), Some(&sent[0]), rolls(0, 0, 0)).unwrap();
    assert_eq!(joiner.enemy_snake, host.snake);
    assert_eq!(joiner.enemy_dir, p(-1, 0));
    assert_eq!(joiner.apple, host.apple);
}

#[test]
fn duel_swap_powerup_from_peer() {
    let mut g = Game::opening(0, 0);
    g.begin_duel(false, 0);
    let msg = b"6 6\n-1 -1 2 1\n0 1\n4 4\n4 5".to_vec();
    g.duel_frame(input(100), Some(&msg), rolls(0, 0, 0)).unwrap();
    assert_eq!(g.snake, vec![p(4, 4), p(4, 5)]);
    assert_eq!(g.enemy_snake, vec![p(9, 6)]);
    assert_eq!(g.next_dir, p(0, 1));
    assert_eq!(g.cur_dir, p(0, 1));
    assert_eq!(g.powerup_time, -900);
}

#[test]
fn duel_freeze_powerup_from_peer() {
    let mut g = Game::opening(0, 0);
    g.begin_duel(false, 0);
    let msg = b"6 6\n-1 -1 3 1\n0 1\n4 4".to_vec();
    g.duel_frame(input(100), Some(&msg), rolls(0, 0, 0)).unwrap();
    assert_eq!(g.cooldown, 5000);
    let sent = g.duel_frame(input(5250), None, rolls(0, 0, 0)).unwrap();
    assert!(sent.is_empty());
    assert_eq!(g.snake, vec![p(9, 6)]);
    let sent = g.duel_frame(input(5251), None, rolls(0, 0, 0)).unwrap();
    assert_eq!(sent.len(), 1);
    assert_eq!(g.snake, vec![p(10, 6)]);
    assert_eq!(g.cooldown, 0);
}

#[test]
fn duel_taking_swap_powerup() {
    let mut g = Game::opening(0, 0);
    g.begin_duel(false, 0);
    g.powerup = p(10, 6);
    g.powerup_type = 2;
    g.enemy_dir = p(0, -1);
    let sent = g.duel_frame(input(251), None, rolls(0, 0, 0)).unwrap();
    assert_eq!(sent, vec![b"6 6\n-1 -1 2 1\n1 0\n10 6".to_vec()]);
    assert_eq!(g.snake, vec![p(3, 6)]);
    assert_eq!(g.enemy_snake, vec![p(10, 6)]);
    assert_eq!(g.next_dir, p(0, -1));
    assert_eq!(g.powerup_time, 251);
}

#[test]
fn duel_powerup_spawn_is_announced() {
    let mut g = Game::opening(0, 0);
    g.begin_duel(true, 0);
    let sent = g.duel_frame(input(12501), None, rolls(0, 10, 0)).unwrap();
    assert_eq!(g.powerup, p(0, 0));
    assert_eq!(g.powerup_type, 2);
    assert_eq!(sent.len(), 2);
    assert_eq!(sent[0], b"6 6\n0 0 2\n3 6".to_vec());
}

#[test]
fn powerup_kinds_by_roll() {
    for r in 0..7 {
        assert_eq!(kind_of_roll(r), 1);
    }
    for r in 7..10 {
        assert_eq!(kind_of_roll(r), 3);
    }
    assert_eq!(kind_of_roll(10), 2);
    assert_eq!(kind_of_roll(11), 1);
    assert_eq!(kind_of_roll(21), 2);
}

#[test]
fn random_frame_plays() {
    let mut g = solo_game();
    let sent = g.frame_random(input(351), None).unwrap();
    assert!(sent.is_empty());
    assert_eq!(g.snake, vec![p(11, 10)]);
}

#[test]
fn solo_play_stays_on_field() {
    let mut g = solo_game();
    let mut seed: u32 = 12345;
    let mut now: i64 = 100;
    for frame in 0..3000 {
        seed = seed.wrapping_mul(1103515245).wrapping_add(12345);
        now += 40;
        let mut i = input(now);
        match (seed >> 16) % 9 {
            0 => i.keys.left = true,
            1 => i.keys.right = true,
            2 => i.keys.up = true,
            3 => i.keys.down = true,
            _ => {}
        }
        i.fast = frame % 7 == 0;
        let before = g.snake.len();
        g.solo_frame(i, rolls(seed, seed >> 3, seed >> 7)).unwrap();
        let after = g.snake.len();
        assert!(after == before || after == before + 1);
        for s in &g.snake {
            assert!(0 <= s.x && s.x < 12 && 0 <= s.y && s.y < 12);
        }
        assert!(0 <= g.apple.x && g.apple.x < 12 && 0 <= g.apple.y && g.apple.y < 12);
        assert!(g.powerup == p(-1, -1) || (0 <= g.powerup.x && g.powerup.x < 12));
        let d = g.next_dir;
        assert!((d.x == 0) != (d.y == 0) && d.x.abs() <= 1 && d.y.abs() <= 1);
    }
}

//! The game's decisions, frame by frame: the menu, the single-player game and the
//! two-player game. Drawing, input, the clock and the network stay with the caller,
//! which hands in what happened during a frame and sends the messages handed back.
use vstd::prelude::*;
use crate::grid::{
    Pos, Keys, pos, GRID_WIDTH, GRID_HEIGHT, steer_spec, step_interval_spec, pick_cell_spec,
    free_cells_spec, next_head_spec, advance_spec, bodies, in_grid, is_unit_dir,
    law_steer_never_reverses, law_step_stays_on_field, law_free_cells_are_free,
    choose_free_cell, steer, step_interval, next_head, advance_snake, random_u32,
};
use crate::protocol::{
    decode_spec, spawn_message, step_message, views, decode_peer_message, encode_spawn_message,
    encode_step_message,
};

verus! {

/// The screen the game shows.
#[derive(Clone, Copy, PartialEq, Eq, Structural, Debug)]
pub enum Scene {
    MainMenu,
    Playing,
    Setup2Player,
    Playing2Player,
}

/// Why a frame could not be played to its end (the game stops there).
#[derive(Clone, Copy, PartialEq, Eq, Structural, Debug)]
pub enum FrameError {
    /// A new apple or power-up was due but no cell of the field was free.
    FieldFull,
    /// A step was due but the player's snake has no segment.
    EmptySnake,
}

/// What happened during one frame.
#[derive(Clone, Copy, PartialEq, Eq, Structural, Debug)]
pub struct FrameInput {
    /// The clock, in milliseconds.
    pub now: i64,
    /// The steering keys pressed.
    pub keys: Keys,
    /// The speed key is held.
    pub fast: bool,
    /// The escape key is held.
    pub escape: bool,
    /// The menu's single-player button was clicked.
    pub start_solo: bool,
    /// The menu's two-player button was clicked.
    pub start_duel: bool,
}

/// Draws of the pseudo-random generator that a frame may use.
#[derive(Clone, Copy, PartialEq, Eq, Structural, Debug)]
pub struct Rolls {
    /// Chooses the cell of a new power-up.
    pub powerup_cell: u32,
    /// Chooses the kind of a new power-up in the two-player game.
    pub powerup_kind: u32,
    /// Chooses the cell of a new apple.
    pub apple_cell: u32,
}

/// The power-up position that stands for "no power-up on the field".
pub open spec fn no_powerup() -> Pos {
    pos(-1, -1)
}

/// Power-up kind: the snake is slowed for a while.
pub const KIND_SLOW: u32 = 1;

/// Power-up kind: the two snakes are exchanged.
pub const KIND_SWAP: u32 = 2;

/// Power-up kind: the other player's snake is held still for a while.
pub const KIND_FREEZE: u32 = 3;

/// The state of a game as the contracts speak of it.
pub ghost struct GameModel {
    pub scene: Scene,
    pub snake: Seq<Pos>,
    pub enemy_snake: Seq<Pos>,
    pub cur_dir: Pos,
    pub next_dir: Pos,
    pub step_time: int,
    pub time_skip: int,
    pub apple: Pos,
    pub powerup: Pos,
    pub powerup_time: int,
    pub powerup_type: u32,
    pub slowed: bool,
    pub enemy_dir: Pos,
    pub cooldown: int,
}

/// The state of a game.
pub struct Game {
    /// The screen shown.
    pub scene: Scene,
    /// The player's snake, tail first and head last. A snake only grows at its head and
    /// loses its tail, so a `Vec` (removing at index 0) serves in place of a double-ended
    /// queue.
    pub snake: Vec<Pos>,
    /// The other player's snake, tail first and head last.
    pub enemy_snake: Vec<Pos>,
    /// The direction of the last step.
    pub cur_dir: Pos,
    /// The direction of the next step.
    pub next_dir: Pos,
    /// When the snake last stepped (ms).
    pub step_time: i64,
    /// Milliseconds between steps.
    pub time_skip: u64,
    /// The apple's cell.
    pub apple: Pos,
    /// The power-up's cell, `(-1, -1)` when there is none.
    pub powerup: Pos,
    /// When the last power-up was taken, or the game started (ms).
    pub powerup_time: i64,
    /// The kind of the power-up.
    pub powerup_type: u32,
    /// The snake is slowed by a power-up.
    pub slowed: bool,
    /// The direction the other player last reported.
    pub enemy_dir: Pos,
    /// Extra milliseconds to wait before the next step.
    pub cooldown: u64,
}

impl View for Game {
    type V = GameModel;

    open spec fn view(&self) -> GameModel {
        GameModel {
            scene: self.scene,
            snake: self.snake@,
            enemy_snake: self.enemy_snake@,
            cur_dir: self.cur_dir,
            next_dir: self.next_dir,
            step_time: self.step_time as int,
            time_skip: self.time_skip as int,
            apple: self.apple,
            powerup: self.powerup,
            powerup_time: self.powerup_time as int,
            powerup_type: self.powerup_type,
            slowed: self.slowed,
            enemy_dir: self.enemy_dir,
            cooldown: self.cooldown as int,
        }
    }
}

/// The start position of a single-player snake.
pub open spec fn solo_start() -> Pos {
    pos(10, 10)
}

/// The game as it opens, on the menu, with its apple chosen by `roll`.
pub open spec fn opening_spec(now: int, roll: u32) -> GameModel {
    GameModel {
        scene: Scene::MainMenu,
        snake: seq![solo_start()],
        enemy_snake: seq![solo_start()],
        cur_dir: pos(0, 0),
        next_dir: pos(1, 0),
        step_time: now,
        time_skip: 250,
        apple: pick_cell_spec(free_cells_spec(seq![seq![solo_start()]], Seq::empty()), roll).unwrap(),
        powerup: no_powerup(),
        powerup_time: now,
        powerup_type: KIND_SWAP,
        slowed: false,
        enemy_dir: pos(1, 0),
        cooldown: 0,
    }
}

/// A new single-player game, its apple chosen by `roll`; what the menu keeps otherwise.
pub open spec fn solo_reset_spec(g: GameModel, now: int, roll: u32) -> GameModel {
    GameModel {
        scene: Scene::Playing,
        snake: seq![solo_start()],
        cur_dir: pos(0, 0),
        next_dir: pos(1, 0),
        step_time: now,
        powerup_time: now,
        time_skip: 250,
        apple: pick_cell_spec(free_cells_spec(seq![seq![solo_start()]], Seq::empty()), roll).unwrap(),
        ..g
    }
}

/// The menu frame: its buttons start a single-player game or open the two-player setup.
pub open spec fn menu_spec(g: GameModel, input: FrameInput, roll: u32) -> GameModel {
    let g1 = if input.start_solo { solo_reset_spec(g, input.now as int, roll) } else { g };
    if input.start_duel { GameModel { scene: Scene::Setup2Player, ..g1 } } else { g1 }
}

/// The setup frame: escape goes back to the menu.
pub open spec fn setup_spec(g: GameModel, input: FrameInput) -> GameModel {
    if input.escape { GameModel { scene: Scene::MainMenu, ..g } } else { g }
}

/// A two-player game begins once the players have greeted each other. The host starts
/// on the left heading left, the joining player on the right heading right.
pub open spec fn duel_start_spec(g: GameModel, host: bool, now: int) -> GameModel {
    let left = pos(GRID_WIDTH / 4, GRID_HEIGHT / 2);
    let right = pos(GRID_WIDTH * 3 / 4, GRID_HEIGHT / 2);
    GameModel {
        scene: Scene::Playing2Player,
        cur_dir: pos(0, 0),
        next_dir: if host { pos(-1, 0) } else { pos(1, 0) },
        step_time: now,
        powerup_time: now,
        time_skip: 250,
        snake: if host { seq![left] } else { seq![right] },
        enemy_snake: if host { seq![right] } else { seq![left] },
        apple: pos(GRID_WIDTH / 2, GRID_HEIGHT / 2),
        ..g
    }
}

/// The keys of a frame: steering, the speed key, and escape to the menu.
pub open spec fn controls_spec(g: GameModel, input: FrameInput) -> GameModel {
    GameModel {
        next_dir: steer_spec(g.cur_dir, g.next_dir, input.keys),
        time_skip: step_interval_spec(input.fast, g.slowed),
        scene: if input.escape { Scene::MainMenu } else { g.scene },
        ..g
    }
}

/// A slow-down ends 7.5 s after its power-up was taken.
pub open spec fn expire_spec(g: GameModel, now: int) -> GameModel {
    if now - g.powerup_time > 7500 && g.slowed {
        GameModel { slowed: false, ..g }
    } else {
        g
    }
}

/// A new power-up is due 12.5 s after the last one was taken, when none is on the field.
pub open spec fn spawn_due(g: GameModel, now: int) -> bool {
    g.powerup == no_powerup() && now - g.powerup_time > 12500
}

/// A new power-up in the single-player game (always a slow-down), away from the
/// snake and the apple.
pub open spec fn solo_spawn_spec(g: GameModel, now: int, roll: u32) -> Result<GameModel, FrameError> {
    if spawn_due(g, now) {
        match pick_cell_spec(free_cells_spec(seq![g.snake], seq![g.apple]), roll) {
            Some(c) => Ok(GameModel { powerup: c, powerup_type: KIND_SLOW, ..g }),
            None => Err(FrameError::FieldFull),
        }
    } else {
        Ok(g)
    }
}

/// One step of the single-player snake, when its interval has passed: it moves into
/// the next cell; an eaten apple grows it and a new apple appears away from the snake
/// and the power-up; a taken power-up leaves the field and takes effect.
pub open spec fn solo_step_spec(g: GameModel, now: int, roll: u32) -> Result<GameModel, FrameError> {
    if now - g.step_time > g.time_skip {
        if g.snake.len() == 0 {
            Err(FrameError::EmptySnake)
        } else {
            let next = next_head_spec(g.snake.last(), g.next_dir);
            let snake = advance_spec(g.snake, next, g.apple);
            let apple = if next == g.apple {
                pick_cell_spec(free_cells_spec(seq![snake], seq![g.powerup]), roll)
            } else {
                Some(g.apple)
            };
            match apple {
                None => Err(FrameError::FieldFull),
                Some(a) => {
                    let g2 = GameModel { snake, apple: a, cur_dir: g.next_dir, step_time: now, ..g };
                    if next == g.powerup {
                        Ok(GameModel {
                            slowed: if g.powerup_type == KIND_SLOW { true } else { g.slowed },
                            powerup: no_powerup(),
                            powerup_time: now,
                            ..g2
                        })
                    } else {
                        Ok(g2)
                    }
                },
            }
        }
    } else {
        Ok(g)
    }
}

/// One frame of the single-player game.
pub open spec fn solo_frame_spec(g: GameModel, input: FrameInput, rolls: Rolls) -> Result<
    GameModel,
    FrameError,
> {
    let now = input.now as int;
    let g1 = expire_spec(controls_spec(g, input), now);
    match solo_spawn_spec(g1, now, rolls.powerup_cell) {
        Err(e) => Err(e),
        Ok(g2) => solo_step_spec(g2, now, rolls.apple_cell),
    }
}

/// The kind of a new two-player power-up for the draw `roll`: of eleven equal chances,
/// seven slow down, three freeze the other snake, one swaps the snakes.
pub open spec fn kind_for_roll(roll: u32) -> u32 {
    let r = roll % 11;
    if r < 7 {
        KIND_SLOW
    } else if r < 10 {
        KIND_FREEZE
    } else {
        KIND_SWAP
    }
}

/// A new power-up in the two-player game, announced to the other player.
pub open spec fn duel_spawn_spec(g: GameModel, now: int, rolls: Rolls) -> Result<
    (GameModel, Seq<Seq<u8>>),
    FrameError,
> {
    if spawn_due(g, now) {
        match pick_cell_spec(free_cells_spec(seq![g.snake], seq![g.apple]), rolls.powerup_cell) {
            Some(c) => {
                let kind = kind_for_roll(rolls.powerup_kind);
                Ok(
                    (
                        GameModel { powerup: c, powerup_type: kind, ..g },
                        seq![spawn_message(g.apple, c, kind, g.snake)],
                    ),
                )
            },
            None => Err(FrameError::FieldFull),
        }
    } else {
        Ok((g, Seq::empty()))
    }
}

/// A message from the other player: its snake, the apple and power-up it reports and
/// its direction are taken over; a power-up it took swaps the snakes or freezes this
/// one as its kind says.
pub open spec fn receive_spec(g: GameModel, msg: Option<Seq<u8>>, now: int) -> GameModel {
    match msg {
        None => g,
        Some(b) => {
            let d = decode_spec(b, g.apple, g.powerup, g.powerup_type, g.enemy_dir);
            let g1 = GameModel {
                apple: d.0,
                powerup: d.1,
                powerup_type: d.2,
                enemy_dir: d.4,
                enemy_snake: d.5,
                powerup_time: if d.3 { now - 1000 } else { g.powerup_time },
                ..g
            };
            let g2 = if d.3 && d.2 == KIND_SWAP {
                GameModel {
                    snake: g1.enemy_snake,
                    enemy_snake: g1.snake,
                    cur_dir: d.4,
                    next_dir: d.4,
                    ..g1
                }
            } else {
                g1
            };
            if d.3 && d.2 == KIND_FREEZE {
                GameModel { cooldown: 5000, ..g2 }
            } else {
                g2
            }
        },
    }
}

/// One step of the two-player snake, when its interval and any freeze have passed; the
/// other player is told the result.
pub open spec fn duel_step_spec(g: GameModel, now: int, roll: u32) -> Result<
    (GameModel, Seq<Seq<u8>>),
    FrameError,
> {
    if now - g.step_time > g.time_skip + g.cooldown {
        if g.snake.len() == 0 {
            Err(FrameError::EmptySnake)
        } else {
            let next = next_head_spec(g.snake.last(), g.next_dir);
            let snake = advance_spec(g.snake, next, g.apple);
            let apple = if next == g.apple {
                pick_cell_spec(free_cells_spec(seq![snake, g.enemy_snake], Seq::empty()), roll)
            } else {
                Some(g.apple)
            };
            match apple {
                None => Err(FrameError::FieldFull),
                Some(a) => {
                    let taken = next == g.powerup;
                    let powerup = if taken { no_powerup() } else { g.powerup };
                    let msg = step_message(a, powerup, g.powerup_type, taken, g.next_dir, snake);
                    let g2 = GameModel {
                        cooldown: 0,
                        snake,
                        apple: a,
                        powerup,
                        cur_dir: g.next_dir,
                        step_time: now,
                        ..g
                    };
                    let g3 = if taken && g.powerup_type == KIND_SLOW {
                        GameModel { slowed: true, ..g2 }
                    } else if taken && g.powerup_type == KIND_SWAP {
                        GameModel {
                            snake: g2.enemy_snake,
                            enemy_snake: g2.snake,
                            cur_dir: g.enemy_dir,
                            next_dir: g.enemy_dir,
                            ..g2
                        }
                    } else {
                        g2
                    };
                    let g4 = if taken { GameModel { powerup_time: now, ..g3 } } else { g3 };
                    Ok((g4, seq![msg]))
                },
            }
        }
    } else {
        Ok((g, Seq::empty()))
    }
}

/// One frame of the two-player game, with the message received during it, if any.
pub open spec fn duel_frame_spec(
    g: GameModel,
    input: FrameInput,
    msg: Option<Seq<u8>>,
    rolls: Rolls,
) -> Result<(GameModel, Seq<Seq<u8>>), FrameError> {
    let now = input.now as int;
    let g1 = expire_spec(controls_spec(g, input), now);
    match duel_spawn_spec(g1, now, rolls) {
        Err(e) => Err(e),
        Ok((g2, sent)) => {
            let g3 = receive_spec(g2, msg, now);
            match duel_step_spec(g3, now, rolls.apple_cell) {
                Err(e) => Err(e),
                Ok((g4, more)) => Ok((g4, sent + more)),
            }
        },
    }
}


/// One frame of whatever screen the game shows.
pub open spec fn frame_spec(
    g: GameModel,
    input: FrameInput,
    msg: Option<Seq<u8>>,
    rolls: Rolls,
) -> Result<(GameModel, Seq<Seq<u8>>), FrameError> {
    match g.scene {
        Scene::MainMenu => Ok((menu_spec(g, input, rolls.apple_cell), Seq::empty())),
        Scene::Setup2Player => Ok((setup_spec(g, input), Seq::empty())),
        Scene::Playing => match solo_frame_spec(g, input, rolls) {
            Ok(m) => Ok((m, Seq::empty())),
            Err(e) => Err(e),
        },
        Scene::Playing2Player => duel_frame_spec(g, input, msg, rolls),
    }
}

/// The contents of an optional received message.
pub open spec fn msg_view(msg: Option<&[u8]>) -> Option<Seq<u8>> {
    match msg {
        Some(m) => Some(m@),
        None => None,
    }
}

/// The free cells around one snake and some items.
fn free_pick_one(snake: &Vec<Pos>, others: &[Pos], roll: u32) -> (r: Option<Pos>)
    ensures
        r == pick_cell_spec(free_cells_spec(seq![snake@], others@), roll),
{
    let snakes: [&Vec<Pos>; 1] = [snake];
    let r = choose_free_cell(snakes.as_slice(), others, roll);
    assert(bodies(snakes@) =~= seq![snake@]);
    r
}

/// The free cells around two snakes.
fn free_pick_two(a: &Vec<Pos>, b: &Vec<Pos>, roll: u32) -> (r: Option<Pos>)
    ensures
        r == pick_cell_spec(free_cells_spec(seq![a@, b@], Seq::empty()), roll),
{
    let snakes: [&Vec<Pos>; 2] = [a, b];
    let none: [Pos; 0] = [];
    let r = choose_free_cell(snakes.as_slice(), none.as_slice(), roll);
    assert(bodies(snakes@) =~= seq![a@, b@]);
    assert(none@ =~= Seq::<Pos>::empty());
    r
}

/// Some cell is free around a single snake at its start position.
proof fn lemma_opening_has_room()
    ensures
        pick_cell_spec(free_cells_spec(seq![seq![solo_start()]], Seq::empty()), 0) is Some,
{
    let snakes = seq![seq![solo_start()]];
    let others = Seq::<Pos>::empty();
    let pred = |c: Pos| !crate::grid::occupied(snakes, others, c);
    let cells = crate::grid::all_cells();
    assert(cells[0] == pos(0, 0));
    assert(!crate::grid::occupied(snakes, others, pos(0, 0))) by {
        assert forall|k: int, m: int|
            0 <= k < snakes.len() && 0 <= m < snakes[k].len() implies !crate::grid::covers(
            #[trigger] snakes[k][m],
            pos(0, 0),
        ) by {
            assert(snakes[k][m] == solo_start());
        }
    }
    cells.lemma_filter_contains(pred, 0);
    assert(free_cells_spec(snakes, others).len() > 0);
}

impl Game {
    /// The game as it opens, on the menu, its apple chosen by the draw `roll`.
    pub fn opening(now: i64, roll: u32) -> (g: Game)
        ensures
            g@ == opening_spec(now as int, roll),
    {
        let start = Pos { x: 10, y: 10 };
        let snake = vec![start];
        let none: [Pos; 0] = [];
        let apple = free_pick_one(&snake, none.as_slice(), roll);
        proof {
            lemma_opening_has_room();
            assert(snake@ =~= seq![solo_start()]);
            assert(none@ =~= Seq::<Pos>::empty());
        }
        let g = Game {
            scene: Scene::MainMenu,
            snake,
            enemy_snake: vec![start],
            cur_dir: Pos { x: 0, y: 0 },
            next_dir: Pos { x: 1, y: 0 },
            step_time: now,
            time_skip: 250,
            apple: apple.unwrap(),
            powerup: Pos { x: -1, y: -1 },
            powerup_time: now,
            powerup_type: KIND_SWAP,
            slowed: false,
            enemy_dir: Pos { x: 1, y: 0 },
            cooldown: 0,
        };
        assert(g.enemy_snake@ =~= seq![solo_start()]);
        g
    }

    /// The game as it opens, its apple chosen with the game's pseudo-random generator.
    pub fn new(now: i64) -> (g: Game)
        ensures
            exists|roll: u32| g@ == opening_spec(now as int, roll),
    {
        let roll = random_u32();
        Game::opening(now, roll)
    }

    fn apply_controls(&mut self, input: FrameInput)
        ensures
            final(self)@ == controls_spec(old(self)@, input),
    {
        self.next_dir = steer(self.cur_dir, self.next_dir, input.keys);
        self.time_skip = step_interval(input.fast, self.slowed);
        if input.escape {
            self.scene = Scene::MainMenu;
        }
    }

    fn expire(&mut self, now: i64)
        ensures
            final(self)@ == expire_spec(old(self)@, now as int),
    {
        if (now as i128) - (self.powerup_time as i128) > 7500 && self.slowed {
            self.slowed = false;
        }
    }

    fn spawn_is_due(&self, now: i64) -> (r: bool)
        ensures
            r == spawn_due(self@, now as int),
    {
        self.powerup.x == -1 && self.powerup.y == -1 && (now as i128) - (self.powerup_time as i128)
            > 12500
    }

    /// The menu frame.
    pub fn menu_frame(&mut self, input: FrameInput, roll: u32)
        ensures
            final(self)@ == menu_spec(old(self)@, input, roll),
    {
        if input.start_solo {
            let start = Pos { x: 10, y: 10 };
            let snake = vec![start];
            let none: [Pos; 0] = [];
            let apple = free_pick_one(&snake, none.as_slice(), roll);
            proof {
                lemma_opening_has_room();
                assert(snake@ =~= seq![solo_start()]);
                assert(none@ =~= Seq::<Pos>::empty());
            }
            self.snake = snake;
            self.cur_dir = Pos { x: 0, y: 0 };
            self.next_dir = Pos { x: 1, y: 0 };
            self.step_time = input.now;
            self.powerup_time = input.now;
            self.time_skip = 250;
            self.apple = apple.unwrap();
            self.scene = Scene::Playing;
        }
        if input.start_duel {
            self.scene = Scene::Setup2Player;
        }
    }

    /// The two-player setup frame (the greeting itself is the caller's network work).
    pub fn setup_frame(&mut self, input: FrameInput)
        ensures
            final(self)@ == setup_spec(old(self)@, input),
    {
        if input.escape {
            self.scene = Scene::MainMenu;
        }
    }

    /// Starts a two-player game once the players have greeted each other.
    pub fn begin_duel(&mut self, host: bool, now: i64)
        ensures
            final(self)@ == duel_start_spec(old(self)@, host, now as int),
    {
        let left = Pos { x: GRID_WIDTH / 4, y: GRID_HEIGHT / 2 };
        let right = Pos { x: GRID_WIDTH * 3 / 4, y: GRID_HEIGHT / 2 };
        self.cur_dir = Pos { x: 0, y: 0 };
        self.next_dir = if host { Pos { x: -1, y: 0 } } else { Pos { x: 1, y: 0 } };
        self.step_time = now;
        self.powerup_time = now;
        self.time_skip = 250;
        self.snake = if host { vec![left] } else { vec![right] };
        self.enemy_snake = if host { vec![right] } else { vec![left] };
        self.apple = Pos { x: GRID_WIDTH / 2, y: GRID_HEIGHT / 2 };
        self.scene = Scene::Playing2Player;
        assert(self.snake@ =~= (if host { seq![left] } else { seq![right] }));
        assert(self.enemy_snake@ =~= (if host { seq![right] } else { seq![left] }));
    }

    fn solo_spawn(&mut self, now: i64, roll: u32) -> (r: Result<(), FrameError>)
        ensures
            match solo_spawn_spec(old(self)@, now as int, roll) {
                Ok(m) => r is Ok && final(self)@ == m,
                Err(e) => r == Err::<(), FrameError>(e),
            },
    {
        if self.spawn_is_due(now) {
            let others: [Pos; 1] = [self.apple];
            assert(others@ =~= seq![self.apple]);
            match free_pick_one(&self.snake, others.as_slice(), roll) {
                Some(c) => {
                    self.powerup = c;
                    self.powerup_type = KIND_SLOW;
                    Ok(())
                },
                None => Err(FrameError::FieldFull),
            }
        } else {
            Ok(())
        }
    }

    fn solo_step(&mut self, now: i64, roll: u32) -> (r: Result<(), FrameError>)
        ensures
            match solo_step_spec(old(self)@, now as int, roll) {
                Ok(m) => r is Ok && final(self)@ == m,
                Err(e) => r == Err::<(), FrameError>(e),
            },
    {
        if (now as i128) - (self.step_time as i128) > (self.time_skip as i128) {
            let n = self.snake.len();
            if n == 0 {
                return Err(FrameError::EmptySnake);
            }
            let head = self.snake[n - 1];
            let next = next_head(head, self.next_dir);
            let ate = advance_snake(&mut self.snake, next, self.apple);
            if ate {
                let others: [Pos; 1] = [self.powerup];
                assert(others@ =~= seq![self.powerup]);
                match free_pick_one(&self.snake, others.as_slice(), roll) {
                    Some(a) => {
                        self.apple = a;
                    },
                    None => {
                        return Err(FrameError::FieldFull);
                    },
                }
            }
            self.cur_dir = self.next_dir;
            self.step_time = now;
            if next == self.powerup {
                if self.powerup_type == KIND_SLOW {
                    self.slowed = true;
                }
                self.powerup = Pos { x: -1, y: -1 };
                self.powerup_time = now;
            }
        }
        Ok(())
    }

    /// One frame of the single-player game, with the draws `rolls`.
    pub fn solo_frame(&mut self, input: FrameInput, rolls: Rolls) -> (r: Result<(), FrameError>)
        ensures
            match solo_frame_spec(old(self)@, input, rolls) {
                Ok(m) => r is Ok && final(self)@ == m,
                Err(e) => r == Err::<(), FrameError>(e),
            },
    {
        self.apply_controls(input);
        self.expire(input.now);
        match self.solo_spawn(input.now, rolls.powerup_cell) {
            Err(e) => {
                return Err(e);
            },
            Ok(()) => {},
        }
        self.solo_step(input.now, rolls.apple_cell)
    }

    fn duel_spawn(&mut self, now: i64, rolls: Rolls) -> (r: Result<Vec<Vec<u8>>, FrameError>)
        ensures
            match duel_spawn_spec(old(self)@, now as int, rolls) {
                Ok((m, sent)) => r matches Ok(v) && final(self)@ == m && views(v@) == sent,
                Err(e) => r == Err::<Vec<Vec<u8>>, FrameError>(e),
            },
    {
        let mut out: Vec<Vec<u8>> = Vec::new();
        if self.spawn_is_due(now) {
            let others: [Pos; 1] = [self.apple];
            assert(others@ =~= seq![self.apple]);
            match free_pick_one(&self.snake, others.as_slice(), rolls.powerup_cell) {
                Some(c) => {
                    let kind = kind_of_roll(rolls.powerup_kind);
                    self.powerup = c;
                    self.powerup_type = kind;
                    let msg = encode_spawn_message(self.apple, c, kind, &self.snake);
                    out.push(msg);
                    assert(views(out@) =~= seq![spawn_message(old(self)@.apple, c, kind, old(self)@.snake)]);
                    Ok(out)
                },
                None => Err(FrameError::FieldFull),
            }
        } else {
            assert(views(out@) =~= Seq::<Seq<u8>>::empty());
            Ok(out)
        }
    }

    fn receive(&mut self, msg: &[u8], now: i64)
        requires
            now >= i64::MIN + 1000,
        ensures
            final(self)@ == receive_spec(old(self)@, Some(msg@), now as int),
    {
        let d = decode_peer_message(msg, self.apple, self.powerup, self.powerup_type, self.enemy_dir);
        self.apple = d.apple;
        self.powerup = d.powerup;
        self.powerup_type = d.powerup_kind;
        self.enemy_dir = d.dir;
        self.enemy_snake = d.snake;
        if d.consumed {
            self.powerup_time = now - 1000;
        }
        if d.consumed && d.powerup_kind == KIND_SWAP {
            std::mem::swap(&mut self.snake, &mut self.enemy_snake);
            self.cur_dir = d.dir;
            self.next_dir = d.dir;
        }
        if d.consumed && d.powerup_kind == KIND_FREEZE {
            self.cooldown = 5000;
        }
    }

    fn duel_step(&mut self, now: i64, roll: u32) -> (r: Result<Vec<Vec<u8>>, FrameError>)
        ensures
            match duel_step_spec(old(self)@, now as int, roll) {
                Ok((m, sent)) => r matches Ok(v) && final(self)@ == m && views(v@) == sent,
                Err(e) => r == Err::<Vec<Vec<u8>>, FrameError>(e),
            },
    {
        let mut out: Vec<Vec<u8>> = Vec::new();
        if (now as i128) - (self.step_time as i128) > (self.time_skip as i128) + (
        self.cooldown as i128) {
            self.cooldown = 0;
            let n = self.snake.len();
            if n == 0 {
                return Err(FrameError::EmptySnake);
            }
            let head = self.snake[n - 1];
            let next = next_head(head, self.next_dir);
            let ate = advance_snake(&mut self.snake, next, self.apple);
            if ate {
                match free_pick_two(&self.snake, &self.enemy_snake, roll) {
                    Some(a) => {
                        self.apple = a;
                    },
                    None => {
                        return Err(FrameError::FieldFull);
                    },
                }
            }
            let taken = next == self.powerup;
            if taken {
                self.powerup = Pos { x: -1, y: -1 };
            }
            let msg = encode_step_message(
                self.apple,
                self.powerup,
                self.powerup_type,
                taken,
                self.next_dir,
                &self.snake,
            );
            out.push(msg);
            self.cur_dir = self.next_dir;
            if taken {
                if self.powerup_type == KIND_SLOW {
                    self.slowed = true;
                } else if self.powerup_type == KIND_SWAP {
                    std::mem::swap(&mut self.snake, &mut self.enemy_snake);
                    self.cur_dir = self.enemy_dir;
                    self.next_dir = self.enemy_dir;
                }
                self.powerup_time = now;
            }
            self.step_time = now;
            proof {
                let sent = duel_step_spec(old(self)@, now as int, roll)->Ok_0.1;
                assert(views(out@) =~= sent);
            }
        } else {
            assert(views(out@) =~= Seq::<Seq<u8>>::empty());
        }
        Ok(out)
    }

    /// One frame of the two-player game, with the message received during it, if any,
    /// and the draws `rolls`; returns the messages to send, in order.
    pub fn duel_frame(&mut self, input: FrameInput, msg: Option<&[u8]>, rolls: Rolls) -> (r: Result<
        Vec<Vec<u8>>,
        FrameError,
    >)
        requires
            input.now >= i64::MIN + 1000,
        ensures
            match duel_frame_spec(old(self)@, input, msg_view(msg), rolls) {
                Ok((m, sent)) => r matches Ok(v) && final(self)@ == m && views(v@) == sent,
                Err(e) => r == Err::<Vec<Vec<u8>>, FrameError>(e),
            },
    {
        self.apply_controls(input);
        self.expire(input.now);
        let mut sent = match self.duel_spawn(input.now, rolls) {
            Err(e) => {
                return Err(e);
            },
            Ok(v) => v,
        };
        match msg {
            Some(m) => {
                self.receive(m, input.now);
            },
            None => {},
        }
        let more: Vec<Vec<u8>> = match self.duel_step(input.now, rolls.apple_cell) {
            Err(e) => {
                return Err(e);
            },
            Ok(v) => v,
        };
        let mut more = more;
        let ghost first = sent@;
        let ghost second = more@;
        sent.append(&mut more);
        assert(views(sent@) =~= views(first) + views(second));
        Ok(sent)
    }

    /// One frame of the screen shown, with the message received during it, if any, and
    /// the draws `rolls`; returns the messages to send, in order.
    pub fn frame(&mut self, input: FrameInput, msg: Option<&[u8]>, rolls: Rolls) -> (r: Result<
        Vec<Vec<u8>>,
        FrameError,
    >)
        requires
            input.now >= i64::MIN + 1000,
        ensures
            match frame_spec(old(self)@, input, msg_view(msg), rolls) {
                Ok((m, sent)) => r matches Ok(v) && final(self)@ == m && views(v@) == sent,
                Err(e) => r == Err::<Vec<Vec<u8>>, FrameError>(e),
            },
    {
        let none: Vec<Vec<u8>> = Vec::new();
        assert(views(none@) =~= Seq::<Seq<u8>>::empty());
        match self.scene {
            Scene::MainMenu => {
                self.menu_frame(input, rolls.apple_cell);
                Ok(none)
            },
            Scene::Setup2Player => {
                self.setup_frame(input);
                Ok(none)
            },
            Scene::Playing => match self.solo_frame(input, rolls) {
                Ok(()) => Ok(none),
                Err(e) => Err(e),
            },
            Scene::Playing2Player => self.duel_frame(input, msg, rolls),
        }
    }

    /// One frame of the screen shown, with draws of the game's pseudo-random generator.
    pub fn frame_random(&mut self, input: FrameInput, msg: Option<&[u8]>) -> (r: Result<
        Vec<Vec<u8>>,
        FrameError,
    >)
        requires
            input.now >= i64::MIN + 1000,
        ensures
            exists|rolls: Rolls|
                match #[trigger] frame_spec(old(self)@, input, msg_view(msg), rolls) {
                    Ok((m, sent)) => r matches Ok(v) && final(self)@ == m && views(v@) == sent,
                    Err(e) => r == Err::<Vec<Vec<u8>>, FrameError>(e),
                },
    {
        let rolls = Rolls {
            powerup_cell: random_u32(),
            powerup_kind: random_u32(),
            apple_cell: random_u32(),
        };
        self.frame(input, msg, rolls)
    }
}

/// The kind of a new two-player power-up for a draw.
pub fn kind_of_roll(roll: u32) -> (k: u32)
    ensures
        k == kind_for_roll(roll),
{
    let r = roll % 11;
    if r < 7 {
        KIND_SLOW
    } else if r < 10 {
        KIND_FREEZE
    } else {
        KIND_SWAP
    }
}


/// A single-player game in good order: a snake of at least one segment, all on the
/// field, heading along an axis; an apple on the field; a power-up on the field or none.
pub open spec fn solo_in_order(g: GameModel) -> bool {
    &&& g.snake.len() > 0
    &&& forall|i: int| 0 <= i < g.snake.len() ==> in_grid(#[trigger] g.snake[i])
    &&& is_unit_dir(g.next_dir)
    &&& in_grid(g.apple)
    &&& (g.powerup == no_powerup() || in_grid(g.powerup))
}

/// Law: the game opens in good order.
pub proof fn law_opening_in_order(now: int, roll: u32)
    ensures
        solo_in_order(opening_spec(now, roll)),
{
    let snakes = seq![seq![solo_start()]];
    lemma_opening_has_room();
    law_free_cells_are_free(snakes, Seq::empty(), roll);
}

/// Law: a frame of a single-player game in good order never stops for want of a snake;
/// when it plays to its end the game is still in good order and the snake has grown by
/// at most one segment.
pub proof fn law_solo_frame_keeps_order(g: GameModel, input: FrameInput, rolls: Rolls)
    requires
        solo_in_order(g),
    ensures
        solo_frame_spec(g, input, rolls) != Err::<GameModel, FrameError>(FrameError::EmptySnake),
        solo_frame_spec(g, input, rolls) matches Ok(g2) ==> solo_in_order(g2) && (g2.snake.len()
            == g.snake.len() || g2.snake.len() == g.snake.len() + 1),
{
    let now = input.now as int;
    law_steer_never_reverses(g.cur_dir, g.next_dir, input.keys);
    let g1 = expire_spec(controls_spec(g, input), now);
    assert(solo_in_order(g1));
    law_free_cells_are_free(seq![g1.snake], seq![g1.apple], rolls.powerup_cell);
    match solo_spawn_spec(g1, now, rolls.powerup_cell) {
        Err(e) => {},
        Ok(g2) => {
            assert(solo_in_order(g2));
            if now - g2.step_time > g2.time_skip {
                let next = next_head_spec(g2.snake.last(), g2.next_dir);
                law_step_stays_on_field(g2.snake.last(), g2.next_dir);
                let snake = advance_spec(g2.snake, next, g2.apple);
                assert forall|i: int| 0 <= i < snake.len() implies in_grid(#[trigger] snake[i]) by {
                    if next != g2.apple {
                        assert(snake[i] == g2.snake.push(next)[i + 1]);
                    } else {
                        assert(snake[i] == g2.snake.push(next)[i]);
                    }
                }
                law_free_cells_are_free(seq![snake], seq![g2.powerup], rolls.apple_cell);
            }
        },
    }
}

/// Law: what the other player sends after its step is what this player then sees: the
/// apple, the power-up, its kind and the other player's direction; and the other
/// player's snake, which becomes this player's own where a swap power-up was taken.
pub proof fn law_receive_step_message(
    g: GameModel,
    apple: Pos,
    powerup: Pos,
    kind: u32,
    taken: bool,
    dir: Pos,
    snake: Seq<Pos>,
    now: int,
)
    ensures
        ({
            let r = receive_spec(
                g,
                Some(step_message(apple, powerup, kind, taken, dir, snake)),
                now,
            );
            &&& r.apple == apple
            &&& r.powerup == powerup
            &&& r.powerup_type == kind
            &&& r.enemy_dir == dir
            &&& (taken && kind == KIND_SWAP) ==> r.snake == snake && r.enemy_snake == g.snake
                && r.next_dir == dir
            &&& !(taken && kind == KIND_SWAP) ==> r.enemy_snake == snake && r.snake == g.snake
            &&& (taken && kind == KIND_FREEZE) ==> r.cooldown == 5000
            &&& taken ==> r.powerup_time == now - 1000
        }),
{
    crate::protocol::law_step_message_round_trip(
        apple,
        powerup,
        kind,
        taken,
        dir,
        snake,
        g.apple,
        g.powerup,
        g.powerup_type,
        g.enemy_dir,
    );
}

/// Law: after a step of one player's two-player game, the other player, on receiving
/// its message, sees that player's snake as it stands after the step and the same
/// apple and power-up (unless the step took a swap power-up, which exchanges the snakes).
pub proof fn law_players_agree(a: GameModel, b: GameModel, now: int, later: int, roll: u32)
    requires
        duel_step_spec(a, now, roll) is Ok,
        duel_step_spec(a, now, roll)->Ok_0.1.len() == 1,
        !(a.snake.len() > 0 && next_head_spec(a.snake.last(), a.next_dir) == a.powerup
            && a.powerup_type == KIND_SWAP),
    ensures
        ({
            let (a2, sent) = duel_step_spec(a, now, roll)->Ok_0;
            let b2 = receive_spec(b, Some(sent[0]), later);
            &&& b2.enemy_snake == a2.snake
            &&& b2.apple == a2.apple
            &&& b2.powerup == a2.powerup
        }),
{
    let next = next_head_spec(a.snake.last(), a.next_dir);
    let snake = advance_spec(a.snake, next, a.apple);
    let (a2, sent) = duel_step_spec(a, now, roll)->Ok_0;
    let taken = next == a.powerup;
    let powerup = if taken { no_powerup() } else { a.powerup };
    law_receive_step_message(b, a2.apple, powerup, a.powerup_type, taken, a.next_dir, snake, later);
}


/// Law: the menu's Start Game button starts a single-player game from its start state,
/// whatever came before: one segment at (10, 10), not yet moving, heading right, the
/// usual interval, both clocks at the click, and the apple on a free cell of the field.
pub proof fn law_start_game(g: GameModel, input: FrameInput, roll: u32)
    requires
        input.start_solo,
    ensures
        ({
            let g2 = menu_spec(g, input, roll);
            &&& g2.snake == seq![pos(10, 10)]
            &&& g2.cur_dir == pos(0, 0)
            &&& g2.next_dir == pos(1, 0)
            &&& g2.time_skip == 250
            &&& g2.step_time == input.now
            &&& g2.powerup_time == input.now
            &&& in_grid(g2.apple)
            &&& g2.apple != pos(10, 10)
            &&& g2.scene == (if input.start_duel { Scene::Setup2Player } else { Scene::Playing })
        }),
{
    let snakes = seq![seq![solo_start()]];
    lemma_opening_has_room();
    law_free_cells_are_free(snakes, Seq::empty(), roll);
    let a = menu_spec(g, input, roll).apple;
    assert(!crate::grid::occupied(snakes, Seq::empty(), a));
    if a == pos(10, 10) {
        assert(crate::grid::covers(snakes[0][0], a));
    }
}

/// Law: a single-player frame that places a power-up places a slow-down on a cell of the
/// field that neither the snake nor the apple takes.
pub proof fn law_solo_powerup_placement(g: GameModel, input: FrameInput, rolls: Rolls)
    requires
        g.powerup == no_powerup(),
        solo_frame_spec(g, input, rolls) is Ok,
        solo_frame_spec(g, input, rolls)->Ok_0.powerup != no_powerup(),
    ensures
        ({
            let g2 = solo_frame_spec(g, input, rolls)->Ok_0;
            &&& in_grid(g2.powerup)
            &&& !crate::grid::occupied(seq![g.snake], seq![g.apple], g2.powerup)
            &&& g2.powerup_type == KIND_SLOW
        }),
{
    let now = input.now as int;
    let g1 = expire_spec(controls_spec(g, input), now);
    law_free_cells_are_free(seq![g1.snake], seq![g1.apple], rolls.powerup_cell);
}

/// Law: a two-player frame without a message that places a power-up places it on a cell
/// of the field that neither the snake nor the apple takes, and announces it.
pub proof fn law_duel_powerup_placement(g: GameModel, input: FrameInput, rolls: Rolls)
    requires
        g.powerup == no_powerup(),
        g.scene == Scene::Playing2Player,
        frame_spec(g, input, None, rolls) is Ok,
        frame_spec(g, input, None, rolls)->Ok_0.0.powerup != no_powerup(),
    ensures
        ({
            let (g2, sent) = frame_spec(g, input, None, rolls)->Ok_0;
            &&& in_grid(g2.powerup)
            &&& !crate::grid::occupied(seq![g.snake], seq![g.apple], g2.powerup)
            &&& sent.len() >= 1
            &&& sent[0] == spawn_message(g.apple, g2.powerup, g2.powerup_type, g.snake)
        }),
{
    let now = input.now as int;
    let g1 = expire_spec(controls_spec(g, input), now);
    law_free_cells_are_free(seq![g1.snake], seq![g1.apple], rolls.powerup_cell);
}

/// Law: taking a slow-down power-up slows the snake, in either game: the power-up leaves
/// the field, its clock restarts, and the next interval is 70% of the usual one.
pub proof fn law_slow_powerup_takes_effect(g: GameModel, now: int, roll: u32, fast: bool)
    requires
        g.snake.len() > 0,
        g.cooldown >= 0,
        now - g.step_time > g.time_skip + g.cooldown,
        next_head_spec(g.snake.last(), g.next_dir) == g.powerup,
        g.powerup_type == KIND_SLOW,
    ensures
        solo_step_spec(g, now, roll) matches Ok(g2) ==> g2.slowed && g2.powerup == no_powerup()
            && g2.powerup_time == now && step_interval_spec(fast, g2.slowed) == (if fast {
            70int
        } else {
            175int
        }),
        duel_step_spec(g, now, roll) matches Ok((g2, sent)) ==> g2.slowed && g2.powerup
            == no_powerup() && g2.powerup_time == now && step_interval_spec(fast, g2.slowed) == (
        if fast {
            70int
        } else {
            175int
        }),
{
}

/// Law: in the two-player game, a frame without a message whose step is due (and in which
/// no power-up appears or swaps the snakes) moves the snake's head one step in the chosen
/// direction and sends exactly one message: the step message of the state it leaves.
pub proof fn law_duel_frame_sends_step(g: GameModel, input: FrameInput, rolls: Rolls)
    requires
        g.scene == Scene::Playing2Player,
        g.snake.len() > 0,
        g.powerup != no_powerup(),
        g.powerup_type != KIND_SWAP,
        input.now - g.step_time > 250 + g.cooldown,
        frame_spec(g, input, None, rolls) is Ok,
    ensures
        ({
            let (g2, sent) = frame_spec(g, input, None, rolls)->Ok_0;
            &&& g2.snake.len() > 0
            &&& g2.snake.last() == next_head_spec(g.snake.last(), g2.cur_dir)
            &&& g2.cur_dir == steer_spec(g.cur_dir, g.next_dir, input.keys)
            &&& sent == seq![
                step_message(
                    g2.apple,
                    g2.powerup,
                    g2.powerup_type,
                    g2.powerup != g.powerup,
                    g2.cur_dir,
                    g2.snake,
                ),
            ]
        }),
{
    let now = input.now as int;
    let g1 = expire_spec(controls_spec(g, input), now);
    assert(step_interval_spec(input.fast, g1.slowed) <= 250);
    let next = next_head_spec(g1.snake.last(), g1.next_dir);
    let snake = advance_spec(g1.snake, next, g1.apple);
    assert(snake.last() == next);
    let sent = frame_spec(g, input, None, rolls)->Ok_0.1;
    assert(sent =~= Seq::<Seq<u8>>::empty() + sent);
}

/// Law: in the two-player game, a frame that receives the other player's step message
/// (before its own step is due, with a power-up on the field) takes over the other
/// player's snake, apple, power-up, kind and direction as the message gives them, and
/// keeps this player's own snake.
pub proof fn law_duel_frame_takes_message(
    g: GameModel,
    input: FrameInput,
    rolls: Rolls,
    apple: Pos,
    powerup: Pos,
    kind: u32,
    dir: Pos,
    snake: Seq<Pos>,
)
    requires
        g.scene == Scene::Playing2Player,
        g.powerup != no_powerup(),
        g.cooldown >= 0,
        input.now - g.step_time <= 70,
    ensures
        ({
            let msg = step_message(apple, powerup, kind, false, dir, snake);
            let r = frame_spec(g, input, Some(msg), rolls);
            &&& r is Ok
            &&& r->Ok_0.0.enemy_snake == snake
            &&& r->Ok_0.0.apple == apple
            &&& r->Ok_0.0.powerup == powerup
            &&& r->Ok_0.0.powerup_type == kind
            &&& r->Ok_0.0.enemy_dir == dir
            &&& r->Ok_0.0.snake == g.snake
            &&& r->Ok_0.1.len() == 0
        }),
{
    let now = input.now as int;
    let msg = step_message(apple, powerup, kind, false, dir, snake);
    let g1 = expire_spec(controls_spec(g, input), now);
    assert(!spawn_due(g1, now));
    assert(duel_spawn_spec(g1, now, rolls) == Ok::<(GameModel, Seq<Seq<u8>>), FrameError>(
        (g1, Seq::empty()),
    ));
    let g3 = receive_spec(g1, Some(msg), now);
    law_receive_step_message(g1, apple, powerup, kind, false, dir, snake, now);
    assert(step_interval_spec(input.fast, g1.slowed) >= 70);
    assert(g3.step_time == g.step_time && g3.cooldown == g.cooldown && g3.time_skip
        == g1.time_skip) by {
        crate::protocol::law_step_message_round_trip(
            apple,
            powerup,
            kind,
            false,
            dir,
            snake,
            g1.apple,
            g1.powerup,
            g1.powerup_type,
            g1.enemy_dir,
        );
    }
    assert(duel_step_spec(g3, now, rolls.apple_cell) == Ok::<
        (GameModel, Seq<Seq<u8>>),
        FrameError,
    >((g3, Seq::empty())));
    assert(Seq::<Seq<u8>>::empty() + Seq::<Seq<u8>>::empty() =~= Seq::<Seq<u8>>::empty());
    assert(duel_frame_spec(g, input, Some(msg), rolls) == Ok::<
        (GameModel, Seq<Seq<u8>>),
        FrameError,
    >((g3, Seq::empty())));
}

} // verus!

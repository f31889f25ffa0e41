# snake_game

A grid snake game for one player, or for two players over UDP, whose game logic
is verified with Verus.

- `src/room_code.rs`: six-character base-62 room codes for an IPv4 address, and
  the proof that a code reads back as its address.
- `src/text.rs`: white-space trimming, the typed join code and the greeting words.
- `src/grid.rs`: the 12 x 12 field, moving a snake with wrap-around, steering,
  step intervals, and choosing a free cell for an apple or power-up.
- `src/decimal.rs`: reading a coordinate written in float syntax (`3`, `3.0`,
  `30e-1`); a token whose number is not whole is not read.
- `src/protocol.rs`: the text messages the players exchange, and the proof that a
  step message reads back as what it was made of.
- `src/game.rs`: the game's decisions frame by frame (menu, single player, two
  players), as functions from a state and what happened in a frame to the next
  state and the messages to send.
- `app/main.rs`: the window, drawing, keyboard, clock and sockets (macroquad).
- `tests/`: tests on concrete values.

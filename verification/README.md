# tinhorn

A dice roller for the terminal. Type `3d6`, `4d6kh3`, `2d20kl1 vs 15` or `5d10!`
and watch the dice tumble, or roll once and print the result.

`src/` is the library, proved with Verus: the notation and its parser, the rules by
which dice explode, are kept and are scored, the session (its line editor, its keys,
its history and statistics), what the panels show, the shapes of the dice, the
drawing of cells, and the escapes that carry a picture to the terminal.

`app/` is the program around it: arguments, the terminal, the physics of the dice,
the renderer, the sounds, and JSON.

Where to start reading:

- `src/parse.rs` and `src/notation.rs` say what an expression means, and that
  writing a term down and reading it gives the term back.
- `src/roll.rs` says what a roll is worth. `src/pool.rs` says that the dice in the
  arena are worth the same, and `src/play.rs` that every way of throwing them ends
  with the same dice.
- `src/app.rs` holds the session, `src/keys.rs` what each key does to it.
- `src/rng.rs`, and the two wrappers in `src/graphics.rs`, hold what is taken on
  trust of the crates that the library calls.

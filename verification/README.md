# Anglerfish

An engine for heads-up no-limit hold 'em. It estimates the opponent's
possible hands from the actions taken, and plays out the future betting tree
to weigh its own actions.

## Layout

- `src/` is the verified library (Verus):
  - `bits`: bit counting and the top ranks of a rank mask;
  - `game`: suits, ranks, cards, positions, bets and chip accounting;
  - `cardset`: sets of cards and their showdown score;
  - `ranking`: the poker hand classes, and that a better class scores higher;
  - `showdown`: five-card showdowns, where the score orders hands exactly as
    poker ranks them (class, grouped ranks, kickers; suits never count);
  - `best_five`: sets of six or seven cards score as their best five cards;
  - `rng`: the xorshift generator, shuffling and card drawing;
  - `hash`: the table keyed by hands that play alike on a board, and the
    grouping of a range's hands into such classes;
  - `tree`: the betting rules, what each action leads to and which actions
    are worth exploring;
  - `betting`: the betting tree grown from a decision, and why it is finite;
  - `state`: the public state of a hand and its runouts;
  - `sort`, `cache`: the sorted showdown tables of a board and the runouts
    shared by batches of hands.
- `app/` is the program around it: the floating-point search (ranges,
  equities, action probabilities, playouts) and the console output.
- `tests/` runs the library on concrete hands, boards and betting states.

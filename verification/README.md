# Soul

A chess engine with a hand-crafted evaluation, written in Rust and verified with Verus. It
speaks UCI and XBoard, and plays Chess960.

## Layout

- `src/chess`: the board. `rules` says what chess is, over a placement of men; `position`
  keeps sets of squares, keys and counters in step with it; `legal` says which moves are
  legal; `play` makes and takes back moves; `fen` reads positions.
- `src/engine`: the engine. `movegen` lists the legal moves, `movepicker` hands them out in
  the order of their promise, `see` weighs exchanges, `eval`, `pawns`, `mobility` and
  `combiner` judge positions, `history` and `tt` remember. `negamax` searches a node, with
  `prunings`, `loops` and `quiesce` for its parts, and `deepening` a root; `value` says what a
  score is, `memory` what a node finds when it is entered. `tm` shares out the clock.
- `src/protocols`: sessions. `uci` and `xboard` turn command lines into actions, `notation`
  reads and writes moves, `smp` lets threads vote, `spmc` is the word a pool of threads
  sleeps on.
- `src/numa.rs`, `src/hugepages.rs`: the machine.
- `app`: the program around the library: standard input and output, threads, the clock's
  fractions and what the system tells of its processors.
- `tests`: what the library does on given values.

## What is proved

Every position that the library hands on is sound: its sets of squares and keys are those of the
board, each side has one king, and the side that has just moved is not in check. Move generation
lists the legal moves, each once, and the move picker hands out what move generation lists. The
search leaves the board as it found it, every line it reports can be played, and the first
iteration is always completed, so that there is a move to answer with. A score is settled at the
door of a node, by a pruning, or it is the greatest of the negated scores of the nodes behind
the moves searched, down to the leaves. How deep each move is searched is fixed: its reduction,
its extension, and the search in full where a scout surprises. A pruning whose conditions hold
is tried, and a node is only searched where it fell short. A node below is entered with what its
parent was entered with and what the nodes searched since have added: results in the
transposition table, each that of a node searched below with the move that brought it, lessons
in the histories, and pawns seen on the way. The men moved on the way from the root and the
evaluations marked there are those of the nodes passed. The killers that a node finds, the
cutoffs counted among its children and the count of nodes, whose parity gives a draw its sign,
are what the search has left there; nothing more is said of them. The transposition table gives
back what was stored. Commands do what their words say. No function overflows or indexes out of
bounds.

Functions whose names begin with `law_` state what holds between several functions.

## What is taken on trust

The number of ones in a word, the time that has passed since an instant, and the call that
wakes sleeping threads.

# patzer

A UCI chess engine whose rules are proved with Verus: what a position's evaluation, an exchange,
a table entry, a time budget, a search window, a training record or a protocol command comes to
is stated in contracts, and the code is shown to meet them. Move generation is left to
[`cozy-chess`](https://crates.io/crates/cozy-chess); what is believed of it stands in
`src/board.rs` and `src/attacks.rs`.

## Layout

- `src/board.rs`, `src/attacks.rs`, `src/fen.rs`, `src/notation.rs` — positions and moves as plain values, and their texts
- `src/eval.rs`, `src/pesto.rs`, `src/see.rs` — tapered evaluation, static exchange evaluation
- `src/nnue.rs`, `src/policy.rs` — quantized networks: accumulators that follow moves
- `src/tt.rs`, `src/shared.rs` — transposition table, for one thread and for several
- `src/rules.rs`, `src/reductions.rs`, `src/history.rs`, `src/tune.rs` — what the search decides by
- `src/search.rs`, `src/quiesce.rs`, `src/interior.rs`, `src/driver.rs` — the search, leaves to root
- `src/account.rs` — what the result of a search follows from, down to its leaves
- `src/time.rs` — time management
- `src/uci.rs`, `src/text.rs`, `src/book.rs` — the protocol, its words, the opening repertoire
- `src/selfplay.rs`, `src/records.rs`, `src/datagen.rs`, `src/dataset.rs` — training data
- `src/walk.rs`, `src/gates.rs` — random and exhaustive walks, and the checks built on them
- `app/` — command line, files, threads

## Sessions

    patzer           # a UCI session
    patzer tune      # one in which the search parameters are options

## Checks

    patzer perft     # exact counts of legal lines
    patzer see       # exchanges that can be worked out by hand
    patzer mates     # mates proved by walking every reply
    patzer book      # the repertoire, walked move by move
    patzer soak      # self-play
    patzer bench     # nodes at a fixed depth
    patzer nnueinc   # accumulators that follow against ones built afresh
    patzer fwdgate   # the fast forward pass against the plain one

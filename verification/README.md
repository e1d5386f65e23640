# mbca-10x10

A UCI engine for [Grand Chess](https://en.wikipedia.org/wiki/Grand_Chess), with machine-checked contracts.

`src/` is the library `mbca_grand`, verified with Verus:

- `types`, `squareset`, `geometry`, `zobrist`, `attacks`: squares, sets of squares and what attacks what;
- `position`, `board`, `play`, `legal`, `fen`, `start`, `notation`: positions, making and taking back moves, legality,
  and both as text;
- `movegen`, `movegen_laws`, `movepick`, `see`: generating and ordering moves;
- `nnue`, `eval`: the neural network, incrementally;
- `history`, `tt`, `score`, `node`, `searcher`, `worth`, `quiesce`, `search`, `iterate`, `answer`, `timing`, `params`: the
  search, what its scores are worth, and its answer;
- `book`, `uci`, `text`: the opening book and the protocol.

`app/` is the program around it: standard input and output, files, threads, and what needs floating point. It expects
the network as `net.bin` beside the executable, and loads an opening book named `book.bin` from there if there is one.

`tests/` runs the library.

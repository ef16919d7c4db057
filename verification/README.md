# coursework

Verified logic of four small Rust programs, written in Verus.

- `dataset`, `query`, `analytics`: datasets of typed columns, and queries
  that filter rows, group them by a column and aggregate each group
  (count, sum, average). Every function states its result exactly; laws cover
  filtering, grouping (the groups partition the rows) and counting.
- `text`, `query_parser`: the text form of queries,
  `FILTER <condition> GROUP BY <column> <COUNT|SUM|AVERAGE> <column>`,
  parsed into queries; `try_parse_query` decides whether a text is a query.
- `board`, `agent3`, `agent5`: a tic-tac-toe board with walls, a full-depth
  minimax agent for 3x3 boards, and a depth-limited alpha-beta agent for
  5x5 boards whose search is proved to bound the minimax value.
- `guessing`: bisection for the number-guessing game, proved to find the
  number with guesses inside the range, none twice, and at most
  `floor(log2(max - min + 1)) + 1` of them.
- `chat`: the bookkeeping of a chatbot: file names, replies, histories and a
  bounded cache of conversations by user.

`app/` holds the parts that do I/O: the analytics client (stdin, RPC over
tarpc and tokio) and the chatbots over kalosm chat models, which save their
sessions to files.

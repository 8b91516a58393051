# projects_lib

A verified library for three small course projects, written in Verus.

- `analytics`: datasets of typed columns, queries that filter, group and aggregate them
  (`solution`), and a reader for the query language (`parse`), from the text to the
  `Query` value.
- `tictactoe`: a square board with walls, an exhaustive agent for small boards
  (`agent3`) and a depth-limited alpha-beta agent with a window heuristic (`agent5`).
  The alpha-beta search is proved to agree with plain minimax inside its window.
- `chat`: the decisions of the chatbots: per-user session tables, history file names,
  history lines and replies.

`app/` holds what Verus does not check: the query client loop on standard input and the
chatbots, which await a language model (kalosm) and store sessions in files.

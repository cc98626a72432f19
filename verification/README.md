# repartee

The decisions of an IRC client, verified with Verus: what is sent in the clear and what is encrypted,
where a typed line goes, who is told that somebody types, what a bouncer knows as read, which history is
asked for, and how batches, searches, uploads and reconnections are handled.

- `src/` holds the library. Every function states what it does in its contract, and the public proof
  functions state what holds of several of them together. Time, random names and what the outside
  answered are arguments; what the outside has to do is handed back as a value.
- `tests/` runs the library on concrete conversations.
- `app/` holds the edges: the terminal, the clock, the disk, the connections, the workers and the pictures.

The lowest modules are `text`, `collections`, `wire` and `times`; `state` and `app` hold what the client
knows, and every other module is named after what it decides.

# rustdemo

A city data set and a small multiplayer geography game, with its logic
verified by Verus.

- `src/` is the verified library:
  - `city`, `geo`, `protocol`: the data model (cities, shapes, wire messages);
  - `select`: filtering cities, the cities of a state, the largest city of a country;
  - `group`: grouping cities by country or state, ranked most populous first, and the
    largest city of every country;
  - `chat`: the chat server's membership and message relaying;
  - `server`: the game server's players and replies (the round's city is picked with `rand`);
  - `client`: the game client's display states.
- `app/` holds the programs around it: file and network I/O, threads, serde and
  bincode, and drawing with `apricity`.
- `tests/` runs the library on concrete data.

# mining_bot

Core of an agent for a grid game in which agents walk to proof-of-work
challenges and mine them.

- `src/` is the verified library:
  - `id`: identifiers (the 128-bit value of a UUID) and their byte form;
  - `protocol`: the messages of the game server;
  - `pow`: the BLAKE3 proof of work, its check and the nonce search;
  - `miner`: the queue of mining targets shared by the miner threads
    (round robin with per-target turns);
  - `state`: what the agent knows of the game, updated from server messages;
  - `grid`: the model of the search grid (reachability layer by layer, distances);
  - `bfs`: the breadth-first search over a prepared grid;
  - `pathfinding`: the fixed 100 × 100 grid built from the game state, the distance search and
    the step towards the nearest challenge.
- `app/` is the program around it: the WebSocket connection, JSON, the miner
  threads and the main loop.
- `tests/` runs the library on concrete values.

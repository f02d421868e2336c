# telic

An engine-agnostic game-AI framework: GOAP and HTN planning, utility
scoring and assignment, and an evaluation arena with TrueSkill ratings and
head-to-head counts.

## Layout

- `src/` is the verified core, checked by Verus:
  - `planning/belief.rs`: sets of belief names (`BeliefIdSet`).
  - `planning/goal.rs`, `planning/htn.rs`: goals, HTN methods and tasks, and
    the decomposition of a task into action names.
  - `planning/planner.rs`: the goal order, the regression step and the
    depth-first backward search, with its soundness lemma.
  - `planning/search.rs`: the partial plans of the best-first search.
  - `planning/bidirectional.rs`: the forward and backward frontiers of the
    bidirectional search and their meetings.
  - `planning/agent.rs`: the agent's decisions from tick to tick.
  - `planning/utility.rs`: scoring modes, action sources, and the choices of
    the assignment strategies made on order keys of the scores.
  - `arena/`: game interfaces, seat sampling, finish order, ranks, win
    counts and the head-to-head table.
  - `ranking.rs`, `rng.rs`: stable orders by integer keys; xorshift64.
- `app/` is ordinary Rust around the core: everything that computes with
  floating point (costs, scores, response curves, A* and bidirectional
  cost ordering, Hungarian and weighted-random assignment, ratings through
  `skillratings`), belief evaluation over game state, the command tree, and
  the arena's game loop.
- `tests/` exercises the core.

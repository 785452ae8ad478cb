# grid_planner

A verified library for planning deliveries on a grid.

- `grid_map`: a rectangular grid of walkable or blocked cells and the four-neighbour
  relation between them.
- `path_planning`: an A* planner guided by the Manhattan distance, together with the
  tables it works on (a per-cell map of costs or parents and a frontier that hands out
  the entry with the lowest priority, row and column). The planner is proved to return
  exactly the walk that a step-by-step model of the search (`astar_outcome`) gives, that
  this walk is a shortest one, and to report the right error otherwise.
- `task_core`: the life of a delivery task, from pending to completed or failed.
- `config`: the settings of a run and their validation.
- `demo`: the scenes of the command-line program, building a map from a configuration,
  running a task, and what is drawn and printed for a path.

`app/main.rs` is the command-line program: it reads the scene id, prints, and calls
the library for everything else.

# preference_splitting

Segmentation of vehicle trajectories on a road network into pieces that are
each a shortest route for one linear preference over several edge cost
metrics.

The library under `src/` is written in Verus and verified:

- `graph`: the road network in contraction-hierarchy order (`Graph::new`
  and its adjacency arrays), shortcut expansion and route assembly
  (`route`), the two line-based graph file formats (`files`), route pieces
  (`path`), and the search procedures of the trajectory analysis (`search`,
  `trajectory_analysis`).
- `graphml`: GraphML key declarations and the reading of GraphML networks
  from the nodes of a parsed XML document.
- `trajectories`: recorded trips resolved against a graph by edge name, and
  the steps of a random walk over the graph.
- `names`, `text`: the name table behind edge lookups, and the token and
  number syntax of the file formats.

The program under `app/` reads the files, runs the floating-point shortest
route search and the linear program of the preference estimation, answers
the library's search procedures with them, and writes the results.

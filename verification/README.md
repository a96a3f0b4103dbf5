# tcops

A solver engine for the Team Clustered Orienteering Problem with Subgroups
(TCOPS): vehicles leave a start node and reach an end node within a budget,
and collect the profit of the subgroups whose nodes they all visit, at most
one subgroup per cluster.

The library under `src/` is written in Verus and verified:

- `parser/` reads an instance text (header, node, subgroup, cluster and
  vehicle sections) into an `Instance` whose items are held at the positions
  of their ids, whose references point at existing items, and whose nodes and
  subgroups list the subgroups and clusters that hold them;
- `search.rs`, `routes.rs` keep the bookkeeping of the neighbourhood search;
- `model.rs`, `separation.rs`, `flow.rs` give the index structure of the
  integer program, the integral subtour separation, the reachability used by
  the fractional separation and the reading of routes off a solution;
- `exporter.rs`, `printer.rs` compute what the reports list.

The program under `app/` parses the command line, reads files, runs the
floating point parts of the two solvers (the neighbourhood search, and the
integer program through Gurobi), prints, exports JSON and calls the plotting
script.

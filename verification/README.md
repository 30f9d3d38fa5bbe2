# Container truck routing

A verified library that plans routes for trucks serving container requests: full
containers picked up at one node and dropped at another, empty containers picked up or
delivered, fuel stations on the way, time windows at the request nodes, and a depot where
empty containers are loaded and unloaded.

- `src/data.rs`: the trucks, the requests, the instance (`Config`) with its well-formedness
  condition, and the `Solution`.
- `src/format.rs`: the instance format, a list of numbers, and the instance it gives.
- `src/solver.rs`: the search. Path options between two request nodes are kept under a
  dominance rule over their summaries (fuel, distance, time, compatible loads), as an
  antichain; search states chain the visited requests. For each truck, every state at the
  depot without a full container on board that the search reaches gets a known route for its
  visited requests no longer than any of its paths; the routes of the trucks are then merged
  in turn, keeping the shortest combination per set of requests. Between two request nodes
  the search tries at most one fuel station, so the result is not optimal in general.
- `tests/`: scenarios on small instances.
- `app/`: the command line program: it reads an instance file, times the search and prints
  the solution (and, with `--verbose`, what each truck's search and each merge found).

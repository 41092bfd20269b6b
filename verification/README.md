# mddem

Verified core of a particle-simulation framework for molecular dynamics (MD)
and discrete-element (DEM) runs. The library (`src/`) holds the integer and
string logic of the framework, each function with a `requires`/`ensures`
contract proved by Verus:

- `schedule`, `ordering`, `organize`, `scheduler`: schedule phases, the
  topological ordering of systems within a phase (`before`/`after`
  constraints, Kahn's algorithm with a first-in first-out ready list),
  `requires_label` checks, schedule warnings, simulation states and the fluent
  system-descriptor API.
- `schedule_graph`: the structure of the schedule diagram (clusters, run-order
  edges, constraint edges) and short system names.
- `run`: run stages, cycle counting, stage-name validation, output scheduling.
- `comm`, `domain`: processor grid of the domain decomposition, neighbour
  ranks, boundary types.
- `atom_order`, `neighbor`: spatial sorting of atoms by bin, the cell-ordered
  (CSR) bin layout, the candidate pairs of the binned search, CSR lists from
  per-atom rows, neighbor-list
  rebuild decisions, CSR lists from pairs.
- `restart`: which restart file a process reads (the highest step among the
  names of its rank and format).
- `type_rdf`, `measure`: which atom pairs enter a type-filtered g(r), atoms
  per type, the tags a displacement tracker holds, sampling steps.
- `polymer`: chain creation (tags, bonds, angles) and chain discovery from
  bond topology.
- `angle`, `pair_coeff`, `group`, `thermo`, `plugins`, `fire` and the
  configuration defaults of the remaining modules.

`app/` is the runtime around the library: the dependency-injection scheduler
that runs systems in the order the library computes, the plugin layer and the
plugins' systems, TOML
configuration with serde, console output, and the floating-point kernels
(forces, neighbor search, g(r) and MSD measurements, FIRE, chain growth and
shapes, thermostats, domain bounds).

`tests/` exercises the library from outside.

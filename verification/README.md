# round_eliminator

Verified algorithms on locally checkable problems as used in round elimination: label
sets, lines and constraints, the strength diagram of the labels, the removal of useless
lines and labels, zero-round triviality, and the fixpoint diagram of right-closed label
sets. Every function in `src/` carries a contract that Verus proves.

Layout:

- `src/labels.rs`: labels and strictly increasing label vectors (sets), lexicographic order.
- `src/line.rs`: groups, parts, lines, and the inclusion of one line in another.
- `src/constraint.rs`: constraints, discarding included lines, maximization.
- `src/text.rs`: texts, their order, joining and sorting.
- `src/problem.rs`, `src/parse.rs`: problems and their text form.
- `src/diagram.rs`: the diagram of label strength.
- `src/discard_useless.rs`: restricting a problem to labels, removing weak lines and useless labels.
- `src/triviality.rs`: the sets of labels that solve a problem in zero rounds.
- `src/fixpoint.rs`: right-closed sets, the fixpoint diagram, its texts, and label duplication.
- `src/tree.rs`: expressions of unions and intersections over labels.
- `src/lattice.rs`: transitive closures of diagrams, least common successors and predecessors.
- `src/procedure.rs`: maximizing single-label lines on a diagram whose labels form a lattice.
- `src/onestep.rs`: one step of the fixpoint computation, and the fixpoint with a default or duplicated diagram.
- `src/custom.rs`: the fixpoint with a diagram given as text.
- `app/lib.rs`: a serde form of the fixpoint diagram.

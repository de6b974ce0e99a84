# ofposet

Oriented framed posets as finite tables, verified with Verus.

`src/` is the verified library:

- `intset`, `poset`, `ofp`: sorted integer sets, the framed-poset tables,
  boundaries, closures and the oriented-framed-poset conditions.
- `embedding`: embeddings, their composition, inverses, intersections and
  unions.
- `symmetry`: signed permutations of directions and their action.
- `pushout`, `colimit`: binary pushouts and finite colimits of embeddings.
- `orthogonal`: orthogonal products of posets and embeddings, with the
  commutativity and associativity isomorphisms.
- `isomorphism`, `canonicity`, `completeness`: isomorphisms and normal forms,
  searched on Hasse diagrams through `rust-igraph`, with the proofs that
  relabelled posets get equal normal forms and that the search finds every
  isomorphism.
- `connect`, `rigid`, `cubularity`, `volumetric`: structural tests.
- `box_construction`, `polyvoxel`, `traversal`: boxes glued from their faces,
  polyvoxels and their inductive constructors, intrinsic traversals, and
  renumbering cells by given permutations.
- `compass_spring_nd`: the hypercube graph and the layout graph of a framed
  poset used by the compass-spring layout.
- `tables`: checking serialized tables before building a framed poset.

Public proof functions named `law_*` state the algebraic laws of the library.

`app/` holds what is not verified: JSON (de)serialization with serde, Graphviz
DOT rendering, the floating-point compass-spring layout, and random
relabelling with `rand`.

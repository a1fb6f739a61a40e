# Leech lattice vector quantization, verified

A Verus library for the Leech lattice Λ24 in its integer embedding
`sqrt(8)·Λ24 ⊂ Z^24`, with the extended Golay code it is built from, the
equivalence classes of its shells `2 ..= 13`, and a bijective index of the ball
`Λ24(13) ∪ {0}`. Every function in `src/` carries a contract that Verus proves.

## Layout

- `src/golay.rs`: the `[24, 12, 8]` Golay code (`Golay`), its weight-major
  codeword table, ranks, and the laws of the code (linearity, weights
  0/8/12/16/24, weight distribution 1/759/2576/759/1, minimum distance 8,
  self-orthogonality).
- `src/leech.rs`: membership (`Leech::contains`), norms and shell indices,
  point arithmetic, random lattice points, and the closure of the lattice
  under addition and negation.
- `src/rng.rs`: the SplitMix64 generator, specified output by output.
- `src/shells.rs`: streaming enumeration of the shells 2 and 3 into a
  `ShellVisitor`; the points a visitor is handed are proved to be exactly the
  lattice points of the shell, each once (196 560 and 16 773 120 points),
  handed over class by class.
  `PointLog` keeps them; `FnVisitor` hands them to a closure.
- `src/combin.rs`: multinomial coefficients (any number of kinds, at most 24
  elements) and the ranking / unranking of multiset permutations, proved
  mutually inverse.
- `src/classes.rs`: the equivalence classes of the shells `2 ..= 13`, the
  properties every enumerated class has, their cardinalities, and the integer
  class tables of the search (classes grouped by Golay weight, values written
  out, odd contributions sorted ascending).
- `src/ball.rs`: the class structure of a point of the ball (parsing a point
  into codeword, value arrangement and signs, and building it back), the
  minimal norm 32, and the norms of lattice points being multiples of 16.
- `src/index.rs`: `Indexer`, with `encode` and `decode` proved inverse on the
  ball, the index proved injective with range `0 ..= total`, and the indices
  of each shell proved to lie in a block of its own, whose size is the sum of
  the shell's class cardinalities. `Indexer::new` returns the layout exactly
  when its class cardinalities add up to `N(13)`.
- `src/search.rs`: the handle shared by the nearest-neighbour searches.
- `app/`: the floating-point parts (nearest-neighbour search, the Gaussian
  source benchmark) and the command-line driver.
- `tests/`: concrete checks, including the theta-series coefficients and the
  cumulative count `N(13) = 280 974 212 784 720`.

# fastlap

Linear assignment problem (LAP) solvers with Python bindings.

`src/` is the library, verified with Verus. The solvers are generic over the
cost type: the caller hands in `zero` and the operations `plus`, `minus` and
`less`, so the contracts can speak of any valuation under which those
operations are exact.

- `sap` — the O(n³) shortest-augmenting-path solver with dual variables
  (`duals` holds its dual invariants); returns a perfect matching of least
  cost.
- `utils` — padding a matrix to a square, trimming a solution back,
  and `solve_padded`, the pad / solve / trim pipeline shared by the LAPJV,
  Hungarian, LAPMOD, Dantzig and subgradient entry points.
- `lap::auction` — the auction algorithm; on a square matrix it returns a
  complete assignment within `n · ε` of the optimum. The bidding completes
  on its own whenever `n · (cost range + ε) ≤ MAX_ITERATIONS · ε`; when it
  runs out of rounds the square problem is handed to `sap`.
- `results` — what any two results have in common: the solvers agree on the
  least cost, shifting a row by `d` shifts the optimum by `d`, and
  transposing keeps it.
- `optimality` — sums, permutations and full choices, over which optimality
  is stated.
- `matrix` — validation of an input matrix and the error texts.
- `sparse` — reading a CSR matrix (through `sprs`) as a dense one.
- `weights`, `cost`, `matching`, `names`, `text` — entry-wise weighting, the
  cost of an assignment, the matching invariant, algorithm names and text
  helpers.

`app/` is the Python extension (PyO3, NumPy, rayon): it reads the Python
objects, supplies `f64` arithmetic, computes the padding cost and ε, and runs
batches in parallel.

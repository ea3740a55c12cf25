# sheaf_coherence

Cellular sheaves — cells with stalks, restriction maps between them and
data assigned to the cells — and the bookkeeping that coherence measures,
the sheaf Laplacian and diffusion synchronization rest on, verified with
Verus.

The scalar type of stalk data and of restriction-map entries is a type
parameter `T`: the library moves and lays out scalars but never computes
with them.

- `src/ids.rs` — cell ids in ascending order (`sorted_ids`), sums of stalk
  dimensions over them, and the lemmas about both.
- `src/sheaf.rs` — `Cell`, `RestrictionMap`, `Assignment`, `Sheaf`, the
  global vector, `line_sheaf` and `triangle_sheaf`.
- `src/coherence.rs` — which restriction maps a coherence measure evaluates,
  with the assignments each one compares.
- `src/laplacian.rs` — the offset of every cell's block and the blocks each
  restriction map adds to the Laplacian.
- `src/synchronization.rs` — filling in missing assignments, consensus, and
  writing a global vector back into the cells.
- `src/laws.rs` — properties that relate several operations: the global
  vector's length, the round trip of writing back and reading, how the cell
  blocks tile the global vector, transposing twice.

`app/` instantiates the library with `f64` and computes what needs
floating-point arithmetic: disagreements, energies, scores, the Laplacian's
entries, eigenvalue estimates and the diffusion steps.

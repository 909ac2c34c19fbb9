# TurboSpin

The logic of a quantum circuit simulator that keeps its statevector compressed.

Clifford gates are absorbed by a symplectic tableau and recorded for replay; the compressed
statevector stays untouched. T gates are queued, and any other gate calls for dense work at once:
decompress, replay the record, apply, compress again. Two simulators are built on this: a
basis-adaptive one, and one that dithers states before compression and feeds back the residual
that quantization left.

The library is written and proved in Verus. It decides; it does no floating-point arithmetic.
Amplitudes, scales and angles pass through it as IEEE 754 bit patterns, and what is decided on
them (comparisons, signs, closeness to a constant) is stated over their exact values.

* `src/` is the verified library. `lib.rs` lists the modules. Functions named `law_...` state
  what holds of several functions together.
* `tests/` runs the library, with a small statevector simulator where floating point is needed.
* `app/` is the command-line program: floating-point work, input and output, on the `spinoza`
  statevector simulator, which parses OpenQASM and brings the kernels.

Trusted without proof are rand's `StdRng::seed_from_u64` and `SliceRandom::shuffle`, in
`givens.rs`, and `Vec::capacity`, in `memory.rs`.

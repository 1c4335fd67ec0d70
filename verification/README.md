# everett

A quantum circuit simulator whose discrete core is verified with Verus.

## Layout

- `src/` is the verified library:
  - `qubit`, `error`, `op`, `circuit`: indices, the error type, the
    instruction set, and circuits with their validation;
  - `rng`: the seedable xoshiro256++ generator (SplitMix64 seeding);
  - `kernel`: the amplitude index arithmetic of gate application (bit
    insertion, index pairs and quads, control masks) and the permutation
    kernels for CNOT and SWAP, with laws on bounds, injectivity and
    partitions;
  - `clifford`, `pauli`, `stabilizer`: the Aaronson-Gottesman tableau and
    the Clifford-circuit backend, with laws in `clifford_laws` and
    `stabilizer_laws`;
  - `qasm`: the OpenQASM 3 lexer, its grammar as spec functions, the parser
    proved against that grammar, the emitter, and in `qasm::roundtrip` the
    proof that emitted text parses back to the same circuit;
  - `text`: decimal rendering.
- `tests/` holds the tests of the library.
- `app/` holds the floating-point parts: complex numbers, gate matrices,
  the statevector and density-matrix backends, noise channels, and the
  algorithms, built on the verified index arithmetic and circuits.

# r0

Building blocks of a portable prover over 31-bit prime fields, verified with
Verus: Montgomery fields and their extensions, batched number-theoretic
transforms, recipe-driven parallel prefix scans, and polynomial division by
`x - z`.

## Layout

- `src/`: the verified library. Start at `src/lib.rs`.
- `tests/`: tests on concrete values, with Plonky3 as the oracle for fields
  and transforms.
- `app/`: executors for buffers on a cubecl device, with the device lock, and
  the entry points of the browser demo.

## What is proved

- Field and extension arithmetic on raw Montgomery words is arithmetic in
  `Z_p` and in `Z_p[X] / (X^D - W)`, where `W` meets Euler's criterion for
  `X^D - W` to be irreducible.
- Every kernel, pass and plan of a transform computes the evaluations of the
  polynomial at the powers of a root of unity, or the inverse; the one undoes
  the other.
- The score of a plan is, bit for bit, what rounding every step to binary64
  gives.
- A plan that validates is one that can be launched; the heuristic's plan is
  valid and the best of its kind; the enumeration lists every valid plan once,
  and no other.
- A scan gives every position the inclusive prefix of its row, whatever the
  plane and workgroup sizes of the device.
- Division gives the unique quotient and remainder, the remainder is the value
  at `z`, and division is additive.

The only outside contract that is believed without proof is that of
`String::push`.

Calls from outside the library have to meet the `requires` of what they call;
`app/` tests these before it calls.

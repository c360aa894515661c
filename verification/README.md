# succinct

Succinct data structures for Rust, with their behaviour stated in `requires` / `ensures`
contracts and proved by Verus.

## Layout

- `src/` — the verified library.
  - `bits`, `broadword` — word-level bit tricks (popcount, bytewise comparisons) and the lemmas
    about them.
  - `storage` — the `BlockType` trait over `u8`, `u16`, `u32`, `u64` and `usize`, and bit
    addresses.
  - `bit_vec`, `int_vec` — bit vectors and vectors of *k*-bit integers, modelled as
    sequences of bits and of natural numbers.
  - `rank`, `select` — Jacobson and Rank9 rank structures, and select by binary search;
    the laws that tie rank and select together.
  - `rsdict` — a compressed rank/select dictionary over a growing bitmap: each full small
    block is stored as its number of ones and its index among the blocks with that many
    ones, in as few bits as that index needs.
  - `coding`, `stream` — bit streams and universal codes (unary, Elias gamma/delta/omega,
    comma, Fibonacci), with the round trip of each code proved.
  - `space_usage` — the memory accounting of the structures.
- `tests/` — tests run against the compiled library.
- `app/` — what Verus does not take: reading and writing blocks with `byteorder`, and the
  textual forms of bit and integer vectors.

# bitflagset

Bitsets with a set-like interface (`contains`, `insert`, `remove`, `is_subset`, ...) over
compact words of bits, with their behaviour stated in `requires`/`ensures` contracts and
proved by Verus.

## Model

Every set is viewed as a `Seq<bool>` with one entry per position below its capacity
(`set@`). Operations are specified on that sequence: `insert(i)` sets entry `i`, `len` is
`count_true(set@)`, `iter` is `ones(set@)` (the set positions in increasing order), the set
operators are `combine(a@, b@, n, op)`, and so on. `src/laws.rs` proves the properties that
relate these operations (what `remove` undoes, what `iter` yields, how the operators compose).

Positions at or beyond a set's capacity are ignored in every build (`contains`, `insert` and
`remove` answer `false`, `set` and `toggle` change nothing); no operation panics on them.

## Layout

- `src/word.rs`: `PrimStore`, the word abstraction (`u8`..`u64`), specified bit by bit.
- `src/words.rs`: the set algorithms on sequences of words, shared by all multi-word sets.
- `src/bitset.rs`: `BitSet` over one word or over an array of words, with the bit operators.
- `src/slice.rs`, `src/boxed.rs`: the heap-backed `BitSlice` and `BoxedBitSet`.
- `src/enumset.rs`: named flag sets (`Flag`, `FlagDecl`, `FlagSet`, `BitFlagSet`,
  `AtomicFlagSet`).
- `src/atomic*.rs`: the atomic sets. Another thread may change an atomic word at any time, so
  their contracts state what holds of every value read, and the removal of an element is a
  single attempt (`PopAttempt`) that `app/` retries.
- `src/laws.rs`: the cross-operation laws.
- `app/lib.rs`: retry loops for atomic pops, `bitvec` conversions, textual forms.

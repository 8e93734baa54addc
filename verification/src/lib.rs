pub mod atomic;
pub mod atomic_boxed;
pub mod atomic_slice;
pub mod bitset;
pub mod boxed;
pub mod enumset;
pub mod laws;
pub mod slice;
pub mod word;
pub mod words;

pub use atomic::{AtomicArrayBitSet, AtomicBitSet, AtomicPrimStore, PopAttempt};
pub use atomic_boxed::AtomicBoxedBitSet;
pub use atomic_slice::AtomicBitSlice;
pub use bitset::{ArrayBitSet, BitSet, PrimBitSetIter};
pub use boxed::BoxedBitSet;
pub use enumset::{AtomicFlagSet, BitFlagSet, Flag, FlagDecl, FlagSet};
pub use slice::BitSlice;
pub use word::PrimStore;
pub use words::WordOp;

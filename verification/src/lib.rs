//! An in-memory associative map from 64-bit unsigned keys to arbitrary
//! values, implemented as a compressed binary trie (a PATRICIA-style radix
//! tree). An internal node records the bit position at which its two
//! subtrees first diverge together with the shared bit-prefix below that
//! position; keys are located by following those divergence bits, and new
//! keys are grafted in with a single new internal node. The branch bit is
//! always the *lowest* bit at which two colliding keys differ, so the trie
//! is a pure associative structure with no ordered traversal.

mod bits;
pub mod laws;
pub mod map;

pub use map::PatriciaTreeMap;

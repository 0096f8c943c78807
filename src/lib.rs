//! A fixed-capacity scapegoat tree over an index arena, with a few small
//! companions: the RC4 stream cipher, a naive primality count and a model of
//! a process tree.

pub mod arena;
pub mod error;
pub mod key;
pub mod node;
pub mod shape;
pub mod tree;

pub mod primes;
pub mod process;
pub mod rc4;
pub mod rc4_checked;

pub use error::SgError;
pub use key::SgKey;
pub use primes::{count_primes, is_prime};
pub use rc4::Rc4;
pub use tree::SgTree;

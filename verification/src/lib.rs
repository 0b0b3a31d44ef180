//! Salt-keyed, reversible encoding of lists of unsigned integers as short
//! strings.
//!
//! A codec is built once from one of four fixed alphabets and a salt. It turns
//! a non-empty list of `u64` values into an id made of alphabet symbols, and
//! turns such an id back into the list.
//!
//! Every public function carries a contract over the mathematical model of
//! the codec in [`model`] and [`util`]. What holds of every codec is proved
//! in [`laws`]: above all that decoding the id of a list gives the list back,
//! for every alphabet, every salt and every list of values.
pub mod bytevec;
pub mod hash;
pub mod laws;
pub mod model;
pub mod prelude;
mod sealed;
pub mod text;
pub mod util;
pub mod variants;

//! Conversion between native values and the value representation of the
//! OCaml runtime: a word that is either an immediate integer (low bit set) or
//! a pointer to a block, a header word (size and tag) followed by its fields.
//!
//! Values are built in an [`Arena`], a chunked memory that never moves what it
//! holds, and read back with full validation into a structured [`FromError`].
//! The meaning of a value in an arena is modelled by [`repr::Repr`]: each
//! conversion states which representation it builds and what reading one back
//! gives, and the laws (round trip, balanced tree shape, memory growth) are
//! proved over that model.

use vstd::prelude::*;

pub mod arena;
pub mod boxed;
pub mod bytes;
pub mod cache;
pub mod convert;
pub mod error;
pub mod export;
pub mod ptr;
pub mod repr;
pub mod tree;
pub mod value;

pub use arena::{Arena, Block, BlockBuilder};
pub use bytes::{
    bytes_from_ocamlrep, bytes_to_ocamlrep, str_from_ocamlrep, str_to_ocamlrep, ByteStringBuilder,
};
pub use convert::{from_ocamlrep, FromOcamlRep, OCamlInt, OcamlRep};
pub use error::FromError;
pub use tree::{
    sorted_iter_to_ocaml_map, sorted_iter_to_ocaml_set, vec_from_ocaml_map, vec_from_ocaml_set,
};
pub use value::Value;

verus! {

} // verus!

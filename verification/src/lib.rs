//! Dense integer codes for types with finitely many values, and bit-packed
//! containers built on those codes.
//!
//! A type that implements [`EnumLike`] gives each of its values a code below
//! `NUM_VARIANTS`. An [`EnumVec`] stores such values as their codes, each in
//! as many bits as the largest code takes, several codes to a storage word.
//!
//! - `enum_like`, `tuples`: the codec contract, the codecs of the built-in
//!   sum and product types, and the laws they obey.
//! - `radix`, `schema`: the codecs of product and sum types, computed from
//!   the cardinalities of their fields.
//! - `values`, `packed`: every value of a type in turn; one value in a small
//!   integer.
//! - `word`, `word_u8` to `word_u128`: storage words as rows of bit fields.
//! - `storage`, `smallvec_u32`: the sequences that hold the storage words.
//! - `layout`, `engine`, `iter`, `laws`: the packed vector.
//! - `vec_u8` to `vec_u128`: the packed vector for each width of storage
//!   word.
//! - `enum_set`: a set of values, held as a set of codes.

pub mod engine;
pub mod enum_like;
pub mod enum_set;
pub mod equality;
pub mod iter;
pub mod laws;
pub mod layout;
pub mod packed;
pub mod radix;
pub mod schema;
pub mod smallvec_u32;
pub mod storage;
pub mod tuples;
pub mod values;
pub mod vec_u128;
pub mod vec_u16;
pub mod vec_u32;
pub mod vec_u64;
pub mod vec_u8;
pub mod word;
pub mod word_u128;
pub mod word_u16;
pub mod word_u32;
pub mod word_u64;
pub mod word_u8;

pub use enum_like::EnumLike;
pub use packed::{PackedU16, PackedU8};
pub use values::{EnumValues, Values};
pub use vec_u32::EnumVec;

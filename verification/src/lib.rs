//! A JSON library: a parser with byte offsets in its
//! errors, a compact and a tab-formatted printer, a minifier, mutation of
//! value trees, JSON Pointer, JSON Patch, JSON Merge Patch and object
//! sorting, each with a contract that states what it computes.
//!
//! Numbers are held in a type chosen by the caller; reading, writing and
//! comparing them are functions the caller passes in.
use vstd::prelude::*;

pub mod diff;
pub mod error;
pub mod merge;
pub mod merge_law;
pub mod minify;
pub mod mutate;
pub mod names;
pub mod number_format;
pub mod order;
pub mod parser;
pub mod patch;
pub mod patch_law;
pub mod pointer;
pub mod roundtrip;
pub mod printer;
pub mod text;
pub mod trailing;
pub mod value;

pub use diff::{add_patch_to_array, generate_patches, generate_patches_case_sensitive};
pub use error::Error;
pub use merge::{generate_merge_patch, generate_merge_patch_case_sensitive, merge_patch, merge_patch_case_sensitive};
pub use minify::minify;
pub use number_format::{normalize_scientific, trim_fractional_zeros};
pub use mutate::{
    add_array_to_object, add_bool_to_object, add_item_reference_to_array, add_item_reference_to_object,
    add_item_to_array, add_item_to_object, add_null_to_object, add_number_to_object, add_object_to_object,
    add_raw_to_object, add_string_to_object, delete_from_array, delete_from_object, detach_from_array,
    detach_from_object, insert_in_array, replace_in_array, replace_in_object, set_bool, set_number, set_string,
    MutationError,
};
pub use order::{sort_object, sort_object_case_sensitive};
pub use parser::parse;
pub use patch::{apply_patches, apply_patches_case_sensitive, delete_pointer, PatchError, PatchOperation};
pub use pointer::{find_pointer_from_object_to, get_pointer, get_pointer_case_sensitive};
pub use printer::{print, print_unformatted};
pub use value::{
    compare, create_double_array, create_float_array, create_int_array, create_string_array, duplicate, Kind, Member,
    Value,
};

verus! {

/// The deepest nesting the parser accepts.
pub const NESTING_LIMIT: usize = 1000;

} // verus!

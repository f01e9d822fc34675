//! A cycle-free functional simulator of a set-associative memory cache in
//! front of a flat random-access memory.
//!
//! The cache decomposes each address into tag, set index and word offset,
//! looks the tag up in the addressed set, fills lines from memory on a miss
//! (choosing the victim line by a replacement policy), and keeps memory and
//! cache consistent by writing through on every store.

use vstd::prelude::*;

pub mod cpu;
pub mod policy;

pub use cpu::{ConfigError, Cpu};
pub use policy::{CacheLine, ReplacementPolicy};

verus! {

/// Parses a string into any `FromStr` type, falling back to a default when
/// the option is absent or the string does not parse.
pub fn parse_default<T: core::str::FromStr>(option: Option<&str>, default_value: T) -> (r: T)
    ensures
        option is None ==> r == default_value,
{
    match option {
        Some(string) => {
            match parse_from_str::<T>(string) {
                Some(res) => res,
                None => default_value,
            }
        },
        None => default_value,
    }
}

/// Relies on `str::parse`: whether and how the text parses is decided by the
/// type's own `FromStr` implementation, so nothing is claimed of the result.
#[verifier::external_body]
fn parse_from_str<T: core::str::FromStr>(s: &str) -> (r: Option<T>) {
    s.parse::<T>().ok()
}

} // verus!

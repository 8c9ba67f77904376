//! What holds of the library as a whole.

pub mod attempts;
pub mod builtin;
pub mod candidates;
pub mod collection;
pub mod contents;
pub mod conversation;
pub mod copying;
pub mod device;
pub mod directories;
pub mod exactly;
pub mod finding;
pub mod fitting;
pub mod found;
pub mod gathering;
pub mod layering;
pub mod magic;
pub mod merging;
pub mod mirroring;
pub mod modes;
pub mod mounting;
pub mod naming;
pub mod orderly;
pub mod overlays;
pub mod owed;
pub mod participation;
pub mod places;
pub mod provenance;
pub mod reaching;
pub mod reading;
pub mod refusals;
pub mod remounting;
pub mod repeating;
pub mod returning;
pub mod scanning;
pub mod sessions;
pub mod showing;
pub mod skipping;
pub mod sources;
pub mod strictness;
pub mod support;
pub mod tree;
pub mod unmounting;

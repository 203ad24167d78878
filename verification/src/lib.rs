//! A filesystem view of Hugging Face Hub repositories and buckets.
use vstd::prelude::*;

pub mod cached_xet_client;
pub mod error;
pub mod fuse;
pub mod hub_api;
pub mod protocol;
pub mod setup;
pub mod text;
pub mod time;
pub mod virtual_fs;
pub mod xet;

verus! {

} // verus!

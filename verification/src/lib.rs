//! The rules behind `shuttle`, a builder of Snap packages from Lua declarations.

use vstd::prelude::*;

pub mod analysis;
pub mod archive;
pub mod assertion;
pub mod audit;
pub mod boot_test;
pub mod build_prefix;
pub mod build_sched;
pub mod cache;
pub mod calendar;
pub mod checks;
pub mod command;
pub mod confine;
pub mod dep_fetch;
pub mod deps;
pub mod digest;
pub mod fetch;
pub mod glob;
pub mod json;
pub mod json_doc;
pub mod meta;
pub mod openpgp;
pub mod ordered;
pub mod source_url;
pub mod text;
pub mod timestamp;
pub mod wheel;

verus! {

} // verus!

//! Locating, reading and rewriting the metadata packet that a host file
//! embeds.

use vstd::prelude::*;

pub mod acdsee;
pub mod bytes;
pub mod codec;
pub mod container;
pub mod file;
pub mod markup;
pub mod ns;
pub mod svc;
pub mod tags;
pub mod text;
pub mod xmp;
pub mod xpacket;

pub use tags::{FromAcdSee, Tag, TagHierarchy};

verus! {

} // verus!

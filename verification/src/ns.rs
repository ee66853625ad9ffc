//! The namespaces of the vocabularies that a packet's markup uses.

use vstd::prelude::*;

verus! {

/// rdf namespace
pub const RDF: &'static str = "http://www.w3.org/1999/02/22-rdf-syntax-ns#";

/// acdsee namespace
pub const ACDSEE: &'static str = "http://ns.acdsee.com/iptc/1.0/";

/// xmp namespace
pub const XMP: &'static str = "http://ns.adobe.com/xap/1.0/";

/// xmpMM namespace
pub const XMP_MM: &'static str = "http://ns.adobe.com/xap/1.0/mm/";

/// stEvt namespace
pub const ST_EVT: &'static str = "http://ns.adobe.com/xap/1.0/sType/ResourceEvent#";

/// dc namespace
pub const DC: &'static str = "http://purl.org/dc/elements/1.1/";

/// crs namespace
pub const CRS: &'static str = "http://ns.adobe.com/camera-raw-settings/1.0/";

/// lr namespace
pub const LR: &'static str = "http://ns.adobe.com/lightroom/1.0/";

} // verus!

//! Discovery of reachable web servers in an IPv4 range, extraction of link
//! targets from their landing pages, and a small catalog tree that the
//! surrounding application fills with the findings.

pub mod addresses;
pub mod links;
pub mod scan;
pub mod tree;

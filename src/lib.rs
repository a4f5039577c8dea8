//! Provisioning and bookkeeping of peers of an obfuscated tunnel: the peer
//! configuration document, address allocation, client artifacts and the
//! cache of peers, groups and distribution pages.

pub mod text;
pub mod codec;
pub mod iface;
pub mod table;
pub mod cfg;
pub mod shared;
pub mod round_trip;

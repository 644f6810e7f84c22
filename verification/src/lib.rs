//! Personalizes an application package for one device: unpacks the package
//! archive, rewrites the configuration document in it with the device's
//! identity, and packs it again; and validates, with corrections and
//! retries, that the device accepts its stored pairing credential.

pub mod archive;
pub mod bplist;
pub mod bplist_laws;
pub mod bplist_write;
pub mod builder;
pub mod bytes;
pub mod container;
pub mod error;
pub mod fidelity;
pub mod naming;
pub mod pairing;
pub mod path;
pub mod personalize;
pub mod pipeline;
pub mod plist;
pub mod reader;
pub mod text;
pub mod utf16;
pub mod xml;

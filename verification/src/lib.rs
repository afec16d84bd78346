//! A conservative, stop-the-world, mark-and-sweep collector over a registry of
//! allocation records.
//!
//! The collector never touches raw memory itself: the storage behind a record
//! is obtained and released by the host, and so are the words that a scan
//! reads. A host that holds an image of memory hands it to
//! [`GCContext::collect`], which marks and sweeps in one call. A host that
//! reads live memory runs the mark phase in steps, with a [`scan::Scan`] that
//! asks for one word at a time. Either way, what is decided here is which
//! records are reachable, and every such decision is stated in a contract and
//! proved.

pub mod allocations;
pub mod arch;
pub mod context;
pub mod laws;
pub mod memory;
pub mod reach;
pub mod refs;
pub mod regions;
pub mod scan;
pub mod trace;

pub use context::GCContext;

//! Resource allocation and device routing for a virtual machine monitor.
//!
//! The crate tracks which guest-physical address ranges, port I/O ranges and
//! integer identifiers are in use, hands out non-overlapping allocations, and
//! keeps the lookup structures that route a trapped guest access to the device
//! that owns the accessed address.

pub mod id;
pub mod memory;
pub mod ordered;
pub mod address;
pub mod registry;
pub mod resource;
pub mod system;
pub mod interrupt;
pub mod device;
pub mod bus;
pub mod device_manager;

//! What the device manager knows of a device: the interface through which it
//! talks to one, the resources a device asks for and is given, and the record
//! kept of each registered device.

use crate::memory::{GuestAddress, GuestUsize};
use std::sync::Arc;
use vstd::prelude::*;

verus! {

/// A device that the device manager can register and route accesses to.
///
/// The manager promises nothing of what an implementation does, and relies
/// on nothing but that the calls return.
pub trait Device: Send {
    /// The name under which the device is registered.
    fn name(&self) -> String;

    /// Reads from the guest address `addr` into `data`.
    fn read(&self, addr: GuestAddress, data: &mut [u8], io_type: IoType);

    /// Writes `data` to the guest address `addr`.
    fn write(&self, addr: GuestAddress, data: &[u8], io_type: IoType);

    /// Tells the device which resources it was given.
    fn set_resources(&self, res: &[Resource]);
}

/// The kind of an I/O resource.
#[derive(Debug, Copy, Clone, PartialEq, Eq, Structural)]
pub enum IoType {
    /// Port I/O.
    Pio,
    /// Memory-mapped I/O.
    Mmio,
    /// Memory-mapped I/O that is backed by a physical mapping and never
    /// traps: it occupies address space but is not routed.
    PhysicalMmio,
}

/// An address range that a device asks for or was given.
///
/// As a request, `addr` may be `None`: any place will do. Once resolved,
/// `addr` is the start of the range that was allocated.
#[derive(Debug, Copy, Clone, PartialEq, Eq)]
pub struct Resource {
    /// Where the range starts.
    pub addr: Option<GuestAddress>,
    /// How many bytes it spans.
    pub size: GuestUsize,
    /// The kind of I/O it serves.
    pub res_type: IoType,
}

impl Resource {
    /// A resource of `size` bytes and kind `res_type`, at `addr` if given.
    pub fn new(addr: Option<GuestAddress>, size: GuestUsize, res_type: IoType) -> (r: Resource)
        ensures
            r == (Resource { addr, size, res_type }),
    {
        Resource { addr, size, res_type }
    }

    /// The address of a resolved resource.
    pub fn try_unwrap(&self) -> (a: GuestAddress)
        requires
            self.addr is Some,
        ensures
            Some(a) == self.addr,
    {
        self.addr.unwrap()
    }
}

/// The record of a registered device of type `D`, with interrupt lines of
/// type `G`.
pub struct DeviceDescriptor<D: ?Sized, G: ?Sized> {
    /// The name under which the device is registered.
    pub name: String,
    /// The device.
    pub device: Arc<D>,
    /// The bus that the device sits on, if any. It is kept for the topology
    /// only and plays no part in routing.
    pub parent_bus: Option<Arc<D>>,
    /// The resources that the device was given.
    pub resources: Vec<Resource>,
    /// The interrupt lines that were set up for the device, if any.
    pub interrupt_group: Option<Arc<G>>,
}

impl<D: ?Sized, G: ?Sized> DeviceDescriptor<D, G> {
    /// The record of the device `dev`, registered as `name`.
    pub fn new(
        name: String,
        dev: Arc<D>,
        parent_bus: Option<Arc<D>>,
        resources: Vec<Resource>,
        interrupt_group: Option<Arc<G>>,
    ) -> (r: Self)
        ensures
            r == (DeviceDescriptor { name, device: dev, parent_bus, resources, interrupt_group }),
    {
        DeviceDescriptor { name, device: dev, parent_bus, resources, interrupt_group }
    }
}

} // verus!

//! Registration of devices with their resources, and routing of guest
//! accesses to the registered devices.
//!
//! Registering a device allocates every address range it asks for, puts the
//! ranges that trap on the bus of their kind, tells the device what it was
//! given, and records the device under its name. Either all of this happens
//! or none of it: a registration that fails leaves the manager as it was.

use crate::bus::{
    bus_wf, holder, is_vacant, lemma_insert_wf, lemma_range_routing, lemma_remove_wf, Bus, BusMap,
    Range,
};
use crate::device::{Device, DeviceDescriptor, IoType, Resource};
use crate::interrupt::{InterruptError, InterruptManager, InterruptRequest};
use crate::memory::GuestAddress;
use crate::registry::Registry;
use crate::resource::{Allocation, Request};
use crate::system::{SystemAllocator, SystemSpace};
use std::sync::Arc;
use vstd::prelude::*;

verus! {

/// Why the device manager could not do what it was asked.
#[derive(Debug, Clone, Copy, PartialEq, Eq)]
pub enum Error {
    /// A range could not be allocated, or is taken on the bus.
    Overlap,
    /// A port I/O range was asked for without an address.
    NonePIORequest,
    /// A device is already registered under the name.
    Exist,
    /// No device is registered under the name, or none owns the address.
    NonExist,
    /// The interrupt lines of the device could not be set up.
    InterruptGroup,
}

/// The name of the pool that ranges of kind `t` are allocated from.
pub open spec fn pool_name(t: IoType) -> Seq<char> {
    match t {
        IoType::Pio => "pio"@,
        IoType::Mmio => "mmio"@,
        IoType::PhysicalMmio => "mmio"@,
    }
}

/// What a resource asks of its pool.
pub open spec fn request_of(q: Resource) -> Request {
    Request::Address { address: q.addr, size: q.size }
}

/// What a resolved resource holds of its pool.
pub open spec fn allocation_of(r: Resource) -> Allocation {
    Allocation::Address { address: r.addr.unwrap(), size: r.size }
}

/// What became of the interrupt lines of a device: `None` where it asks for
/// none, `Some(None)` where they could not be set up, `Some(Some(g))` where
/// they were set up as `g`.
pub open spec fn lines_of<G: ?Sized>(outcome: Option<Result<Arc<G>, InterruptError>>) -> Option<
    Option<Arc<G>>,
> {
    match outcome {
        None => None,
        Some(Ok(g)) => Some(Some(g)),
        Some(Err(_)) => Some(None),
    }
}

/// The mathematical content of a [`DeviceDescriptor`].
pub struct DescriptorView<D: ?Sized, G: ?Sized> {
    pub name: Seq<char>,
    pub device: Arc<D>,
    pub parent_bus: Option<Arc<D>>,
    pub resources: Seq<Resource>,
    pub interrupt_group: Option<Arc<G>>,
}

impl<D: ?Sized, G: ?Sized> View for DeviceDescriptor<D, G> {
    type V = DescriptorView<D, G>;

    open spec fn view(&self) -> DescriptorView<D, G> {
        DescriptorView {
            name: self.name@,
            device: self.device,
            parent_bus: self.parent_bus,
            resources: self.resources@,
            interrupt_group: self.interrupt_group,
        }
    }
}

/// The mathematical content of a [`DeviceManager`]: the resource pools, the
/// registered devices by name, and what is on the two buses.
pub struct ManagerState<D: ?Sized, G: ?Sized> {
    pub pools: SystemSpace,
    pub devices: Map<Seq<char>, DescriptorView<D, G>>,
    pub mmio_bus: BusMap<D>,
    pub pio_bus: BusMap<D>,
}

impl<D: ?Sized, G: ?Sized> ManagerState<D, G> {
    /// The state's invariant: well-formed pools and buses.
    pub open spec fn wf(self) -> bool {
        &&& self.pools.wf()
        &&& bus_wf(self.mmio_bus)
        &&& bus_wf(self.pio_bus)
    }

    /// Allocates what one request asks for.
    ///
    /// A port I/O request must name its address. Any failure of the pool is
    /// an `Overlap`.
    pub open spec fn reserve_one(self, q: Resource) -> Result<(Self, Resource), Error> {
        if q.res_type == IoType::Pio && q.addr is None {
            Err(Error::NonePIORequest)
        } else {
            match self.pools.allocation(pool_name(q.res_type), request_of(q)) {
                Ok(Allocation::Address { address, size }) => Ok(
                    (
                        ManagerState {
                            pools: self.pools.allocated(pool_name(q.res_type), request_of(q)),
                            ..self
                        },
                        Resource { addr: Some(address), size: q.size, res_type: q.res_type },
                    ),
                ),
                _ => Err(Error::Overlap),
            }
        }
    }

    /// Allocates what the requests ask for, one after the other. The first
    /// request that fails decides the error.
    pub open spec fn reserve(self, requests: Seq<Resource>) -> Result<(Self, Seq<Resource>), Error>
        decreases requests.len(),
    {
        if requests.len() == 0 {
            Ok((self, Seq::empty()))
        } else {
            match self.reserve(requests.drop_last()) {
                Err(e) => Err(e),
                Ok((s, done)) => match s.reserve_one(requests.last()) {
                    Err(e) => Err(e),
                    Ok((after, r)) => Ok((after, done.push(r))),
                },
            }
        }
    }

    /// Gives one resource back to its pool. A resource without an address
    /// holds nothing.
    pub open spec fn release_one(self, r: Resource) -> Self {
        match r.addr {
            Some(_) => ManagerState {
                pools: self.pools.released(pool_name(r.res_type), allocation_of(r)),
                ..self
            },
            None => self,
        }
    }

    /// Gives the resources back to their pools, one after the other.
    pub open spec fn release(self, resources: Seq<Resource>) -> Self
        decreases resources.len(),
    {
        if resources.len() == 0 {
            self
        } else {
            self.release(resources.drop_last()).release_one(resources.last())
        }
    }

    /// Puts one resource of `dev` on the bus of its kind, or fails where its
    /// range is not vacant there. Ranges that never trap, and resources
    /// without an address, are on no bus.
    pub open spec fn publish_one(self, dev: Arc<D>, r: Resource) -> Option<Self> {
        match (r.res_type, r.addr) {
            (IoType::Pio, Some(a)) => if is_vacant(self.pio_bus, a.0, r.size) {
                Some(ManagerState { pio_bus: self.pio_bus.insert(a.0, (r.size, dev)), ..self })
            } else {
                None
            },
            (IoType::Mmio, Some(a)) => if is_vacant(self.mmio_bus, a.0, r.size) {
                Some(ManagerState { mmio_bus: self.mmio_bus.insert(a.0, (r.size, dev)), ..self })
            } else {
                None
            },
            _ => Some(self),
        }
    }

    /// Puts the resources of `dev` on the buses, one after the other, or
    /// fails where one of them cannot be put there.
    pub open spec fn publish(self, dev: Arc<D>, resources: Seq<Resource>) -> Option<Self>
        decreases resources.len(),
    {
        if resources.len() == 0 {
            Some(self)
        } else {
            match self.publish(dev, resources.drop_last()) {
                None => None,
                Some(s) => s.publish_one(dev, resources.last()),
            }
        }
    }

    /// Takes one resource off the bus of its kind.
    pub open spec fn withdraw_one(self, r: Resource) -> Self {
        match (r.res_type, r.addr) {
            (IoType::Pio, Some(a)) => ManagerState { pio_bus: self.pio_bus.remove(a.0), ..self },
            (IoType::Mmio, Some(a)) => ManagerState { mmio_bus: self.mmio_bus.remove(a.0), ..self },
            _ => self,
        }
    }

    /// Takes the resources off the buses, one after the other.
    pub open spec fn withdraw(self, resources: Seq<Resource>) -> Self
        decreases resources.len(),
    {
        if resources.len() == 0 {
            self
        } else {
            self.withdraw(resources.drop_last()).withdraw_one(resources.last())
        }
    }

    /// What becomes of a device whose ranges are allocated: the state with
    /// the ranges that trap on the buses and the device recorded under
    /// `name`, or the reason why it is not.
    ///
    /// `lines` says what became of the interrupt lines of the device: `None`
    /// where it asks for none, `Some(None)` where they could not be set up,
    /// `Some(Some(g))` where they were set up as `g`.
    ///
    /// The name is looked at first, then the interrupt lines, then the
    /// ranges go on the buses.
    pub open spec fn attachment(
        self,
        name: Seq<char>,
        dev: Arc<D>,
        parent_bus: Option<Arc<D>>,
        resolved: Seq<Resource>,
        lines: Option<Option<Arc<G>>>,
    ) -> Result<Self, Error> {
        if self.devices.contains_key(name) {
            Err(Error::Exist)
        } else if lines == Some(None::<Arc<G>>) {
            Err(Error::InterruptGroup)
        } else {
            match self.publish(dev, resolved) {
                None => Err(Error::Overlap),
                Some(published) => Ok(
                    ManagerState {
                        devices: published.devices.insert(
                            name,
                            DescriptorView {
                                name,
                                device: dev,
                                parent_bus,
                                resources: resolved,
                                interrupt_group: match lines {
                                    Some(g) => g,
                                    None => None,
                                },
                            },
                        ),
                        ..published
                    },
                ),
            }
        }
    }

    /// What registering `dev` under `name` with these requests yields: the
    /// state with the device registered, or the reason why it is not.
    ///
    /// The name is looked at first, then the ranges are allocated, then the
    /// device is attached with the ranges it was given: see
    /// [`Self::attachment`], also for `lines`.
    pub open spec fn registration(
        self,
        name: Seq<char>,
        dev: Arc<D>,
        parent_bus: Option<Arc<D>>,
        requests: Seq<Resource>,
        lines: Option<Option<Arc<G>>>,
    ) -> Result<Self, Error> {
        if self.devices.contains_key(name) {
            Err(Error::Exist)
        } else {
            match self.reserve(requests) {
                Err(e) => Err(e),
                Ok((reserved, resolved)) => reserved.attachment(
                    name,
                    dev,
                    parent_bus,
                    resolved,
                    lines,
                ),
            }
        }
    }

    /// The ranges that a registration with these requests resolves to.
    pub open spec fn resolution(self, requests: Seq<Resource>) -> Seq<Resource> {
        match self.reserve(requests) {
            Ok((_, resolved)) => resolved,
            Err(_) => Seq::empty(),
        }
    }

    /// What unregistering the device named `name` yields: the state without
    /// the device, its ranges off the buses and back in their pools.
    pub open spec fn unregistration(self, name: Seq<char>) -> Result<Self, Error> {
        if !self.devices.contains_key(name) {
            Err(Error::NonExist)
        } else {
            let resources = self.devices[name].resources;
            Ok(
                ManagerState {
                    devices: self.devices.remove(name),
                    ..self.withdraw(resources).release(resources)
                },
            )
        }
    }

    /// The device that owns `addr` on the bus of kind `io_type`, if there is
    /// one. No device owns an address of a kind that never traps.
    pub open spec fn routed(self, addr: u64, io_type: IoType) -> Option<Arc<D>> {
        match io_type {
            IoType::Pio => match holder(self.pio_bus, addr) {
                Some(k) => Some(self.pio_bus[k].1),
                None => None,
            },
            IoType::Mmio => match holder(self.mmio_bus, addr) {
                Some(k) => Some(self.mmio_bus[k].1),
                None => None,
            },
            IoType::PhysicalMmio => None,
        }
    }

    /// Allocating for one request changes the pools only, keeps the state
    /// well-formed, and resolves the request where it was asked.
    pub proof fn lemma_reserve_one(self, q: Resource)
        requires
            self.wf(),
        ensures
            self.reserve_one(q) matches Ok((after, r)) ==> {
                &&& after.wf()
                &&& after == (ManagerState { pools: after.pools, ..self })
                &&& r.addr is Some
                &&& r.size == q.size
                &&& r.res_type == q.res_type
                &&& q.addr is Some ==> r.addr == q.addr
                &&& r.size > 0
                &&& r.addr.unwrap().0 + r.size <= u64::MAX
                &&& after.release_one(r) == self
            },
    {
        if let Ok((after, r)) = self.reserve_one(q) {
            let n = pool_name(q.res_type);
            self.pools.lemma_allocated_wf(n, request_of(q));
            self.pools.lemma_release_after_allocate(n, request_of(q));
            assert(self.pools.addr.contains_key(n));
            self.pools.addr[n].lemma_allocation(q.addr, q.size);
        }
    }

    /// Allocating for a sequence of requests changes the pools only, keeps
    /// the state well-formed, and resolves each request in its place.
    pub proof fn lemma_reserve(self, requests: Seq<Resource>)
        requires
            self.wf(),
        ensures
            self.reserve(requests) matches Ok((after, resolved)) ==> {
                &&& after.wf()
                &&& after == (ManagerState { pools: after.pools, ..self })
                &&& resolved.len() == requests.len()
                &&& forall|i: int|
                    0 <= i < resolved.len() ==> {
                        &&& (#[trigger] resolved[i]).addr is Some
                        &&& resolved[i].size == requests[i].size
                        &&& resolved[i].res_type == requests[i].res_type
                        &&& requests[i].addr is Some ==> resolved[i].addr == requests[i].addr
                        &&& resolved[i].size > 0
                        &&& resolved[i].addr.unwrap().0 + resolved[i].size <= u64::MAX
                    }
            },
        decreases requests.len(),
    {
        if requests.len() > 0 {
            self.lemma_reserve(requests.drop_last());
            if let Ok((s, done)) = self.reserve(requests.drop_last()) {
                s.lemma_reserve_one(requests.last());
            }
        }
    }

    /// Once a prefix of the requests fails, the whole sequence fails alike.
    pub proof fn lemma_reserve_prefix(self, requests: Seq<Resource>, n: int)
        requires
            0 <= n <= requests.len(),
            self.reserve(requests.take(n)) is Err,
        ensures
            self.reserve(requests) == self.reserve(requests.take(n)),
        decreases requests.len() - n,
    {
        if n < requests.len() {
            assert(requests.take(n + 1).drop_last() =~= requests.take(n));
            self.lemma_reserve_prefix(requests, n + 1);
        } else {
            assert(requests.take(n) =~= requests);
        }
    }

    /// It does not matter in which order two resources are released.
    pub proof fn lemma_release_one_commutes(self, a: Resource, b: Resource)
        ensures
            self.release_one(a).release_one(b) == self.release_one(b).release_one(a),
    {
        if a.addr is Some && b.addr is Some {
            self.pools.lemma_released_commutes(
                pool_name(a.res_type),
                allocation_of(a),
                pool_name(b.res_type),
                allocation_of(b),
            );
        }
    }

    /// Releasing one resource before or after a sequence of others comes to
    /// the same.
    pub proof fn lemma_release_commutes(self, resources: Seq<Resource>, r: Resource)
        ensures
            self.release(resources).release_one(r) == self.release_one(r).release(resources),
        decreases resources.len(),
    {
        if resources.len() > 0 {
            let init = resources.drop_last();
            let l = resources.last();
            self.release(init).lemma_release_one_commutes(l, r);
            self.lemma_release_commutes(init, r);
        }
    }

    /// Releasing keeps the state well-formed and changes the pools only.
    pub proof fn lemma_release(self, resources: Seq<Resource>)
        requires
            self.wf(),
        ensures
            self.release(resources).wf(),
            self.release(resources) == (ManagerState {
                pools: self.release(resources).pools,
                ..self
            }),
        decreases resources.len(),
    {
        if resources.len() > 0 {
            self.lemma_release(resources.drop_last());
            let s = self.release(resources.drop_last());
            let r = resources.last();
            if r.addr is Some {
                s.pools.lemma_released_wf(pool_name(r.res_type), allocation_of(r));
            }
        }
    }

    /// Releasing what a sequence of requests resolved to restores the state.
    pub proof fn lemma_release_after_reserve(self, requests: Seq<Resource>)
        requires
            self.wf(),
            self.reserve(requests) is Ok,
        ensures
            self.reserve(requests).unwrap().0.release(self.reserve(requests).unwrap().1) == self,
        decreases requests.len(),
    {
        if requests.len() > 0 {
            let (s, done) = self.reserve(requests.drop_last()).unwrap();
            let (after, r) = s.reserve_one(requests.last()).unwrap();
            self.lemma_reserve(requests.drop_last());
            s.lemma_reserve_one(requests.last());
            self.lemma_release_after_reserve(requests.drop_last());
            assert(done.push(r).drop_last() =~= done);
            after.lemma_release_commutes(done, r);
        }
    }

    /// Putting one resource on its bus changes the buses only and keeps the
    /// state well-formed, and taking it off again restores the state.
    pub proof fn lemma_publish_one(self, dev: Arc<D>, r: Resource)
        requires
            self.wf(),
        ensures
            self.publish_one(dev, r) matches Some(after) ==> {
                &&& after.wf()
                &&& after == (ManagerState {
                    mmio_bus: after.mmio_bus,
                    pio_bus: after.pio_bus,
                    ..self
                })
                &&& after.withdraw_one(r) == self
            },
    {
        if let Some(after) = self.publish_one(dev, r) {
            match (r.res_type, r.addr) {
                (IoType::Pio, Some(a)) => {
                    lemma_insert_wf(self.pio_bus, a.0, r.size, dev);
                    assert(after.pio_bus.remove(a.0) =~= self.pio_bus);
                },
                (IoType::Mmio, Some(a)) => {
                    lemma_insert_wf(self.mmio_bus, a.0, r.size, dev);
                    assert(after.mmio_bus.remove(a.0) =~= self.mmio_bus);
                },
                _ => {},
            }
        }
    }

    /// Putting resources on the buses changes the buses only and keeps the
    /// state well-formed.
    pub proof fn lemma_publish(self, dev: Arc<D>, resources: Seq<Resource>)
        requires
            self.wf(),
        ensures
            self.publish(dev, resources) matches Some(after) ==> {
                &&& after.wf()
                &&& after == (ManagerState {
                    mmio_bus: after.mmio_bus,
                    pio_bus: after.pio_bus,
                    ..self
                })
            },
        decreases resources.len(),
    {
        if resources.len() > 0 {
            self.lemma_publish(dev, resources.drop_last());
            if let Some(s) = self.publish(dev, resources.drop_last()) {
                s.lemma_publish_one(dev, resources.last());
            }
        }
    }

    /// Once a prefix of the resources cannot be put on the buses, neither
    /// can the whole sequence.
    pub proof fn lemma_publish_prefix(self, dev: Arc<D>, resources: Seq<Resource>, n: int)
        requires
            0 <= n <= resources.len(),
            self.publish(dev, resources.take(n)) is None,
        ensures
            self.publish(dev, resources) is None,
        decreases resources.len() - n,
    {
        if n < resources.len() {
            assert(resources.take(n + 1).drop_last() =~= resources.take(n));
            self.lemma_publish_prefix(dev, resources, n + 1);
        } else {
            assert(resources.take(n) =~= resources);
        }
    }

    /// It does not matter in which order two resources are taken off.
    pub proof fn lemma_withdraw_one_commutes(self, a: Resource, b: Resource)
        ensures
            self.withdraw_one(a).withdraw_one(b) == self.withdraw_one(b).withdraw_one(a),
    {
        let x = self.withdraw_one(a).withdraw_one(b);
        let y = self.withdraw_one(b).withdraw_one(a);
        assert(x.pio_bus =~= y.pio_bus);
        assert(x.mmio_bus =~= y.mmio_bus);
    }

    /// Taking one resource off before or after a sequence of others comes
    /// to the same.
    pub proof fn lemma_withdraw_commutes(self, resources: Seq<Resource>, r: Resource)
        ensures
            self.withdraw(resources).withdraw_one(r) == self.withdraw_one(r).withdraw(resources),
        decreases resources.len(),
    {
        if resources.len() > 0 {
            let init = resources.drop_last();
            let l = resources.last();
            self.withdraw(init).lemma_withdraw_one_commutes(l, r);
            self.lemma_withdraw_commutes(init, r);
        }
    }

    /// Taking resources off keeps the state well-formed and changes the
    /// buses only.
    pub proof fn lemma_withdraw(self, resources: Seq<Resource>)
        requires
            self.wf(),
        ensures
            self.withdraw(resources).wf(),
            self.withdraw(resources) == (ManagerState {
                mmio_bus: self.withdraw(resources).mmio_bus,
                pio_bus: self.withdraw(resources).pio_bus,
                ..self
            }),
        decreases resources.len(),
    {
        if resources.len() > 0 {
            self.lemma_withdraw(resources.drop_last());
            let s = self.withdraw(resources.drop_last());
            let r = resources.last();
            match (r.res_type, r.addr) {
                (IoType::Pio, Some(a)) => {
                    lemma_remove_wf(s.pio_bus, a.0);
                },
                (IoType::Mmio, Some(a)) => {
                    lemma_remove_wf(s.mmio_bus, a.0);
                },
                _ => {},
            }
        }
    }

    /// Taking off the buses what was just put there restores the state.
    pub proof fn lemma_withdraw_after_publish(self, dev: Arc<D>, resources: Seq<Resource>)
        requires
            self.wf(),
            self.publish(dev, resources) is Some,
        ensures
            self.publish(dev, resources).unwrap().withdraw(resources) == self,
        decreases resources.len(),
    {
        if resources.len() > 0 {
            let init = resources.drop_last();
            let r = resources.last();
            let s = self.publish(dev, init).unwrap();
            let after = s.publish_one(dev, r).unwrap();
            self.lemma_publish(dev, init);
            s.lemma_publish_one(dev, r);
            self.lemma_withdraw_after_publish(dev, init);
            after.lemma_withdraw_commutes(init, r);
        }
    }

    /// Once resources are on the buses, each of them that traps is there
    /// with its size, for the device it was put there for.
    pub proof fn lemma_published(self, dev: Arc<D>, resources: Seq<Resource>, i: int)
        requires
            self.wf(),
            self.publish(dev, resources) is Some,
            0 <= i < resources.len(),
            resources[i].addr is Some,
        ensures
            ({
                let after = self.publish(dev, resources).unwrap();
                let r = resources[i];
                let a = r.addr.unwrap().0;
                &&& r.res_type == IoType::Pio ==> after.pio_bus.contains_key(a) && after.pio_bus[a]
                    == (r.size, dev)
                &&& r.res_type == IoType::Mmio ==> after.mmio_bus.contains_key(a)
                    && after.mmio_bus[a] == (r.size, dev)
            }),
        decreases resources.len(),
    {
        let init = resources.drop_last();
        let s = self.publish(dev, init).unwrap();
        if i < resources.len() - 1 {
            self.lemma_publish(dev, init);
            self.lemma_published(dev, init, i);
            let r = resources[i];
            let a = r.addr.unwrap().0;
            if r.res_type == IoType::Pio {
                assert(s.pio_bus.contains_key(a));
            }
            if r.res_type == IoType::Mmio {
                assert(s.mmio_bus.contains_key(a));
            }
        }
    }

    /// The bus on which ranges of kind `t` are.
    pub open spec fn bus_of(self, t: IoType) -> BusMap<D> {
        match t {
            IoType::Pio => self.pio_bus,
            _ => self.mmio_bus,
        }
    }

    /// A registered device owns every address of each of its ranges that
    /// trap, the first and the last included. The address one past the end
    /// of such a range has no owner, unless another range starts right
    /// there.
    pub proof fn lemma_registered_routing(
        self,
        name: Seq<char>,
        dev: Arc<D>,
        parent_bus: Option<Arc<D>>,
        requests: Seq<Resource>,
        lines: Option<Option<Arc<G>>>,
        i: int,
        probe: u64,
    )
        requires
            self.wf(),
            self.registration(name, dev, parent_bus, requests, lines) is Ok,
            0 <= i < requests.len(),
            requests[i].res_type != IoType::PhysicalMmio,
        ensures
            ({
                let after = self.registration(name, dev, parent_bus, requests, lines).unwrap();
                let r = self.resolution(requests)[i];
                let t = requests[i].res_type;
                let start = r.addr.unwrap().0;
                &&& r.addr is Some
                &&& r.size == requests[i].size
                &&& r.size > 0
                &&& start + r.size <= u64::MAX
                &&& after.routed(start, t) == Some(dev)
                &&& after.routed((start + r.size - 1) as u64, t) == Some(dev)
                &&& start <= probe < start + r.size ==> after.routed(probe, t) == Some(dev)
                &&& !after.bus_of(t).contains_key((start + r.size) as u64) ==> after.routed(
                    (start + r.size) as u64,
                    t,
                ) is None
            }),
    {
        let (reserved, resolved) = self.reserve(requests).unwrap();
        let published = reserved.publish(dev, resolved).unwrap();
        self.lemma_reserve(requests);
        reserved.lemma_publish(dev, resolved);
        reserved.lemma_published(dev, resolved, i);
        let start = resolved[i].addr.unwrap().0;
        lemma_range_routing(published.bus_of(requests[i].res_type), start, probe);
    }

    /// A registration that succeeds yields a well-formed state.
    pub proof fn lemma_registration_wf(
        self,
        name: Seq<char>,
        dev: Arc<D>,
        parent_bus: Option<Arc<D>>,
        requests: Seq<Resource>,
        lines: Option<Option<Arc<G>>>,
    )
        requires
            self.wf(),
        ensures
            self.registration(name, dev, parent_bus, requests, lines) matches Ok(after)
                ==> after.wf(),
    {
        self.lemma_reserve(requests);
        if let Ok((reserved, resolved)) = self.reserve(requests) {
            reserved.lemma_publish(dev, resolved);
        }
    }

    /// Unregistering a device right after it was registered restores the
    /// state: every range is off the buses and back in its pool, and the
    /// name is free again.
    pub proof fn lemma_unregister_after_register(
        self,
        name: Seq<char>,
        dev: Arc<D>,
        parent_bus: Option<Arc<D>>,
        requests: Seq<Resource>,
        lines: Option<Option<Arc<G>>>,
    )
        requires
            self.wf(),
            self.registration(name, dev, parent_bus, requests, lines) is Ok,
        ensures
            self.registration(name, dev, parent_bus, requests, lines).unwrap().unregistration(name)
                == Ok::<Self, Error>(self),
    {
        let (reserved, resolved) = self.reserve(requests).unwrap();
        let published = reserved.publish(dev, resolved).unwrap();
        let registered = self.registration(name, dev, parent_bus, requests, lines).unwrap();
        self.lemma_reserve(requests);
        reserved.lemma_publish(dev, resolved);
        self.lemma_release_after_reserve(requests);
        reserved.lemma_withdraw_after_publish(dev, resolved);
        // The recorded device does not matter to the buses and the pools.
        registered.lemma_withdraw(resolved);
        published.lemma_withdraw(resolved);
        lemma_withdraw_ignores_devices(registered, published, resolved);
        let w = registered.withdraw(resolved);
        w.lemma_release(resolved);
        reserved.lemma_release(resolved);
        lemma_release_ignores_devices(w, reserved, resolved);
        assert(registered.devices.remove(name) =~= self.devices);
    }

    /// A device that was registered and unregistered is given the same
    /// ranges when it, or a device like it, is registered again with the
    /// same requests, and that registration succeeds.
    pub proof fn lemma_register_again(
        self,
        name: Seq<char>,
        dev: Arc<D>,
        parent_bus: Option<Arc<D>>,
        requests: Seq<Resource>,
        lines: Option<Option<Arc<G>>>,
        dev_again: Arc<D>,
    )
        requires
            self.wf(),
            self.registration(name, dev, parent_bus, requests, lines) is Ok,
        ensures
            ({
                let registered = self.registration(name, dev, parent_bus, requests, lines).unwrap();
                let back = registered.unregistration(name).unwrap();
                let again = back.registration(name, dev_again, parent_bus, requests, lines);
                &&& again is Ok
                &&& back.resolution(requests) == self.resolution(requests)
                &&& again.unwrap().devices[name].resources == registered.devices[name].resources
                &&& again.unwrap().pools == registered.pools
            }),
    {
        self.lemma_unregister_after_register(name, dev, parent_bus, requests, lines);
        let (reserved, resolved) = self.reserve(requests).unwrap();
        self.lemma_reserve(requests);
        lemma_publish_ignores_device(reserved, dev, dev_again, resolved);
        reserved.lemma_publish(dev, resolved);
        reserved.lemma_publish(dev_again, resolved);
    }
}

/// Manages the devices of a virtual machine.
///
/// The manager owns the resource pools, the record of every registered
/// device, and one bus each for memory-mapped and for port I/O. Ranges for
/// port I/O are allocated from the pool named `pio`, all others from the pool
/// named `mmio`.
pub struct DeviceManager<D: ?Sized + Device, M: ?Sized + InterruptManager> {
    irq_manager: Arc<M>,
    allocator: SystemAllocator,
    devices: Registry<DeviceDescriptor<D, M::Group>>,
    mmio_bus: Bus<D>,
    pio_bus: Bus<D>,
    pio_pool: String,
    mmio_pool: String,
}

impl<D: ?Sized + Device, M: ?Sized + InterruptManager> View for DeviceManager<D, M> {
    type V = ManagerState<D, M::Group>;

    closed spec fn view(&self) -> ManagerState<D, M::Group> {
        ManagerState {
            pools: self.allocator@,
            devices: self.devices@.map_values(|d: DeviceDescriptor<D, M::Group>| d@),
            mmio_bus: self.mmio_bus@,
            pio_bus: self.pio_bus@,
        }
    }
}

impl<D: ?Sized + Device, M: ?Sized + InterruptManager> DeviceManager<D, M> {
    /// The manager's invariant: well-formed pools, records and buses.
    pub closed spec fn wf(&self) -> bool {
        &&& self.allocator.wf()
        &&& self.devices.wf()
        &&& self.mmio_bus.wf()
        &&& self.pio_bus.wf()
        &&& self.pio_pool@ == "pio"@
        &&& self.mmio_pool@ == "mmio"@
    }

    /// A well-formed manager is in a well-formed state.
    pub proof fn lemma_wf(&self)
        requires
            self.wf(),
        ensures
            self@.wf(),
    {
        self.allocator.lemma_wf();
        self.mmio_bus.lemma_wf();
        self.pio_bus.lemma_wf();
    }

    /// A manager of the pools of `allocator`, without devices.
    pub fn new(irq_manager: Arc<M>, allocator: SystemAllocator) -> (r: Self)
        requires
            allocator.wf(),
        ensures
            r.wf(),
            r@ == (ManagerState::<D, M::Group> {
                pools: allocator@,
                devices: Map::empty(),
                mmio_bus: Map::empty(),
                pio_bus: Map::empty(),
            }),
    {
        let r = DeviceManager {
            irq_manager,
            allocator,
            devices: Registry::new(),
            mmio_bus: Bus::new(),
            pio_bus: Bus::new(),
            pio_pool: "pio".to_owned(),
            mmio_pool: "mmio".to_owned(),
        };
        proof {
            assert(r@.devices =~= Map::<Seq<char>, DescriptorView<D, M::Group>>::empty());
        }
        r
    }

    /// Allocates what the requests ask for, in their order, and returns the
    /// resolved resources.
    ///
    /// A port I/O request without an address is a `NonePIORequest`; a
    /// request that its pool cannot serve is an `Overlap`. On failure every
    /// range that was allocated for an earlier request is freed again, so
    /// the manager is as it was.
    pub fn allocate_io_resources(&mut self, requests: &Vec<Resource>) -> (r: Result<
        Vec<Resource>,
        Error,
    >)
        requires
            old(self).wf(),
        ensures
            final(self).wf(),
            match old(self)@.reserve(requests@) {
                Ok((after, resolved)) => r matches Ok(v) && v@ == resolved && final(self)@ == after,
                Err(e) => r == Err::<Vec<Resource>, Error>(e) && final(self)@ == old(self)@,
            },
    {
        let mut resolved: Vec<Resource> = Vec::new();
        let mut i: usize = 0;
        proof {
            self.lemma_wf();
            assert(requests@.take(0) =~= Seq::<Resource>::empty());
        }
        while i < requests.len()
            invariant
                self.wf(),
                old(self)@.wf(),
                0 <= i <= requests.len(),
                old(self)@.reserve(requests@.take(i as int)) == Ok::<
                    (ManagerState<D, M::Group>, Seq<Resource>),
                    Error,
                >((self@, resolved@)),
            decreases requests.len() - i,
        {
            let q = requests[i];
            let ghost before = self@;
            let ghost done = resolved@;
            proof {
                self.lemma_wf();
                assert(requests@.take(i + 1).drop_last() =~= requests@.take(i as int));
                assert(requests@.take(i + 1).last() == q);
                before.lemma_reserve_one(q);
            }
            let granted: Result<GuestAddress, Error> = match (q.res_type, q.addr) {
                (IoType::Pio, None) => Err(Error::NonePIORequest),
                (IoType::Pio, _) => {
                    match self.allocator.allocate(
                        &self.pio_pool,
                        Request::Address { address: q.addr, size: q.size },
                    ) {
                        Ok(Allocation::Address { address, size }) => Ok(address),
                        _ => Err(Error::Overlap),
                    }
                },
                _ => {
                    match self.allocator.allocate(
                        &self.mmio_pool,
                        Request::Address { address: q.addr, size: q.size },
                    ) {
                        Ok(Allocation::Address { address, size }) => Ok(address),
                        _ => Err(Error::Overlap),
                    }
                },
            };
            match granted {
                Ok(address) => {
                    resolved.push(Resource { addr: Some(address), size: q.size, res_type: q.res_type });
                    proof {
                        assert(before.reserve_one(q) == Ok::<
                            (ManagerState<D, M::Group>, Resource),
                            Error,
                        >((self@, resolved@.last())));
                        assert(resolved@ =~= done.push(resolved@.last()));
                    }
                },
                Err(e) => {
                    proof {
                        if !(q.res_type == IoType::Pio && q.addr is None) {
                            before.pools.lemma_allocated_unchanged(
                                pool_name(q.res_type),
                                request_of(q),
                            );
                        }
                        assert(self@ == before);
                        assert(before.reserve_one(q) == Err::<
                            (ManagerState<D, M::Group>, Resource),
                            Error,
                        >(e));
                        old(self)@.lemma_reserve_prefix(requests@, i + 1);
                        old(self)@.lemma_release_after_reserve(requests@.take(i as int));
                    }
                    self.free_io_resources(&resolved);
                    return Err(e);
                },
            }
            i += 1;
        }
        proof {
            assert(requests@.take(i as int) =~= requests@);
        }
        Ok(resolved)
    }

    /// Gives the resolved resources back to their pools, in their order.
    ///
    /// A range goes back only if exactly it is allocated.
    pub fn free_io_resources(&mut self, resources: &Vec<Resource>)
        requires
            old(self).wf(),
        ensures
            final(self).wf(),
            final(self)@ == old(self)@.release(resources@),
    {
        let mut i: usize = 0;
        proof {
            assert(resources@.take(0) =~= Seq::<Resource>::empty());
        }
        while i < resources.len()
            invariant
                self.wf(),
                0 <= i <= resources.len(),
                self@ == old(self)@.release(resources@.take(i as int)),
            decreases resources.len() - i,
        {
            let r = resources[i];
            proof {
                assert(resources@.take(i + 1).drop_last() =~= resources@.take(i as int));
                assert(resources@.take(i + 1).last() == r);
            }
            match (r.res_type, r.addr) {
                (_, None) => {},
                (IoType::Pio, Some(a)) => {
                    let _ = self.allocator.free(
                        &self.pio_pool,
                        Allocation::Address { address: a, size: r.size },
                    );
                },
                (_, Some(a)) => {
                    let _ = self.allocator.free(
                        &self.mmio_pool,
                        Allocation::Address { address: a, size: r.size },
                    );
                },
            }
            i += 1;
        }
        proof {
            assert(resources@.take(i as int) =~= resources@);
        }
    }

    /// Puts the resolved resources of `dev` on the buses, in their order.
    ///
    /// Ranges that never trap are left out. Where a range is not vacant on
    /// its bus the result is an `Overlap`, and every range that was put on a
    /// bus for an earlier resource is taken off again.
    pub fn register_io_resources(&mut self, dev: Arc<D>, resources: &Vec<Resource>) -> (r: Result<
        (),
        Error,
    >)
        requires
            old(self).wf(),
        ensures
            final(self).wf(),
            match old(self)@.publish(dev, resources@) {
                Some(after) => r is Ok && final(self)@ == after,
                None => r == Err::<(), Error>(Error::Overlap) && final(self)@ == old(self)@,
            },
    {
        let mut i: usize = 0;
        proof {
            self.lemma_wf();
            assert(resources@.take(0) =~= Seq::<Resource>::empty());
        }
        while i < resources.len()
            invariant
                self.wf(),
                old(self)@.wf(),
                0 <= i <= resources.len(),
                old(self)@.publish(dev, resources@.take(i as int)) == Some(self@),
            decreases resources.len() - i,
        {
            let r = resources[i];
            let ghost before = self@;
            proof {
                assert(resources@.take(i + 1).drop_last() =~= resources@.take(i as int));
                assert(resources@.take(i + 1).last() == r);
            }
            let put: bool = match (r.res_type, r.addr) {
                (IoType::Pio, Some(a)) => self.pio_bus.insert(Range(a, r.size), dev.clone()),
                (IoType::Mmio, Some(a)) => self.mmio_bus.insert(Range(a, r.size), dev.clone()),
                _ => true,
            };
            if !put {
                proof {
                    assert(self@ == before);
                    assert(before.publish_one(dev, r) is None);
                    old(self)@.lemma_publish_prefix(dev, resources@, i + 1);
                    old(self)@.lemma_withdraw_after_publish(dev, resources@.take(i as int));
                }
                self.unregister_first(resources, i);
                return Err(Error::Overlap);
            }
            proof {
                assert(before.publish_one(dev, r) == Some(self@));
            }
            i += 1;
        }
        proof {
            assert(resources@.take(i as int) =~= resources@);
        }
        Ok(())
    }

    /// Takes the first `n` of the resolved resources off the buses.
    fn unregister_first(&mut self, resources: &Vec<Resource>, n: usize)
        requires
            old(self).wf(),
            n <= resources.len(),
        ensures
            final(self).wf(),
            final(self)@ == old(self)@.withdraw(resources@.take(n as int)),
    {
        let mut i: usize = 0;
        proof {
            assert(resources@.take(0) =~= Seq::<Resource>::empty());
        }
        while i < n
            invariant
                self.wf(),
                0 <= i <= n <= resources.len(),
                self@ == old(self)@.withdraw(resources@.take(i as int)),
            decreases n - i,
        {
            let r = resources[i];
            proof {
                assert(resources@.take(i + 1).drop_last() =~= resources@.take(i as int));
                assert(resources@.take(i + 1).last() == r);
            }
            match (r.res_type, r.addr) {
                (IoType::Pio, Some(a)) => {
                    let _ = self.pio_bus.remove(a);
                },
                (IoType::Mmio, Some(a)) => {
                    let _ = self.mmio_bus.remove(a);
                },
                _ => {},
            }
            i += 1;
        }
    }

    /// Takes the resolved resources off the buses, in their order.
    pub fn unregister_io_resources(&mut self, resources: &Vec<Resource>)
        requires
            old(self).wf(),
        ensures
            final(self).wf(),
            final(self)@ == old(self)@.withdraw(resources@),
    {
        proof {
            assert(resources@.take(resources@.len() as int) =~= resources@);
        }
        self.unregister_first(resources, resources.len());
    }

    /// Attaches a device whose ranges are allocated.
    ///
    /// `resolved` holds the ranges that were allocated for the device, and
    /// `lines` what came of setting up its interrupt lines, if it asked for
    /// any. The ranges that trap go on the buses, the device is told what it
    /// was given, and it is recorded under `name`.
    ///
    /// Where the name is taken the result is `Exist`, where the interrupt
    /// lines could not be set up it is `InterruptGroup`, and where a range is
    /// not vacant on its bus it is `Overlap`. In each of these cases nothing
    /// stays on a bus and the ranges of `resolved` are given back to their
    /// pools.
    pub fn attach(
        &mut self,
        name: String,
        dev: Arc<D>,
        parent_bus: Option<Arc<D>>,
        resolved: Vec<Resource>,
        lines: Option<Result<Arc<M::Group>, InterruptError>>,
    ) -> (r: Result<(), Error>)
        requires
            old(self).wf(),
        ensures
            final(self).wf(),
            match old(self)@.attachment(name@, dev, parent_bus, resolved@, lines_of(lines)) {
                Ok(after) => r is Ok && final(self)@ == after,
                Err(e) => r == Err::<(), Error>(e) && final(self)@ == old(self)@.release(
                    resolved@,
                ),
            },
    {
        if self.devices.contains_key(&name) {
            self.free_io_resources(&resolved);
            return Err(Error::Exist);
        }
        let group: Option<Arc<M::Group>> = match lines {
            Some(Ok(g)) => Some(g),
            Some(Err(_)) => {
                self.free_io_resources(&resolved);
                return Err(Error::InterruptGroup);
            },
            None => None,
        };
        if let Err(e) = self.register_io_resources(dev.clone(), &resolved) {
            self.free_io_resources(&resolved);
            return Err(e);
        }
        dev.set_resources(resolved.as_slice());
        let ghost published = self@;
        let ghost n = name@;
        proof {
            old(self).lemma_wf();
            old(self)@.lemma_publish(dev, resolved@);
            assert(!self.devices@.contains_key(n));
        }
        let descriptor = DeviceDescriptor::new(name.clone(), dev, parent_bus, resolved, group);
        let _ = self.devices.insert(name, descriptor);
        proof {
            assert(self@.devices =~= published.devices.insert(n, descriptor@));
        }
        Ok(())
    }

    /// Registers `dev` under `name` with the resources it asks for.
    ///
    /// The name must be free. The ranges are allocated, the interrupt lines,
    /// if `interrupt` asks for any, are set up, the ranges that trap go on
    /// the buses, the device is told what it was given, and it is recorded.
    /// A registration that fails leaves the manager as it was: no range stays
    /// allocated, none is on a bus, and the device is not recorded.
    ///
    /// Whether the interrupt lines can be set up is for the interrupt manager
    /// to say. For what it said, the outcome is that of
    /// [`ManagerState::registration`]; where no lines are asked for, that
    /// outcome depends on the arguments alone.
    pub fn register_named(
        &mut self,
        name: String,
        dev: Arc<D>,
        parent_bus: Option<Arc<D>>,
        resources: &Vec<Resource>,
        interrupt: Option<InterruptRequest>,
    ) -> (r: Result<(), Error>)
        requires
            old(self).wf(),
        ensures
            final(self).wf(),
            r is Err ==> final(self)@ == old(self)@,
            exists|lines: Option<Option<Arc<M::Group>>>|
                {
                    &&& lines is Some <==> interrupt is Some
                    &&& match #[trigger] old(self)@.registration(
                        name@,
                        dev,
                        parent_bus,
                        resources@,
                        lines,
                    ) {
                        Ok(after) => r is Ok && final(self)@ == after,
                        Err(e) => r == Err::<(), Error>(e),
                    }
                },
    {
        let ghost n = name@;
        let ghost no_lines: Option<Option<Arc<M::Group>>> = if interrupt is Some {
            Some(None)
        } else {
            None
        };
        proof {
            self.lemma_wf();
        }
        // The name must be free before anything is allocated.
        if self.devices.contains_key(&name) {
            proof {
                assert(old(self)@.registration(n, dev, parent_bus, resources@, no_lines) == Err::<
                    ManagerState<D, M::Group>,
                    Error,
                >(Error::Exist));
            }
            return Err(Error::Exist);
        }
        let resolved = match self.allocate_io_resources(resources) {
            Ok(v) => v,
            Err(e) => {
                proof {
                    assert(old(self)@.registration(n, dev, parent_bus, resources@, no_lines)
                        == Err::<ManagerState<D, M::Group>, Error>(e));
                }
                return Err(e);
            },
        };
        let outcome: Option<Result<Arc<M::Group>, InterruptError>> = match interrupt {
            Some(request) => Some(
                self.irq_manager.create_group(request.kind, request.base, request.count),
            ),
            None => None,
        };
        let ghost lines = lines_of(outcome);
        let ghost given = resolved@;
        let r = self.attach(name, dev, parent_bus, resolved, outcome);
        proof {
            old(self)@.lemma_reserve(resources@);
            old(self)@.lemma_release_after_reserve(resources@);
            let reserved = old(self)@.reserve(resources@).unwrap().0;
            assert(old(self)@.registration(n, dev, parent_bus, resources@, lines)
                == reserved.attachment(n, dev, parent_bus, given, lines));
        }
        r
    }

    /// Registers `dev` with the resources it asks for, under the name that
    /// the device reports.
    ///
    /// For that name, this is [`Self::register_named`].
    pub fn register_device(
        &mut self,
        dev: Arc<D>,
        parent_bus: Option<Arc<D>>,
        resources: &Vec<Resource>,
        interrupt: Option<InterruptRequest>,
    ) -> (r: Result<(), Error>)
        requires
            old(self).wf(),
        ensures
            final(self).wf(),
            r is Err ==> final(self)@ == old(self)@,
            exists|name: Seq<char>, lines: Option<Option<Arc<M::Group>>>|
                {
                    &&& lines is Some <==> interrupt is Some
                    &&& match #[trigger] old(self)@.registration(
                        name,
                        dev,
                        parent_bus,
                        resources@,
                        lines,
                    ) {
                        Ok(after) => r is Ok && final(self)@ == after,
                        Err(e) => r == Err::<(), Error>(e),
                    }
                },
    {
        let name = dev.name();
        self.register_named(name, dev, parent_bus, resources, interrupt)
    }

    /// Unregisters the device recorded under `name`.
    ///
    /// Its ranges are taken off the buses and given back to their pools.
    /// Where no device bears the name the result is `NonExist` and nothing
    /// changes.
    pub fn unregister_named(&mut self, name: &String) -> (r: Result<(), Error>)
        requires
            old(self).wf(),
        ensures
            final(self).wf(),
            match old(self)@.unregistration(name@) {
                Ok(after) => r is Ok && final(self)@ == after,
                Err(e) => r == Err::<(), Error>(e) && final(self)@ == old(self)@,
            },
    {
        match self.devices.remove(name) {
            Some(descriptor) => {
                let ghost removed = self@;
                proof {
                    assert(removed.devices =~= old(self)@.devices.remove(name@));
                    self.lemma_wf();
                    old(self).lemma_wf();
                    lemma_withdraw_ignores_devices(removed, old(self)@, descriptor.resources@);
                    removed.lemma_withdraw(descriptor.resources@);
                    old(self)@.lemma_withdraw(descriptor.resources@);
                }
                self.unregister_io_resources(&descriptor.resources);
                proof {
                    let a = self@;
                    let b = old(self)@.withdraw(descriptor.resources@);
                    lemma_release_ignores_devices(a, b, descriptor.resources@);
                    a.lemma_release(descriptor.resources@);
                    b.lemma_release(descriptor.resources@);
                }
                self.free_io_resources(&descriptor.resources);
                Ok(())
            },
            None => {
                proof {
                    assert(self@.devices =~= old(self)@.devices);
                }
                Err(Error::NonExist)
            },
        }
    }

    /// Unregisters `dev`, which is looked up under the name it reports.
    ///
    /// For that name the outcome is that of
    /// [`ManagerState::unregistration`].
    pub fn unregister_device(&mut self, dev: Arc<D>) -> (r: Result<(), Error>)
        requires
            old(self).wf(),
        ensures
            final(self).wf(),
            exists|name: Seq<char>|
                match #[trigger] old(self)@.unregistration(name) {
                    Ok(after) => r is Ok && final(self)@ == after,
                    Err(e) => r == Err::<(), Error>(e) && final(self)@ == old(self)@,
                },
    {
        let name = dev.name();
        let r = self.unregister_named(&name);
        proof {
            let n = name@;
            assert(match old(self)@.unregistration(n) {
                Ok(after) => r is Ok && self@ == after,
                Err(e) => r == Err::<(), Error>(e) && self@ == old(self)@,
            });
        }
        r
    }

    /// The device that owns the address `addr` of kind `io_type`, if there
    /// is one.
    pub fn get_device(&self, addr: GuestAddress, io_type: IoType) -> (r: Option<Arc<D>>)
        requires
            self.wf(),
        ensures
            r == self@.routed(addr.0, io_type),
    {
        let found = match io_type {
            IoType::Pio => self.pio_bus.lookup(addr),
            IoType::Mmio => self.mmio_bus.lookup(addr),
            IoType::PhysicalMmio => None,
        };
        match found {
            Some((_, dev)) => Some(dev),
            None => None,
        }
    }

    /// Has the device that owns `addr` read into `data`.
    ///
    /// Where no device owns the address the result is `NonExist`, and `data`
    /// is left as it was.
    pub fn read(&self, addr: GuestAddress, data: &mut [u8], io_type: IoType) -> (r: Result<
        (),
        Error,
    >)
        requires
            self.wf(),
        ensures
            r is Ok <==> self@.routed(addr.0, io_type) is Some,
            r matches Err(e) ==> e == Error::NonExist && final(data)@ == old(data)@,
    {
        match self.get_device(addr, io_type) {
            Some(dev) => {
                dev.read(addr, data, io_type);
                Ok(())
            },
            None => Err(Error::NonExist),
        }
    }

    /// Has the device that owns `addr` take the write of `data`.
    ///
    /// Where no device owns the address the result is `NonExist`.
    pub fn write(&self, addr: GuestAddress, data: &[u8], io_type: IoType) -> (r: Result<(), Error>)
        requires
            self.wf(),
        ensures
            r is Ok <==> self@.routed(addr.0, io_type) is Some,
            r matches Err(e) ==> e == Error::NonExist,
    {
        match self.get_device(addr, io_type) {
            Some(dev) => {
                dev.write(addr, data, io_type);
                Ok(())
            },
            None => Err(Error::NonExist),
        }
    }
}

/// Whether resources can be put on the buses does not depend on the device
/// they belong to.
pub proof fn lemma_publish_ignores_device<D: ?Sized, G: ?Sized>(
    s: ManagerState<D, G>,
    a: Arc<D>,
    b: Arc<D>,
    resources: Seq<Resource>,
)
    ensures
        s.publish(a, resources) is Some <==> s.publish(b, resources) is Some,
        s.publish(a, resources) matches Some(x) ==> s.publish(b, resources) matches Some(y)
            && x.pio_bus.dom() == y.pio_bus.dom() && x.mmio_bus.dom() == y.mmio_bus.dom()
            && (forall|k: u64| #[trigger] x.pio_bus.contains_key(k) ==> x.pio_bus[k].0 == y.pio_bus[k].0)
            && (forall|k: u64| #[trigger]
            x.mmio_bus.contains_key(k) ==> x.mmio_bus[k].0 == y.mmio_bus[k].0) && x.pools == y.pools
            && x.devices == y.devices,
    decreases resources.len(),
{
    if resources.len() > 0 {
        lemma_publish_ignores_device(s, a, b, resources.drop_last());
        if let Some(x) = s.publish(a, resources.drop_last()) {
            let y = s.publish(b, resources.drop_last()).unwrap();
            let r = resources.last();
            match (r.res_type, r.addr) {
                (IoType::Pio, Some(addr)) => {
                    assert(is_vacant(x.pio_bus, addr.0, r.size) <==> is_vacant(
                        y.pio_bus,
                        addr.0,
                        r.size,
                    )) by {
                        if is_vacant(x.pio_bus, addr.0, r.size) {
                            assert forall|k: u64| #[trigger] y.pio_bus.contains_key(k) implies k
                                != addr.0 && (k + y.pio_bus[k].0 <= addr.0 || addr.0 + r.size
                                <= k) by {
                                assert(x.pio_bus.contains_key(k));
                            }
                        }
                        if is_vacant(y.pio_bus, addr.0, r.size) {
                            assert forall|k: u64| #[trigger] x.pio_bus.contains_key(k) implies k
                                != addr.0 && (k + x.pio_bus[k].0 <= addr.0 || addr.0 + r.size
                                <= k) by {
                                assert(y.pio_bus.contains_key(k));
                            }
                        }
                    }
                    if let Some(x2) = x.publish_one(a, r) {
                        let y2 = y.publish_one(b, r).unwrap();
                        assert(x2.pio_bus.dom() =~= y2.pio_bus.dom());
                    }
                },
                (IoType::Mmio, Some(addr)) => {
                    assert(is_vacant(x.mmio_bus, addr.0, r.size) <==> is_vacant(
                        y.mmio_bus,
                        addr.0,
                        r.size,
                    )) by {
                        if is_vacant(x.mmio_bus, addr.0, r.size) {
                            assert forall|k: u64| #[trigger] y.mmio_bus.contains_key(k) implies k
                                != addr.0 && (k + y.mmio_bus[k].0 <= addr.0 || addr.0 + r.size
                                <= k) by {
                                assert(x.mmio_bus.contains_key(k));
                            }
                        }
                        if is_vacant(y.mmio_bus, addr.0, r.size) {
                            assert forall|k: u64| #[trigger] x.mmio_bus.contains_key(k) implies k
                                != addr.0 && (k + x.mmio_bus[k].0 <= addr.0 || addr.0 + r.size
                                <= k) by {
                                assert(y.mmio_bus.contains_key(k));
                            }
                        }
                    }
                    if let Some(x2) = x.publish_one(a, r) {
                        let y2 = y.publish_one(b, r).unwrap();
                        assert(x2.mmio_bus.dom() =~= y2.mmio_bus.dom());
                    }
                },
                _ => {},
            }
        }
    }
}

/// What is taken off the buses does not depend on the recorded devices.
pub proof fn lemma_withdraw_ignores_devices<D: ?Sized, G: ?Sized>(
    a: ManagerState<D, G>,
    b: ManagerState<D, G>,
    resources: Seq<Resource>,
)
    requires
        a.mmio_bus == b.mmio_bus,
        a.pio_bus == b.pio_bus,
    ensures
        a.withdraw(resources).mmio_bus == b.withdraw(resources).mmio_bus,
        a.withdraw(resources).pio_bus == b.withdraw(resources).pio_bus,
    decreases resources.len(),
{
    if resources.len() > 0 {
        lemma_withdraw_ignores_devices(a, b, resources.drop_last());
    }
}

/// What is given back to the pools does not depend on the recorded devices
/// nor on the buses.
pub proof fn lemma_release_ignores_devices<D: ?Sized, G: ?Sized>(
    a: ManagerState<D, G>,
    b: ManagerState<D, G>,
    resources: Seq<Resource>,
)
    requires
        a.pools == b.pools,
    ensures
        a.release(resources).pools == b.release(resources).pools,
    decreases resources.len(),
{
    if resources.len() > 0 {
        lemma_release_ignores_devices(a, b, resources.drop_last());
    }
}

} // verus!

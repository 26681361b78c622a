//! A registry of named resource pools: address allocators and identifier
//! allocators, each kind under names of its own.

use crate::address::{AddressAllocator, AddressSpace};
use crate::id::{IdAllocator, IdSpace};
use crate::registry::Registry;
use crate::resource;
use crate::resource::{Allocation, Request};
use vstd::prelude::*;

verus! {

/// Why a pool could not be registered.
#[derive(Debug, Clone, Copy, PartialEq, Eq)]
pub enum Error {
    /// A pool of the same kind is already registered under the name.
    Exist,
}

/// The mathematical content of a [`SystemAllocator`]: the address spaces
/// and the identifier spaces, by name.
pub struct SystemSpace {
    pub addr: Map<Seq<char>, AddressSpace>,
    pub id: Map<Seq<char>, IdSpace>,
}

impl SystemSpace {
    /// Every registered pool is well-formed.
    pub open spec fn wf(self) -> bool {
        &&& forall|n: Seq<char>| #[trigger] self.addr.contains_key(n) ==> self.addr[n].wf()
        &&& forall|n: Seq<char>| #[trigger] self.id.contains_key(n) ==> self.id[n].wf()
    }

    /// What a request to the pool named `name` yields.
    ///
    /// The request goes to the pool of its kind under that name. Where only
    /// a pool of the other kind bears the name, the request is `Invalid`;
    /// where no pool does, it is `OutofScope`.
    pub open spec fn allocation(self, name: Seq<char>, request: Request) -> Result<
        Allocation,
        resource::Error,
    > {
        match request {
            Request::Address { address, size } => if self.addr.contains_key(name) {
                match self.addr[name].allocation(address, size) {
                    Ok(a) => Ok(Allocation::Address { address: a, size }),
                    Err(e) => Err(resource::Error::spec_from_address(e)),
                }
            } else if self.id.contains_key(name) {
                Err(resource::Error::Invalid)
            } else {
                Err(resource::Error::OutofScope)
            },
            Request::Id(number) => if self.id.contains_key(name) {
                match self.id[name].allocation(number) {
                    Ok(v) => Ok(Allocation::Id(v)),
                    Err(e) => Err(resource::Error::spec_from_id(e)),
                }
            } else if self.addr.contains_key(name) {
                Err(resource::Error::Invalid)
            } else {
                Err(resource::Error::OutofScope)
            },
        }
    }

    /// The pools after a request to the pool named `name`: only that pool
    /// changes, and only where the request succeeds.
    pub open spec fn allocated(self, name: Seq<char>, request: Request) -> SystemSpace {
        match request {
            Request::Address { address, size } => if self.addr.contains_key(name) {
                SystemSpace {
                    addr: self.addr.insert(name, self.addr[name].allocated(address, size)),
                    ..self
                }
            } else {
                self
            },
            Request::Id(number) => if self.id.contains_key(name) {
                SystemSpace { id: self.id.insert(name, self.id[name].allocated(number)), ..self }
            } else {
                self
            },
        }
    }

    /// Whether the pool named `name` takes back a resource of this kind.
    pub open spec fn release(self, name: Seq<char>, resource: Allocation) -> Result<
        (),
        resource::Error,
    > {
        match resource {
            Allocation::Address { .. } => if self.addr.contains_key(name) {
                Ok(())
            } else if self.id.contains_key(name) {
                Err(resource::Error::Invalid)
            } else {
                Err(resource::Error::OutofScope)
            },
            Allocation::Id(_) => if self.id.contains_key(name) {
                Ok(())
            } else if self.addr.contains_key(name) {
                Err(resource::Error::Invalid)
            } else {
                Err(resource::Error::OutofScope)
            },
        }
    }

    /// The pools after `resource` is given back to the pool named `name`.
    pub open spec fn released(self, name: Seq<char>, resource: Allocation) -> SystemSpace {
        match resource {
            Allocation::Address { address, size } => if self.addr.contains_key(name) {
                SystemSpace {
                    addr: self.addr.insert(name, self.addr[name].released(address.0, size)),
                    ..self
                }
            } else {
                self
            },
            Allocation::Id(v) => if self.id.contains_key(name) {
                SystemSpace { id: self.id.insert(name, self.id[name].without_id(v)), ..self }
            } else {
                self
            },
        }
    }

    /// Requests keep the pools well-formed.
    pub proof fn lemma_allocated_wf(self, name: Seq<char>, request: Request)
        requires
            self.wf(),
        ensures
            self.allocated(name, request).wf(),
    {
        match request {
            Request::Address { address, size } => {
                if self.addr.contains_key(name) {
                    self.addr[name].lemma_allocation(address, size);
                }
            },
            Request::Id(number) => {
                if self.id.contains_key(name) {
                    self.id[name].lemma_allocated(number);
                }
            },
        }
    }

    /// A request that fails leaves the pools as they were.
    pub proof fn lemma_allocated_unchanged(self, name: Seq<char>, request: Request)
        requires
            self.allocation(name, request) is Err,
        ensures
            self.allocated(name, request) == self,
    {
        let after = self.allocated(name, request);
        assert(after.addr =~= self.addr);
        assert(after.id =~= self.id);
    }

    /// Giving a resource back keeps the pools well-formed.
    pub proof fn lemma_released_wf(self, name: Seq<char>, resource: Allocation)
        requires
            self.wf(),
        ensures
            self.released(name, resource).wf(),
    {
        match resource {
            Allocation::Address { address, size } => {
                if self.addr.contains_key(name) {
                    self.addr[name].lemma_released_wf(address.0, size);
                }
            },
            Allocation::Id(v) => {},
        }
    }

    /// Giving back what a request just yielded restores the pools.
    pub proof fn lemma_release_after_allocate(self, name: Seq<char>, request: Request)
        requires
            self.wf(),
            self.allocation(name, request) is Ok,
        ensures
            self.allocated(name, request).released(name, self.allocation(name, request).unwrap())
                == self,
    {
        let after = self.allocated(name, request);
        let back = after.released(name, self.allocation(name, request).unwrap());
        match request {
            Request::Address { address, size } => {
                self.addr[name].lemma_free_after_allocate(address, size);
                assert(back.addr =~= self.addr);
            },
            Request::Id(number) => {
                self.id[name].lemma_free_after_allocate(number);
                assert(back.id =~= self.id);
            },
        }
    }

    /// It does not matter in which order two resources are given back.
    pub proof fn lemma_released_commutes(
        self,
        n1: Seq<char>,
        r1: Allocation,
        n2: Seq<char>,
        r2: Allocation,
    )
        ensures
            self.released(n1, r1).released(n2, r2) == self.released(n2, r2).released(n1, r1),
    {
        let a = self.released(n1, r1).released(n2, r2);
        let b = self.released(n2, r2).released(n1, r1);
        match (r1, r2) {
            (
                Allocation::Address { address: a1, size: s1 },
                Allocation::Address { address: a2, size: s2 },
            ) => {
                if n1 == n2 && self.addr.contains_key(n1) {
                    let sp = self.addr[n1];
                    let x = sp.released(a1.0, s1).released(a2.0, s2);
                    let y = sp.released(a2.0, s2).released(a1.0, s1);
                    assert(x.ranges =~= y.ranges);
                }
                assert(a.addr =~= b.addr);
            },
            (Allocation::Id(v1), Allocation::Id(v2)) => {
                if n1 == n2 && self.id.contains_key(n1) {
                    let sp = self.id[n1];
                    assert(sp.without_id(v1).without_id(v2).used =~= sp.without_id(v2).without_id(
                        v1,
                    ).used);
                }
                assert(a.id =~= b.id);
            },
            _ => {},
        }
    }
}

/// The resource pools of a virtual machine, by name.
///
/// Address pools and identifier pools are registered apart, since they hand
/// out values of different kinds. Two pools of one kind under different
/// names are independent of each other.
pub struct SystemAllocator {
    addr_alloc: Registry<AddressAllocator>,
    id_alloc: Registry<IdAllocator>,
}

impl View for SystemAllocator {
    type V = SystemSpace;

    closed spec fn view(&self) -> SystemSpace {
        SystemSpace {
            addr: self.addr_alloc@.map_values(|a: AddressAllocator| a@),
            id: self.id_alloc@.map_values(|a: IdAllocator| a@),
        }
    }
}

impl Default for SystemAllocator {
    /// An allocator without pools.
    fn default() -> (r: Self)
        ensures
            r.wf(),
            r@ == (SystemSpace { addr: Map::empty(), id: Map::empty() }),
    {
        SystemAllocator::new()
    }
}

impl SystemAllocator {
    /// The allocator's invariant: names are distinct within each kind, and
    /// every pool is well-formed.
    pub closed spec fn wf(&self) -> bool {
        &&& self.addr_alloc.wf()
        &&& self.id_alloc.wf()
        &&& forall|n: Seq<char>| #[trigger]
            self.addr_alloc@.contains_key(n) ==> self.addr_alloc@[n].wf()
        &&& forall|n: Seq<char>| #[trigger] self.id_alloc@.contains_key(n) ==> self.id_alloc@[n].wf()
    }

    /// A well-formed allocator holds well-formed pools.
    pub proof fn lemma_wf(&self)
        requires
            self.wf(),
        ensures
            self@.wf(),
    {
        assert forall|n: Seq<char>| #[trigger] self@.addr.contains_key(n) implies self@.addr[n].wf() by {
            assert(self.addr_alloc@.contains_key(n));
        }
        assert forall|n: Seq<char>| #[trigger] self@.id.contains_key(n) implies self@.id[n].wf() by {
            assert(self.id_alloc@.contains_key(n));
        }
    }

    /// An allocator without pools.
    pub fn new() -> (r: Self)
        ensures
            r.wf(),
            r@ == (SystemSpace { addr: Map::empty(), id: Map::empty() }),
    {
        let r = SystemAllocator { addr_alloc: Registry::new(), id_alloc: Registry::new() };
        proof {
            assert(r@.addr =~= Map::<Seq<char>, AddressSpace>::empty());
            assert(r@.id =~= Map::<Seq<char>, IdSpace>::empty());
        }
        r
    }

    /// Registers an address pool under `allocator_name`.
    ///
    /// Fails with `Exist`, and changes nothing, if an address pool already
    /// bears the name.
    pub fn add_addr_allocator(&mut self, allocator_name: String, allocator: AddressAllocator) -> (r:
        Result<(), Error>)
        requires
            old(self).wf(),
            allocator.wf(),
        ensures
            final(self).wf(),
            r is Err <==> old(self)@.addr.contains_key(allocator_name@),
            r matches Err(e) ==> e == Error::Exist && final(self)@ == old(self)@,
            r is Ok ==> final(self)@ == (SystemSpace {
                addr: old(self)@.addr.insert(allocator_name@, allocator@),
                ..old(self)@
            }),
    {
        let ghost n = allocator_name@;
        match self.addr_alloc.insert(allocator_name, allocator) {
            Ok(()) => {
                proof {
                    assert(self@.addr =~= old(self)@.addr.insert(n, allocator@));
                }
                Ok(())
            },
            Err(_) => Err(Error::Exist),
        }
    }

    /// Registers an identifier pool under `allocator_name`.
    ///
    /// Fails with `Exist`, and changes nothing, if an identifier pool already
    /// bears the name.
    pub fn add_id_allocator(&mut self, allocator_name: String, allocator: IdAllocator) -> (r: Result<
        (),
        Error,
    >)
        requires
            old(self).wf(),
            allocator.wf(),
        ensures
            final(self).wf(),
            r is Err <==> old(self)@.id.contains_key(allocator_name@),
            r matches Err(e) ==> e == Error::Exist && final(self)@ == old(self)@,
            r is Ok ==> final(self)@ == (SystemSpace {
                id: old(self)@.id.insert(allocator_name@, allocator@),
                ..old(self)@
            }),
    {
        let ghost n = allocator_name@;
        match self.id_alloc.insert(allocator_name, allocator) {
            Ok(()) => {
                proof {
                    assert(self@.id =~= old(self)@.id.insert(n, allocator@));
                }
                Ok(())
            },
            Err(_) => Err(Error::Exist),
        }
    }

    /// Hands `request` to the pool of its kind named `name`.
    ///
    /// Only that pool changes, and only where the request succeeds.
    pub fn allocate(&mut self, name: &String, request: Request) -> (r: Result<
        Allocation,
        resource::Error,
    >)
        requires
            old(self).wf(),
        ensures
            final(self).wf(),
            r == old(self)@.allocation(name@, request),
            final(self)@ == old(self)@.allocated(name@, request),
    {
        match request {
            Request::Address { address, size } => {
                match self.addr_alloc.remove(name) {
                    Some(mut pool) => {
                        let granted = pool.allocate(address, size);
                        let _ = self.addr_alloc.insert(name.clone(), pool);
                        proof {
                            assert(self@.addr =~= old(self)@.addr.insert(
                                name@,
                                old(self)@.addr[name@].allocated(address, size),
                            ));
                        }
                        match granted {
                            Ok(a) => Ok(Allocation::Address { address: a, size }),
                            Err(e) => Err(resource::Error::from_address(e)),
                        }
                    },
                    None => {
                        proof {
                            assert(self@.addr =~= old(self)@.addr);
                        }
                        if self.id_alloc.contains_key(name) {
                            Err(resource::Error::Invalid)
                        } else {
                            Err(resource::Error::OutofScope)
                        }
                    },
                }
            },
            Request::Id(number) => {
                match self.id_alloc.remove(name) {
                    Some(mut pool) => {
                        let granted = pool.allocate(number);
                        let _ = self.id_alloc.insert(name.clone(), pool);
                        proof {
                            assert(self@.id =~= old(self)@.id.insert(
                                name@,
                                old(self)@.id[name@].allocated(number),
                            ));
                        }
                        match granted {
                            Ok(v) => Ok(Allocation::Id(v)),
                            Err(e) => Err(resource::Error::from_id(e)),
                        }
                    },
                    None => {
                        proof {
                            assert(self@.id =~= old(self)@.id);
                        }
                        if self.addr_alloc.contains_key(name) {
                            Err(resource::Error::Invalid)
                        } else {
                            Err(resource::Error::OutofScope)
                        }
                    },
                }
            },
        }
    }

    /// Gives `resource` back to the pool of its kind named `name`.
    ///
    /// An address range is freed only if exactly it is allocated; an
    /// identifier that is not in use stays so. Where no pool of that kind
    /// bears the name nothing changes, and the result says which failure it
    /// was.
    pub fn free(&mut self, name: &String, resource: Allocation) -> (r: Result<(), resource::Error>)
        requires
            old(self).wf(),
        ensures
            final(self).wf(),
            r == old(self)@.release(name@, resource),
            final(self)@ == old(self)@.released(name@, resource),
    {
        match resource {
            Allocation::Address { address, size } => {
                match self.addr_alloc.remove(name) {
                    Some(mut pool) => {
                        pool.free(address, size);
                        let _ = self.addr_alloc.insert(name.clone(), pool);
                        proof {
                            assert(self@.addr =~= old(self)@.addr.insert(
                                name@,
                                old(self)@.addr[name@].released(address.0, size),
                            ));
                        }
                        Ok(())
                    },
                    None => {
                        proof {
                            assert(self@.addr =~= old(self)@.addr);
                        }
                        if self.id_alloc.contains_key(name) {
                            Err(resource::Error::Invalid)
                        } else {
                            Err(resource::Error::OutofScope)
                        }
                    },
                }
            },
            Allocation::Id(v) => {
                match self.id_alloc.remove(name) {
                    Some(mut pool) => {
                        pool.free(v);
                        let _ = self.id_alloc.insert(name.clone(), pool);
                        proof {
                            assert(self@.id =~= old(self)@.id.insert(
                                name@,
                                old(self)@.id[name@].without_id(v),
                            ));
                        }
                        Ok(())
                    },
                    None => {
                        proof {
                            assert(self@.id =~= old(self)@.id);
                        }
                        if self.addr_alloc.contains_key(name) {
                            Err(resource::Error::Invalid)
                        } else {
                            Err(resource::Error::OutofScope)
                        }
                    },
                }
            },
        }
    }

    /// Allocates the lowest free identifier of the identifier pool named
    /// `allocator_id`.
    pub fn allocate_id(&mut self, allocator_id: String) -> (r: Result<u32, resource::Error>)
        requires
            old(self).wf(),
        ensures
            final(self).wf(),
            final(self)@ == old(self)@.allocated(allocator_id@, Request::Id(None)),
            match old(self)@.allocation(allocator_id@, Request::Id(None)) {
                Ok(granted) => r is Ok && granted == Allocation::Id(r.unwrap()),
                Err(e) => r == Err::<u32, resource::Error>(e),
            },
    {
        match self.allocate(&allocator_id, Request::Id(None)) {
            Ok(Allocation::Id(v)) => Ok(v),
            Ok(Allocation::Address { .. }) => Err(resource::Error::Invalid),
            Err(e) => Err(e),
        }
    }
}

} // verus!

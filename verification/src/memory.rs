//! Guest-physical addresses and the arithmetic on them.

use vm_memory::Address;
use vstd::prelude::*;

verus! {

/// The type of a size or an offset in guest-physical address space.
pub type GuestUsize = u64;

/// An address in guest-physical address space.
#[derive(Clone, Copy, Debug, PartialEq, Eq, Structural, PartialOrd, Ord, Hash)]
pub struct GuestAddress(pub u64);

impl GuestAddress {
    /// The address as a plain number.
    pub fn raw_value(&self) -> (v: u64)
        ensures
            v == self.0,
    {
        self.0
    }

    /// `vm_memory::Address::checked_add` on a `vm_memory::GuestAddress`: the
    /// address `offset` bytes above this one, or `None` where that does not
    /// fit in 64 bits. Not proved: the sum is computed by `vm_memory`.
    #[verifier::external_body]
    pub(crate) fn checked_add(&self, offset: GuestUsize) -> (r: Option<GuestAddress>)
        ensures
            self.0 + offset <= u64::MAX ==> r == Some(GuestAddress((self.0 + offset) as u64)),
            self.0 + offset > u64::MAX ==> r is None,
    {
        match vm_memory::GuestAddress(self.0).checked_add(offset) {
            Some(a) => Some(GuestAddress(a.0)),
            None => None,
        }
    }

    /// `vm_memory::Address::unchecked_add` on a `vm_memory::GuestAddress`:
    /// the address `offset` bytes above this one. The sum must fit in 64
    /// bits, since `vm_memory` adds with a plain `+`. Not proved: the sum is
    /// computed by `vm_memory`.
    #[verifier::external_body]
    pub(crate) fn unchecked_add(&self, offset: GuestUsize) -> (r: GuestAddress)
        requires
            self.0 + offset <= u64::MAX,
        ensures
            r.0 == self.0 + offset,
    {
        GuestAddress(vm_memory::GuestAddress(self.0).unchecked_add(offset).0)
    }

    /// `vm_memory::Address::unchecked_sub` on a `vm_memory::GuestAddress`:
    /// the address `offset` bytes below this one. The offset must not exceed
    /// the address, since `vm_memory` subtracts with a plain `-`. Not proved:
    /// the difference is computed by `vm_memory`.
    #[verifier::external_body]
    pub(crate) fn unchecked_sub(&self, offset: GuestUsize) -> (r: GuestAddress)
        requires
            offset <= self.0,
        ensures
            r.0 == self.0 - offset,
    {
        GuestAddress(vm_memory::GuestAddress(self.0).unchecked_sub(offset).0)
    }
}

} // verus!

//! What can be asked of a named pool of resources, and what it answers.

use crate::address;
use crate::id;
use crate::memory::{GuestAddress, GuestUsize};
use vstd::prelude::*;

verus! {

/// Why a named pool could not serve a request.
#[derive(Debug, Clone, Copy, PartialEq, Eq)]
pub enum Error {
    /// No pool is registered under the name.
    OutofScope,
    /// The pool has no room for the request.
    Overflow,
    /// The requested range intersects a range that is already allocated.
    Overlap,
    /// The requested address is not a multiple of the pool's alignment.
    UnalignedAddress,
    /// The requested size is zero.
    NullRequest,
    /// The requested identifier is already in use.
    Duplicated,
    /// The request lies outside the pool's bounds, or is of a kind that the
    /// named pool does not hand out.
    Invalid,
}

impl Error {
    /// The text that describes each error.
    pub open spec fn spec_message(self) -> Seq<char> {
        match self {
            Error::OutofScope => "Resource being allocated is out of scope"@,
            Error::Overflow => "Resource being allocated is overflow"@,
            Error::Overlap => "Resource being allocated is overlap"@,
            Error::UnalignedAddress => "Resource being allocated is unaligned"@,
            Error::NullRequest => "Resource being allocated is null"@,
            Error::Duplicated => "Resource being allocated is duplicated"@,
            Error::Invalid => "Resource request is invalid"@,
        }
    }

    /// A human-readable description of the error.
    pub fn message(&self) -> (s: &'static str)
        ensures
            s@ == self.spec_message(),
    {
        match self {
            Error::OutofScope => "Resource being allocated is out of scope",
            Error::Overflow => "Resource being allocated is overflow",
            Error::Overlap => "Resource being allocated is overlap",
            Error::UnalignedAddress => "Resource being allocated is unaligned",
            Error::NullRequest => "Resource being allocated is null",
            Error::Duplicated => "Resource being allocated is duplicated",
            Error::Invalid => "Resource request is invalid",
        }
    }

    /// The failure of an address pool, as the failure of a named pool.
    pub open spec fn spec_from_address(e: address::Error) -> Error {
        match e {
            address::Error::Overflow => Error::Overflow,
            address::Error::Overlap => Error::Overlap,
            address::Error::UnalignedAddress => Error::UnalignedAddress,
            address::Error::NullRequest => Error::NullRequest,
        }
    }

    /// The failure of an identifier pool, as the failure of a named pool.
    pub open spec fn spec_from_id(e: id::Error) -> Error {
        match e {
            id::Error::Overflow => Error::Overflow,
            id::Error::Duplicated => Error::Duplicated,
            id::Error::Invalid => Error::Invalid,
        }
    }

    /// The failure of an address pool, as the failure of a named pool.
    pub fn from_address(e: address::Error) -> (r: Error)
        ensures
            r == Error::spec_from_address(e),
    {
        match e {
            address::Error::Overflow => Error::Overflow,
            address::Error::Overlap => Error::Overlap,
            address::Error::UnalignedAddress => Error::UnalignedAddress,
            address::Error::NullRequest => Error::NullRequest,
        }
    }

    /// The failure of an identifier pool, as the failure of a named pool.
    pub fn from_id(e: id::Error) -> (r: Error)
        ensures
            r == Error::spec_from_id(e),
    {
        match e {
            id::Error::Overflow => Error::Overflow,
            id::Error::Duplicated => Error::Duplicated,
            id::Error::Invalid => Error::Invalid,
        }
    }
}

/// A request to a named pool. Its kind says what the pool is to hand out.
#[derive(Debug, Clone, Copy, PartialEq, Eq)]
pub enum Request {
    /// `size` bytes of address space, at `address` if one is given.
    Address { address: Option<GuestAddress>, size: GuestUsize },
    /// An identifier: the given one, or any free one.
    Id(Option<u32>),
}

/// What a named pool handed out.
#[derive(Debug, Clone, Copy, PartialEq, Eq)]
pub enum Allocation {
    /// The `size` bytes of address space from `address`.
    Address { address: GuestAddress, size: GuestUsize },
    /// An identifier.
    Id(u32),
}

} // verus!

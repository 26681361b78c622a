//! Allocation of aligned, pairwise disjoint byte ranges within one contiguous
//! address space.

use crate::memory::{GuestAddress, GuestUsize};
use crate::ordered::{is_listing, keys_of, lemma_iter_listing, lemma_listing_neighbours};
use std::collections::BTreeMap;
use vstd::arithmetic::div_mod::{lemma_fundamental_div_mod, lemma_mod_multiples_vanish};
use vstd::arithmetic::power2::is_pow2;
use vstd::laws_cmp::group_laws_cmp;
use vstd::prelude::*;
use vstd::std_specs::btree::*;
use vstd::std_specs::iter::IteratorSpec;

verus! {

broadcast use {group_btree_axioms, group_laws_cmp};

/// Why an address range could not be allocated.
#[derive(Debug, Clone, Copy, PartialEq, Eq)]
pub enum Error {
    /// No placement within the managed space satisfies the request.
    Overflow,
    /// The requested range intersects a range that is already allocated.
    Overlap,
    /// The requested address is not a multiple of the alignment.
    UnalignedAddress,
    /// The requested size is zero.
    NullRequest,
}

impl Error {
    /// The text that describes each error.
    pub open spec fn spec_message(self) -> Seq<char> {
        match self {
            Error::Overflow => "Address being allocated is overflow"@,
            Error::Overlap => "Address being allocated is overlap"@,
            Error::UnalignedAddress => "Address being allocated is unaligned"@,
            Error::NullRequest => "Address being allocated is null"@,
        }
    }

    /// A human-readable description of the error.
    pub fn message(&self) -> (s: &'static str)
        ensures
            s@ == self.spec_message(),
    {
        match self {
            Error::Overflow => "Address being allocated is overflow",
            Error::Overlap => "Address being allocated is overlap",
            Error::UnalignedAddress => "Address being allocated is unaligned",
            Error::NullRequest => "Address being allocated is null",
        }
    }
}

/// The least multiple of `a` that is not below `x`.
pub open spec fn align_up(a: int, x: int) -> int {
    if x % a == 0 {
        x
    } else {
        x + a - x % a
    }
}

/// The greatest multiple of `a` that is not above `x`.
pub open spec fn align_down(a: int, x: int) -> int {
    x - x % a
}

/// Rounding up lands on a multiple of `a` less than `a` above `x`.
pub proof fn lemma_align_up(a: int, x: int)
    requires
        a > 0,
        x >= 0,
    ensures
        x <= align_up(a, x) < x + a,
        align_up(a, x) % a == 0,
        x % a == 0 <==> align_up(a, x) == x,
{
    lemma_fundamental_div_mod(x, a);
    if x % a != 0 {
        lemma_mod_multiples_vanish(1, x - x % a, a);
        lemma_mod_multiples_vanish(x / a, 0, a);
        assert(a * (x / a) + 0 == x - x % a);
        assert(0int % a == 0);
    }
}

/// Rounding down lands on a multiple of `a` less than `a` below `x`.
pub proof fn lemma_align_down(a: int, x: int)
    requires
        a > 0,
        x >= 0,
    ensures
        0 <= align_down(a, x) <= x,
        x < align_down(a, x) + a,
        align_down(a, x) % a == 0,
{
    lemma_fundamental_div_mod(x, a);
    lemma_mod_multiples_vanish(x / a, 0, a);
    assert(a * (x / a) + 0 == x - x % a);
    assert(0int % a == 0);
    assert(x / a >= 0) by (nonlinear_arith)
        requires
            a > 0,
            x >= 0,
    ;
    assert(a * (x / a) >= 0) by (nonlinear_arith)
        requires
            a > 0,
            x / a >= 0,
    ;
}

/// Rounding `y` down cannot pass a multiple of `a` that is not above `y`.
pub proof fn lemma_align_down_keeps_multiple(a: int, m: int, y: int)
    requires
        a > 0,
        0 <= m <= y,
        m % a == 0,
    ensures
        m <= align_down(a, y),
{
    lemma_fundamental_div_mod(m, a);
    lemma_fundamental_div_mod(y, a);
    let p = m / a;
    let q = y / a;
    assert(p <= q) by (nonlinear_arith)
        requires
            a > 0,
            m == a * p,
            y == a * q + y % a,
            0 <= y % a < a,
            m <= y,
    ;
    assert(a * p <= a * q) by (nonlinear_arith)
        requires
            a > 0,
            p <= q,
    ;
}

/// The mathematical content of an [`AddressAllocator`].
///
/// `ranges` maps the start of each allocated range to its size. It also holds
/// a marker of size zero at `end + 1`, one past the managed space, which
/// bounds every scan and is never removed.
pub struct AddressSpace {
    pub base: u64,
    pub end: u64,
    pub alignment: u64,
    pub ranges: Map<u64, u64>,
}

impl AddressSpace {
    /// The address one past the managed space, where the marker sits.
    pub open spec fn bound(self) -> u64 {
        (self.end + 1) as u64
    }

    /// The space's invariant: a power-of-two alignment, the marker in place,
    /// and allocated ranges that are aligned, non-empty, within the managed
    /// space and pairwise disjoint.
    pub open spec fn wf(self) -> bool {
        &&& self.alignment > 0
        &&& is_pow2(self.alignment as int)
        &&& self.base <= self.end < u64::MAX
        &&& self.ranges.dom().finite()
        &&& self.ranges.contains_key(self.bound())
        &&& self.ranges[self.bound()] == 0
        &&& forall|k: u64| #[trigger]
            self.ranges.contains_key(k) && k != self.bound() ==> {
                &&& self.base <= k <= self.end
                &&& k % self.alignment == 0
                &&& self.ranges[k] > 0
            }
        &&& forall|j: u64, k: u64|
            #![trigger self.ranges.contains_key(j), self.ranges.contains_key(k)]
            self.ranges.contains_key(j) && self.ranges.contains_key(k) && j < k ==> j
                + self.ranges[j] <= k
    }

    /// An allocated range of exactly this start and size exists.
    pub open spec fn is_live(self, addr: u64, size: u64) -> bool {
        &&& self.ranges.contains_key(addr)
        &&& self.ranges[addr] == size
        &&& addr != self.bound()
    }

    /// The range `[addr, addr + size)` touches no allocated range and ends
    /// within the managed space.
    pub open spec fn is_free(self, addr: u64, size: u64) -> bool {
        forall|k: u64| #[trigger]
            self.ranges.contains_key(k) ==> k + self.ranges[k] <= addr || addr + size <= k
    }

    /// What a request for `size` bytes at exactly `addr` yields.
    pub open spec fn exact(self, addr: u64, size: u64) -> Result<GuestAddress, Error> {
        if align_up(self.alignment as int, addr as int) > u64::MAX {
            Err(Error::Overflow)
        } else if addr % self.alignment != 0 {
            Err(Error::UnalignedAddress)
        } else if addr < self.base || addr > self.end {
            Err(Error::Overflow)
        } else if !self.is_free(addr, size) {
            Err(Error::Overlap)
        } else {
            Ok(GuestAddress(addr))
        }
    }

    /// `j` is the closest range start below `k`.
    pub open spec fn is_below(self, j: u64, k: u64) -> bool {
        &&& self.ranges.contains_key(j)
        &&& j < k
        &&& forall|i: u64| #[trigger] self.ranges.contains_key(i) && i < k ==> i <= j
    }

    /// Where the gap below `k` starts: at the end of the closest range below
    /// `k`, or at the base of the managed space if there is none.
    pub open spec fn gap_start(self, k: u64) -> int {
        if exists|j: u64| self.is_below(j, k) {
            let j = choose|j: u64| self.is_below(j, k);
            j + self.ranges[j]
        } else {
            self.base as int
        }
    }

    /// The gap below `k`, with its start rounded up, holds `size` bytes
    /// rounded up to the alignment.
    pub open spec fn gap_fits(self, k: u64, size: u64) -> bool {
        align_up(self.alignment as int, self.gap_start(k)) + align_up(
            self.alignment as int,
            size as int,
        ) <= k
    }

    /// `k` is the lowest range start (or the marker) whose gap holds `size`.
    pub open spec fn is_first_fit(self, k: u64, size: u64) -> bool {
        &&& self.ranges.contains_key(k)
        &&& self.gap_fits(k, size)
        &&& forall|j: u64| #[trigger]
            self.ranges.contains_key(j) && j < k ==> !self.gap_fits(j, size)
    }

    /// Where `size` bytes are placed in the gap below `k`: as high as the
    /// alignment allows. The range would end at `k`; its start is rounded
    /// down to the alignment.
    pub open spec fn top_of_gap(self, k: u64, size: u64) -> int {
        align_down(self.alignment as int, k - size)
    }

    /// What a request for `size` bytes at no particular address yields: a
    /// place at the top of the lowest gap that holds them.
    pub open spec fn first_fit(self, size: u64) -> Result<GuestAddress, Error> {
        if exists|k: u64| self.is_first_fit(k, size) {
            let k = choose|k: u64| self.is_first_fit(k, size);
            Ok(GuestAddress(self.top_of_gap(k, size) as u64))
        } else {
            Err(Error::Overflow)
        }
    }

    /// What an allocation request yields in this space.
    pub open spec fn allocation(self, address: Option<GuestAddress>, size: u64) -> Result<
        GuestAddress,
        Error,
    > {
        if size == 0 {
            Err(Error::NullRequest)
        } else {
            match address {
                Some(a) => self.exact(a.0, size),
                None => self.first_fit(size),
            }
        }
    }

    /// The space with the range `[addr, addr + size)` allocated.
    pub open spec fn with_range(self, addr: u64, size: u64) -> AddressSpace {
        AddressSpace { ranges: self.ranges.insert(addr, size), ..self }
    }

    /// The space after a request to free `size` bytes at `addr`: without that
    /// range if exactly it is allocated, unchanged otherwise.
    pub open spec fn released(self, addr: u64, size: u64) -> AddressSpace {
        if self.is_live(addr, size) {
            AddressSpace { ranges: self.ranges.remove(addr), ..self }
        } else {
            self
        }
    }

    /// The space after an allocation request: with the new range, or
    /// unchanged where the request fails.
    pub open spec fn allocated(self, address: Option<GuestAddress>, size: u64) -> AddressSpace {
        match self.allocation(address, size) {
            Ok(a) => self.with_range(a.0, size),
            Err(_) => self,
        }
    }

    /// Every range ends within the managed space.
    pub proof fn lemma_range_within(self, k: u64)
        requires
            self.wf(),
            self.ranges.contains_key(k),
        ensures
            k + self.ranges[k] <= self.bound(),
            k <= self.bound(),
    {
        assert(self.ranges.contains_key(self.bound()));
    }

    /// Two distinct allocated ranges share no address.
    pub proof fn lemma_no_overlap(self, j: u64, k: u64)
        requires
            self.wf(),
            self.ranges.contains_key(j),
            self.ranges.contains_key(k),
            j != k,
        ensures
            j + self.ranges[j] <= k || k + self.ranges[k] <= j,
    {
    }

    /// The gap below `k` starts within the managed space, and no range below
    /// `k` reaches past that start.
    pub proof fn lemma_gap_start(self, k: u64)
        requires
            self.wf(),
            self.ranges.contains_key(k),
        ensures
            self.base <= self.gap_start(k) <= k,
            forall|i: u64| #[trigger]
                self.ranges.contains_key(i) && i < k ==> i + self.ranges[i] <= self.gap_start(k),
    {
        if exists|j: u64| self.is_below(j, k) {
            let j = choose|j: u64| self.is_below(j, k);
            assert(self.ranges.contains_key(j));
            assert forall|i: u64| #[trigger] self.ranges.contains_key(i) && i < k implies i
                + self.ranges[i] <= self.gap_start(k) by {
                assert(i <= j);
            }
        } else {
            assert forall|i: u64| #[trigger] self.ranges.contains_key(i) && i < k implies i
                + self.ranges[i] <= self.gap_start(k) by {
                self.lemma_has_below(i, k);
            }
        }
    }

    /// Below a key with some range under it lies a closest one.
    proof fn lemma_has_below(self, i: u64, k: u64)
        requires
            self.ranges.dom().finite(),
            self.ranges.contains_key(i),
            i < k,
        ensures
            exists|j: u64| self.is_below(j, k),
    {
        let below = self.ranges.dom().filter(|x: u64| x < k);
        assert(below.contains(i));
        self.ranges.dom().lemma_len_filter(|x: u64| x < k);
        let j = lemma_greatest(below);
        assert(self.is_below(j, k)) by {
            assert forall|x: u64| #[trigger] self.ranges.contains_key(x) && x < k implies x <= j by {
                assert(below.contains(x));
            }
        }
    }

    /// The place at the top of a gap that fits is aligned, within the managed
    /// space, and free.
    pub proof fn lemma_top_of_gap(self, k: u64, size: u64)
        requires
            self.wf(),
            size > 0,
            self.ranges.contains_key(k),
            self.gap_fits(k, size),
        ensures
            self.base <= self.top_of_gap(k, size) <= self.end,
            self.top_of_gap(k, size) % (self.alignment as int) == 0,
            self.top_of_gap(k, size) + size <= k,
            self.is_free(self.top_of_gap(k, size) as u64, size),
    {
        let a = self.alignment as int;
        let gs = self.gap_start(k);
        self.lemma_gap_start(k);
        self.lemma_range_within(k);
        lemma_align_up(a, gs);
        lemma_align_up(a, size as int);
        lemma_align_down(a, k - size);
        lemma_align_down_keeps_multiple(a, align_up(a, gs), k - size);
    }

    /// At most one key is the first fit for a size.
    pub proof fn lemma_first_fit_unique(self, j: u64, k: u64, size: u64)
        requires
            self.is_first_fit(j, size),
            self.is_first_fit(k, size),
        ensures
            j == k,
    {
    }

    /// A space whose first fit is `k` places a wildcard request at the top of
    /// the gap below `k`.
    pub proof fn lemma_first_fit(self, k: u64, size: u64)
        requires
            self.is_first_fit(k, size),
        ensures
            self.first_fit(size) == Ok::<GuestAddress, Error>(
                GuestAddress(self.top_of_gap(k, size) as u64),
            ),
    {
        let c = choose|c: u64| self.is_first_fit(c, size);
        self.lemma_first_fit_unique(c, k, size);
    }

    /// Allocating a free, aligned range within the managed space keeps the
    /// space's invariant.
    pub proof fn lemma_with_range_wf(self, addr: u64, size: u64)
        requires
            self.wf(),
            size > 0,
            self.base <= addr <= self.end,
            addr % self.alignment == 0,
            self.is_free(addr, size),
        ensures
            self.with_range(addr, size).wf(),
            !self.ranges.contains_key(addr),
    {
        let after = self.with_range(addr, size);
        assert(self.ranges.contains_key(self.bound()));
        // A range that started at `addr` would not leave the place free.
        assert(!self.ranges.contains_key(addr));
        assert forall|j: u64, k: u64|
            #![trigger after.ranges.contains_key(j), after.ranges.contains_key(k)]
            after.ranges.contains_key(j) && after.ranges.contains_key(k) && j < k implies j
                + after.ranges[j] <= k by {
            if j == addr {
                assert(self.ranges.contains_key(k));
            } else if k == addr {
                assert(self.ranges.contains_key(j));
            } else {
                assert(self.ranges.contains_key(j) && self.ranges.contains_key(k));
            }
        }
        assert forall|k: u64| #[trigger]
            after.ranges.contains_key(k) && k != after.bound() implies {
            &&& after.base <= k <= after.end
            &&& k % after.alignment == 0
            &&& after.ranges[k] > 0
        } by {
            if k != addr {
                assert(self.ranges.contains_key(k));
            }
        }
    }

    /// A granted range is aligned, lies within the managed space and was
    /// free, and the space with it is well-formed.
    pub proof fn lemma_allocation(self, address: Option<GuestAddress>, size: u64)
        requires
            self.wf(),
        ensures
            self.allocated(address, size).wf(),
            self.allocation(address, size) matches Ok(a) ==> {
                &&& size > 0
                &&& a.0 % self.alignment == 0
                &&& self.base <= a.0
                &&& a.0 + size <= self.end + 1
                &&& self.is_free(a.0, size)
                &&& !self.ranges.contains_key(a.0)
            },
    {
        if let Ok(a) = self.allocation(address, size) {
            if address is None {
                let k = choose|k: u64| self.is_first_fit(k, size);
                self.lemma_top_of_gap(k, size);
            }
            assert(self.ranges.contains_key(self.bound()));
            self.lemma_with_range_wf(a.0, size);
        }
    }

    /// Freeing a range that was just granted restores the space.
    pub proof fn lemma_free_after_allocate(self, address: Option<GuestAddress>, size: u64)
        requires
            self.wf(),
            self.allocation(address, size) is Ok,
        ensures
            self.allocated(address, size).released(self.allocation(address, size).unwrap().0, size)
                == self,
    {
        self.lemma_allocation(address, size);
        let a = self.allocation(address, size).unwrap().0;
        let after = self.allocated(address, size);
        assert(after.is_live(a, size));
        assert(after.ranges.remove(a) =~= self.ranges);
    }

    /// The space after the requests were served one after the other,
    /// together with the ranges that were granted, each as its start and
    /// its size; `None` if one of the requests fails.
    pub open spec fn allocated_all(self, requests: Seq<(Option<GuestAddress>, u64)>) -> Option<
        (AddressSpace, Seq<(u64, u64)>),
    >
        decreases requests.len(),
    {
        if requests.len() == 0 {
            Some((self, Seq::empty()))
        } else {
            match self.allocated_all(requests.drop_last()) {
                None => None,
                Some((s, granted)) => match s.allocation(
                    requests.last().0,
                    requests.last().1,
                ) {
                    Ok(a) => Some(
                        (
                            s.with_range(a.0, requests.last().1),
                            granted.push((a.0, requests.last().1)),
                        ),
                    ),
                    Err(_) => None,
                },
            }
        }
    }

    /// The space after requests to free the ranges, one after the other.
    pub open spec fn released_all(self, ranges: Seq<(u64, u64)>) -> AddressSpace
        decreases ranges.len(),
    {
        if ranges.len() == 0 {
            self
        } else {
            self.released_all(ranges.drop_last()).released(ranges.last().0, ranges.last().1)
        }
    }

    /// Where the ranges start.
    pub open spec fn starts(ranges: Seq<(u64, u64)>) -> Set<u64> {
        Set::new(|k: u64| exists|i: int| 0 <= i < ranges.len() && (#[trigger] ranges[i]).0 == k)
    }

    /// Freeing ranges that are all allocated removes exactly them, whatever
    /// their order and however often each is named.
    pub proof fn lemma_released_all(self, ranges: Seq<(u64, u64)>)
        requires
            forall|i: int|
                0 <= i < ranges.len() ==> self.is_live((#[trigger] ranges[i]).0, ranges[i].1),
        ensures
            self.released_all(ranges) == (AddressSpace {
                ranges: self.ranges.remove_keys(Self::starts(ranges)),
                ..self
            }),
        decreases ranges.len(),
    {
        if ranges.len() == 0 {
            assert(self.ranges.remove_keys(Self::starts(ranges)) =~= self.ranges);
        } else {
            let init = ranges.drop_last();
            let last = ranges.last();
            assert forall|i: int| 0 <= i < init.len() implies self.is_live(
                (#[trigger] init[i]).0,
                init[i].1,
            ) by {
                assert(init[i] == ranges[i]);
            }
            self.lemma_released_all(init);
            let mid = self.released_all(init);
            assert(self.is_live(last.0, last.1)) by {
                assert(ranges[ranges.len() - 1] == last);
            }
            assert(Self::starts(ranges) =~= Self::starts(init).insert(last.0)) by {
                assert forall|k: u64| Self::starts(ranges).contains(k) implies Self::starts(
                    init,
                ).insert(last.0).contains(k) by {
                    let i = choose|i: int| 0 <= i < ranges.len() && (#[trigger] ranges[i]).0 == k;
                    if i < init.len() {
                        assert(init[i].0 == k);
                    }
                }
                assert forall|k: u64| Self::starts(init).insert(last.0).contains(
                    k,
                ) implies Self::starts(ranges).contains(k) by {
                    if k == last.0 {
                        assert(ranges[ranges.len() - 1].0 == k);
                    } else {
                        let i = choose|i: int| 0 <= i < init.len() && (#[trigger] init[i]).0 == k;
                        assert(ranges[i].0 == k);
                    }
                }
            }
            assert(mid.released(last.0, last.1).ranges =~= self.ranges.remove_keys(
                Self::starts(ranges),
            ));
        }
    }

    /// After requests that were all served, every granted range is
    /// allocated, none of them was allocated before, and but for them the
    /// space is as it was.
    pub proof fn lemma_allocated_all(self, requests: Seq<(Option<GuestAddress>, u64)>)
        requires
            self.wf(),
            self.allocated_all(requests) is Some,
        ensures
            ({
                let (after, granted) = self.allocated_all(requests).unwrap();
                &&& after.wf()
                &&& granted.len() == requests.len()
                &&& forall|i: int|
                    0 <= i < granted.len() ==> after.is_live((#[trigger] granted[i]).0, granted[i].1)
                &&& self == (AddressSpace {
                    ranges: after.ranges.remove_keys(Self::starts(granted)),
                    ..after
                })
            }),
        decreases requests.len(),
    {
        let (after, granted) = self.allocated_all(requests).unwrap();
        if requests.len() == 0 {
            assert(after.ranges.remove_keys(Self::starts(granted)) =~= self.ranges);
        } else {
            let (s, done) = self.allocated_all(requests.drop_last()).unwrap();
            let q = requests.last();
            let a = s.allocation(q.0, q.1).unwrap().0;
            self.lemma_allocated_all(requests.drop_last());
            s.lemma_allocation(q.0, q.1);
            assert(s.ranges.contains_key(s.bound()));
            assert forall|i: int| 0 <= i < granted.len() implies after.is_live(
                (#[trigger] granted[i]).0,
                granted[i].1,
            ) by {
                if i < done.len() {
                    assert(granted[i] == done[i]);
                    assert(s.is_live(done[i].0, done[i].1));
                }
            }
            assert(after.ranges.remove_keys(Self::starts(granted)) =~= s.ranges.remove_keys(
                Self::starts(done),
            )) by {
                assert forall|k: u64| Self::starts(granted).contains(k) <==> (Self::starts(
                    done,
                ).contains(k) || k == a) by {
                    if Self::starts(granted).contains(k) {
                        let i = choose|i: int|
                            0 <= i < granted.len() && (#[trigger] granted[i]).0 == k;
                        if i < done.len() {
                            assert(done[i].0 == k);
                        }
                    }
                    if Self::starts(done).contains(k) {
                        let i = choose|i: int| 0 <= i < done.len() && (#[trigger] done[i]).0 == k;
                        assert(granted[i].0 == k);
                    }
                    if k == a {
                        assert(granted[granted.len() - 1].0 == k);
                    }
                }
            }
        }
    }

    /// Freeing every range that a sequence of requests was granted, in the
    /// order of the requests or in any other, restores the space. The same
    /// requests are then granted the same ranges again.
    pub proof fn lemma_free_all_after_allocate_all(
        self,
        requests: Seq<(Option<GuestAddress>, u64)>,
        order: Seq<(u64, u64)>,
    )
        requires
            self.wf(),
            self.allocated_all(requests) is Some,
            order.to_set() == self.allocated_all(requests).unwrap().1.to_set(),
        ensures
            self.allocated_all(requests).unwrap().0.released_all(order) == self,
            self.allocated_all(requests).unwrap().0.released_all(order).allocated_all(requests)
                == self.allocated_all(requests),
    {
        let (after, granted) = self.allocated_all(requests).unwrap();
        self.lemma_allocated_all(requests);
        assert forall|i: int| 0 <= i < order.len() implies after.is_live(
            (#[trigger] order[i]).0,
            order[i].1,
        ) by {
            assert(order.to_set().contains(order[i]));
            assert(granted.to_set().contains(order[i]));
            let j = choose|j: int| 0 <= j < granted.len() && granted[j] == order[i];
            assert(after.is_live(granted[j].0, granted[j].1));
        }
        after.lemma_released_all(order);
        assert(Self::starts(order) =~= Self::starts(granted)) by {
            assert forall|k: u64| Self::starts(order).contains(k) implies Self::starts(
                granted,
            ).contains(k) by {
                let i = choose|i: int| 0 <= i < order.len() && (#[trigger] order[i]).0 == k;
                assert(order.to_set().contains(order[i]));
                assert(granted.to_set().contains(order[i]));
                let j = choose|j: int| 0 <= j < granted.len() && granted[j] == order[i];
                assert(granted[j].0 == k);
            }
            assert forall|k: u64| Self::starts(granted).contains(k) implies Self::starts(
                order,
            ).contains(k) by {
                let i = choose|i: int| 0 <= i < granted.len() && (#[trigger] granted[i]).0 == k;
                assert(granted.to_set().contains(granted[i]));
                assert(order.to_set().contains(granted[i]));
                let j = choose|j: int| 0 <= j < order.len() && order[j] == granted[i];
                assert(order[j].0 == k);
            }
        }
    }

    /// Freeing keeps the space's invariant.
    pub proof fn lemma_released_wf(self, addr: u64, size: u64)
        requires
            self.wf(),
        ensures
            self.released(addr, size).wf(),
    {
        let after = self.released(addr, size);
        if self.is_live(addr, size) {
            assert forall|j: u64, k: u64|
                #![trigger after.ranges.contains_key(j), after.ranges.contains_key(k)]
                after.ranges.contains_key(j) && after.ranges.contains_key(k) && j < k implies j
                    + after.ranges[j] <= k by {
                assert(self.ranges.contains_key(j) && self.ranges.contains_key(k));
            }
            assert forall|k: u64| #[trigger]
                after.ranges.contains_key(k) && k != after.bound() implies {
                &&& after.base <= k <= after.end
                &&& k % after.alignment == 0
                &&& after.ranges[k] > 0
            } by {
                assert(self.ranges.contains_key(k));
            }
        }
    }
}

/// The alignment that a new allocator gets: the one asked for, or four.
pub open spec fn alignment_or_default(align_size: Option<GuestUsize>) -> GuestUsize {
    match align_size {
        Some(a) => a,
        None => 4,
    }
}

/// Whether `x` is a power of two.
pub fn is_power_of_two(x: u64) -> (r: bool)
    ensures
        r == is_pow2(x as int),
{
    if x == 0 {
        proof {
            reveal(is_pow2);
        }
        return false;
    }
    let mut n: u64 = x;
    while n % 2 == 0
        invariant
            n > 0,
            is_pow2(n as int) == is_pow2(x as int),
        decreases n,
    {
        proof {
            reveal(is_pow2);
        }
        n = n / 2;
    }
    proof {
        reveal(is_pow2);
    }
    n == 1
}

/// Manages one contiguous address space and hands out aligned, pairwise
/// disjoint ranges of it.
///
/// Ranges asked for without an address are placed at the top of the lowest
/// gap that holds them, so they accumulate downward from the high end of the
/// space and leave low addresses for requests that name their address.
#[derive(Debug, PartialEq, Eq)]
pub struct AddressAllocator {
    base: GuestAddress,
    end: GuestAddress,
    alignment: GuestUsize,
    ranges: BTreeMap<u64, u64>,
}

impl View for AddressAllocator {
    type V = AddressSpace;

    closed spec fn view(&self) -> AddressSpace {
        AddressSpace {
            base: self.base.0,
            end: self.end.0,
            alignment: self.alignment,
            ranges: self.ranges@,
        }
    }
}

impl AddressAllocator {
    /// The allocator's invariant, that of its address space.
    pub open spec fn wf(&self) -> bool {
        self@.wf()
    }

    /// Creates an allocator for the `size` bytes from `base`, with ranges
    /// aligned to `align_size`, or to four bytes if none is given.
    ///
    /// Returns `None` if `size` is zero, if `base + size` does not fit in 64
    /// bits, or if the alignment is not a power of two.
    pub fn new(base: GuestAddress, size: GuestUsize, align_size: Option<GuestUsize>) -> (r: Option<
        Self,
    >)
        ensures
            r is Some <==> size != 0 && base.0 + size <= u64::MAX && is_pow2(
                alignment_or_default(align_size) as int,
            ),
            r matches Some(a) ==> a.wf() && a@ == (AddressSpace {
                base: base.0,
                end: (base.0 + size - 1) as u64,
                alignment: alignment_or_default(align_size),
                ranges: Map::<u64, u64>::empty().insert((base.0 + size) as u64, 0),
            }),
    {
        if size == 0 {
            return None;
        }
        let bound = match base.checked_add(size) {
            Some(b) => b,
            None => {
                return None;
            },
        };
        let alignment = match align_size {
            Some(a) => a,
            None => 4,
        };
        if !is_power_of_two(alignment) {
            return None;
        }
        proof {
            if alignment == 0 {
                reveal(is_pow2);
            }
        }
        let end = bound.unchecked_sub(1);
        let mut ranges: BTreeMap<u64, u64> = BTreeMap::new();
        // The marker of size zero, one past the managed space.
        ranges.insert(bound.0, 0);
        let allocator = AddressAllocator { base, end, alignment, ranges };
        proof {
            assert(allocator@.ranges =~= Map::<u64, u64>::empty().insert(bound.0, 0));
        }
        Some(allocator)
    }

    /// `address` rounded up to the alignment, or `None` where that does not
    /// fit in 64 bits.
    fn align_address(&self, address: GuestAddress) -> (r: Option<GuestAddress>)
        requires
            self.wf(),
        ensures
            align_up(self@.alignment as int, address.0 as int) <= u64::MAX ==> r == Some(
                GuestAddress(align_up(self@.alignment as int, address.0 as int) as u64),
            ),
            align_up(self@.alignment as int, address.0 as int) > u64::MAX ==> r is None,
    {
        let align_adjust: u64 = if address.raw_value() % self.alignment != 0 {
            self.alignment - (address.raw_value() % self.alignment)
        } else {
            0
        };
        address.checked_add(align_adjust)
    }

    /// `address` rounded down to the alignment.
    fn align_address_down(&self, address: GuestAddress) -> (r: GuestAddress)
        requires
            self.wf(),
        ensures
            r.0 == align_down(self@.alignment as int, address.0 as int),
    {
        proof {
            lemma_align_down(self@.alignment as int, address.0 as int);
        }
        address.unchecked_sub(address.raw_value() % self.alignment)
    }

    /// Whether `req_size` bytes can be placed at exactly `req_address`.
    fn available_range(&self, req_address: GuestAddress, req_size: GuestUsize) -> (r: Result<
        GuestAddress,
        Error,
    >)
        requires
            self.wf(),
            req_size > 0,
        ensures
            r == self@.exact(req_address.0, req_size),
    {
        let aligned_address = match self.align_address(req_address) {
            Some(a) => a,
            None => {
                return Err(Error::Overflow);
            },
        };
        proof {
            lemma_align_up(self@.alignment as int, req_address.0 as int);
        }
        // The requested address should be aligned.
        if aligned_address.0 != req_address.0 {
            return Err(Error::UnalignedAddress);
        }
        // The aligned address should be within the address space range.
        if aligned_address.0 > self.end.0 || aligned_address.0 < self.base.0 {
            return Err(Error::Overflow);
        }
        let mut prev_end_address = self.base;
        for kv in it: self.ranges.iter()
            invariant
                self.wf(),
                req_size > 0,
                aligned_address.0 == req_address.0,
                req_address.0 % self@.alignment == 0,
                align_up(self@.alignment as int, req_address.0 as int) <= u64::MAX,
                self@.base <= aligned_address.0 <= self@.end,
                it.seq() == self.ranges.iter().remaining(),
                increasing_seq(keys_of(it.seq())),
                prev_end_address.0 == (if it.index() == 0 {
                    self@.base as int
                } else {
                    it.seq().unref()[it.index() - 1].0 + it.seq().unref()[it.index() - 1].1
                }),
                forall|j: int| 0 <= j < it.index() ==> (#[trigger] it.seq().unref()[j]).0 < aligned_address.0,
        {
            let address = GuestAddress(*kv.0);
            let size: u64 = *kv.1;
            proof {
                lemma_iter_listing(&self.ranges, it.seq());
                self@.lemma_range_within(address.0);
            }
            if aligned_address.0 <= address.0 {
                let ghost s = it.seq().unref();
                let ghost i = it.index() as int;
                // Do we overlap with the previous range?
                if prev_end_address.0 > aligned_address.0 {
                    proof {
                        assert(i > 0);
                        assert(self@.ranges.contains_key(s[i - 1].0));
                    }
                    return Err(Error::Overlap);
                }
                // Do we have enough space?
                if address.unchecked_sub(aligned_address.raw_value()).raw_value() < req_size {
                    proof {
                        assert(self@.ranges.contains_key(address.0));
                    }
                    return Err(Error::Overlap);
                }
                proof {
                    assert forall|k: u64| #[trigger] self@.ranges.contains_key(k) implies k
                        + self@.ranges[k] <= aligned_address.0 || aligned_address.0 + req_size
                        <= k by {
                        lemma_listing_neighbours(s, self@.ranges, i, k);
                        if k < address.0 {
                            assert(self@.ranges.contains_key(s[i - 1].0));
                        }
                    }
                }
                return Ok(aligned_address);
            }
            prev_end_address = address.unchecked_add(size);
        }
        proof {
            // The scan cannot run to its end: the marker lies above every
            // address of the managed space, so it ends the scan at the latest.
            let s = self.ranges.iter().remaining();
            lemma_iter_listing(&self.ranges, s);
            assert(self@.ranges.contains_key(self@.bound()));
            let x = choose|x: int| 0 <= x < s.unref().len() && (#[trigger] s.unref()[x]).0 == self@.bound();
            assert(s.unref()[x].0 < aligned_address.0 && aligned_address.0 < self@.bound());
        }
        Err(Error::Overflow)
    }

    /// Where `req_size` bytes go when no address is asked for.
    fn first_available_range(&self, req_size: GuestUsize) -> (r: Result<GuestAddress, Error>)
        requires
            self.wf(),
            req_size > 0,
        ensures
            r == self@.first_fit(req_size),
    {
        let ghost a = self@.alignment as int;
        let req_align = match self.align_address(GuestAddress(req_size)) {
            Some(r) => r,
            None => {
                proof {
                    // No gap holds a size that does not even fit in 64 bits.
                    assert forall|k: u64| !self@.is_first_fit(k, req_size) by {
                        if self@.ranges.contains_key(k) {
                            self@.lemma_gap_start(k);
                            lemma_align_up(a, self@.gap_start(k));
                        }
                    }
                }
                return Err(Error::Overflow);
            },
        };
        let mut prev_end_address = self.base;
        for kv in it: self.ranges.iter()
            invariant
                self.wf(),
                req_size > 0,
                a == self@.alignment as int,
                req_align.0 == align_up(a, req_size as int),
                it.seq() == self.ranges.iter().remaining(),
                increasing_seq(keys_of(it.seq())),
                prev_end_address.0 == (if it.index() == 0 {
                    self@.base as int
                } else {
                    it.seq().unref()[it.index() - 1].0 + it.seq().unref()[it.index() - 1].1
                }),
                forall|j: int|
                    0 <= j < it.index() ==> !self@.gap_fits(
                        (#[trigger] it.seq().unref()[j]).0,
                        req_size,
                    ),
        {
            let address = GuestAddress(*kv.0);
            let size: u64 = *kv.1;
            let ghost s = it.seq().unref();
            let ghost i = it.index() as int;
            proof {
                lemma_iter_listing(&self.ranges, it.seq());
                self@.lemma_range_within(address.0);
                self.lemma_gap_start_in_listing(s, i);
                lemma_align_up(a, prev_end_address.0 as int);
            }
            // If the gap between this range and the previous one holds the
            // request, it goes to the top of that gap, its start rounded
            // down: ranges accumulate at the end of the address space.
            let fits = match self.align_address(prev_end_address) {
                Some(prev_end_align) => prev_end_align.0 <= address.0 && address.unchecked_sub(
                    prev_end_align.raw_value(),
                ).raw_value() >= req_align.0,
                None => false,
            };
            assert(fits == self@.gap_fits(address.0, req_size));
            if fits {
                proof {
                    lemma_align_up(a, req_size as int);
                }
                let addr = self.align_address_down(address.unchecked_sub(req_size));
                proof {
                    assert forall|j: u64| #[trigger]
                        self@.ranges.contains_key(j) && j < address.0 implies !self@.gap_fits(
                        j,
                        req_size,
                    ) by {
                        let x = choose|x: int| 0 <= x < s.len() && (#[trigger] s[x]).0 == j;
                        if x >= i {
                            if x > i {
                                assert(s[i].0 < s[x].0);
                            }
                        }
                    }
                    assert(self@.is_first_fit(address.0, req_size));
                    self@.lemma_first_fit(address.0, req_size);
                    self@.lemma_top_of_gap(address.0, req_size);
                }
                return Ok(addr);
            }
            prev_end_address = address.unchecked_add(size);
        }
        proof {
            let s = self.ranges.iter().remaining();
            lemma_iter_listing(&self.ranges, s);
            assert forall|k: u64| !self@.is_first_fit(k, req_size) by {
                if self@.ranges.contains_key(k) {
                    let x = choose|x: int| 0 <= x < s.unref().len() && (#[trigger] s.unref()[x]).0 == k;
                }
            }
        }
        Err(Error::Overflow)
    }

    /// In a listing of the ranges, the gap below the key at `i` starts where
    /// the entry before it ends, or at the base for the first entry.
    proof fn lemma_gap_start_in_listing(&self, s: Seq<(u64, u64)>, i: int)
        requires
            self.wf(),
            is_listing(s, self@.ranges),
            0 <= i < s.len(),
        ensures
            self@.gap_start(s[i].0) == (if i == 0 {
                self@.base as int
            } else {
                s[i - 1].0 + s[i - 1].1
            }),
    {
        let k = s[i].0;
        let sp = self@;
        if i > 0 {
            let p = s[i - 1].0;
            assert(sp.is_below(p, k)) by {
                assert forall|x: u64| #[trigger] sp.ranges.contains_key(x) && x < k implies x
                    <= p by {
                    lemma_listing_neighbours(s, sp.ranges, i, x);
                }
            }
            let j = choose|j: u64| sp.is_below(j, k);
            assert(sp.ranges.contains_key(p));
            assert(sp.ranges.contains_key(j));
            assert(j == p);
        } else {
            if exists|j: u64| sp.is_below(j, k) {
                let j = choose|j: u64| sp.is_below(j, k);
                lemma_listing_neighbours(s, sp.ranges, i, j);
            }
        }
    }

    /// Allocates `size` bytes: at `address` if one is given, else at the top
    /// of the lowest gap that holds them.
    ///
    /// A size of zero is a `NullRequest`. A given address that is not aligned
    /// is an `UnalignedAddress`, one outside the managed space an `Overflow`,
    /// one whose range touches an allocated range or leaves the managed space
    /// an `Overlap`. Without an address, `Overflow` says that no gap holds
    /// the request. On failure the allocator is unchanged.
    pub fn allocate(&mut self, address: Option<GuestAddress>, size: GuestUsize) -> (r: Result<
        GuestAddress,
        Error,
    >)
        requires
            old(self).wf(),
        ensures
            final(self).wf(),
            r == old(self)@.allocation(address, size),
            final(self)@ == old(self)@.allocated(address, size),
            r matches Ok(a) ==> {
                &&& a.0 % old(self)@.alignment == 0
                &&& old(self)@.base <= a.0
                &&& a.0 + size <= old(self)@.end + 1
                &&& old(self)@.is_free(a.0, size)
            },
    {
        proof {
            self@.lemma_allocation(address, size);
        }
        if size == 0 {
            return Err(Error::NullRequest);
        }
        let new_addr = match address {
            Some(req_address) => match self.available_range(req_address, size) {
                Ok(a) => a,
                Err(e) => {
                    return Err(e);
                },
            },
            None => match self.first_available_range(size) {
                Ok(a) => a,
                Err(e) => {
                    return Err(e);
                },
            },
        };
        self.ranges.insert(new_addr.0, size);
        proof {
            assert(self@ =~= old(self)@.with_range(new_addr.0, size));
        }
        Ok(new_addr)
    }

    /// Frees the range of exactly `size` bytes at `address`.
    ///
    /// A range is removed only if both its start and its size match; any
    /// other request, one for the marker included, changes nothing.
    pub fn free(&mut self, address: GuestAddress, size: GuestUsize)
        requires
            old(self).wf(),
        ensures
            final(self).wf(),
            final(self)@ == old(self)@.released(address.0, size),
    {
        // The marker has size zero and is never removed.
        if size == 0 {
            return ;
        }
        let found: Option<u64> = match self.ranges.get(&address.0) {
            Some(range_size) => Some(*range_size),
            None => None,
        };
        proof {
            self@.lemma_released_wf(address.0, size);
        }
        if let Some(range_size) = found {
            if size == range_size {
                self.ranges.remove(&address.0);
                proof {
                    assert(self@ =~= old(self)@.released(address.0, size));
                }
            }
        }
    }
}

/// A finite, non-empty set of numbers has a greatest element.
proof fn lemma_greatest(s: Set<u64>) -> (g: u64)
    requires
        s.finite(),
        !s.is_empty(),
    ensures
        s.contains(g),
        forall|x: u64| s.contains(x) ==> x <= g,
    decreases s.len(),
{
    let x = s.choose();
    let rest = s.remove(x);
    if rest.is_empty() {
        assert forall|y: u64| s.contains(y) implies y <= x by {
            if y != x {
                assert(rest.contains(y));
            }
        }
        x
    } else {
        let g = lemma_greatest(rest);
        let m = if x > g {
            x
        } else {
            g
        };
        assert forall|y: u64| s.contains(y) implies y <= m by {
            if y != x {
                assert(rest.contains(y));
            }
        }
        m
    }
}

} // verus!

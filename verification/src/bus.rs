//! The map from address ranges to the devices that own them, through which a
//! trapped guest access finds its device.

use crate::memory::{GuestAddress, GuestUsize};
use std::sync::Arc;
use vstd::prelude::*;

verus! {

/// A range of guest addresses: its start and its size in bytes. It spans
/// the addresses from the start up to, and not including, start plus size.
#[derive(Debug, Copy, Clone, PartialEq, Eq)]
pub struct Range(pub GuestAddress, pub GuestUsize);

/// What a bus holds: for the start of each range its size and its device.
pub type BusMap<D> = Map<u64, (u64, Arc<D>)>;

/// The ranges of a bus end within the address space and are pairwise
/// disjoint.
pub open spec fn bus_wf<D: ?Sized>(m: BusMap<D>) -> bool {
    &&& forall|k: u64| #[trigger] m.contains_key(k) ==> k + m[k].0 <= u64::MAX
    &&& forall|j: u64, k: u64|
        #![trigger m.contains_key(j), m.contains_key(k)]
        m.contains_key(j) && m.contains_key(k) && j < k ==> j + m[j].0 <= k
}

/// The range that starts at `k` is on the bus and holds `addr`.
pub open spec fn covers<D: ?Sized>(m: BusMap<D>, k: u64, addr: u64) -> bool {
    m.contains_key(k) && k <= addr < k + m[k].0
}

/// The start of the range that holds `addr`, if a range of the bus does.
pub open spec fn holder<D: ?Sized>(m: BusMap<D>, addr: u64) -> Option<u64> {
    if exists|k: u64| covers(m, k, addr) {
        Some(choose|k: u64| covers(m, k, addr))
    } else {
        None
    }
}

/// The range of `size` bytes from `start` ends within the address space,
/// starts where no range of the bus starts, and shares no address with one.
pub open spec fn is_vacant<D: ?Sized>(m: BusMap<D>, start: u64, size: u64) -> bool {
    &&& start + size <= u64::MAX
    &&& forall|k: u64| #[trigger]
        m.contains_key(k) ==> k != start && (k + m[k].0 <= start || start + size <= k)
}

/// At most one range of a well-formed bus holds an address.
pub proof fn lemma_covers_unique<D: ?Sized>(m: BusMap<D>, j: u64, k: u64, addr: u64)
    requires
        bus_wf(m),
        covers(m, j, addr),
        covers(m, k, addr),
    ensures
        j == k,
{
}

/// On a well-formed bus, the range that holds an address is its holder.
pub proof fn lemma_holder<D: ?Sized>(m: BusMap<D>, k: u64, addr: u64)
    requires
        bus_wf(m),
        covers(m, k, addr),
    ensures
        holder(m, addr) == Some(k),
{
    let c = choose|c: u64| covers(m, c, addr);
    lemma_covers_unique(m, c, k, addr);
}

/// Putting a vacant range on a well-formed bus keeps the bus well-formed.
pub proof fn lemma_insert_wf<D: ?Sized>(m: BusMap<D>, start: u64, size: u64, dev: Arc<D>)
    requires
        bus_wf(m),
        is_vacant(m, start, size),
    ensures
        bus_wf(m.insert(start, (size, dev))),
{
    let after = m.insert(start, (size, dev));
    assert forall|j: u64, k: u64|
        #![trigger after.contains_key(j), after.contains_key(k)]
        after.contains_key(j) && after.contains_key(k) && j < k implies j + after[j].0 <= k by {
        if j == start {
            assert(m.contains_key(k));
        } else if k == start {
            assert(m.contains_key(j));
        } else {
            assert(m.contains_key(j) && m.contains_key(k));
        }
    }
    assert forall|k: u64| #[trigger] after.contains_key(k) implies k + after[k].0 <= u64::MAX by {
        if k != start {
            assert(m.contains_key(k));
        }
    }
}

/// Taking a range off a well-formed bus keeps the bus well-formed.
pub proof fn lemma_remove_wf<D: ?Sized>(m: BusMap<D>, start: u64)
    requires
        bus_wf(m),
    ensures
        bus_wf(m.remove(start)),
{
    let after = m.remove(start);
    assert forall|j: u64, k: u64|
        #![trigger after.contains_key(j), after.contains_key(k)]
        after.contains_key(j) && after.contains_key(k) && j < k implies j + after[j].0 <= k by {
        assert(m.contains_key(j) && m.contains_key(k));
    }
    assert forall|k: u64| #[trigger] after.contains_key(k) implies k + after[k].0 <= u64::MAX by {
        assert(m.contains_key(k));
    }
}

/// Once a range is on a well-formed bus, its first and its last address are
/// held by it, and the address one past its end is not: that address is held
/// by no range, unless another range starts right there.
pub proof fn lemma_range_routing<D: ?Sized>(m: BusMap<D>, start: u64, probe: u64)
    requires
        bus_wf(m),
        m.contains_key(start),
        m[start].0 > 0,
    ensures
        holder(m, start) == Some(start),
        holder(m, (start + m[start].0 - 1) as u64) == Some(start),
        start + m[start].0 <= u64::MAX ==> holder(m, (start + m[start].0) as u64) != Some(start),
        start + m[start].0 <= u64::MAX && !m.contains_key((start + m[start].0) as u64) ==> holder(
            m,
            (start + m[start].0) as u64,
        ) is None,
        start <= probe < start + m[start].0 ==> holder(m, probe) == Some(start),
{
    let size = m[start].0;
    lemma_holder(m, start, start);
    lemma_holder(m, start, (start + size - 1) as u64);
    if start <= probe < start + size {
        lemma_holder(m, start, probe);
    }
    let past = (start + size) as u64;
    if exists|k: u64| covers(m, k, past) {
        let k = choose|k: u64| covers(m, k, past);
        if k < start {
            assert(k + m[k].0 <= start);
        } else if start < k {
            assert(start + m[start].0 <= k);
            assert(k == past);
        }
    }
}

/// Routes guest accesses to devices by address.
///
/// Each device is on the bus with the ranges it owns. No two ranges of a
/// bus share an address, so an address has at most one owner. The ranges
/// are kept in the order of their starts, so that the owner of an address
/// is found by bisection.
pub struct Bus<D: ?Sized> {
    entries: Vec<(u64, u64, Arc<D>)>,
}

impl<D: ?Sized> View for Bus<D> {
    type V = BusMap<D>;

    closed spec fn view(&self) -> BusMap<D> {
        Map::new(
            |k: u64| self.position_of(k) is Some,
            |k: u64|
                {
                    let e = self.entries@[self.position_of(k).unwrap()];
                    (e.1, e.2)
                },
        )
    }
}

impl<D: ?Sized> Bus<D> {
    /// Where the range that starts at `start` stands, if there is one.
    closed spec fn position_of(&self, start: u64) -> Option<int> {
        if exists|i: int| 0 <= i < self.entries@.len() && (#[trigger] self.entries@[i]).0 == start {
            Some(
                choose|i: int| 0 <= i < self.entries@.len() && (#[trigger] self.entries@[i]).0 == start,
            )
        } else {
            None
        }
    }

    /// The bus's invariant: its ranges end within the address space, stand
    /// in the order of their starts, and each ends before the next starts.
    pub closed spec fn wf(&self) -> bool {
        &&& forall|i: int|
            0 <= i < self.entries@.len() ==> (#[trigger] self.entries@[i]).0 + self.entries@[i].1
                <= u64::MAX
        &&& forall|i: int, j: int|
            0 <= i < j < self.entries@.len() ==> (#[trigger] self.entries@[i]).0 < (
            #[trigger] self.entries@[j]).0 && self.entries@[i].0 + self.entries@[i].1
                <= self.entries@[j].0
    }

    /// Each entry is on the bus under its start.
    proof fn lemma_entry(&self, i: int)
        requires
            self.wf(),
            0 <= i < self.entries@.len(),
        ensures
            self.position_of(self.entries@[i].0) == Some(i),
            self@.contains_key(self.entries@[i].0),
            self@[self.entries@[i].0] == (self.entries@[i].1, self.entries@[i].2),
    {
        let start = self.entries@[i].0;
        let c = choose|c: int| 0 <= c < self.entries@.len() && (#[trigger] self.entries@[c]).0 == start;
        if c < i {
            assert(self.entries@[c].0 < self.entries@[i].0);
        } else if i < c {
            assert(self.entries@[i].0 < self.entries@[c].0);
        }
    }

    /// A range is on the bus exactly if some entry starts where it starts.
    proof fn lemma_contains(&self, start: u64)
        ensures
            self@.contains_key(start) <==> exists|i: int|
                0 <= i < self.entries@.len() && (#[trigger] self.entries@[i]).0 == start,
    {
    }

    /// The ranges of a well-formed bus are pairwise disjoint.
    pub proof fn lemma_wf(&self)
        requires
            self.wf(),
        ensures
            bus_wf(self@),
    {
        let m = self@;
        assert forall|k: u64| #[trigger] m.contains_key(k) implies k + m[k].0 <= u64::MAX by {
            self.lemma_contains(k);
            let i = choose|i: int| 0 <= i < self.entries@.len() && (#[trigger] self.entries@[i]).0 == k;
            self.lemma_entry(i);
        }
        assert forall|j: u64, k: u64|
            #![trigger m.contains_key(j), m.contains_key(k)]
            m.contains_key(j) && m.contains_key(k) && j < k implies j + m[j].0 <= k by {
            self.lemma_contains(j);
            self.lemma_contains(k);
            let x = choose|i: int| 0 <= i < self.entries@.len() && (#[trigger] self.entries@[i]).0 == j;
            let y = choose|i: int| 0 <= i < self.entries@.len() && (#[trigger] self.entries@[i]).0 == k;
            self.lemma_entry(x);
            self.lemma_entry(y);
            if y < x {
                assert(self.entries@[y].0 < self.entries@[x].0);
            }
        }
    }

    /// A bus without devices.
    pub fn new() -> (r: Self)
        ensures
            r.wf(),
            r@ == Map::<u64, (u64, Arc<D>)>::empty(),
    {
        let r = Bus { entries: Vec::new() };
        assert(r@ =~= Map::<u64, (u64, Arc<D>)>::empty());
        r
    }

    /// The number of ranges that start at or below `addr`. The range with
    /// the greatest start not above `addr`, if there is one, stands just
    /// before that position.
    fn upper(&self, addr: u64) -> (idx: usize)
        requires
            self.wf(),
        ensures
            idx <= self.entries@.len(),
            forall|j: int| 0 <= j < idx ==> (#[trigger] self.entries@[j]).0 <= addr,
            forall|j: int| idx <= j < self.entries@.len() ==> (#[trigger] self.entries@[j]).0 > addr,
    {
        let mut lo: usize = 0;
        let mut hi: usize = self.entries.len();
        while lo < hi
            invariant
                self.wf(),
                0 <= lo <= hi <= self.entries@.len(),
                forall|j: int| 0 <= j < lo ==> (#[trigger] self.entries@[j]).0 <= addr,
                forall|j: int| hi <= j < self.entries@.len() ==> (#[trigger] self.entries@[j]).0 > addr,
            decreases hi - lo,
        {
            let mid: usize = lo + (hi - lo) / 2;
            if self.entries[mid].0 <= addr {
                proof {
                    assert forall|j: int| 0 <= j < mid + 1 implies (#[trigger] self.entries@[j]).0
                        <= addr by {
                        if j < mid {
                            assert(self.entries@[j].0 < self.entries@[mid as int].0);
                        }
                    }
                }
                lo = mid + 1;
            } else {
                proof {
                    assert forall|j: int| mid <= j < self.entries@.len() implies (
                    #[trigger] self.entries@[j]).0 > addr by {
                        if j > mid {
                            assert(self.entries@[mid as int].0 < self.entries@[j].0);
                        }
                    }
                }
                hi = mid;
            }
        }
        lo
    }

    /// Whether `range` could be put on the bus.
    pub fn is_vacant(&self, range: Range) -> (r: bool)
        requires
            self.wf(),
        ensures
            r == is_vacant(self@, range.0.0, range.1),
    {
        let start: u64 = range.0.0;
        let size: u64 = range.1;
        if size > u64::MAX - start {
            return false;
        }
        let idx = self.upper(start);
        // Only the two neighbours can be in the way: the range with the
        // greatest start not above this one, and the one after it.
        if idx > 0 {
            let below = &self.entries[idx - 1];
            if below.0 == start || below.1 > start - below.0 {
                proof {
                    self.lemma_entry(idx - 1);
                }
                return false;
            }
        }
        if idx < self.entries.len() {
            let above = &self.entries[idx];
            if above.0 - start < size {
                proof {
                    self.lemma_entry(idx as int);
                }
                return false;
            }
        }
        proof {
            assert forall|k: u64| #[trigger] self@.contains_key(k) implies k != start && (k
                + self@[k].0 <= start || start + size <= k) by {
                self.lemma_contains(k);
                let i = choose|i: int|
                    0 <= i < self.entries@.len() && (#[trigger] self.entries@[i]).0 == k;
                self.lemma_entry(i);
                if i < idx - 1 {
                    assert(self.entries@[i].0 + self.entries@[i].1 <= self.entries@[idx - 1].0);
                } else if i > idx {
                    assert(self.entries@[idx as int].0 < self.entries@[i].0);
                }
            }
        }
        true
    }

    /// Puts `range` on the bus for `dev`.
    ///
    /// Fails, and changes nothing, if the range does not end within the
    /// address space or shares its start or an address with a range that is
    /// on the bus.
    pub fn insert(&mut self, range: Range, dev: Arc<D>) -> (r: bool)
        requires
            old(self).wf(),
        ensures
            final(self).wf(),
            r == is_vacant(old(self)@, range.0.0, range.1),
            r ==> final(self)@ == old(self)@.insert(range.0.0, (range.1, dev)),
            !r ==> final(self)@ == old(self)@,
    {
        if !self.is_vacant(range) {
            return false;
        }
        let start: u64 = range.0.0;
        let size: u64 = range.1;
        let idx = self.upper(start);
        proof {
            // What stands below starts lower and ends at or below the start;
            // what stands above starts at or above the end.
            assert forall|j: int| 0 <= j < self.entries@.len() implies {
                let e = #[trigger] self.entries@[j];
                e.0 != start && (e.0 + e.1 <= start || start + size <= e.0)
            } by {
                self.lemma_entry(j);
            }
        }
        self.entries.insert(idx, (start, size, dev));
        proof {
            let before = old(self).entries@;
            let after = self.entries@;
            assert(after == before.insert(idx as int, (start, size, dev)));
            assert(self.wf()) by {
                assert forall|i: int| 0 <= i < after.len() implies (#[trigger] after[i]).0
                    + after[i].1 <= u64::MAX by {
                    if i < idx {
                        assert(after[i] == before[i]);
                    } else if i > idx {
                        assert(after[i] == before[i - 1]);
                    }
                }
                assert forall|i: int, j: int| 0 <= i < j < after.len() implies (
                #[trigger] after[i]).0 < (#[trigger] after[j]).0 && after[i].0 + after[i].1
                    <= after[j].0 by {
                    let bi = if i < idx { i } else { i - 1 };
                    let bj = if j < idx { j } else { j - 1 };
                    if i == idx {
                        assert(after[j] == before[bj]);
                    } else if j == idx {
                        assert(after[i] == before[bi]);
                    } else {
                        assert(after[i] == before[bi] && after[j] == before[bj]);
                        assert(before[bi].0 < before[bj].0);
                    }
                }
            }
            assert forall|k: u64| self@.contains_key(k) <==> old(self)@.insert(
                start,
                (size, dev),
            ).contains_key(k) by {
                self.lemma_contains(k);
                old(self).lemma_contains(k);
                if old(self)@.contains_key(k) {
                    let i = choose|i: int| 0 <= i < before.len() && (#[trigger] before[i]).0 == k;
                    let ai = if i < idx { i } else { i + 1 };
                    assert(after[ai].0 == k);
                }
                if k == start {
                    assert(after[idx as int].0 == k);
                }
                if self@.contains_key(k) && k != start {
                    let i = choose|i: int| 0 <= i < after.len() && (#[trigger] after[i]).0 == k;
                    let bi = if i < idx { i } else { i - 1 };
                    assert(before[bi].0 == k);
                }
            }
            assert forall|k: u64| self@.contains_key(k) implies self@[k] == old(self)@.insert(
                start,
                (size, dev),
            )[k] by {
                self.lemma_contains(k);
                let i = self.position_of(k).unwrap();
                self.lemma_entry(i);
                if i != idx {
                    let bi = if i < idx { i } else { i - 1 };
                    assert(before[bi] == after[i]);
                    old(self).lemma_entry(bi);
                } else {
                    assert(after[idx as int].0 == start);
                }
            }
            assert(self@ =~= old(self)@.insert(start, (size, dev)));
        }
        true
    }

    /// Takes the range that starts at `start` off the bus, if there is one.
    pub fn remove(&mut self, start: GuestAddress) -> (r: bool)
        requires
            old(self).wf(),
        ensures
            final(self).wf(),
            r == old(self)@.contains_key(start.0),
            final(self)@ == old(self)@.remove(start.0),
    {
        let idx = self.upper(start.0);
        if idx == 0 || self.entries[idx - 1].0 != start.0 {
            proof {
                self.lemma_contains(start.0);
                if self@.contains_key(start.0) {
                    let i = choose|i: int|
                        0 <= i < self.entries@.len() && (#[trigger] self.entries@[i]).0 == start.0;
                    if i < idx - 1 {
                        assert(self.entries@[i].0 < self.entries@[idx - 1].0);
                    }
                }
                assert(self@ =~= old(self)@.remove(start.0));
            }
            return false;
        }
        let at: usize = idx - 1;
        proof {
            self.lemma_entry(at as int);
        }
        let _ = self.entries.remove(at);
        proof {
            let n = start.0;
            let before = old(self).entries@;
            let after = self.entries@;
            assert(after == before.remove(at as int));
            assert(self.wf()) by {
                assert forall|i: int| 0 <= i < after.len() implies (#[trigger] after[i]).0
                    + after[i].1 <= u64::MAX by {
                    let bi = if i < at { i } else { i + 1 };
                    assert(after[i] == before[bi]);
                }
                assert forall|i: int, j: int| 0 <= i < j < after.len() implies (
                #[trigger] after[i]).0 < (#[trigger] after[j]).0 && after[i].0 + after[i].1
                    <= after[j].0 by {
                    let bi = if i < at { i } else { i + 1 };
                    let bj = if j < at { j } else { j + 1 };
                    assert(after[i] == before[bi] && after[j] == before[bj]);
                    assert(before[bi].0 < before[bj].0);
                }
            }
            assert forall|k: u64| self@.contains_key(k) <==> old(self)@.remove(n).contains_key(
                k,
            ) by {
                self.lemma_contains(k);
                old(self).lemma_contains(k);
                if self@.contains_key(k) {
                    let i = choose|i: int| 0 <= i < after.len() && (#[trigger] after[i]).0 == k;
                    let bi = if i < at { i } else { i + 1 };
                    assert(before[bi].0 == k);
                    if k == n {
                        if bi < at {
                            assert(before[bi].0 < before[at as int].0);
                        } else {
                            assert(before[at as int].0 < before[bi].0);
                        }
                    }
                }
                if old(self)@.contains_key(k) && k != n {
                    let i = choose|i: int| 0 <= i < before.len() && (#[trigger] before[i]).0 == k;
                    let ai = if i < at { i } else { i - 1 };
                    assert(after[ai].0 == k);
                }
            }
            assert forall|k: u64| self@.contains_key(k) implies self@[k] == old(self)@.remove(
                n,
            )[k] by {
                self.lemma_contains(k);
                let i = self.position_of(k).unwrap();
                let bi = if i < at { i } else { i + 1 };
                assert(before[bi] == after[i]);
                self.lemma_entry(i);
                old(self).lemma_entry(bi);
            }
            assert(self@ =~= old(self)@.remove(n));
        }
        true
    }

    /// The range that holds `addr` and its device, if a range of the bus
    /// holds that address.
    ///
    /// The range is looked for as the one with the greatest start that is
    /// not above `addr`; since the ranges are disjoint, no other range can
    /// hold the address.
    pub fn lookup(&self, addr: GuestAddress) -> (r: Option<(Range, Arc<D>)>)
        requires
            self.wf(),
        ensures
            match r {
                Some((range, dev)) => {
                    &&& holder(self@, addr.0) == Some(range.0.0)
                    &&& self@[range.0.0] == (range.1, dev)
                },
                None => holder(self@, addr.0) is None,
            },
    {
        let idx = self.upper(addr.0);
        proof {
            self.lemma_wf();
        }
        if idx > 0 {
            let floor = &self.entries[idx - 1];
            if addr.0 - floor.0 < floor.1 {
                proof {
                    self.lemma_entry(idx - 1);
                    lemma_holder(self@, floor.0, addr.0);
                }
                return Some((Range(GuestAddress(floor.0), floor.1), floor.2.clone()));
            }
        }
        proof {
            if exists|x: u64| covers(self@, x, addr.0) {
                let x = choose|x: u64| covers(self@, x, addr.0);
                self.lemma_contains(x);
                let i = choose|i: int|
                    0 <= i < self.entries@.len() && (#[trigger] self.entries@[i]).0 == x;
                self.lemma_entry(i);
                if i < idx - 1 {
                    assert(self.entries@[i].0 + self.entries@[i].1 <= self.entries@[idx - 1].0);
                } else if i >= idx {
                    assert(self.entries@[i].0 > addr.0);
                }
            }
        }
        None
    }
}

} // verus!

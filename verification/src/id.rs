//! Allocation of unique unsigned 32-bit identifiers from an inclusive range.

use vstd::prelude::*;

verus! {

/// Why an identifier could not be allocated.
#[derive(Debug, Clone, Copy, PartialEq, Eq)]
pub enum Error {
    /// Every identifier of the managed range is in use.
    Overflow,
    /// The requested identifier is already in use.
    Duplicated,
    /// The requested identifier lies outside the managed range.
    Invalid,
}

impl Error {
    /// The text that describes each error.
    pub open spec fn spec_message(self) -> Seq<char> {
        match self {
            Error::Overflow => "Integer is overflow"@,
            Error::Duplicated => "Integer being allocated is duplicated"@,
            Error::Invalid => "Integer being allocated is invalid"@,
        }
    }

    /// A human-readable description of the error.
    pub fn message(&self) -> (s: &'static str)
        ensures
            s@ == self.spec_message(),
    {
        match self {
            Error::Overflow => "Integer is overflow",
            Error::Duplicated => "Integer being allocated is duplicated",
            Error::Invalid => "Integer being allocated is invalid",
        }
    }
}

/// The mathematical content of an [`IdAllocator`]: its inclusive bounds and
/// the set of identifiers in use.
pub struct IdSpace {
    pub start: u32,
    pub end: u32,
    pub used: Set<u32>,
}

impl IdSpace {
    /// Every used identifier lies within the bounds.
    pub open spec fn wf(self) -> bool {
        forall|v: u32| #[trigger] self.used.contains(v) ==> self.start <= v <= self.end
    }

    /// `v` is free, within the bounds, and every smaller identifier of the
    /// range is in use.
    pub open spec fn is_lowest_free(self, v: u32) -> bool {
        &&& self.start <= v <= self.end
        &&& !self.used.contains(v)
        &&& forall|w: u32| self.start <= w < v ==> self.used.contains(w)
    }

    /// Every identifier of the range is in use.
    pub open spec fn is_full(self) -> bool {
        forall|w: u32| self.start <= w <= self.end ==> self.used.contains(w)
    }

    /// What an allocation request yields in this space: the identifier asked
    /// for, or the lowest free one where none is asked for.
    pub open spec fn allocation(self, number: Option<u32>) -> Result<u32, Error> {
        match number {
            Some(n) => if n < self.start || n > self.end {
                Err(Error::Invalid)
            } else if self.used.contains(n) {
                Err(Error::Duplicated)
            } else {
                Ok(n)
            },
            None => if self.is_full() {
                Err(Error::Overflow)
            } else {
                Ok(choose|v: u32| self.is_lowest_free(v))
            },
        }
    }

    /// The space with `v` in use.
    pub open spec fn with_id(self, v: u32) -> IdSpace {
        IdSpace { used: self.used.insert(v), ..self }
    }

    /// The space with `v` not in use.
    pub open spec fn without_id(self, v: u32) -> IdSpace {
        IdSpace { used: self.used.remove(v), ..self }
    }

    /// The space after an allocation request: with the allocated identifier
    /// in use, or unchanged where the request fails.
    pub open spec fn allocated(self, number: Option<u32>) -> IdSpace {
        match self.allocation(number) {
            Ok(v) => self.with_id(v),
            Err(_) => self,
        }
    }

    /// At most one identifier is the lowest free one.
    pub proof fn lemma_lowest_free_unique(self, a: u32, b: u32)
        requires
            self.is_lowest_free(a),
            self.is_lowest_free(b),
        ensures
            a == b,
    {
        if a < b {
            assert(self.used.contains(a));
        } else if b < a {
            assert(self.used.contains(b));
        }
    }

    /// A space with a lowest free identifier yields it on a wildcard request.
    pub proof fn lemma_wildcard(self, v: u32)
        requires
            self.is_lowest_free(v),
        ensures
            self.allocation(None) == Ok::<u32, Error>(v),
    {
        let c = choose|c: u32| self.is_lowest_free(c);
        self.lemma_lowest_free_unique(c, v);
    }

    /// An allocated identifier was free and lies within the bounds, and the
    /// space stays well-formed.
    pub proof fn lemma_allocated(self, number: Option<u32>)
        requires
            self.wf(),
        ensures
            self.allocated(number).wf(),
            self.allocation(number) matches Ok(v) ==> !self.used.contains(v) && self.start <= v
                <= self.end,
    {
        if number is None && !self.is_full() {
            let w = choose|w: u32| self.start <= w <= self.end && !self.used.contains(w);
            let v = lemma_least_free(self, w);
            self.lemma_wildcard(v);
        }
    }

    /// Freeing an identifier that was just allocated restores the space.
    pub proof fn lemma_free_after_allocate(self, number: Option<u32>)
        requires
            self.wf(),
            self.allocation(number) is Ok,
        ensures
            self.allocated(number).without_id(self.allocation(number).unwrap()) == self,
    {
        self.lemma_allocated(number);
        let v = self.allocation(number).unwrap();
        assert(self.used.insert(v).remove(v) =~= self.used);
    }
}

/// Below a free identifier of the range lies a lowest free one.
proof fn lemma_least_free(space: IdSpace, w: u32) -> (v: u32)
    requires
        space.start <= w <= space.end,
        !space.used.contains(w),
    ensures
        space.is_lowest_free(v),
    decreases w - space.start,
{
    if exists|x: u32| space.start <= x < w && !space.used.contains(x) {
        let x = choose|x: u32| space.start <= x < w && !space.used.contains(x);
        lemma_least_free(space, x)
    } else {
        w
    }
}

/// Hands out unique identifiers from the inclusive range `[start, end]`.
#[derive(Debug)]
pub struct IdAllocator {
    start: u32,
    end: u32,
    used_map: Vec<u32>,
}

impl View for IdAllocator {
    type V = IdSpace;

    closed spec fn view(&self) -> IdSpace {
        IdSpace { start: self.start, end: self.end, used: self.used_map@.to_set() }
    }
}

impl IdAllocator {
    /// The used identifiers in the order in which the allocator keeps them.
    pub closed spec fn sequence(&self) -> Seq<u32> {
        self.used_map@
    }

    /// The allocator's invariant: the sequence of used identifiers ascends
    /// strictly, so it is sorted and free of duplicates, it holds exactly the
    /// used identifiers, and these lie within the bounds.
    pub open spec fn wf(&self) -> bool {
        &&& forall|i: int, j: int|
            0 <= i < j < self.sequence().len() ==> self.sequence()[i] < self.sequence()[j]
        &&& self.sequence().to_set() == self@.used
        &&& self@.wf()
    }

    /// The sequence holds a value exactly if it is in use, and its members
    /// lie within the bounds.
    proof fn lemma_sequence(&self)
        requires
            self.wf(),
        ensures
            forall|x: u32| self.used_map@.contains(x) <==> self@.used.contains(x),
            forall|i: int|
                0 <= i < self.used_map@.len() ==> self.start <= #[trigger] self.used_map@[i]
                    <= self.end,
            self@.start == self.start,
            self@.end == self.end,
    {
        assert forall|i: int| 0 <= i < self.used_map@.len() implies self.start
            <= #[trigger] self.used_map@[i] <= self.end by {
            assert(self.used_map@.contains(self.used_map@[i]));
            assert(self@.used.contains(self.used_map@[i]));
        }
    }

    /// Creates an allocator for `[start, end]` with no identifier in use.
    ///
    /// The bounds are not validated: with `start > end` the range is empty and
    /// every request fails.
    pub fn new(start: u32, end: u32) -> (r: Option<Self>)
        ensures
            r is Some,
            r.unwrap().wf(),
            r.unwrap()@ == (IdSpace { start, end, used: Set::empty() }),
    {
        let allocator = IdAllocator { start, end, used_map: Vec::new() };
        assert(allocator@.used =~= Set::<u32>::empty());
        Some(allocator)
    }

    /// The lowest identifier of the range that is not in use, if there is one.
    pub fn first_usable_number(&self) -> (r: Option<u32>)
        requires
            self.wf(),
        ensures
            match r {
                Some(v) => self@.is_lowest_free(v),
                None => self@.is_full(),
            },
    {
        let ghost u = self.used_map@;
        proof {
            self.lemma_sequence();
        }
        let mut previous: u32 = self.start;
        let mut i: usize = 0;
        while i < self.used_map.len()
            invariant
                self.wf(),
                u == self.used_map@,
                forall|x: u32| u.contains(x) <==> self@.used.contains(x),
                forall|k: int| 0 <= k < u.len() ==> self.start <= #[trigger] u[k] <= self.end,
                self@.start == self.start,
                self@.end == self.end,
                0 <= i <= u.len(),
                previous == self.start + i,
                forall|j: int| 0 <= j < i ==> u[j] == self.start + j,
            decreases u.len() - i,
        {
            let x: u32 = self.used_map[i];
            proof {
                // The sequence ascends, so this member is not below the run
                // that precedes it.
                if i > 0 {
                    assert(u[i as int - 1] == self.start + (i as int - 1));
                    assert(self.sequence()[i as int - 1] < self.sequence()[i as int]);
                }
                assert(self.start <= u[i as int]);
                assert(x >= previous);
            }
            if x > previous {
                proof {
                    assert forall|w: u32| self.start <= w < previous implies self@.used.contains(
                        w,
                    ) by {
                        assert(u[w - self.start] == w);
                        assert(u.contains(w));
                    }
                    assert(!u.contains(previous)) by {
                        if u.contains(previous) {
                            let k = choose|k: int| 0 <= k < u.len() && u[k] == previous;
                            if k > i {
                                assert(self.sequence()[i as int] < self.sequence()[k]);
                            }
                        }
                    }
                }
                return Some(previous);
            }
            match x.checked_add(1) {
                Some(p) => {
                    previous = p;
                },
                None => {
                    proof {
                        assert forall|w: u32| self.start <= w <= self.end implies self@.used.contains(
                            w,
                        ) by {
                            assert(u[w - self.start] == w);
                            assert(u.contains(w));
                        }
                    }
                    return None;
                },
            }
            i += 1;
        }
        if previous <= self.end {
            proof {
                assert forall|w: u32| self.start <= w < previous implies self@.used.contains(w) by {
                    assert(u[w - self.start] == w);
                    assert(u.contains(w));
                }
                assert(!u.contains(previous)) by {
                    if u.contains(previous) {
                        let k = choose|k: int| 0 <= k < u.len() && u[k] == previous;
                        assert(u[k] == self.start + k);
                    }
                }
            }
            Some(previous)
        } else {
            proof {
                assert forall|w: u32| self.start <= w <= self.end implies self@.used.contains(w) by {
                    assert(u[w - self.start] == w);
                    assert(u.contains(w));
                }
            }
            None
        }
    }

    /// The number of used identifiers that are smaller than `number`, which
    /// is the position of `number` in the sequence if it occurs there.
    fn position(&self, number: u32) -> (idx: usize)
        requires
            self.wf(),
        ensures
            idx <= self.used_map@.len(),
            forall|j: int| 0 <= j < idx ==> self.used_map@[j] < number,
            forall|j: int| idx <= j < self.used_map@.len() ==> self.used_map@[j] >= number,
            self@.used.contains(number) <==> idx < self.used_map@.len() && self.used_map@[idx as int]
                == number,
    {
        let ghost u = self.used_map@;
        let mut lo: usize = 0;
        let mut hi: usize = self.used_map.len();
        while lo < hi
            invariant
                self.wf(),
                u == self.used_map@,
                0 <= lo <= hi <= u.len(),
                forall|j: int| 0 <= j < lo ==> u[j] < number,
                forall|j: int| hi <= j < u.len() ==> u[j] >= number,
            decreases hi - lo,
        {
            let mid: usize = lo + (hi - lo) / 2;
            if self.used_map[mid] < number {
                proof {
                    assert forall|j: int| 0 <= j < mid + 1 implies u[j] < number by {
                        if j < mid {
                            assert(self.sequence()[j] < self.sequence()[mid as int]);
                        }
                    }
                }
                lo = mid + 1;
            } else {
                proof {
                    assert forall|j: int| mid <= j < u.len() implies u[j] >= number by {
                        if j > mid {
                            assert(self.sequence()[mid as int] < self.sequence()[j]);
                        }
                    }
                }
                hi = mid;
            }
        }
        proof {
            self.lemma_sequence();
            if u.contains(number) {
                let k = choose|k: int| 0 <= k < u.len() && u[k] == number;
                if k > lo {
                    assert(self.sequence()[lo as int] < self.sequence()[k]);
                }
            }
            if lo < u.len() && u[lo as int] == number {
                assert(u.contains(number));
            }
        }
        lo
    }

    /// Allocates an identifier: `number` itself if one is given, else the
    /// lowest free identifier of the range.
    ///
    /// A given identifier outside the range is `Invalid`, one in use is
    /// `Duplicated`; a wildcard request on a full range is `Overflow`. On
    /// failure the allocator is unchanged.
    pub fn allocate(&mut self, number: Option<u32>) -> (r: Result<u32, Error>)
        requires
            old(self).wf(),
        ensures
            final(self).wf(),
            r == old(self)@.allocation(number),
            final(self)@ == old(self)@.allocated(number),
    {
        proof {
            self.lemma_sequence();
        }
        let new: u32 = match number {
            Some(num) => {
                if num < self.start || num > self.end {
                    return Err(Error::Invalid);
                }
                let at = self.position(num);
                if at < self.used_map.len() && self.used_map[at] == num {
                    return Err(Error::Duplicated);
                }
                num
            },
            None => {
                match self.first_usable_number() {
                    Some(v) => {
                        proof {
                            self@.lemma_wildcard(v);
                        }
                        v
                    },
                    None => {
                        return Err(Error::Overflow);
                    },
                }
            },
        };
        assert(old(self)@.allocation(number) == Ok::<u32, Error>(new));
        assert(!self@.used.contains(new));
        let idx = self.position(new);
        self.used_map.insert(idx, new);
        proof {
            let before = old(self).used_map@;
            let after = self.used_map@;
            assert(after == before.insert(idx as int, new));
            assert forall|x: u32| after.contains(x) <==> (before.contains(x) || x == new) by {
                if after.contains(x) {
                    let k = choose|k: int| 0 <= k < after.len() && after[k] == x;
                    if k < idx {
                        assert(before[k] == x);
                    } else if k > idx {
                        assert(before[k - 1] == x);
                    }
                }
                if before.contains(x) {
                    let k = choose|k: int| 0 <= k < before.len() && before[k] == x;
                    if k < idx {
                        assert(after[k] == x);
                    } else {
                        assert(after[k + 1] == x);
                    }
                }
                if x == new {
                    assert(after[idx as int] == x);
                }
            }
            assert forall|i: int, j: int| 0 <= i < j < after.len() implies after[i] < after[j] by {
                if j < idx {
                    assert(old(self).sequence()[i] < old(self).sequence()[j]);
                } else if i > idx {
                    assert(old(self).sequence()[i - 1] < old(self).sequence()[j - 1]);
                } else if i == idx {
                    assert(before[j - 1] >= new);
                    if before[j - 1] == new {
                        assert(before.contains(new));
                    }
                } else if j > idx {
                    assert(old(self).sequence()[i] < old(self).sequence()[j - 1]);
                }
            }
            assert(self@.used =~= old(self)@.used.insert(new));
            assert(self@ == old(self)@.with_id(new));
        }
        Ok(new)
    }

    /// Releases `number`; releasing an identifier that is not in use changes
    /// nothing.
    pub fn free(&mut self, number: u32)
        requires
            old(self).wf(),
        ensures
            final(self).wf(),
            final(self)@ == old(self)@.without_id(number),
    {
        proof {
            self.lemma_sequence();
        }
        let idx = self.position(number);
        if idx < self.used_map.len() && self.used_map[idx] == number {
            self.used_map.remove(idx);
            proof {
                let before = old(self).used_map@;
                let after = self.used_map@;
                assert(after == before.remove(idx as int));
                assert forall|x: u32| after.contains(x) <==> (before.contains(x) && x
                    != number) by {
                    if after.contains(x) {
                        let k = choose|k: int| 0 <= k < after.len() && after[k] == x;
                        if k < idx {
                            assert(before[k] == x);
                        } else {
                            assert(before[k + 1] == x);
                            assert(old(self).sequence()[idx as int] < old(self).sequence()[k + 1]);
                        }
                    }
                    if before.contains(x) && x != number {
                        let k = choose|k: int| 0 <= k < before.len() && before[k] == x;
                        if k < idx {
                            assert(after[k] == x);
                        } else {
                            assert(after[k - 1] == x);
                        }
                    }
                }
                assert forall|i: int, j: int| 0 <= i < j < after.len() implies after[i]
                    < after[j] by {
                    let bi = if i < idx { i } else { i + 1 };
                    let bj = if j < idx { j } else { j + 1 };
                    assert(old(self).sequence()[bi] < old(self).sequence()[bj]);
                }
                assert(self@.used =~= old(self)@.used.remove(number));
            }
        } else {
            proof {
                assert(self@.used =~= old(self)@.used.remove(number));
            }
        }
    }
}

} // verus!

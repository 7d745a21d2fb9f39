//! Bookkeeping for page-aligned memory segments and their protection state.
//!
//! The manager records every allocated segment and whether its pages are
//! currently protected. It decides which address ranges must change
//! protection; the caller that owns the actual mappings performs the
//! `mmap`/`mprotect`/`munmap` system calls on the ranges handed back, so
//! the decisions here are verified while the system calls stay outside.

use vstd::prelude::*;

verus! {

/// A segment of memory allocated through the runtime's allocation entry
/// points: a base address, a size in bytes, and its protection state.
#[derive(Debug, Clone, Copy, PartialEq, Eq, Structural)]
pub struct MemorySegment {
    pub address: usize,
    pub size: usize,
    pub protected: bool,
}

impl MemorySegment {
    /// Whether this segment contains the given pointer in its range.
    pub fn contains(&self, pointer: usize) -> (r: bool)
        ensures
            r == (self.address <= pointer && pointer < self.address + self.size),
    {
        pointer >= self.address && pointer - self.address < self.size
    }

    /// Rounds `size` up to the next multiple of `page_size`.
    ///
    /// The bound on `size` is what lets the rounded value fit in `usize`.
    pub fn page_aligned_size(size: usize, page_size: usize) -> (r: usize)
        requires
            page_size > 0,
            size + page_size <= usize::MAX,
        ensures
            r >= size,
            r % page_size == 0,
            r < size + page_size,
    {
        if size % page_size != 0 {
            let num_pages = size / page_size + 1;
            proof {
                vstd::arithmetic::div_mod::lemma_fundamental_div_mod(
                    size as int,
                    page_size as int,
                );
                assert((size / page_size + 1) * page_size == (size / page_size) * page_size
                    + page_size) by (nonlinear_arith);
                assert((size / page_size) * page_size == page_size * (size / page_size))
                    by (nonlinear_arith);
                vstd::arithmetic::div_mod::lemma_mod_multiples_basic(
                    size as int / page_size as int + 1,
                    page_size as int,
                );
            }
            num_pages * page_size
        } else {
            size
        }
    }

    /// Marks the segment protected. Returns whether the permission state
    /// changed, so that the owner of the mapping can revoke access.
    pub fn protect(&mut self) -> (changed: bool)
        ensures
            final(self).address == old(self).address,
            final(self).size == old(self).size,
            final(self).protected,
            changed == !old(self).protected,
    {
        if self.protected {
            return false;
        }
        self.protected = true;
        true
    }

    /// Marks the segment unprotected. Returns whether the permission state
    /// changed, so that the owner of the mapping can restore access.
    pub fn unprotect(&mut self) -> (changed: bool)
        ensures
            final(self).address == old(self).address,
            final(self).size == old(self).size,
            !final(self).protected,
            changed == old(self).protected,
    {
        if !self.protected {
            return false;
        }
        self.protected = false;
        true
    }
}

/// Mathematical content of a [`MemoryManager`].
pub ghost struct MemoryManagerView {
    pub segments: Seq<MemorySegment>,
    pub all_protected: bool,
}

impl MemoryManagerView {
    /// The sticky flag never lies: when it is set, every recorded segment is
    /// protected. Every operation below preserves this, so the flag's
    /// short-circuit in `protect_all` skips no real work.
    pub open spec fn coherent(self) -> bool {
        self.all_protected ==> forall|i: int|
            0 <= i < self.segments.len() ==> (#[trigger] self.segments[i]).protected
    }
}

/// The index of the first segment whose range contains `pointer`.
pub open spec fn segment_index_spec(segments: Seq<MemorySegment>, pointer: usize) -> Option<int>
    decreases segments.len(),
{
    if segments.len() == 0 {
        None
    } else if segments[0].address <= pointer && pointer < segments[0].address + segments[0].size {
        Some(0)
    } else {
        match segment_index_spec(segments.skip(1), pointer) {
            Some(i) => Some(i + 1),
            None => None,
        }
    }
}

/// `segments` with every segment marked protected.
pub open spec fn all_protected_spec(segments: Seq<MemorySegment>) -> Seq<MemorySegment> {
    segments.map_values(
        |s: MemorySegment| MemorySegment { protected: true, ..s },
    )
}

/// `segments` with every segment marked unprotected.
pub open spec fn all_unprotected_spec(segments: Seq<MemorySegment>) -> Seq<MemorySegment> {
    segments.map_values(
        |s: MemorySegment| MemorySegment { protected: false, ..s },
    )
}

/// The address ranges of the segments in `segments` that are unprotected,
/// in order.
pub open spec fn unprotected_ranges(segments: Seq<MemorySegment>) -> Seq<(usize, usize)> {
    segments.filter(|s: MemorySegment| !s.protected).map_values(
        |s: MemorySegment| (s.address, s.size),
    )
}

/// The address ranges of the segments in `segments` that are protected,
/// in order.
pub open spec fn protected_ranges(segments: Seq<MemorySegment>) -> Seq<(usize, usize)> {
    segments.filter(|s: MemorySegment| s.protected).map_values(
        |s: MemorySegment| (s.address, s.size),
    )
}

/// Owns the record of allocated segments and their protection state.
#[derive(Debug)]
pub struct MemoryManager {
    allocations: Vec<MemorySegment>,
    all_protected: bool,
}

impl View for MemoryManager {
    type V = MemoryManagerView;

    closed spec fn view(&self) -> MemoryManagerView {
        MemoryManagerView { segments: self.allocations@, all_protected: self.all_protected }
    }
}

impl MemoryManager {
    /// Returns a manager with no recorded segments.
    pub fn new() -> (r: MemoryManager)
        ensures
            r@.segments == Seq::<MemorySegment>::empty(),
            !r@.all_protected,
            r@.coherent(),
    {
        MemoryManager { allocations: Vec::new(), all_protected: false }
    }

    /// The recorded segments, for inspection.
    pub fn segments(&self) -> (r: &Vec<MemorySegment>)
        ensures
            r@ == self@.segments,
    {
        &self.allocations
    }

    /// Whether the sticky everything-protected flag is set.
    pub fn is_all_protected(&self) -> (r: bool)
        ensures
            r == self@.all_protected,
    {
        self.all_protected
    }

    /// Records a mapping of `size` bytes at `address`; `lazy` segments start
    /// protected. The sticky flag stays set only if the whole arena remains
    /// protected, that is, if it was set and the new segment is protected too.
    pub fn allocate(&mut self, address: usize, size: usize, lazy: bool)
        ensures
            final(self)@.segments == old(self)@.segments.push(
                (MemorySegment { address, size, protected: lazy }),
            ),
            final(self)@.all_protected == (old(self)@.all_protected && lazy),
            old(self)@.coherent() ==> final(self)@.coherent(),
    {
        self.allocations.push(MemorySegment { address, size, protected: lazy });
        self.all_protected = self.all_protected && lazy;
    }

    /// The index of the first recorded segment containing `pointer`.
    fn segment_index(&self, pointer: usize) -> (r: Option<usize>)
        ensures
            match r {
                Some(i) => i < self@.segments.len() && segment_index_spec(self@.segments, pointer)
                    == Some(i as int),
                None => segment_index_spec(self@.segments, pointer) is None,
            },
    {
        let mut i: usize = 0;
        while i < self.allocations.len()
            invariant
                i <= self@.segments.len(),
                forall|j: int|
                    0 <= j < i ==> !(self@.segments[j].address <= pointer && pointer
                        < self@.segments[j].address + self@.segments[j].size),
            decreases self@.segments.len() - i,
        {
            if self.allocations[i].contains(pointer) {
                proof {
                    lemma_segment_index_first(self@.segments, pointer, i as int);
                }
                return Some(i);
            }
            i = i + 1;
        }
        proof {
            lemma_segment_index_none(self@.segments, pointer);
        }
        None
    }

    /// Removes the segment containing `pointer` from the record and hands it
    /// back so its mapping can be unmapped. Unknown pointers are a silent
    /// no-op. The order of the remaining segments is not preserved.
    pub fn free(&mut self, pointer: usize) -> (r: Option<MemorySegment>)
        ensures
            match segment_index_spec(old(self)@.segments, pointer) {
                Some(i) => r == Some(old(self)@.segments[i]) && final(self)@.segments == old(
                    self,
                )@.segments.update(i, old(self)@.segments.last()).drop_last(),
                None => r is None && final(self)@.segments == old(self)@.segments,
            },
            final(self)@.all_protected == old(self)@.all_protected,
            old(self)@.coherent() ==> final(self)@.coherent(),
    {
        if let Some(index) = self.segment_index(pointer) {
            let segment = self.allocations.swap_remove(index);
            Some(segment)
        } else {
            None
        }
    }

    /// Marks the segment containing `pointer` protected. Returns the address
    /// range on which access must now be revoked, if any; unknown pointers
    /// and already-protected segments need no change.
    pub fn protect(&mut self, pointer: usize) -> (r: Option<(usize, usize)>)
        ensures
            match segment_index_spec(old(self)@.segments, pointer) {
                Some(i) => {
                    &&& final(self)@.segments == old(self)@.segments.update(
                        i,
                        (MemorySegment { protected: true, ..old(self)@.segments[i] }),
                    )
                    &&& r == if old(self)@.segments[i].protected {
                        None::<(usize, usize)>
                    } else {
                        Some((old(self)@.segments[i].address, old(self)@.segments[i].size))
                    }
                },
                None => r is None && final(self)@.segments == old(self)@.segments,
            },
            final(self)@.all_protected == old(self)@.all_protected,
            old(self)@.coherent() ==> final(self)@.coherent(),
    {
        if let Some(index) = self.segment_index(pointer) {
            let segment = &mut self.allocations[index];
            let address = segment.address;
            let size = segment.size;
            let changed = segment.protect();
            proof {
                assert(self.allocations@ =~= old(self).allocations@.update(
                    index as int,
                    self.allocations@[index as int],
                ));
            }
            if changed {
                Some((address, size))
            } else {
                proof {
                    assert(self.allocations@ =~= old(self).allocations@.update(
                        index as int,
                        (MemorySegment {
                            protected: true,
                            ..old(self)@.segments[index as int]
                        }),
                    ));
                }
                None
            }
        } else {
            None
        }
    }

    /// Marks every segment protected and sets the sticky flag. Returns the
    /// address ranges that were unprotected, in order, so access can be
    /// revoked on them; when the sticky flag is already set, nothing is done.
    pub fn protect_all(&mut self) -> (work: Vec<(usize, usize)>)
        ensures
            old(self)@.all_protected ==> final(self)@ == old(self)@ && work@ == Seq::<(
                usize,
                usize,
            )>::empty(),
            !old(self)@.all_protected ==> {
                &&& final(self)@.segments == all_protected_spec(old(self)@.segments)
                &&& final(self)@.all_protected
                &&& work@ == unprotected_ranges(old(self)@.segments)
            },
            old(self)@.coherent() ==> final(self)@.coherent(),
    {
        let mut work: Vec<(usize, usize)> = Vec::new();
        if self.all_protected {
            return work;
        }
        let ghost orig = self.allocations@;
        let mut i: usize = 0;
        while i < self.allocations.len()
            invariant
                i <= orig.len(),
                self.allocations@.len() == orig.len(),
                forall|j: int|
                    i <= j < orig.len() ==> self.allocations@[j] == orig[j],
                forall|j: int|
                    0 <= j < i ==> self.allocations@[j] == (MemorySegment {
                        protected: true,
                        ..orig[j]
                    }),
                work@ == unprotected_ranges(orig.take(i as int)),
            decreases orig.len() - i,
        {
            proof {
                assert(orig.take(i + 1).drop_last() =~= orig.take(i as int));
                reveal(Seq::filter);
            }
            let segment = &mut self.allocations[i];
            let address = segment.address;
            let size = segment.size;
            let changed = segment.protect();
            if changed {
                work.push((address, size));
            }
            proof {
                lemma_ranges_step_unprotected(orig, i as int);
            }
            i = i + 1;
        }
        self.all_protected = true;
        proof {
            assert(orig.take(orig.len() as int) =~= orig);
            assert(self.allocations@ =~= all_protected_spec(orig));
        }
        work
    }

    /// Marks every segment unprotected and clears the sticky flag. Returns
    /// the address ranges that were protected, in order, so access can be
    /// restored on them.
    pub fn unprotect_all(&mut self) -> (work: Vec<(usize, usize)>)
        ensures
            final(self)@.segments == all_unprotected_spec(old(self)@.segments),
            !final(self)@.all_protected,
            work@ == protected_ranges(old(self)@.segments),
            final(self)@.coherent(),
    {
        let mut work: Vec<(usize, usize)> = Vec::new();
        let ghost orig = self.allocations@;
        let mut i: usize = 0;
        while i < self.allocations.len()
            invariant
                i <= orig.len(),
                self.allocations@.len() == orig.len(),
                forall|j: int|
                    i <= j < orig.len() ==> self.allocations@[j] == orig[j],
                forall|j: int|
                    0 <= j < i ==> self.allocations@[j] == (MemorySegment {
                        protected: false,
                        ..orig[j]
                    }),
                work@ == protected_ranges(orig.take(i as int)),
            decreases orig.len() - i,
        {
            proof {
                assert(orig.take(i + 1).drop_last() =~= orig.take(i as int));
                reveal(Seq::filter);
            }
            let segment = &mut self.allocations[i];
            let address = segment.address;
            let size = segment.size;
            let changed = segment.unprotect();
            if changed {
                work.push((address, size));
            }
            proof {
                lemma_ranges_step_protected(orig, i as int);
            }
            i = i + 1;
        }
        self.all_protected = false;
        proof {
            assert(orig.take(orig.len() as int) =~= orig);
            assert(self.allocations@ =~= all_unprotected_spec(orig));
        }
        work
    }
}

proof fn lemma_segment_index_first(segments: Seq<MemorySegment>, pointer: usize, i: int)
    requires
        0 <= i < segments.len(),
        segments[i].address <= pointer && pointer < segments[i].address + segments[i].size,
        forall|j: int|
            0 <= j < i ==> !(segments[j].address <= pointer && pointer < segments[j].address
                + segments[j].size),
    ensures
        segment_index_spec(segments, pointer) == Some(i),
    decreases i,
{
    if i == 0 {
    } else {
        assert(segments.skip(1)[i - 1] == segments[i]);
        assert(forall|j: int|
            0 <= j < i - 1 ==> segments.skip(1)[j] == segments[j + 1]);
        lemma_segment_index_first(segments.skip(1), pointer, i - 1);
    }
}

proof fn lemma_segment_index_none(segments: Seq<MemorySegment>, pointer: usize)
    requires
        forall|j: int|
            0 <= j < segments.len() ==> !(segments[j].address <= pointer && pointer
                < segments[j].address + segments[j].size),
    ensures
        segment_index_spec(segments, pointer) is None,
    decreases segments.len(),
{
    if segments.len() > 0 {
        assert(forall|j: int|
            0 <= j < segments.skip(1).len() ==> segments.skip(1)[j] == segments[j + 1]);
        lemma_segment_index_none(segments.skip(1), pointer);
    }
}

proof fn lemma_ranges_step_unprotected(segments: Seq<MemorySegment>, i: int)
    requires
        0 <= i < segments.len(),
    ensures
        !segments[i].protected ==> unprotected_ranges(segments.take(i + 1)) == unprotected_ranges(
            segments.take(i),
        ).push((segments[i].address, segments[i].size)),
        segments[i].protected ==> unprotected_ranges(segments.take(i + 1)) == unprotected_ranges(
            segments.take(i),
        ),
{
    reveal(Seq::filter);
    assert(segments.take(i + 1).drop_last() =~= segments.take(i));
    assert(segments.take(i + 1).last() == segments[i]);
    let f = |s: MemorySegment| !s.protected;
    let g = |s: MemorySegment| (s.address, s.size);
    if !segments[i].protected {
        assert(segments.take(i + 1).filter(f) == segments.take(i).filter(f).push(segments[i]));
        assert(unprotected_ranges(segments.take(i + 1)) =~= unprotected_ranges(
            segments.take(i),
        ).push((segments[i].address, segments[i].size)));
    } else {
        assert(segments.take(i + 1).filter(f) == segments.take(i).filter(f));
    }
}

proof fn lemma_ranges_step_protected(segments: Seq<MemorySegment>, i: int)
    requires
        0 <= i < segments.len(),
    ensures
        segments[i].protected ==> protected_ranges(segments.take(i + 1)) == protected_ranges(
            segments.take(i),
        ).push((segments[i].address, segments[i].size)),
        !segments[i].protected ==> protected_ranges(segments.take(i + 1)) == protected_ranges(
            segments.take(i),
        ),
{
    reveal(Seq::filter);
    assert(segments.take(i + 1).drop_last() =~= segments.take(i));
    assert(segments.take(i + 1).last() == segments[i]);
    let f = |s: MemorySegment| s.protected;
    if segments[i].protected {
        assert(segments.take(i + 1).filter(f) == segments.take(i).filter(f).push(segments[i]));
        assert(protected_ranges(segments.take(i + 1)) =~= protected_ranges(
            segments.take(i),
        ).push((segments[i].address, segments[i].size)));
    } else {
        assert(segments.take(i + 1).filter(f) == segments.take(i).filter(f));
    }
}

/// Protecting the whole arena and then unprotecting it returns every segment
/// to an unprotected state; when no segment was protected to begin with, the
/// arena is back in exactly the permission state it started in. The sticky
/// flag itself ends cleared either way.
pub proof fn lemma_protect_unprotect_round_trip(segments: Seq<MemorySegment>)
    requires
        forall|j: int| 0 <= j < segments.len() ==> !segments[j].protected,
    ensures
        all_unprotected_spec(all_protected_spec(segments)) == segments,
{
    assert(all_unprotected_spec(all_protected_spec(segments)) =~= segments);
}

} // verus!

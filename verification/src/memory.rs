//! Physical 4 KiB frame allocation with deterministic, fixed-size metadata.
use vstd::prelude::*;
use crate::ipc::lemma_wrap;

verus! {

pub const PAGE_SIZE: u64 = 4096;

#[derive(Clone, Copy, Debug, PartialEq, Eq, Structural)]
pub struct Frame {
    pub physical_address: u64,
}

#[derive(Clone, Copy, Debug, PartialEq, Eq, Structural)]
pub enum FrameError {
    EmptyRegion,
    Unaligned,
    OutOfRange,
    OutOfMemory,
    DoubleFree,
}

/// Bit `b` of the word `w`.
pub open spec fn word_bit(w: u64, b: u64) -> bool {
    (w >> b) & 1u64 == 1u64
}

proof fn lemma_bit_ops(w: u64, b: u64, j: u64)
    requires
        b < 64,
        j < 64,
    ensures
        (w & (1u64 << b) != 0) == word_bit(w, b),
        word_bit(w | (1u64 << b), j) == (j == b || word_bit(w, j)),
        word_bit(w & !(1u64 << b), j) == (j != b && word_bit(w, j)),
        !word_bit(0u64, j),
{
    assert((w & (1u64 << b) != 0) == ((w >> b) & 1u64 == 1u64)) by (bit_vector)
        requires
            b < 64,
    ;
    assert(((w | (1u64 << b)) >> j) & 1u64 == 1u64 <==> (j == b || (w >> j) & 1u64 == 1u64))
        by (bit_vector)
        requires
            b < 64,
            j < 64,
    ;
    assert(((w & !(1u64 << b)) >> j) & 1u64 == 1u64 <==> (j != b && (w >> j) & 1u64 == 1u64))
        by (bit_vector)
        requires
            b < 64,
            j < 64,
    ;
    assert((0u64 >> j) & 1u64 != 1u64) by (bit_vector);
}

/// How many of the first `k` frames are free.
pub open spec fn free_count(used: Seq<bool>, k: nat) -> nat
    decreases k,
{
    if k == 0 {
        0
    } else {
        free_count(used, (k - 1) as nat) + if !used[k - 1] {
            1nat
        } else {
            0nat
        }
    }
}

/// The mathematical state of a frame allocator: the region and, per frame, whether it is
/// allocated or reserved.
#[verifier::ext_equal]
pub struct FrameState {
    pub base: u64,
    pub frame_count: nat,
    pub used: Seq<bool>,
    pub next_hint: nat,
}

/// Why a region cannot back an allocator of `capacity` frames, if it cannot.
pub open spec fn region_check(base: u64, bytes: u64, capacity: nat) -> Result<(), FrameError> {
    if base % 4096 != 0 || bytes % 4096 != 0 {
        Err(FrameError::Unaligned)
    } else if bytes / 4096 == 0 || bytes / 4096 > capacity {
        Err(FrameError::EmptyRegion)
    } else {
        Ok(())
    }
}

impl FrameState {
    /// The frame index `offset` positions after the search hint, wrapping around the region.
    pub open spec fn circular(self, offset: int) -> int {
        (self.next_hint + offset) % (self.frame_count as int)
    }

    /// `offset` is the first position, counting from the hint, of a free frame.
    pub open spec fn is_next_free(self, offset: int) -> bool {
        &&& 0 <= offset < self.frame_count
        &&& !self.used[self.circular(offset)]
        &&& forall|o: int| 0 <= o < offset ==> #[trigger] self.used[self.circular(o)]
    }

    /// Some frame is free.
    pub open spec fn has_free(self) -> bool {
        exists|i: int| 0 <= i < self.frame_count && !#[trigger] self.used[i]
    }

    /// The address of frame `i`.
    pub open spec fn address(self, i: int) -> int {
        self.base + i * 4096
    }

    /// The frame an allocation hands out, the lowest free one, has an address that fits
    /// in 64 bits.
    pub open spec fn chosen_frame_fits(self) -> bool {
        self.has_free() ==> self.address(self.lowest_free()) <= u64::MAX
    }

    /// First-fit allocation from the hint: the first free frame at or after the hint,
    /// wrapping around; the hint then moves just past it.
    pub open spec fn allocate(self) -> (FrameState, Result<Frame, FrameError>) {
        if self.has_free() {
            let i = self.circular(choose|o: int| self.is_next_free(o));
            (
                FrameState {
                    used: self.used.update(i, true),
                    next_hint: ((i + 1) % (self.frame_count as int)) as nat,
                    ..self
                },
                Ok(Frame { physical_address: self.address(i) as u64 }),
            )
        } else {
            (self, Err(FrameError::OutOfMemory))
        }
    }

    /// The frame index of an address inside the region, or why there is none.
    pub open spec fn index_of(self, address: u64) -> Result<int, FrameError> {
        if address % 4096 != 0 || address < self.base {
            Err(FrameError::OutOfRange)
        } else if (address - self.base) / 4096 >= self.frame_count {
            Err(FrameError::OutOfRange)
        } else {
            Ok((address - self.base) / 4096)
        }
    }

    /// Mark `pages` frames starting at `start` as used.
    pub open spec fn reserve(self, start: u64, pages: usize) -> (FrameState, Result<(), FrameError>) {
        if start % 4096 != 0 {
            (self, Err(FrameError::Unaligned))
        } else {
            match self.index_of(start) {
                Err(e) => (self, Err(e)),
                Ok(first) => if first + pages > usize::MAX || first + pages > self.frame_count {
                    (self, Err(FrameError::OutOfRange))
                } else {
                    (
                        FrameState {
                            used: Seq::new(
                                self.frame_count,
                                |i: int|
                                    if first <= i < first + pages {
                                        true
                                    } else {
                                        self.used[i]
                                    },
                            ),
                            ..self
                        },
                        Ok(()),
                    )
                },
            }
        }
    }

    /// Return an allocated or reserved frame; the hint moves back to it if it lies earlier.
    pub open spec fn free(self, frame: Frame) -> (FrameState, Result<(), FrameError>) {
        match self.index_of(frame.physical_address) {
            Err(e) => (self, Err(e)),
            Ok(i) => if !self.used[i] {
                (self, Err(FrameError::DoubleFree))
            } else {
                (
                    FrameState {
                        used: self.used.update(i, false),
                        next_hint: if i < self.next_hint {
                            i as nat
                        } else {
                            self.next_hint
                        },
                        ..self
                    },
                    Ok(()),
                )
            },
        }
    }

    /// The number of free frames.
    pub open spec fn available(self) -> nat {
        free_count(self.used, self.frame_count)
    }

    /// `i` is the lowest free frame.
    pub open spec fn is_lowest_free(self, i: int) -> bool {
        &&& 0 <= i < self.frame_count
        &&& !self.used[i]
        &&& forall|j: int| 0 <= j < i ==> #[trigger] self.used[j]
    }

    /// The lowest free frame.
    pub open spec fn lowest_free(self) -> int {
        choose|i: int| self.is_lowest_free(i)
    }

    /// The region is page aligned, holds at least one frame and fits in 64 bits, the
    /// search hint names a frame, and no frame below the hint is free.
    pub open spec fn well_formed(self) -> bool {
        &&& self.base % 4096 == 0
        &&& 0 < self.frame_count
        &&& self.frame_count * 4096 <= u64::MAX
        &&& self.used.len() == self.frame_count
        &&& self.next_hint < self.frame_count
        &&& forall|i: int| 0 <= i < self.next_hint ==> #[trigger] self.used[i]
    }
}

/// Every frame index is reached from the hint at some offset.
proof fn lemma_circular_covers(s: FrameState, i: int)
    requires
        s.well_formed(),
        0 <= i < s.frame_count,
    ensures
        ({
            let o = if i >= s.next_hint {
                i - s.next_hint
            } else {
                i + s.frame_count - s.next_hint
            };
            0 <= o < s.frame_count && s.circular(o) == i
        }),
{
    let o = if i >= s.next_hint {
        i - s.next_hint
    } else {
        i + s.frame_count - s.next_hint
    };
    lemma_wrap(s.next_hint as int, o, s.frame_count as int);
}

proof fn lemma_next_free_unique(s: FrameState, o: int)
    requires
        s.is_next_free(o),
    ensures
        s.has_free(),
        (choose|p: int| s.is_next_free(p)) == o,
{
    assert(!s.used[s.circular(o)]);
    let p = choose|p: int| s.is_next_free(p);
    assert(s.is_next_free(p));
    if p < o {
        assert(s.used[s.circular(p)]);
    }
    if o < p {
        assert(s.used[s.circular(o)]);
    }
    vstd::arithmetic::div_mod::lemma_mod_bound(s.next_hint + o, s.frame_count as int);
}

proof fn lemma_free_count_update(used: Seq<bool>, k: nat, i: int, value: bool)
    requires
        0 <= i < used.len(),
        k <= used.len(),
    ensures
        free_count(used.update(i, value), k) == if i < k {
            free_count(used, k) + (if !value {
                1int
            } else {
                0int
            }) - (if !used[i] {
                1int
            } else {
                0int
            })
        } else {
            free_count(used, k) as int
        },
    decreases k,
{
    if k > 0 {
        lemma_free_count_update(used, (k - 1) as nat, i, value);
    }
}

proof fn lemma_free_count_bound(used: Seq<bool>, k: nat)
    ensures
        free_count(used, k) <= k,
    decreases k,
{
    if k > 0 {
        lemma_free_count_bound(used, (k - 1) as nat);
    }
}

proof fn lemma_free_count_zero(used: Seq<bool>, k: nat)
    requires
        k <= used.len(),
    ensures
        free_count(used, k) == 0 <==> forall|i: int| 0 <= i < k ==> #[trigger] used[i],
    decreases k,
{
    if k > 0 {
        lemma_free_count_zero(used, (k - 1) as nat);
        if free_count(used, k) == 0 {
            assert forall|i: int| 0 <= i < k implies #[trigger] used[i] by {
                if i < k - 1 {
                } else {
                }
            }
        }
    }
}

/// A first-fit bitmap allocator. A set bit means allocated or reserved.
pub struct FrameAllocator<const WORDS: usize> {
    base: u64,
    frame_count: usize,
    used: [u64; WORDS],
    next_hint: usize,
}

impl<const WORDS: usize> View for FrameAllocator<WORDS> {
    type V = FrameState;

    closed spec fn view(&self) -> FrameState {
        FrameState {
            base: self.base,
            frame_count: self.frame_count as nat,
            used: Seq::new(
                self.frame_count as nat,
                |i: int| word_bit(self.used@[i / 64], (i % 64) as u64),
            ),
            next_hint: self.next_hint as nat,
        }
    }
}

impl<const WORDS: usize> FrameAllocator<WORDS> {
    /// The state is well formed and the bitmap has a bit for every frame.
    pub closed spec fn wf(&self) -> bool {
        &&& self@.well_formed()
        &&& WORDS * 64 <= usize::MAX
        &&& self.frame_count <= WORDS * 64
    }

    /// The model records one flag per frame of the region, its region fits the bitmap, and
    /// the internal invariant makes the model well formed.
    pub proof fn lemma_view(&self)
        ensures
            self@.used.len() == self@.frame_count,
            self@.frame_count <= usize::MAX,
            self.wf() ==> self@.well_formed() && self@.frame_count <= WORDS * 64,
    {
    }

    /// An allocator for the page-aligned region `[base, base + bytes)`, every frame free.
    /// The region must hold at least one frame and at most `WORDS * 64`.
    pub fn new(base: u64, bytes: u64) -> (r: Result<Self, FrameError>)
        requires
            WORDS * 64 <= usize::MAX,
            bytes / 4096 <= usize::MAX,
        ensures
            match r {
                Ok(a) => region_check(base, bytes, (WORDS * 64) as nat) is Ok && a.wf() && a@ == (
                FrameState {
                    base,
                    frame_count: (bytes / 4096) as nat,
                    used: Seq::new((bytes / 4096) as nat, |i: int| false),
                    next_hint: 0,
                }),
                Err(e) => region_check(base, bytes, (WORDS * 64) as nat) == Err::<(), FrameError>(e),
            },
    {
        if base % PAGE_SIZE != 0 || bytes % PAGE_SIZE != 0 {
            return Err(FrameError::Unaligned);
        }
        let frame_count = (bytes / PAGE_SIZE) as usize;
        if frame_count == 0 || frame_count > WORDS * 64 {
            return Err(FrameError::EmptyRegion);
        }
        let mut allocator = Self { base, frame_count, used: [0; WORDS], next_hint: 0 };
        proof {
            assert forall|i: int| 0 <= i < frame_count implies !#[trigger] allocator@.used[i] by {
                lemma_bit_ops(0, 0, (i % 64) as u64);
            }
            assert(allocator@.used =~= Seq::new(frame_count as nat, |i: int| false));
        }
        let mut index = frame_count;
        while index < WORDS * 64
            invariant
                frame_count <= index <= WORDS * 64,
                WORDS * 64 <= usize::MAX,
                allocator.frame_count == frame_count,
                allocator.base == base,
                allocator.next_hint == 0,
                allocator@.used == Seq::new(frame_count as nat, |i: int| false),
            decreases WORDS * 64 - index,
        {
            allocator.set_used(index, true);
            index += 1;
        }
        Ok(allocator)
    }

    pub fn allocate(&mut self) -> (r: Result<Frame, FrameError>)
        requires
            old(self).wf(),
            old(self)@.chosen_frame_fits(),
        ensures
            final(self).wf(),
            final(self)@ == old(self)@.allocate().0,
            r == old(self)@.allocate().1,
            old(self)@.has_free() ==> old(self)@.is_lowest_free(old(self)@.lowest_free()) && r
                == Ok::<Frame, FrameError>(
                Frame { physical_address: old(self)@.address(old(self)@.lowest_free()) as u64 },
            ),
            !old(self)@.has_free() ==> r == Err::<Frame, FrameError>(FrameError::OutOfMemory),
    {
        proof {
            lemma_allocate_takes_lowest_free(self@);
        }
        let mut offset: usize = 0;
        while offset < self.frame_count
            invariant
                self == old(self),
                old(self).wf(),
                old(self)@.chosen_frame_fits(),
                offset <= self.frame_count,
                forall|o: int| 0 <= o < offset ==> #[trigger] self@.used[self@.circular(o)],
            decreases self.frame_count - offset,
        {
            // (next_hint + offset) % frame_count, computed without an intermediate sum that
            // could overflow
            let room = self.frame_count - offset;
            let index = if self.next_hint < room {
                self.next_hint + offset
            } else {
                self.next_hint - room
            };
            proof {
                lemma_wrap(self.next_hint as int, offset as int, self.frame_count as int);
            }
            assert(index == self@.circular(offset as int));
            if !self.is_used(index) {
                proof {
                    lemma_next_free_unique(self@, offset as int);
                    lemma_allocate_takes_lowest_free(self@);
                }
                let ghost before = self@;
                self.set_used(index, true);
                self.next_hint = (index + 1) % self.frame_count;
                proof {
                    assert(self@.used =~= before.used.update(index as int, true));
                    let fc = self.frame_count as int;
                    assert(index as int * 4096 <= (fc - 1) * 4096) by (nonlinear_arith)
                        requires
                            index < fc,
                    ;
                    assert(index == before.lowest_free());
                }
                return Ok(Frame { physical_address: self.base + index as u64 * PAGE_SIZE });
            }
            offset += 1;
        }
        proof {
            assert forall|i: int| 0 <= i < self.frame_count implies #[trigger] self@.used[i] by {
                lemma_circular_covers(self@, i);
                let o = if i >= self.next_hint {
                    i - self.next_hint
                } else {
                    i + self.frame_count - self.next_hint
                };
                assert(self@.used[self@.circular(o)]);
            }
        }
        Err(FrameError::OutOfMemory)
    }

    pub fn reserve(&mut self, start: u64, pages: usize) -> (r: Result<(), FrameError>)
        requires
            old(self).wf(),
        ensures
            final(self).wf(),
            final(self)@ == old(self)@.reserve(start, pages).0,
            r == old(self)@.reserve(start, pages).1,
    {
        if start % PAGE_SIZE != 0 {
            return Err(FrameError::Unaligned);
        }
        let first = match self.index_of(start) {
            Err(e) => return Err(e),
            Ok(i) => i,
        };
        let end = match first.checked_add(pages) {
            None => return Err(FrameError::OutOfRange),
            Some(e) => e,
        };
        if end > self.frame_count {
            return Err(FrameError::OutOfRange);
        }
        let ghost before = self@;
        let mut index = first;
        while index < end
            invariant
                first <= index <= end,
                end <= self.frame_count,
                self.frame_count == before.frame_count,
                self.base == before.base,
                self.next_hint == before.next_hint,
                self.wf(),
                self@.used == Seq::new(
                    before.frame_count,
                    |i: int|
                        if first <= i < index {
                            true
                        } else {
                            before.used[i]
                        },
                ),
            decreases end - index,
        {
            self.set_used(index, true);
            proof {
                assert(self@.used =~= Seq::new(
                    before.frame_count,
                    |i: int|
                        if first <= i < index + 1 {
                            true
                        } else {
                            before.used[i]
                        },
                ));
            }
            index += 1;
        }
        proof {
            assert(self@ =~= before.reserve(start, pages).0);
        }
        Ok(())
    }

    pub fn free(&mut self, frame: Frame) -> (r: Result<(), FrameError>)
        requires
            old(self).wf(),
        ensures
            final(self).wf(),
            final(self)@ == old(self)@.free(frame).0,
            r == old(self)@.free(frame).1,
    {
        let index = match self.index_of(frame.physical_address) {
            Err(e) => return Err(e),
            Ok(i) => i,
        };
        if !self.is_used(index) {
            return Err(FrameError::DoubleFree);
        }
        let ghost before = self@;
        self.set_used(index, false);
        if index < self.next_hint {
            self.next_hint = index;
        }
        proof {
            assert(self@ =~= before.free(frame).0);
        }
        Ok(())
    }

    /// The number of free frames.
    pub fn available(&self) -> (r: usize)
        requires
            self.wf(),
        ensures
            r == self@.available(),
    {
        let mut count: usize = 0;
        let mut index: usize = 0;
        while index < self.frame_count
            invariant
                self.wf(),
                index <= self.frame_count,
                count == free_count(self@.used, index as nat),
            decreases self.frame_count - index,
        {
            proof {
                lemma_free_count_bound(self@.used, index as nat);
            }
            if !self.is_used(index) {
                count += 1;
            }
            index += 1;
        }
        count
    }

    fn index_of(&self, address: u64) -> (r: Result<usize, FrameError>)
        requires
            self.wf(),
        ensures
            match r {
                Ok(i) => self@.index_of(address) == Ok::<int, FrameError>(i as int),
                Err(e) => self@.index_of(address) == Err::<int, FrameError>(e),
            },
    {
        if address % PAGE_SIZE != 0 || address < self.base {
            return Err(FrameError::OutOfRange);
        }
        let offset = (address - self.base) / PAGE_SIZE;
        if offset >= self.frame_count as u64 {
            Err(FrameError::OutOfRange)
        } else {
            Ok(offset as usize)
        }
    }

    fn is_used(&self, index: usize) -> (r: bool)
        requires
            self.wf(),
            index < self.frame_count,
        ensures
            r == self@.used[index as int],
    {
        proof {
            lemma_bit_ops(self.used@[index as int / 64], (index % 64) as u64, 0);
        }
        self.used[index / 64] & (1u64 << ((index % 64) as u64)) != 0
    }

    fn set_used(&mut self, index: usize, used: bool)
        requires
            index < WORDS * 64,
            WORDS * 64 <= usize::MAX,
            old(self).frame_count <= WORDS * 64,
        ensures
            final(self).base == old(self).base,
            final(self).frame_count == old(self).frame_count,
            final(self).next_hint == old(self).next_hint,
            index < old(self).frame_count ==> final(self)@.used == old(self)@.used.update(
                index as int,
                used,
            ),
            index >= old(self).frame_count ==> final(self)@.used == old(self)@.used,
    {
        let ghost before = self@;
        let word = index / 64;
        let mask = 1u64 << ((index % 64) as u64);
        if used {
            self.used[word] = self.used[word] | mask;
        } else {
            self.used[word] = self.used[word] & !mask;
        }
        proof {
            assert forall|i: int| 0 <= i < self.frame_count implies #[trigger] self@.used[i] == (
            if i == index {
                used
            } else {
                before.used[i]
            }) by {
                lemma_bit_ops(old(self).used@[index as int / 64], (index % 64) as u64, (i % 64) as u64);
                assert(i / 64 < WORDS) by (nonlinear_arith)
                    requires
                        0 <= i < WORDS * 64,
                ;
                if i / 64 != index / 64 {
                    assert(self.used@[i / 64] == old(self).used@[i / 64]);
                }
            }
            if index < self.frame_count {
                assert(self@.used =~= before.used.update(index as int, used));
            } else {
                assert(self@.used =~= before.used);
            }
        }
    }
}

proof fn lemma_next_free_exists(s: FrameState, o: int)
    requires
        s.well_formed(),
        0 <= o < s.frame_count,
        !s.used[s.circular(o)],
    ensures
        s.is_next_free(choose|p: int| s.is_next_free(p)),
    decreases o,
{
    if forall|p: int| 0 <= p < o ==> #[trigger] s.used[s.circular(p)] {
        assert(s.is_next_free(o));
    } else {
        let p = choose|p: int| 0 <= p < o && !#[trigger] s.used[s.circular(p)];
        lemma_next_free_exists(s, p);
    }
}

/// Allocation hands out a frame that was free, page aligned and inside the region, and
/// marks it used: the free count drops by one. It fails with `OutOfMemory`, changing
/// nothing, exactly when no frame is free.
pub proof fn lemma_allocate_takes_a_free_frame(s: FrameState)
    requires
        s.well_formed(),
        s.chosen_frame_fits(),
    ensures
        s.allocate().1 is Err <==> s.available() == 0,
        s.allocate().1 is Err ==> s.allocate().1 == Err::<Frame, FrameError>(FrameError::OutOfMemory)
            && s.allocate().0 == s,
        s.allocate().1 is Ok ==> ({
            let f = s.allocate().1.unwrap().physical_address;
            let i = (f - s.base) / 4096;
            &&& s.base <= f
            &&& f % 4096 == 0
            &&& 0 <= i < s.frame_count
            &&& f == s.address(i)
            &&& !s.used[i]
            &&& s.allocate().0.used[i]
            &&& s.allocate().0.available() == s.available() - 1
            &&& s.allocate().0.index_of(f) == Ok::<int, FrameError>(i)
        }),
{
    lemma_free_count_zero(s.used, s.frame_count);
    lemma_allocate_takes_lowest_free(s);
    if s.has_free() {
        let k = choose|k: int| 0 <= k < s.frame_count && !s.used[k];
        lemma_circular_covers(s, k);
        let o = if k >= s.next_hint {
            k - s.next_hint
        } else {
            k + s.frame_count - s.next_hint
        };
        lemma_next_free_exists(s, o);
        let p = choose|p: int| s.is_next_free(p);
        let i = s.circular(p);
        vstd::arithmetic::div_mod::lemma_mod_bound(s.next_hint + p, s.frame_count as int);
        assert(i * 4096 <= (s.frame_count - 1) * 4096) by (nonlinear_arith)
            requires
                0 <= i < s.frame_count,
        ;
        let f = s.address(i);
        assert((f - s.base) / 4096 == i) by (nonlinear_arith)
            requires
                f == s.base + i * 4096,
        ;
        assert(f % 4096 == 0) by (nonlinear_arith)
            requires
                f == s.base + i * 4096,
                s.base % 4096 == 0,
        ;
        lemma_free_count_update(s.used, s.frame_count, i, true);
    } else {
        assert forall|i: int| 0 <= i < s.frame_count implies #[trigger] s.used[i] by {}
    }
}

/// Allocation is first fit over the whole region: since no frame below the search hint
/// is free, the search from the hint hands out the lowest free frame and marks it used,
/// and the allocator stays well formed. It succeeds exactly when some frame is free.
pub proof fn lemma_allocate_takes_lowest_free(s: FrameState)
    requires
        s.well_formed(),
    ensures
        s.allocate().1 is Ok <==> s.has_free(),
        s.allocate().0.well_formed(),
        s.has_free() ==> ({
            let i = s.lowest_free();
            &&& s.is_lowest_free(i)
            &&& s.allocate().1 == Ok::<Frame, FrameError>(
                Frame { physical_address: s.address(i) as u64 },
            )
            &&& s.allocate().0.used == s.used.update(i, true)
            &&& s.circular(choose|p: int| s.is_next_free(p)) == i
        }),
{
    if s.has_free() {
        let k = choose|k: int| 0 <= k < s.frame_count && !s.used[k];
        lemma_circular_covers(s, k);
        let o = if k >= s.next_hint {
            k - s.next_hint
        } else {
            k + s.frame_count - s.next_hint
        };
        lemma_next_free_exists(s, o);
        let p = choose|p: int| s.is_next_free(p);
        let n = s.frame_count as int;
        let h = s.next_hint as int;
        let i = s.circular(p);
        if h + p >= n {
            vstd::arithmetic::div_mod::lemma_small_mod((h + p - n) as nat, n as nat);
            vstd::arithmetic::div_mod::lemma_mod_sub_multiples_vanish(h + p, n);
            assert(i == h + p - n);
            assert(s.used[i]);
            assert(false);
        }
        vstd::arithmetic::div_mod::lemma_small_mod((h + p) as nat, n as nat);
        assert(i == h + p);
        assert forall|j: int| 0 <= j < i implies #[trigger] s.used[j] by {
            if j >= h {
                vstd::arithmetic::div_mod::lemma_small_mod(j as nat, n as nat);
                assert(s.circular(j - h) == j);
                assert(s.used[s.circular(j - h)]);
            }
        }
        assert(s.is_lowest_free(i));
        let l = s.lowest_free();
        assert(s.is_lowest_free(l));
        if l < i {
            assert(s.used[l]);
        }
        if i < l {
            assert(s.used[i]);
        }
        assert(l == i);
        let t = s.allocate().0;
        assert forall|j: int| 0 <= j < t.next_hint implies #[trigger] t.used[j] by {
            if i + 1 < n {
                vstd::arithmetic::div_mod::lemma_small_mod((i + 1) as nat, n as nat);
            } else {
                vstd::arithmetic::div_mod::lemma_mod_self_0(n);
            }
        }
        vstd::arithmetic::div_mod::lemma_mod_bound(i + 1, n);
    }
}

/// Freeing an allocated frame returns the allocator to the same set of used frames.
pub proof fn lemma_allocate_then_free(s: FrameState)
    requires
        s.well_formed(),
        s.chosen_frame_fits(),
        s.allocate().1 is Ok,
    ensures
        s.allocate().0.free(s.allocate().1.unwrap()).1 == Ok::<(), FrameError>(()),
        s.allocate().0.free(s.allocate().1.unwrap()).0.used == s.used,
        s.allocate().0.free(s.allocate().1.unwrap()).0.available() == s.available(),
{
    lemma_allocate_takes_a_free_frame(s);
    let f = s.allocate().1.unwrap().physical_address;
    let i = (f - s.base) / 4096;
    assert(s.allocate().0.free(s.allocate().1.unwrap()).0.used =~= s.used);
}

/// A frame cannot be freed twice: after a successful free the same frame is refused with
/// `DoubleFree`, and the free count rose by one.
pub proof fn lemma_double_free_is_detected(s: FrameState, frame: Frame)
    requires
        s.well_formed(),
        s.free(frame).1 is Ok,
    ensures
        s.free(frame).0.free(frame).1 == Err::<(), FrameError>(FrameError::DoubleFree),
        s.free(frame).0.available() == s.available() + 1,
{
    let i = s.index_of(frame.physical_address).unwrap();
    lemma_free_count_update(s.used, s.frame_count, i, false);
}

/// Allocation is first fit from the hint: the first free frame at or after the hint,
/// wrapping around the region, is handed out and marked used, and the hint moves just
/// past it.
pub proof fn lemma_allocate_is_first_fit(s: FrameState, offset: int)
    requires
        s.well_formed(),
        s.is_next_free(offset),
    ensures
        s.allocate().1 == Ok::<Frame, FrameError>(
            Frame { physical_address: s.address(s.circular(offset)) as u64 },
        ),
        s.allocate().0.used == s.used.update(s.circular(offset), true),
        s.allocate().0.next_hint == (s.circular(offset) + 1) % (s.frame_count as int),
        s.allocate().0.base == s.base,
        s.allocate().0.frame_count == s.frame_count,
{
    lemma_next_free_unique(s, offset);
}

/// After a successful reservation every frame of the range is used, so allocation cannot
/// hand any of them out.
pub proof fn lemma_reserve_marks_range_used(s: FrameState, start: u64, pages: usize)
    requires
        s.well_formed(),
        s.reserve(start, pages).1 is Ok,
    ensures
        forall|i: int|
            s.index_of(start).unwrap() <= i < s.index_of(start).unwrap() + pages ==> #[trigger] s.reserve(
                start,
                pages,
            ).0.used[i],
{
}

} // verus!

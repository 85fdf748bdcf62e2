//! A double-ended bump allocator over one contiguous region.
//!
//! ```text
//! [ bytes-used | avail-area | pages-used ]
//! |            | -->    <-- |            |
//! start       b_pos        p_pos       end
//! ```
//!
//! Bytes are handed out upward from `start`, pages downward from `end`.
//! Byte space comes back only in last-in-first-out order; pages never do.

use vstd::arithmetic::div_mod::{lemma_fundamental_div_mod, lemma_mod_bound, lemma_mod_multiples_basic};
use vstd::prelude::*;

verus! {

/// Errors reported by the allocator.
#[derive(Debug, Clone, Copy, PartialEq, Eq, Structural)]
pub enum AllocError {
    /// A malformed request.
    InvalidParam,
    /// The range is already managed.
    MemoryOverlap,
    /// Not enough free space.
    NoMemory,
}

/// The least multiple of `a` that is at least `x`.
pub open spec fn round_up(x: int, a: int) -> int {
    if x % a == 0 {
        x
    } else {
        x + (a - x % a)
    }
}

/// The greatest multiple of `a` that is at most `x`.
pub open spec fn round_down(x: int, a: int) -> int {
    x - x % a
}

/// Abstract state of an allocator: the region bounds and both cursors.
pub struct Region {
    pub start: int,
    pub end: int,
    pub byte_pos: int,
    pub page_pos: int,
}

impl Region {
    /// The layout `start <= byte_pos <= page_pos <= end`, within the address space.
    pub open spec fn wf(self) -> bool {
        0 <= self.start <= self.byte_pos <= self.page_pos <= self.end <= usize::MAX
    }

    /// The state right after `init(start, size)`.
    pub open spec fn fresh(start: int, size: int) -> Region {
        Region { start, end: start + size, byte_pos: start, page_pos: start + size }
    }

    pub open spec fn total_bytes(self) -> int {
        self.end - self.start
    }

    pub open spec fn used_bytes(self) -> int {
        self.byte_pos - self.start
    }

    pub open spec fn available_bytes(self) -> int {
        self.page_pos - self.byte_pos
    }

    /// What `add_memory(start, size)` returns.
    pub open spec fn add_memory_outcome(self, start: int, size: int) -> Result<(), AllocError> {
        if size == 0 {
            Err(AllocError::InvalidParam)
        } else if start >= self.start && start + size <= self.end {
            Err(AllocError::MemoryOverlap)
        } else if start == self.end || start + size == self.start {
            Ok(())
        } else {
            Err(AllocError::InvalidParam)
        }
    }

    /// The state after `add_memory(start, size)`.
    pub open spec fn after_add_memory(self, start: int, size: int) -> Region {
        if self.add_memory_outcome(start, size) is Err {
            self
        } else if start == self.end {
            Region { end: start + size, page_pos: start + size, ..self }
        } else {
            Region {
                start,
                byte_pos: if self.byte_pos < start { start } else { self.byte_pos },
                ..self
            }
        }
    }

    /// What `alloc_bytes(size, align)` returns.
    pub open spec fn alloc_outcome(self, size: int, align: int) -> Result<int, AllocError> {
        let a = round_up(self.byte_pos, align);
        if a + size > self.page_pos {
            Err(AllocError::NoMemory)
        } else if a == 0 {
            Err(AllocError::InvalidParam)
        } else {
            Ok(a)
        }
    }

    /// The state after `alloc_bytes(size, align)`.
    pub open spec fn after_alloc(self, size: int, align: int) -> Region {
        match self.alloc_outcome(size, align) {
            Ok(a) => Region { byte_pos: a + size, ..self },
            Err(_) => self,
        }
    }

    /// The state after `dealloc(pos, size)`: the block is reclaimed only
    /// when it ends exactly at the byte cursor and lies inside the region.
    pub open spec fn after_dealloc(self, pos: int, size: int) -> Region {
        let n = if size == 0 { 1 } else { size };
        if pos + n == self.byte_pos && pos >= self.start && pos + n <= self.end {
            Region { byte_pos: pos, ..self }
        } else {
            self
        }
    }

    /// What `alloc_pages(num_pages, align)` returns for pages of `page_size` bytes.
    pub open spec fn alloc_pages_outcome(self, page_size: int, num_pages: int, align: int) -> Result<int, AllocError> {
        if page_size == 0 || align == 0 || align % page_size != 0 {
            Err(AllocError::InvalidParam)
        } else if num_pages * page_size > self.page_pos {
            Err(AllocError::NoMemory)
        } else if round_down(self.page_pos - num_pages * page_size, align) < self.byte_pos {
            Err(AllocError::NoMemory)
        } else {
            Ok(round_down(self.page_pos - num_pages * page_size, align))
        }
    }

    /// The state after `alloc_pages(num_pages, align)`.
    pub open spec fn after_alloc_pages(self, page_size: int, num_pages: int, align: int) -> Region {
        match self.alloc_pages_outcome(page_size, num_pages, align) {
            Ok(a) => Region { page_pos: a, ..self },
            Err(_) => self,
        }
    }
}

/// `round_up(x, a)` is a multiple of `a`, at least `x` and less than `x + a`.
pub proof fn lemma_round_up(x: int, a: int)
    requires
        x >= 0,
        a > 0,
    ensures
        round_up(x, a) % a == 0,
        x <= round_up(x, a) < x + a,
{
    lemma_fundamental_div_mod(x, a);
    lemma_mod_bound(x, a);
    if x % a != 0 {
        assert(x + (a - x % a) == a * (x / a + 1)) by (nonlinear_arith)
            requires x == a * (x / a) + x % a;
        lemma_mod_multiples_basic(x / a + 1, a);
    }
}

/// `alloc_bytes(size, align)` takes `pre` to `post` and returns `a`.
pub open spec fn alloc_step(pre: Region, size: int, align: int, post: Region, a: int) -> bool {
    pre.alloc_outcome(size, align) == Ok::<int, AllocError>(a) && post == pre.after_alloc(size, align)
}

/// Each `states[i]` is a valid layout, and `states[i]` goes to `states[i + 1]` by a successful
/// `alloc_bytes(sizes[i], aligns[i])` that returns `addrs[i]`, for each `i`.
pub open spec fn alloc_run(states: Seq<Region>, sizes: Seq<int>, aligns: Seq<int>, addrs: Seq<int>) -> bool {
    &&& states.len() == sizes.len() + 1
    &&& aligns.len() == sizes.len()
    &&& addrs.len() == sizes.len()
    &&& forall|i: int| 0 <= i <= sizes.len() ==> #[trigger] states[i].wf()
    &&& forall|i: int|
        0 <= i < sizes.len() ==> sizes[i] >= 0 && aligns[i] > 0 && #[trigger] alloc_step(
            states[i],
            sizes[i],
            aligns[i],
            states[i + 1],
            addrs[i],
        )
}

/// After `init(start, size)` the whole region is free: `total_bytes` and
/// `available_bytes` are `size` and `used_bytes` is zero.
pub proof fn lemma_init_accounting(start: int, size: int)
    requires
        0 <= start,
        0 <= size,
        start + size <= usize::MAX,
    ensures
        Region::fresh(start, size).wf(),
        Region::fresh(start, size).total_bytes() == size,
        Region::fresh(start, size).used_bytes() == 0,
        Region::fresh(start, size).available_bytes() == size,
{
}

/// Along a run of successful byte allocations, every returned address is a
/// multiple of its alignment, and each block `[a, a + size)` ends at or
/// before the start of every later one, so no two blocks overlap.
pub proof fn lemma_alloc_run_disjoint(
    states: Seq<Region>,
    sizes: Seq<int>,
    aligns: Seq<int>,
    addrs: Seq<int>,
)
    requires
        alloc_run(states, sizes, aligns, addrs),
    ensures
        forall|i: int| 0 <= i < sizes.len() ==> #[trigger] addrs[i] % aligns[i] == 0,
        forall|i: int, j: int|
            0 <= i < j < sizes.len() ==> #[trigger] addrs[i] + sizes[i] <= #[trigger] addrs[j],
{
    assert forall|i: int| 0 <= i < sizes.len() implies #[trigger] addrs[i] % aligns[i] == 0 by {
        assert(alloc_step(states[i], sizes[i], aligns[i], states[i + 1], addrs[i]));
        assert(states[i].wf());
        lemma_round_up(states[i].byte_pos, aligns[i]);
    }
    assert forall|i: int, j: int| 0 <= i < j < sizes.len() implies #[trigger] addrs[i] + sizes[i]
        <= #[trigger] addrs[j] by {
        lemma_alloc_run_cursor(states, sizes, aligns, addrs, i);
        lemma_alloc_run_monotone(states, sizes, aligns, addrs, i + 1, j);
        assert(alloc_step(states[j], sizes[j], aligns[j], states[j + 1], addrs[j]));
        assert(states[j].wf());
        lemma_round_up(states[j].byte_pos, aligns[j]);
    }
}

/// One successful step: the block lies at or above the old cursor and the
/// new cursor is its end.
proof fn lemma_alloc_run_cursor(
    states: Seq<Region>,
    sizes: Seq<int>,
    aligns: Seq<int>,
    addrs: Seq<int>,
    i: int,
)
    requires
        0 <= i < sizes.len(),
        alloc_run(states, sizes, aligns, addrs),
    ensures
        states[i + 1].byte_pos == addrs[i] + sizes[i],
        states[i + 1].start == states[i].start,
{
    assert(alloc_step(states[i], sizes[i], aligns[i], states[i + 1], addrs[i]));
}

/// The byte cursor never moves down along a run of allocations.
proof fn lemma_alloc_run_monotone(
    states: Seq<Region>,
    sizes: Seq<int>,
    aligns: Seq<int>,
    addrs: Seq<int>,
    i: int,
    j: int,
)
    requires
        0 <= i <= j <= sizes.len(),
        alloc_run(states, sizes, aligns, addrs),
    ensures
        states[i].byte_pos <= states[j].byte_pos,
    decreases j - i,
{
    if i < j {
        lemma_alloc_run_monotone(states, sizes, aligns, addrs, i, j - 1);
        let k = j - 1;
        assert(alloc_step(states[k], sizes[k], aligns[k], states[k + 1], addrs[k]));
        assert(states[k].wf());
        lemma_round_up(states[k].byte_pos, aligns[k]);
    }
}

/// A zero-size allocation succeeds exactly when the aligned cursor is
/// non-null and within the free space; it returns that aligned cursor,
/// moves the byte cursor to it and keeps the layout valid.
pub proof fn lemma_zero_size_alloc(pre: Region, align: int)
    requires
        pre.wf(),
        align > 0,
    ensures
        pre.alloc_outcome(0, align) is Ok <==> 0 < round_up(pre.byte_pos, align) <= pre.page_pos,
        pre.alloc_outcome(0, align) is Ok ==> {
            let a = pre.alloc_outcome(0, align)->Ok_0;
            &&& a % align == 0
            &&& pre.byte_pos <= a
            &&& pre.after_alloc(0, align).byte_pos == a
            &&& pre.after_alloc(0, align).wf()
        },
{
    lemma_round_up(pre.byte_pos, align);
}

/// Freeing the block that was just allocated restores the state, and so
/// `used_bytes`, when the allocation needed no padding (the cursor was
/// already aligned) and the block is not empty.
pub proof fn lemma_lifo_reclaims(pre: Region, size: int, align: int)
    requires
        pre.wf(),
        size > 0,
        align > 0,
        pre.byte_pos % align == 0,
        pre.alloc_outcome(size, align) is Ok,
    ensures
        pre.after_alloc(size, align).after_dealloc(pre.alloc_outcome(size, align)->Ok_0, size) == pre,
        pre.after_alloc(size, align).after_dealloc(pre.alloc_outcome(size, align)->Ok_0, size).used_bytes()
            == pre.used_bytes(),
{
}

/// Freeing a block that does not end at the byte cursor leaves the state,
/// and so `used_bytes`, unchanged.
pub proof fn lemma_dealloc_off_top(s: Region, pos: int, size: int)
    requires
        pos + (if size == 0 { 1 } else { size }) != s.byte_pos,
    ensures
        s.after_dealloc(pos, size) == s,
        s.after_dealloc(pos, size).used_bytes() == s.used_bytes(),
{
}

/// Adding a range inside the region is an overlap; adding a range that is
/// neither inside nor adjacent is invalid; adding an adjacent range on
/// either side succeeds and grows `total_bytes` by exactly `size`.
pub proof fn lemma_add_memory_cases(s: Region, start: int, size: int)
    requires
        s.wf(),
        start >= 0,
        size > 0,
        start + size <= usize::MAX,
    ensures
        s.start <= start && start + size <= s.end ==> s.add_memory_outcome(start, size) == Err::<
            (),
            AllocError,
        >(AllocError::MemoryOverlap),
        start + size < s.start || start > s.end ==> s.add_memory_outcome(start, size) == Err::<
            (),
            AllocError,
        >(AllocError::InvalidParam),
        start == s.end || start + size == s.start ==> {
            &&& s.add_memory_outcome(start, size) is Ok
            &&& s.after_add_memory(start, size).wf()
            &&& s.after_add_memory(start, size).total_bytes() == s.total_bytes() + size
        },
{
}

/// An `Ok` address seen as an integer.
pub open spec fn as_int_result(r: Result<usize, AllocError>) -> Result<int, AllocError> {
    match r {
        Ok(a) => Ok(a as int),
        Err(e) => Err(e),
    }
}

/// Early memory allocator, usable before the formal byte and page
/// allocators work. `SIZE` is the page size.
pub struct EarlyAllocator<const SIZE: usize> {
    start: usize,
    end: usize,
    b_pos: usize,
    p_pos: usize,
}

impl<const SIZE: usize> View for EarlyAllocator<SIZE> {
    type V = Region;

    closed spec fn view(&self) -> Region {
        Region {
            start: self.start as int,
            end: self.end as int,
            byte_pos: self.b_pos as int,
            page_pos: self.p_pos as int,
        }
    }
}

impl<const SIZE: usize> EarlyAllocator<SIZE> {
    pub closed spec fn wf(&self) -> bool {
        self@.wf()
    }

    /// An allocator that manages nothing yet.
    pub fn new() -> (r: Self)
        ensures
            r.wf(),
            r@ == Region::fresh(0, 0),
    {
        EarlyAllocator { start: 0, end: 0, b_pos: 0, p_pos: 0 }
    }

    /// Manages `[start, start + size)` from now on, with nothing in use.
    pub fn init(&mut self, start: usize, size: usize)
        requires
            start + size <= usize::MAX,
        ensures
            final(self).wf(),
            final(self)@ == Region::fresh(start as int, size as int),
    {
        self.start = start;
        self.end = start + size;
        self.b_pos = start;
        self.p_pos = start + size;
    }
    /// Extends the region by `[start, start + size)`, which must sit right
    /// after or right before it. Extending upward resets the page cursor to
    /// the new end.
    pub fn add_memory(&mut self, start: usize, size: usize) -> (r: Result<(), AllocError>)
        requires
            old(self).wf(),
            start + size <= usize::MAX,
        ensures
            final(self).wf(),
            r == old(self)@.add_memory_outcome(start as int, size as int),
            final(self)@ == old(self)@.after_add_memory(start as int, size as int),
    {
        if size == 0 {
            return Err(AllocError::InvalidParam);
        }
        let end = start + size;
        if start >= self.start && end <= self.end {
            return Err(AllocError::MemoryOverlap);
        }
        if start == self.end {
            self.end = end;
            self.p_pos = self.end;
            return Ok(());
        }
        if end == self.start {
            self.start = start;
            if self.b_pos < self.start {
                self.b_pos = self.start;
            }
            return Ok(());
        }
        Err(AllocError::InvalidParam)
    }

    /// Whether `alloc_bytes(size, align)` can compute its bounds without
    /// overflowing the address space.
    pub fn alloc_fits(&self, size: usize, align: usize) -> (r: bool)
        requires
            self.wf(),
            align > 0,
        ensures
            r == (round_up(self@.byte_pos, align as int) + size <= usize::MAX),
    {
        let rem = self.b_pos % align;
        if rem == 0 {
            size <= usize::MAX - self.b_pos
        } else {
            align - rem <= usize::MAX - self.b_pos && size <= usize::MAX - self.b_pos - (align - rem)
        }
    }

    /// Allocates `size` bytes aligned to `align` from the low end of the free space.
    pub fn alloc_bytes(&mut self, size: usize, align: usize) -> (r: Result<usize, AllocError>)
        requires
            old(self).wf(),
            align > 0,
            round_up(old(self)@.byte_pos, align as int) + size <= usize::MAX,
        ensures
            final(self).wf(),
            as_int_result(r) == old(self)@.alloc_outcome(size as int, align as int),
            final(self)@ == old(self)@.after_alloc(size as int, align as int),
            r matches Ok(a) ==> a % align == 0 && old(self)@.byte_pos <= a && a + size <= old(self)@.page_pos,
    {
        proof {
            lemma_round_up(self.b_pos as int, align as int);
        }
        let rem = self.b_pos % align;
        let aligned: usize = if rem == 0 { self.b_pos } else { self.b_pos + (align - rem) };
        let new_b_pos = aligned + size;
        if new_b_pos > self.p_pos {
            return Err(AllocError::NoMemory);
        }
        if aligned == 0 {
            return Err(AllocError::InvalidParam);
        }
        self.b_pos = new_b_pos;
        Ok(aligned)
    }

    /// Gives back `size` bytes at `pos`. Only the block that ends at the
    /// byte cursor is reclaimed; any other is leaked.
    pub fn dealloc(&mut self, pos: usize, size: usize)
        requires
            old(self).wf(),
        ensures
            final(self).wf(),
            final(self)@ == old(self)@.after_dealloc(pos as int, size as int),
    {
        let size: usize = if size == 0 { 1 } else { size };
        if let Some(end_addr) = pos.checked_add(size) {
            if end_addr == self.b_pos {
                if pos >= self.start && end_addr <= self.end {
                    self.b_pos = pos;
                }
            }
        }
    }

    pub fn total_bytes(&self) -> (r: usize)
        requires
            self.wf(),
        ensures
            r == self@.total_bytes(),
    {
        self.end - self.start
    }

    pub fn used_bytes(&self) -> (r: usize)
        requires
            self.wf(),
        ensures
            r == self@.used_bytes(),
    {
        self.b_pos - self.start
    }

    pub fn available_bytes(&self) -> (r: usize)
        requires
            self.wf(),
        ensures
            r == self@.available_bytes(),
    {
        self.p_pos - self.b_pos
    }

    /// Allocates `num_pages` pages of `SIZE` bytes from the high end of the
    /// free space, at an address that is a multiple of `align_pow2`. Pages
    /// are never given back.
    pub fn alloc_pages(&mut self, num_pages: usize, align_pow2: usize) -> (r: Result<usize, AllocError>)
        requires
            old(self).wf(),
        ensures
            final(self).wf(),
            as_int_result(r) == old(self)@.alloc_pages_outcome(SIZE as int, num_pages as int, align_pow2 as int),
            final(self)@ == old(self)@.after_alloc_pages(SIZE as int, num_pages as int, align_pow2 as int),
    {
        if SIZE == 0 || align_pow2 == 0 || align_pow2 % SIZE != 0 {
            return Err(AllocError::InvalidParam);
        }
        if num_pages > self.p_pos / SIZE {
            proof {
                assert(num_pages * SIZE > self.p_pos) by (nonlinear_arith)
                    requires num_pages > self.p_pos / SIZE, SIZE > 0;
            }
            return Err(AllocError::NoMemory);
        }
        proof {
            assert(num_pages * SIZE <= self.p_pos) by (nonlinear_arith)
                requires num_pages <= self.p_pos / SIZE, SIZE > 0;
        }
        let low = self.p_pos - num_pages * SIZE;
        proof {
            assert(low % align_pow2 <= low) by (nonlinear_arith)
                requires align_pow2 > 0;
        }
        let aligned = low - low % align_pow2;
        if aligned < self.b_pos {
            return Err(AllocError::NoMemory);
        }
        self.p_pos = aligned;
        Ok(aligned)
    }

    /// Pages are never freed: this does nothing.
    pub fn dealloc_pages(&mut self, pos: usize, num_pages: usize)
        ensures
            *final(self) == *old(self),
    {
    }

    /// Number of whole pages in the region.
    pub fn total_pages(&self) -> (r: usize)
        requires
            self.wf(),
        ensures
            SIZE == 0 ==> r == 0,
            SIZE > 0 ==> r == self@.total_bytes() / (SIZE as int),
    {
        if SIZE == 0 { 0 } else { (self.end - self.start) / SIZE }
    }

    /// Number of whole pages handed out from the high end.
    pub fn used_pages(&self) -> (r: usize)
        requires
            self.wf(),
        ensures
            SIZE == 0 ==> r == 0,
            SIZE > 0 ==> r == (self@.end - self@.page_pos) / (SIZE as int),
    {
        if SIZE == 0 { 0 } else { (self.end - self.p_pos) / SIZE }
    }

    /// Number of whole pages that still fit in the free space.
    pub fn available_pages(&self) -> (r: usize)
        requires
            self.wf(),
        ensures
            SIZE == 0 ==> r == 0,
            SIZE > 0 ==> r == self@.available_bytes() / (SIZE as int),
    {
        if SIZE == 0 { 0 } else { (self.p_pos - self.b_pos) / SIZE }
    }
}

} // verus!

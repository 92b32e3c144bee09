use vstd::prelude::*;
use x86_64::structures::paging::{PhysFrame, Size4KiB};
use x86_64::PhysAddr;
use vstd::arithmetic::power2::{pow2, lemma_pow2_pos, lemma2_to64};
use vstd::bits::{low_bits_mask, lemma_u64_low_bits_mask_is_mod, lemma_u64_pow2_no_overflow};
use vstd::arithmetic::div_mod::{lemma_fundamental_div_mod, lemma_fundamental_div_mod_converse_mod};

verus! {

/// Size in bytes of one physical frame.
pub const PAGE_SIZE: u64 = 4096;

/// Rounds `v` up to the next multiple of `a`.
pub open spec fn round_up(v: int, a: int) -> int {
    if v % a == 0 { v } else { v - v % a + a }
}

/// Rounds `v` down to a multiple of `a`.
pub open spec fn round_down(v: int, a: int) -> int {
    v - v % a
}

/// `a` is a power of two that fits in a `u64`.
pub open spec fn is_pow2(a: u64) -> bool {
    exists|k: nat| k < 64 && a == pow2(k)
}

/// Clearing the bits below a power-of-two alignment rounds down to a
/// multiple of it.
proof fn lemma_clear_low_bits(x: u64, a: u64, k: nat)
    requires
        k < 64,
        a == pow2(k),
    ensures
        a >= 1,
        (x & !((a - 1) as u64)) as int == round_down(x as int, a as int),
{
    lemma_pow2_pos(k);
    lemma_u64_pow2_no_overflow(k);
    let m: u64 = (a - 1) as u64;
    assert(m == low_bits_mask(k) as u64);
    lemma_u64_low_bits_mask_is_mod(x, k);
    assert((x & !m) + (x & m) == x) by (bit_vector);
}

/// Rounding `v + a - 1` down is rounding `v` up.
proof fn lemma_round_up_via_down(v: int, a: int)
    requires
        v >= 0,
        a >= 1,
    ensures
        round_down(v + a - 1, a) == round_up(v, a),
{
    let q = v / a;
    let r = v % a;
    lemma_fundamental_div_mod(v, a);
    assert(q * a == a * q) by (nonlinear_arith);
    if r == 0 {
        lemma_fundamental_div_mod_converse_mod(v + a - 1, a, q, a - 1);
    } else {
        assert((q + 1) * a == a * q + a) by (nonlinear_arith);
        lemma_fundamental_div_mod_converse_mod(v + a - 1, a, q + 1, r - 1);
    }
}

/// Rounds `value` up to a multiple of `alignment` by adding `alignment - 1`
/// and clearing the bits below the alignment; for a power-of-two alignment
/// this is the next multiple of it at or above `value`.
pub fn align_up(value: u64, alignment: u64) -> (r: u64)
    requires
        alignment >= 1,
        value + alignment - 1 <= u64::MAX,
    ensures
        r == ((value + alignment - 1) as u64 & !((alignment - 1) as u64)),
        is_pow2(alignment) ==> r as int == round_up(value as int, alignment as int),
{
    let r = (value + (alignment - 1)) & !(alignment - 1);
    proof {
        if is_pow2(alignment) {
            let k = choose|k: nat| k < 64 && alignment == pow2(k);
            lemma_clear_low_bits((value + alignment - 1) as u64, alignment, k);
            lemma_round_up_via_down(value as int, alignment as int);
        }
    }
    r
}

/// Clears the bits of `value` below `alignment`; for a power-of-two
/// alignment this is the largest multiple of it at or below `value`.
pub fn align_down(value: u64, alignment: u64) -> (r: u64)
    requires
        alignment >= 1,
    ensures
        r == (value & !((alignment - 1) as u64)),
        is_pow2(alignment) ==> r as int == round_down(value as int, alignment as int),
{
    let r = value & !(alignment - 1);
    proof {
        if is_pow2(alignment) {
            let k = choose|k: nat| k < 64 && alignment == pow2(k);
            lemma_clear_low_bits(value, alignment, k);
        }
    }
    r
}

/// The page size is a power of two.
pub proof fn lemma_page_size_pow2()
    ensures
        is_pow2(PAGE_SIZE),
{
    lemma2_to64();
    assert(PAGE_SIZE == pow2(12));
}

/// Capacity of the allocator's range table.
pub const MAX_RANGES: usize = 128;

/// Physical addresses must have bits 52 to 63 clear.
pub const PHYS_ADDR_LIMIT: u64 = 0x10_0000_0000_0000;

/// What a region of physical memory holds, as the bootloader reports it.
#[derive(Clone, Copy, Debug, PartialEq, Eq)]
pub enum MemoryRegionKind {
    Usable,
    Bootloader,
    UnknownUefi(u32),
    UnknownBios(u32),
}

/// A region `[start, end)` of physical memory.
#[derive(Clone, Copy, Debug, PartialEq, Eq)]
pub struct MemoryRegion {
    pub start: u64,
    pub end: u64,
    pub kind: MemoryRegionKind,
}

/// A page-aligned range of free frames: `[next, end)` is still free.
#[derive(Clone, Copy, Debug, PartialEq, Eq)]
pub struct UsableRange {
    pub next: u64,
    pub end: u64,
}

/// A 4 KiB physical frame; its view is its start address.
#[derive(Clone, Copy, Debug, PartialEq, Eq)]
pub struct Frame {
    start: u64,
}

impl View for Frame {
    type V = u64;

    closed spec fn view(&self) -> u64 {
        self.start
    }
}

impl Frame {
    /// The physical address at which the frame starts.
    pub fn start_address(&self) -> (r: u64)
        ensures
            r == self@,
    {
        self.start
    }
}

/// `x86_64::structures::paging::PhysFrame::<Size4KiB>::from_start_address`
/// applied to `x86_64::PhysAddr::new(address)`: `PhysAddr::new` panics when
/// a bit from 52 up is set (left out by `requires`), and the frame exists
/// exactly when the address is 4 KiB aligned, starting at that address.
#[verifier::external_body]
fn frame_starting_at(address: u64) -> (r: Option<Frame>)
    requires
        address < PHYS_ADDR_LIMIT,
    ensures
        r is Some <==> address % PAGE_SIZE == 0,
        r matches Some(f) ==> f@ == address,
{
    match PhysFrame::<Size4KiB>::from_start_address(PhysAddr::new(address)) {
        Ok(frame) => Some(Frame { start: frame.start_address().as_u64() }),
        Err(_) => None,
    }
}

/// The free range that a region contributes, if any: usable, non-empty,
/// and still non-empty once its ends are moved inward to page boundaries.
pub open spec fn usable_range_of(r: MemoryRegion) -> Option<UsableRange> {
    let s = round_up(r.start as int, PAGE_SIZE as int);
    let e = round_down(r.end as int, PAGE_SIZE as int);
    if r.kind is Usable && r.start < r.end && s < e {
        Some(UsableRange { next: s as u64, end: e as u64 })
    } else {
        None
    }
}

/// The range table built from `regions`, in order, keeping the first
/// `MAX_RANGES` usable ranges.
pub open spec fn collected(regions: Seq<MemoryRegion>) -> Seq<UsableRange>
    decreases regions.len(),
{
    if regions.len() == 0 {
        Seq::empty()
    } else {
        let prev = collected(regions.drop_last());
        match usable_range_of(regions.last()) {
            Some(u) => if prev.len() < MAX_RANGES { prev.push(u) } else { prev },
            None => prev,
        }
    }
}

/// Every region that reaches the alignment step can have its start rounded
/// up without leaving `u64`.
pub open spec fn aligns_in_range(regions: Seq<MemoryRegion>) -> bool {
    forall|i: int|
        0 <= i < regions.len() && (#[trigger] regions[i]).kind is Usable
            && regions[i].start < regions[i].end
            && collected(regions.take(i)).len() < MAX_RANGES
            ==> regions[i].start + PAGE_SIZE - 1 <= u64::MAX
}

/// Sum of `f` over the ranges.
pub open spec fn range_sum(s: Seq<UsableRange>, f: spec_fn(UsableRange) -> int) -> int
    decreases s.len(),
{
    if s.len() == 0 {
        0
    } else {
        range_sum(s.drop_last(), f) + f(s.last())
    }
}

/// Free bytes in a range.
pub open spec fn free_bytes(r: UsableRange) -> int {
    r.end - r.next
}

/// `free_bytes` as a function value.
pub open spec fn free_fn() -> spec_fn(UsableRange) -> int {
    |r: UsableRange| free_bytes(r)
}

/// The `next` cursor of a range as a function value.
pub open spec fn next_fn() -> spec_fn(UsableRange) -> int {
    |r: UsableRange| r.next as int
}

/// Free bytes over a range table.
pub open spec fn total_free(s: Seq<UsableRange>) -> int {
    range_sum(s, free_fn())
}

/// Sum of the `next` cursors over a range table.
pub open spec fn total_next(s: Seq<UsableRange>) -> int {
    range_sum(s, next_fn())
}

/// Index of the first range at or after `i` that still has a free frame,
/// or the table length when there is none.
pub open spec fn first_pending(s: Seq<UsableRange>, i: int) -> int
    decreases s.len() - i,
{
    if i >= s.len() {
        s.len() as int
    } else if s[i].next < s[i].end {
        i
    } else {
        first_pending(s, i + 1)
    }
}

proof fn lemma_range_sum_update(
    s: Seq<UsableRange>,
    f: spec_fn(UsableRange) -> int,
    i: int,
    v: UsableRange,
)
    requires
        0 <= i < s.len(),
    ensures
        range_sum(s.update(i, v), f) == range_sum(s, f) - f(s[i]) + f(v),
    decreases s.len(),
{
    let t = s.update(i, v);
    if i == s.len() - 1 {
        assert(t.drop_last() =~= s.drop_last());
    } else {
        assert(t.drop_last() =~= s.drop_last().update(i, v));
        lemma_range_sum_update(s.drop_last(), f, i, v);
    }
}

proof fn lemma_range_sum_split(a: Seq<UsableRange>, b: Seq<UsableRange>, f: spec_fn(UsableRange) -> int)
    ensures
        range_sum(a + b, f) == range_sum(a, f) + range_sum(b, f),
    decreases b.len(),
{
    if b.len() == 0 {
        assert(a + b =~= a);
    } else {
        assert((a + b).drop_last() =~= a + b.drop_last());
        lemma_range_sum_split(a, b.drop_last(), f);
    }
}

proof fn lemma_range_sum_bounds(s: Seq<UsableRange>, f: spec_fn(UsableRange) -> int, lo: int, hi: int)
    requires
        forall|j: int| 0 <= j < s.len() ==> lo <= #[trigger] f(s[j]) <= hi,
    ensures
        s.len() * lo <= range_sum(s, f) <= s.len() * hi,
    decreases s.len(),
{
    if s.len() > 0 {
        assert forall|j: int| 0 <= j < s.drop_last().len() implies lo <= #[trigger] f(s.drop_last()[j]) <= hi by {
            assert(s.drop_last()[j] == s[j]);
        }
        lemma_range_sum_bounds(s.drop_last(), f, lo, hi);
        assert(f(s.last()) == f(s[s.len() - 1]));
        assert((s.len() - 1) * lo + lo == s.len() * lo) by (nonlinear_arith);
        assert((s.len() - 1) * hi + hi == s.len() * hi) by (nonlinear_arith);
    }
}

proof fn lemma_range_sum_nonneg(s: Seq<UsableRange>, f: spec_fn(UsableRange) -> int)
    requires
        forall|j: int| 0 <= j < s.len() ==> 0 <= #[trigger] f(s[j]),
    ensures
        0 <= range_sum(s, f),
    decreases s.len(),
{
    if s.len() > 0 {
        assert forall|j: int| 0 <= j < s.drop_last().len() implies 0 <= #[trigger] f(s.drop_last()[j]) by {
            assert(s.drop_last()[j] == s[j]);
        }
        lemma_range_sum_nonneg(s.drop_last(), f);
        assert(f(s.last()) == f(s[s.len() - 1]));
    }
}

proof fn lemma_range_sum_at_least(s: Seq<UsableRange>, f: spec_fn(UsableRange) -> int, i: int)
    requires
        0 <= i < s.len(),
        forall|j: int| 0 <= j < s.len() ==> 0 <= #[trigger] f(s[j]),
    ensures
        f(s[i]) <= range_sum(s, f),
    decreases s.len(),
{
    assert forall|j: int| 0 <= j < s.drop_last().len() implies 0 <= #[trigger] f(s.drop_last()[j]) by {
        assert(s.drop_last()[j] == s[j]);
    }
    lemma_range_sum_nonneg(s.drop_last(), f);
    if i < s.len() - 1 {
        assert(s.drop_last()[i] == s[i]);
        lemma_range_sum_at_least(s.drop_last(), f, i);
    }
}

proof fn lemma_range_sum_zero(s: Seq<UsableRange>, f: spec_fn(UsableRange) -> int)
    requires
        forall|j: int| 0 <= j < s.len() ==> #[trigger] f(s[j]) == 0,
    ensures
        range_sum(s, f) == 0,
{
    lemma_range_sum_bounds(s, f, 0, 0);
}

proof fn lemma_first_pending(s: Seq<UsableRange>, i: int)
    requires
        0 <= i <= s.len(),
    ensures
        i <= first_pending(s, i) <= s.len(),
        forall|j: int| i <= j < first_pending(s, i) ==> s[j].next >= s[j].end,
        first_pending(s, i) < s.len() ==> s[first_pending(s, i)].next < s[first_pending(s, i)].end,
    decreases s.len() - i,
{
    if i < s.len() && s[i].next >= s[i].end {
        lemma_first_pending(s, i + 1);
    }
}

/// What `PhysicalAllocator::allocate_next` does: with `p` the first range,
/// from the current one on, that still has a free frame, the frame at the
/// range's cursor is handed out, the cursor moves one page on, `p` becomes
/// the current range and the count of handed-out frames grows by one; with
/// no such range nothing is handed out and every range counts as looked at.
/// Either way the free bytes drop by exactly one page or are already zero.
pub open spec fn allocate_outcome(before: PhysicalAllocator, after: PhysicalAllocator, r: Option<Frame>) -> bool {
    let s = before.ranges_view();
    let p = before.pending();
    &&& if p < s.len() {
        &&& r matches Some(f) && f@ == s[p].next
        &&& after.ranges_view() == s.update(
            p,
            UsableRange { next: (s[p].next + PAGE_SIZE) as u64, end: s[p].end },
        )
        &&& after.current_index() == p
        &&& after.allocated_count() == before.allocated_count() + 1
    } else {
        &&& r is None
        &&& after.ranges_view() == s
        &&& after.current_index() == s.len()
        &&& after.allocated_count() == before.allocated_count()
    }
    &&& r is Some ==> after.free_total() == before.free_total() - PAGE_SIZE
    &&& r is None ==> after.free_total() == before.free_total()
    &&& r is None <==> before.free_total() == 0
    &&& r matches Some(f) ==> f@ % PAGE_SIZE == 0
}

/// A bump allocator over the usable physical memory that the bootloader
/// reported: each range hands out its frames in address order, and the
/// ranges are used in table order.
pub struct PhysicalAllocator {
    ranges: [UsableRange; MAX_RANGES],
    range_count: usize,
    current: usize,
    allocated: u64,
}

impl PhysicalAllocator {
    /// The ranges in use, in table order.
    pub closed spec fn ranges_view(&self) -> Seq<UsableRange> {
        self.ranges@.take(self.range_count as int)
    }

    /// Index of the range that allocation looks at first.
    pub closed spec fn current_index(&self) -> int {
        self.current as int
    }

    /// Number of frames handed out since the last initialization.
    pub closed spec fn allocated_count(&self) -> u64 {
        self.allocated
    }

    /// Free bytes left in all ranges.
    pub open spec fn free_total(&self) -> int {
        total_free(self.ranges_view())
    }

    /// Index of the range that the next allocation takes a frame from, or
    /// the number of ranges when every range is exhausted.
    pub open spec fn pending(&self) -> int {
        first_pending(self.ranges_view(), self.current_index())
    }

    /// The frame that the next allocation hands out, if there is one, has
    /// a valid physical address.
    pub open spec fn next_frame_addressable(&self) -> bool {
        self.pending() < self.ranges_view().len() ==> self.ranges_view()[self.pending()].next < PHYS_ADDR_LIMIT
    }

    /// Well-formedness: every range is page aligned with its cursor inside
    /// it, the ranges before the current one are exhausted, and the count of
    /// handed-out frames is bounded by the cursors.
    pub closed spec fn wf(&self) -> bool {
        &&& self.range_count <= MAX_RANGES
        &&& self.current <= self.range_count
        &&& forall|i: int|
            0 <= i < self.range_count ==> {
                let r = #[trigger] self.ranges@[i];
                &&& r.next % PAGE_SIZE == 0
                &&& r.end % PAGE_SIZE == 0
                &&& r.next <= r.end
            }
        &&& forall|i: int| 0 <= i < self.current ==> (#[trigger] self.ranges@[i]).next == self.ranges@[i].end
        &&& self.allocated * PAGE_SIZE <= total_next(self.ranges_view())
    }

    /// The well-formedness facts that callers may rely on.
    pub proof fn lemma_wf(&self)
        requires
            self.wf(),
        ensures
            self.ranges_view().len() <= MAX_RANGES,
            0 <= self.current_index() <= self.ranges_view().len(),
            forall|i: int|
                0 <= i < self.ranges_view().len() ==> {
                    let r = #[trigger] self.ranges_view()[i];
                    &&& r.next % PAGE_SIZE == 0
                    &&& r.end % PAGE_SIZE == 0
                    &&& r.next <= r.end
                },
            forall|i: int|
                0 <= i < self.current_index() ==> (#[trigger] self.ranges_view()[i]).next
                    == self.ranges_view()[i].end,
    {
    }

    /// An allocator with no ranges.
    pub fn new() -> (r: Self)
        ensures
            r.wf(),
            r.ranges_view() == Seq::<UsableRange>::empty(),
            r.current_index() == 0,
            r.allocated_count() == 0,
    {
        let r = PhysicalAllocator {
            ranges: [UsableRange { next: 0, end: 0 }; MAX_RANGES],
            range_count: 0,
            current: 0,
            allocated: 0,
        };
        assert(r.ranges_view() =~= Seq::<UsableRange>::empty());
        r
    }

    /// Rebuilds the range table from the bootloader's memory map and forgets
    /// every earlier allocation.
    pub fn initialize(&mut self, regions: &[MemoryRegion])
        requires
            aligns_in_range(regions@),
        ensures
            final(self).wf(),
            final(self).ranges_view() == collected(regions@),
            forall|k: int|
                0 <= k < final(self).ranges_view().len() ==> exists|i: int|
                    0 <= i < regions@.len() && holds_a_page(regions@[i]) && (#[trigger] final(self).ranges_view()[k]).next
                        == round_up(regions@[i].start as int, PAGE_SIZE as int) && final(self).ranges_view()[k].end
                        == round_down(regions@[i].end as int, PAGE_SIZE as int),
            forall|i: int|
                0 <= i < regions@.len() && holds_a_page(#[trigger] regions@[i]) && count_holding(regions@.take(i))
                    < MAX_RANGES ==> exists|k: int|
                    0 <= k < final(self).ranges_view().len() && final(self).ranges_view()[k].next == round_up(
                        regions@[i].start as int,
                        PAGE_SIZE as int,
                    ) && final(self).ranges_view()[k].end == round_down(regions@[i].end as int, PAGE_SIZE as int),
            final(self).current_index() == 0,
            final(self).allocated_count() == 0,
    {
        *self = Self::new();
        proof {
            lemma_page_size_pow2();
        }
        let mut i: usize = 0;
        while i < regions.len()
            invariant
                i <= regions.len(),
                aligns_in_range(regions@),
                is_pow2(PAGE_SIZE),
                self.wf(),
                self.current == 0,
                self.allocated == 0,
                self.ranges_view() == collected(regions@.take(i as int)),
            decreases regions.len() - i,
        {
            let region = regions[i];
            proof {
                assert(regions@.take(i as int + 1).drop_last() =~= regions@.take(i as int));
                assert(regions@.take(i as int + 1).last() == regions@[i as int]);
            }
            let usable = match region.kind {
                MemoryRegionKind::Usable => true,
                _ => false,
            };
            if usable && region.start < region.end && self.range_count < MAX_RANGES {
                assert(regions@[i as int] == region);
                let start = align_up(region.start, PAGE_SIZE);
                let end = align_down(region.end, PAGE_SIZE);
                if start < end {
                    let ghost before = self.ranges_view();
                    self.ranges[self.range_count] = UsableRange { next: start, end };
                    self.range_count = self.range_count + 1;
                    proof {
                        assert(self.ranges_view() =~= before.push(UsableRange { next: start, end }));
                        lemma_range_sum_bounds(self.ranges_view(), next_fn(), 0, u64::MAX as int);
                    }
                }
            }
            i = i + 1;
        }
        assert(regions@.take(regions.len() as int) =~= regions@);
        proof {
            lemma_collected_exact(regions@);
        }
    }

    /// Hands out the next free frame: the first frame of the first range,
    /// from the current one on, that is not exhausted.  Returns `None` once
    /// every range is exhausted, which is exactly when no free byte is left.
    pub fn allocate_next(&mut self) -> (r: Option<Frame>)
        requires
            old(self).wf(),
            old(self).next_frame_addressable(),
        ensures
            final(self).wf(),
            allocate_outcome(*old(self), *final(self), r),
    {
        let ghost s = self.ranges_view();
        let ghost p = self.pending();
        proof {
            lemma_first_pending(s, self.current as int);
            self.lemma_free_total_vs_pending();
        }
        while self.current < self.range_count
            invariant
                self.wf(),
                self.ranges_view() == s,
                s == old(self).ranges_view(),
                p == old(self).pending(),
                self.allocated == old(self).allocated,
                old(self).current <= self.current <= p,
                p == first_pending(s, self.current as int),
                p < s.len() ==> s[p].next < PHYS_ADDR_LIMIT,
                p < s.len() ==> old(self).free_total() >= PAGE_SIZE,
                p >= s.len() ==> old(self).free_total() == 0,
            decreases self.range_count - self.current,
        {
            let range = self.ranges[self.current];
            assert(self.ranges@[self.current as int] == s[self.current as int]);
            if range.next < range.end {
                let address = range.next;
                assert(p == self.current);
                self.ranges[self.current] = UsableRange { next: range.next + PAGE_SIZE, end: range.end };
                proof {
                    lemma_range_sum_update(s, next_fn(), p, UsableRange { next: (range.next + PAGE_SIZE) as u64, end: range.end });
                    lemma_range_sum_update(s, free_fn(), p, UsableRange { next: (range.next + PAGE_SIZE) as u64, end: range.end });
                    assert(self.ranges_view() =~= s.update(p, UsableRange { next: (range.next + PAGE_SIZE) as u64, end: range.end }));
                    lemma_range_sum_bounds(self.ranges_view(), next_fn(), 0, u64::MAX as int);
                    assert(self.allocated * PAGE_SIZE <= MAX_RANGES * u64::MAX);
                }
                self.allocated = self.allocated + 1;
                return frame_starting_at(address);
            }
            proof {
                lemma_first_pending(s, self.current as int + 1);
            }
            self.current = self.current + 1;
        }
        None
    }

    /// Free bytes, against the position of the next free frame.
    proof fn lemma_free_total_vs_pending(&self)
        requires
            self.wf(),
        ensures
            self.free_total() >= 0,
            self.pending() < self.ranges_view().len() ==> self.free_total() >= PAGE_SIZE,
            self.pending() >= self.ranges_view().len() ==> self.free_total() == 0,
    {
        let s = self.ranges_view();
        let f = free_fn();
        lemma_first_pending(s, self.current as int);
        assert forall|j: int| 0 <= j < s.len() implies 0 <= #[trigger] f(s[j]) by {
            assert(s[j] == self.ranges@[j]);
        }
        lemma_range_sum_nonneg(s, f);
        let p = self.pending();
        if p < s.len() {
            assert(s[p] == self.ranges@[p]);
            lemma_range_sum_at_least(s, f, p);
        } else {
            assert forall|j: int| 0 <= j < s.len() implies #[trigger] f(s[j]) == 0 by {
                assert(s[j] == self.ranges@[j]);
            }
            lemma_range_sum_zero(s, f);
        }
    }

    /// Free bytes left in all ranges.
    pub fn remaining_bytes(&self) -> (r: u64)
        requires
            self.wf(),
            self.free_total() <= u64::MAX,
        ensures
            r == self.free_total(),
    {
        proof {
            self.lemma_free_total_vs_pending();
        }
        self.checked_remaining_bytes().unwrap()
    }

    /// Free bytes left in all ranges, or `None` when the total does not fit
    /// in a `u64` (where `remaining_bytes` would overflow).
    pub fn checked_remaining_bytes(&self) -> (r: Option<u64>)
        requires
            self.wf(),
        ensures
            r == (if self.free_total() <= u64::MAX { Some(self.free_total() as u64) } else { None::<u64> }),
    {
        let mut total: u64 = 0;
        let mut i: usize = 0;
        let ghost s = self.ranges_view();
        let ghost f = free_fn();
        proof {
            assert forall|j: int| 0 <= j < s.len() implies 0 <= #[trigger] f(s[j]) by {
                assert(s[j] == self.ranges@[j]);
            }
        }
        while i < self.range_count
            invariant
                self.wf(),
                s == self.ranges_view(),
                i <= self.range_count,
                total == total_free(s.take(i as int)),
                f == free_fn(),
                forall|j: int| 0 <= j < s.len() ==> 0 <= #[trigger] f(s[j]),
            decreases self.range_count - i,
        {
            let range = self.ranges[i];
            proof {
                assert(s.take(i as int + 1).drop_last() =~= s.take(i as int));
                assert(s.take(i as int + 1).last() == s[i as int]);
                assert(s[i as int] == self.ranges@[i as int]);
                assert(s =~= s.take(i as int + 1) + s.skip(i as int + 1));
                lemma_range_sum_split(s.take(i as int + 1), s.skip(i as int + 1), f);
                assert forall|j: int| 0 <= j < s.skip(i as int + 1).len() implies 0 <= #[trigger] f(s.skip(i as int + 1)[j]) by {
                    assert(s.skip(i as int + 1)[j] == s[j + i + 1]);
                }
                lemma_range_sum_nonneg(s.skip(i as int + 1), f);
                assert(f(s[i as int]) == range.end - range.next);
            }
            match total.checked_add(range.end - range.next) {
                Some(t) => total = t,
                None => return None,
            }
            i = i + 1;
        }
        assert(s.take(i as int) =~= s);
        Some(total)
    }

    /// Start address of the frame that the next allocation hands out, if
    /// any frame is left.
    pub fn next_frame_address(&self) -> (r: Option<u64>)
        requires
            self.wf(),
        ensures
            r == (if self.pending() < self.ranges_view().len() {
                Some(self.ranges_view()[self.pending()].next)
            } else {
                None::<u64>
            }),
    {
        let ghost s = self.ranges_view();
        let mut i = self.current;
        proof {
            lemma_first_pending(s, i as int);
        }
        while i < self.range_count
            invariant
                self.wf(),
                s == self.ranges_view(),
                self.current <= i <= self.range_count,
                self.pending() == first_pending(s, i as int),
            decreases self.range_count - i,
        {
            let range = self.ranges[i];
            assert(self.ranges@[i as int] == s[i as int]);
            if range.next < range.end {
                return Some(range.next);
            }
            i = i + 1;
        }
        None
    }

    /// Number of ranges in the table.
    pub fn range_count(&self) -> (r: usize)
        requires
            self.wf(),
        ensures
            r == self.ranges_view().len(),
    {
        self.range_count
    }
}

/// Hands out the next free frame (see `PhysicalAllocator::allocate_next`).
pub fn allocate_frame(allocator: &mut PhysicalAllocator) -> (r: Option<Frame>)
    requires
        old(allocator).wf(),
        old(allocator).next_frame_addressable(),
    ensures
        final(allocator).wf(),
        allocate_outcome(*old(allocator), *final(allocator), r),
{
    allocator.allocate_next()
}

/// Number of frames handed out since the allocator was initialized.
pub fn allocated_frames(allocator: &PhysicalAllocator) -> (r: u64)
    ensures
        r == allocator.allocated_count(),
{
    allocator.allocated
}

/// Free bytes left in the allocator.
pub fn remaining_bytes(allocator: &PhysicalAllocator) -> (r: u64)
    requires
        allocator.wf(),
        allocator.free_total() <= u64::MAX,
    ensures
        r == allocator.free_total(),
{
    allocator.remaining_bytes()
}

/// Whether `PhysicalAllocator::initialize` can take `regions`: it cannot
/// when a region that it would align has its start within a page of the
/// top of the address space.
pub fn regions_align_in_range(regions: &[MemoryRegion]) -> (r: bool)
    ensures
        r == aligns_in_range(regions@),
{
    proof {
        lemma_page_size_pow2();
    }
    let mut count: usize = 0;
    let mut i: usize = 0;
    while i < regions.len()
        invariant
            i <= regions.len(),
            is_pow2(PAGE_SIZE),
            count == collected(regions@.take(i as int)).len(),
            forall|j: int|
                0 <= j < i && (#[trigger] regions@[j]).kind is Usable && regions@[j].start < regions@[j].end
                    && collected(regions@.take(j)).len() < MAX_RANGES ==> regions@[j].start + PAGE_SIZE - 1 <= u64::MAX,
        decreases regions.len() - i,
    {
        let region = regions[i];
        proof {
            assert(regions@.take(i as int + 1).drop_last() =~= regions@.take(i as int));
            assert(regions@.take(i as int + 1).last() == regions@[i as int]);
            assert(collected(regions@.take(i as int)).len() <= MAX_RANGES) by {
                lemma_collected_len(regions@.take(i as int));
            }
        }
        let usable = match region.kind {
            MemoryRegionKind::Usable => true,
            _ => false,
        };
        if usable && region.start < region.end && count < MAX_RANGES {
            if region.start > u64::MAX - (PAGE_SIZE - 1) {
                assert(!aligns_in_range(regions@)) by {
                    assert(regions@[i as int] == region);
                }
                return false;
            }
            let start = align_up(region.start, PAGE_SIZE);
            let end = align_down(region.end, PAGE_SIZE);
            if start < end {
                count = count + 1;
            }
        }
        i = i + 1;
    }
    assert(regions@.take(regions.len() as int) =~= regions@);
    true
}

proof fn lemma_collected_len(regions: Seq<MemoryRegion>)
    ensures
        collected(regions).len() <= MAX_RANGES,
    decreases regions.len(),
{
    if regions.len() > 0 {
        lemma_collected_len(regions.drop_last());
    }
}

/// Every range that initialization builds is a non-empty, page-aligned
/// part of a region that the bootloader reported as usable.
pub proof fn lemma_collected_usable(regions: Seq<MemoryRegion>)
    ensures
        forall|k: int|
            0 <= k < collected(regions).len() ==> {
                let c = #[trigger] collected(regions)[k];
                &&& c.next < c.end
                &&& c.next % PAGE_SIZE == 0
                &&& c.end % PAGE_SIZE == 0
                &&& exists|i: int|
                    0 <= i < regions.len() && regions[i].kind is Usable && regions[i].start <= c.next
                        && c.end <= regions[i].end
            },
    decreases regions.len(),
{
    if regions.len() > 0 {
        let prev = regions.drop_last();
        lemma_collected_usable(prev);
        assert forall|k: int| 0 <= k < collected(regions).len() implies {
            let c = #[trigger] collected(regions)[k];
            &&& c.next < c.end
            &&& c.next % PAGE_SIZE == 0
            &&& c.end % PAGE_SIZE == 0
            &&& exists|i: int|
                0 <= i < regions.len() && regions[i].kind is Usable && regions[i].start <= c.next
                    && c.end <= regions[i].end
        } by {
            let c = collected(regions)[k];
            if k < collected(prev).len() {
                assert(c == collected(prev)[k]);
                let i = choose|i: int|
                    0 <= i < prev.len() && prev[i].kind is Usable && prev[i].start <= c.next && c.end <= prev[i].end;
                assert(regions[i] == prev[i]);
            } else {
                let r = regions.last();
                let i = regions.len() - 1;
                assert(regions[i] == r);
                let a = r.start as int;
                let b = r.end as int;
                let x = round_up(a, PAGE_SIZE as int);
                let y = round_down(b, PAGE_SIZE as int);
                assert(x >= a && x % 4096 == 0) by {
                    lemma_round_up_facts(a, PAGE_SIZE as int);
                }
                assert(y <= b && y % 4096 == 0 && y >= 0);
            }
        }
    }
}

proof fn lemma_round_up_facts(v: int, a: int)
    requires
        v >= 0,
        a >= 1,
    ensures
        round_up(v, a) >= v,
        round_up(v, a) % a == 0,
        round_up(v, a) < v + a,
{
    let q = v / a;
    let r = v % a;
    lemma_fundamental_div_mod(v, a);
    assert(q * a == a * q) by (nonlinear_arith);
    if r != 0 {
        assert((q + 1) * a == a * q + a) by (nonlinear_arith);
        lemma_fundamental_div_mod_converse_mod(v - r + a, a, q + 1, 0);
    } else {
        lemma_fundamental_div_mod_converse_mod(v, a, q, 0);
    }
}

/// The free parts `[next, end)` of the ranges do not overlap.
pub open spec fn ranges_disjoint(s: Seq<UsableRange>) -> bool {
    forall|i: int, j: int|
        0 <= i < s.len() && 0 <= j < s.len() && i != j ==> (#[trigger] s[i]).end <= (#[trigger] s[j]).next
            || s[j].end <= s[i].next
}

/// When the free parts of the ranges do not overlap, two allocations in a
/// row never hand out the same frame.
pub proof fn lemma_successive_frames_differ(
    a0: PhysicalAllocator,
    a1: PhysicalAllocator,
    a2: PhysicalAllocator,
    f1: Frame,
    f2: Frame,
)
    requires
        a0.wf(),
        ranges_disjoint(a0.ranges_view()),
        allocate_outcome(a0, a1, Some(f1)),
        allocate_outcome(a1, a2, Some(f2)),
    ensures
        f1@ != f2@,
{
    let s0 = a0.ranges_view();
    let s1 = a1.ranges_view();
    let p1 = a0.pending();
    let p2 = a1.pending();
    a0.lemma_wf();
    lemma_first_pending(s0, a0.current_index());
    assert(p1 < s0.len());
    lemma_first_pending(s1, a1.current_index());
    assert(p2 < s1.len());
    assert(p2 >= p1);
    if p2 != p1 {
        assert(s1[p2] == s0[p2]);
        assert(s0[p1].next <= f1@ < s0[p1].end);
        assert(s0[p2].next <= f2@ < s0[p2].end);
    }
}

/// Number of frames handed out among the first `n` allocation results.
pub open spec fn handed_out(results: Seq<Option<Frame>>, n: int) -> int
    decreases n,
{
    if n <= 0 {
        0
    } else {
        handed_out(results, n - 1) + if results[n - 1] is Some { 1int } else { 0int }
    }
}

/// `states[i + 1]` is what allocation `i` leaves of `states[i]`, with
/// result `results[i]`.
pub open spec fn allocation_run(states: Seq<PhysicalAllocator>, results: Seq<Option<Frame>>) -> bool {
    &&& states.len() == results.len() + 1
    &&& forall|i: int| 0 <= i < results.len() ==> #[trigger] allocate_outcome(states[i], states[i + 1], results[i])
}

/// Over any run of allocations, the count of handed-out frames grows by
/// exactly the number of frames handed out, and every frame handed out is
/// a page taken from the free bytes: count times page size plus free bytes
/// stays the same.
pub proof fn lemma_allocation_run_counts(states: Seq<PhysicalAllocator>, results: Seq<Option<Frame>>, n: int)
    requires
        allocation_run(states, results),
        0 <= n <= results.len(),
    ensures
        states[n].allocated_count() == states[0].allocated_count() + handed_out(results, n),
        states[n].free_total() + handed_out(results, n) * PAGE_SIZE == states[0].free_total(),
    decreases n,
{
    if n > 0 {
        lemma_allocation_run_counts(states, results, n - 1);
        let i = n - 1;
        assert(allocate_outcome(states[i], states[i + 1], results[i]));
    }
}

/// `first_pending` finds a range with a free frame, at or after its start.
proof fn lemma_first_pending_found(s: Seq<UsableRange>, i: int)
    requires
        0 <= i,
    ensures
        first_pending(s, i) < s.len() ==> i <= first_pending(s, i) && s[first_pending(s, i)].next
            < s[first_pending(s, i)].end,
    decreases s.len() - i,
{
    if i < s.len() && s[i].next >= s[i].end {
        lemma_first_pending_found(s, i + 1);
    }
}

/// What holds after the first `j` allocations of a run.
spec fn run_inv(states: Seq<PhysicalAllocator>, results: Seq<Option<Frame>>, j: int) -> bool {
    let s0 = states[0].ranges_view();
    let sj = states[j].ranges_view();
    &&& sj.len() == s0.len()
    &&& forall|k: int|
        0 <= k < s0.len() ==> {
            &&& (#[trigger] sj[k]).end == s0[k].end
            &&& s0[k].next <= sj[k].next
            &&& sj[k].next % PAGE_SIZE == 0
        }
    &&& forall|i: int|
        0 <= i < j && (#[trigger] results[i]) is Some ==> {
            let p = states[i].pending();
            let f = results[i]->Some_0@;
            &&& 0 <= p < s0.len()
            &&& s0[p].next <= f < sj[p].next
            &&& f < s0[p].end
        }
    &&& forall|i: int, i2: int|
        0 <= i < i2 < j && (#[trigger] results[i]) is Some && (#[trigger] results[i2]) is Some
            ==> results[i]->Some_0@ != results[i2]->Some_0@
}

proof fn lemma_run_inv(states: Seq<PhysicalAllocator>, results: Seq<Option<Frame>>, j: int)
    requires
        allocation_run(states, results),
        states[0].wf(),
        ranges_disjoint(states[0].ranges_view()),
        0 <= j <= results.len(),
    ensures
        run_inv(states, results, j),
    decreases j,
{
    let s0 = states[0].ranges_view();
    if j == 0 {
        states[0].lemma_wf();
    } else {
        lemma_run_inv(states, results, j - 1);
        let m = j - 1;
        assert(allocate_outcome(states[m], states[m + 1], results[m]));
        let a = states[j - 1];
        let b = states[j];
        let sa = a.ranges_view();
        let sb = b.ranges_view();
        let p = a.pending();
        lemma_first_pending_found(sa, a.current_index());
        if p < sa.len() {
            let f = results[j - 1]->Some_0@;
            assert(f == sa[p].next);
            assert(sa[p].next < sa[p].end);
            states[0].lemma_wf();
            assert(s0[p].end % PAGE_SIZE == 0);
            assert(sa[p].next + PAGE_SIZE <= sa[p].end);
            assert forall|k: int| 0 <= k < s0.len() implies {
                &&& (#[trigger] sb[k]).end == s0[k].end
                &&& s0[k].next <= sb[k].next
                &&& sb[k].next % PAGE_SIZE == 0
            } by {
                assert(sa[k].end == s0[k].end);
            }
            assert forall|i: int| 0 <= i < j && (#[trigger] results[i]) is Some implies {
                let q = states[i].pending();
                let g = results[i]->Some_0@;
                &&& 0 <= q < s0.len()
                &&& s0[q].next <= g < sb[q].next
                &&& g < s0[q].end
            } by {
                if i < j - 1 {
                    let q = states[i].pending();
                    assert(sa[q].end == s0[q].end);
                }
            }
            assert forall|i: int, i2: int|
                0 <= i < i2 < j && (#[trigger] results[i]) is Some && (#[trigger] results[i2]) is Some
                    implies results[i]->Some_0@ != results[i2]->Some_0@ by {
                if i2 == j - 1 {
                    let q = states[i].pending();
                    let g = results[i]->Some_0@;
                    assert(sa[p].end == s0[p].end);
                    assert(s0[p].next <= f);
                    if q != p {
                        assert(s0[q].end <= s0[p].next || s0[p].end <= s0[q].next);
                    }
                }
            }
        } else {
            assert(sb == sa);
            assert forall|k: int| 0 <= k < s0.len() implies {
                &&& (#[trigger] sb[k]).end == s0[k].end
                &&& s0[k].next <= sb[k].next
                &&& sb[k].next % PAGE_SIZE == 0
            } by {
                assert(sa[k] == sb[k]);
            }
        }
    }
}

/// When the free ranges do not overlap, no run of allocations hands out a
/// frame twice, and every frame handed out is a page-aligned whole page of
/// one of the ranges the run started from.
pub proof fn lemma_allocation_run_frames(states: Seq<PhysicalAllocator>, results: Seq<Option<Frame>>)
    requires
        allocation_run(states, results),
        states[0].wf(),
        ranges_disjoint(states[0].ranges_view()),
    ensures
        forall|i: int, i2: int|
            0 <= i < i2 < results.len() && (#[trigger] results[i]) is Some && (#[trigger] results[i2]) is Some
                ==> results[i]->Some_0@ != results[i2]->Some_0@,
        forall|i: int|
            0 <= i < results.len() && (#[trigger] results[i]) is Some ==> {
                let f = results[i]->Some_0@;
                &&& f % PAGE_SIZE == 0
                &&& exists|k: int|
                    0 <= k < states[0].ranges_view().len() && states[0].ranges_view()[k].next <= f
                        && f + PAGE_SIZE <= states[0].ranges_view()[k].end
            },
{
    let s0 = states[0].ranges_view();
    lemma_run_inv(states, results, results.len() as int);
    states[0].lemma_wf();
    assert forall|i: int| 0 <= i < results.len() && (#[trigger] results[i]) is Some implies {
        let f = results[i]->Some_0@;
        &&& f % PAGE_SIZE == 0
        &&& exists|k: int| 0 <= k < s0.len() && s0[k].next <= f && f + PAGE_SIZE <= s0[k].end
    } by {
        assert(allocate_outcome(states[i], states[i + 1], results[i]));
        let p = states[i].pending();
        let f = results[i]->Some_0@;
        assert(s0[p].end % PAGE_SIZE == 0);
        assert(s0[p].next <= f && f + PAGE_SIZE <= s0[p].end);
    }
}

/// The non-empty usable regions do not overlap.
pub open spec fn regions_disjoint(regions: Seq<MemoryRegion>) -> bool {
    forall|i: int, j: int|
        0 <= i < regions.len() && 0 <= j < regions.len() && i != j && (#[trigger] regions[i]).kind is Usable
            && (#[trigger] regions[j]).kind is Usable && regions[i].start < regions[i].end
            && regions[j].start < regions[j].end ==> regions[i].end <= regions[j].start || regions[j].end
            <= regions[i].start
}

/// Regions that do not overlap give ranges that do not overlap.
pub proof fn lemma_collected_disjoint(regions: Seq<MemoryRegion>)
    requires
        regions_disjoint(regions),
    ensures
        ranges_disjoint(collected(regions)),
    decreases regions.len(),
{
    if regions.len() > 0 {
        let prev = regions.drop_last();
        assert(regions_disjoint(prev)) by {
            assert forall|i: int, j: int|
                0 <= i < prev.len() && 0 <= j < prev.len() && i != j && (#[trigger] prev[i]).kind is Usable
                    && (#[trigger] prev[j]).kind is Usable && prev[i].start < prev[i].end
                    && prev[j].start < prev[j].end implies prev[i].end <= prev[j].start || prev[j].end
                    <= prev[i].start by {
                assert(prev[i] == regions[i] && prev[j] == regions[j]);
            }
        }
        lemma_collected_disjoint(prev);
        lemma_collected_usable(prev);
        lemma_collected_usable(regions);
        let c = collected(regions);
        let cp = collected(prev);
        if c.len() > cp.len() {
            let last = regions.len() - 1;
            let r = regions[last];
            let u = c[c.len() - 1];
            assert(c == cp.push(u));
            assert(r.kind is Usable && r.start < r.end);
            assert(r.start <= u.next && u.end <= r.end) by {
                lemma_round_up_facts(r.start as int, PAGE_SIZE as int);
            }
            assert forall|k: int| 0 <= k < cp.len() implies (#[trigger] cp[k]).end <= u.next || u.end <= cp[k].next by {
                let x = cp[k];
                let i = choose|i: int|
                    0 <= i < prev.len() && prev[i].kind is Usable && prev[i].start <= x.next && x.end <= prev[i].end;
                assert(prev[i] == regions[i]);
                assert(regions[i].start < regions[i].end);
                assert(regions[i].end <= regions[last].start || regions[last].end <= regions[i].start);
            }
            assert forall|i: int, j: int|
                0 <= i < c.len() && 0 <= j < c.len() && i != j implies (#[trigger] c[i]).end <= (#[trigger] c[j]).next
                    || c[j].end <= c[i].next by {
                if i < cp.len() && j < cp.len() {
                    assert(c[i] == cp[i] && c[j] == cp[j]);
                } else if i < cp.len() {
                    assert(c[i] == cp[i]);
                } else {
                    assert(c[j] == cp[j]);
                }
            }
        } else {
            assert(c == cp);
        }
    }
}

/// Since initialization from a memory map whose usable regions do not
/// overlap, no frame is handed out twice, and each frame handed out is a
/// page-aligned whole page of a usable region.
pub proof fn lemma_frames_since_initialize(
    regions: Seq<MemoryRegion>,
    states: Seq<PhysicalAllocator>,
    results: Seq<Option<Frame>>,
)
    requires
        regions_disjoint(regions),
        states.len() >= 1,
        states[0].wf(),
        states[0].ranges_view() == collected(regions),
        allocation_run(states, results),
    ensures
        forall|i: int, i2: int|
            0 <= i < i2 < results.len() && (#[trigger] results[i]) is Some && (#[trigger] results[i2]) is Some
                ==> results[i]->Some_0@ != results[i2]->Some_0@,
        forall|i: int|
            0 <= i < results.len() && (#[trigger] results[i]) is Some ==> {
                let f = results[i]->Some_0@;
                &&& f % PAGE_SIZE == 0
                &&& exists|r: int|
                    0 <= r < regions.len() && regions[r].kind is Usable && regions[r].start <= f && f
                        + PAGE_SIZE <= regions[r].end
            },
{
    lemma_collected_disjoint(regions);
    lemma_collected_usable(regions);
    lemma_allocation_run_frames(states, results);
    let s0 = states[0].ranges_view();
    assert forall|i: int| 0 <= i < results.len() && (#[trigger] results[i]) is Some implies {
        let f = results[i]->Some_0@;
        &&& f % PAGE_SIZE == 0
        &&& exists|r: int|
            0 <= r < regions.len() && regions[r].kind is Usable && regions[r].start <= f && f + PAGE_SIZE
                <= regions[r].end
    } by {
        let f = results[i]->Some_0@;
        let k = choose|k: int| 0 <= k < s0.len() && s0[k].next <= f && f + PAGE_SIZE <= s0[k].end;
        let c = s0[k];
        assert(c == collected(regions)[k]);
        let r = choose|r: int|
            0 <= r < regions.len() && regions[r].kind is Usable && regions[r].start <= c.next && c.end <= regions[r].end;
    }
}

/// A usable region whose page-aligned interior `[round_up(start),
/// round_down(end))` holds at least one whole page.
pub open spec fn holds_a_page(r: MemoryRegion) -> bool {
    &&& r.kind is Usable
    &&& r.start < r.end
    &&& round_up(r.start as int, PAGE_SIZE as int) < round_down(r.end as int, PAGE_SIZE as int)
}

/// Number of regions among `regions` that hold a page.
pub open spec fn count_holding(regions: Seq<MemoryRegion>) -> nat
    decreases regions.len(),
{
    if regions.len() == 0 {
        0
    } else {
        count_holding(regions.drop_last()) + if holds_a_page(regions.last()) { 1nat } else { 0nat }
    }
}

/// What initialization builds, region by region: every range in the table
/// is exactly the page-aligned interior `[round_up(start, PAGE_SIZE),
/// round_down(end, PAGE_SIZE))` of a usable region that holds a page; every
/// such region among the first `MAX_RANGES` of them has its whole interior
/// in the table; and the table has one range per such region, up to
/// `MAX_RANGES`.
pub proof fn lemma_collected_exact(regions: Seq<MemoryRegion>)
    ensures
        forall|k: int|
            0 <= k < collected(regions).len() ==> exists|i: int|
                0 <= i < regions.len() && holds_a_page(regions[i]) && (#[trigger] collected(regions)[k]).next
                    == round_up(regions[i].start as int, PAGE_SIZE as int) && collected(regions)[k].end == round_down(
                    regions[i].end as int,
                    PAGE_SIZE as int,
                ),
        forall|i: int|
            0 <= i < regions.len() && holds_a_page(#[trigger] regions[i]) && count_holding(regions.take(i))
                < MAX_RANGES ==> exists|k: int|
                0 <= k < collected(regions).len() && collected(regions)[k].next == round_up(
                    regions[i].start as int,
                    PAGE_SIZE as int,
                ) && collected(regions)[k].end == round_down(regions[i].end as int, PAGE_SIZE as int),
        collected(regions).len() == (if count_holding(regions) < MAX_RANGES {
            count_holding(regions) as int
        } else {
            MAX_RANGES as int
        }),
    decreases regions.len(),
{
    if regions.len() > 0 {
        let prev = regions.drop_last();
        let n = regions.len() - 1;
        let r = regions[n];
        assert(regions.last() == r);
        lemma_collected_exact(prev);
        let c = collected(regions);
        let cp = collected(prev);
        lemma_round_up_facts(r.start as int, PAGE_SIZE as int);
        if holds_a_page(r) {
            assert(usable_range_of(r) is Some);
        } else {
            assert(usable_range_of(r) is None);
        }
        assert forall|k: int| 0 <= k < cp.len() implies c[k] == cp[k] by {
        }
        assert forall|k: int|
            0 <= k < c.len() implies exists|i: int|
                0 <= i < regions.len() && holds_a_page(regions[i]) && (#[trigger] c[k]).next == round_up(
                    regions[i].start as int,
                    PAGE_SIZE as int,
                ) && c[k].end == round_down(regions[i].end as int, PAGE_SIZE as int) by {
            if k < cp.len() {
                let i = choose|i: int|
                    0 <= i < prev.len() && holds_a_page(prev[i]) && cp[k].next == round_up(
                        prev[i].start as int,
                        PAGE_SIZE as int,
                    ) && cp[k].end == round_down(prev[i].end as int, PAGE_SIZE as int);
                assert(prev[i] == regions[i]);
            } else {
                assert(c[k].next == round_up(r.start as int, PAGE_SIZE as int));
            }
        }
        assert forall|i: int|
            0 <= i < regions.len() && holds_a_page(#[trigger] regions[i]) && count_holding(regions.take(i))
                < MAX_RANGES implies exists|k: int|
                0 <= k < c.len() && c[k].next == round_up(regions[i].start as int, PAGE_SIZE as int)
                    && c[k].end == round_down(regions[i].end as int, PAGE_SIZE as int) by {
            if i < n {
                assert(regions.take(i) =~= prev.take(i));
                assert(prev[i] == regions[i]);
                let k = choose|k: int|
                    0 <= k < cp.len() && cp[k].next == round_up(prev[i].start as int, PAGE_SIZE as int)
                        && cp[k].end == round_down(prev[i].end as int, PAGE_SIZE as int);
                assert(c[k] == cp[k]);
            } else {
                assert(regions.take(i) =~= prev);
                assert(c[cp.len() as int].next == round_up(r.start as int, PAGE_SIZE as int));
            }
        }
    }
}

/// One allocation, stated on the ranges: a frame is handed out exactly when
/// some range from the current one on still has a free frame; it is the
/// lowest free frame of the first such range, whose free part then starts
/// one page higher, and every other range is left as it was.  With no such
/// range, every range from the current one on is exhausted.
pub proof fn lemma_allocate_lowest_free(before: PhysicalAllocator, after: PhysicalAllocator, r: Option<Frame>)
    requires
        before.wf(),
        allocate_outcome(before, after, r),
    ensures
        ({
            let s = before.ranges_view();
            let c = before.current_index();
            &&& after.ranges_view().len() == s.len()
            &&& r is Some <==> exists|j: int| c <= j < s.len() && (#[trigger] s[j]).next < s[j].end
            &&& r matches Some(f) ==> exists|p: int|
                c <= p < s.len() && (forall|j: int| c <= j < p ==> (#[trigger] s[j]).next == s[j].end)
                    && s[p].next < s[p].end && f@ == s[p].next && after.ranges_view()[p] == (UsableRange {
                    next: (f@ + PAGE_SIZE) as u64,
                    end: s[p].end,
                }) && (forall|j: int|
                    0 <= j < s.len() && j != p ==> #[trigger] after.ranges_view()[j] == s[j])
            &&& r is None ==> forall|j: int| c <= j < s.len() ==> (#[trigger] s[j]).next == s[j].end
        }),
{
    let s = before.ranges_view();
    let c = before.current_index();
    before.lemma_wf();
    lemma_first_pending(s, c);
    let p = before.pending();
    if p < s.len() {
        let f = r->Some_0;
        assert(forall|j: int| c <= j < p ==> (#[trigger] s[j]).next == s[j].end);
        assert(forall|j: int| 0 <= j < s.len() && j != p ==> #[trigger] after.ranges_view()[j] == s[j]);
        assert(s[p].next < s[p].end);
        assert(after.ranges_view()[p] == (UsableRange { next: (f@ + PAGE_SIZE) as u64, end: s[p].end }));
        assert(c <= p < s.len() && (forall|j: int| c <= j < p ==> (#[trigger] s[j]).next == s[j].end)
            && s[p].next < s[p].end && f@ == s[p].next && after.ranges_view()[p] == (UsableRange {
            next: (f@ + PAGE_SIZE) as u64,
            end: s[p].end,
        }) && (forall|j: int| 0 <= j < s.len() && j != p ==> #[trigger] after.ranges_view()[j] == s[j]));
    } else {
        assert(forall|j: int| c <= j < s.len() ==> (#[trigger] s[j]).next == s[j].end);
    }
}

} // verus!

//! Address spaces: disjoint framed regions of virtual pages and the bytes
//! that back them.

use vstd::prelude::*;

verus! {

/// Bytes per page.
pub const PAGE_SIZE: usize = 4096;

/// The largest number of pages a single region may claim. A request for more
/// is reported as frame exhaustion.
pub const MAX_AREA_PAGES: usize = 0x4000;

/// Access rights of a region.
#[derive(Clone, Copy, PartialEq, Eq, Structural, Debug)]
pub struct MapPermission {
    pub r: bool,
    pub w: bool,
    pub x: bool,
    pub u: bool,
}

/// A contiguous range of virtual pages `[start_vpn, end_vpn)` with its
/// backing bytes, one page after another.
#[derive(Debug)]
pub struct MapArea {
    pub start_vpn: usize,
    pub end_vpn: usize,
    pub perm: MapPermission,
    pub data: Vec<u8>,
}

/// Mathematical model of a region.
pub struct AreaView {
    pub start: int,
    pub end: int,
    pub perm: MapPermission,
    pub data: Seq<u8>,
}

impl View for MapArea {
    type V = AreaView;

    open spec fn view(&self) -> AreaView {
        AreaView {
            start: self.start_vpn as int,
            end: self.end_vpn as int,
            perm: self.perm,
            data: self.data@,
        }
    }
}

/// What a lookup of one virtual page yields: the region that holds the page,
/// the page's position inside it, and the region's access rights. An entry is
/// only ever produced for a mapped page, so it is always valid.
#[derive(Clone, Copy, PartialEq, Eq, Structural, Debug)]
pub struct PageTableEntry {
    pub area: usize,
    pub page: usize,
    pub perm: MapPermission,
}

/// The regions of one process.
#[derive(Debug)]
pub struct AddressSpace {
    pub areas: Vec<MapArea>,
}

impl View for AddressSpace {
    type V = Seq<AreaView>;

    open spec fn view(&self) -> Seq<AreaView> {
        self.areas@.map_values(|a: MapArea| a@)
    }
}

/// First address that user code may not touch.
pub open spec fn user_limit() -> int {
    usize::MAX - 2 * PAGE_SIZE + 1
}

/// Page number of the page that holds `addr`.
pub open spec fn page_floor(addr: int) -> int {
    addr / (PAGE_SIZE as int)
}

/// Page number of the first page that starts at or after `addr`.
pub open spec fn page_ceil(addr: int) -> int {
    (addr + PAGE_SIZE - 1) / (PAGE_SIZE as int)
}

/// Region `a` holds page `vpn`.
pub open spec fn area_contains(a: AreaView, vpn: int) -> bool {
    a.start <= vpn < a.end
}

/// Region `a` shares a page with `[lo, hi)`.
pub open spec fn area_meets(a: AreaView, lo: int, hi: int) -> bool {
    a.start < hi && lo < a.end
}

/// Some region holds page `vpn`.
pub open spec fn is_mapped(s: Seq<AreaView>, vpn: int) -> bool {
    exists|i: int| 0 <= i < s.len() && area_contains(#[trigger] s[i], vpn)
}

/// Some region shares a page with `[lo, hi)`.
pub open spec fn range_overlaps(s: Seq<AreaView>, lo: int, hi: int) -> bool {
    exists|i: int| 0 <= i < s.len() && area_meets(#[trigger] s[i], lo, hi)
}

/// Some region is exactly `[lo, hi)`.
pub open spec fn has_exact(s: Seq<AreaView>, lo: int, hi: int) -> bool {
    exists|i: int| 0 <= i < s.len() && (#[trigger] s[i]).start == lo && s[i].end == hi
}

/// Index of the region that holds page `vpn`, where there is one.
pub open spec fn area_index(s: Seq<AreaView>, vpn: int) -> int {
    choose|i: int| 0 <= i < s.len() && area_contains(#[trigger] s[i], vpn)
}

/// Index of the region that is exactly `[lo, hi)`, where there is one.
pub open spec fn exact_index(s: Seq<AreaView>, lo: int, hi: int) -> int {
    choose|i: int| 0 <= i < s.len() && (#[trigger] s[i]).start == lo && s[i].end == hi
}

/// The region is not empty, not too large, ends within the address range
/// and has a byte for each address of its pages.
pub open spec fn area_wf(a: AreaView) -> bool {
    &&& 0 <= a.start < a.end
    &&& a.end - a.start <= MAX_AREA_PAGES
    &&& a.end * PAGE_SIZE <= usize::MAX + 1
    &&& a.data.len() == (a.end - a.start) * PAGE_SIZE
}

/// Regions are well formed and pairwise disjoint.
pub open spec fn space_wf(s: Seq<AreaView>) -> bool {
    &&& forall|i: int| 0 <= i < s.len() ==> area_wf(#[trigger] s[i])
    &&& forall|i: int, j: int|
        0 <= i < s.len() && 0 <= j < s.len() && i != j ==> !area_meets(
            #[trigger] s[i],
            (#[trigger] s[j]).start,
            s[j].end,
        )
}

/// A fresh region of zero bytes.
pub open spec fn zero_area(lo: int, hi: int, perm: MapPermission) -> AreaView {
    AreaView { start: lo, end: hi, perm, data: Seq::new(((hi - lo) * PAGE_SIZE) as nat, |i: int| 0u8) }
}

/// The byte that a user read of `addr` yields, if the read is allowed.
pub open spec fn read_at(s: Seq<AreaView>, addr: int) -> Option<u8> {
    let vpn = page_floor(addr);
    let a = s[area_index(s, vpn)];
    if 0 <= addr < user_limit() && is_mapped(s, vpn) && a.perm.r {
        Some(a.data[addr - a.start * PAGE_SIZE])
    } else {
        None
    }
}

/// A user write of one byte to `addr` is allowed.
pub open spec fn writable_at(s: Seq<AreaView>, addr: int) -> bool {
    let vpn = page_floor(addr);
    0 <= addr < user_limit() && is_mapped(s, vpn) && s[area_index(s, vpn)].perm.w
}

/// The regions after byte `value` was stored at `addr`.
pub open spec fn store_at(s: Seq<AreaView>, addr: int, value: u8) -> Seq<AreaView> {
    let i = area_index(s, page_floor(addr));
    let a = s[i];
    s.update(i, AreaView { data: a.data.update(addr - a.start * PAGE_SIZE, value), ..a })
}

/// In a well-formed space the region that holds a page is unique.
pub proof fn lemma_area_index(s: Seq<AreaView>, vpn: int, i: int)
    requires
        space_wf(s),
        0 <= i < s.len(),
        area_contains(s[i], vpn),
    ensures
        is_mapped(s, vpn),
        area_index(s, vpn) == i,
{
    let c = area_index(s, vpn);
    if c != i {
        assert(!area_meets(s[c], s[i].start, s[i].end));
    }
}

/// In a well-formed space the region with given bounds is unique.
pub proof fn lemma_exact_index(s: Seq<AreaView>, lo: int, hi: int, i: int)
    requires
        space_wf(s),
        0 <= i < s.len(),
        s[i].start == lo,
        s[i].end == hi,
    ensures
        has_exact(s, lo, hi),
        exact_index(s, lo, hi) == i,
{
    let c = exact_index(s, lo, hi);
    if c != i {
        assert(!area_meets(s[c], s[i].start, s[i].end));
    }
}

/// An address inside a region lies between the region's first and last byte.
pub proof fn lemma_offset_in_area(a: AreaView, addr: int)
    requires
        area_wf(a),
        0 <= addr,
        area_contains(a, page_floor(addr)),
    ensures
        a.start * PAGE_SIZE <= addr,
        addr - a.start * PAGE_SIZE < a.data.len(),
{
    let v = page_floor(addr);
    assert(v * 4096 <= addr < (v + 1) * 4096);
    assert(a.start * 4096 <= v * 4096);
    assert((v + 1) * 4096 <= a.end * 4096);
    assert((a.end - a.start) * 4096 == a.end * 4096 - a.start * 4096);
}

/// All of the `n` bytes from `addr` on may be written by the user.
pub open spec fn all_writable(s: Seq<AreaView>, addr: int, n: int) -> bool {
    forall|k: int| 0 <= k < n ==> writable_at(s, #[trigger] (addr + k))
}

/// The regions after `bytes` were stored from `addr` on, lowest address first.
pub open spec fn store_bytes(s: Seq<AreaView>, addr: int, bytes: Seq<u8>) -> Seq<AreaView>
    decreases bytes.len(),
{
    if bytes.len() == 0 {
        s
    } else {
        store_at(store_bytes(s, addr, bytes.drop_last()), addr + bytes.len() - 1, bytes.last())
    }
}

/// Two spaces have the same regions with the same rights; only bytes differ.
pub open spec fn same_layout(s: Seq<AreaView>, t: Seq<AreaView>) -> bool {
    &&& s.len() == t.len()
    &&& forall|i: int|
        0 <= i < s.len() ==> (#[trigger] s[i]).start == t[i].start && s[i].end == t[i].end
            && s[i].perm == t[i].perm && s[i].data.len() == t[i].data.len()
}

/// Spaces of the same layout map the same pages with the same rights.
pub proof fn lemma_same_layout(s: Seq<AreaView>, t: Seq<AreaView>, addr: int)
    requires
        space_wf(s),
        same_layout(s, t),
    ensures
        space_wf(t),
        is_mapped(s, page_floor(addr)) == is_mapped(t, page_floor(addr)),
        is_mapped(s, page_floor(addr)) ==> area_index(s, page_floor(addr)) == area_index(
            t,
            page_floor(addr),
        ),
        writable_at(s, addr) == writable_at(t, addr),
        read_at(s, addr).is_some() == read_at(t, addr).is_some(),
{
    assert forall|i: int| 0 <= i < t.len() implies area_wf(#[trigger] t[i]) by {
        assert(area_wf(s[i]));
    }
    assert forall|i: int, j: int| 0 <= i < t.len() && 0 <= j < t.len() && i != j implies !area_meets(
        #[trigger] t[i],
        (#[trigger] t[j]).start,
        t[j].end,
    ) by {
        assert(!area_meets(s[i], s[j].start, s[j].end));
    }
    let vpn = page_floor(addr);
    if is_mapped(s, vpn) {
        let i = area_index(s, vpn);
        assert(area_contains(t[i], vpn));
        lemma_area_index(t, vpn, i);
    }
    if is_mapped(t, vpn) {
        let i = area_index(t, vpn);
        assert(area_contains(s[i], vpn));
        lemma_area_index(s, vpn, i);
    }
}

/// Storing a byte keeps the layout.
pub proof fn lemma_store_layout(s: Seq<AreaView>, addr: int, value: u8)
    requires
        space_wf(s),
        writable_at(s, addr),
    ensures
        same_layout(s, store_at(s, addr, value)),
        space_wf(store_at(s, addr, value)),
{
    let t = store_at(s, addr, value);
    let i = area_index(s, page_floor(addr));
    assert(area_wf(s[i]));
    assert forall|k: int| 0 <= k < s.len() implies (#[trigger] s[k]).start == t[k].start && s[k].end
        == t[k].end && s[k].perm == t[k].perm && s[k].data.len() == t[k].data.len() by {
        assert(area_wf(s[k]));
    }
    lemma_same_layout(s, t, addr);
}

/// Storing several bytes keeps the layout.
pub proof fn lemma_store_bytes_layout(s: Seq<AreaView>, addr: int, bytes: Seq<u8>)
    requires
        space_wf(s),
        all_writable(s, addr, bytes.len() as int),
    ensures
        same_layout(s, store_bytes(s, addr, bytes)),
        space_wf(store_bytes(s, addr, bytes)),
    decreases bytes.len(),
{
    if bytes.len() > 0 {
        let m = store_bytes(s, addr, bytes.drop_last());
        lemma_store_bytes_layout(s, addr, bytes.drop_last());
        let a = addr + (bytes.len() - 1);
        assert(writable_at(s, a));
        lemma_same_layout(s, m, a);
        lemma_store_layout(m, a, bytes.last());
    }
}

/// The rights that a permission mask asks for: bit 0 read, bit 1 write,
/// bit 2 execute, always for the user.
pub open spec fn port_perm(port: int) -> MapPermission {
    MapPermission { r: port % 2 == 1, w: (port / 2) % 2 == 1, x: (port / 4) % 2 == 1, u: true }
}

/// The request is well formed: an aligned start, a mask with at least one of
/// the three bits and none beyond them, and an end that is an address.
pub open spec fn mmap_request_ok(start: int, len: int, port: int) -> bool {
    start % (PAGE_SIZE as int) == 0 && 1 <= port <= 7 && start + len <= usize::MAX
}

/// The regions after, and the result of, mapping `len` bytes from `start`.
pub open spec fn mmap_result(s: Seq<AreaView>, start: int, len: int, port: int) -> (
    Seq<AreaView>,
    int,
) {
    let lo = page_floor(start);
    let hi = page_ceil(start + len);
    if !mmap_request_ok(start, len, port) {
        (s, -1)
    } else if len == 0 {
        (s, 0)
    } else if hi - lo > MAX_AREA_PAGES || range_overlaps(s, lo, hi) {
        (s, -1)
    } else {
        (s.push(zero_area(lo, hi, port_perm(port))), 0)
    }
}

/// The regions after, and the result of, unmapping `len` bytes from `start`.
pub open spec fn munmap_result(s: Seq<AreaView>, start: int, len: int) -> (Seq<AreaView>, int) {
    let lo = page_floor(start);
    let hi = page_ceil(start + len);
    if start % (PAGE_SIZE as int) == 0 && len > 0 && start + len <= usize::MAX && has_exact(
        s,
        lo,
        hi,
    ) {
        (s.remove(exact_index(s, lo, hi)), 0)
    } else {
        (s, -1)
    }
}

/// Mapping a range and then unmapping the same range succeeds twice and
/// gives back the regions that were there before; no address of the range can
/// be read afterwards.
pub proof fn law_mmap_then_munmap(s: Seq<AreaView>, start: int, len: int, port: int, addr: int)
    requires
        space_wf(s),
        0 <= start,
        0 < len,
        mmap_request_ok(start, len, port),
        page_ceil(start + len) - page_floor(start) <= MAX_AREA_PAGES,
        !range_overlaps(s, page_floor(start), page_ceil(start + len)),
        start <= addr < start + len,
    ensures
        mmap_result(s, start, len, port).1 == 0,
        munmap_result(mmap_result(s, start, len, port).0, start, len) == (s, 0int),
        read_at(s, addr).is_none(),
        !writable_at(s, addr),
{
    let lo = page_floor(start);
    let hi = page_ceil(start + len);
    let a = zero_area(lo, hi, port_perm(port));
    let t = s.push(a);
    assert(lo < hi);
    assert forall|i: int, j: int| 0 <= i < t.len() && 0 <= j < t.len() && i != j implies !area_meets(
        #[trigger] t[i],
        (#[trigger] t[j]).start,
        t[j].end,
    ) by {
        if i < s.len() && j < s.len() {
            assert(!area_meets(s[i], s[j].start, s[j].end));
        } else if i < s.len() {
            assert(!area_meets(s[i], lo, hi));
        } else {
            assert(!area_meets(s[j], lo, hi));
        }
    }
    assert forall|i: int| 0 <= i < t.len() implies area_wf(#[trigger] t[i]) by {
        if i < s.len() {
            assert(area_wf(s[i]));
        }
    }
    lemma_exact_index(t, lo, hi, s.len() as int);
    assert(t.remove(s.len() as int) =~= s);
    let v = page_floor(addr);
    assert(lo <= v < hi);
    if is_mapped(s, v) {
        let i = area_index(s, v);
        assert(area_meets(s[i], lo, hi));
    }
}

/// A request that shares a page with a region is refused and changes nothing.
pub proof fn law_mmap_overlap_refused(s: Seq<AreaView>, start: int, len: int, port: int)
    requires
        0 < len,
        range_overlaps(s, page_floor(start), page_ceil(start + len)),
    ensures
        mmap_result(s, start, len, port) == (s, -1int),
{
}

/// Unmapping a range that is a proper part of region `i`, or that holds it
/// and more, is refused and changes nothing.
pub proof fn law_munmap_inexact_refused(s: Seq<AreaView>, i: int, start: int, len: int)
    requires
        space_wf(s),
        0 <= i < s.len(),
        0 <= start,
        0 < len,
        ({
            let lo = page_floor(start);
            let hi = page_ceil(start + len);
            (s[i].start <= lo && hi <= s[i].end || lo <= s[i].start && s[i].end <= hi) && !(lo
                == s[i].start && hi == s[i].end)
        }),
    ensures
        munmap_result(s, start, len) == (s, -1int),
{
    let lo = page_floor(start);
    let hi = page_ceil(start + len);
    assert(lo < hi);
    assert(area_wf(s[i]));
    if has_exact(s, lo, hi) {
        let j = exact_index(s, lo, hi);
        assert(area_meets(s[j], s[i].start, s[i].end));
    }
}

/// The user can read `k` bytes other than 0 from `ptr` on, and then a 0.
pub open spec fn str_ends_at(s: Seq<AreaView>, ptr: int, k: int) -> bool {
    &&& forall|i: int|
        0 <= i < k ==> (#[trigger] read_at(s, ptr + i)).is_some() && read_at(s, ptr + i).unwrap()
            != 0
    &&& read_at(s, ptr + k) == Some(0u8)
}

/// A string that the user can read starts at `ptr` and ends with a 0 byte.
pub open spec fn has_user_str(s: Seq<AreaView>, ptr: int) -> bool {
    exists|k: int| 0 <= k && #[trigger] str_ends_at(s, ptr, k)
}

/// The bytes of the string at `ptr`, without the 0 that ends it.
pub open spec fn user_str(s: Seq<AreaView>, ptr: int) -> Seq<u8> {
    let k = choose|k: int| 0 <= k && #[trigger] str_ends_at(s, ptr, k);
    Seq::new(k as nat, |i: int| read_at(s, ptr + i).unwrap())
}

/// A piece of a user buffer that lies within one page: the region that
/// holds the page, where the piece starts among the region's bytes, and how
/// many bytes it has.
#[derive(Clone, Copy, PartialEq, Eq, Structural, Debug)]
pub struct PageRange {
    pub area: usize,
    pub offset: usize,
    pub len: usize,
}

/// Every page that holds one of the bytes `[addr, end)` is mapped.
pub open spec fn all_mapped(s: Seq<AreaView>, addr: int, end: int) -> bool {
    forall|a: int| addr <= a < end ==> is_mapped(s, #[trigger] page_floor(a))
}

/// Number of bytes from `addr` to the end of its page or to `end`, whichever
/// comes first.
pub open spec fn piece_len(addr: int, end: int) -> int {
    let page_end = (page_floor(addr) + 1) * PAGE_SIZE;
    if end < page_end {
        end - addr
    } else {
        page_end - addr
    }
}

/// The pieces of the buffer `[addr, end)`, one for each page it touches, in
/// the order of their addresses.
pub open spec fn page_ranges(s: Seq<AreaView>, addr: int, end: int) -> Seq<PageRange>
    decreases end - addr,
{
    if 0 <= addr < end {
        let i = area_index(s, page_floor(addr));
        seq![
            PageRange {
                area: i as usize,
                offset: (addr - s[i].start * PAGE_SIZE) as usize,
                len: piece_len(addr, end) as usize,
            },
        ] + page_ranges(s, addr + piece_len(addr, end), end)
    } else {
        Seq::empty()
    }
}

/// Some region starts at page `lo`.
pub open spec fn has_start(s: Seq<AreaView>, lo: int) -> bool {
    exists|i: int| 0 <= i < s.len() && (#[trigger] s[i]).start == lo
}

/// Index of the region that starts at page `lo`, where there is one.
pub open spec fn start_index(s: Seq<AreaView>, lo: int) -> int {
    choose|i: int| 0 <= i < s.len() && (#[trigger] s[i]).start == lo
}

/// In a well-formed space the region that starts at a page is unique.
pub proof fn lemma_start_index(s: Seq<AreaView>, lo: int, i: int)
    requires
        space_wf(s),
        0 <= i < s.len(),
        s[i].start == lo,
    ensures
        has_start(s, lo),
        start_index(s, lo) == i,
{
    let c = start_index(s, lo);
    if c != i {
        assert(area_wf(s[c]) && area_wf(s[i]));
        assert(!area_meets(s[c], s[i].start, s[i].end));
    }
}

/// Region `a` with its end moved to page `hi`: the bytes up to the new end
/// are kept, and those beyond the old end are zero.
pub open spec fn area_resized(a: AreaView, hi: int) -> AreaView {
    AreaView {
        end: hi,
        data: if hi <= a.end {
            a.data.take((hi - a.start) * PAGE_SIZE)
        } else {
            a.data + Seq::new(((hi - a.end) * PAGE_SIZE) as nat, |i: int| 0u8)
        },
        ..a
    }
}

/// The region that starts at page `lo` can be made to end at page `hi`: it
/// shrinks, or it grows by pages that are free and stays within the size of
/// a region. Where no region starts at `lo`, one can be made.
pub open spec fn resize_fits(s: Seq<AreaView>, lo: int, hi: int) -> bool {
    if hi <= lo {
        true
    } else if has_start(s, lo) {
        let a = s[start_index(s, lo)];
        hi <= a.end || (hi - lo <= MAX_AREA_PAGES && !range_overlaps(s, a.end, hi))
    } else {
        hi - lo <= MAX_AREA_PAGES && !range_overlaps(s, lo, hi)
    }
}

/// The regions after the one that starts at page `lo` was made to end at
/// page `hi`: it is removed where `hi` is not beyond `lo`, and made, zero
/// filled with rights `perm`, where it was not there.
pub open spec fn resized(s: Seq<AreaView>, lo: int, hi: int, perm: MapPermission) -> Seq<AreaView> {
    if has_start(s, lo) {
        let i = start_index(s, lo);
        if hi <= lo {
            s.remove(i)
        } else {
            s.update(i, area_resized(s[i], hi))
        }
    } else if hi <= lo {
        s
    } else {
        s.push(zero_area(lo, hi, perm))
    }
}

/// Removing a region keeps the others well formed and disjoint.
pub proof fn lemma_remove_wf(s: Seq<AreaView>, i: int)
    requires
        space_wf(s),
        0 <= i < s.len(),
    ensures
        space_wf(s.remove(i)),
{
    let t = s.remove(i);
    assert forall|k: int| 0 <= k < t.len() implies area_wf(#[trigger] t[k]) by {
        assert(t[k] == s[if k < i { k } else { k + 1 }]);
    }
    assert forall|a: int, b: int| 0 <= a < t.len() && 0 <= b < t.len() && a != b implies !area_meets(
        #[trigger] t[a],
        (#[trigger] t[b]).start,
        t[b].end,
    ) by {
        assert(t[a] == s[if a < i { a } else { a + 1 }]);
        assert(t[b] == s[if b < i { b } else { b + 1 }]);
    }
}

/// Replacing a region by a well-formed one that meets no other keeps the
/// space well formed.
pub proof fn lemma_update_wf(s: Seq<AreaView>, i: int, a: AreaView)
    requires
        space_wf(s),
        0 <= i < s.len(),
        area_wf(a),
        forall|j: int| 0 <= j < s.len() && j != i ==> !area_meets(#[trigger] s[j], a.start, a.end),
    ensures
        space_wf(s.update(i, a)),
{
    let t = s.update(i, a);
    assert forall|k: int| 0 <= k < t.len() implies area_wf(#[trigger] t[k]) by {
        if k != i {
            assert(area_wf(s[k]));
        }
    }
    assert forall|x: int, y: int| 0 <= x < t.len() && 0 <= y < t.len() && x != y implies !area_meets(
        #[trigger] t[x],
        (#[trigger] t[y]).start,
        t[y].end,
    ) by {
        if x == i {
            assert(!area_meets(s[y], a.start, a.end));
        } else if y == i {
            assert(!area_meets(s[x], a.start, a.end));
        } else {
            assert(!area_meets(s[x], s[y].start, s[y].end));
        }
    }
}

impl AddressSpace {
    /// The regions are well formed and pairwise disjoint.
    pub open spec fn wf(&self) -> bool {
        space_wf(self@)
    }

    /// An address space without regions.
    pub fn new() -> (r: Self)
        ensures
            r@ == Seq::<AreaView>::empty(),
            r.wf(),
    {
        let r = AddressSpace { areas: Vec::new() };
        assert(r@ =~= Seq::<AreaView>::empty());
        r
    }

    /// Whether the regions are well formed and pairwise disjoint.
    pub fn is_well_formed(&self) -> (r: bool)
        ensures
            r == self.wf(),
    {
        let n = self.areas.len();
        let mut i: usize = 0;
        while i < n
            invariant
                i <= n,
                n == self.areas@.len(),
                forall|k: int| 0 <= k < i ==> area_wf(#[trigger] self@[k]),
                forall|a: int, b: int|
                    0 <= b < a < i ==> !area_meets(
                        #[trigger] self@[a],
                        (#[trigger] self@[b]).start,
                        self@[b].end,
                    ),
            decreases n - i,
        {
            let a = &self.areas[i];
            assert(self@[i as int] == a@);
            if a.start_vpn >= a.end_vpn || a.end_vpn - a.start_vpn > MAX_AREA_PAGES || a.end_vpn
                > usize::MAX / PAGE_SIZE + 1 {
                assert(!area_wf(self@[i as int]));
                return false;
            }
            if a.data.len() != (a.end_vpn - a.start_vpn) * PAGE_SIZE {
                assert(!area_wf(self@[i as int]));
                return false;
            }
            let mut j: usize = 0;
            while j < i
                invariant
                    j <= i,
                    i < n,
                    n == self.areas@.len(),
                    a@ == self@[i as int],
                    forall|b: int|
                        0 <= b < j ==> !area_meets(a@, (#[trigger] self@[b]).start, self@[b].end),
                decreases i - j,
            {
                let o = &self.areas[j];
                assert(self@[j as int] == o@);
                if a.start_vpn < o.end_vpn && o.start_vpn < a.end_vpn {
                    assert(area_meets(self@[i as int], self@[j as int].start, self@[j as int].end));
                    return false;
                }
                j += 1;
            }
            i += 1;
        }
        assert forall|x: int, y: int|
            0 <= x < self@.len() && 0 <= y < self@.len() && x != y implies !area_meets(
            #[trigger] self@[x],
            (#[trigger] self@[y]).start,
            self@[y].end,
        ) by {
            if x < y {
                assert(!area_meets(self@[y], self@[x].start, self@[x].end));
            }
        }
        true
    }

    /// Looks up the region that holds page `vpn`.
    pub fn translate(&self, vpn: usize) -> (r: Option<PageTableEntry>)
        requires
            self.wf(),
        ensures
            r.is_some() == is_mapped(self@, vpn as int),
            r.is_some() ==> 0 <= area_index(self@, vpn as int) < self@.len() && area_contains(
                self@[area_index(self@, vpn as int)],
                vpn as int,
            ),
            r.is_some() ==> r.unwrap().area == area_index(self@, vpn as int),
            r.is_some() ==> r.unwrap().page == vpn - self@[area_index(self@, vpn as int)].start,
            r.is_some() ==> r.unwrap().perm == self@[area_index(self@, vpn as int)].perm,
    {
        let mut i: usize = 0;
        while i < self.areas.len()
            invariant
                self.wf(),
                i <= self.areas.len(),
                forall|k: int| 0 <= k < i ==> !area_contains(#[trigger] self@[k], vpn as int),
            decreases self.areas.len() - i,
        {
            let a = &self.areas[i];
            assert(self@[i as int] == a@);
            if a.start_vpn <= vpn && vpn < a.end_vpn {
                proof {
                    lemma_area_index(self@, vpn as int, i as int);
                }
                return Some(PageTableEntry { area: i, page: vpn - a.start_vpn, perm: a.perm });
            }
            i += 1;
        }
        None
    }

    /// Reads the byte at `addr` on behalf of the user: the address lies below
    /// the kernel boundary, its page is mapped and its region is readable.
    pub fn read_byte(&self, addr: usize) -> (r: Option<u8>)
        requires
            self.wf(),
        ensures
            r == read_at(self@, addr as int),
    {
        if addr >= usize::MAX - 2 * PAGE_SIZE + 1 {
            return None;
        }
        match self.translate(addr / PAGE_SIZE) {
            Some(e) => {
                if e.perm.r {
                    let a = &self.areas[e.area];
                    assert(self@[e.area as int] == a@);
                    proof {
                        assert((addr / PAGE_SIZE) as int == page_floor(addr as int));
                        assert(e.area as int == area_index(self@, page_floor(addr as int)));
                        lemma_offset_in_area(a@, addr as int);
                    }
                    Some(a.data[addr - a.start_vpn * PAGE_SIZE])
                } else {
                    None
                }
            },
            None => None,
        }
    }

    /// Reads the string that starts at `ptr` and ends with a 0 byte, where
    /// the user may read all of it.
    pub fn read_str(&self, ptr: usize) -> (r: Option<Vec<u8>>)
        requires
            self.wf(),
        ensures
            r.is_some() == has_user_str(self@, ptr as int),
            r.is_some() ==> r.unwrap()@ == user_str(self@, ptr as int),
    {
        let mut out: Vec<u8> = Vec::new();
        let mut a: usize = ptr;
        loop
            invariant
                self.wf(),
                a == ptr + out@.len(),
                forall|i: int|
                    0 <= i < out@.len() ==> (#[trigger] read_at(self@, ptr + i)) == Some(out@[i])
                        && out@[i] != 0,
            decreases usize::MAX - a,
        {
            let n = out.len();
            match self.read_byte(a) {
                None => {
                    assert forall|k: int| 0 <= k implies !#[trigger] str_ends_at(
                        self@,
                        ptr as int,
                        k,
                    ) by {
                        if k < n {
                            assert(read_at(self@, ptr + k) == Some(out@[k]));
                        } else if k > n {
                            assert(read_at(self@, ptr + n).is_none());
                        }
                    }
                    return None;
                },
                Some(b) => {
                    if b == 0 {
                        proof {
                            assert(str_ends_at(self@, ptr as int, n as int));
                            let k = choose|k: int| 0 <= k && #[trigger] str_ends_at(self@, ptr as int, k);
                            if k < n {
                                assert(read_at(self@, ptr + k) == Some(out@[k]));
                            } else if k > n {
                                assert(read_at(self@, ptr + n) == Some(0u8));
                            }
                            assert(k == n);
                            assert(out@ =~= user_str(self@, ptr as int));
                        }
                        return Some(out);
                    }
                    out.push(b);
                    a += 1;
                },
            }
        }
    }

    /// Splits the buffer of `len` bytes at `start` into pieces that each lie
    /// within one page, since neighbouring pages need not share a region.
    /// Gives nothing where the buffer runs past the last address or touches a
    /// page that is not mapped.
    pub fn translate_address_range(&self, start: usize, len: usize) -> (r: Option<Vec<PageRange>>)
        requires
            self.wf(),
        ensures
            r.is_some() == (start + len <= usize::MAX && all_mapped(
                self@,
                start as int,
                start + len,
            )),
            r.is_some() ==> r.unwrap()@ == page_ranges(self@, start as int, start + len),
    {
        if len > usize::MAX - start {
            return None;
        }
        let end: usize = start + len;
        let mut out: Vec<PageRange> = Vec::new();
        let mut a: usize = start;
        assert(out@ + page_ranges(self@, a as int, end as int) =~= page_ranges(
            self@,
            start as int,
            end as int,
        ));
        while a < end
            invariant
                self.wf(),
                start <= a <= end,
                end == start + len,
                all_mapped(self@, start as int, a as int),
                out@ + page_ranges(self@, a as int, end as int) == page_ranges(
                    self@,
                    start as int,
                    end as int,
                ),
            decreases end - a,
        {
            let vpn: usize = a / PAGE_SIZE;
            match self.translate(vpn) {
                None => {
                    assert(!is_mapped(self@, page_floor(a as int)));
                    return None;
                },
                Some(e) => {
                    let ar = &self.areas[e.area];
                    assert(self@[e.area as int] == ar@);
                    proof {
                        lemma_offset_in_area(ar@, a as int);
                    }
                    let room: usize = PAGE_SIZE - a % PAGE_SIZE;
                    let n: usize = if end - a < room {
                        end - a
                    } else {
                        room
                    };
                    assert(n as int == piece_len(a as int, end as int));
                    let ghost before = out@;
                    out.push(PageRange { area: e.area, offset: a - ar.start_vpn * PAGE_SIZE, len: n });
                    proof {
                        assert(out@ + page_ranges(self@, a + n, end as int) =~= before + page_ranges(
                            self@,
                            a as int,
                            end as int,
                        ));
                        assert forall|b: int| start <= b < a + n implies is_mapped(
                            self@,
                            #[trigger] page_floor(b),
                        ) by {
                            if b >= a {
                                assert(page_floor(b) == vpn);
                            }
                        }
                    }
                    a += n;
                },
            }
        }
        assert(out@ + page_ranges(self@, a as int, end as int) =~= out@);
        Some(out)
    }

    /// Whether the user may write the byte at `addr`.
    pub fn can_write(&self, addr: usize) -> (r: bool)
        requires
            self.wf(),
        ensures
            r == writable_at(self@, addr as int),
    {
        if addr >= usize::MAX - 2 * PAGE_SIZE + 1 {
            return false;
        }
        match self.translate(addr / PAGE_SIZE) {
            Some(e) => e.perm.w,
            None => false,
        }
    }

    /// Stores `value` at `addr` on behalf of the user, where the address lies
    /// below the kernel boundary and its page is mapped and writable.
    pub fn write_byte(&mut self, addr: usize, value: u8) -> (r: bool)
        requires
            old(self).wf(),
        ensures
            final(self).wf(),
            r == writable_at(old(self)@, addr as int),
            r ==> final(self)@ == store_at(old(self)@, addr as int, value),
            !r ==> *final(self) == *old(self),
    {
        if addr >= usize::MAX - 2 * PAGE_SIZE + 1 {
            return false;
        }
        match self.translate(addr / PAGE_SIZE) {
            Some(e) => {
                if e.perm.w {
                    assert(self@[e.area as int] == self.areas[e.area as int]@);
                    proof {
                        lemma_offset_in_area(self@[e.area as int], addr as int);
                    }
                    let base: usize = self.areas[e.area].start_vpn * PAGE_SIZE;
                    self.areas[e.area].data[addr - base] = value;
                    assert(self@ =~= store_at(old(self)@, addr as int, value));
                    proof {
                        lemma_store_layout(old(self)@, addr as int, value);
                    }
                    true
                } else {
                    false
                }
            },
            None => false,
        }
    }

    /// Whether the user may write each of the `n` bytes from `addr` on.
    pub fn can_write_all(&self, addr: usize, n: usize) -> (r: bool)
        requires
            self.wf(),
        ensures
            r == (addr + n <= usize::MAX + 1 && all_writable(self@, addr as int, n as int)),
    {
        if n > 0 && addr > usize::MAX - (n - 1) {
            assert(!writable_at(self@, addr + (usize::MAX - addr)));
            return false;
        }
        let mut k: usize = 0;
        while k < n
            invariant
                self.wf(),
                k <= n,
                addr + n <= usize::MAX + 1,
                forall|j: int| 0 <= j < k ==> writable_at(self@, #[trigger] (addr + j)),
            decreases n - k,
        {
            if !self.can_write(addr + k) {
                return false;
            }
            k += 1;
        }
        true
    }

    /// Stores `bytes` from `addr` on, lowest address first, where the user may
    /// write every one of those addresses. Otherwise nothing is stored.
    pub fn write_bytes(&mut self, addr: usize, bytes: &Vec<u8>) -> (r: bool)
        requires
            old(self).wf(),
        ensures
            final(self).wf(),
            r == (addr + bytes@.len() <= usize::MAX + 1 && all_writable(
                old(self)@,
                addr as int,
                bytes@.len() as int,
            )),
            r ==> final(self)@ == store_bytes(old(self)@, addr as int, bytes@),
            !r ==> *final(self) == *old(self),
    {
        let n = bytes.len();
        if !self.can_write_all(addr, n) {
            return false;
        }
        let mut k: usize = 0;
        while k < n
            invariant
                self.wf(),
                k <= n,
                n == bytes@.len(),
                addr + n <= usize::MAX + 1,
                old(self).wf(),
                all_writable(old(self)@, addr as int, n as int),
                self@ == store_bytes(old(self)@, addr as int, bytes@.take(k as int)),
            decreases n - k,
        {
            let ghost before = self@;
            proof {
                lemma_store_bytes_layout(old(self)@, addr as int, bytes@.take(k as int));
                assert(writable_at(old(self)@, addr + k));
                lemma_same_layout(old(self)@, before, addr + k);
            }
            let ok = self.write_byte(addr + k, bytes[k]);
            assert(ok);
            proof {
                assert(bytes@.take(k + 1).drop_last() =~= bytes@.take(k as int));
                assert(bytes@.take(k + 1).last() == bytes@[k as int]);
            }
            k += 1;
        }
        assert(bytes@.take(n as int) =~= bytes@);
        true
    }

    /// Whether some region shares a page with `[lo, hi)`.
    pub fn overlaps(&self, lo: usize, hi: usize) -> (r: bool)
        ensures
            r == range_overlaps(self@, lo as int, hi as int),
    {
        let mut i: usize = 0;
        while i < self.areas.len()
            invariant
                i <= self.areas.len(),
                forall|k: int| 0 <= k < i ==> !area_meets(#[trigger] self@[k], lo as int, hi as int),
            decreases self.areas.len() - i,
        {
            let a = &self.areas[i];
            assert(self@[i as int] == a@);
            if a.start_vpn < hi && lo < a.end_vpn {
                return true;
            }
            i += 1;
        }
        false
    }

    /// Adds a zero-filled region `[lo, hi)` with rights `perm`. Fails, and
    /// changes nothing, where the range is empty or too large, or shares a
    /// page with a region that is already there.
    pub fn insert_framed_area(&mut self, lo: usize, hi: usize, perm: MapPermission) -> (r: bool)
        requires
            old(self).wf(),
            hi * PAGE_SIZE <= usize::MAX + 1,
        ensures
            final(self).wf(),
            r == (lo < hi && hi - lo <= MAX_AREA_PAGES && !range_overlaps(
                old(self)@,
                lo as int,
                hi as int,
            )),
            r ==> final(self)@ == old(self)@.push(zero_area(lo as int, hi as int, perm)),
            !r ==> *final(self) == *old(self),
    {
        if lo >= hi || hi - lo > MAX_AREA_PAGES || self.overlaps(lo, hi) {
            return false;
        }
        let n: usize = (hi - lo) * PAGE_SIZE;
        let mut data: Vec<u8> = Vec::new();
        let mut k: usize = 0;
        while k < n
            invariant
                k <= n,
                data@.len() == k,
                forall|j: int| 0 <= j < k ==> data@[j] == 0u8,
            decreases n - k,
        {
            data.push(0u8);
            k += 1;
        }
        let area = MapArea { start_vpn: lo, end_vpn: hi, perm, data };
        assert(area@ =~= zero_area(lo as int, hi as int, perm)) by {
            assert(area@.data =~= zero_area(lo as int, hi as int, perm).data);
        }
        self.areas.push(area);
        assert(self@ =~= old(self)@.push(zero_area(lo as int, hi as int, perm)));
        assert(space_wf(self@)) by {
            let s = self@;
            let o = old(self)@;
            assert forall|i: int, j: int|
                0 <= i < s.len() && 0 <= j < s.len() && i != j implies !area_meets(
                #[trigger] s[i],
                (#[trigger] s[j]).start,
                s[j].end,
            ) by {
                if i < o.len() && j < o.len() {
                    assert(s[i] == o[i] && s[j] == o[j]);
                } else if i < o.len() {
                    assert(!area_meets(o[i], lo as int, hi as int));
                } else {
                    assert(!area_meets(o[j], lo as int, hi as int));
                }
            }
        }
        true
    }

    /// Maps `len` bytes from `start` with the rights of mask `port`, zero
    /// filled. Returns 0, or -1 where the request is malformed, too large, or
    /// meets a page that is mapped already; then nothing changes.
    pub fn mmap(&mut self, start: usize, len: usize, port: usize) -> (r: isize)
        requires
            old(self).wf(),
        ensures
            final(self).wf(),
            (final(self)@, r as int) == mmap_result(
                old(self)@,
                start as int,
                len as int,
                port as int,
            ),
            r == -1 ==> *final(self) == *old(self),
    {
        if start % PAGE_SIZE != 0 || port < 1 || port > 7 || len > usize::MAX - start {
            return -1;
        }
        if len == 0 {
            return 0;
        }
        let lo: usize = start / PAGE_SIZE;
        let hi: usize = (start + len - 1) / PAGE_SIZE + 1;
        assert(hi as int == page_ceil(start + len));
        let perm = MapPermission {
            r: port % 2 == 1,
            w: (port / 2) % 2 == 1,
            x: (port / 4) % 2 == 1,
            u: true,
        };
        if self.insert_framed_area(lo, hi, perm) {
            0
        } else {
            -1
        }
    }

    /// Unmaps the region that spans exactly the pages of `len` bytes from
    /// `start`. Returns 0, or -1 where the start is not aligned, `len` is 0
    /// or no region has exactly those bounds; then nothing changes.
    pub fn munmap(&mut self, start: usize, len: usize) -> (r: isize)
        requires
            old(self).wf(),
        ensures
            final(self).wf(),
            (final(self)@, r as int) == munmap_result(old(self)@, start as int, len as int),
            r == -1 ==> *final(self) == *old(self),
    {
        if start % PAGE_SIZE != 0 || len == 0 || len > usize::MAX - start {
            return -1;
        }
        let lo: usize = start / PAGE_SIZE;
        let hi: usize = (start + len - 1) / PAGE_SIZE + 1;
        assert(hi as int == page_ceil(start + len));
        if self.remove_area_exact(lo, hi) {
            0
        } else {
            -1
        }
    }

    /// A copy with the same regions and bytes.
    pub fn duplicate(&self) -> (r: Self)
        requires
            self.wf(),
        ensures
            r.wf(),
            r@ == self@,
    {
        let mut areas: Vec<MapArea> = Vec::new();
        let mut i: usize = 0;
        while i < self.areas.len()
            invariant
                i <= self.areas.len(),
                areas@.len() == i,
                forall|k: int| 0 <= k < i ==> (#[trigger] areas@[k])@ == self.areas@[k]@,
            decreases self.areas.len() - i,
        {
            let a = &self.areas[i];
            let mut data: Vec<u8> = Vec::new();
            let mut j: usize = 0;
            while j < a.data.len()
                invariant
                    j <= a.data.len(),
                    data@ == a.data@.take(j as int),
                decreases a.data.len() - j,
            {
                data.push(a.data[j]);
                assert(data@ =~= a.data@.take(j + 1));
                j += 1;
            }
            assert(data@ =~= a.data@);
            areas.push(MapArea { start_vpn: a.start_vpn, end_vpn: a.end_vpn, perm: a.perm, data });
            i += 1;
        }
        let r = AddressSpace { areas };
        assert(r@ =~= self@);
        r
    }

    /// Makes the region that starts at page `lo` end at page `hi`, keeping
    /// its bytes up to the new end and filling new pages with zeros. Where
    /// `hi` is not beyond `lo` the region is removed; where no region starts
    /// at `lo` one is made with rights `perm`. Fails, and changes nothing,
    /// where the region would become too large or would grow into a page that
    /// is mapped already.
    pub fn resize_from(&mut self, lo: usize, hi: usize, perm: MapPermission) -> (r: bool)
        requires
            old(self).wf(),
            hi * PAGE_SIZE <= usize::MAX + 1,
        ensures
            final(self).wf(),
            r == resize_fits(old(self)@, lo as int, hi as int),
            r ==> final(self)@ == resized(old(self)@, lo as int, hi as int, perm),
            !r ==> *final(self) == *old(self),
    {
        let mut i: usize = 0;
        while i < self.areas.len()
            invariant
                self.wf(),
                i <= self.areas.len(),
                *self == *old(self),
                hi * PAGE_SIZE <= usize::MAX + 1,
                forall|k: int| 0 <= k < i ==> (#[trigger] self@[k]).start != lo,
            decreases self.areas.len() - i,
        {
            assert(self@[i as int] == self.areas@[i as int]@);
            if self.areas[i].start_vpn == lo {
                proof {
                    lemma_start_index(self@, lo as int, i as int);
                    assert(area_wf(self@[i as int]));
                }
                let end: usize = self.areas[i].end_vpn;
                if hi <= lo {
                    let _ = self.areas.remove(i);
                    proof {
                        assert(self@ =~= old(self)@.remove(i as int));
                        lemma_remove_wf(old(self)@, i as int);
                    }
                    return true;
                }
                if hi > end && (hi - lo > MAX_AREA_PAGES || self.overlaps(end, hi)) {
                    return false;
                }
                let mut area = self.areas.remove(i);
                assert(area@ == old(self)@[i as int]);
                if hi <= end {
                    area.data.truncate((hi - lo) * PAGE_SIZE);
                } else {
                    let n: usize = (hi - end) * PAGE_SIZE;
                    let ghost before = area.data@;
                    let mut k: usize = 0;
                    while k < n
                        invariant
                            k <= n,
                            area.start_vpn == lo,
                            area.perm == old(self)@[i as int].perm,
                            area.data@.len() == before.len() + k,
                            forall|j: int| 0 <= j < before.len() ==> area.data@[j] == before[j],
                            forall|j: int| before.len() <= j < before.len() + k ==> area.data@[j] == 0u8,
                        decreases n - k,
                    {
                        area.data.push(0u8);
                        k += 1;
                    }
                }
                area.end_vpn = hi;
                proof {
                    let o = old(self)@;
                    assert(area@.data =~= area_resized(o[i as int], hi as int).data);
                    assert(area@ == area_resized(o[i as int], hi as int));
                    assert forall|j: int| 0 <= j < o.len() && j != i implies !area_meets(
                        #[trigger] o[j],
                        area@.start,
                        area@.end,
                    ) by {
                        assert(!area_meets(o[j], o[i as int].start, o[i as int].end));
                        if hi > end {
                            assert(!area_meets(o[j], end as int, hi as int));
                        }
                    }
                    lemma_update_wf(o, i as int, area@);
                }
                self.areas.insert(i, area);
                assert(self@ =~= old(self)@.update(i as int, area_resized(old(self)@[i as int], hi as int)));
                return true;
            }
            i += 1;
        }
        if hi <= lo {
            return true;
        }
        self.insert_framed_area(lo, hi, perm)
    }

    /// Removes the region that is exactly `[lo, hi)`. Fails, and changes
    /// nothing, where there is none.
    pub fn remove_area_exact(&mut self, lo: usize, hi: usize) -> (r: bool)
        requires
            old(self).wf(),
        ensures
            final(self).wf(),
            r == has_exact(old(self)@, lo as int, hi as int),
            r ==> final(self)@ == old(self)@.remove(exact_index(old(self)@, lo as int, hi as int)),
            !r ==> *final(self) == *old(self),
    {
        let mut i: usize = 0;
        while i < self.areas.len()
            invariant
                self.wf(),
                i <= self.areas.len(),
                *self == *old(self),
                forall|k: int|
                    0 <= k < i ==> !((#[trigger] self@[k]).start == lo && self@[k].end == hi),
            decreases self.areas.len() - i,
        {
            let a = &self.areas[i];
            assert(self@[i as int] == a@);
            if a.start_vpn == lo && a.end_vpn == hi {
                proof {
                    lemma_exact_index(self@, lo as int, hi as int, i as int);
                }
                let _ = self.areas.remove(i);
                assert(self@ =~= old(self)@.remove(i as int));
                assert(space_wf(self@)) by {
                    let s = self@;
                    let o = old(self)@;
                    assert forall|k: int| 0 <= k < s.len() implies area_wf(#[trigger] s[k]) by {
                        assert(s[k] == o[if k < i { k } else { k + 1 }]);
                    }
                    assert forall|a: int, b: int|
                        0 <= a < s.len() && 0 <= b < s.len() && a != b implies !area_meets(
                        #[trigger] s[a],
                        (#[trigger] s[b]).start,
                        s[b].end,
                    ) by {
                        assert(s[a] == o[if a < i { a } else { a + 1 }]);
                        assert(s[b] == o[if b < i { b } else { b + 1 }]);
                    }
                }
                return true;
            }
            i += 1;
        }
        false
    }
}

} // verus!

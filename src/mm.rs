//! A model of a user address space: page-granular mapped areas with their
//! bytes, and the checks the memory-mapping system calls make on it.
use vstd::prelude::*;

verus! {

pub const PAGE_SIZE: usize = 4096;

/// Page-table permission flags of a mapped area.
pub const PERM_R: u8 = 2;
pub const PERM_W: u8 = 4;
pub const PERM_X: u8 = 8;
pub const PERM_U: u8 = 16;

/// First page of the address `va`.
pub open spec fn floor_page(va: int) -> int {
    va / PAGE_SIZE as int
}

/// First page past the address `va` rounded up.
pub open spec fn ceil_page(va: int) -> int {
    if va % PAGE_SIZE as int == 0 {
        va / PAGE_SIZE as int
    } else {
        va / PAGE_SIZE as int + 1
    }
}

/// Whether the page ranges `[s1, e1)` and `[s2, e2)` share a page.
pub open spec fn ranges_overlap(s1: int, e1: int, s2: int, e2: int) -> bool {
    s1 < e2 && s2 < e1
}

/// A contiguous run of mapped pages `[start_vpn, end_vpn)` and its bytes.
pub struct MapArea {
    pub start_vpn: usize,
    pub end_vpn: usize,
    pub perm: u8,
    pub data: Vec<u8>,
}

impl MapArea {
    pub open spec fn wf(&self) -> bool {
        &&& self.start_vpn <= self.end_vpn
        &&& self.data@.len() == (self.end_vpn - self.start_vpn) * PAGE_SIZE
    }

    /// Whether the area contains the page range `[s, e)`. An empty range at
    /// page `s` lies in an area that holds page `s`, or in an empty area at
    /// `s`; not in an area that merely ends at `s`.
    pub open spec fn covers(&self, s: int, e: int) -> bool {
        &&& self.start_vpn <= s
        &&& e <= self.end_vpn
        &&& s < e || s < self.end_vpn || self.start_vpn == self.end_vpn
    }
}

/// An address space: its page-table token and its mapped areas.
pub struct MemorySet {
    pub token: usize,
    pub areas: Vec<MapArea>,
}

/// Whether a request for the page range `[s, e)` runs into the area
/// `[a, b)`: a nonempty request when they share a page; an empty request at
/// page `s` when the area holds page `s` or is itself empty at `s`.
pub open spec fn meets(a: int, b: int, s: int, e: int) -> bool {
    if s < e {
        ranges_overlap(a, b, s, e)
    } else {
        (a <= s && s < b) || (a == b && a == s)
    }
}

/// Whether a request for `[s, e)` runs into some area of `areas`.
pub open spec fn overlaps_any(areas: Seq<MapArea>, s: int, e: int) -> bool {
    exists|k: int|
        0 <= k < areas.len() && meets(
            #[trigger] areas[k].start_vpn as int,
            areas[k].end_vpn as int,
            s,
            e,
        )
}

/// Index of the first area that maps all of `[s, e)`, if any.
pub open spec fn first_cover(areas: Seq<MapArea>, s: int, e: int, k: int) -> bool {
    &&& 0 <= k < areas.len()
    &&& areas[k].covers(s, e)
    &&& forall|x: int| 0 <= x < k ==> !(#[trigger] areas[x]).covers(s, e)
}

/// The permission flags that the protection bits `port` (read 1, write 2,
/// execute 4) ask for, user access included.
pub open spec fn perm_of(port: usize) -> u8 {
    (PERM_U + (if port % 2 == 1 {
        PERM_R
    } else {
        0
    }) + (if (port / 2) % 2 == 1 {
        PERM_W
    } else {
        0
    }) + (if (port / 4) % 2 == 1 {
        PERM_X
    } else {
        0
    })) as u8
}

/// First page of `va`.
fn floor_vpn(va: usize) -> (r: usize)
    ensures
        r == floor_page(va as int),
{
    va / PAGE_SIZE
}

/// First page past `va` rounded up.
fn ceil_vpn(va: usize) -> (r: usize)
    ensures
        r == ceil_page(va as int),
{
    if va % PAGE_SIZE == 0 {
        va / PAGE_SIZE
    } else {
        va / PAGE_SIZE + 1
    }
}

/// What an mmap request leaves: see `MemorySet::mmap`.
pub open spec fn mmap_outcome(before: MemorySet, after: MemorySet, start: usize, len: usize, port: usize, r: isize) -> bool {
    &&& after.wf()
    &&& after.token == before.token
    &&& (r == 0 || r == -1)
    &&& (r == -1 <==> (start % PAGE_SIZE != 0 || port > 7 || port == 0 || overlaps_any(
        before.areas@,
        floor_page(start as int),
        ceil_page(start + len),
    )))
    &&& r == -1 ==> after.areas@ == before.areas@
    &&& r == 0 ==> {
        &&& after.areas@.drop_last() == before.areas@
        &&& after.areas@.len() == before.areas@.len() + 1
        &&& after.areas@.last().start_vpn == floor_page(start as int)
        &&& after.areas@.last().end_vpn == ceil_page(start + len)
        &&& after.areas@.last().perm == perm_of(port)
    }
}

/// What a munmap request leaves: see `MemorySet::munmap`.
pub open spec fn munmap_outcome(before: MemorySet, after: MemorySet, start: usize, len: usize, r: isize) -> bool {
    &&& after.wf()
    &&& after.token == before.token
    &&& (r == 0 || r == -1)
    &&& (r == 0 <==> (start % PAGE_SIZE == 0 && exists|k: int|
        #[trigger] first_cover(before.areas@, floor_page(start as int), ceil_page(start + len), k)))
    &&& r == 0 ==> exists|k: int|
        #[trigger] first_cover(before.areas@, floor_page(start as int), ceil_page(start + len), k)
            && after.areas@ == before.areas@.remove(k)
    &&& r == -1 ==> after.areas@ == before.areas@
}

/// What writing `bytes` at `va` leaves: see `MemorySet::write_bytes`.
pub open spec fn write_outcome(before: MemorySet, after: MemorySet, va: usize, bytes: Seq<u8>, r: bool) -> bool {
    &&& after.wf()
    &&& after.token == before.token
    &&& after.areas@.len() == before.areas@.len()
    &&& (r == exists|k: int|
        #[trigger] first_cover(before.areas@, floor_page(va as int), ceil_page(va + bytes.len()), k))
    &&& !r ==> after.areas@ == before.areas@
    &&& r ==> exists|k: int|
        #[trigger] first_cover(before.areas@, floor_page(va as int), ceil_page(va + bytes.len()), k) && {
            let off = va - before.areas@[k].start_vpn * PAGE_SIZE;
            let old_data = before.areas@[k].data@;
            &&& after.areas@[k].start_vpn == before.areas@[k].start_vpn
            &&& after.areas@[k].end_vpn == before.areas@[k].end_vpn
            &&& after.areas@[k].perm == before.areas@[k].perm
            &&& after.areas@[k].data@ == old_data.take(off) + bytes + old_data.skip(off + bytes.len())
            &&& forall|x: int|
                0 <= x < before.areas@.len() && x != k ==> #[trigger] after.areas@[x] == before.areas@[x]
        }
}

/// An mmap that succeeds is undone by the matching munmap: it returns 0 and
/// leaves exactly the areas there were before the mmap.
pub proof fn lemma_mmap_munmap_round_trip(
    m0: MemorySet,
    m1: MemorySet,
    m2: MemorySet,
    start: usize,
    len: usize,
    port: usize,
    r: isize,
)
    requires
        m0.wf(),
        start + len <= usize::MAX - PAGE_SIZE,
        mmap_outcome(m0, m1, start, len, port, 0),
        munmap_outcome(m1, m2, start, len, r),
    ensures
        r == 0,
        m2.areas@ == m0.areas@,
{
    let s = floor_page(start as int);
    let e = ceil_page(start + len);
    let n = m0.areas@.len() as int;
    assert(s <= e) by {
        assert(start as int / PAGE_SIZE as int <= (start + len) / PAGE_SIZE as int) by (nonlinear_arith)
            requires
                start <= start + len,
        ;
    }
    assert(m1.areas@[n] == m1.areas@.last());
    assert forall|x: int| 0 <= x < n implies !(#[trigger] m1.areas@[x]).covers(s, e) by {
        assert(m1.areas@[x] == m0.areas@[x]);
        let a = m0.areas@[x].start_vpn as int;
        let b = m0.areas@[x].end_vpn as int;
        if m1.areas@[x].covers(s, e) {
            assert(meets(a, b, s, e));
        }
    }
    assert(first_cover(m1.areas@, s, e, n));
    let k = choose|k: int| #[trigger] first_cover(m1.areas@, s, e, k) && m2.areas@ == m1.areas@.remove(k);
    if k < n {
        assert(!m1.areas@[k].covers(s, e));
    } else if k > n {
        assert(!m1.areas@[n].covers(s, e));
    }
    assert(m1.areas@.remove(n) =~= m0.areas@);
}

/// `n` zero bytes.
pub fn zeroed(n: usize) -> (r: Vec<u8>)
    ensures
        r@ == Seq::new(n as nat, |i: int| 0u8),
{
    let mut data: Vec<u8> = Vec::new();
    let mut i: usize = 0;
    while i < n
        invariant
            i <= n,
            data@ == Seq::new(i as nat, |x: int| 0u8),
        decreases n - i,
    {
        data.push(0);
        i = i + 1;
        proof {
            assert(data@ =~= Seq::new(i as nat, |x: int| 0u8));
        }
    }
    data
}

impl MemorySet {
    /// Areas are well formed and pairwise disjoint.
    pub open spec fn wf(&self) -> bool {
        &&& forall|k: int| 0 <= k < self.areas@.len() ==> (#[trigger] self.areas@[k]).wf()
        &&& forall|a: int, b: int|
            0 <= a < self.areas@.len() && 0 <= b < self.areas@.len() && a != b ==> !ranges_overlap(
                #[trigger] self.areas@[a].start_vpn as int,
                self.areas@[a].end_vpn as int,
                #[trigger] self.areas@[b].start_vpn as int,
                self.areas@[b].end_vpn as int,
            )
    }

    /// Both address spaces map the same pages with the same permissions and
    /// hold the same bytes.
    pub open spec fn same_contents(&self, other: &MemorySet) -> bool {
        &&& self.areas@.len() == other.areas@.len()
        &&& forall|k: int|
            0 <= k < self.areas@.len() ==> {
                &&& (#[trigger] self.areas@[k]).start_vpn == other.areas@[k].start_vpn
                &&& self.areas@[k].end_vpn == other.areas@[k].end_vpn
                &&& self.areas@[k].perm == other.areas@[k].perm
                &&& self.areas@[k].data@ == other.areas@[k].data@
            }
    }

    /// An empty address space with the given token.
    pub fn new_bare(token: usize) -> (r: Self)
        ensures
            r.token == token,
            r.areas@.len() == 0,
            r.wf(),
    {
        MemorySet { token, areas: Vec::new() }
    }

    /// The token naming this address space's page table.
    pub fn token(&self) -> (r: usize)
        ensures
            r == self.token,
    {
        self.token
    }

    /// Whether a mapped area shares a page with `[start_va, end_va)`.
    pub fn check_overlap(&self, start_va: usize, end_va: usize) -> (r: bool)
        ensures
            r == overlaps_any(self.areas@, floor_page(start_va as int), ceil_page(end_va as int)),
    {
        let s = floor_vpn(start_va);
        let e = ceil_vpn(end_va);
        let mut k: usize = 0;
        while k < self.areas.len()
            invariant
                k <= self.areas@.len(),
                s == floor_page(start_va as int),
                e == ceil_page(end_va as int),
                forall|x: int|
                    0 <= x < k ==> !meets(
                        #[trigger] self.areas@[x].start_vpn as int,
                        self.areas@[x].end_vpn as int,
                        s as int,
                        e as int,
                    ),
            decreases self.areas@.len() - k,
        {
            let a = self.areas[k].start_vpn;
            let b = self.areas[k].end_vpn;
            let hit = if s < e {
                a < e && s < b
            } else {
                (a <= s && s < b) || (a == b && a == s)
            };
            if hit {
                return true;
            }
            k = k + 1;
        }
        false
    }

    /// Adds `area`, which shares no page with the mapped areas.
    pub fn push_area(&mut self, area: MapArea)
        requires
            old(self).wf(),
            area.wf(),
            !overlaps_any(old(self).areas@, area.start_vpn as int, area.end_vpn as int),
        ensures
            final(self).wf(),
            final(self).token == old(self).token,
            final(self).areas@ == old(self).areas@.push(area),
    {
        let ghost a = area;
        self.areas.push(area);
        proof {
            assert forall|x: int, y: int|
                0 <= x < self.areas@.len() && 0 <= y < self.areas@.len() && x != y implies !ranges_overlap(
                #[trigger] self.areas@[x].start_vpn as int,
                self.areas@[x].end_vpn as int,
                #[trigger] self.areas@[y].start_vpn as int,
                self.areas@[y].end_vpn as int,
            ) by {
                let last = self.areas@.len() - 1;
                if x == last {
                    assert(!ranges_overlap(old(self).areas@[y].start_vpn as int, old(self).areas@[y].end_vpn as int, a.start_vpn as int, a.end_vpn as int));
                } else if y == last {
                    assert(!ranges_overlap(old(self).areas@[x].start_vpn as int, old(self).areas@[x].end_vpn as int, a.start_vpn as int, a.end_vpn as int));
                }
            }
        }
    }

    /// Maps the pages of `[start_va, end_va)` with `perm`, filled with zeros.
    pub fn insert_framed_area(&mut self, start_va: usize, end_va: usize, perm: u8)
        requires
            old(self).wf(),
            start_va <= end_va,
            end_va <= usize::MAX - PAGE_SIZE,
            !overlaps_any(old(self).areas@, floor_page(start_va as int), ceil_page(end_va as int)),
        ensures
            final(self).wf(),
            final(self).token == old(self).token,
            final(self).areas@.len() == old(self).areas@.len() + 1,
            final(self).areas@.drop_last() == old(self).areas@,
            final(self).areas@.last().start_vpn == floor_page(start_va as int),
            final(self).areas@.last().end_vpn == ceil_page(end_va as int),
            final(self).areas@.last().perm == perm,
            forall|i: int| 0 <= i < final(self).areas@.last().data@.len() ==> final(self).areas@.last().data@[i] == 0,
    {
        let s = floor_vpn(start_va);
        let e = ceil_vpn(end_va);
        assert((e - s) * PAGE_SIZE <= e * PAGE_SIZE <= end_va + PAGE_SIZE) by (nonlinear_arith)
            requires
                s <= e,
                e == ceil_page(end_va as int),
                s == floor_page(start_va as int),
                start_va <= end_va,
        ;
        let data = zeroed((e - s) * PAGE_SIZE);
        self.push_area(MapArea { start_vpn: s, end_vpn: e, perm, data });
        proof {
            assert(self.areas@.drop_last() =~= old(self).areas@);
        }
    }

    /// Index of the first area that maps every page of `[s, e)`.
    fn find_cover(&self, s: usize, e: usize) -> (r: Option<usize>)
        ensures
            r matches Some(k) ==> first_cover(self.areas@, s as int, e as int, k as int),
            r is None ==> forall|k: int| !#[trigger] first_cover(self.areas@, s as int, e as int, k),
    {
        let mut k: usize = 0;
        while k < self.areas.len()
            invariant
                k <= self.areas@.len(),
                forall|x: int| 0 <= x < k ==> !(#[trigger] self.areas@[x]).covers(s as int, e as int),
            decreases self.areas@.len() - k,
        {
            let a = self.areas[k].start_vpn;
            let b = self.areas[k].end_vpn;
            if a <= s && e <= b && (s < e || s < b || a == b) {
                return Some(k);
            }
            k = k + 1;
        }
        proof {
            assert forall|x: int| !#[trigger] first_cover(self.areas@, s as int, e as int, x) by {
                if 0 <= x < self.areas@.len() {
                    assert(!self.areas@[x].covers(s as int, e as int));
                }
            }
        }
        None
    }

    /// A full copy of `user_space` under a new token.
    pub fn from_existed_user(user_space: &MemorySet, token: usize) -> (r: MemorySet)
        requires
            user_space.wf(),
        ensures
            r.wf(),
            r.token == token,
            r.same_contents(user_space),
    {
        let mut areas: Vec<MapArea> = Vec::new();
        let mut k: usize = 0;
        while k < user_space.areas.len()
            invariant
                k <= user_space.areas@.len(),
                areas@.len() == k,
                forall|x: int|
                    0 <= x < k ==> {
                        &&& (#[trigger] areas@[x]).start_vpn == user_space.areas@[x].start_vpn
                        &&& areas@[x].end_vpn == user_space.areas@[x].end_vpn
                        &&& areas@[x].perm == user_space.areas@[x].perm
                        &&& areas@[x].data@ == user_space.areas@[x].data@
                    },
            decreases user_space.areas@.len() - k,
        {
            let src = &user_space.areas[k];
            let mut data: Vec<u8> = Vec::new();
            let mut i: usize = 0;
            while i < src.data.len()
                invariant
                    i <= src.data@.len(),
                    data@ == src.data@.take(i as int),
                decreases src.data@.len() - i,
            {
                data.push(src.data[i]);
                i = i + 1;
                proof {
                    assert(data@ =~= src.data@.take(i as int));
                }
            }
            proof {
                assert(data@ =~= src.data@);
            }
            areas.push(MapArea { start_vpn: src.start_vpn, end_vpn: src.end_vpn, perm: src.perm, data });
            k = k + 1;
        }
        let r = MemorySet { token, areas };
        proof {
            assert forall|a: int, b: int|
                0 <= a < r.areas@.len() && 0 <= b < r.areas@.len() && a != b implies !ranges_overlap(
                #[trigger] r.areas@[a].start_vpn as int,
                r.areas@[a].end_vpn as int,
                #[trigger] r.areas@[b].start_vpn as int,
                r.areas@[b].end_vpn as int,
            ) by {
                assert(!ranges_overlap(
                    user_space.areas@[a].start_vpn as int,
                    user_space.areas@[a].end_vpn as int,
                    user_space.areas@[b].start_vpn as int,
                    user_space.areas@[b].end_vpn as int,
                ));
            }
            assert forall|x: int| 0 <= x < r.areas@.len() implies (#[trigger] r.areas@[x]).wf() by {
                assert(user_space.areas@[x].wf());
            }
        }
        r
    }

    /// The byte at `va`, when a mapped area holds it.
    pub fn read_byte(&self, va: usize) -> (r: Option<u8>)
        requires
            self.wf(),
        ensures
            r is None <==> !exists|k: int| #[trigger] first_cover(self.areas@, floor_page(va as int), floor_page(va as int) + 1, k),
            r matches Some(b) ==> exists|k: int|
                #[trigger] first_cover(self.areas@, floor_page(va as int), floor_page(va as int) + 1, k)
                    && b == self.areas@[k].data@[va - self.areas@[k].start_vpn * PAGE_SIZE],
    {
        let s = floor_vpn(va);
        match self.find_cover(s, s + 1) {
            Some(k) => {
                let area = &self.areas[k];
                assert(area.wf());
                assert(area.start_vpn * PAGE_SIZE <= va < area.end_vpn * PAGE_SIZE) by (nonlinear_arith)
                    requires
                        s == floor_page(va as int),
                        area.start_vpn <= s,
                        s + 1 <= area.end_vpn,
                ;
                assert((area.end_vpn - area.start_vpn) * PAGE_SIZE == area.end_vpn * PAGE_SIZE
                    - area.start_vpn * PAGE_SIZE) by (nonlinear_arith);
                Some(area.data[va - area.start_vpn * PAGE_SIZE])
            },
            None => None,
        }
    }

    /// Writes `bytes` at `va` into the first area that maps every page of
    /// the range; false, writing nothing, when no area does.
    pub fn write_bytes(&mut self, va: usize, bytes: &Vec<u8>) -> (r: bool)
        requires
            old(self).wf(),
            va + bytes@.len() <= usize::MAX,
        ensures
            write_outcome(*old(self), *final(self), va, bytes@, r),
    {
        let end = va + bytes.len();
        let s = floor_vpn(va);
        let e = ceil_vpn(end);
        match self.find_cover(s, e) {
            Some(k) => {
                let mut area = self.areas.remove(k);
                assert(old(self).areas@[k as int].wf());
                assert(area.start_vpn * PAGE_SIZE <= va && end <= area.end_vpn * PAGE_SIZE) by (nonlinear_arith)
                    requires
                        s == floor_page(va as int),
                        e == ceil_page(end as int),
                        area.start_vpn <= s,
                        e <= area.end_vpn,
                ;
                assert((area.end_vpn - area.start_vpn) * PAGE_SIZE == area.end_vpn * PAGE_SIZE
                    - area.start_vpn * PAGE_SIZE) by (nonlinear_arith);
                let off = va - area.start_vpn * PAGE_SIZE;
                let ghost old_data = area.data@;
                let mut i: usize = 0;
                while i < bytes.len()
                    invariant
                        i <= bytes@.len(),
                        k < old(self).areas@.len(),
                        off <= va,
                        va + bytes@.len() <= usize::MAX,
                        off + bytes@.len() <= old_data.len(),
                        area.data@.len() == old_data.len(),
                        area.start_vpn == old(self).areas@[k as int].start_vpn,
                        area.end_vpn == old(self).areas@[k as int].end_vpn,
                        area.perm == old(self).areas@[k as int].perm,
                        area.data@ == old_data.take(off as int) + bytes@.take(i as int) + old_data.skip(
                            off + i,
                        ),
                    decreases bytes@.len() - i,
                {
                    area.data.set(off + i, bytes[i]);
                    i = i + 1;
                    proof {
                        assert(area.data@ =~= old_data.take(off as int) + bytes@.take(i as int)
                            + old_data.skip(off + i));
                    }
                }
                proof {
                    assert(bytes@.take(bytes@.len() as int) =~= bytes@);
                }
                self.areas.insert(k, area);
                proof {
                    assert(self.areas@ =~= old(self).areas@.update(k as int, self.areas@[k as int]));
                    assert forall|a: int, b: int|
                        0 <= a < self.areas@.len() && 0 <= b < self.areas@.len() && a != b implies !ranges_overlap(
                        #[trigger] self.areas@[a].start_vpn as int,
                        self.areas@[a].end_vpn as int,
                        #[trigger] self.areas@[b].start_vpn as int,
                        self.areas@[b].end_vpn as int,
                    ) by {
                        assert(!ranges_overlap(
                            old(self).areas@[a].start_vpn as int,
                            old(self).areas@[a].end_vpn as int,
                            old(self).areas@[b].start_vpn as int,
                            old(self).areas@[b].end_vpn as int,
                        ));
                    }
                    assert forall|x: int| 0 <= x < self.areas@.len() implies (#[trigger] self.areas@[x]).wf() by {
                        assert(old(self).areas@[x].wf());
                    }
                }
                true
            },
            None => false,
        }
    }

    /// Removes the whole first area that maps every page of
    /// `[start_va, end_va)`, even when it maps more. False when none does.
    pub fn remove_map(&mut self, start_va: usize, end_va: usize) -> (r: bool)
        requires
            old(self).wf(),
        ensures
            final(self).wf(),
            final(self).token == old(self).token,
            r == exists|k: int| #[trigger] first_cover(old(self).areas@, floor_page(start_va as int), ceil_page(end_va as int), k),
            r ==> exists|k: int|
                #[trigger] first_cover(old(self).areas@, floor_page(start_va as int), ceil_page(end_va as int), k)
                    && final(self).areas@ == old(self).areas@.remove(k),
            !r ==> final(self).areas@ == old(self).areas@,
    {
        let s = floor_vpn(start_va);
        let e = ceil_vpn(end_va);
        let mut k: usize = 0;
        while k < self.areas.len()
            invariant
                self.areas@ == old(self).areas@,
                self.token == old(self).token,
                old(self).wf(),
                k <= self.areas@.len(),
                s == floor_page(start_va as int),
                e == ceil_page(end_va as int),
                forall|x: int| 0 <= x < k ==> !(#[trigger] self.areas@[x]).covers(s as int, e as int),
            decreases self.areas@.len() - k,
        {
            let a = self.areas[k].start_vpn;
            let b = self.areas[k].end_vpn;
            if a <= s && e <= b && (s < e || s < b || a == b) {
                proof {
                    assert(first_cover(old(self).areas@, s as int, e as int, k as int));
                }
                self.areas.remove(k);
                proof {
                    assert forall|a: int, b: int|
                        0 <= a < self.areas@.len() && 0 <= b < self.areas@.len() && a != b implies !ranges_overlap(
                        #[trigger] self.areas@[a].start_vpn as int,
                        self.areas@[a].end_vpn as int,
                        #[trigger] self.areas@[b].start_vpn as int,
                        self.areas@[b].end_vpn as int,
                    ) by {
                        let oa = if a < k { a } else { a + 1 };
                        let ob = if b < k { b } else { b + 1 };
                        assert(self.areas@[a] == old(self).areas@[oa]);
                        assert(self.areas@[b] == old(self).areas@[ob]);
                    }
                    assert forall|x: int| 0 <= x < self.areas@.len() implies (#[trigger] self.areas@[x]).wf() by {
                        let ox = if x < k { x } else { x + 1 };
                        assert(self.areas@[x] == old(self).areas@[ox]);
                    }
                }
                return true;
            }
            k = k + 1;
        }
        proof {
            assert forall|x: int| !#[trigger] first_cover(old(self).areas@, s as int, e as int, x) by {
                if 0 <= x < old(self).areas@.len() {
                    assert(!old(self).areas@[x].covers(s as int, e as int));
                }
            }
        }
        false
    }

    /// Validates an mmap request and maps `[start, start + len)` with the
    /// protection bits `port`. Returns -1, changing nothing, when `start` is
    /// not page aligned, when `port` has bits other than read (1), write (2)
    /// and execute (4) or none of them, or when the range runs into a mapped
    /// area (see `meets`); else maps it, user-accessible, and returns 0. An
    /// empty range maps an empty area.
    pub fn mmap(&mut self, start: usize, len: usize, port: usize) -> (r: isize)
        requires
            old(self).wf(),
            start + len <= usize::MAX - PAGE_SIZE,
        ensures
            mmap_outcome(*old(self), *final(self), start, len, port, r),
    {
        if start % PAGE_SIZE != 0 {
            return -1;
        }
        if port > 7 || port == 0 {
            return -1;
        }
        let mut perm: u8 = PERM_U;
        if port % 2 == 1 {
            perm = perm + PERM_R;
        }
        if (port / 2) % 2 == 1 {
            perm = perm + PERM_W;
        }
        if (port / 4) % 2 == 1 {
            perm = perm + PERM_X;
        }
        let end = start + len;
        if self.check_overlap(start, end) {
            return -1;
        }
        self.insert_framed_area(start, end, perm);
        0
    }

    /// Validates a munmap request: -1 when `start` is not page aligned;
    /// otherwise removes the whole first area that maps every page of
    /// `[start, start + len)` and returns 0, or -1 when no area does.
    pub fn munmap(&mut self, start: usize, len: usize) -> (r: isize)
        requires
            old(self).wf(),
            start + len <= usize::MAX,
        ensures
            munmap_outcome(*old(self), *final(self), start, len, r),
    {
        if start % PAGE_SIZE != 0 {
            return -1;
        }
        if self.remove_map(start, start + len) {
            0
        } else {
            -1
        }
    }
}

} // verus!

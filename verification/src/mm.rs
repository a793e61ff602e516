//! The user address space of a task: a list of mapped areas, each a range of
//! virtual pages with permission bits, and the bytes written into them.
//! A byte of a mapped page that was never written reads as zero, as a freshly
//! allocated frame does.
use vstd::prelude::*;
use crate::config::PAGE_SIZE;

verus! {

/// The page may be read.
pub const PERM_R: u8 = 2;
/// The page may be written.
pub const PERM_W: u8 = 4;
/// The page may be executed.
pub const PERM_X: u8 = 8;
/// The page may be accessed from user mode.
pub const PERM_U: u8 = 16;

/// The page that holds virtual address `va`.
pub open spec fn page_floor(va: usize) -> usize {
    (va / PAGE_SIZE) as usize
}

/// The first page at or after virtual address `va`.
pub open spec fn page_ceil(va: usize) -> usize {
    (va / PAGE_SIZE + (if va % PAGE_SIZE == 0 { 0usize } else { 1usize })) as usize
}

/// Page number of the page that holds `va`.
pub fn floor_vpn(va: usize) -> (vpn: usize)
    ensures
        vpn == page_floor(va),
{
    va / PAGE_SIZE
}

/// Page number of the first page at or after `va`.
pub fn ceil_vpn(va: usize) -> (vpn: usize)
    ensures
        vpn == page_ceil(va),
{
    if va % PAGE_SIZE == 0 {
        va / PAGE_SIZE
    } else {
        va / PAGE_SIZE + 1
    }
}

/// A mapped range of pages `start_vpn..end_vpn` with permission bits `perm`.
/// `bytes` lists the bytes written, by virtual address; of two entries for
/// one address the later one counts.
pub struct MapArea {
    pub start_vpn: usize,
    pub end_vpn: usize,
    pub perm: u8,
    pub bytes: Vec<(usize, u8)>,
}

/// The contents of a [`MapArea`]: its pages, permissions, and the bytes
/// written into it by virtual address.
#[verifier::ext_equal]
pub struct AreaView {
    pub start_vpn: usize,
    pub end_vpn: usize,
    pub perm: u8,
    pub data: Map<usize, u8>,
}

/// The bytes that a list of writes leaves, the later write of an address winning.
pub open spec fn written(entries: Seq<(usize, u8)>) -> Map<usize, u8>
    decreases entries.len(),
{
    if entries.len() == 0 {
        Map::empty()
    } else {
        written(entries.drop_last()).insert(entries.last().0, entries.last().1)
    }
}

impl View for MapArea {
    type V = AreaView;

    open spec fn view(&self) -> AreaView {
        AreaView {
            start_vpn: self.start_vpn,
            end_vpn: self.end_vpn,
            perm: self.perm,
            data: written(self.bytes@),
        }
    }
}

/// The address space of a task: the token of its page table and its areas.
pub struct MemorySet {
    pub token: usize,
    pub areas: Vec<MapArea>,
}

/// The contents of a [`MemorySet`].
#[verifier::ext_equal]
pub struct MemoryView {
    pub token: usize,
    pub areas: Seq<AreaView>,
}

impl View for MemorySet {
    type V = MemoryView;

    open spec fn view(&self) -> MemoryView {
        MemoryView { token: self.token, areas: self.areas@.map_values(|a: MapArea| a@) }
    }
}

/// Area `a` maps page `vpn`.
pub open spec fn area_holds(a: AreaView, vpn: int) -> bool {
    a.start_vpn <= vpn < a.end_vpn
}

/// Index of the first area that maps page `vpn`, or -1 when none does.
pub open spec fn find_area(areas: Seq<AreaView>, vpn: int) -> int
    decreases areas.len(),
{
    if areas.len() == 0 {
        -1
    } else {
        let f = find_area(areas.drop_last(), vpn);
        if f >= 0 {
            f
        } else if area_holds(areas.last(), vpn) {
            areas.len() - 1
        } else {
            -1
        }
    }
}

/// Index of the first area that is exactly pages `start_vpn..end_vpn`, or -1.
pub open spec fn find_exact(areas: Seq<AreaView>, start_vpn: int, end_vpn: int) -> int
    decreases areas.len(),
{
    if areas.len() == 0 {
        -1
    } else {
        let f = find_exact(areas.drop_last(), start_vpn, end_vpn);
        if f >= 0 {
            f
        } else if areas.last().start_vpn == start_vpn && areas.last().end_vpn == end_vpn {
            areas.len() - 1
        } else {
            -1
        }
    }
}

/// Some area shares a page with pages `start_vpn..end_vpn`.
pub open spec fn overlaps(areas: Seq<AreaView>, start_vpn: int, end_vpn: int) -> bool {
    exists|k: int| 0 <= k < areas.len() && areas[k].start_vpn < end_vpn && start_vpn < #[trigger] areas[k].end_vpn
}

/// User code may read (or, with `write`, write) the byte at `va`.
pub open spec fn user_accessible(areas: Seq<AreaView>, va: usize, write: bool) -> bool {
    let i = find_area(areas, page_floor(va) as int);
    &&& i >= 0
    &&& areas[i].perm & PERM_U != 0
    &&& if write {
        areas[i].perm & PERM_W != 0
    } else {
        areas[i].perm & PERM_R != 0
    }
}

/// The byte at `va`, when a mapped page holds it.
pub open spec fn byte_at(areas: Seq<AreaView>, va: usize) -> Option<u8> {
    let i = find_area(areas, page_floor(va) as int);
    if i >= 0 {
        Some(
            if areas[i].data.contains_key(va) {
                areas[i].data[va]
            } else {
                0u8
            },
        )
    } else {
        None
    }
}

/// The areas after writing `b` at `va`; unchanged when no page maps `va`.
pub open spec fn with_byte(areas: Seq<AreaView>, va: usize, b: u8) -> Seq<AreaView> {
    let i = find_area(areas, page_floor(va) as int);
    if i >= 0 {
        areas.update(i, AreaView { data: areas[i].data.insert(va, b), ..areas[i] })
    } else {
        areas
    }
}

proof fn lemma_find_area(areas: Seq<AreaView>, vpn: int, i: int)
    requires
        0 <= i <= areas.len(),
        forall|k: int| 0 <= k < i ==> !area_holds(#[trigger] areas[k], vpn),
        i < areas.len() ==> area_holds(areas[i], vpn),
    ensures
        find_area(areas, vpn) == (if i < areas.len() { i } else { -1 }),
    decreases areas.len(),
{
    if areas.len() > 0 {
        let rest = areas.drop_last();
        if i < areas.len() - 1 {
            assert(area_holds(rest[i], vpn));
            lemma_find_area(rest, vpn, i);
        } else {
            assert forall|k: int| 0 <= k < rest.len() implies !area_holds(#[trigger] rest[k], vpn) by {
                assert(rest[k] == areas[k]);
            }
            lemma_find_area(rest, vpn, rest.len() as int);
        }
    }
}

proof fn lemma_find_exact(areas: Seq<AreaView>, s: int, e: int, i: int)
    requires
        0 <= i <= areas.len(),
        forall|k: int| 0 <= k < i ==> !(#[trigger] areas[k].start_vpn == s && areas[k].end_vpn == e),
        i < areas.len() ==> areas[i].start_vpn == s && areas[i].end_vpn == e,
    ensures
        find_exact(areas, s, e) == (if i < areas.len() { i } else { -1 }),
    decreases areas.len(),
{
    if areas.len() > 0 {
        let rest = areas.drop_last();
        if i < areas.len() - 1 {
            assert(rest[i] == areas[i]);
            assert forall|k: int| 0 <= k < i implies !(#[trigger] rest[k].start_vpn == s && rest[k].end_vpn == e) by {
                assert(rest[k] == areas[k]);
            }
            lemma_find_exact(rest, s, e, i);
        } else {
            assert forall|k: int| 0 <= k < rest.len() implies !(#[trigger] rest[k].start_vpn == s && rest[k].end_vpn == e) by {
                assert(rest[k] == areas[k]);
            }
            lemma_find_exact(rest, s, e, rest.len() as int);
        }
    }
}

/// The last entry for `va` decides what `written` holds there.
proof fn lemma_written_last(entries: Seq<(usize, u8)>, va: usize, p: int)
    requires
        -1 <= p < entries.len(),
        p >= 0 ==> entries[p].0 == va,
        forall|k: int| p < k < entries.len() ==> (#[trigger] entries[k]).0 != va,
    ensures
        p < 0 ==> !written(entries).contains_key(va),
        p >= 0 ==> written(entries).contains_key(va) && written(entries)[va] == entries[p].1,
    decreases entries.len(),
{
    if entries.len() > 0 {
        let rest = entries.drop_last();
        if p == entries.len() - 1 {
        } else {
            assert forall|k: int| p < k < rest.len() implies (#[trigger] rest[k]).0 != va by {
                assert(rest[k] == entries[k]);
            }
            if p >= 0 {
                assert(rest[p] == entries[p]);
            }
            lemma_written_last(rest, va, p);
        }
    }
}

/// Overwriting the last entry for `va` is writing `va` anew.
proof fn lemma_written_update(entries: Seq<(usize, u8)>, va: usize, b: u8, p: int)
    requires
        0 <= p < entries.len(),
        entries[p].0 == va,
        forall|k: int| p < k < entries.len() ==> (#[trigger] entries[k]).0 != va,
    ensures
        written(entries.update(p, (va, b))) == written(entries).insert(va, b),
    decreases entries.len(),
{
    let rest = entries.drop_last();
    let upd = entries.update(p, (va, b));
    if p == entries.len() - 1 {
        assert(upd.drop_last() =~= rest);
        assert(written(upd) =~= written(entries).insert(va, b));
    } else {
        assert forall|k: int| p < k < rest.len() implies (#[trigger] rest[k]).0 != va by {
            assert(rest[k] == entries[k]);
        }
        lemma_written_update(rest, va, b, p);
        assert(upd.drop_last() =~= rest.update(p, (va, b)));
        assert(entries.last().0 != va);
        assert(written(upd) =~= written(entries).insert(va, b));
    }
}

/// The first exact area: it is exactly pages `s..e` and none before it is;
/// -1 only when no area is.
pub proof fn lemma_find_exact_props(areas: Seq<AreaView>, s: int, e: int)
    ensures
        -1 <= find_exact(areas, s, e) < areas.len(),
        find_exact(areas, s, e) >= 0 ==> areas[find_exact(areas, s, e)].start_vpn == s
            && areas[find_exact(areas, s, e)].end_vpn == e,
        forall|k: int| 0 <= k < areas.len() && (find_exact(areas, s, e) < 0 || k < find_exact(areas, s, e))
            ==> !(#[trigger] areas[k].start_vpn == s && areas[k].end_vpn == e),
    decreases areas.len(),
{
    if areas.len() > 0 {
        let rest = areas.drop_last();
        lemma_find_exact_props(rest, s, e);
        assert forall|k: int| 0 <= k < areas.len() && (find_exact(areas, s, e) < 0 || k < find_exact(areas, s, e))
            implies !(#[trigger] areas[k].start_vpn == s && areas[k].end_vpn == e) by {
            if k < rest.len() {
                assert(rest[k] == areas[k]);
            }
        }
    }
}

proof fn lemma_find_area_range(areas: Seq<AreaView>, vpn: int)
    ensures
        -1 <= find_area(areas, vpn) < areas.len(),
        find_area(areas, vpn) >= 0 ==> area_holds(areas[find_area(areas, vpn)], vpn),
    decreases areas.len(),
{
    if areas.len() > 0 {
        lemma_find_area_range(areas.drop_last(), vpn);
    }
}

/// Which area maps a page depends only on the areas' page ranges.
proof fn lemma_find_area_same_ranges(areas: Seq<AreaView>, i: int, a: AreaView, vpn: int)
    requires
        0 <= i < areas.len(),
        a.start_vpn == areas[i].start_vpn,
        a.end_vpn == areas[i].end_vpn,
    ensures
        find_area(areas.update(i, a), vpn) == find_area(areas, vpn),
    decreases areas.len(),
{
    let upd = areas.update(i, a);
    if i < areas.len() - 1 {
        assert(upd.drop_last() =~= areas.drop_last().update(i, a));
        lemma_find_area_same_ranges(areas.drop_last(), i, a, vpn);
    } else {
        assert(upd.drop_last() =~= areas.drop_last());
    }
}

/// A byte written at a mapped address reads back; every other address reads
/// as before, and writing changes no permission.
pub proof fn lemma_read_after_write(areas: Seq<AreaView>, va: usize, b: u8)
    requires
        find_area(areas, page_floor(va) as int) >= 0,
    ensures
        byte_at(with_byte(areas, va, b), va) == Some(b),
        forall|other: usize| other != va ==> #[trigger] byte_at(with_byte(areas, va, b), other) == byte_at(areas, other),
        forall|x: usize, w: bool| #[trigger] user_accessible(with_byte(areas, va, b), x, w) == user_accessible(areas, x, w),
{
    let i = find_area(areas, page_floor(va) as int);
    lemma_find_area_range(areas, page_floor(va) as int);
    let a = AreaView { data: areas[i].data.insert(va, b), ..areas[i] };
    assert forall|vpn: int| #[trigger] find_area(with_byte(areas, va, b), vpn) == find_area(areas, vpn) by {
        lemma_find_area_same_ranges(areas, i, a, vpn);
    }
    assert(find_area(with_byte(areas, va, b), page_floor(va) as int) == i);
    assert forall|other: usize| other != va implies #[trigger] byte_at(with_byte(areas, va, b), other) == byte_at(areas, other) by {
        let j = find_area(areas, page_floor(other) as int);
        lemma_find_area_range(areas, page_floor(other) as int);
        assert(find_area(with_byte(areas, va, b), page_floor(other) as int) == j);
        if j >= 0 {
            if j == i {
                assert(with_byte(areas, va, b)[j].data == areas[j].data.insert(va, b));
            } else {
                assert(with_byte(areas, va, b)[j] == areas[j]);
            }
        }
    }
    assert forall|x: usize, w: bool| #[trigger] user_accessible(with_byte(areas, va, b), x, w) == user_accessible(areas, x, w) by {
        let j = find_area(areas, page_floor(x) as int);
        lemma_find_area_range(areas, page_floor(x) as int);
        assert(find_area(with_byte(areas, va, b), page_floor(x) as int) == j);
        if j >= 0 {
            assert(with_byte(areas, va, b)[j].perm == areas[j].perm);
        }
    }
}

/// An area mapped where nothing was mapped is the one that unmapping the same
/// range takes away, which leaves the areas as they were.
pub proof fn lemma_insert_then_remove(areas: Seq<AreaView>, a: AreaView)
    requires
        a.start_vpn < a.end_vpn,
        !overlaps(areas, a.start_vpn as int, a.end_vpn as int),
    ensures
        find_exact(areas.push(a), a.start_vpn as int, a.end_vpn as int) == areas.len(),
        areas.push(a).remove(areas.len() as int) == areas,
{
    let pushed = areas.push(a);
    assert forall|k: int| 0 <= k < areas.len() implies !(#[trigger] pushed[k].start_vpn == a.start_vpn && pushed[k].end_vpn == a.end_vpn) by {
        assert(pushed[k] == areas[k]);
        if pushed[k].start_vpn == a.start_vpn && pushed[k].end_vpn == a.end_vpn {
            assert(areas[k].start_vpn < a.end_vpn && a.start_vpn < areas[k].end_vpn);
        }
    }
    lemma_find_exact(pushed, a.start_vpn as int, a.end_vpn as int, areas.len() as int);
    assert(pushed.remove(areas.len() as int) =~= areas);
}

/// Once an area is mapped, every range that shares a page with it overlaps.
pub proof fn lemma_mapped_range_overlaps(areas: Seq<AreaView>, a: AreaView, s: int, e: int)
    requires
        a.start_vpn < e,
        s < a.end_vpn,
    ensures
        overlaps(areas.push(a), s, e),
{
    assert(areas.push(a)[areas.len() as int] == a);
}

impl MemorySet {
    /// An address space with no areas, whose page table has the given token.
    pub fn new_bare(token: usize) -> (ms: Self)
        ensures
            ms@ == (MemoryView { token, areas: Seq::empty() }),
    {
        let ms = MemorySet { token, areas: Vec::new() };
        assert(ms@.areas =~= Seq::<AreaView>::empty());
        ms
    }

    /// The token of the page table, as written to `satp`.
    pub fn token(&self) -> (t: usize)
        ensures
            t == self@.token,
    {
        self.token
    }

    /// Index of the first area that maps page `vpn`.
    fn area_of(&self, vpn: usize) -> (r: Option<usize>)
        ensures
            match r {
                Some(i) => i == find_area(self@.areas, vpn as int) && i < self.areas.len(),
                None => find_area(self@.areas, vpn as int) == -1,
            },
    {
        let mut i: usize = 0;
        while i < self.areas.len()
            invariant
                0 <= i <= self.areas.len(),
                forall|k: int| 0 <= k < i ==> !area_holds(#[trigger] self@.areas[k], vpn as int),
            ensures
                0 <= i <= self.areas.len(),
                forall|k: int| 0 <= k < i ==> !area_holds(#[trigger] self@.areas[k], vpn as int),
                i < self.areas.len() ==> area_holds(self@.areas[i as int], vpn as int),
            decreases self.areas.len() - i,
        {
            if self.areas[i].start_vpn <= vpn && vpn < self.areas[i].end_vpn {
                break;
            }
            i += 1;
        }
        proof {
            lemma_find_area(self@.areas, vpn as int, i as int);
        }
        if i < self.areas.len() {
            Some(i)
        } else {
            None
        }
    }

    /// Some area shares a page with the range `start_va..end_va`, taken to
    /// whole pages.
    pub fn is_overlap(&self, start_va: usize, end_va: usize) -> (r: bool)
        ensures
            r == overlaps(self@.areas, page_floor(start_va) as int, page_ceil(end_va) as int),
    {
        let s = floor_vpn(start_va);
        let e = ceil_vpn(end_va);
        let mut i: usize = 0;
        while i < self.areas.len()
            invariant
                0 <= i <= self.areas.len(),
                s == page_floor(start_va),
                e == page_ceil(end_va),
                forall|k: int| 0 <= k < i ==> !(self@.areas[k].start_vpn < e && s < #[trigger] self@.areas[k].end_vpn),
            decreases self.areas.len() - i,
        {
            if self.areas[i].start_vpn < e && s < self.areas[i].end_vpn {
                assert(self@.areas[i as int].start_vpn < e && s < self@.areas[i as int].end_vpn);
                return true;
            }
            i += 1;
        }
        false
    }

    /// Maps the pages of `start_va..end_va`, zero-filled, with permission `perm`.
    pub fn insert_framed_area(&mut self, start_va: usize, end_va: usize, perm: u8)
        ensures
            final(self)@ == (MemoryView {
                areas: old(self)@.areas.push(
                    AreaView {
                        start_vpn: page_floor(start_va),
                        end_vpn: page_ceil(end_va),
                        perm,
                        data: Map::empty(),
                    },
                ),
                ..old(self)@
            }),
    {
        let area = MapArea {
            start_vpn: floor_vpn(start_va),
            end_vpn: ceil_vpn(end_va),
            perm,
            bytes: Vec::new(),
        };
        self.areas.push(area);
        assert(written(Seq::<(usize, u8)>::empty()) =~= Map::empty());
        assert(self@.areas =~= old(self)@.areas.push(
            AreaView {
                start_vpn: page_floor(start_va),
                end_vpn: page_ceil(end_va),
                perm,
                data: Map::empty(),
            },
        ));
    }

    /// Unmaps the area that is exactly the pages of `start_va..end_va`; false
    /// when there is no such area.
    pub fn remove_area(&mut self, start_va: usize, end_va: usize) -> (removed: bool)
        ensures
            removed == (find_exact(old(self)@.areas, page_floor(start_va) as int, page_ceil(end_va) as int) >= 0),
            final(self)@ == (if removed {
                MemoryView {
                    areas: old(self)@.areas.remove(
                        find_exact(old(self)@.areas, page_floor(start_va) as int, page_ceil(end_va) as int),
                    ),
                    ..old(self)@
                }
            } else {
                old(self)@
            }),
    {
        let s = floor_vpn(start_va);
        let e = ceil_vpn(end_va);
        let mut i: usize = 0;
        while i < self.areas.len()
            invariant
                0 <= i <= self.areas.len(),
                forall|k: int| 0 <= k < i ==> !(#[trigger] self@.areas[k].start_vpn == s && self@.areas[k].end_vpn == e),
            ensures
                0 <= i <= self.areas.len(),
                forall|k: int| 0 <= k < i ==> !(#[trigger] self@.areas[k].start_vpn == s && self@.areas[k].end_vpn == e),
                i < self.areas.len() ==> self@.areas[i as int].start_vpn == s && self@.areas[i as int].end_vpn == e,
            decreases self.areas.len() - i,
        {
            if self.areas[i].start_vpn == s && self.areas[i].end_vpn == e {
                break;
            }
            i += 1;
        }
        proof {
            lemma_find_exact(self@.areas, s as int, e as int, i as int);
        }
        if i < self.areas.len() {
            self.areas.remove(i);
            assert(self@.areas =~= old(self)@.areas.remove(i as int));
            true
        } else {
            false
        }
    }

    /// User code may read (or, with `write`, write) the byte at `va`.
    pub fn is_user_accessible(&self, va: usize, write: bool) -> (r: bool)
        ensures
            r == user_accessible(self@.areas, va, write),
    {
        match self.area_of(floor_vpn(va)) {
            Some(i) => {
                let perm = self.areas[i].perm;
                if perm & PERM_U == 0 {
                    false
                } else if write {
                    perm & PERM_W != 0
                } else {
                    perm & PERM_R != 0
                }
            },
            None => false,
        }
    }

    /// The byte at `va`, or `None` when no area maps it.
    pub fn get_byte_from_user_space(&self, va: usize) -> (r: Option<u8>)
        ensures
            r == byte_at(self@.areas, va),
    {
        match self.area_of(floor_vpn(va)) {
            Some(i) => Some(self.areas[i].read_byte(va)),
            None => None,
        }
    }

    /// Writes `b` at `va`; false, changing nothing, when no area maps it.
    pub fn write_byte_to_user_space(&mut self, va: usize, b: u8) -> (ok: bool)
        ensures
            ok == (find_area(old(self)@.areas, page_floor(va) as int) >= 0),
            final(self)@ == (MemoryView { areas: with_byte(old(self)@.areas, va, b), ..old(self)@ }),
    {
        match self.area_of(floor_vpn(va)) {
            Some(i) => {
                let mut area = MapArea { start_vpn: 0, end_vpn: 0, perm: 0, bytes: Vec::new() };
                self.areas.set_and_swap(i, &mut area);
                area.write_byte(va, b);
                self.areas.set_and_swap(i, &mut area);
                assert(self@.areas =~= with_byte(old(self)@.areas, va, b));
                true
            },
            None => false,
        }
    }
}

impl MapArea {
    /// The byte last written at `va`, or zero.
    fn read_byte(&self, va: usize) -> (r: u8)
        ensures
            r == (if self@.data.contains_key(va) { self@.data[va] } else { 0u8 }),
    {
        let mut k: usize = self.bytes.len();
        while k > 0
            invariant
                0 <= k <= self.bytes.len(),
                forall|q: int| k <= q < self.bytes.len() ==> (#[trigger] self.bytes@[q]).0 != va,
            decreases k,
        {
            if self.bytes[k - 1].0 == va {
                proof {
                    lemma_written_last(self.bytes@, va, k - 1);
                }
                return self.bytes[k - 1].1;
            }
            k -= 1;
        }
        proof {
            lemma_written_last(self.bytes@, va, -1);
        }
        0
    }

    /// Records `b` as the byte at `va`.
    fn write_byte(&mut self, va: usize, b: u8)
        ensures
            final(self)@ == (AreaView { data: old(self)@.data.insert(va, b), ..old(self)@ }),
    {
        let mut k: usize = self.bytes.len();
        while k > 0
            invariant
                0 <= k <= self.bytes.len(),
                forall|q: int| k <= q < self.bytes.len() ==> (#[trigger] self.bytes@[q]).0 != va,
            ensures
                0 <= k <= self.bytes.len(),
                forall|q: int| k <= q < self.bytes.len() ==> (#[trigger] self.bytes@[q]).0 != va,
                k > 0 ==> self.bytes@[k - 1].0 == va,
            decreases k,
        {
            if self.bytes[k - 1].0 == va {
                break;
            }
            k -= 1;
        }
        if k > 0 {
            proof {
                lemma_written_update(self.bytes@, va, b, k - 1);
            }
            self.bytes.set(k - 1, (va, b));
        } else {
            self.bytes.push((va, b));
            assert(self.bytes@.drop_last() =~= old(self).bytes@);
        }
        assert(self@ =~= AreaView { data: old(self)@.data.insert(va, b), ..old(self)@ });
    }
}

} // verus!

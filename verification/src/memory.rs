//! Guest memory regions known to a partition, and which of them are mapped.
use vstd::prelude::*;

verus! {

/// A guest memory region as QEMU hands it over.
#[derive(Debug, Eq, PartialEq, Copy, Clone, Structural)]
pub struct MshvMemoryRegion {
    pub slot: u32,
    pub guest_phys_addr: u64,
    pub memory_size: u64,
    pub userspace_addr: u64,
    pub readonly: bool,
    pub log_dirty_pages: bool,
}

/// A region and whether it is currently mapped into the partition.
#[derive(Debug, Eq, PartialEq, Structural)]
pub struct MemEntry {
    pub mr: MshvMemoryRegion,
    pub mapped: bool,
}

/// The regions of one partition, in the order in which they were registered.
pub struct MemManager {
    pub db: Vec<MemEntry>,
}

/// The guest physical address `addr` lies inside region `r`.
pub open spec fn region_holds_gpa(r: MshvMemoryRegion, addr: u64) -> bool {
    r.guest_phys_addr <= addr && addr - r.guest_phys_addr < r.memory_size
}

/// `i` is the first entry of `db` whose region holds `addr`.
pub open spec fn is_first_gpa_match(db: Seq<MemEntry>, addr: u64, i: int) -> bool {
    &&& 0 <= i < db.len()
    &&& region_holds_gpa(db[i].mr, addr)
    &&& forall|j: int| 0 <= j < i ==> !region_holds_gpa(#[trigger] db[j].mr, addr)
}

/// No entry of `db` holds `addr`.
pub open spec fn no_gpa_match(db: Seq<MemEntry>, addr: u64) -> bool {
    forall|j: int| 0 <= j < db.len() ==> !region_holds_gpa(#[trigger] db[j].mr, addr)
}

/// The host (userspace) ranges behind regions `a` and `b` share at least one byte.
pub open spec fn userspace_overlap(a: MshvMemoryRegion, b: MshvMemoryRegion) -> bool {
    &&& a.userspace_addr < b.userspace_addr + b.memory_size
    &&& b.userspace_addr < a.userspace_addr + a.memory_size
}

/// Host byte `x` lies in the host (userspace) range behind region `r`.
pub open spec fn host_holds(r: MshvMemoryRegion, x: int) -> bool {
    r.userspace_addr <= x < r.userspace_addr + r.memory_size
}

/// Regions `a` and `b` are backed by at least one common host byte.
pub open spec fn shares_host_byte(a: MshvMemoryRegion, b: MshvMemoryRegion) -> bool {
    exists|x: int| host_holds(a, x) && #[trigger] host_holds(b, x)
}

/// Two regions that share a host byte overlap; two non-empty regions overlap only
/// when they share a host byte; and overlap is symmetric.
pub proof fn lemma_userspace_overlap_is_shared_byte(a: MshvMemoryRegion, b: MshvMemoryRegion)
    ensures
        shares_host_byte(a, b) ==> userspace_overlap(a, b),
        a.memory_size > 0 && b.memory_size > 0 ==> (userspace_overlap(a, b) <==> shares_host_byte(
            a,
            b,
        )),
        userspace_overlap(a, b) <==> userspace_overlap(b, a),
{
    if shares_host_byte(a, b) {
        let x = choose|x: int| host_holds(a, x) && #[trigger] host_holds(b, x);
        assert(host_holds(a, x) && host_holds(b, x));
    }
    if userspace_overlap(a, b) && a.memory_size > 0 && b.memory_size > 0 {
        let x: int = if a.userspace_addr <= b.userspace_addr {
            b.userspace_addr as int
        } else {
            a.userspace_addr as int
        };
        assert(host_holds(a, x) && host_holds(b, x));
    }
}

/// A region holds a guest physical address exactly when the address lies in
/// `[guest_phys_addr, guest_phys_addr + memory_size)`.
pub proof fn lemma_region_holds_gpa_range(r: MshvMemoryRegion, addr: u64)
    ensures
        region_holds_gpa(r, addr) <==> r.guest_phys_addr <= addr && (addr as int) < r.guest_phys_addr
            + r.memory_size,
{
}

/// Some other mapped entry shares host memory with entry `i` of `db`.
pub open spec fn has_mapped_host_sharer(db: Seq<MemEntry>, i: int) -> bool {
    exists|j: int|
        0 <= j < db.len() && j != i && #[trigger] db[j].mapped && shares_host_byte(db[j].mr, db[i].mr)
}

/// Entry `j` is another mapped entry whose host range overlaps that of entry `index`.
pub open spec fn overlap_candidate(db: Seq<MemEntry>, index: int, j: int) -> bool {
    &&& j != index
    &&& db[j].mapped
    &&& userspace_overlap(db[j].mr, db[index].mr)
}

/// `j` is the first overlap candidate of entry `index`.
pub open spec fn is_first_overlap(db: Seq<MemEntry>, index: int, j: int) -> bool {
    &&& 0 <= j < db.len()
    &&& overlap_candidate(db, index, j)
    &&& forall|k: int| 0 <= k < j ==> !#[trigger] overlap_candidate(db, index, k)
}

/// `i` is the first entry of `db` that records region `r`.
pub open spec fn is_first_region_index(db: Seq<MemEntry>, r: MshvMemoryRegion, i: int) -> bool {
    &&& 0 <= i < db.len()
    &&& db[i].mr == r
    &&& forall|j: int| 0 <= j < i ==> (#[trigger] db[j].mr) != r
}

/// Some entry of `db` records region `r`.
pub open spec fn holds_region(db: Seq<MemEntry>, r: MshvMemoryRegion) -> bool {
    exists|i: int| 0 <= i < db.len() && (#[trigger] db[i].mr) == r
}

/// Index of the first entry that records `r` (meaningful when `holds_region(db, r)`).
pub open spec fn first_region_index(db: Seq<MemEntry>, r: MshvMemoryRegion) -> int {
    choose|i: int| is_first_region_index(db, r, i)
}

/// `db` with the first entry that records `r` taken out, if there is one.
pub open spec fn db_without_region(db: Seq<MemEntry>, r: MshvMemoryRegion) -> Seq<MemEntry> {
    if holds_region(db, r) {
        db.remove(first_region_index(db, r))
    } else {
        db
    }
}

/// No region is recorded twice.
pub open spec fn regions_distinct(db: Seq<MemEntry>) -> bool {
    forall|i: int, j: int| 0 <= i < j < db.len() ==> (#[trigger] db[i].mr) != (#[trigger] db[j].mr)
}

/// The first index recording a region is unique.
proof fn lemma_first_region_index_unique(db: Seq<MemEntry>, r: MshvMemoryRegion, i: int)
    requires
        is_first_region_index(db, r, i),
    ensures
        holds_region(db, r),
        first_region_index(db, r) == i,
{
    assert(db[i].mr == r);
    let k = first_region_index(db, r);
    assert(is_first_region_index(db, r, k));
    if k < i {
        assert(db[k].mr != r);
    } else if i < k {
        assert(db[i].mr != r);
    }
}

/// A region that is recorded has a first index.
proof fn lemma_first_region_index_exists(db: Seq<MemEntry>, r: MshvMemoryRegion)
    requires
        holds_region(db, r),
    ensures
        is_first_region_index(db, r, first_region_index(db, r)),
    decreases db.len(),
{
    let i = choose|i: int| 0 <= i < db.len() && (#[trigger] db[i].mr) == r;
    if db[0].mr == r {
        assert(is_first_region_index(db, r, 0));
    } else {
        let rest = db.drop_first();
        assert(rest[i - 1].mr == r);
        lemma_first_region_index_exists(rest, r);
        let k = first_region_index(rest, r);
        assert forall|j: int| 0 <= j < k + 1 implies (#[trigger] db[j].mr) != r by {
            if j > 0 {
                assert(db[j] == rest[j - 1]);
            }
        }
        assert(is_first_region_index(db, r, k + 1));
    }
}

/// Taking out the entry of `r` and appending a fresh one keeps regions distinct.
proof fn lemma_replace_keeps_distinct(db: Seq<MemEntry>, r: MshvMemoryRegion, e: MemEntry)
    requires
        regions_distinct(db),
        e.mr == r,
    ensures
        regions_distinct(db_without_region(db, r)),
        !holds_region(db_without_region(db, r), r),
        regions_distinct(db_without_region(db, r).push(e)),
{
    let rest = db_without_region(db, r);
    if holds_region(db, r) {
        lemma_first_region_index_exists(db, r);
        let k = first_region_index(db, r);
        assert forall|i: int, j: int| 0 <= i < j < rest.len() implies (#[trigger] rest[i].mr)
            != (#[trigger] rest[j].mr) by {
            let a = if i < k { i } else { i + 1 };
            let b = if j < k { j } else { j + 1 };
            assert(rest[i] == db[a]);
            assert(rest[j] == db[b]);
            assert(db[a].mr != db[b].mr);
        }
        if holds_region(rest, r) {
            let i = choose|i: int| 0 <= i < rest.len() && (#[trigger] rest[i].mr) == r;
            let a = if i < k { i } else { i + 1 };
            assert(rest[i] == db[a]);
            assert(db[a].mr != db[k].mr);
        }
    }
    let pushed = rest.push(e);
    assert forall|i: int, j: int| 0 <= i < j < pushed.len() implies (#[trigger] pushed[i].mr)
        != (#[trigger] pushed[j].mr) by {
        assert(pushed[i] == rest[i]);
        if j < rest.len() {
            assert(pushed[j] == rest[j]);
        } else {
            assert(rest[i].mr != r);
        }
    }
}

/// The entries of `db` that record a region other than `r`, in their order.
pub open spec fn other_regions(db: Seq<MemEntry>, r: MshvMemoryRegion) -> Seq<MemEntry> {
    db.filter(|e: MemEntry| e.mr != r)
}

proof fn lemma_other_regions_without_r(db: Seq<MemEntry>, r: MshvMemoryRegion)
    requires
        !holds_region(db, r),
    ensures
        other_regions(db, r) == db,
    decreases db.len(),
{
    reveal(Seq::filter);
    if db.len() > 0 {
        let p = db.drop_last();
        assert(!holds_region(p, r)) by {
            if holds_region(p, r) {
                let i = choose|i: int| 0 <= i < p.len() && (#[trigger] p[i].mr) == r;
                assert(db[i] == p[i]);
            }
        }
        lemma_other_regions_without_r(p, r);
        assert(db[db.len() - 1].mr != r);
        assert(p.push(db.last()) =~= db);
    }
}

/// In a database where no region is recorded twice, withdrawing `r` keeps exactly the
/// entries of the other regions, in their order.
pub proof fn lemma_without_region_keeps_others(db: Seq<MemEntry>, r: MshvMemoryRegion)
    requires
        regions_distinct(db),
    ensures
        db_without_region(db, r) == other_regions(db, r),
    decreases db.len(),
{
    reveal(Seq::filter);
    if db.len() == 0 {
        return;
    }
    let n = db.len() - 1;
    let p = db.drop_last();
    let last = db[n];
    assert(regions_distinct(p)) by {
        assert forall|i: int, j: int| 0 <= i < j < p.len() implies (#[trigger] p[i].mr) != (
        #[trigger] p[j].mr) by {
            assert(db[i] == p[i] && db[j] == p[j]);
        }
    }
    assert(p.push(last) =~= db);
    if last.mr == r {
        assert(!holds_region(p, r)) by {
            if holds_region(p, r) {
                let i = choose|i: int| 0 <= i < p.len() && (#[trigger] p[i].mr) == r;
                assert(db[i] == p[i]);
                assert(db[i].mr != db[n].mr);
            }
        }
        lemma_other_regions_without_r(p, r);
        assert forall|j: int| 0 <= j < n implies (#[trigger] db[j].mr) != r by {
            assert(db[j] == p[j]);
            if db[j].mr == r {
                assert(holds_region(p, r));
            }
        }
        assert(is_first_region_index(db, r, n));
        lemma_first_region_index_unique(db, r, n);
        assert(db.remove(n) =~= p);
        assert(other_regions(db, r) == other_regions(p, r));
    } else {
        lemma_without_region_keeps_others(p, r);
        assert(other_regions(db, r) == other_regions(p, r).push(last));
        if holds_region(p, r) {
            lemma_first_region_index_exists(p, r);
            let k = first_region_index(p, r);
            assert forall|j: int| 0 <= j < k implies (#[trigger] db[j].mr) != r by {
                assert(db[j] == p[j]);
            }
            assert(is_first_region_index(db, r, k));
            lemma_first_region_index_unique(db, r, k);
            assert(db.remove(k) =~= p.remove(k).push(last));
        } else {
            assert(!holds_region(db, r)) by {
                if holds_region(db, r) {
                    let i = choose|i: int| 0 <= i < db.len() && (#[trigger] db[i].mr) == r;
                    if i < n {
                        assert(p[i] == db[i]);
                    }
                }
            }
        }
    }
}

/// Registering a region and then withdrawing it leaves every other region recorded
/// as before, in the same order.
pub proof fn lemma_add_then_remove(db: Seq<MemEntry>, r: MshvMemoryRegion, e: MemEntry)
    requires
        regions_distinct(db),
        e.mr == r,
    ensures
        holds_region(db_without_region(db, r).push(e), r),
        db_without_region(db_without_region(db, r).push(e), r) == db_without_region(db, r),
{
    lemma_last_entry_is_first_record(db, r, e);
    let rest = db_without_region(db, r);
    assert(rest.push(e).remove(rest.len() as int) =~= rest);
}

/// Registering a region that is already recorded replaces its record: one record
/// remains, the latest, at the end.
pub proof fn lemma_add_twice(db: Seq<MemEntry>, r: MshvMemoryRegion, e1: MemEntry, e2: MemEntry)
    requires
        regions_distinct(db),
        e1.mr == r,
        e2.mr == r,
    ensures
        db_without_region(db_without_region(db, r).push(e1), r).push(e2) == db_without_region(
            db,
            r,
        ).push(e2),
{
    lemma_add_then_remove(db, r, e1);
}

/// After registering `r` on a database without repeats, its record is the last entry.
proof fn lemma_last_entry_is_first_record(db: Seq<MemEntry>, r: MshvMemoryRegion, e: MemEntry)
    requires
        regions_distinct(db),
        e.mr == r,
    ensures
        first_region_index(db_without_region(db, r).push(e), r) == db_without_region(db, r).len(),
        holds_region(db_without_region(db, r).push(e), r),
{
    lemma_replace_keeps_distinct(db, r, e);
    let rest = db_without_region(db, r);
    let pushed = rest.push(e);
    assert forall|j: int| 0 <= j < rest.len() implies (#[trigger] pushed[j].mr) != r by {
        assert(pushed[j] == rest[j]);
        if rest[j].mr == r {
            assert(holds_region(rest, r));
        }
    }
    assert(is_first_region_index(pushed, r, rest.len() as int));
    lemma_first_region_index_unique(pushed, r, rest.len() as int);
}

/// A call to make to the hypervisor about one region.
#[derive(Debug, Clone, Copy, PartialEq, Eq, Structural)]
pub enum MemCall {
    MapRegion(MshvMemoryRegion),
    UnmapRegion(MshvMemoryRegion),
}

/// Entry `index` is to become mapped (`mapped`) or unmapped.
#[derive(Debug, Clone, Copy, PartialEq, Eq, Structural)]
pub struct MappingChange {
    pub index: usize,
    pub mapped: bool,
}

/// `db` after a change of entry `c.index`'s mapping.
pub open spec fn apply_mapping_change(db: Seq<MemEntry>, c: MappingChange) -> Seq<MemEntry> {
    db.update(c.index as int, MemEntry { mr: db[c.index as int].mr, mapped: c.mapped })
}

/// The changes that swap entry `i` in for entry `o`: unmap `o` first, then map `i`.
pub open spec fn overlap_swap(i: int, o: int) -> Seq<MappingChange> {
    seq![MappingChange { index: o as usize, mapped: false }, MappingChange { index: i as usize, mapped: true }]
}

/// Carrying out the swap of an overlapping region in order leaves the region holding
/// the address mapped and the one it overlapped unmapped, every other entry as it was,
/// and no region recorded twice.
pub proof fn lemma_overlap_swap(db: Seq<MemEntry>, gpa: u64, i: int, o: int)
    requires
        db.len() <= usize::MAX,
        is_first_gpa_match(db, gpa, i),
        is_first_overlap(db, i, o),
    ensures
        ({
            let after = apply_mapping_change(
                apply_mapping_change(db, overlap_swap(i, o)[0]),
                overlap_swap(i, o)[1],
            );
            &&& after.len() == db.len()
            &&& after[i] == MemEntry { mr: db[i].mr, mapped: true }
            &&& after[o] == MemEntry { mr: db[o].mr, mapped: false }
            &&& forall|k: int| 0 <= k < db.len() && k != i && k != o ==> after[k] == db[k]
            &&& forall|k: int| 0 <= k < db.len() ==> (#[trigger] after[k]).mr == db[k].mr
            &&& regions_distinct(db) ==> regions_distinct(after)
        }),
{
    let after = apply_mapping_change(
        apply_mapping_change(db, overlap_swap(i, o)[0]),
        overlap_swap(i, o)[1],
    );
    assert(overlap_swap(i, o)[0] == MappingChange { index: o as usize, mapped: false });
    assert(overlap_swap(i, o)[1] == MappingChange { index: i as usize, mapped: true });
    assert forall|a: int, b: int| 0 <= a < b < after.len() && regions_distinct(db) implies (
    #[trigger] after[a].mr) != (#[trigger] after[b].mr) by {
        assert(after[a].mr == db[a].mr);
        assert(after[b].mr == db[b].mr);
    }
}

impl MemManager {
    /// Regions are recorded at most once each.
    pub open spec fn wf(&self) -> bool {
        regions_distinct(self.db@)
    }

    pub fn new() -> (m: Self)
        ensures
            m.db@ == Seq::<MemEntry>::empty(),
            m.wf(),
    {
        MemManager { db: Vec::new() }
    }

    /// Index of the first region that holds the guest physical address `addr`.
    pub fn find_by_gpa(&self, addr: u64) -> (ret: Option<usize>)
        ensures
            match ret {
                Some(i) => is_first_gpa_match(self.db@, addr, i as int),
                None => no_gpa_match(self.db@, addr),
            },
    {
        let mut i: usize = 0;
        while i < self.db.len()
            invariant
                i <= self.db@.len(),
                forall|j: int| 0 <= j < i ==> !region_holds_gpa(#[trigger] self.db@[j].mr, addr),
            decreases self.db@.len() - i,
        {
            let mr = &self.db[i].mr;
            if mr.guest_phys_addr <= addr && addr - mr.guest_phys_addr < mr.memory_size {
                return Some(i);
            }
            i = i + 1;
        }
        None
    }

    /// Index of the first entry that records exactly region `r`.
    fn position_of_region(&self, r: &MshvMemoryRegion) -> (ret: Option<usize>)
        ensures
            match ret {
                Some(i) => is_first_region_index(self.db@, *r, i as int),
                None => !holds_region(self.db@, *r),
            },
    {
        let mut i: usize = 0;
        while i < self.db.len()
            invariant
                i <= self.db@.len(),
                forall|j: int| 0 <= j < i ==> (#[trigger] self.db@[j].mr) != *r,
            decreases self.db@.len() - i,
        {
            if self.db[i].mr == *r {
                return Some(i);
            }
            i = i + 1;
        }
        None
    }

    /// Index of the first other mapped entry whose host range overlaps that of entry `index`.
    fn find_overlap(&self, index: usize) -> (ret: Option<usize>)
        requires
            index < self.db@.len(),
        ensures
            match ret {
                Some(j) => is_first_overlap(self.db@, index as int, j as int),
                None => forall|k: int|
                    0 <= k < self.db@.len() ==> !#[trigger] overlap_candidate(self.db@, index as int, k),
            },
    {
        let mr = &self.db[index].mr;
        let mut j: usize = 0;
        while j < self.db.len()
            invariant
                j <= self.db@.len(),
                index < self.db@.len(),
                *mr == self.db@[index as int].mr,
                forall|k: int| 0 <= k < j ==> !#[trigger] overlap_candidate(self.db@, index as int, k),
            decreases self.db@.len() - j,
        {
            let entry = &self.db[j];
            let starts_before_end = entry.mr.userspace_addr < mr.userspace_addr || entry.mr.userspace_addr
                - mr.userspace_addr < mr.memory_size;
            let ends_after_start = mr.userspace_addr < entry.mr.userspace_addr || mr.userspace_addr
                - entry.mr.userspace_addr < entry.mr.memory_size;
            if starts_before_end && ends_after_start && entry.mapped && j != index {
                return Some(j);
            }
            j = j + 1;
        }
        None
    }

    /// Records that entry `change.index` is now mapped (`change.mapped`) or unmapped.
    pub fn set_mapped(&mut self, change: MappingChange)
        requires
            change.index < old(self).db@.len(),
        ensures
            final(self).db@ == apply_mapping_change(old(self).db@, change),
            old(self).wf() ==> final(self).wf(),
    {
        let mr = self.db[change.index].mr;
        self.db.set(change.index, MemEntry { mr, mapped: change.mapped });
        proof {
            let db0 = old(self).db@;
            assert forall|a: int, b: int| 0 <= a < b < self.db@.len() && regions_distinct(db0)
                implies (#[trigger] self.db@[a].mr) != (#[trigger] self.db@[b].mr) by {
                assert(self.db@[a].mr == db0[a].mr);
                assert(self.db@[b].mr == db0[b].mr);
            }
        }
    }

    /// Where the region holding `gpa` shares host memory with another mapped region,
    /// the changes that swap it in, in the order in which they must be made: first
    /// unmap that other region, then map the one holding `gpa` (the hypervisor does
    /// not map the same host memory twice). `None` when there is nothing to swap.
    ///
    /// Each change is made by asking the hypervisor and, once it agreed, recording it
    /// with `set_mapped`.
    pub fn map_overlapped_region(&self, gpa: u64) -> (ret: Option<Vec<MappingChange>>)
        ensures
            (exists|i: int|
                #![trigger is_first_gpa_match(self.db@, gpa, i)]
                is_first_gpa_match(self.db@, gpa, i) && has_mapped_host_sharer(self.db@, i))
                ==> ret is Some,
            (ret is Some && forall|k: int|
                0 <= k < self.db@.len() ==> (#[trigger] self.db@[k]).mr.memory_size > 0) ==> exists|
                i: int,
            |
                #![trigger is_first_gpa_match(self.db@, gpa, i)]
                is_first_gpa_match(self.db@, gpa, i) && has_mapped_host_sharer(self.db@, i),
            match ret {
                Some(v) => exists|i: int, o: int|
                    #![trigger is_first_gpa_match(self.db@, gpa, i), is_first_overlap(self.db@, i, o)]
                    {
                        &&& is_first_gpa_match(self.db@, gpa, i)
                        &&& is_first_overlap(self.db@, i, o)
                        &&& v@ == overlap_swap(i, o)
                    },
                None => forall|i: int|
                    #![trigger is_first_gpa_match(self.db@, gpa, i)]
                    is_first_gpa_match(self.db@, gpa, i) ==> forall|k: int|
                        0 <= k < self.db@.len() ==> !#[trigger] overlap_candidate(self.db@, i, k),
            },
    {
        let ghost db0 = self.db@;
        if let Some(index) = self.find_by_gpa(gpa) {
            if let Some(overlap_idx) = self.find_overlap(index) {
                let mut v: Vec<MappingChange> = Vec::new();
                v.push(MappingChange { index: overlap_idx, mapped: false });
                v.push(MappingChange { index, mapped: true });
                proof {
                    assert(is_first_gpa_match(db0, gpa, index as int));
                    assert(is_first_overlap(db0, index as int, overlap_idx as int));
                    lemma_userspace_overlap_is_shared_byte(
                        db0[overlap_idx as int].mr,
                        db0[index as int].mr,
                    );
                    if forall|k: int| 0 <= k < db0.len() ==> (#[trigger] db0[k]).mr.memory_size > 0 {
                        assert(db0[overlap_idx as int].mr.memory_size > 0);
                        assert(db0[index as int].mr.memory_size > 0);
                        assert(has_mapped_host_sharer(db0, index as int));
                    }
                    assert(v@ =~= overlap_swap(index as int, overlap_idx as int));
                }
                return Some(v);
            }
            proof {
                assert forall|j: int|
                    0 <= j < db0.len() && j != index as int && #[trigger] db0[j].mapped implies !shares_host_byte(
                    db0[j].mr,
                    db0[index as int].mr,
                ) by {
                    assert(!overlap_candidate(db0, index as int, j));
                    lemma_userspace_overlap_is_shared_byte(db0[j].mr, db0[index as int].mr);
                }
                assert forall|i: int| #[trigger] is_first_gpa_match(db0, gpa, i) implies i
                    == index as int by {
                    if i < index {
                        assert(!region_holds_gpa(db0[i].mr, gpa));
                    } else if i > index {
                        assert(!region_holds_gpa(db0[index as int].mr, gpa));
                    }
                }
            }
        }
        None
    }

    /// Registers region `r` (`add`) or withdraws it (`!add`): drops the earlier record
    /// of `r` and returns the call to make to the hypervisor, if any. Registering
    /// always maps; withdrawing unmaps only a region that is mapped. The outcome of the
    /// call is then recorded with `record_mem_call`.
    pub fn add_del_mem(&mut self, r: MshvMemoryRegion, add: bool) -> (call: Option<MemCall>)
        requires
            !add ==> holds_region(old(self).db@, r),
        ensures
            final(self).db@ == db_without_region(old(self).db@, r),
            old(self).wf() ==> final(self).wf() && !holds_region(final(self).db@, r),
            old(self).wf() ==> final(self).db@ == other_regions(old(self).db@, r),
            call == if add {
                Some(MemCall::MapRegion(r))
            } else if old(self).db@[first_region_index(old(self).db@, r)].mapped {
                Some(MemCall::UnmapRegion(r))
            } else {
                None
            },
    {
        let ghost db0 = self.db@;
        let found = self.position_of_region(&r);
        let mut call = None;
        if let Some(index) = found {
            proof {
                lemma_first_region_index_unique(db0, r, index as int);
            }
            if !add && self.db[index].mapped {
                call = Some(MemCall::UnmapRegion(r));
            }
            self.db.remove(index);
        }
        if add {
            call = Some(MemCall::MapRegion(r));
        }
        proof {
            if regions_distinct(db0) {
                lemma_replace_keeps_distinct(db0, r, MemEntry { mr: r, mapped: true });
                lemma_without_region_keeps_others(db0, r);
            }
        }
        call
    }

    /// Records the outcome of a call that `add_del_mem` asked for: a region that was
    /// to be mapped is recorded at the end, mapped if the hypervisor agreed; an unmap
    /// leaves nothing to record.
    pub fn record_mem_call(&mut self, call: MemCall, succeeded: bool)
        ensures
            final(self).db@ == match call {
                MemCall::MapRegion(r) => old(self).db@.push(MemEntry { mr: r, mapped: succeeded }),
                MemCall::UnmapRegion(_) => old(self).db@,
            },
            (old(self).wf() && (call matches MemCall::MapRegion(r) && !holds_region(old(self).db@, r)))
                ==> final(self).wf(),
    {
        if let MemCall::MapRegion(r) = call {
            self.db.push(MemEntry { mr: r, mapped: succeeded });
            proof {
                let db0 = old(self).db@;
                let pushed = self.db@;
                if regions_distinct(db0) && !holds_region(db0, r) {
                    assert forall|i: int, j: int| 0 <= i < j < pushed.len() implies (
                    #[trigger] pushed[i].mr) != (#[trigger] pushed[j].mr) by {
                        assert(pushed[i] == db0[i]);
                        if j < db0.len() {
                            assert(pushed[j] == db0[j]);
                        } else {
                            assert(db0[i].mr != r);
                        }
                    }
                }
            }
        }
    }
}

} // verus!

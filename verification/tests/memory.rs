use qemu_mshv::memory::{MappingChange, MemCall, MemEntry, MemManager, MshvMemoryRegion};

fn region(slot: u32, gpa: u64, size: u64, uaddr: u64) -> MshvMemoryRegion {
    MshvMemoryRegion {
        slot,
        guest_phys_addr: gpa,
        memory_size: size,
        userspace_addr: uaddr,
        readonly: false,
        log_dirty_pages: false,
    }
}

#[test]
fn new_manager_is_empty() {
    let m = MemManager::new();
    assert!(m.db.is_empty());
    assert_eq!(m.find_by_gpa(0), None);
}

#[test]
fn find_by_gpa_bounds() {
    let mut m = MemManager::new();
    m.db.push(MemEntry { mr: region(0, 0x1000, 0x1000, 0x10_0000), mapped: true });
    m.db.push(MemEntry { mr: region(1, 0x4000, 0x2000, 0x20_0000), mapped: true });
    assert_eq!(m.find_by_gpa(0xfff), None);
    assert_eq!(m.find_by_gpa(0x1000), Some(0));
    assert_eq!(m.find_by_gpa(0x1fff), Some(0));
    assert_eq!(m.find_by_gpa(0x2000), None);
    assert_eq!(m.find_by_gpa(0x5fff), Some(1));
    assert_eq!(m.find_by_gpa(0x6000), None);
    assert_eq!(m.find_by_gpa(u64::MAX), None);
}

#[test]
fn find_by_gpa_returns_first_match() {
    let mut m = MemManager::new();
    m.db.push(MemEntry { mr: region(0, 0x0, 0x10000, 0x10_0000), mapped: false });
    m.db.push(MemEntry { mr: region(1, 0x1000, 0x1000, 0x20_0000), mapped: true });
    assert_eq!(m.find_by_gpa(0x1800), Some(0));
}

#[test]
fn find_by_gpa_zero_sized_region_holds_nothing() {
    let mut m = MemManager::new();
    m.db.push(MemEntry { mr: region(0, 0x1000, 0, 0x10_0000), mapped: true });
    assert_eq!(m.find_by_gpa(0x1000), None);
}

/// Registers or withdraws `r` the way the accelerator does: the call that the manager
/// asks for is answered by `answer`, and its outcome recorded.
fn register(m: &mut MemManager, r: MshvMemoryRegion, add: bool, answer: Result<(), i32>) -> (Option<MemCall>, Result<(), i32>) {
    let call = m.add_del_mem(r, add);
    let ret = match call {
        Some(c) => {
            m.record_mem_call(c, answer.is_ok());
            answer
        }
        None => Ok(()),
    };
    (call, ret)
}

#[test]
fn add_asks_to_map_and_records() {
    let mut m = MemManager::new();
    let r = region(0, 0x1000, 0x1000, 0x10_0000);
    assert_eq!(m.add_del_mem(r, true), Some(MemCall::MapRegion(r)));
    assert!(m.db.is_empty());
    m.record_mem_call(MemCall::MapRegion(r), true);
    assert_eq!(m.db, vec![MemEntry { mr: r, mapped: true }]);
}

#[test]
fn add_failure_records_unmapped_and_passes_error() {
    let mut m = MemManager::new();
    let r = region(0, 0x1000, 0x1000, 0x10_0000);
    let (_, ret) = register(&mut m, r, true, Err(22));
    assert_eq!(ret, Err(22));
    assert_eq!(m.db, vec![MemEntry { mr: r, mapped: false }]);
}

#[test]
fn add_twice_keeps_one_record_at_end() {
    let mut m = MemManager::new();
    let a = region(0, 0x1000, 0x1000, 0x10_0000);
    let b = region(1, 0x4000, 0x1000, 0x20_0000);
    register(&mut m, a, true, Err(1));
    register(&mut m, b, true, Ok(()));
    register(&mut m, a, true, Ok(()));
    assert_eq!(
        m.db,
        vec![MemEntry { mr: b, mapped: true }, MemEntry { mr: a, mapped: true }]
    );
}

#[test]
fn remove_mapped_unmaps() {
    let mut m = MemManager::new();
    let a = region(0, 0x1000, 0x1000, 0x10_0000);
    let b = region(1, 0x4000, 0x1000, 0x20_0000);
    register(&mut m, a, true, Ok(()));
    register(&mut m, b, true, Ok(()));
    let (call, ret) = register(&mut m, a, false, Err(5));
    assert_eq!(call, Some(MemCall::UnmapRegion(a)));
    assert_eq!(ret, Err(5));
    assert_eq!(m.db, vec![MemEntry { mr: b, mapped: true }]);
}

#[test]
fn remove_unmapped_asks_for_no_call() {
    let mut m = MemManager::new();
    let a = region(0, 0x1000, 0x1000, 0x10_0000);
    register(&mut m, a, true, Err(1));
    assert_eq!(m.add_del_mem(a, false), None);
    assert!(m.db.is_empty());
}

#[test]
fn add_then_remove_restores_others() {
    let mut m = MemManager::new();
    let a = region(0, 0x1000, 0x1000, 0x10_0000);
    let b = region(1, 0x4000, 0x1000, 0x20_0000);
    let c = region(2, 0x8000, 0x1000, 0x30_0000);
    register(&mut m, a, true, Ok(()));
    register(&mut m, b, true, Ok(()));
    let before = vec![MemEntry { mr: a, mapped: true }, MemEntry { mr: b, mapped: true }];
    register(&mut m, c, true, Ok(()));
    register(&mut m, c, false, Ok(()));
    assert_eq!(m.db, before);
}

#[test]
fn overlapped_region_unmaps_first_then_maps() {
    let mut m = MemManager::new();
    // Two guest ranges backed by the same host memory; only the first is mapped.
    let low = region(0, 0x0, 0x2000, 0x10_0000);
    let high = region(1, 0x10_0000, 0x1000, 0x10_1000);
    m.db.push(MemEntry { mr: low, mapped: true });
    m.db.push(MemEntry { mr: high, mapped: false });
    let plan = m.map_overlapped_region(0x10_0800).unwrap();
    assert_eq!(
        plan,
        vec![MappingChange { index: 0, mapped: false }, MappingChange { index: 1, mapped: true }]
    );
    for c in plan {
        m.set_mapped(c);
    }
    assert_eq!(
        m.db,
        vec![MemEntry { mr: low, mapped: false }, MemEntry { mr: high, mapped: true }]
    );
}

#[test]
fn overlapped_region_ignores_unmapped_and_disjoint() {
    let mut m = MemManager::new();
    let a = region(0, 0x0, 0x1000, 0x10_0000);
    let b = region(1, 0x10_0000, 0x1000, 0x10_0000);
    let c = region(2, 0x20_0000, 0x1000, 0x10_1000);
    m.db.push(MemEntry { mr: a, mapped: false });
    m.db.push(MemEntry { mr: b, mapped: false });
    m.db.push(MemEntry { mr: c, mapped: true });
    // `a` shares memory with `b`, but `b` is not mapped; `c` is mapped but disjoint.
    assert_eq!(m.map_overlapped_region(0x10), None);
}

#[test]
fn overlapped_region_without_holder() {
    let mut m = MemManager::new();
    m.db.push(MemEntry { mr: region(0, 0x0, 0x1000, 0x10_0000), mapped: true });
    assert_eq!(m.map_overlapped_region(0x5000), None);
}

#[test]
fn overlap_at_top_of_address_space() {
    let mut m = MemManager::new();
    let a = region(0, 0x0, 0x1000, u64::MAX - 0xfff);
    let b = region(1, 0x10_0000, 0x1000, u64::MAX - 0x7ff);
    m.db.push(MemEntry { mr: a, mapped: true });
    m.db.push(MemEntry { mr: b, mapped: false });
    let plan = m.map_overlapped_region(0x10_0000).unwrap();
    assert_eq!(plan[0], MappingChange { index: 0, mapped: false });
    assert_eq!(plan[1], MappingChange { index: 1, mapped: true });
}

use qemu_mshv::cpu::{
    configure_and_check_msr, get_supported_msr, init_cpudb, mmio_instruction_bytes,
    mshv_handle_unmapped_mem, run_exit_action, HvMessageKind, MshvCpuVendor, MshvVmExit, MsrEntry,
    RunExitAction, UnmappedGpaAction,
};
use qemu_mshv::fd_table::FdTable;
use qemu_mshv::memory::{MappingChange, MemEntry, MemManager, MshvMemoryRegion};
use qemu_mshv::vm::{
    init_vmdb, interrupt_request, ioevent_address, ioevent_datamatch, DataMatch, InterruptRequest,
    IoEventAddress,
};

fn region(gpa: u64, size: u64, uaddr: u64) -> MshvMemoryRegion {
    MshvMemoryRegion {
        slot: 0,
        guest_phys_addr: gpa,
        memory_size: size,
        userspace_addr: uaddr,
        readonly: false,
        log_dirty_pages: false,
    }
}

#[test]
fn vendor_defaults_to_unknown() {
    assert_eq!(MshvCpuVendor::default(), MshvCpuVendor::Unknown);
}

#[test]
fn run_exit_actions() {
    assert_eq!(run_exit_action(None), RunExitAction::Exit(MshvVmExit::Shutdown, false));
    assert_eq!(
        run_exit_action(Some(HvMessageKind::UnrecoverableException)),
        RunExitAction::Exit(MshvVmExit::Shutdown, true)
    );
    assert_eq!(run_exit_action(Some(HvMessageKind::UnmappedGpa)), RunExitAction::HandleUnmappedGpa);
    assert_eq!(run_exit_action(Some(HvMessageKind::GpaIntercept)), RunExitAction::HandleMmio);
    assert_eq!(run_exit_action(Some(HvMessageKind::IoPortIntercept)), RunExitAction::HandlePio);
    assert_eq!(run_exit_action(Some(HvMessageKind::Other)), RunExitAction::Exit(MshvVmExit::Special, true));
}

#[test]
fn unmapped_gpa_outcomes() {
    let mut m = MemManager::new();
    assert_eq!(mshv_handle_unmapped_mem(&m, 0x1000), UnmappedGpaAction::EmulateMmio);
    m.db.push(MemEntry { mr: region(0x0, 0x1000, 0x10_0000), mapped: true });
    m.db.push(MemEntry { mr: region(0x10_0000, 0x1000, 0x10_0000), mapped: false });
    m.db.push(MemEntry { mr: region(0x20_0000, 0x1000, 0x50_0000), mapped: false });
    assert_eq!(
        mshv_handle_unmapped_mem(&m, 0x20_0010),
        UnmappedGpaAction::Exit(MshvVmExit::Special)
    );
    assert_eq!(
        mshv_handle_unmapped_mem(&m, 0x10_0010),
        UnmappedGpaAction::Remap(vec![
            MappingChange { index: 0, mapped: false },
            MappingChange { index: 1, mapped: true },
        ])
    );
}

#[test]
fn mmio_instruction_takes_prefix() {
    let bytes: Vec<u8> = (0u8..16).collect();
    assert_eq!(mmio_instruction_bytes(1, 3, &bytes), vec![0, 1, 2]);
    assert_eq!(mmio_instruction_bytes(0, 16, &bytes), bytes);
}

#[test]
fn supported_msr_list_is_sorted() {
    assert_eq!(get_supported_msr(vec![0x174, 0x10, 0xc000_0080, 0x10]), vec![0x10, 0x10, 0x174, 0xc000_0080]);
}

#[test]
fn msr_filter_keeps_supported_in_order() {
    let e = |index: u32, data: u64| MsrEntry { index, reserved: 0, data };
    let msrs = vec![e(0x174, 1), e(0x999, 2), e(0x10, 3), e(0xc000_0080, 4), e(0x174, 5)];
    let kept = configure_and_check_msr(&msrs, vec![0xc000_0080, 0x174, 0x10]);
    assert_eq!(kept, vec![e(0x174, 1), e(0x10, 3), e(0xc000_0080, 4), e(0x174, 5)]);
    assert_eq!(configure_and_check_msr(&msrs, vec![]), vec![]);
}

#[test]
fn fd_tables() {
    let mut cpus: FdTable<u8> = FdTable::new();
    assert!(!cpus.contains(3));
    init_cpudb(&mut cpus);
    assert!(!cpus.contains(3));
    cpus.insert(3, 7);
    cpus.insert(4, 8);
    assert!(cpus.contains(3));
    assert_eq!(*cpus.get(3), 7);
    cpus.insert(3, 9);
    assert_eq!(*cpus.get(3), 9);
    assert_eq!(cpus.remove(3), 9);
    assert!(!cpus.contains(3));
    assert_eq!(*cpus.get(4), 8);
    let mut vms: FdTable<&str> = FdTable::new();
    init_vmdb(&mut vms);
    vms.insert(10, "vm");
    init_vmdb(&mut vms);
    assert!(!vms.contains(10));
}

#[test]
fn ioevent_builders() {
    assert_eq!(ioevent_address(true, 0xd000), IoEventAddress::Mmio(0xd000));
    assert_eq!(ioevent_address(false, 0x60), IoEventAddress::Pio(0x60));
    assert_eq!(ioevent_datamatch(false, true, 5), None);
    assert_eq!(ioevent_datamatch(true, true, 0x1_0000_0005), Some(DataMatch::DataMatch64(0x1_0000_0005)));
    assert_eq!(ioevent_datamatch(true, false, 0x1_0000_0005), Some(DataMatch::DataMatch32(5)));
}

#[test]
fn interrupt_requests() {
    assert_eq!(interrupt_request(0, 0, 1, false, false), None);
    assert_eq!(
        interrupt_request(4, 0x30, 2, true, false),
        Some(InterruptRequest {
            interrupt_type: 4,
            apic_id: 2,
            vector: 0x30,
            level_triggered: false,
            logical_destination_mode: true,
            long_mode: false,
        })
    );
}

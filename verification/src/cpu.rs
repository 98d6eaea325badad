//! Virtual processors: the table of them, how a run of one ends, and which MSRs
//! can be handed to the hypervisor.
use crate::fd_table::FdTable;
use crate::memory::{
    has_mapped_host_sharer, is_first_gpa_match, is_first_overlap, no_gpa_match, overlap_candidate, overlap_swap,
    MappingChange, MemManager,
};
use vstd::prelude::*;

verus! {

/// Initializes the table of virtual processors, empty.
pub fn init_cpudb<T>(db: &mut FdTable<T>)
    ensures
        final(db)@ == Some(Map::<i32, T>::empty()),
{
    db.init();
}

/// The CPU vendor that QEMU asks the virtual processors to present.
#[derive(Debug, Clone, Copy, PartialEq, Eq, Structural)]
pub enum MshvCpuVendor {
    Unknown,
    Intel,
    AMD,
}

impl Default for MshvCpuVendor {
    fn default() -> (v: Self)
        ensures
            v == MshvCpuVendor::Unknown,
    {
        MshvCpuVendor::Unknown
    }
}

/// How a run of a virtual processor ended, as QEMU is told.
#[derive(Debug, Clone, Copy, PartialEq, Eq, Structural)]
pub enum MshvVmExit {
    /// Handled here; run again.
    Ignore,
    /// The guest cannot go on.
    Shutdown,
    /// QEMU has to look at the message.
    Special,
}

/// The kind of message with which the hypervisor ended a run.
#[derive(Debug, Clone, Copy, PartialEq, Eq, Structural)]
pub enum HvMessageKind {
    UnrecoverableException,
    UnmappedGpa,
    GpaIntercept,
    IoPortIntercept,
    Other,
}

/// What to do about the end of a run.
#[derive(Debug, Clone, Copy, PartialEq, Eq, Structural)]
pub enum RunExitAction {
    /// Return this exit to QEMU; with `true`, copy the message out to QEMU first.
    Exit(MshvVmExit, bool),
    /// An access to guest memory that no mapping backs.
    HandleUnmappedGpa,
    /// An intercepted access to guest memory: emulate the instruction.
    HandleMmio,
    /// An intercepted port access.
    HandlePio,
}

/// What to do after a run that ended with a message of kind `msg`, or (`None`) that
/// failed.
pub fn run_exit_action(msg: Option<HvMessageKind>) -> (ret: RunExitAction)
    ensures
        ret == match msg {
            None => RunExitAction::Exit(MshvVmExit::Shutdown, false),
            Some(HvMessageKind::UnrecoverableException) => RunExitAction::Exit(
                MshvVmExit::Shutdown,
                true,
            ),
            Some(HvMessageKind::UnmappedGpa) => RunExitAction::HandleUnmappedGpa,
            Some(HvMessageKind::GpaIntercept) => RunExitAction::HandleMmio,
            Some(HvMessageKind::IoPortIntercept) => RunExitAction::HandlePio,
            Some(HvMessageKind::Other) => RunExitAction::Exit(MshvVmExit::Special, true),
        },
{
    match msg {
        None => RunExitAction::Exit(MshvVmExit::Shutdown, false),
        Some(HvMessageKind::UnrecoverableException) => RunExitAction::Exit(
            MshvVmExit::Shutdown,
            true,
        ),
        Some(HvMessageKind::UnmappedGpa) => RunExitAction::HandleUnmappedGpa,
        Some(HvMessageKind::GpaIntercept) => RunExitAction::HandleMmio,
        Some(HvMessageKind::IoPortIntercept) => RunExitAction::HandlePio,
        Some(HvMessageKind::Other) => RunExitAction::Exit(MshvVmExit::Special, true),
    }
}

/// What to do about an access to unbacked guest memory.
#[derive(Debug, PartialEq, Eq)]
pub enum UnmappedGpaAction {
    /// No region holds the address: emulate the access as MMIO.
    EmulateMmio,
    /// Make these mapping changes, in this order (each by asking the hypervisor and
    /// recording it with `MemManager::set_mapped`), then resume the run (`Ignore`).
    Remap(Vec<MappingChange>),
    /// Return this exit to QEMU.
    Exit(MshvVmExit),
}

/// Handles an access to guest physical address `gpa` that no mapping backs: MMIO when
/// no region holds it; otherwise the region holding it is to be swapped in for a
/// mapped region that shares its host memory, and when there is none QEMU is told
/// (`Special`).
pub fn mshv_handle_unmapped_mem(mem: &MemManager, gpa: u64) -> (ret: UnmappedGpaAction)
    ensures
        no_gpa_match(mem.db@, gpa) ==> ret == UnmappedGpaAction::EmulateMmio,
        (exists|i: int|
            #![trigger is_first_gpa_match(mem.db@, gpa, i)]
            is_first_gpa_match(mem.db@, gpa, i) && has_mapped_host_sharer(mem.db@, i))
            ==> ret is Remap,
        !no_gpa_match(mem.db@, gpa) ==> match ret {
            UnmappedGpaAction::Remap(v) => exists|i: int, o: int|
                #![trigger is_first_gpa_match(mem.db@, gpa, i), is_first_overlap(mem.db@, i, o)]
                {
                    &&& is_first_gpa_match(mem.db@, gpa, i)
                    &&& is_first_overlap(mem.db@, i, o)
                    &&& v@ == overlap_swap(i, o)
                },
            UnmappedGpaAction::Exit(e) => e == MshvVmExit::Special && forall|i: int, o: int|
                #![trigger is_first_gpa_match(mem.db@, gpa, i), is_first_overlap(mem.db@, i, o)]
                is_first_gpa_match(mem.db@, gpa, i) ==> !is_first_overlap(mem.db@, i, o),
            UnmappedGpaAction::EmulateMmio => false,
        },
{
    if mem.find_by_gpa(gpa).is_none() {
        return UnmappedGpaAction::EmulateMmio;
    }
    match mem.map_overlapped_region(gpa) {
        Some(v) => UnmappedGpaAction::Remap(v),
        None => {
            proof {
                let db = mem.db@;
                assert forall|i: int, o: int|
                    is_first_gpa_match(db, gpa, i) implies !is_first_overlap(db, i, o) by {
                    if is_first_overlap(db, i, o) {
                        assert(overlap_candidate(db, i, o));
                    }
                }
            }
            UnmappedGpaAction::Exit(MshvVmExit::Special)
        },
    }
}

/// The bytes of the instruction behind an intercepted memory access: the first
/// `insn_len` (1 to 16) of those the hypervisor captured. An access of type 2
/// (instruction fetch) is not handled.
pub fn mmio_instruction_bytes(access_type: u8, insn_len: usize, bytes: &[u8]) -> (ret: Vec<u8>)
    requires
        access_type != 2,
        0 < insn_len <= 16,
        insn_len <= bytes@.len(),
    ensures
        ret@ == bytes@.subrange(0, insn_len as int),
{
    let mut ret: Vec<u8> = Vec::new();
    let mut i: usize = 0;
    while i < insn_len
        invariant
            i <= insn_len <= bytes@.len(),
            ret@ == bytes@.subrange(0, i as int),
        decreases insn_len - i,
    {
        ret.push(bytes[i]);
        i = i + 1;
        proof {
            assert(ret@ =~= bytes@.subrange(0, i as int));
        }
    }
    ret
}

/// A model-specific register and the value to give it.
#[derive(Debug, Clone, Copy, PartialEq, Eq, Structural)]
pub struct MsrEntry {
    pub index: u32,
    pub reserved: u32,
    pub data: u64,
}

/// `s` is in ascending order.
pub open spec fn sorted_ascending(s: Seq<u32>) -> bool {
    forall|i: int, j: int| 0 <= i <= j < s.len() ==> s[i] <= s[j]
}

/// The entries of `msrs` whose register the hypervisor supports, in their order.
pub open spec fn supported_msrs(msrs: Seq<MsrEntry>, supported: Seq<u32>) -> Seq<MsrEntry> {
    msrs.filter(|e: MsrEntry| supported.contains(e.index))
}

/// `<[u32]>::sort` of std, which sorts a slice in ascending order. Claimed of it: the
/// result is in ascending order and holds the same values, each as often as before.
#[verifier::external_body]
fn sort_ascending(v: &mut Vec<u32>)
    ensures
        final(v)@.to_multiset() == old(v)@.to_multiset(),
        sorted_ascending(final(v)@),
{
    v.sort();
}

/// Whether the ascending sequence `s` holds `x`, by bisection.
fn sorted_contains(s: &Vec<u32>, x: u32) -> (ret: bool)
    requires
        sorted_ascending(s@),
    ensures
        ret == s@.contains(x),
{
    let mut lo: usize = 0;
    let mut hi: usize = s.len();
    while lo < hi
        invariant
            lo <= hi <= s@.len(),
            sorted_ascending(s@),
            forall|i: int| 0 <= i < lo ==> s@[i] < x,
            forall|i: int| hi <= i < s@.len() ==> s@[i] > x,
        decreases hi - lo,
    {
        let mid = lo + (hi - lo) / 2;
        if s[mid] == x {
            return true;
        } else if s[mid] < x {
            lo = mid + 1;
        } else {
            hi = mid;
        }
    }
    proof {
        if s@.contains(x) {
            let k = choose|k: int| 0 <= k < s@.len() && s@[k] == x;
            assert(s@[k] == x);
        }
    }
    false
}

/// The register numbers the hypervisor supports, in ascending order.
pub fn get_supported_msr(msrs: Vec<u32>) -> (ret: Vec<u32>)
    ensures
        ret@.to_multiset() == msrs@.to_multiset(),
        sorted_ascending(ret@),
{
    let mut ret = msrs;
    sort_ascending(&mut ret);
    ret
}

/// The entries of `msrs` whose register is among `msr_index_list` (the hypervisor's
/// list of supported registers), in their order: those that can be set.
pub fn configure_and_check_msr(msrs: &[MsrEntry], msr_index_list: Vec<u32>) -> (ret: Vec<MsrEntry>)
    ensures
        ret@ == supported_msrs(msrs@, msr_index_list@),
{
    let ghost listed = msr_index_list@;
    let supported = get_supported_msr(msr_index_list);
    proof {
        assert forall|x: u32| supported@.contains(x) == listed.contains(x) by {
            supported@.to_multiset_ensures();
            listed.to_multiset_ensures();
            assert(supported@.to_multiset().count(x) == listed.to_multiset().count(x));
        }
    }
    let mut ret: Vec<MsrEntry> = Vec::new();
    let mut i: usize = 0;
    while i < msrs.len()
        invariant
            i <= msrs@.len(),
            sorted_ascending(supported@),
            forall|x: u32| supported@.contains(x) == listed.contains(x),
            ret@ == supported_msrs(msrs@.take(i as int), listed),
        decreases msrs@.len() - i,
    {
        let e = msrs[i];
        if sorted_contains(&supported, e.index) {
            ret.push(e);
        }
        proof {
            let pred = |e: MsrEntry| listed.contains(e.index);
            assert(msrs@.take(i + 1).drop_last() =~= msrs@.take(i as int));
            reveal(Seq::filter);
            assert(msrs@.take(i + 1).filter(pred) == if pred(msrs@[i as int]) {
                msrs@.take(i as int).filter(pred).push(msrs@[i as int])
            } else {
                msrs@.take(i as int).filter(pred)
            });
        }
        i = i + 1;
    }
    assert(msrs@.take(msrs@.len() as int) =~= msrs@);
    ret
}

} // verus!

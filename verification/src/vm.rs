//! Partition-level requests: the table of partitions, I/O event registrations and
//! interrupt injection.
use crate::fd_table::FdTable;
use vstd::prelude::*;

verus! {

/// Initializes the table of partitions, empty.
pub fn init_vmdb<T>(db: &mut FdTable<T>)
    ensures
        final(db)@ == Some(Map::<i32, T>::empty()),
{
    db.init();
}

/// Where a guest access signals an I/O event.
#[derive(Debug, Clone, Copy, PartialEq, Eq, Structural)]
pub enum IoEventAddress {
    /// A port.
    Pio(u64),
    /// A memory-mapped address.
    Mmio(u64),
}

/// The value a guest must write for an I/O event to be signalled.
#[derive(Debug, Clone, Copy, PartialEq, Eq, Structural)]
pub enum DataMatch {
    DataMatch32(u32),
    DataMatch64(u64),
}

/// The event address: memory-mapped or port, at `addr`.
pub fn ioevent_address(is_mmio: bool, addr: u64) -> (ret: IoEventAddress)
    ensures
        ret == if is_mmio {
            IoEventAddress::Mmio(addr)
        } else {
            IoEventAddress::Pio(addr)
        },
{
    if is_mmio {
        IoEventAddress::Mmio(addr)
    } else {
        IoEventAddress::Pio(addr)
    }
}

/// The value to match, if any: all of `val`, or its low 32 bits for a 32-bit match.
pub fn ioevent_datamatch(is_datamatch: bool, is_64bit: bool, val: u64) -> (ret: Option<DataMatch>)
    ensures
        ret == if !is_datamatch {
            None
        } else if is_64bit {
            Some(DataMatch::DataMatch64(val))
        } else {
            Some(DataMatch::DataMatch32((val % 0x1_0000_0000) as u32))
        },
{
    if is_datamatch {
        let d = if is_64bit {
            DataMatch::DataMatch64(val)
        } else {
            let low = val as u32;
            assert(low == val % 0x1_0000_0000) by (bit_vector)
                requires
                    low == val as u32,
            ;
            DataMatch::DataMatch32(low)
        };
        Some(d)
    } else {
        None
    }
}

/// A request to assert an interrupt in the guest.
#[derive(Debug, Clone, Copy, PartialEq, Eq, Structural)]
pub struct InterruptRequest {
    pub interrupt_type: u32,
    pub apic_id: u64,
    pub vector: u32,
    pub level_triggered: bool,
    pub logical_destination_mode: bool,
    pub long_mode: bool,
}

/// The interrupt to assert for `vector` on the processor with APIC id `vp_index`;
/// `None` for vector 0, which is not delivered.
pub fn interrupt_request(
    interrupt_type: u32,
    vector: u32,
    vp_index: u32,
    logic_dest_mode: bool,
    level_triggered: bool,
) -> (ret: Option<InterruptRequest>)
    ensures
        ret == if vector > 0 {
            Some(
                InterruptRequest {
                    interrupt_type,
                    apic_id: vp_index as u64,
                    vector,
                    level_triggered,
                    logical_destination_mode: logic_dest_mode,
                    long_mode: false,
                },
            )
        } else {
            None
        },
{
    if vector > 0 {
        Some(
            InterruptRequest {
                interrupt_type,
                apic_id: vp_index as u64,
                vector,
                level_triggered,
                logical_destination_mode: logic_dest_mode,
                long_mode: false,
            },
        )
    } else {
        None
    }
}

} // verus!

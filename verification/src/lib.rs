//! Bookkeeping and decision logic of an MSHV accelerator for QEMU: the guest memory
//! regions of a partition, its MSI routing table, the tables of partitions and
//! virtual processors, and what to do when a run of a virtual processor ends
//! (port I/O, unbacked memory, MSR set-up).

pub mod cpu;
pub mod fd_table;
pub mod memory;
pub mod msi;
pub mod pio;
pub mod vm;

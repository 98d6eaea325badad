# qemu_mshv

The bookkeeping and decision logic of QEMU's MSHV accelerator, verified with Verus.

- `src/` is the library. `memory` keeps the guest memory regions of a partition and
  which of them are mapped; `msi` keeps the MSI routing table; `fd_table` is the table
  from file descriptors to partitions or virtual processors; `pio` carries out
  intercepted port I/O; `cpu` decides what to do when a run of a virtual processor
  ends and which MSRs can be set; `vm` builds I/O event and interrupt requests.
  The library makes no call to the hypervisor. Where a call is needed it returns the
  call to make (or the ordered changes, or the next port transfer), and the caller
  records the outcome through a verified function; a single port request is made
  through a callback that is called at most once (`FnOnce`).
- `app/` holds the C entry points that QEMU calls: the process-wide tables, the calls
  into the hypervisor crates, and the copies of the library's types that QEMU reads
  with a C layout.
- `tests/` runs the library on concrete values.

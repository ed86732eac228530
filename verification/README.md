# alaphios

The kernel logic of AlaphiOS, a small x86-64 teaching kernel, as a Verus library: its data
structures, scheduler, allocators, file-system rules and the decisions of its system calls
carry contracts that Verus proves. What touches the hardware, user memory or the context
switch (and the loops that wait on it) stays in `app/`, which hands the library plain values.

## Layout

- `src/` — the verified library.
  - `arch/` — the scancode ring, tick counter, selectors, the per-task syscall scratch block
    and the saved register frame.
  - `io/` — sector CRCs, the RAM disk, the console line discipline, device table, and the
    C-SCAN / FCFS disk request schedulers.
  - `ipc/` — pipes, message queues, shared regions with their size registry, and the handle
    table that holds them.
  - `memory/` — the buddy heap allocator, the boot and free-list frame allocators, address
    spaces (page faults, `brk`, `mprotect`, fork), and swap with its reaper state machine.
  - `process/` — pids and tids, tasks, the task table, exit/wait, signals and the flat
    binary loader.
  - `scheduler/` — the multi-level feedback queue.
  - `sync/` — atomics, spinlocks, condition variables, monitors and user-visible locks.
  - `fs/` — the FAT volume (driven through the `fatfs` crate on an in-memory image that first
    passes a check of its boot sector and of the directory tree and cluster chains reachable
    from its root), file
    control blocks, descriptor tables, the permission and password overlay, the on-disk
    system domain and the logical file system.
  - `security/` — rights, access lists and role-based access control.
  - `syscall/` — call numbers, error numbers, argument checks, the lock, IPC and file calls
    by number, and the checks `clone` and `fork` make before anything is created.
- `tests/` — the library's tests, run against the real outside crates.
- `app/` — the kernel binary around the library: boot, interrupt and system-call entry
  stubs, page tables, context switches, the heap hook-up and the system-call dispatcher
  that reads and writes user memory.

## Outside crates

`sha2` (password digests) and `fatfs` (the volume) are called from the library through
small trusted wrappers whose contracts name what the crate computes; `x86_64`, `pic8259`,
`uart_16550`, `spin` and `bootloader_api` are used by `app/` only.

# oskernel

The verified core of a small RISC-V teaching kernel (SV39, threads, mutexes,
semaphores, condition variables, deadlock detection, stride scheduling).

- `src/sync/`: the banker's safety check (`deadlock_checker`), proved to
  answer exactly whether the participating threads can all finish in some
  order; the process's synchronisation state and its bookkeeping matrices;
  checks of the bounds that the bookkeeping relies on.
- `src/syscall/`: the decisions and bookkeeping of the system calls, each with
  a contract over the state's mathematical view.
- `src/task/`: task types and the stride-scheduled ready queue.
- `src/mm.rs`: page numbers, offsets and permission bits of SV39 page-table entries.
- `app/`: the kernel around the library: machine state, blocking, memory
  access, the global ready queue.

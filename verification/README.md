# rcore_os

The verified core of a small teaching kernel, written in Verus.

- `src/banker.rs`: deadlock detection by the banker's algorithm, proved to
  answer exactly whether a safe sequence of the threads exists.
- `src/sync.rs`: the synchronisation system calls of a process (mutexes,
  semaphores, condition variables, sleep, deadlock detection switch). Each
  call returns its result and the blocking action for the scheduler.
- `src/task.rs`: task control blocks, the round-robin scheduler, heap
  break, system call counts and the memory services of the current task.
- `src/mm.rs`: the user address space: mapped areas, permissions and bytes.
- `src/process.rs`: the process system calls.
- `app/`: the global task manager and the system call entry points, which
  check what the library requires before calling it and leave context
  switches, timing and blocking to the platform.

# os_syscall

The decision layer of a teaching kernel's system calls, with contracts proved
for every function.

Each `sys_*` function takes the part of the kernel's state it decides on and
the results of the kernel services it depends on (whether a file was found,
what the clock reads), and answers what the process
is told, together with the work the kernel goes on to do.

- `src/banker.rs`: the banker's safety test over semaphore counters, proved to
  answer whether the threads can be run to completion in some order.
- `src/sync.rs`: mutex, semaphore and condition-variable tables, who holds
  and who waits for each mutex, deadlock detection for mutexes and
  semaphores, and the semaphore bookkeeping (held units, awaited units, and
  the queue of waiting requests), kept consistent by a type invariant and
  kept safe while detection is on.
- `src/waits.rs`: the chain of waits behind a mutex, and the test whether a
  lock request closes a cycle.
- `src/fs.rs`: descriptor-table checks for read, write, open, close, fstat,
  link and unlink.
- `src/process.rs`: wait, mmap/munmap argument checks, time, sleep, spawn and
  the small answers.
- `src/user_copy.rs`: the bytes of a `TimeVal` and their split over the
  pieces of user memory a buffer spans.
- `src/slots.rs`: the lowest-free-id rule shared by all tables.
- `src/laws.rs`: properties that span several calls.

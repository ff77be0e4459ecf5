# threadkit

Verified building blocks for small concurrent and networked programs, written
in Verus.

The library (`src/`) holds the state and the decisions of each program, with
contracts that Verus proves:

- `semaphore`: a counting semaphore whose `wait` reports whether it took a
  permit, so the caller blocks and retries; conservation of permits.
- `philosophers`, `philosophers_monitor`: dining philosophers, with forks
  taken in one global order, or both at once under a monitor; each
  philosopher's ten rounds of thinking and eating as a sequence of steps.
- `order`, `sorting`, `list`, `stepsort`, `rwlock_list`: linked lists of
  strings, bubble sort in whole passes or one comparison at a time, and the
  proofs that the result is the sorted arrangement of the same entries.
- `queue`, `sem_queue`: a bounded queue of messages, guarded by condition
  variables or by two semaphores; first in, first out.
- `text`, `http`, `input`: character and byte scanning, HTTP request and URL
  parsing, cutting input lines into list entries.
- `pager`: showing a body a screen at a time.
- `cache`, `threaded_proxy`, `select_proxy`: the cache and the per-client
  state machines of caching HTTP proxies.

The programs themselves (`app/`) own the threads, locks, sockets and the
terminal, and call the library for everything else.

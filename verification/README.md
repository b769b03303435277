# Shared HashMap

A hash map of bounded size that lives in one block of shared memory, so that
several threads and processes can use it. When the memory is full, the entries
that were accessed the longest ago leave.

The library is written in Verus: each function states what it does, and Verus
proves it.

- `src/` is the library. It works on the bytes of the block.
  - `memory`: numbers in memory, and bytes that are written and moved.
  - `codec`: how keys and values become bytes. The calls of `bincode` are there,
    and what is taken on trust of them.
  - `bucket`: the header of an entry, its key and its value in memory.
  - `region`: the mathematical model of the whole block.
  - `contents`: the map as it lies in memory.
  - `clock`: the time of an access.
  - `map`: the map for its users.
  - `laws`: what holds across operations, such as that a read gives back what
    was written, and that what leaves was accessed the longest ago.
  - `history`: what holds over any sequence of calls.
  - `plain`: a smaller map that does not evict.
- `app/` holds the shared memory and the lock around it.
- `tests/` runs the library.

# optimal_space_allocator

A best-fit allocator over a byte buffer that the caller provides.

Only allocated blocks carry a header, stored inline at the start of the block, and the headers are
linked by position. Free space is implicit: every gap between allocated blocks. A request goes to
the first of the gaps that it leaves with the least waste; freeing a block unlinks it; compaction
slides all blocks to the start of the buffer.

- `src/rounding.rs`: rounding up to a multiple of an alignment.
- `src/block.rs`: the extent of a block.
- `src/layout.rs`: what a user asks for.
- `src/memory.rs`: words, headers and runs of bytes in the buffer.
- `src/heap.rs`: the model: a buffer and the blocks in it, gaps, best fit, compaction.
- `src/list.rs`: the list of headers in the buffer, and what each change of it keeps.
- `src/allocator.rs`: the allocator.
- `src/lock.rs`: the decision of the spin lock, and mutual exclusion.
- `src/laws.rs`: what holds of the allocator as a whole.
- `app/`: the global allocator around it, with raw pointers and the lock itself.

# Extism kernel

The memory kernel of a plugin runtime, verified with Verus. It manages a linear
memory of 64 KiB pages: an allocator with free blocks, the ranges of a plugin's
input and output, and the offset of its error message.

Everything the kernel knows lies in that memory, at fixed places and in
little-endian order: a root record at offset 1, then one block after the other,
each a 12 byte header followed by its data. Contracts describe memory byte by
byte, and on top of that as a sequence of blocks.

- `src/bytes.rs`: numbers inside a sequence of bytes
- `src/memory.rs`: the linear memory, and what the host grants
- `src/layout.rs`: the root and the block headers
- `src/heap.rs`: the blocks of the heap, and what an allocation does to them
- `src/root.rs`: initialization, allocation, reset
- `src/exports.rs`: the functions that runtimes and plugins call
- `src/laws.rs`: what holds across these functions
- `tests/`: the same on concrete values
- `app/`: the functions on one memory for the whole process

Whether memory can grow is the host's decision. It is represented by a limit in
pages, which the host can change at any time: a request is granted if and only if
it stays within the limit.

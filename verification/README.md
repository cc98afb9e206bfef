# clmalloc

A thread-caching slab allocator. Its bookkeeping is verified with Verus: which
address is handed out, which list a freed address joins, when a slab or a
segment goes back, and what a heap profile holds.

`src/` is the verified library. Addresses are plain integers there; no memory
is touched. `app/` maps the memory, keeps a heap for each thread and implements
`GlobalAlloc` on top of the library. `tests/` runs the library.

| Module | Holds |
|--------|-------|
| `layout`, `size_class` | Layouts and the 49 size classes |
| `slab`, `table` | Slabs with their local and remote free lists |
| `sys`, `segment`, `pool` | Page allocators, segments of 2 MiB, the page pool |
| `bin_state`, `bin`, `heap` | The slabs and the free cache of a size class, and heaps of 49 of them |
| `global` | The allocator as a whole |
| `usage` | How blocks, slabs and segments add up |
| `metrics` | Counters, snapshots and histograms |
| `pprof`, `wire`, `profile` | Sampling, protobuf encoding and profiles |

What holds of the allocator as a whole is stated in the contracts and in the
proof functions named `law_*`. Among others: blocks in use never overlap, every block is aligned and large
enough, a freed block is the next one of its class unless it went back to the
active slab while others wait in the cache, a thread that exits keeps
the blocks in use, and a profile reads back as it was written.

Three calls leave the library and are trusted: `backtrace::trace`,
`backtrace::resolve` and `flate2::write::GzEncoder`.

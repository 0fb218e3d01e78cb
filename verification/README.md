# sane

The logic of a small x86-64 kernel and of its window manager, with its behaviour stated in
`requires` / `ensures` contracts and proved by Verus.

- `src/` is the verified library:
  - `mem`: the physical frame allocator (`pmm`), memory capabilities and their derivation
    tree (`caps`, `derivation`), and the page tables with copy-on-write (`vmm`);
  - `ipc`: the capability space, the IPC fast path and shared message rings;
  - `sched`: the run queue ordered by dynamic priority, and the burst-based scheduler;
  - `cpu`: decoding of what `cpuid` and `rdtsc` report;
  - `usr::drivers`: PCI decoding, xHCI and NVMe register values and queues, USB descriptors,
    keyboard and mouse reports;
  - `wmc`, `evp`, `wdg`: colours, canvases and drawing, tiling layouts, the compositor's
    event handling and painting, and the event pump.
- `app/` is the ordinary Rust around it: boot order, inline assembly, port and memory-mapped
  I/O, the page tables written into memory, spin-locked global state, and the
  floating-point animation of the desktop.
- `tests/` exercises the library on concrete values.

# kos

The logic of a small x86_64 kernel and its BIOS bootloader, verified with
Verus.

- `src/` is the verified library:
  - `kalloc`, `klib::kalloc`, `kcore::kalloc`: buddy and slab allocators
    over caller-provided bin records, with the laws that allocating and
    freeing keep them consistent and undo each other; `klib::kalloc::btree`
    builds a tree of bins over a range.
  - `drivers::page_mapper`: a four-level page table hierarchy held as plain
    values, with mapping, unmapping, flag updates and translation, and the
    laws that relate them.
  - `bootloader`: the bootloader's memory map and frame allocators, the
    level 4 entries in use, loading the kernel's ELF file (segment plans,
    relocations, copy-on-write of loaded pages) and the boot info.
  - `kernel::mem`: the physical memory manager, the kernel's frame
    allocator and objects mapped in pages of their own.
  - `drivers`: framebuffer and text drawing, keyboard queue, interrupt
    controllers, serial port, a round-robin scheduler; `konsole` and
    `klib::kio`: framing of log messages.
- `app/` is the code around it: port and memory access, the run loops, and
  the order in which the bootloader and the kernel bring the machine up.
- `tests/` exercises the library on concrete values.

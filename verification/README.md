# blog_os_kernel

The logic of a small x86-64 teaching kernel, verified with Verus.

`src/` is the verified library:

- `mm::allocator`: a bump allocator, a first-fit allocator over an
  address-ordered free list that merges neighbouring regions, and a
  fixed-size block allocator with a linked-list heap as fallback.
- `io::vga_buffer`: the 25x80 VGA text screen and the writer that prints to
  it; `io::fs`: an in-memory file system with a sorted root directory.
- `irq::time`, `interrupt::time`: the millisecond clock, timers,
  stopwatches and time formatting.
- `task`: task priorities, the executor's scheduling decisions, and the
  interactive shell.
- `boot::welcome`, `devices::disk`: the boot banner and the disk manager.

`app/` runs the kernel hosted: it keeps the global screen and clock behind
locks, implements `GlobalAlloc` for the allocators, runs the task executor,
and feeds standard input to the shell.

`tests/` exercises the library on concrete inputs.

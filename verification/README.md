# PolarOS

A small x86_64 operating system: a kernel with a RAM file system, a shell with
pipes and redirections, a preemptive round-robin scheduler, system calls, a FAT
reader, PS/2 keyboard and mouse decoding, and a windowed desktop drawn into a
320x200 framebuffer.

## Layout

- `src/` is the `polaros` library, written in Verus. Every function in it has
  a contract that Verus proves: the file system and its disk image, the shell's
  commands and line editing, the scheduler's table, the system calls, the FAT
  layout and lookups, the ELF checks, the frame allocator, the keyboard and
  mouse decoders, the event queue, and the widgets, compositor and drawing
  routines. Properties that span several calls (a read gives back what a
  write wrote, an image loads back to the same file system, a drawn line
  walks from one end to the other, and so on) stand as proof functions whose
  names begin with `law_`.
- `app/` is the kernel itself: boot, the descriptor and interrupt tables, the
  interrupt controllers and timer, paging and the heap, port I/O for the disk,
  the VGA screens, the serial log and the PS/2 controller, the register switch
  between tasks, and the event loops. It hands plain values to the library and
  does what the library decides.
- `tests/` runs the library on concrete inputs.

Where a decision needs an outside crate (the 8x8 font), the library calls it
through a wrapper whose contract names what it returns.

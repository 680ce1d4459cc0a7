# dusk

The core of a small x86-64 microkernel, written in Verus: the page-table
hierarchy and address spaces, the physical frame allocator, kernel and user
stacks, the ELF loader and initramfs (CPIO) lookup, the ACPI/MADT parser,
the bootloader's responses, the local and I/O APIC register programming and
the timer's calibration, the descriptor tables and interrupt dispatch, the
serial port's set-up, the scheduler with its ready queue, mailboxes and
handle tables, and the system calls that act on them. Physical memory is
modelled as a sequence of 64-bit words, so page tables, loaded images, user
buffers and firmware tables are read and written through the same verified
interface.

Where the kernel talks to hardware (ports, model-specific registers,
memory-mapped registers), the library decides and returns the writes to
make, and takes the values read as arguments.

- `src/` — the verified library.
- `tests/` — tests that run the library on concrete machines.
- `app/` — a program that boots the kernel on a simulated machine: it reads
  an initramfs from a file, performs the system calls that a script asks
  for, and prints what the scheduler decides. Processor and device access
  (CPUID, the serial port, interrupts, context switches) has no counterpart
  on a hosted machine and is stood in for there.

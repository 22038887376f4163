# stablemod

The verified core of Stablemod, a security-oriented meta-operating system.

`src/` is a Verus library. Every function in it carries a contract that
Verus proves, except the few trusted wrappers around the `elf` and `x86_64`
crates, whose contracts restate what those crates do:

- `bitmap`, `memory`: the bitmap frame allocator of bare-metal targets, the
  frame-table allocator of the hosted target, and the allocator interface
  that the rest of the system uses.
- `capability`, `tree`, `syscall`: capabilities and capability arenas, the
  kernel's AA tree of arenas (search order, map view and AA balance), and
  the kernel's decisions on capability read and write requests.
- `paging`: page permissions, their x86-64 page table flags and `mmap`
  protections, and the page-by-page plan of a mapping.
- `loader`: how the bootloader places an ELF executable: its frames,
  segment mappings, relocation patches, stacks and boot information.
- `logger`, `config`, `devices`: the console logger's filter and line
  format, the bootloader configuration, and the device placeholders.

`tests/` runs the library on concrete inputs. `app/` holds the two
bootloaders (hosted and UEFI) and the platform plumbing around the library:
memory files, firmware calls, x86-64 page tables, system calls, raw memory
copies, the `log` and `serde` glue.

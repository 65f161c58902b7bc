# mizu

A small hobby operating system and its companion tools, written as a Verus library: the
logic is verified against contracts, and a thin program around it does the I/O.

- `src/` is the verified library. The kernel side holds the process table, descriptors
  and pipes, the RAM file system, physical frames and page tables, ELF loading, the
  system-call decoder and dispatcher, the VGA text screen, keyboard decoding, the line
  editor and the kernel shell with its text editor. The host side holds the host shell's
  parser and built-ins. The analysis side holds the Collatz functions (stopping times,
  branch decomposition, the inverse formula and its tree) used by the analyzer.
- `tests/` runs the library on concrete inputs.
- `app/` is ordinary Rust around the library: the analyzer's command line and its
  floating-point statistics, the host shell's process and file handling, and the loops
  that feed keys and events to the kernel shell.

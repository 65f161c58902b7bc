//! Mizu: the verified core of a small hobby operating system and its tools.
pub mod text;
pub mod shell_parse;
pub mod stdlib;
pub mod frames;
pub mod ramfs;
pub mod abi;
pub mod usermem;
pub mod kernel;
pub mod syscalls;
pub mod fileio;
pub mod sched;
pub mod systable;
pub mod paging;
pub mod elf;
pub mod machine;
pub mod dispatch;
pub mod vga;
pub mod keyboard;
pub mod shell_text;
pub mod line_editor;
pub mod completion;
pub mod line_input;
pub mod editor;
pub mod shell_cmds;
pub mod collatz;
pub mod pit;
pub mod pic;
pub mod serial;
pub mod gdt;
pub mod interrupts;
pub mod personality;
pub mod builtins;
pub mod init_shell;
pub mod collatz_scan;
pub mod collatz_report;
pub mod collatz_inverse;
pub mod collatz_stats;
pub mod heap;
pub mod host_shell;

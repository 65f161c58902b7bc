use mizu::heap::{Heap, Block, NODE_SZ};
use mizu::host_shell::{render_prompt, prompt_path, line_action, LineAction, reexec_line, join_words,
    completion_word, completion_candidates, str_starts_with, visible_len, ls_columns, rm_flags, mount_args, has_arg};
use mizu::line_editor::{LineEditor, ScreenOp};
use mizu::shell_text::print_u32;
use mizu::shell_cmds::parse_u32;

#[test]
fn heap_starts_with_one_free_block() {
    let h = Heap::init(0x1f_0000);
    assert_eq!(h.base, 0x20_0000);
    assert_eq!(h.end, 0x21_0000);
    assert_eq!(h.free, vec![Block { addr: 0x20_0000, size: 65536 - NODE_SZ }]);
    assert!(h.live.is_empty());
}

#[test]
fn heap_splits_then_frees_to_the_front() {
    let mut h = Heap::init(0x20_0000);
    let p = h.alloc_from_heap(10, 4).unwrap();
    assert_eq!(p, 0x20_0000 + 8);
    assert_eq!(h.live, vec![Block { addr: 0x20_0000, size: 16 }]);
    assert_eq!(h.free, vec![Block { addr: 0x20_0000 + 24, size: 65528 - 24 - 8 }]);
    h.dealloc_from_heap(p);
    assert!(h.live.is_empty());
    assert_eq!(h.free[0], Block { addr: 0x20_0000, size: 16 });
    assert_eq!(h.free.len(), 2);
    // first fit takes the freed block again, whole, when it is big enough
    let q = h.alloc_from_heap(8, 8).unwrap();
    assert_eq!(q, p);
    assert_eq!(h.free.len(), 1);
    // and passes over it when it is too small
    h.dealloc_from_heap(q);
    let r = h.alloc_from_heap(16, 8).unwrap();
    assert_eq!(r, 0x20_0000 + 32);
    assert_eq!(h.free.len(), 2);
}

#[test]
fn heap_refuses_what_does_not_fit_and_ignores_null() {
    let mut h = Heap::init(0x20_0000);
    assert_eq!(h.alloc_from_heap(65536, 8), None);
    h.dealloc_from_heap(0);
    assert_eq!(h.free.len(), 1);
    // a block too small to split is handed out whole
    let p = h.alloc_from_heap(65528 - 8 - 16, 8).unwrap();
    assert_eq!(p, 0x20_0000 + 8);
    assert!(h.free.is_empty());
    assert_eq!(h.live, vec![Block { addr: 0x20_0000, size: 65528 }]);
}

#[test]
fn prompt_shortens_the_home_directory() {
    assert_eq!(prompt_path("/home/u/x", "/home/u"), "~/x");
    assert_eq!(prompt_path("/tmp", "/home/u"), "/tmp");
    assert_eq!(prompt_path("/tmp", ""), "~/tmp");
    assert_eq!(render_prompt("/home/u", "/home/u"),
        "\x1b[38;5;80m~\x1b[0m \x1b[38;5;213m\u{262f}\x1b[0m ");
    assert!(str_starts_with("abc", "ab"));
    assert!(!str_starts_with("ab", "abc"));
}

#[test]
fn input_lines_are_trimmed_and_exit_ends() {
    assert_eq!(line_action("   "), LineAction::Skip);
    assert_eq!(line_action(" exit "), LineAction::Exit);
    assert_eq!(line_action("  ls -l  "), LineAction::Run("ls -l".to_string()));
}

#[test]
fn builtins_in_pipelines_rerun_in_a_second_shell() {
    let args = vec!["-l".to_string(), "/".to_string()];
    assert_eq!(reexec_line("ls", &args), "ls -l /");
    assert_eq!(reexec_line("pwd", &[]), "pwd ");
    assert_eq!(join_words(&args), "-l /");
}

#[test]
fn completion_takes_the_last_word() {
    assert_eq!(completion_word("ls fo"), ("fo".to_string(), 3));
    assert_eq!(completion_word("ls foo "), ("foo".to_string(), 4));
    assert_eq!(completion_word(""), (String::new(), 0));
    let entries = vec![("foo".to_string(), true), ("bar".to_string(), false), ("food".to_string(), false)];
    assert_eq!(completion_candidates(&entries, "fo"),
        vec![("foo/".to_string(), "foo".to_string()), ("food".to_string(), "food".to_string())]);
    assert_eq!(completion_candidates(&entries, "").len(), 3);
}

#[test]
fn typing_then_backspace_restores_the_line() {
    let mut ed = LineEditor::new();
    let mut out: Vec<ScreenOp> = Vec::new();
    for c in b"ab" {
        ed.insert_char(*c, &mut out);
    }
    ed.cursor_left(&mut out);
    let before = (ed.buf.clone(), ed.cursor);
    ed.insert_char(b'x', &mut out);
    ed.delete_before(&mut out);
    assert_eq!((ed.buf.clone(), ed.cursor), before);
    ed.cursor_left(&mut out);
    ed.cursor_right(&mut out);
    assert_eq!((ed.buf.clone(), ed.cursor), before);
}

#[test]
fn recording_a_line_twice_records_it_once() {
    let mut ed = LineEditor::new();
    let mut out: Vec<ScreenOp> = Vec::new();
    for c in b" ls " {
        ed.insert_char(*c, &mut out);
    }
    ed.push_history();
    ed.push_history();
    assert_eq!(ed.history, vec![b"ls".to_vec()]);
    ed.history_up(&mut out);
    assert_eq!(ed.buf, b"ls".to_vec());
    ed.history_down(&mut out);
    assert_eq!(ed.buf, b" ls ".to_vec());
    assert_eq!(ed.cursor, 4);
}

#[test]
fn printed_numbers_parse_back() {
    for n in [0u32, 7, 10, 4096, u32::MAX] {
        let digits = String::from_utf8(print_u32(n)).unwrap();
        assert_eq!(parse_u32(&digits), Some(n));
    }
}

#[test]
fn visible_width_skips_color_sequences() {
    assert_eq!(visible_len("\x1b[38;5;80mabc\x1b[0m/"), 4);
    assert_eq!(visible_len("caf\u{e9}"), 5);
    assert_eq!(visible_len("\x1b[xm"), 4);
    assert_eq!(visible_len(""), 0);
}

#[test]
fn ls_column_layout() {
    assert_eq!(ls_columns(80, &vec![3, 8, 5]), (10, 8));
    assert_eq!(ls_columns(5, &vec![]), (12, 1));
    assert_eq!(ls_columns(80, &vec![100]), (102, 1));
}

#[test]
fn shell_builtin_arguments() {
    let a = |v: &[&str]| v.iter().map(|s| s.to_string()).collect::<Vec<String>>();
    assert_eq!(rm_flags(&a(&["-rf", "x"])), (true, true));
    assert_eq!(rm_flags(&a(&["-r", "x"])), (true, false));
    assert_eq!(rm_flags(&a(&["x"])), (false, false));
    assert!(has_arg(&a(&["-a", "-l"]), "-l"));
    assert_eq!(mount_args(&a(&["-t", "proc", "proc", "/proc"])),
        ("proc".to_string(), "proc".to_string(), "/proc".to_string()));
    assert_eq!(mount_args(&a(&["/mnt"])), (String::new(), String::new(), "/mnt".to_string()));
    assert_eq!(mount_args(&a(&["-t"])), (String::new(), String::new(), String::new()));
}

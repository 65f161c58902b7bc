use mizu::ramfs::{FileInfo, FileSystem};
use mizu::shell_cmds::{execute_line, parse_u32, script_commands, trim, ShellAction};

fn fs_with(files: &[(&str, &[u8])]) -> FileSystem {
    let v: Vec<FileInfo> = files
        .iter()
        .map(|(n, d)| FileInfo { name: n.to_string(), size: d.len(), data: d.to_vec() })
        .collect();
    FileSystem { files: Some(v), ram_files: None }
}

fn written(acts: &[ShellAction]) -> Vec<u8> {
    let mut out = Vec::new();
    for a in acts {
        if let ShellAction::Write(b) = a {
            out.extend_from_slice(b);
        }
    }
    out
}

fn run(fs: &mut FileSystem, line: &str) -> Vec<u8> {
    written(&execute_line(fs, 42, 8, line))
}

#[test]
fn echo_joins_arguments() {
    let mut fs = fs_with(&[]);
    assert_eq!(run(&mut fs, "echo  a \"b c\"  d"), b"a b c d\n".to_vec());
    assert_eq!(run(&mut fs, "echo"), b"\n".to_vec());
}

#[test]
fn parse_errors_and_pipes_are_reported() {
    let mut fs = fs_with(&[]);
    assert_eq!(run(&mut fs, "echo \"open"), "mizu: aspas não fechadas\n".as_bytes().to_vec());
    assert_eq!(run(&mut fs, "ls | wc"), "mizu: pipes não suportados no kernel (ainda)\n".as_bytes().to_vec());
    assert!(execute_line(&mut fs, 0, 8, "   ").is_empty());
}

#[test]
fn unknown_commands_are_reported() {
    let mut fs = fs_with(&[]);
    assert_eq!(run(&mut fs, "frobnicate x"), "mizu: comando não encontrado: frobnicate\n".as_bytes().to_vec());
}

#[test]
fn cat_adds_a_final_newline_and_reports_binary() {
    let mut fs = fs_with(&[("a.txt", b"hello"), ("b.txt", b"x\n"), ("bin", &[0xff, 0x00])]);
    assert_eq!(run(&mut fs, "cat a.txt"), b"hello\n".to_vec());
    assert_eq!(run(&mut fs, "cat b.txt"), b"x\n".to_vec());
    assert_eq!(run(&mut fs, "cat bin"), "(binário)".as_bytes().iter().cloned().chain([b'\n']).collect::<Vec<u8>>());
    assert_eq!(run(&mut fs, "cat nope"), "mizu: arquivo não encontrado: nope\n".as_bytes().to_vec());
    assert_eq!(run(&mut fs, "cat"), b"uso: cat <arquivo>\n".to_vec());
}

#[test]
fn head_shows_ten_lines() {
    let text: String = (1..=12).map(|i| format!("l{}\n", i)).collect();
    let mut fs = fs_with(&[("t", text.as_bytes())]);
    let expect: String = (1..=10).map(|i| format!("l{}\n", i)).collect();
    assert_eq!(run(&mut fs, "head t"), expect.as_bytes().to_vec());
}

#[test]
fn wc_counts_lines_words_and_bytes() {
    let mut fs = fs_with(&[("t", b"one two\nthree\n")]);
    assert_eq!(run(&mut fs, "wc t"), b"  linhas: 2  palavras: 3  bytes: 14\n".to_vec());
}

#[test]
fn hexdump_shows_offsets_bytes_and_text() {
    let data: Vec<u8> = (0x41u8..0x41 + 18).collect();
    let mut fs = fs_with(&[("h", &data)]);
    let out = String::from_utf8(run(&mut fs, "hexdump h")).unwrap();
    let lines: Vec<&str> = out.lines().collect();
    assert_eq!(lines.len(), 2);
    assert_eq!(lines[0], "0: 41 42 43 44 45 46 47 48 49 4a 4b 4c 4d 4e 4f 50  |ABCDEFGHIJKLMNOP|");
    assert_eq!(lines[1], "16: 51 52  |QR|");
    let mut fs2 = fs_with(&[("z", &[0u8, 0x7f])]);
    assert_eq!(run(&mut fs2, "hexdump z"), b"0: 00 7f  |..|\n".to_vec());
}

#[test]
fn cp_rm_touch_change_the_files() {
    let mut fs = fs_with(&[("a", b"data")]);
    assert_eq!(run(&mut fs, "cp a b"), b"ok\n".to_vec());
    assert_eq!(fs.file_read("b").unwrap(), b"data");
    assert_eq!(run(&mut fs, "cp nope c"), "mizu: origem não encontrada: nope\n".as_bytes().to_vec());
    assert_eq!(run(&mut fs, "rm b a"), "removido: b\nmizu: não encontrado: a\n".as_bytes().to_vec());
    assert!(fs.file_read("b").is_none());
    assert_eq!(run(&mut fs, "touch a n"), b"criado: n\n".to_vec());
    assert_eq!(fs.file_read("n").unwrap(), b"");
    assert_eq!(run(&mut fs, "touch"), b"uso: touch <arquivo>\n".to_vec());
}

#[test]
fn ls_lists_image_then_new_files() {
    let mut fs = fs_with(&[("x", b"1"), ("y", b"2")]);
    run(&mut fs, "touch z");
    assert_eq!(run(&mut fs, "ls"), b"x\ny\nz\n".to_vec());
    let mut empty = FileSystem::new();
    assert_eq!(run(&mut empty, "ls"), b"(vazio)\n".to_vec());
}

#[test]
fn scripts_run_their_lines() {
    let script = b"# comment\n  echo one  \n\necho two\n";
    let mut fs = fs_with(&[("s.sh", script)]);
    assert_eq!(run(&mut fs, "sh s.sh"), b"one\ntwo\n".to_vec());
    assert_eq!(run(&mut fs, "s.sh"), b"one\ntwo\n".to_vec());
    assert_eq!(run(&mut fs, "sh"), b"uso: sh <arquivo>\n".to_vec());
    assert_eq!(script_commands(script), vec!["echo one".to_string(), "echo two".to_string()]);
}

#[test]
fn a_script_that_runs_itself_stops_at_the_depth() {
    let mut fs = fs_with(&[("loop", b"echo x\nloop\n")]);
    assert_eq!(written(&execute_line(&mut fs, 0, 3, "loop")), b"x\nx\nx\n".to_vec());
}

#[test]
fn screen_commands_ask_for_actions() {
    let mut fs = fs_with(&[]);
    assert!(matches!(execute_line(&mut fs, 0, 8, "clear")[0], ShellAction::Clear));
    match &execute_line(&mut fs, 0, 8, "edit f.txt")[0] {
        ShellAction::Edit(n) => assert_eq!(n, "f.txt"),
        _ => panic!("expected edit"),
    }
    assert!(matches!(execute_line(&mut fs, 0, 8, "sleep 25")[0], ShellAction::Sleep(25)));
    assert!(matches!(execute_line(&mut fs, 0, 8, "sleep x")[0], ShellAction::Sleep(10)));
    assert!(matches!(execute_line(&mut fs, 0, 8, "sleep")[0], ShellAction::Sleep(10)));
    assert_eq!(run(&mut fs, "date"), b"ticks: 42\n".to_vec());
    assert_eq!(run(&mut fs, "whoami"), b"mizu\n".to_vec());
    assert_eq!(run(&mut fs, "yes").len(), 40);
    assert!(execute_line(&mut fs, 0, 8, "true").is_empty());
}

#[test]
fn numbers_parse_like_str_parse() {
    assert_eq!(parse_u32("0"), Some(0));
    assert_eq!(parse_u32("+12"), Some(12));
    assert_eq!(parse_u32("4294967295"), Some(4294967295));
    assert_eq!(parse_u32("4294967296"), None);
    assert_eq!(parse_u32("-1"), None);
    assert_eq!(parse_u32("+"), None);
    assert_eq!(parse_u32(""), None);
    assert_eq!(parse_u32("1a"), None);
    for s in ["7", "65535", "99999999999", "0012"] {
        assert_eq!(parse_u32(s), s.parse::<u32>().ok());
    }
}

#[test]
fn trim_removes_unicode_white_space() {
    assert_eq!(trim("\u{3000} a b \t"), "a b");
    assert_eq!(trim("   "), "");
}

#[test]
fn help_lists_commands() {
    let mut fs = fs_with(&[]);
    let out = String::from_utf8(run(&mut fs, "help")).unwrap();
    assert!(out.starts_with("comandos:\n  help  echo  clear"));
    assert!(out.contains("  Tab     — completar\n"));
}

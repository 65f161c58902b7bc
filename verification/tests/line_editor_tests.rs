use mizu::line_editor::{LineEditor, ScreenOp};
use mizu::line_input::Feed;

fn typed(ed: &mut LineEditor, s: &str, files: &Vec<Vec<u8>>) -> (Vec<ScreenOp>, Vec<Feed>) {
    let mut out = Vec::new();
    let mut feeds = Vec::new();
    for b in s.bytes() {
        feeds.push(ed.feed_key(b, files, &mut out));
    }
    (out, feeds)
}

#[test]
fn enter_gives_the_trimmed_line_and_records_it() {
    let mut ed = LineEditor::new();
    let files: Vec<Vec<u8>> = Vec::new();
    let mut out = Vec::new();
    ed.start_line(&mut out);
    assert_eq!(out, vec![ScreenOp::Prompt]);
    let (_, feeds) = typed(&mut ed, "  ls -l \r", &files);
    match feeds.last().unwrap() {
        Feed::Line(l) => assert_eq!(l, &b"ls -l".to_vec()),
        _ => panic!("expected a line"),
    }
    assert_eq!(ed.history, vec![b"ls -l".to_vec()]);
    assert_eq!(ed.hist_idx, -1);
}

#[test]
fn exit_quit_and_empty_lines_give_nothing() {
    let files: Vec<Vec<u8>> = Vec::new();
    for s in ["exit\n", "quit\n", "   \n"] {
        let mut ed = LineEditor::new();
        let (_, feeds) = typed(&mut ed, s, &files);
        assert!(matches!(feeds.last().unwrap(), Feed::Nothing));
    }
}

#[test]
fn ctrl_c_blanks_the_line() {
    let mut ed = LineEditor::new();
    let files: Vec<Vec<u8>> = Vec::new();
    let (_, _) = typed(&mut ed, "ab", &files);
    let mut out = Vec::new();
    let r = ed.feed_key(3, &files, &mut out);
    assert!(matches!(r, Feed::Nothing));
    assert!(ed.buf.is_empty());
    assert_eq!(ed.cursor, 0);
    assert_eq!(
        out,
        vec![
            ScreenOp::Left, ScreenOp::Left,
            ScreenOp::Put(b' '), ScreenOp::Put(b' '),
            ScreenOp::Put(8), ScreenOp::Put(8),
            ScreenOp::Put(b'^'), ScreenOp::Put(b'C'), ScreenOp::Put(b'\n'),
        ]
    );
}

#[test]
fn ctrl_d_ends_only_an_empty_line() {
    let files: Vec<Vec<u8>> = Vec::new();
    let mut ed = LineEditor::new();
    let mut out = Vec::new();
    assert!(matches!(ed.feed_key(4, &files, &mut out), Feed::Nothing));
    assert_eq!(out, vec![ScreenOp::Put(b'\n')]);
    let (_, _) = typed(&mut ed, "x", &files);
    let mut out2 = Vec::new();
    assert!(matches!(ed.feed_key(4, &files, &mut out2), Feed::More));
    assert!(out2.is_empty());
}

#[test]
fn insert_in_the_middle_redraws_the_rest() {
    let mut ed = LineEditor::new();
    let files: Vec<Vec<u8>> = Vec::new();
    typed(&mut ed, "ac", &files);
    let mut out = Vec::new();
    ed.feed_key(mizu::keyboard::KEY_LEFT, &files, &mut out);
    assert_eq!(out, vec![ScreenOp::Left]);
    let mut out = Vec::new();
    ed.feed_key(b'b', &files, &mut out);
    assert_eq!(ed.buf, b"abc".to_vec());
    assert_eq!(ed.cursor, 2);
    assert_eq!(out, vec![ScreenOp::Put(b'b'), ScreenOp::Put(b'c'), ScreenOp::Put(8)]);
}

#[test]
fn serial_escape_sequences_move_the_cursor() {
    let mut ed = LineEditor::new();
    let files: Vec<Vec<u8>> = Vec::new();
    typed(&mut ed, "abc", &files);
    typed(&mut ed, "\x1b[D\x1b[D", &files);
    assert_eq!(ed.cursor, 1);
    typed(&mut ed, "\x1b[H", &files);
    assert_eq!(ed.cursor, 0);
    typed(&mut ed, "\x1b[3~", &files);
    assert_eq!(ed.buf, b"bc".to_vec());
    typed(&mut ed, "\x1b[F", &files);
    assert_eq!(ed.cursor, 2);
    assert_eq!(ed.esc, 0);
}

#[test]
fn history_up_then_down_restores_the_line() {
    let mut ed = LineEditor::new();
    let files: Vec<Vec<u8>> = Vec::new();
    typed(&mut ed, "one\n", &files);
    let mut out = Vec::new();
    ed.start_line(&mut out);
    typed(&mut ed, "two\n", &files);
    ed.start_line(&mut out);
    typed(&mut ed, "dr", &files);
    typed(&mut ed, "\x1b[A", &files);
    assert_eq!(ed.buf, b"two".to_vec());
    typed(&mut ed, "\x1b[A", &files);
    assert_eq!(ed.buf, b"one".to_vec());
    typed(&mut ed, "\x1b[A", &files);
    assert_eq!(ed.buf, b"one".to_vec());
    typed(&mut ed, "\x1b[B\x1b[B", &files);
    assert_eq!(ed.buf, b"dr".to_vec());
    assert_eq!(ed.hist_idx, -1);
}

#[test]
fn history_keeps_sixteen_lines_and_skips_repeats() {
    let mut ed = LineEditor::new();
    let files: Vec<Vec<u8>> = Vec::new();
    let mut out = Vec::new();
    for i in 0..20 {
        ed.start_line(&mut out);
        typed(&mut ed, &format!("cmd{}\n", i), &files);
        ed.start_line(&mut out);
        typed(&mut ed, &format!("cmd{}\n", i), &files);
    }
    assert_eq!(ed.history.len(), 16);
    assert_eq!(ed.history[0], b"cmd4".to_vec());
    assert_eq!(ed.history[15], b"cmd19".to_vec());
}

#[test]
fn tab_completes_a_single_command_with_a_space() {
    let mut ed = LineEditor::new();
    let files: Vec<Vec<u8>> = Vec::new();
    typed(&mut ed, "hel", &files);
    let mut out = Vec::new();
    ed.tab_complete(&files, &mut out);
    assert_eq!(ed.buf, b"help ".to_vec());
    assert_eq!(ed.cursor, 5);
    assert_eq!(out, vec![ScreenOp::Put(b'p'), ScreenOp::Put(b' ')]);
}

#[test]
fn tab_completes_file_names_after_a_command() {
    let mut ed = LineEditor::new();
    let files = vec![b"readme.txt".to_vec(), b"init.elf".to_vec()];
    typed(&mut ed, "cat re", &files);
    let mut out = Vec::new();
    ed.tab_complete(&files, &mut out);
    assert_eq!(ed.buf, b"cat readme.txt ".to_vec());
}

#[test]
fn tab_adds_the_common_part_of_several_matches() {
    let mut ed = LineEditor::new();
    let files = vec![b"hexfile".to_vec()];
    typed(&mut ed, "he", &files);
    let mut out = Vec::new();
    ed.tab_complete(&files, &mut out);
    // help, head, hexdump, hexfile: nothing in common beyond "he" -> listing
    assert_eq!(ed.buf, b"he".to_vec());
    let mut expect = vec![ScreenOp::Put(b'\n')];
    for m in ["head", "help", "hexdump", "hexfile"] {
        expect.push(ScreenOp::Put(b' '));
        expect.push(ScreenOp::Put(b' '));
        for b in m.bytes() {
            expect.push(ScreenOp::Put(b));
        }
    }
    expect.push(ScreenOp::Put(b'\n'));
    expect.push(ScreenOp::Prompt);
    expect.push(ScreenOp::Put(b'h'));
    expect.push(ScreenOp::Put(b'e'));
    assert_eq!(out, expect);

    let mut ed2 = LineEditor::new();
    typed(&mut ed2, "hex", &files);
    let mut out2 = Vec::new();
    ed2.tab_complete(&files, &mut out2);
    assert_eq!(ed2.buf, b"hex".to_vec());
    let mut ed3 = LineEditor::new();
    let files3 = vec![b"hexdump.bin".to_vec()];
    typed(&mut ed3, "hexd", &files3);
    let mut out3 = Vec::new();
    ed3.tab_complete(&files3, &mut out3);
    assert_eq!(ed3.buf, b"hexdump".to_vec());
}

#[test]
fn tab_without_matches_does_nothing() {
    let mut ed = LineEditor::new();
    let files: Vec<Vec<u8>> = Vec::new();
    typed(&mut ed, "zz", &files);
    let mut out = Vec::new();
    ed.tab_complete(&files, &mut out);
    assert_eq!(ed.buf, b"zz".to_vec());
    assert!(out.is_empty());
}

#[test]
fn ctrl_l_redraws_the_line() {
    let mut ed = LineEditor::new();
    let files: Vec<Vec<u8>> = Vec::new();
    typed(&mut ed, "ab\x1b[D", &files);
    let mut out = Vec::new();
    ed.feed_key(0x0c, &files, &mut out);
    assert_eq!(out, vec![ScreenOp::Clear, ScreenOp::Prompt, ScreenOp::Put(b'a'), ScreenOp::Put(b'b'), ScreenOp::Put(8)]);
}

#[test]
fn the_line_holds_at_most_255_bytes() {
    let mut ed = LineEditor::new();
    let files: Vec<Vec<u8>> = Vec::new();
    let s: String = std::iter::repeat('x').take(300).collect();
    typed(&mut ed, &s, &files);
    assert_eq!(ed.buf.len(), 255);
}

use mizu::editor::{editor_read_key, join_lines, split_lines, Editor};
use mizu::keyboard::{KEY_DEL, KEY_DOWN, KEY_END, KEY_LEFT, KEY_RIGHT, KEY_UP};
use mizu::ramfs::FileSystem;

fn keys(ed: &mut Editor, fs: &mut FileSystem, ks: &[u8]) -> bool {
    let mut quit = false;
    for &k in ks {
        quit = ed.key(k, fs);
    }
    quit
}

#[test]
fn lines_split_like_str_lines() {
    assert_eq!(split_lines(b"a\nb\r\nc"), vec![b"a".to_vec(), b"b".to_vec(), b"c".to_vec()]);
    assert_eq!(split_lines(b"a\n\nb\n"), vec![b"a".to_vec(), b"".to_vec(), b"b".to_vec()]);
    assert_eq!(split_lines(b"x\r"), vec![b"x\r".to_vec()]);
    assert!(split_lines(b"").is_empty());
}

#[test]
fn opening_a_missing_file_gives_one_empty_line() {
    let ed = Editor::open("new.txt", None);
    assert_eq!(ed.lines, vec![Vec::<u8>::new()]);
    let bad = [0xffu8, 0xfe];
    let ed2 = Editor::open("bin", Some(&bad[..]));
    assert_eq!(ed2.lines, vec![Vec::<u8>::new()]);
}

#[test]
fn typing_enter_and_saving_writes_the_file() {
    let mut fs = FileSystem::new();
    let mut ed = Editor::open("notes.txt", None);
    keys(&mut ed, &mut fs, b"hi\rthere");
    assert_eq!(ed.lines, vec![b"hi".to_vec(), b"there".to_vec()]);
    assert!(ed.modified);
    assert!(!keys(&mut ed, &mut fs, &[0x13]));
    assert_eq!(ed.status, b" salvo!".to_vec());
    assert!(!ed.modified);
    assert_eq!(fs.file_read("notes.txt").unwrap(), b"hi\nthere");
}

#[test]
fn backspace_joins_lines_and_delete_joins_the_next() {
    let mut fs = FileSystem::new();
    let data = b"ab\ncd".to_vec();
    let mut ed = Editor::open("f", Some(&data[..]));
    keys(&mut ed, &mut fs, &[KEY_DOWN]);
    assert_eq!((ed.line_idx, ed.col_idx), (1, 0));
    keys(&mut ed, &mut fs, &[8]);
    assert_eq!(ed.lines, vec![b"abcd".to_vec()]);
    assert_eq!((ed.line_idx, ed.col_idx), (0, 2));
    keys(&mut ed, &mut fs, b"\r");
    keys(&mut ed, &mut fs, &[KEY_UP, KEY_END, KEY_DEL]);
    assert_eq!(ed.lines, vec![b"abcd".to_vec()]);
    keys(&mut ed, &mut fs, &[KEY_DEL]);
    assert_eq!(ed.lines, vec![b"abd".to_vec()]);
}

#[test]
fn arrows_wrap_between_lines() {
    let mut fs = FileSystem::new();
    let data = b"abc\nd".to_vec();
    let mut ed = Editor::open("f", Some(&data[..]));
    keys(&mut ed, &mut fs, &[KEY_END, KEY_RIGHT]);
    assert_eq!((ed.line_idx, ed.col_idx), (1, 0));
    keys(&mut ed, &mut fs, &[KEY_LEFT]);
    assert_eq!((ed.line_idx, ed.col_idx), (0, 3));
    keys(&mut ed, &mut fs, &[KEY_DOWN]);
    assert_eq!((ed.line_idx, ed.col_idx), (1, 1));
}

#[test]
fn quitting_with_changes_asks_twice() {
    let mut fs = FileSystem::new();
    let mut ed = Editor::open("f", None);
    keys(&mut ed, &mut fs, b"x");
    assert!(!keys(&mut ed, &mut fs, &[0x11]));
    assert!(ed.quit_pending);
    assert_eq!(ed.status, b" sem salvar! ^S para salvar, ^Q de novo para sair".to_vec());
    assert!(keys(&mut ed, &mut fs, &[0x18]));

    let mut ed2 = Editor::open("g", None);
    keys(&mut ed2, &mut fs, b"x");
    keys(&mut ed2, &mut fs, &[0x11]);
    // another key after the warning is dropped, the message stays once
    assert!(!keys(&mut ed2, &mut fs, b"y"));
    assert_eq!(ed2.lines, vec![b"x".to_vec()]);
    assert!(!ed2.status.is_empty());
    let ed3 = Editor::open("h", None);
    let mut ed3 = ed3;
    assert!(keys(&mut ed3, &mut fs, &[0x11]));
}

#[test]
fn typing_past_column_80_wraps() {
    let mut fs = FileSystem::new();
    let mut ed = Editor::open("w", None);
    let line = vec![b'a'; 81];
    keys(&mut ed, &mut fs, &line);
    assert_eq!(ed.lines.len(), 2);
    assert_eq!(ed.lines[0].len(), 80);
    assert_eq!(ed.lines[1], b"a".to_vec());
}

#[test]
fn scrolling_follows_the_cursor() {
    let mut fs = FileSystem::new();
    let mut ed = Editor::open("s", None);
    for _ in 0..30 {
        keys(&mut ed, &mut fs, b"\r");
    }
    assert_eq!(ed.line_idx, 30);
    assert_eq!(ed.scroll, 8);
    for _ in 0..30 {
        keys(&mut ed, &mut fs, &[KEY_UP]);
    }
    assert_eq!(ed.scroll, 0);
}

#[test]
fn the_frame_shows_title_text_and_status() {
    let data = b"hello".to_vec();
    let ed = Editor::open("a.txt", Some(&data[..]));
    let f = ed.render();
    assert_eq!(f.rows.len(), 25);
    assert_eq!(f.rows[0][0], (0xda, 0x70));
    assert_eq!(f.rows[0][79], (0xbf, 0x70));
    let title: Vec<u8> = f.rows[0][1..14].iter().map(|c| c.0).collect();
    assert_eq!(title, b" edit: a.txt ".to_vec());
    assert_eq!(f.rows[0][14], (0xc4, 0x70));
    assert_eq!(f.rows[1][0], (b'h', 0x07));
    assert_eq!(f.rows[1][5], (b' ', 0x07));
    let status: Vec<u8> = f.rows[24][1..34].iter().map(|c| c.0).collect();
    assert_eq!(status, b" ^S save  ^X quit   lin 1/1 col 1".to_vec());
    assert_eq!(f.cursor, (1, 0));
}

#[test]
fn editor_keys_decode_escape_sequences() {
    assert_eq!(editor_read_key(0, b'a'), (0, Some(b'a')));
    assert_eq!(editor_read_key(0, 0x1b), (1, None));
    assert_eq!(editor_read_key(1, b'x'), (0, None));
    assert_eq!(editor_read_key(1, b'['), (2, None));
    assert_eq!(editor_read_key(2, b'A'), (0, Some(KEY_UP)));
    assert_eq!(editor_read_key(2, b'3'), (3, None));
    assert_eq!(editor_read_key(3, b'~'), (0, Some(KEY_DEL)));
    assert_eq!(editor_read_key(3, b'x'), (0, None));
}

#[test]
fn saved_text_joins_lines_with_newlines() {
    assert_eq!(join_lines(&vec![b"a".to_vec(), b"".to_vec(), b"b".to_vec()]), b"a\n\nb".to_vec());
    assert_eq!(join_lines(&vec![]), Vec::<u8>::new());
}

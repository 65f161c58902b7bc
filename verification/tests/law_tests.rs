use mizu::collatz::{stopping_time_cached, stopping_time_vec};
use mizu::collatz_inverse::{enumerate_tree, inverse_report};
use mizu::kernel::Kernel;
use mizu::ramfs::FileSystem;
use mizu::serial::{put_char_outcome, put_char_step, PutStep};
use mizu::shell_parse::expand_path;
use mizu::usermem::UserMem;
use mizu::vga::Screen;
use std::collections::HashMap;

#[test]
fn expanding_a_path_twice_is_expanding_it_once() {
    for p in ["~", "~/src/main.rs", "~foo", "a/~/b", "/etc", ""] {
        let once = expand_path(p, "/home/user");
        assert_eq!(expand_path(&once, "/home/user"), once);
    }
    assert_eq!(expand_path("~foo", "/home/user"), "~foo");
    assert_eq!(expand_path("a/~/b", "/home/user"), "a/~/b");
}

#[test]
fn writing_text_in_two_parts_is_writing_it_at_once() {
    let mut whole = Screen::new();
    let echo_whole = whole.write_str("ab\ncd\n");
    let mut parts = Screen::new();
    let mut echo_parts = parts.write_str("ab\nc");
    echo_parts.extend(parts.write_str("d\n"));
    assert_eq!(whole.cells, parts.cells);
    assert_eq!((whole.row, whole.col), (parts.row, parts.col));
    assert_eq!(echo_whole, echo_parts);
    assert_eq!(echo_whole, b"ab\r\ncd\r\n".to_vec());
}

#[test]
fn a_written_file_reads_back_after_changes_to_other_names() {
    let mut fs = FileSystem::new();
    assert!(fs.file_write("/a.txt", b"alpha"));
    assert!(fs.file_write("/b.txt", b"beta"));
    assert!(fs.file_rename("/b.txt", "/c.txt"));
    assert!(fs.file_remove("/c.txt"));
    assert!(fs.file_write("/d.txt", b"delta"));
    assert_eq!(fs.file_read("/a.txt"), Some(&b"alpha"[..]));
    assert!(fs.file_exists("/a.txt"));
    assert_eq!(fs.file_read("/c.txt"), None);
}

#[test]
fn wait4_answers_as_waitpid_does() {
    let mut a = Kernel::new();
    a.init(0x1000);
    let mut b = Kernel::new();
    b.init(0x1000);
    let mut ma = UserMem::zeroed(0x1000, 16);
    let mut mb = UserMem::zeroed(0x1000, 16);
    let ra = a.sys_waitpid(&mut ma, -1, 0x1000, 0);
    let rb = b.sys_wait4(&mut mb, -1, 0x1000, 0, 0x1008);
    assert_eq!(ra, rb);
    assert_eq!(ra, -10);
    assert_eq!(ma.read_bytes(0x1000, 16), mb.read_bytes(0x1000, 16));
}

#[test]
fn the_hash_map_cache_keeps_the_stopping_time_found() {
    let mut cache: HashMap<u64, u64> = HashMap::new();
    assert_eq!(stopping_time_cached(27, &mut cache), 111);
    assert_eq!(cache.get(&27), Some(&111));
    assert_eq!(cache.get(&41), Some(&109));
    assert_eq!(stopping_time_cached(1, &mut cache), 0);
}

#[test]
fn the_vector_cache_keeps_the_stopping_time_found() {
    let mut cache = vec![0u64; 100];
    assert_eq!(stopping_time_vec(27, &mut cache), 111);
    assert_eq!(cache[27], 111);
    assert_eq!(cache[1], 0);
    let mut small = vec![0u64; 10];
    assert_eq!(stopping_time_vec(27, &mut small), 111);
    assert_eq!(small[5], 5);
    assert_eq!(small[8], 3);
    assert_eq!(small[9], 0);
}

#[test]
fn the_last_exponent_level_leaves_the_sequence_alone() {
    let mut v_seq = [0u32];
    let mut covered = vec![0u64];
    let mut total = 0u64;
    let mut max_n = 0u64;
    enumerate_tree(1, 0, &mut v_seq, 0, 0, &mut covered, 63, &mut total, &mut max_n);
    assert_eq!(covered, vec![(1u64 << 1) | (1u64 << 5) | (1u64 << 21)]);
    assert_eq!(total, 3);
    assert_eq!(max_n, 21);
    assert_eq!(v_seq, [0]);
}

#[test]
fn the_inverse_search_takes_a_limit_past_eighty() {
    let r = inverse_report(27, 100);
    assert_eq!(r.k, 41);
    assert_eq!(r.v_seq.len(), 41);
    assert_eq!(r.full_v, 70);
}

#[test]
fn put_char_sends_at_the_first_free_poll() {
    assert_eq!(put_char_outcome(&[0, 0x01, 0x20, 0x20]), Some(2));
    assert_eq!(put_char_outcome(&[0u8; 5]), None);
    assert_eq!(put_char_outcome(&vec![0u8; 10000]), None);
    assert_eq!(put_char_step(0, 0x60), PutStep::Send);
    assert_eq!(put_char_step(3, 0), PutStep::Poll);
    assert_eq!(put_char_step(9999, 0), PutStep::GiveUp);
}

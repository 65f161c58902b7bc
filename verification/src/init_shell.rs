//! The first user program's shell: reading a line, splitting it into at most 16 arguments
//! (double quotes keep spaces), the directory listing it reads from `getdents`, and the
//! buffers it hands to `open`, `unlink` and `execve`.
use vstd::prelude::*;
use vstd::utf8::*;
use crate::ramfs::str_from_utf8;
use crate::shell_cmds::spaced;

verus! {

/// The index of the first byte of `b` from `i` on that is `c`, or the length.
pub open spec fn find_byte(b: Seq<u8>, i: int, c: u8) -> int
    decreases b.len() - i,
{
    if i < 0 || i >= b.len() { b.len() as int } else if b[i] == c { i } else { find_byte(b, i + 1, c) }
}

/// The index of the first byte of `b` from `i` on that is not a space, or the length.
pub open spec fn skip_spaces(b: Seq<u8>, i: int) -> int
    decreases b.len() - i,
{
    if i < 0 || i >= b.len() { b.len() as int } else if b[i] != 0x20 { i } else { skip_spaces(b, i + 1) }
}

pub proof fn lemma_find_bounds(b: Seq<u8>, i: int, c: u8)
    requires
        0 <= i <= b.len(),
    ensures
        i <= find_byte(b, i, c) <= b.len(),
        find_byte(b, i, c) < b.len() ==> b[find_byte(b, i, c)] == c,
    decreases b.len() - i,
{
    if i < b.len() && b[i] != c {
        lemma_find_bounds(b, i + 1, c);
    }
}

pub proof fn lemma_skip_bounds(b: Seq<u8>, i: int)
    requires
        0 <= i <= b.len(),
    ensures
        i <= skip_spaces(b, i) <= b.len(),
        skip_spaces(b, i) < b.len() ==> b[skip_spaces(b, i)] != 0x20,
    decreases b.len() - i,
{
    if i < b.len() && b[i] == 0x20 {
        lemma_skip_bounds(b, i + 1);
    }
}

/// The arguments of `b` from `i` after those in `acc`: words between spaces, or the text
/// between double quotes (a missing closing quote ends it at the end of the line); pieces
/// that are not UTF-8 are left out; at most 16 arguments.
pub open spec fn args_from(b: Seq<u8>, i: int, acc: Seq<Seq<u8>>) -> Seq<Seq<u8>>
    decreases b.len() + 1 - i,
{
    if i < 0 || i >= b.len() || acc.len() >= 16 {
        acc
    } else {
        let s = skip_spaces(b, i);
        proof { lemma_skip_bounds(b, i); }
        if s >= b.len() {
            acc
        } else if b[s] == 0x22 {
            let e = find_byte(b, s + 1, 0x22);
            proof { lemma_find_bounds(b, s + 1, 0x22); }
            let piece = b.subrange(s + 1, e);
            args_from(b, e + 1, if valid_utf8(piece) { acc.push(piece) } else { acc })
        } else {
            let e = find_byte(b, s, 0x20);
            proof { lemma_find_bounds(b, s, 0x20); }
            let piece = b.subrange(s, e);
            args_from(b, e, if valid_utf8(piece) { acc.push(piece) } else { acc })
        }
    }
}

/// The arguments of a command line.
pub struct Args {
    pub argv: Vec<Vec<u8>>,
    pub argc: usize,
}

/// Splits a command line into arguments (see `args_from`).
pub fn parse_args(line: &[u8]) -> (r: Args)
    requires
        line@.len() < usize::MAX,
    ensures
        r.argc == r.argv@.len(),
        r.argv@.map_values(|a: Vec<u8>| a@) == args_from(line@, 0, Seq::empty()),
        r.argc <= 16,
{
    let b = line;
    let mut argv: Vec<Vec<u8>> = Vec::new();
    let mut i: usize = 0;
    let ghost target = args_from(b@, 0, Seq::empty());
    assert(argv@.map_values(|a: Vec<u8>| a@) =~= Seq::<Seq<u8>>::empty());
    while i < b.len() && argv.len() < 16
        invariant
            b@.len() < usize::MAX,
            i <= b@.len() + 1,
            argv@.len() <= 16,
            args_from(b@, i as int, argv@.map_values(|a: Vec<u8>| a@)) == target,
        ensures
            i >= b@.len() || argv@.len() >= 16,
            args_from(b@, i as int, argv@.map_values(|a: Vec<u8>| a@)) == target,
        decreases b@.len() + 1 - i,
    {
        let ghost acc = argv@.map_values(|a: Vec<u8>| a@);
        let ghost i0 = i as int;
        proof { lemma_skip_bounds(b@, i as int); }
        while i < b.len() && b[i] == 0x20
            invariant
                i0 <= i <= b@.len(),
                skip_spaces(b@, i as int) == skip_spaces(b@, i0),
            decreases b@.len() - i,
        {
            i = i + 1;
        }
        if i >= b.len() {
            assert(args_from(b@, i0, acc) == acc);
            break;
        }
        let start = i;
        if b[i] == 0x22 {
            i = i + 1;
            let inner = i;
            proof { lemma_find_bounds(b@, inner as int, 0x22); }
            while i < b.len() && b[i] != 0x22
                invariant
                    inner <= i <= b@.len(),
                    find_byte(b@, i as int, 0x22) == find_byte(b@, inner as int, 0x22),
                decreases b@.len() - i,
            {
                i = i + 1;
            }
            let piece = copy_range(b, inner, i);
            let ghost e = i as int;
            if str_from_utf8(piece.as_slice()).is_some() {
                let ghost before = argv@.map_values(|a: Vec<u8>| a@);
                argv.push(piece);
                assert(argv@.map_values(|a: Vec<u8>| a@) =~= before.push(b@.subrange(inner as int, i as int)));
            }
            i = i + 1;
            proof {
                assert(skip_spaces(b@, i0) == start);
                assert(find_byte(b@, start + 1, 0x22) == e);
                assert(args_from(b@, i0, acc) == args_from(b@, e + 1,
                    if valid_utf8(b@.subrange(start + 1, e)) { acc.push(b@.subrange(start + 1, e)) } else { acc }));
            }
        } else {
            proof { lemma_find_bounds(b@, start as int, 0x20); }
            while i < b.len() && b[i] != 0x20
                invariant
                    start <= i <= b@.len(),
                    find_byte(b@, i as int, 0x20) == find_byte(b@, start as int, 0x20),
                decreases b@.len() - i,
            {
                i = i + 1;
            }
            let piece = copy_range(b, start, i);
            if str_from_utf8(piece.as_slice()).is_some() {
                let ghost before = argv@.map_values(|a: Vec<u8>| a@);
                argv.push(piece);
                assert(argv@.map_values(|a: Vec<u8>| a@) =~= before.push(b@.subrange(start as int, i as int)));
            }
            proof {
                assert(skip_spaces(b@, i0) == start);
                assert(find_byte(b@, start as int, 0x20) == i);
                assert(args_from(b@, i0, acc) == args_from(b@, i as int,
                    if valid_utf8(b@.subrange(start as int, i as int)) { acc.push(b@.subrange(start as int, i as int)) } else { acc }));
            }
        }
    }
    assert(args_from(b@, i as int, argv@.map_values(|a: Vec<u8>| a@)) == argv@.map_values(|a: Vec<u8>| a@));
    let argc = argv.len();
    Args { argv, argc }
}

/// The bytes `b[from..to]`.
fn copy_range(b: &[u8], from: usize, to: usize) -> (r: Vec<u8>)
    requires
        from <= to <= b@.len(),
    ensures
        r@ == b@.subrange(from as int, to as int),
{
    let mut r: Vec<u8> = Vec::new();
    let mut k = from;
    while k < to
        invariant
            from <= k <= to <= b@.len(),
            r@ == b@.subrange(from as int, k as int),
        decreases to - k,
    {
        r.push(b[k]);
        assert(r@ =~= b@.subrange(from as int, k + 1));
        k = k + 1;
    }
    r
}

/// The line of the first `n` bytes read: up to the first newline or carriage return; none
/// when nothing was read or the line is not UTF-8.
pub open spec fn line_of(b: Seq<u8>, n: int) -> Option<Seq<u8>> {
    let r = b.subrange(0, n);
    let e = if find_byte(r, 0, 10) < find_byte(r, 0, 13) { find_byte(r, 0, 10) } else { find_byte(r, 0, 13) };
    if n == 0 || !valid_utf8(r.subrange(0, e)) { None } else { Some(r.subrange(0, e)) }
}

/// The line in the first `n` bytes of `buf` (see `line_of`).
pub fn read_line(buf: &[u8], n: usize) -> (r: Option<Vec<u8>>)
    requires
        n <= buf@.len(),
    ensures
        match r {
            Some(l) => line_of(buf@, n as int) == Some(l@),
            None => line_of(buf@, n as int) is None,
        },
{
    if n == 0 {
        return None;
    }
    let ghost rr = buf@.subrange(0, n as int);
    let mut end: usize = 0;
    proof {
        lemma_find_bounds(rr, 0, 10);
        lemma_find_bounds(rr, 0, 13);
    }
    while end < n && buf[end] != 10 && buf[end] != 13
        invariant
            end <= n <= buf@.len(),
            rr == buf@.subrange(0, n as int),
            find_byte(rr, end as int, 10) == find_byte(rr, 0, 10),
            find_byte(rr, end as int, 13) == find_byte(rr, 0, 13),
        decreases n - end,
    {
        assert(rr[end as int] == buf@[end as int]);
        end = end + 1;
    }
    proof {
        lemma_find_bounds(rr, end as int, 10);
        lemma_find_bounds(rr, end as int, 13);
        if end < n {
            assert(rr[end as int] == buf@[end as int]);
        }
        let e = if find_byte(rr, 0, 10) < find_byte(rr, 0, 13) { find_byte(rr, 0, 10) } else { find_byte(rr, 0, 13) };
        assert(e == end);
    }
    let line = copy_range(buf, 0, end);
    assert(line@ =~= rr.subrange(0, end as int));
    if str_from_utf8(line.as_slice()).is_some() { Some(line) } else { None }
}

/// What `echo` writes: the arguments after the first, with spaces between, then a newline.
pub open spec fn echo_line(argv: Seq<Seq<u8>>) -> Seq<u8> {
    if argv.len() <= 1 { seq![10u8] } else { spaced(argv.subrange(1, argv.len() as int)) + seq![10u8] }
}

/// `echo` (see `echo_line`).
pub fn cmd_echo(args: &Args) -> (r: Vec<u8>)
    requires
        args.argc == args.argv@.len(),
    ensures
        r@ == echo_line(args.argv@.map_values(|a: Vec<u8>| a@)),
{
    let ghost a = args.argv@.map_values(|a: Vec<u8>| a@);
    let mut out: Vec<u8> = Vec::new();
    if args.argc == 0 {
        out.push(10);
        return out;
    }
    let mut i: usize = 1;
    assert(a.subrange(1, 1) =~= Seq::<Seq<u8>>::empty());
    assert(spaced(Seq::<Seq<u8>>::empty()) =~= Seq::<u8>::empty());
    while i < args.argc
        invariant
            args.argc == args.argv@.len(),
            a == args.argv@.map_values(|a: Vec<u8>| a@),
            1 <= i <= args.argc,
            out@ == spaced(a.subrange(1, i as int)),
        decreases args.argc - i,
    {
        let ghost before = out@;
        if i > 1 {
            out.push(0x20);
        }
        let mut k: usize = 0;
        let ghost mid = out@;
        while k < args.argv[i].len()
            invariant
                i < args.argv@.len(),
                k <= args.argv@[i as int]@.len(),
                out@ == mid + args.argv@[i as int]@.subrange(0, k as int),
            decreases args.argv@[i as int]@.len() - k,
        {
            out.push(args.argv[i][k]);
            assert(out@ =~= mid + args.argv@[i as int]@.subrange(0, k + 1));
            k = k + 1;
        }
        proof {
            let t = a.subrange(1, i + 1);
            assert(t.drop_last() =~= a.subrange(1, i as int));
            assert(t.last() == args.argv@[i as int]@);
            assert(args.argv@[i as int]@.subrange(0, args.argv@[i as int]@.len() as int) =~= args.argv@[i as int]@);
            assert(out@ =~= spaced(t));
        }
        i = i + 1;
    }
    out.push(10);
    out
}

/// The 128-byte buffer that carries a path to the kernel: at most 127 of its bytes, then
/// zeros.
pub open spec fn path_buffer_of(p: Seq<u8>) -> Seq<u8> {
    let len = if p.len() < 127 { p.len() as int } else { 127 };
    Seq::new(128, |i: int| if i < len { p[i] } else { 0u8 })
}

/// The path buffer of `p` (see `path_buffer_of`).
pub fn path_buffer(p: &[u8]) -> (r: [u8; 128])
    ensures
        r@ == path_buffer_of(p@),
{
    let mut buf = [0u8; 128];
    let len = if p.len() < 127 { p.len() } else { 127 };
    let mut i: usize = 0;
    while i < len
        invariant
            len <= 127,
            len <= p@.len(),
            i <= len,
            forall|k: int| 0 <= k < i ==> buf@[k] == p@[k],
            forall|k: int| i <= k < 128 ==> buf@[k] == 0u8,
        decreases len - i,
    {
        buf[i] = p[i];
        i = i + 1;
    }
    assert(buf@ =~= path_buffer_of(p@));
    buf
}

/// The argument strings laid out for `execve`: each argument and a zero byte, in a buffer of
/// 256 bytes, as long as the next one fits; with the offsets where they start.
pub open spec fn argv_layout(argv: Seq<Seq<u8>>, k: int) -> (Seq<u8>, Seq<u32>)
    decreases k,
{
    if k <= 0 {
        (Seq::empty(), Seq::empty())
    } else {
        let (bytes, offs) = argv_layout(argv, k - 1);
        if offs.len() < k - 1 || bytes.len() + argv[k - 1].len() + 1 > 256 {
            (bytes, offs)
        } else {
            (bytes + argv[k - 1] + seq![0u8], offs.push(bytes.len() as u32))
        }
    }
}

/// The argument strings and where they start (see `argv_layout`), for at most 16 arguments.
pub fn exec_argv(args: &Args) -> (r: (Vec<u8>, Vec<u32>))
    requires
        args.argc == args.argv@.len(),
        args.argc <= 16,
    ensures
        (r.0@, r.1@) == argv_layout(args.argv@.map_values(|a: Vec<u8>| a@), args.argc as int),
        r.0@.len() <= 256,
{
    let ghost a = args.argv@.map_values(|a: Vec<u8>| a@);
    let mut bytes: Vec<u8> = Vec::new();
    let mut offs: Vec<u32> = Vec::new();
    let mut i: usize = 0;
    while i < args.argc
        invariant
            args.argc == args.argv@.len(),
            a == args.argv@.map_values(|a: Vec<u8>| a@),
            i <= args.argc,
            bytes@.len() <= 256,
            offs@.len() == i,
            (bytes@, offs@) == argv_layout(a, i as int),
        decreases args.argc - i,
    {
        let s = &args.argv[i];
        if bytes.len() >= 256 || s.len() > 255 - bytes.len() {
            proof {
                assert(a[i as int] == s@);
                lemma_layout_stops(a, i as int, args.argc as int);
            }
            return (bytes, offs);
        }
        let off = bytes.len() as u32;
        let ghost before = bytes@;
        let mut k: usize = 0;
        while k < s.len()
            invariant
                k <= s@.len(),
                bytes@ == before + s@.subrange(0, k as int),
            decreases s@.len() - k,
        {
            bytes.push(s[k]);
            assert(bytes@ =~= before + s@.subrange(0, k + 1));
            k = k + 1;
        }
        bytes.push(0);
        offs.push(off);
        proof {
            assert(s@.subrange(0, s@.len() as int) =~= s@);
            assert(a[i as int] == s@);
        }
        i = i + 1;
    }
    (bytes, offs)
}

/// Once an argument does not fit, the layout takes no more.
proof fn lemma_layout_stops(a: Seq<Seq<u8>>, i: int, n: int)
    requires
        0 <= i <= n,
        i == n || (argv_layout(a, i).0.len() + a[i].len() + 1 > 256 && argv_layout(a, i).1.len() == i),
    ensures
        argv_layout(a, n) == argv_layout(a, i),
    decreases n - i,
{
    if i < n {
        let l1 = argv_layout(a, i + 1);
        assert(l1 == argv_layout(a, i));
        lemma_layout_after(a, i + 1, n);
    }
}

/// After the layout has stopped short, it stays as it is.
proof fn lemma_layout_after(a: Seq<Seq<u8>>, j: int, n: int)
    requires
        1 <= j <= n,
        argv_layout(a, j).1.len() < j || j == n,
    ensures
        argv_layout(a, n) == argv_layout(a, j),
    decreases n - j,
{
    if j < n {
        assert(argv_layout(a, j + 1) == argv_layout(a, j));
        lemma_layout_after(a, j + 1, n);
    }
}

} // verus!

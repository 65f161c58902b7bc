//! The kernel shell's commands. Each gives the bytes it writes to the screen, or the screen
//! operation it asks for, and acts on the file system; the file system is seen through its
//! image files and its run-time files.
use vstd::prelude::*;
use vstd::string::*;
use vstd::utf8::*;
use crate::ramfs::{FileSystem, Entry, find, without, add_new_names, spec_file_list, str_from_utf8};
use crate::shell_text::{decimal, print_u32, hex_digit, print_hex_byte, line_count, word_count, wc_counts, is_ws, is_whitespace};
use crate::shell_parse::{tokenize, parse_pipeline, spec_tokenize, spec_parse_pipeline, Pipeline, ParseError, pipeline_commands};
use crate::text::{str_eq, substring};
use crate::editor::{split_text, split_lines, deep_lines};
use crate::completion::command_names;

verus! {

/// The file system as plain values: the image files, and the run-time files once one was
/// written.
pub struct FsView {
    pub image: Seq<Entry>,
    pub ram: Option<Seq<Entry>>,
}

pub open spec fn fs_view(fs: FileSystem) -> FsView {
    FsView { image: fs.image(), ram: if fs.ram_files is Some { Some(fs.ram()) } else { None } }
}

pub open spec fn ram_of(v: FsView) -> Seq<Entry> {
    match v.ram { Some(r) => r, None => seq![] }
}

/// What reading `name` gives.
pub open spec fn fs_lookup(v: FsView, name: Seq<char>) -> Option<Seq<u8>> {
    match find(ram_of(v), name) { Some(d) => Some(d), None => find(v.image, name) }
}

/// The file system after writing `data` as `name`.
pub open spec fn fs_write(v: FsView, name: Seq<char>, data: Seq<u8>) -> FsView {
    FsView { image: v.image, ram: Some(without(ram_of(v), name).push((name, data))) }
}

/// The file system after deleting the run-time file `name`.
pub open spec fn fs_remove(v: FsView, name: Seq<char>) -> FsView {
    FsView { image: v.image, ram: match v.ram { Some(r) => Some(without(r, name)), None => None } }
}

/// Whether deleting `name` deletes a file.
pub open spec fn fs_removes(v: FsView, name: Seq<char>) -> bool {
    match v.ram { Some(r) => find(r, name) is Some, None => false }
}

/// The names `ls` lists.
pub open spec fn fs_names(v: FsView) -> Seq<Seq<char>> {
    add_new_names(v.image.map_values(|e: Entry| e.0), ram_of(v), 0)
}

/// The UTF-8 bytes of a text.
pub open spec fn text_of(s: &str) -> Seq<u8> {
    s.spec_bytes()
}

/// The bytes of a literal text.
fn text(s: &str) -> (r: Vec<u8>)
    ensures
        r@ == text_of(s),
{
    s.as_bytes_vec()
}

/// Each of `ls` followed by a newline.
pub open spec fn lines_text(ls: Seq<Seq<u8>>) -> Seq<u8>
    decreases ls.len(),
{
    if ls.len() == 0 { Seq::empty() } else { lines_text(ls.drop_last()) + ls.last() + seq![10u8] }
}

/// `ls` with a space between each two.
pub open spec fn spaced(ls: Seq<Seq<u8>>) -> Seq<u8>
    decreases ls.len(),
{
    if ls.len() == 0 { Seq::empty() } else if ls.len() == 1 { ls[0] } else { spaced(ls.drop_last()) + seq![0x20u8] + ls.last() }
}

/// The UTF-8 bytes of each text.
pub open spec fn encoded(ls: Seq<Seq<char>>) -> Seq<Seq<u8>> {
    ls.map_values(|s: Seq<char>| encode_utf8(s))
}

/// Each of `ls` after two spaces.
pub open spec fn indented(ls: Seq<Seq<u8>>) -> Seq<u8>
    decreases ls.len(),
{
    if ls.len() == 0 { Seq::empty() } else { indented(ls.drop_last()) + seq![0x20u8, 0x20] + ls.last() }
}

/// What `help` writes.
pub open spec fn help_text() -> Seq<u8> {
    text_of("comandos:\n") + indented(command_names()) + text_of("\n\natalhos:\n  Ctrl+C  — cancela linha\n  Ctrl+D  — EOF\n  Ctrl+L  — limpa tela\n  Ctrl+U  — apaga linha\n  Tab     — completar\n  ▲/▼     — histórico\n  ◀/▶     — mover cursor\n  Home    — início da linha\n  End     — fim da linha\n  Del     — apagar após cursor\n")
}

/// The message for a missing file, with its name.
pub open spec fn not_found(name: Seq<char>) -> Seq<u8> {
    text_of("mizu: arquivo não encontrado: ") + encode_utf8(name) + seq![10u8]
}

/// What `echo` writes.
pub open spec fn echo_text(args: Seq<Seq<char>>) -> Seq<u8> {
    spaced(encoded(args)) + seq![10u8]
}

/// What `date` writes at `ticks` timer ticks.
pub open spec fn date_text(ticks: u32) -> Seq<u8> {
    text_of("ticks: ") + decimal(ticks as nat) + seq![10u8]
}

/// What `yes` writes: twenty lines of `y`.
pub open spec fn yes_text() -> Seq<u8> {
    Seq::new(40, |i: int| if i % 2 == 0 { 0x79u8 } else { 10u8 })
}

/// What `ls` writes.
pub open spec fn ls_text(v: FsView) -> Seq<u8> {
    if fs_names(v).len() == 0 { text_of("(vazio)\n") } else { lines_text(encoded(fs_names(v))) }
}

/// What `cat` writes.
pub open spec fn cat_text(v: FsView, args: Seq<Seq<char>>) -> Seq<u8> {
    if args.len() == 0 {
        text_of("uso: cat <arquivo>\n")
    } else {
        match fs_lookup(v, args[0]) {
            Some(d) => (if valid_utf8(d) { d } else { text_of("(binário)") })
                + (if d.len() > 0 && d.last() != 10 { seq![10u8] } else { Seq::empty() }),
            None => not_found(args[0]),
        }
    }
}

/// The file `head`, `wc` and `hexdump` read: the first argument, or `help`.
pub open spec fn target_name(args: Seq<Seq<char>>) -> Seq<char> {
    if args.len() == 0 { "help"@ } else { args[0] }
}

/// The lines of a file's text (none when it is not UTF-8).
pub open spec fn text_lines(d: Seq<u8>) -> Seq<Seq<u8>> {
    if valid_utf8(d) { split_text(d) } else { Seq::empty() }
}

/// What `head` writes.
pub open spec fn head_text(v: FsView, args: Seq<Seq<char>>) -> Seq<u8> {
    match fs_lookup(v, target_name(args)) {
        Some(d) => lines_text(text_lines(d).take(if text_lines(d).len() < 10 { text_lines(d).len() as int } else { 10 })),
        None => not_found(target_name(args)),
    }
}

/// What `wc` writes.
pub open spec fn wc_text(v: FsView, args: Seq<Seq<char>>) -> Seq<u8> {
    match fs_lookup(v, target_name(args)) {
        Some(d) => {
            let s = if valid_utf8(d) { decode_utf8(d) } else { Seq::empty() };
            text_of("  linhas: ") + decimal((line_count(s) as u32) as nat) + text_of("  palavras: ")
                + decimal((word_count(s, s.len() as int) as u32) as nat) + text_of("  bytes: ")
                + decimal((d.len() as u32) as nat) + seq![10u8]
        },
        None => not_found(target_name(args)),
    }
}

/// The hexadecimal bytes `d[i..i + n]`, each followed by a space.
pub open spec fn hex_bytes(d: Seq<u8>, i: int, n: int) -> Seq<u8>
    decreases n,
{
    if n <= 0 { Seq::empty() } else {
        hex_bytes(d, i, n - 1) + seq![hex_digit(d[i + n - 1] as int / 16), hex_digit(d[i + n - 1] as int % 16), 0x20u8]
    }
}

/// The bytes `d[i..i + n]` as text, a dot for each that is not printable.
pub open spec fn shown_bytes(d: Seq<u8>, i: int, n: int) -> Seq<u8>
    decreases n,
{
    if n <= 0 { Seq::empty() } else {
        let b = d[i + n - 1];
        shown_bytes(d, i, n - 1) + seq![if 0x20 <= b <= 0x7e { b } else { 0x2eu8 }]
    }
}

/// The hexdump line of the (up to 16) bytes from `i`, of the first `len`.
pub open spec fn hex_line(d: Seq<u8>, i: int, len: int) -> Seq<u8> {
    let n = if len - i < 16 { len - i } else { 16 };
    decimal(i as nat) + seq![0x3au8, 0x20] + hex_bytes(d, i, n) + seq![0x20u8, 0x7c] + shown_bytes(d, i, n) + seq![0x7cu8, 10]
}

/// The first `k` hexdump lines.
pub open spec fn hex_lines(d: Seq<u8>, len: int, k: int) -> Seq<u8>
    decreases k,
{
    if k <= 0 { Seq::empty() } else { hex_lines(d, len, k - 1) + hex_line(d, 16 * (k - 1), len) }
}

/// What `hexdump` writes: its first 256 bytes, 16 to a line.
pub open spec fn hexdump_text(v: FsView, args: Seq<Seq<char>>) -> Seq<u8> {
    match fs_lookup(v, target_name(args)) {
        Some(d) => {
            let len = if d.len() < 256 { d.len() as int } else { 256 };
            hex_lines(d, len, (len + 15) / 16)
        },
        None => not_found(target_name(args)),
    }
}

/// What reading `name` gives (see `fs_lookup`).
pub fn lookup<'a>(fs: &'a FileSystem, name: &str) -> (r: Option<&'a [u8]>)
    ensures
        match r {
            Some(d) => fs_lookup(fs_view(*fs), name@) == Some(d@),
            None => fs_lookup(fs_view(*fs), name@) is None,
        },
{
    fs.file_read(name)
}

/// `help`.
pub fn cmd_help() -> (r: Vec<u8>)
    ensures
        r@ == help_text(),
{
    let mut out = text("comandos:\n");
    let names = crate::completion::command_list();
    let ghost ns = command_names();
    let ghost start = out@;
    let mut i: usize = 0;
    while i < names.len()
        invariant
            i <= names@.len(),
            crate::line_editor::deep(names@) == ns,
            out@ == start + indented(ns.take(i as int)),
        decreases names@.len() - i,
    {
        out.push(0x20);
        out.push(0x20);
        let ghost o1 = out@;
        let mut k: usize = 0;
        while k < names[i].len()
            invariant
                i < names@.len(),
                k <= names@[i as int]@.len(),
                out@ == o1 + names@[i as int]@.subrange(0, k as int),
            decreases names@[i as int]@.len() - k,
        {
            out.push(names[i][k]);
            assert(out@ =~= o1 + names@[i as int]@.subrange(0, k + 1));
            k = k + 1;
        }
        proof {
            assert(names@[i as int]@.subrange(0, names@[i as int]@.len() as int) =~= names@[i as int]@);
            assert(ns[i as int] == names@[i as int]@);
            assert(ns.take(i + 1).drop_last() =~= ns.take(i as int));
            assert(out@ =~= start + indented(ns.take(i + 1)));
        }
        i = i + 1;
    }
    assert(ns.take(ns.len() as int) =~= ns);
    let mut tail = text("\n\natalhos:\n  Ctrl+C  — cancela linha\n  Ctrl+D  — EOF\n  Ctrl+L  — limpa tela\n  Ctrl+U  — apaga linha\n  Tab     — completar\n  ▲/▼     — histórico\n  ◀/▶     — mover cursor\n  Home    — início da linha\n  End     — fim da linha\n  Del     — apagar após cursor\n");
    out.append(&mut tail);
    out
}

/// Appends the bytes of `s`.
fn push_text(out: &mut Vec<u8>, s: &str)
    ensures
        final(out)@ == old(out)@ + text_of(s),
{
    let mut t = text(s);
    out.append(&mut t);
}

/// Appends the bytes of `d`.
fn push_bytes(out: &mut Vec<u8>, d: &[u8])
    ensures
        final(out)@ == old(out)@ + d@,
{
    let mut i: usize = 0;
    let ghost o = out@;
    while i < d.len()
        invariant
            i <= d@.len(),
            out@ == o + d@.subrange(0, i as int),
        decreases d@.len() - i,
    {
        out.push(d[i]);
        assert(out@ =~= o + d@.subrange(0, i + 1));
        i = i + 1;
    }
    assert(d@.subrange(0, d@.len() as int) =~= d@);
}

/// `echo`: the arguments with spaces between them, then a newline.
pub fn cmd_echo(args: &[String]) -> (r: Vec<u8>)
    ensures
        r@ == echo_text(args@.map_values(|s: String| s@)),
{
    let ghost a = args@.map_values(|s: String| s@);
    let mut out: Vec<u8> = Vec::new();
    let mut i: usize = 0;
    while i < args.len()
        invariant
            a == args@.map_values(|s: String| s@),
            i <= args@.len(),
            out@ == spaced(encoded(a.take(i as int))),
        decreases args@.len() - i,
    {
        let ghost before = out@;
        if i > 0 {
            out.push(0x20);
        }
        let b = args[i].as_str().as_bytes_vec();
        push_bytes(&mut out, b.as_slice());
        proof {
            let e = encoded(a.take(i + 1));
            assert(e.drop_last() =~= encoded(a.take(i as int)));
            assert(e.last() == encode_utf8(args@[i as int]@));
            if i == 0 {
                assert(out@ =~= spaced(e));
            } else {
                assert(out@ =~= spaced(e));
            }
        }
        i = i + 1;
    }
    assert(a.take(a.len() as int) =~= a);
    out.push(10);
    out
}

/// `uname`.
pub fn cmd_uname() -> (r: Vec<u8>)
    ensures
        r@ == text_of("Mizu OS\nKernel: mizu\nArch: i686\n"),
{
    text("Mizu OS\nKernel: mizu\nArch: i686\n")
}

/// `whoami`.
pub fn cmd_whoami() -> (r: Vec<u8>)
    ensures
        r@ == text_of("mizu\n"),
{
    text("mizu\n")
}

/// `date`: the timer ticks since boot.
pub fn cmd_date(ticks: u32) -> (r: Vec<u8>)
    ensures
        r@ == date_text(ticks),
{
    let mut out = text("ticks: ");
    let mut d = print_u32(ticks);
    out.append(&mut d);
    out.push(10);
    out
}

/// `yes`: twenty lines of `y`.
pub fn cmd_yes() -> (r: Vec<u8>)
    ensures
        r@ == yes_text(),
{
    let mut out: Vec<u8> = Vec::new();
    let mut i: usize = 0;
    while i < 20
        invariant
            i <= 20,
            out@ == Seq::new(2 * i as nat, |k: int| if k % 2 == 0 { 0x79u8 } else { 10u8 }),
        decreases 20 - i,
    {
        out.push(0x79);
        out.push(10);
        assert(out@ =~= Seq::new(2 * (i + 1) as nat, |k: int| if k % 2 == 0 { 0x79u8 } else { 10u8 }));
        i = i + 1;
    }
    out
}

/// `ls`: each file name on a line of its own.
pub fn cmd_ls(fs: &FileSystem) -> (r: Vec<u8>)
    ensures
        r@ == ls_text(fs_view(*fs)),
{
    let files = fs.file_list();
    assert(files.deep_view() == fs_names(fs_view(*fs)));
    if files.len() == 0 {
        return text("(vazio)\n");
    }
    let ghost names = files.deep_view();
    let mut out: Vec<u8> = Vec::new();
    let mut i: usize = 0;
    while i < files.len()
        invariant
            names == files.deep_view(),
            i <= files@.len(),
            out@ == lines_text(encoded(names.take(i as int))),
        decreases files@.len() - i,
    {
        let b = files[i].as_str().as_bytes_vec();
        push_bytes(&mut out, b.as_slice());
        out.push(10);
        proof {
            let e = encoded(names.take(i + 1));
            assert(e.drop_last() =~= encoded(names.take(i as int)));
            assert(e.last() == encode_utf8(files@[i as int]@));
            assert(out@ =~= lines_text(e));
        }
        i = i + 1;
    }
    assert(names.take(names.len() as int) =~= names);
    out
}

/// The message for a missing file, with its name.
fn missing(name: &str) -> (r: Vec<u8>)
    ensures
        r@ == not_found(name@),
{
    let mut out = text("mizu: arquivo não encontrado: ");
    let b = name.as_bytes_vec();
    push_bytes(&mut out, b.as_slice());
    out.push(10);
    out
}

/// `cat`: the file's text (or `(binário)` when it is not UTF-8), ended by a newline.
pub fn cmd_cat(fs: &FileSystem, args: &[String]) -> (r: Vec<u8>)
    ensures
        r@ == cat_text(fs_view(*fs), args@.map_values(|s: String| s@)),
{
    if args.len() == 0 {
        return text("uso: cat <arquivo>\n");
    }
    let name = args[0].as_str();
    match lookup(fs, name) {
        Some(data) => {
            let mut out: Vec<u8> = Vec::new();
            if str_from_utf8(data).is_some() {
                push_bytes(&mut out, data);
            } else {
                push_text(&mut out, "(binário)");
            }
            if data.len() > 0 && data[data.len() - 1] != 10 {
                out.push(10);
            }
            out
        },
        None => missing(name),
    }
}

/// What `cp` does: the file system after it and what it writes.
pub open spec fn cp_effect(v: FsView, args: Seq<Seq<char>>) -> (FsView, Seq<u8>) {
    if args.len() < 2 {
        (v, text_of("uso: cp <origem> <destino>\n"))
    } else {
        match fs_lookup(v, args[0]) {
            Some(d) => (fs_write(v, args[1], d), text_of("ok\n")),
            None => (v, text_of("mizu: origem não encontrada: ") + encode_utf8(args[0]) + seq![10u8]),
        }
    }
}

/// What `rm` does to each of `names` in turn.
pub open spec fn rm_run(v: FsView, names: Seq<Seq<char>>) -> (FsView, Seq<u8>)
    decreases names.len(),
{
    if names.len() == 0 {
        (v, Seq::empty())
    } else {
        let (v1, t1) = rm_run(v, names.drop_last());
        let n = names.last();
        let msg = if fs_removes(v1, n) { text_of("removido: ") } else { text_of("mizu: não encontrado: ") };
        (fs_remove(v1, n), t1 + msg + encode_utf8(n) + seq![10u8])
    }
}

/// What `rm` does.
pub open spec fn rm_effect(v: FsView, args: Seq<Seq<char>>) -> (FsView, Seq<u8>) {
    if args.len() == 0 { (v, text_of("uso: rm <arquivo>\n")) } else { rm_run(v, args) }
}

/// What `touch` does to each of `names` in turn: a missing file is created empty.
pub open spec fn touch_run(v: FsView, names: Seq<Seq<char>>) -> (FsView, Seq<u8>)
    decreases names.len(),
{
    if names.len() == 0 {
        (v, Seq::empty())
    } else {
        let (v1, t1) = touch_run(v, names.drop_last());
        let n = names.last();
        if fs_lookup(v1, n) is Some {
            (v1, t1)
        } else {
            (fs_write(v1, n, Seq::empty()), t1 + text_of("criado: ") + encode_utf8(n) + seq![10u8])
        }
    }
}

/// What `touch` does.
pub open spec fn touch_effect(v: FsView, args: Seq<Seq<char>>) -> (FsView, Seq<u8>) {
    if args.len() == 0 { (v, text_of("uso: touch <arquivo>\n")) } else { touch_run(v, args) }
}

/// `head`: the first ten lines of the file.
pub fn cmd_head(fs: &FileSystem, args: &[String]) -> (r: Vec<u8>)
    ensures
        r@ == head_text(fs_view(*fs), args@.map_values(|s: String| s@)),
{
    let help = String::from_str("help");
    let name = if args.len() == 0 { help.as_str() } else { args[0].as_str() };
    assert(name@ == target_name(args@.map_values(|s: String| s@)));
    match lookup(fs, name) {
        Some(data) => {
            let ls: Vec<Vec<u8>> = if str_from_utf8(data).is_some() { split_lines(data) } else { Vec::new() };
            let ghost tl = text_lines(data@);
            assert(deep_lines(ls@) =~= tl);
            let n = if ls.len() < 10 { ls.len() } else { 10 };
            let mut out: Vec<u8> = Vec::new();
            let mut i: usize = 0;
            while i < n
                invariant
                    n <= ls@.len(),
                    deep_lines(ls@) == tl,
                    i <= n,
                    out@ == lines_text(tl.take(i as int)),
                decreases n - i,
            {
                push_bytes(&mut out, ls[i].as_slice());
                out.push(10);
                assert(tl.take(i + 1).drop_last() =~= tl.take(i as int));
                assert(tl[i as int] == ls@[i as int]@);
                assert(out@ =~= lines_text(tl.take(i + 1)));
                i = i + 1;
            }
            out
        },
        None => missing(name),
    }
}

/// `wc`: the file's lines, words and bytes.
pub fn cmd_wc(fs: &FileSystem, args: &[String]) -> (r: Vec<u8>)
    ensures
        r@ == wc_text(fs_view(*fs), args@.map_values(|s: String| s@)),
{
    let help = String::from_str("help");
    let name = if args.len() == 0 { help.as_str() } else { args[0].as_str() };
    assert(name@ == target_name(args@.map_values(|s: String| s@)));
    match lookup(fs, name) {
        Some(data) => {
            let counts = match str_from_utf8(data) {
                Some(s) => wc_counts(s),
                None => {
                    let e = String::new();
                    assert(e@ =~= Seq::<char>::empty());
                    wc_counts(e.as_str())
                },
            };
            let mut out = text("  linhas: ");
            let mut a = print_u32(counts.0 as u32);
            out.append(&mut a);
            push_text(&mut out, "  palavras: ");
            let mut b = print_u32(counts.1 as u32);
            out.append(&mut b);
            push_text(&mut out, "  bytes: ");
            let mut c = print_u32(data.len() as u32);
            out.append(&mut c);
            out.push(10);
            out
        },
        None => missing(name),
    }
}

/// `hexdump`: the file's first 256 bytes, 16 to a line, in hexadecimal and as text.
pub fn cmd_hexdump(fs: &FileSystem, args: &[String]) -> (r: Vec<u8>)
    ensures
        r@ == hexdump_text(fs_view(*fs), args@.map_values(|s: String| s@)),
{
    let help = String::from_str("help");
    let name = if args.len() == 0 { help.as_str() } else { args[0].as_str() };
    assert(name@ == target_name(args@.map_values(|s: String| s@)));
    match lookup(fs, name) {
        Some(data) => {
            let len: usize = if data.len() < 256 { data.len() } else { 256 };
            let mut out: Vec<u8> = Vec::new();
            let mut i: usize = 0;
            let mut k: usize = 0;
            while i < len
                invariant
                    len <= data@.len(),
                    len <= 256,
                    i == 16 * k,
                    k <= 16,
                    i < len + 16,
                    out@ == hex_lines(data@, len as int, k as int),
                decreases len + 16 - i,
            {
                let mut line = hex_line_of(data, i, len);
                out.append(&mut line);
                i = i + 16;
                k = k + 1;
            }
            assert((len + 15) / 16 == k) by (nonlinear_arith)
                requires i == 16 * k, len <= i, i < len + 16;
            out
        },
        None => missing(name),
    }
}

/// One hexdump line (see `hex_line`).
fn hex_line_of(d: &[u8], i: usize, len: usize) -> (r: Vec<u8>)
    requires
        i < len <= d@.len(),
        len <= 256,
    ensures
        r@ == hex_line(d@, i as int, len as int),
{
    let n = if len - i < 16 { len - i } else { 16 };
    let mut out = print_u32(i as u32);
    out.push(0x3a);
    out.push(0x20);
    let ghost o1 = out@;
    let mut j: usize = 0;
    while j < n
        invariant
            i + n <= len <= d@.len(),
            j <= n,
            out@ == o1 + hex_bytes(d@, i as int, j as int),
        decreases n - j,
    {
        let h = print_hex_byte(d[i + j]);
        out.push(h[0]);
        out.push(h[1]);
        out.push(0x20);
        assert(out@ =~= o1 + hex_bytes(d@, i as int, j + 1));
        j = j + 1;
    }
    out.push(0x20);
    out.push(0x7c);
    let ghost o2 = out@;
    j = 0;
    while j < n
        invariant
            i + n <= len <= d@.len(),
            j <= n,
            out@ == o2 + shown_bytes(d@, i as int, j as int),
        decreases n - j,
    {
        let b = d[i + j];
        if 0x20 <= b && b <= 0x7e {
            out.push(b);
        } else {
            out.push(0x2e);
        }
        assert(out@ =~= o2 + shown_bytes(d@, i as int, j + 1));
        j = j + 1;
    }
    out.push(0x7c);
    out.push(10);
    assert(out@ =~= hex_line(d@, i as int, len as int));
    out
}

/// `cp`: copies a file (see `cp_effect`).
pub fn cmd_cp(fs: &mut FileSystem, args: &[String]) -> (r: Vec<u8>)
    ensures
        (fs_view(*final(fs)), r@) == cp_effect(fs_view(*old(fs)), args@.map_values(|s: String| s@)),
{
    if args.len() < 2 {
        return text("uso: cp <origem> <destino>\n");
    }
    let src = args[0].as_str();
    let dst = args[1].as_str();
    let copy: Option<Vec<u8>> = match lookup(fs, src) {
        Some(data) => Some(vstd::slice::slice_to_vec(data)),
        None => None,
    };
    match copy {
        Some(d) => {
            let _ok = fs.file_write(dst, d.as_slice());
            assert(fs_view(*fs) == fs_write(fs_view(*old(fs)), dst@, d@));
            text("ok\n")
        },
        None => {
            let mut out = text("mizu: origem não encontrada: ");
            let b = src.as_bytes_vec();
            push_bytes(&mut out, b.as_slice());
            out.push(10);
            out
        },
    }
}

/// `rm`: deletes run-time files (see `rm_effect`).
pub fn cmd_rm(fs: &mut FileSystem, args: &[String]) -> (r: Vec<u8>)
    ensures
        (fs_view(*final(fs)), r@) == rm_effect(fs_view(*old(fs)), args@.map_values(|s: String| s@)),
{
    if args.len() == 0 {
        return text("uso: rm <arquivo>\n");
    }
    let ghost a = args@.map_values(|s: String| s@);
    let mut out: Vec<u8> = Vec::new();
    let mut i: usize = 0;
    while i < args.len()
        invariant
            a == args@.map_values(|s: String| s@),
            i <= args@.len(),
            (fs_view(*fs), out@) == rm_run(fs_view(*old(fs)), a.take(i as int)),
        decreases args@.len() - i,
    {
        let name = args[i].as_str();
        let ghost v1 = fs_view(*fs);
        let removed = fs.file_remove(name);
        assert(removed == fs_removes(v1, name@));
        if removed {
            push_text(&mut out, "removido: ");
        } else {
            push_text(&mut out, "mizu: não encontrado: ");
        }
        let b = name.as_bytes_vec();
        push_bytes(&mut out, b.as_slice());
        out.push(10);
        proof {
            assert(a.take(i + 1).drop_last() =~= a.take(i as int));
            assert(a.take(i + 1).last() == name@);
            assert(fs_view(*fs) =~= fs_remove(v1, name@));
        }
        i = i + 1;
    }
    assert(a.take(a.len() as int) =~= a);
    out
}

/// `touch`: creates missing files empty (see `touch_effect`).
pub fn cmd_touch(fs: &mut FileSystem, args: &[String]) -> (r: Vec<u8>)
    ensures
        (fs_view(*final(fs)), r@) == touch_effect(fs_view(*old(fs)), args@.map_values(|s: String| s@)),
{
    if args.len() == 0 {
        return text("uso: touch <arquivo>\n");
    }
    let ghost a = args@.map_values(|s: String| s@);
    let mut out: Vec<u8> = Vec::new();
    let mut i: usize = 0;
    while i < args.len()
        invariant
            a == args@.map_values(|s: String| s@),
            i <= args@.len(),
            (fs_view(*fs), out@) == touch_run(fs_view(*old(fs)), a.take(i as int)),
        decreases args@.len() - i,
    {
        let name = args[i].as_str();
        let ghost v1 = fs_view(*fs);
        proof {
            assert(a.take(i + 1).drop_last() =~= a.take(i as int));
            assert(a.take(i + 1).last() == name@);
        }
        if !fs.file_exists(name) {
            let empty: Vec<u8> = Vec::new();
            let _ok = fs.file_write(name, empty.as_slice());
            assert(empty@ =~= Seq::<u8>::empty());
            assert(fs_view(*fs) == fs_write(v1, name@, Seq::empty()));
            push_text(&mut out, "criado: ");
            let b = name.as_bytes_vec();
            push_bytes(&mut out, b.as_slice());
            out.push(10);
        }
        i = i + 1;
    }
    assert(a.take(a.len() as int) =~= a);
    out
}

// ---------------------------------------------------------------- numbers

/// The value of decimal digits.
pub open spec fn digits_value(s: Seq<char>) -> nat
    decreases s.len(),
{
    if s.len() == 0 { 0 } else { digits_value(s.drop_last()) * 10 + (s.last() as nat - 48) as nat }
}

pub open spec fn all_digits(s: Seq<char>) -> bool {
    forall|i: int| 0 <= i < s.len() ==> '0' <= #[trigger] s[i] <= '9'
}

/// What `str::parse::<u32>` gives: an optional `+`, then one or more decimal digits whose
/// value fits in 32 bits.
pub open spec fn parse_u32_spec(s: Seq<char>) -> Option<u32> {
    let d = if s.len() > 0 && s[0] == '+' { s.drop_first() } else { s };
    if d.len() > 0 && all_digits(d) && digits_value(d) <= u32::MAX { Some(digits_value(d) as u32) } else { None }
}

proof fn lemma_digits_mono(s: Seq<char>, k: int)
    requires
        all_digits(s),
        0 <= k <= s.len(),
    ensures
        digits_value(s.take(k)) <= digits_value(s),
    decreases s.len(),
{
    if k < s.len() {
        let t = s.drop_last();
        assert(t.take(k) =~= s.take(k));
        lemma_digits_mono(t, k);
    } else {
        assert(s.take(k) =~= s);
    }
}

proof fn lemma_parse_none(s: Seq<char>, d: Seq<char>)
    requires
        d == (if s.len() > 0 && s[0] == '+' { s.drop_first() } else { s }),
        !(d.len() > 0 && all_digits(d) && digits_value(d) <= u32::MAX),
    ensures
        parse_u32_spec(s) is None,
{
}

/// Parses a decimal number of 32 bits (see `parse_u32_spec`).
pub fn parse_u32(s: &str) -> (r: Option<u32>)
    ensures
        r == parse_u32_spec(s@),
{
    let n = s.unicode_len();
    let mut i: usize = 0;
    if n > 0 && s.get_char(0) == '+' {
        i = 1;
    }
    let ghost d = if s@.len() > 0 && s@[0] == '+' { s@.drop_first() } else { s@ };
    let ghost off = i as int;
    assert(d =~= s@.subrange(off, n as int));
    if i >= n {
        return None;
    }
    assert(d.take(0) =~= Seq::<char>::empty());
    let mut value: u32 = 0;
    while i < n
        invariant
            n == s@.len(),
            0 <= off <= 1,
            d == (if s@.len() > 0 && s@[0] == '+' { s@.drop_first() } else { s@ }),
            off <= i <= n,
            d == s@.subrange(off, n as int),
            all_digits(d.take(i - off)),
            value == digits_value(d.take(i - off)),
        decreases n - i,
    {
        let c = s.get_char(i);
        assert(d[i - off] == c);
        if c < '0' || c > '9' {
            assert(!all_digits(d));
            proof { lemma_parse_none(s@, d); }
            return None;
        }
        let dig = (c as u32) - 48;
        proof {
            assert(d.take(i + 1 - off).drop_last() =~= d.take(i - off));
        }
        if value > 429496729 || (value == 429496729 && dig > 5) {
            proof {
                let t = d.take(i + 1 - off);
                assert(t.last() == c);
                assert(digits_value(t) == digits_value(t.drop_last()) * 10 + (c as nat - 48) as nat);
                assert(digits_value(t) == value * 10 + dig);
                assert(digits_value(t) > u32::MAX);
                if all_digits(d) {
                    lemma_digits_mono(d, i + 1 - off);
                }
                lemma_parse_none(s@, d);
            }
            return None;
        }
        value = value * 10 + dig;
        i = i + 1;
    }
    assert(d.take(n - off) =~= d);
    Some(value)
}

/// How long `sleep` waits, in timer ticks: its argument, or 10.
pub open spec fn sleep_ticks(args: Seq<Seq<char>>) -> u32 {
    if args.len() == 0 { 10 } else { match parse_u32_spec(args[0]) { Some(t) => t, None => 10 } }
}

// ---------------------------------------------------------------- scripts

/// The first index of `s` from `i` that is not white space, or the length.
pub open spec fn ws_start(s: Seq<char>, i: int) -> int
    decreases s.len() - i,
{
    if i < 0 || i >= s.len() { s.len() as int } else if !is_ws(s[i]) { i } else { ws_start(s, i + 1) }
}

/// The index after the last character of `s[..j]` that is not white space, or `lo`.
pub open spec fn ws_end(s: Seq<char>, lo: int, j: int) -> int
    decreases j - lo,
{
    if j <= lo { lo } else if !is_ws(s[j - 1]) { j } else { ws_end(s, lo, j - 1) }
}

/// `s` without leading and trailing white space (`str::trim`).
pub open spec fn trim_ws(s: Seq<char>) -> Seq<char> {
    let a = ws_start(s, 0);
    s.subrange(a, ws_end(s, a, s.len() as int))
}

proof fn lemma_ws_bounds(s: Seq<char>, i: int, lo: int, j: int)
    requires
        0 <= i <= s.len(),
        0 <= lo <= j <= s.len(),
    ensures
        i <= ws_start(s, i) <= s.len(),
        lo <= ws_end(s, lo, j) <= j,
    decreases s.len() - i + j - lo,
{
    if i < s.len() && is_ws(s[i]) {
        lemma_ws_bounds(s, i + 1, lo, j);
    } else if j > lo && is_ws(s[j - 1]) {
        lemma_ws_bounds(s, i, lo, j - 1);
    }
}

/// `s` trimmed (see `trim_ws`).
pub fn trim(s: &str) -> (r: String)
    ensures
        r@ == trim_ws(s@),
{
    let n = s.unicode_len();
    let mut a: usize = 0;
    while a < n && is_whitespace(s.get_char(a))
        invariant
            n == s@.len(),
            a <= n,
            ws_start(s@, a as int) == ws_start(s@, 0),
        decreases n - a,
    {
        a = a + 1;
    }
    let mut b: usize = n;
    while b > a && is_whitespace(s.get_char(b - 1))
        invariant
            n == s@.len(),
            a <= b <= n,
            a == ws_start(s@, 0),
            ws_end(s@, a as int, b as int) == ws_end(s@, a as int, n as int),
        decreases b,
    {
        b = b - 1;
    }
    substring(s, a, b)
}

/// The text of a line of bytes (none when it is not UTF-8; lines of UTF-8 text are UTF-8).
pub open spec fn line_text(l: Seq<u8>) -> Seq<char> {
    if valid_utf8(l) { decode_utf8(l) } else { Seq::empty() }
}

/// The commands of a script: its lines trimmed, without empty ones and `#` comments.
pub open spec fn kept_lines(ls: Seq<Seq<u8>>) -> Seq<Seq<char>>
    decreases ls.len(),
{
    if ls.len() == 0 {
        Seq::empty()
    } else {
        let t = trim_ws(line_text(ls.last()));
        kept_lines(ls.drop_last()) + (if t.len() > 0 && t[0] != '#' { seq![t] } else { Seq::empty() })
    }
}

/// The commands of the script file `d`.
pub open spec fn script_lines(d: Seq<u8>) -> Seq<Seq<char>> {
    kept_lines(text_lines(d))
}

/// The commands of the script file `d` (see `script_lines`).
pub fn script_commands(d: &[u8]) -> (r: Vec<String>)
    ensures
        r@.map_values(|s: String| s@) == script_lines(d@),
{
    let ls: Vec<Vec<u8>> = if str_from_utf8(d).is_some() { split_lines(d) } else { Vec::new() };
    let ghost tl = text_lines(d@);
    assert(deep_lines(ls@) =~= tl);
    let mut out: Vec<String> = Vec::new();
    let mut i: usize = 0;
    while i < ls.len()
        invariant
            deep_lines(ls@) == tl,
            i <= ls@.len(),
            out@.map_values(|s: String| s@) == kept_lines(tl.take(i as int)),
        decreases ls@.len() - i,
    {
        let ghost before = out@.map_values(|s: String| s@);
        let t = match str_from_utf8(ls[i].as_slice()) {
            Some(st) => trim(st),
            None => {
                let e = String::new();
                trim(e.as_str())
            },
        };
        proof {
            assert(tl.take(i + 1).drop_last() =~= tl.take(i as int));
            assert(tl.take(i + 1).last() == ls@[i as int]@);
            assert(t@ == trim_ws(line_text(ls@[i as int]@))) by {
                if !valid_utf8(ls@[i as int]@) {
                    assert(line_text(ls@[i as int]@) =~= Seq::<char>::empty());
                }
            }
        }
        let n = t.as_str().unicode_len();
        if n > 0 && t.as_str().get_char(0) != '#' {
            out.push(t);
            assert(out@.map_values(|s: String| s@) =~= before.push(t@));
        }
        assert(out@.map_values(|s: String| s@) =~= kept_lines(tl.take(i + 1)));
        i = i + 1;
    }
    assert(tl.take(tl.len() as int) =~= tl);
    out
}

// ---------------------------------------------------------------- running lines

/// What the shell asks of the screen and the machine.
pub enum ShellAction {
    Write(Vec<u8>),
    Clear,
    Edit(String),
    Sleep(u32),
}

/// A `ShellAction` as plain values.
pub enum Act {
    Write(Seq<u8>),
    Clear,
    Edit(Seq<char>),
    Sleep(u32),
}

pub open spec fn act_of(a: ShellAction) -> Act {
    match a {
        ShellAction::Write(b) => Act::Write(b@),
        ShellAction::Clear => Act::Clear,
        ShellAction::Edit(n) => Act::Edit(n@),
        ShellAction::Sleep(t) => Act::Sleep(t),
    }
}

pub open spec fn acts_of(v: Seq<ShellAction>) -> Seq<Act> {
    v.map_values(|a: ShellAction| act_of(a))
}

/// The shell's own commands; any other name runs the file of that name as a script.
#[derive(PartialEq, Eq, Structural)]
pub enum Builtin {
    Help, Echo, Clear, Uname, Whoami, Date, Yes, Ls, Cat, Head, Wc, Hexdump, Sh, Nothing, Cp, Rm, Edit, Touch,
    Sleep, Script,
}

/// The command a name stands for.
pub open spec fn builtin_of(name: Seq<char>) -> Builtin {
    if name == "help"@ { Builtin::Help }
    else if name == "echo"@ { Builtin::Echo }
    else if name == "clear"@ { Builtin::Clear }
    else if name == "uname"@ { Builtin::Uname }
    else if name == "whoami"@ { Builtin::Whoami }
    else if name == "date"@ { Builtin::Date }
    else if name == "yes"@ { Builtin::Yes }
    else if name == "ls"@ { Builtin::Ls }
    else if name == "cat"@ { Builtin::Cat }
    else if name == "head"@ { Builtin::Head }
    else if name == "wc"@ { Builtin::Wc }
    else if name == "hexdump"@ { Builtin::Hexdump }
    else if name == "sh"@ { Builtin::Sh }
    else if name == "true"@ || name == "false"@ { Builtin::Nothing }
    else if name == "cp"@ { Builtin::Cp }
    else if name == "rm"@ { Builtin::Rm }
    else if name == "edit"@ { Builtin::Edit }
    else if name == "touch"@ { Builtin::Touch }
    else if name == "sleep"@ { Builtin::Sleep }
    else { Builtin::Script }
}

/// The command `name` stands for (see `builtin_of`).
pub fn classify(name: &str) -> (r: Builtin)
    ensures
        r == builtin_of(name@),
{
    if str_eq(name, "help") { Builtin::Help }
    else if str_eq(name, "echo") { Builtin::Echo }
    else if str_eq(name, "clear") { Builtin::Clear }
    else if str_eq(name, "uname") { Builtin::Uname }
    else if str_eq(name, "whoami") { Builtin::Whoami }
    else if str_eq(name, "date") { Builtin::Date }
    else if str_eq(name, "yes") { Builtin::Yes }
    else if str_eq(name, "ls") { Builtin::Ls }
    else if str_eq(name, "cat") { Builtin::Cat }
    else if str_eq(name, "head") { Builtin::Head }
    else if str_eq(name, "wc") { Builtin::Wc }
    else if str_eq(name, "hexdump") { Builtin::Hexdump }
    else if str_eq(name, "sh") { Builtin::Sh }
    else if str_eq(name, "true") || str_eq(name, "false") { Builtin::Nothing }
    else if str_eq(name, "cp") { Builtin::Cp }
    else if str_eq(name, "rm") { Builtin::Rm }
    else if str_eq(name, "edit") { Builtin::Edit }
    else if str_eq(name, "touch") { Builtin::Touch }
    else if str_eq(name, "sleep") { Builtin::Sleep }
    else { Builtin::Script }
}

/// What a line does: its tokens are parsed; a single command runs, a pipeline is refused.
/// Scripts run other lines, down to `depth` levels of scripts.
pub open spec fn run_line(v: FsView, ticks: u32, depth: nat, line: Seq<char>) -> (FsView, Seq<Act>)
    decreases depth, 2nat,
{
    match spec_tokenize(line) {
        Err(ParseError::UnterminatedQuote) => (v, seq![Act::Write(text_of("mizu: aspas não fechadas\n"))]),
        Err(ParseError::Empty) => (v, Seq::empty()),
        Ok(t) => match spec_parse_pipeline(t) {
            Err(_) => (v, seq![Act::Write(text_of("mizu: erro de parsing\n"))]),
            Ok(cmds) => if cmds.len() == 1 {
                run_simple(v, ticks, depth, cmds[0].args)
            } else {
                (v, seq![Act::Write(text_of("mizu: pipes não suportados no kernel (ainda)\n"))])
            },
        },
    }
}

/// What a command does (its name first, then its arguments).
pub open spec fn run_simple(v: FsView, ticks: u32, depth: nat, args: Seq<Seq<char>>) -> (FsView, Seq<Act>)
    decreases depth, 1nat,
{
    if args.len() == 0 {
        (v, Seq::empty())
    } else {
        let name = args[0];
        let rest = args.drop_first();
        match builtin_of(name) {
            Builtin::Help => (v, seq![Act::Write(help_text())]),
            Builtin::Echo => (v, seq![Act::Write(echo_text(rest))]),
            Builtin::Clear => (v, seq![Act::Clear]),
            Builtin::Uname => (v, seq![Act::Write(text_of("Mizu OS\nKernel: mizu\nArch: i686\n"))]),
            Builtin::Whoami => (v, seq![Act::Write(text_of("mizu\n"))]),
            Builtin::Date => (v, seq![Act::Write(date_text(ticks))]),
            Builtin::Yes => (v, seq![Act::Write(yes_text())]),
            Builtin::Ls => (v, seq![Act::Write(ls_text(v))]),
            Builtin::Cat => (v, seq![Act::Write(cat_text(v, rest))]),
            Builtin::Head => (v, seq![Act::Write(head_text(v, rest))]),
            Builtin::Wc => (v, seq![Act::Write(wc_text(v, rest))]),
            Builtin::Hexdump => (v, seq![Act::Write(hexdump_text(v, rest))]),
            Builtin::Sh => if rest.len() == 0 {
                (v, seq![Act::Write(text_of("uso: sh <arquivo>\n"))])
            } else {
                match fs_lookup(v, rest[0]) {
                    Some(d) => run_script(v, ticks, depth, d),
                    None => (v, seq![Act::Write(not_found(rest[0]))]),
                }
            },
            Builtin::Nothing => (v, Seq::empty()),
            Builtin::Cp => { let (v1, t) = cp_effect(v, rest); (v1, seq![Act::Write(t)]) },
            Builtin::Rm => { let (v1, t) = rm_effect(v, rest); (v1, seq![Act::Write(t)]) },
            Builtin::Edit => if rest.len() == 0 {
                (v, seq![Act::Write(text_of("uso: edit <arquivo>\n"))])
            } else {
                (v, seq![Act::Edit(rest[0])])
            },
            Builtin::Touch => { let (v1, t) = touch_effect(v, rest); (v1, seq![Act::Write(t)]) },
            Builtin::Sleep => (v, seq![Act::Sleep(sleep_ticks(rest))]),
            Builtin::Script => match fs_lookup(v, name) {
                Some(d) => run_script(v, ticks, depth, d),
                None => (v, seq![Act::Write(text_of("mizu: comando não encontrado: ") + encode_utf8(name) + seq![10u8])]),
            },
        }
    }
}

/// What running the script file `d` does: its commands run one after the other, one level
/// of scripts deeper; at depth 0 nothing runs.
pub open spec fn run_script(v: FsView, ticks: u32, depth: nat, d: Seq<u8>) -> (FsView, Seq<Act>)
    decreases depth, 0nat,
{
    if depth == 0 { (v, Seq::empty()) } else { run_lines(v, ticks, (depth - 1) as nat, script_lines(d)) }
}

/// What lines do, one after the other.
pub open spec fn run_lines(v: FsView, ticks: u32, depth: nat, ls: Seq<Seq<char>>) -> (FsView, Seq<Act>)
    decreases depth, 3 + ls.len(),
{
    if ls.len() == 0 {
        (v, Seq::empty())
    } else {
        let (v1, a1) = run_lines(v, ticks, depth, ls.drop_last());
        let (v2, a2) = run_line(v1, ticks, depth, ls.last());
        (v2, a1 + a2)
    }
}

proof fn lemma_pipeline_len(p: Pipeline)
    ensures
        pipeline_commands(p).len() >= 1,
    decreases p,
{
    match p {
        Pipeline::Single(_) => {},
        Pipeline::Pipe(l, _) => { lemma_pipeline_len(*l); },
    }
}

/// One write action.
fn write_of(b: Vec<u8>) -> (r: Vec<ShellAction>)
    ensures
        acts_of(r@) == seq![Act::Write(b@)],
{
    let mut r: Vec<ShellAction> = Vec::new();
    r.push(ShellAction::Write(b));
    assert(acts_of(r@) =~= seq![Act::Write(b@)]);
    r
}

/// Runs a line (see `run_line`).
pub fn execute_line(fs: &mut FileSystem, ticks: u32, depth: u32, line: &str) -> (r: Vec<ShellAction>)
    ensures
        (fs_view(*final(fs)), acts_of(r@)) == run_line(fs_view(*old(fs)), ticks, depth as nat, line@),
    decreases depth, 4nat,
{
    match tokenize(line) {
        Err(ParseError::UnterminatedQuote) => write_of(text("mizu: aspas não fechadas\n")),
        Err(ParseError::Empty) => {
            let r: Vec<ShellAction> = Vec::new();
            assert(acts_of(r@) =~= Seq::<Act>::empty());
            r
        },
        Ok(tokens) => {
            assert(tokens@.map_values(|s: String| s@) =~= tokens.deep_view());
            match parse_pipeline(tokens.as_slice()) {
                Err(_) => write_of(text("mizu: erro de parsing\n")),
                Ok(Pipeline::Single(cmd)) => {
                    assert(cmd.args@.map_values(|s: String| s@) =~= cmd.args.deep_view());
                    execute_simple(fs, ticks, depth, cmd.args.as_slice())
                },
                Ok(Pipeline::Pipe(left, c)) => {
                    proof { lemma_pipeline_len(*left); }
                    write_of(text("mizu: pipes não suportados no kernel (ainda)\n"))
                },
            }
        },
    }
}

/// The arguments after the command name.
fn rest_of(args: &[String]) -> (r: Vec<String>)
    requires
        args@.len() >= 1,
    ensures
        r@.map_values(|s: String| s@) == args@.map_values(|s: String| s@).drop_first(),
{
    let mut r: Vec<String> = Vec::new();
    let mut i: usize = 1;
    while i < args.len()
        invariant
            1 <= i <= args@.len(),
            r@.map_values(|s: String| s@) == args@.map_values(|s: String| s@).subrange(1, i as int),
        decreases args@.len() - i,
    {
        let ghost before = r@.map_values(|s: String| s@);
        let c = args[i].clone();
        r.push(c);
        assert(r@.map_values(|s: String| s@) =~= before.push(args@[i as int]@));
        assert(args@.map_values(|s: String| s@).subrange(1, i + 1) =~= args@.map_values(|s: String| s@).subrange(1, i as int).push(args@[i as int]@));
        i = i + 1;
    }
    assert(args@.map_values(|s: String| s@).subrange(1, args@.len() as int) =~= args@.map_values(|s: String| s@).drop_first());
    r
}

/// Runs a command (see `run_simple`).
#[verifier::rlimit(60)]
pub fn execute_simple(fs: &mut FileSystem, ticks: u32, depth: u32, args: &[String]) -> (r: Vec<ShellAction>)
    ensures
        (fs_view(*final(fs)), acts_of(r@)) == run_simple(fs_view(*old(fs)), ticks, depth as nat, args@.map_values(|s: String| s@)),
    decreases depth, 3nat,
{
    if args.len() == 0 {
        let r: Vec<ShellAction> = Vec::new();
        assert(acts_of(r@) =~= Seq::<Act>::empty());
        return r;
    }
    let ghost a = args@.map_values(|s: String| s@);
    let name = args[0].as_str();
    assert(name@ == a[0]);
    let rest = rest_of(args);
    let rs = rest.as_slice();
    assert(rs@.map_values(|s: String| s@) == a.drop_first());
    let r = match classify(name) {
        Builtin::Help => write_of(cmd_help()),
        Builtin::Echo => write_of(cmd_echo(rs)),
        Builtin::Clear => {
            let mut r: Vec<ShellAction> = Vec::new();
            r.push(ShellAction::Clear);
            assert(acts_of(r@) =~= seq![Act::Clear]);
            r
        },
        Builtin::Uname => write_of(cmd_uname()),
        Builtin::Whoami => write_of(cmd_whoami()),
        Builtin::Date => write_of(cmd_date(ticks)),
        Builtin::Yes => write_of(cmd_yes()),
        Builtin::Ls => write_of(cmd_ls(fs)),
        Builtin::Cat => write_of(cmd_cat(fs, rs)),
        Builtin::Head => write_of(cmd_head(fs, rs)),
        Builtin::Wc => write_of(cmd_wc(fs, rs)),
        Builtin::Hexdump => write_of(cmd_hexdump(fs, rs)),
        Builtin::Sh => cmd_sh(fs, ticks, depth, rs),
        Builtin::Nothing => {
            let r: Vec<ShellAction> = Vec::new();
            assert(acts_of(r@) =~= Seq::<Act>::empty());
            r
        },
        Builtin::Cp => write_of(cmd_cp(fs, rs)),
        Builtin::Rm => write_of(cmd_rm(fs, rs)),
        Builtin::Edit => cmd_edit(rs),
        Builtin::Touch => write_of(cmd_touch(fs, rs)),
        Builtin::Sleep => cmd_sleep(rs),
        Builtin::Script => {
            let found: Option<Vec<u8>> = match lookup(fs, name) {
                Some(d) => Some(vstd::slice::slice_to_vec(d)),
                None => None,
            };
            match found {
                Some(d) => run_script_file(fs, ticks, depth, d.as_slice()),
                None => {
                    let mut out = text("mizu: comando não encontrado: ");
                    let b = name.as_bytes_vec();
                    push_bytes(&mut out, b.as_slice());
                    out.push(10);
                    assert(out@ =~= text_of("mizu: comando não encontrado: ") + encode_utf8(name@) + seq![10u8]);
                    let r = write_of(out);
                    r
                },
            }
        },
    };
    r
}

/// `sh`: runs a script file.
pub fn cmd_sh(fs: &mut FileSystem, ticks: u32, depth: u32, args: &[String]) -> (r: Vec<ShellAction>)
    ensures
        ({
            let a = args@.map_values(|s: String| s@);
            let v = fs_view(*old(fs));
            (fs_view(*final(fs)), acts_of(r@)) == if a.len() == 0 {
                (v, seq![Act::Write(text_of("uso: sh <arquivo>\n"))])
            } else {
                match fs_lookup(v, a[0]) {
                    Some(d) => run_script(v, ticks, depth as nat, d),
                    None => (v, seq![Act::Write(not_found(a[0]))]),
                }
            }
        }),
    decreases depth, 1nat,
{
    if args.len() == 0 {
        return write_of(text("uso: sh <arquivo>\n"));
    }
    let name = args[0].as_str();
    let found: Option<Vec<u8>> = match lookup(fs, name) {
        Some(d) => Some(vstd::slice::slice_to_vec(d)),
        None => None,
    };
    match found {
        Some(d) => run_script_file(fs, ticks, depth, d.as_slice()),
        None => write_of(missing(name)),
    }
}

/// Runs the commands of the script file `d` (see `run_script`).
pub fn run_script_file(fs: &mut FileSystem, ticks: u32, depth: u32, d: &[u8]) -> (r: Vec<ShellAction>)
    ensures
        (fs_view(*final(fs)), acts_of(r@)) == run_script(fs_view(*old(fs)), ticks, depth as nat, d@),
    decreases depth, 0nat,
{
    if depth == 0 {
        let r: Vec<ShellAction> = Vec::new();
        assert(acts_of(r@) =~= Seq::<Act>::empty());
        return r;
    }
    let cmds = script_commands(d);
    let ghost ls = script_lines(d@);
    let mut out: Vec<ShellAction> = Vec::new();
    let mut i: usize = 0;
    assert(ls.take(0) =~= Seq::<Seq<char>>::empty());
    assert(acts_of(out@) =~= Seq::<Act>::empty());
    while i < cmds.len()
        invariant
            depth > 0,
            cmds@.map_values(|s: String| s@) == ls,
            i <= cmds@.len(),
            (fs_view(*fs), acts_of(out@)) == run_lines(fs_view(*old(fs)), ticks, (depth - 1) as nat, ls.take(i as int)),
        decreases cmds@.len() - i,
    {
        let ghost before = acts_of(out@);
        let mut a = execute_line(fs, ticks, depth - 1, cmds[i].as_str());
        let ghost aa = acts_of(a@);
        out.append(&mut a);
        proof {
            assert(acts_of(out@) =~= before + aa);
            assert(ls.take(i + 1).drop_last() =~= ls.take(i as int));
            assert(ls.take(i + 1).last() == cmds@[i as int]@);
        }
        i = i + 1;
    }
    assert(ls.take(ls.len() as int) =~= ls);
    out
}

/// `edit`: asks for an edit session of the file.
pub fn cmd_edit(args: &[String]) -> (r: Vec<ShellAction>)
    ensures
        acts_of(r@) == (if args@.len() == 0 { seq![Act::Write(text_of("uso: edit <arquivo>\n"))] } else { seq![Act::Edit(args@[0]@)] }),
{
    if args.len() == 0 {
        return write_of(text("uso: edit <arquivo>\n"));
    }
    let mut r: Vec<ShellAction> = Vec::new();
    r.push(ShellAction::Edit(args[0].clone()));
    assert(acts_of(r@) =~= seq![Act::Edit(args@[0]@)]);
    r
}

/// `sleep`: asks to wait some timer ticks (see `sleep_ticks`).
pub fn cmd_sleep(args: &[String]) -> (r: Vec<ShellAction>)
    ensures
        acts_of(r@) == seq![Act::Sleep(sleep_ticks(args@.map_values(|s: String| s@)))],
{
    let t = if args.len() == 0 {
        10
    } else {
        match parse_u32(args[0].as_str()) {
            Some(t) => t,
            None => 10,
        }
    };
    let mut r: Vec<ShellAction> = Vec::new();
    r.push(ShellAction::Sleep(t));
    assert(acts_of(r@) =~= seq![Act::Sleep(t)]);
    r
}


/// The characters of the digits that `print_u32` writes.
pub open spec fn decimal_chars(n: nat) -> Seq<char> {
    decimal(n).map_values(|b: u8| b as char)
}

proof fn lemma_decimal_chars(n: nat)
    ensures
        decimal_chars(n).len() > 0,
        all_digits(decimal_chars(n)),
        decimal_chars(n)[0] != '+',
        digits_value(decimal_chars(n)) == n,
    decreases n,
{
    if n < 10 {
        assert(decimal_chars(n) =~= seq![(0x30 + n) as u8 as char]);
        assert(decimal_chars(n).drop_last() =~= Seq::<char>::empty());
        let d = (0x30 + n) as u8;
        assert(d == 0x30 + n);
        assert((d as char) as nat == d as nat);
        assert(decimal_chars(n).last() == d as char);
        assert(digits_value(decimal_chars(n)) == digits_value(decimal_chars(n).drop_last()) * 10
            + (decimal_chars(n).last() as nat - 48) as nat);
        assert(digits_value(Seq::<char>::empty()) == 0);
    } else {
        lemma_decimal_chars(n / 10);
        let d = (0x30 + n % 10) as u8;
        assert(decimal_chars(n) =~= decimal_chars(n / 10).push(d as char));
        assert(decimal_chars(n).drop_last() =~= decimal_chars(n / 10));
        assert(decimal_chars(n)[0] == decimal_chars(n / 10)[0]);
        assert(d == 0x30 + n % 10);
        assert((d as char) as nat == d as nat);
        assert(decimal_chars(n).last() == d as char);
        assert(digits_value(decimal_chars(n)) == digits_value(decimal_chars(n).drop_last()) * 10
            + (decimal_chars(n).last() as nat - 48) as nat);
        assert(n == (n / 10) * 10 + n % 10);
    }
}

/// A number that the shell prints reads back, through `parse_u32`, as the same number.
pub proof fn law_print_then_parse(n: u32)
    ensures
        parse_u32_spec(decimal_chars(n as nat)) == Some(n),
{
    lemma_decimal_chars(n as nat);
}

} // verus!

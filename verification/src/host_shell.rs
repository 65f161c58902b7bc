//! The decisions of the host shell around its line editor: the prompt, what an input line
//! asks for, the word that tab completion completes and the names it offers, and the
//! command line that runs a built-in inside a pipeline.
use vstd::prelude::*;
use vstd::string::*;
use crate::shell_text::{is_ws, is_whitespace};
use crate::shell_cmds::{trim, trim_ws};
use crate::text::{str_eq, substring, push_char};
use vstd::utf8::encode_utf8;

verus! {

/// The working directory as the prompt shows it: `~` in place of the home directory when it
/// starts with it.
pub open spec fn short_path(cwd: Seq<char>, home: Seq<char>) -> Seq<char> {
    if home.len() <= cwd.len() && cwd.subrange(0, home.len() as int) == home {
        seq!['~'] + cwd.subrange(home.len() as int, cwd.len() as int)
    } else {
        cwd
    }
}

/// Whether `s` starts with `p`.
pub fn str_starts_with(s: &str, p: &str) -> (r: bool)
    ensures
        r == (p@.len() <= s@.len() && s@.subrange(0, p@.len() as int) == p@),
{
    let n = p.unicode_len();
    if n > s.unicode_len() {
        return false;
    }
    let mut i: usize = 0;
    while i < n
        invariant
            n == p@.len(),
            n <= s@.len(),
            i <= n,
            forall|j: int| 0 <= j < i ==> s@[j] == p@[j],
        decreases n - i,
    {
        if s.get_char(i) != p.get_char(i) {
            assert(s@.subrange(0, n as int)[i as int] != p@[i as int]);
            return false;
        }
        i = i + 1;
    }
    assert(s@.subrange(0, n as int) =~= p@);
    true
}

/// The working directory as the prompt shows it (see `short_path`).
pub fn prompt_path(cwd: &str, home: &str) -> (r: String)
    ensures
        r@ == short_path(cwd@, home@),
{
    if str_starts_with(cwd, home) {
        let mut r = String::new();
        push_char(&mut r, '~');
        let rest = substring(cwd, home.unicode_len(), cwd.unicode_len());
        r.append(rest.as_str());
        assert(r@ =~= seq!['~'] + cwd@.subrange(home@.len() as int, cwd@.len() as int));
        r
    } else {
        String::from_str(cwd)
    }
}

/// The prompt: the shortened path in one color, then the shell's sign in another.
pub open spec fn prompt_spec(cwd: Seq<char>, home: Seq<char>) -> Seq<char> {
    "\x1b[38;5;80m"@ + short_path(cwd, home) + "\x1b[0m \x1b[38;5;213m\u{262f}\x1b[0m "@
}

/// The prompt for working directory `cwd` and home directory `home` (see `prompt_spec`).
pub fn render_prompt(cwd: &str, home: &str) -> (r: String)
    ensures
        r@ == prompt_spec(cwd@, home@),
{
    let mut r = String::from_str("\x1b[38;5;80m");
    let p = prompt_path(cwd, home);
    r.append(p.as_str());
    r.append("\x1b[0m \x1b[38;5;213m\u{262f}\x1b[0m ");
    r
}

/// What the shell does with a line read from its editor.
#[derive(PartialEq, Eq, Debug)]
pub enum LineAction {
    /// Nothing: the line is blank.
    Skip,
    /// Leave the shell.
    Exit,
    /// Record the trimmed line in the history and run it.
    Run(String),
}

/// What the shell does with `line`: trimmed, a blank line is skipped, `exit` ends the shell,
/// anything else is recorded and run.
pub fn line_action(line: &str) -> (r: LineAction)
    ensures
        trim_ws(line@).len() == 0 ==> r == LineAction::Skip,
        trim_ws(line@).len() > 0 && trim_ws(line@) == "exit"@ ==> r == LineAction::Exit,
        trim_ws(line@).len() > 0 && trim_ws(line@) != "exit"@ ==> (r matches LineAction::Run(s) && s@ == trim_ws(line@)),
{
    let t = trim(line);
    if t.unicode_len() == 0 {
        return LineAction::Skip;
    }
    if str_eq(t.as_str(), "exit") {
        return LineAction::Exit;
    }
    LineAction::Run(t)
}

/// The words of a list joined by single spaces.
pub open spec fn joined(words: Seq<Seq<char>>) -> Seq<char>
    decreases words.len(),
{
    if words.len() == 0 { Seq::empty() }
    else if words.len() == 1 { words[0] }
    else { joined(words.drop_last()) + seq![' '] + words.last() }
}

/// The words joined by single spaces (see `joined`).
pub fn join_words(words: &[String]) -> (r: String)
    ensures
        r@ == joined(words@.map_values(|w: String| w@)),
{
    let ghost ws = words@.map_values(|w: String| w@);
    let mut r = String::new();
    let mut i: usize = 0;
    while i < words.len()
        invariant
            ws == words@.map_values(|w: String| w@),
            i <= words@.len(),
            r@ == joined(ws.subrange(0, i as int)),
        decreases words@.len() - i,
    {
        let ghost before = r@;
        if i > 0 {
            push_char(&mut r, ' ');
        }
        r.append(words[i].as_str());
        proof {
            let sub = ws.subrange(0, i + 1);
            assert(sub.drop_last() =~= ws.subrange(0, i as int));
            assert(sub.last() == words@[i as int]@);
            if i == 0 {
                assert(r@ =~= sub[0]);
            } else {
                assert(r@ =~= joined(sub.drop_last()) + seq![' '] + sub.last());
            }
        }
        i = i + 1;
    }
    assert(ws.subrange(0, words@.len() as int) =~= ws);
    r
}

/// The line that runs built-in `name` with `args` in a second shell (`mizu-sh -c line`),
/// as a pipeline stage needs: the name, a space, and the arguments joined by spaces.
pub open spec fn reexec_spec(name: Seq<char>, args: Seq<Seq<char>>) -> Seq<char> {
    name + seq![' '] + joined(args)
}

/// The command line that runs a built-in in a second shell (see `reexec_spec`).
pub fn reexec_line(name: &str, args: &[String]) -> (r: String)
    ensures
        r@ == reexec_spec(name@, args@.map_values(|w: String| w@)),
{
    let mut r = String::from_str(name);
    push_char(&mut r, ' ');
    let rest = join_words(args);
    r.append(rest.as_str());
    r
}

/// The start of the run of non-space characters that ends at `j` in `s`.
pub open spec fn word_back(s: Seq<char>, j: int) -> int
    decreases j,
{
    if j <= 0 { 0 } else if is_ws(s[j - 1]) { j } else { word_back(s, j - 1) }
}

/// The word tab completion completes: the last run of non-space characters of the text
/// before the cursor (empty when there is none).
pub open spec fn last_word(s: Seq<char>) -> Seq<char> {
    let e = crate::shell_cmds::ws_end(s, 0, s.len() as int);
    s.subrange(word_back(s, e), e)
}

/// The word tab completion completes in `before`, the text before the cursor, and where the
/// completion is placed: as many characters before the cursor as the word is long.
pub fn completion_word(before: &str) -> (r: (String, usize))
    ensures
        r.0@ == last_word(before@),
        r.1 == before@.len() - last_word(before@).len(),
{
    let n = before.unicode_len();
    let mut e = n;
    while e > 0 && is_whitespace(before.get_char(e - 1))
        invariant
            n == before@.len(),
            e <= n,
            crate::shell_cmds::ws_end(before@, 0, e as int) == crate::shell_cmds::ws_end(before@, 0, n as int),
        decreases e,
    {
        e = e - 1;
    }
    let mut b = e;
    while b > 0 && !is_whitespace(before.get_char(b - 1))
        invariant
            n == before@.len(),
            b <= e <= n,
            word_back(before@, b as int) == word_back(before@, e as int),
        decreases b,
    {
        b = b - 1;
    }
    let word = substring(before, b, e);
    (word, n - (e - b))
}

/// The names of a directory listing that start with `partial`, each with the text shown
/// (a directory's name followed by `/`) and the text put in the line (the name).
pub open spec fn name_candidates(entries: Seq<(Seq<char>, bool)>, partial: Seq<char>) -> Seq<(Seq<char>, Seq<char>)>
    decreases entries.len(),
{
    if entries.len() == 0 { Seq::empty() } else {
        let rest = name_candidates(entries.drop_last(), partial);
        let (name, dir) = entries.last();
        if partial.len() <= name.len() && name.subrange(0, partial.len() as int) == partial {
            rest.push((if dir { name.push('/') } else { name }, name))
        } else {
            rest
        }
    }
}

/// The completion candidates among `entries` (name, whether a directory) for `partial`
/// (see `name_candidates`).
pub fn completion_candidates(entries: &Vec<(String, bool)>, partial: &str) -> (r: Vec<(String, String)>)
    ensures
        r@.map_values(|c: (String, String)| (c.0@, c.1@))
            == name_candidates(entries@.map_values(|e: (String, bool)| (e.0@, e.1)), partial@),
{
    let ghost es = entries@.map_values(|e: (String, bool)| (e.0@, e.1));
    let mut out: Vec<(String, String)> = Vec::new();
    let mut i: usize = 0;
    while i < entries.len()
        invariant
            es == entries@.map_values(|e: (String, bool)| (e.0@, e.1)),
            i <= entries@.len(),
            out@.map_values(|c: (String, String)| (c.0@, c.1@)) == name_candidates(es.subrange(0, i as int), partial@),
        decreases entries@.len() - i,
    {
        let ghost sub = es.subrange(0, i + 1);
        assert(sub.drop_last() =~= es.subrange(0, i as int));
        assert(sub.last() == (entries@[i as int].0@, entries@[i as int].1));
        let name = &entries[i].0;
        let dir = entries[i].1;
        let ghost before = out@;
        if str_starts_with(name.as_str(), partial) {
            let mut display = String::from_str(name.as_str());
            if dir {
                push_char(&mut display, '/');
            }
            let replacement = String::from_str(name.as_str());
            out.push((display, replacement));
            assert(out@.map_values(|c: (String, String)| (c.0@, c.1@))
                =~= before.map_values(|c: (String, String)| (c.0@, c.1@)).push((
                    if dir { name@.push('/') } else { name@ }, name@)));
        }
        i = i + 1;
    }
    assert(es.subrange(0, entries@.len() as int) =~= es);
    out
}

/// The end of the run of digits and semicolons from `i` in `s`.
pub open spec fn param_end(s: Seq<char>, i: int) -> int
    decreases s.len() - i,
{
    if i < 0 || i >= s.len() { s.len() as int }
    else if ('0' <= s[i] <= '9') || s[i] == ';' { param_end(s, i + 1) }
    else { i }
}

/// `s[i..]` with every color sequence `ESC [ (digits and semicolons) m` taken out, leftmost
/// first: what `Regex::new(r"\x1b\[[0-9;]*m")` and `replace_all(s, "")` give.
pub open spec fn strip_from(s: Seq<char>, i: int) -> Seq<char>
    decreases s.len() - i,
{
    if i < 0 || i >= s.len() { Seq::empty() }
    else {
        let j = param_end(s, i + 2);
        if s[i] == '\x1b' && i + 1 < s.len() && s[i + 1] == '[' && j < s.len() && s[j] == 'm' {
            if i < j + 1 { strip_from(s, j + 1) } else { Seq::empty() }
        } else {
            seq![s[i]] + strip_from(s, i + 1)
        }
    }
}

/// `regex_lite::Regex::new` on the color-sequence pattern, then `Regex::replace_all` with
/// an empty replacement: the text with every color sequence removed (see `strip_from`).
#[verifier::external_body]
fn strip_colors(s: &str) -> (r: String)
    ensures
        r@ == strip_from(s@, 0),
{
    let re = regex_lite::Regex::new(r"\x1b\[[0-9;]*m").unwrap();
    re.replace_all(s, "").into_owned()
}

/// The width of `s` on the terminal as `ls` counts it: the bytes left once its color
/// sequences are removed.
pub fn visible_len(s: &str) -> (r: usize)
    ensures
        r == encode_utf8(strip_from(s@, 0)).len() as usize,
{
    let t = strip_colors(s);
    let ts = t.as_str();
    assert(ts@ == strip_from(s@, 0));
    assert(ts.spec_bytes() == encode_utf8(ts@));
    ts.len()
}

/// The column layout of `ls`: each column as wide as the widest name plus 2 (10 plus 2
/// with no names), and as many columns as fit in `term_w`, at least one.
pub open spec fn ls_layout(term_w: int, widths: Seq<usize>) -> (int, int) {
    let m = if widths.len() == 0 { 10 } else { max_of(widths) };
    let w = m + 2;
    let c = term_w / w;
    (w, if c < 1 { 1 } else { c })
}

/// The largest of non-empty `widths`.
pub open spec fn max_of(widths: Seq<usize>) -> int
    decreases widths.len(),
{
    if widths.len() <= 1 { if widths.len() == 1 { widths[0] as int } else { 0 } }
    else { let r = max_of(widths.drop_last()); if widths.last() > r { widths.last() as int } else { r } }
}

/// The column width and count of `ls` for names of the given visible widths (see
/// `ls_layout`).
pub fn ls_columns(term_w: usize, widths: &Vec<usize>) -> (r: (usize, usize))
    requires
        forall|i: int| 0 <= i < widths@.len() ==> #[trigger] widths@[i] < usize::MAX - 2,
    ensures
        (r.0 as int, r.1 as int) == ls_layout(term_w as int, widths@),
{
    let mut m: usize = 10;
    if widths.len() > 0 {
        m = widths[0];
        let mut i: usize = 1;
        assert(widths@.subrange(0, 1).drop_last() =~= Seq::<usize>::empty());
        while i < widths.len()
            invariant
                1 <= i <= widths@.len(),
                m == max_of(widths@.subrange(0, i as int)),
                m < usize::MAX - 2,
                forall|k: int| 0 <= k < widths@.len() ==> #[trigger] widths@[k] < usize::MAX - 2,
            decreases widths@.len() - i,
        {
            assert(widths@.subrange(0, i + 1).drop_last() =~= widths@.subrange(0, i as int));
            assert(widths@.subrange(0, i + 1).last() == widths@[i as int]);
            assert(widths@.subrange(0, i + 1).len() > 1);
            if widths[i] > m {
                m = widths[i];
            }
            i = i + 1;
        }
        assert(widths@.subrange(0, widths@.len() as int) =~= widths@);
    }
    let w = m + 2;
    let c = term_w / w;
    (w, if c < 1 { 1 } else { c })
}

/// Whether `args` holds `a`.
pub fn has_arg(args: &[String], a: &str) -> (r: bool)
    ensures
        r == exists|i: int| 0 <= i < args@.len() && #[trigger] args@[i]@ == a@,
{
    let mut i: usize = 0;
    while i < args.len()
        invariant
            i <= args@.len(),
            forall|k: int| 0 <= k < i ==> #[trigger] args@[k]@ != a@,
        decreases args@.len() - i,
    {
        if str_eq(args[i].as_str(), a) {
            return true;
        }
        i = i + 1;
    }
    false
}

/// The flags of `rm`: recursive with `-r` or `-rf`, forced with `-f` or `-rf`.
pub fn rm_flags(args: &[String]) -> (r: (bool, bool))
    ensures
        r.0 == ((exists|i: int| 0 <= i < args@.len() && #[trigger] args@[i]@ == "-r"@)
            || (exists|i: int| 0 <= i < args@.len() && #[trigger] args@[i]@ == "-rf"@)),
        r.1 == ((exists|i: int| 0 <= i < args@.len() && #[trigger] args@[i]@ == "-f"@)
            || (exists|i: int| 0 <= i < args@.len() && #[trigger] args@[i]@ == "-rf"@)),
{
    let rf = has_arg(args, "-rf");
    (has_arg(args, "-r") || rf, has_arg(args, "-f") || rf)
}

/// The operands of `mount`: `-t` takes the next word as the file system type; the first
/// other word is the source and any later one the target; with no target, the only word
/// is the target and the source is empty.
pub open spec fn mount_scan(args: Seq<Seq<char>>, i: int, t: Seq<char>, src: Seq<char>, dst: Seq<char>)
    -> (Seq<char>, Seq<char>, Seq<char>)
    decreases args.len() - i,
{
    if i < 0 || i >= args.len() {
        if dst.len() == 0 { (t, Seq::empty(), src) } else { (t, src, dst) }
    } else if args[i] == "-t"@ {
        if i + 1 < args.len() { mount_scan(args, i + 2, args[i + 1], src, dst) }
        else { mount_scan(args, args.len() as int, t, src, dst) }
    } else if src.len() == 0 {
        mount_scan(args, i + 1, t, args[i], dst)
    } else {
        mount_scan(args, i + 1, t, src, args[i])
    }
}

/// The file system type, source and target that `mount` reads from `args` (see
/// `mount_scan`).
pub fn mount_args(args: &[String]) -> (r: (String, String, String))
    ensures
        (r.0@, r.1@, r.2@) == mount_scan(args@.map_values(|a: String| a@), 0, Seq::empty(), Seq::empty(), Seq::empty()),
{
    let ghost av = args@.map_values(|a: String| a@);
    let mut fs_type = String::new();
    let mut source = String::new();
    let mut target = String::new();
    let mut i: usize = 0;
    while i < args.len()
        invariant
            av == args@.map_values(|a: String| a@),
            i <= args@.len(),
            mount_scan(av, i as int, fs_type@, source@, target@)
                == mount_scan(av, 0, Seq::empty(), Seq::empty(), Seq::empty()),
        decreases args@.len() - i,
    {
        assert(av[i as int] == args@[i as int]@);
        if str_eq(args[i].as_str(), "-t") {
            if i + 1 < args.len() {
                fs_type = args[i + 1].clone();
                assert(fs_type@ == av[i + 1]);
                i = i + 2;
            } else {
                i = args.len();
            }
        } else if source.unicode_len() == 0 {
            source = args[i].clone();
            i = i + 1;
        } else {
            target = args[i].clone();
            i = i + 1;
        }
    }
    if target.unicode_len() == 0 {
        target = source;
        source = String::new();
    }
    (fs_type, source, target)
}

} // verus!

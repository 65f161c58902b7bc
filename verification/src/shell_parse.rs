//! Command-line parsing shared by the kernel shell and the host shell:
//! tokenizing with quotes and escapes, pipelines and redirections, `~` expansion.
use vstd::prelude::*;
use vstd::string::*;
use crate::text::{push_char, str_eq, substring};

verus! {

/// One command of a pipeline, with its redirections.
#[derive(Debug, Clone)]
pub struct SimpleCommand {
    pub args: Vec<String>,
    pub stdin_file: Option<String>,
    pub stdout_file: Option<String>,
    pub stdout_append: bool,
}

/// A pipeline: one command, or a pipeline whose output feeds one more command.
#[derive(Debug)]
pub enum Pipeline {
    Single(SimpleCommand),
    Pipe(Box<Pipeline>, SimpleCommand),
}

/// Why a command line could not be parsed.
#[derive(Debug, PartialEq, Eq, Structural)]
pub enum ParseError {
    UnterminatedQuote,
    Empty,
}

/// The abstract value of a command: its words and redirection targets as character sequences.
pub struct CommandView {
    pub args: Seq<Seq<char>>,
    pub stdin_file: Option<Seq<char>>,
    pub stdout_file: Option<Seq<char>>,
    pub stdout_append: bool,
}

pub open spec fn opt_view(o: Option<String>) -> Option<Seq<char>> {
    match o {
        Some(s) => Some(s@),
        None => None,
    }
}

impl SimpleCommand {
    pub open spec fn view(&self) -> CommandView {
        CommandView {
            args: self.args.deep_view(),
            stdin_file: opt_view(self.stdin_file),
            stdout_file: opt_view(self.stdout_file),
            stdout_append: self.stdout_append,
        }
    }
}

/// The commands of a pipeline, from first to last.
pub open spec fn pipeline_commands(p: Pipeline) -> Seq<CommandView>
    decreases p,
{
    match p {
        Pipeline::Single(c) => seq![c.view()],
        Pipeline::Pipe(left, c) => pipeline_commands(*left).push(c.view()),
    }
}

// ---------------------------------------------------------------- tokenizer

/// The tokenizer's state after a prefix of the input.
pub struct TokState {
    pub tokens: Seq<Seq<char>>,
    pub current: Seq<char>,
    pub in_single: bool,
    pub in_double: bool,
}

pub open spec fn tok_init() -> TokState {
    TokState { tokens: seq![], current: seq![], in_single: false, in_double: false }
}

pub open spec fn is_blank(c: char) -> bool {
    c == ' ' || c == '\t'
}

/// Runs the tokenizer over `s` from position `i` on, starting in state `st`.
/// A single quote toggles single-quoting outside double quotes, a double quote toggles
/// double-quoting outside single quotes, an unquoted blank ends the current word,
/// a backslash outside single quotes takes the next character literally
/// (or stands for itself at the end of input), anything else is part of the word.
pub open spec fn tok_run(s: Seq<char>, i: int, st: TokState) -> TokState
    decreases s.len() - i,
{
    if i < 0 || i >= s.len() {
        st
    } else {
        let c = s[i];
        if c == '\'' && !st.in_double {
            tok_run(s, i + 1, TokState { in_single: !st.in_single, ..st })
        } else if c == '"' && !st.in_single {
            tok_run(s, i + 1, TokState { in_double: !st.in_double, ..st })
        } else if is_blank(c) && !st.in_single && !st.in_double {
            if st.current.len() > 0 {
                tok_run(s, i + 1, TokState { tokens: st.tokens.push(st.current), current: seq![], ..st })
            } else {
                tok_run(s, i + 1, st)
            }
        } else if c == '\\' && !st.in_single {
            if i + 1 < s.len() {
                tok_run(s, i + 2, TokState { current: st.current.push(s[i + 1]), ..st })
            } else {
                tok_run(s, i + 1, TokState { current: st.current.push('\\'), ..st })
            }
        } else {
            tok_run(s, i + 1, TokState { current: st.current.push(c), ..st })
        }
    }
}

/// What `tokenize` gives for the characters `s`.
pub open spec fn spec_tokenize(s: Seq<char>) -> Result<Seq<Seq<char>>, ParseError> {
    let st = tok_run(s, 0, tok_init());
    if st.in_single || st.in_double {
        Err(ParseError::UnterminatedQuote)
    } else {
        let toks = if st.current.len() > 0 { st.tokens.push(st.current) } else { st.tokens };
        if toks.len() == 0 {
            Err(ParseError::Empty)
        } else {
            Ok(toks)
        }
    }
}

/// Splits a command line into words.
pub fn tokenize(input: &str) -> (r: Result<Vec<String>, ParseError>)
    ensures
        match r {
            Ok(v) => spec_tokenize(input@) == Ok::<Seq<Seq<char>>, ParseError>(v.deep_view()),
            Err(e) => spec_tokenize(input@) == Err::<Seq<Seq<char>>, ParseError>(e),
        },
{
    let ghost s = input@;
    let n = input.unicode_len();
    let mut tokens: Vec<String> = Vec::new();
    let mut current = String::new();
    let mut in_single = false;
    let mut in_double = false;
    let mut i: usize = 0;
    assert(tokens.deep_view() =~= Seq::<Seq<char>>::empty());
    while i < n
        invariant
            n == s.len(),
            s == input@,
            i <= n,
            tok_run(s, i as int, TokState { tokens: tokens.deep_view(), current: current@, in_single, in_double })
                == tok_run(s, 0, tok_init()),
        decreases n - i,
    {
        let c = input.get_char(i);
        let ghost st = TokState { tokens: tokens.deep_view(), current: current@, in_single, in_double };
        if c == '\'' && !in_double {
            in_single = !in_single;
            i = i + 1;
        } else if c == '"' && !in_single {
            in_double = !in_double;
            i = i + 1;
        } else if (c == ' ' || c == '\t') && !in_single && !in_double {
            if current.unicode_len() > 0 {
                let ghost old_tokens = tokens.deep_view();
                tokens.push(current);
                current = String::new();
                assert(tokens.deep_view() =~= old_tokens.push(st.current));
            }
            i = i + 1;
        } else if c == '\\' && !in_single {
            if i + 1 < n {
                let next = input.get_char(i + 1);
                push_char(&mut current, next);
                i = i + 2;
            } else {
                push_char(&mut current, '\\');
                i = i + 1;
            }
        } else {
            push_char(&mut current, c);
            i = i + 1;
        }
    }
    if in_single || in_double {
        return Err(ParseError::UnterminatedQuote);
    }
    if current.unicode_len() > 0 {
        let ghost old_tokens = tokens.deep_view();
        let ghost cur = current@;
        tokens.push(current);
        assert(tokens.deep_view() =~= old_tokens.push(cur));
    }
    if tokens.len() == 0 {
        return Err(ParseError::Empty);
    }
    Ok(tokens)
}


// ---------------------------------------------------------------- commands and pipelines

pub open spec fn lit_lt() -> Seq<char> { seq!['<'] }
pub open spec fn lit_gt() -> Seq<char> { seq!['>'] }
pub open spec fn lit_gtgt() -> Seq<char> { seq!['>', '>'] }
pub open spec fn lit_pipe() -> Seq<char> { seq!['|'] }

pub open spec fn empty_command() -> CommandView {
    CommandView { args: seq![], stdin_file: None, stdout_file: None, stdout_append: false }
}

/// Reads the words of one command from position `i` on: `<` takes the next word as the
/// input file, `>` and `>>` take it as the output file (replacing or appending), and a
/// redirection at the very end is dropped; every other word is an argument.
pub open spec fn simple_run(t: Seq<Seq<char>>, i: int, cv: CommandView) -> CommandView
    decreases t.len() - i,
{
    if i < 0 || i >= t.len() {
        cv
    } else if t[i] == lit_lt() {
        if i + 1 < t.len() {
            simple_run(t, i + 2, CommandView { stdin_file: Some(t[i + 1]), ..cv })
        } else {
            cv
        }
    } else if t[i] == lit_gt() {
        if i + 1 < t.len() {
            simple_run(t, i + 2, CommandView { stdout_file: Some(t[i + 1]), stdout_append: false, ..cv })
        } else {
            cv
        }
    } else if t[i] == lit_gtgt() {
        if i + 1 < t.len() {
            simple_run(t, i + 2, CommandView { stdout_file: Some(t[i + 1]), stdout_append: true, ..cv })
        } else {
            cv
        }
    } else {
        simple_run(t, i + 1, CommandView { args: cv.args.push(t[i]), ..cv })
    }
}

pub open spec fn spec_parse_simple(t: Seq<Seq<char>>) -> CommandView {
    simple_run(t, 0, empty_command())
}

fn clone_string(s: &String) -> (r: String)
    ensures
        r@ == s@,
{
    s.clone()
}

/// Builds one command from its words, taking out the redirections.
pub fn parse_simple(tokens: &[String]) -> (r: SimpleCommand)
    ensures
        r.view() == spec_parse_simple(tokens@.map_values(|s: String| s@)),
{
    let ghost t = tokens@.map_values(|s: String| s@);
    let mut args: Vec<String> = Vec::new();
    let mut stdin_file: Option<String> = None;
    let mut stdout_file: Option<String> = None;
    let mut stdout_append = false;
    let mut i: usize = 0;
    assert(args.deep_view() =~= Seq::<Seq<char>>::empty());
    while i < tokens.len()
        invariant
            t == tokens@.map_values(|s: String| s@),
            i <= tokens.len(),
            simple_run(t, i as int, CommandView {
                args: args.deep_view(),
                stdin_file: opt_view(stdin_file),
                stdout_file: opt_view(stdout_file),
                stdout_append,
            }) == spec_parse_simple(t),
        decreases tokens.len() - i,
    {
        let tok = tokens[i].as_str();
        assert(tok@ == t[i as int]);
        if str_eq(tok, "<") {
            proof { reveal_strlit("<"); }
            assert(t[i as int] =~= lit_lt());
            if i + 1 < tokens.len() {
                stdin_file = Some(clone_string(&tokens[i + 1]));
                i = i + 2;
            } else {
                i = tokens.len();
            }
        } else if str_eq(tok, ">") {
            proof { reveal_strlit(">"); reveal_strlit("<"); assert(lit_lt() =~= "<"@); }
            assert(t[i as int] =~= lit_gt());
            assert(t[i as int] != lit_lt());
            if i + 1 < tokens.len() {
                stdout_file = Some(clone_string(&tokens[i + 1]));
                stdout_append = false;
                i = i + 2;
            } else {
                i = tokens.len();
            }
        } else if str_eq(tok, ">>") {
            proof {
                reveal_strlit(">>"); reveal_strlit(">"); reveal_strlit("<");
                assert(lit_lt() =~= "<"@);
                assert(lit_gt() =~= ">"@);
            }
            assert(t[i as int] =~= lit_gtgt());
            assert(t[i as int] != lit_lt());
            assert(t[i as int] != lit_gt());
            if i + 1 < tokens.len() {
                stdout_file = Some(clone_string(&tokens[i + 1]));
                stdout_append = true;
                i = i + 2;
            } else {
                i = tokens.len();
            }
        } else {
            proof {
                reveal_strlit(">>"); reveal_strlit(">"); reveal_strlit("<");
                assert(lit_lt() =~= "<"@);
                assert(lit_gt() =~= ">"@);
                assert(lit_gtgt() =~= ">>"@);
            }
            let ghost old_args = args.deep_view();
            args.push(clone_string(&tokens[i]));
            assert(args.deep_view() =~= old_args.push(t[i as int]));
            i = i + 1;
        }
    }
    SimpleCommand { args, stdin_file, stdout_file, stdout_append }
}

/// Splits words at `|` into the word groups of the commands of a pipeline, from position
/// `i` on; `None` when a `|` has no words before it. A trailing `|` is ignored.
pub open spec fn pipe_run(t: Seq<Seq<char>>, i: int, cur: Seq<Seq<char>>, groups: Seq<Seq<Seq<char>>>)
    -> Option<Seq<Seq<Seq<char>>>>
    decreases t.len() - i,
{
    if i < 0 || i >= t.len() {
        if cur.len() > 0 { Some(groups.push(cur)) } else { Some(groups) }
    } else if t[i] == lit_pipe() {
        if cur.len() == 0 {
            None
        } else {
            pipe_run(t, i + 1, seq![], groups.push(cur))
        }
    } else {
        pipe_run(t, i + 1, cur.push(t[i]), groups)
    }
}

/// What `parse_pipeline` gives for the words `t`, as the list of its commands.
pub open spec fn spec_parse_pipeline(t: Seq<Seq<char>>) -> Result<Seq<CommandView>, ParseError> {
    match pipe_run(t, 0, seq![], seq![]) {
        None => Err(ParseError::Empty),
        Some(groups) => if groups.len() == 0 {
            Err(ParseError::Empty)
        } else {
            Ok(groups.map_values(|g: Seq<Seq<char>>| spec_parse_simple(g)))
        },
    }
}

pub open spec fn opt_pipeline_commands(p: Option<Pipeline>) -> Seq<CommandView> {
    match p {
        None => seq![],
        Some(q) => pipeline_commands(q),
    }
}

/// Parses words into a pipeline of commands joined by `|`.
pub fn parse_pipeline(tokens: &[String]) -> (r: Result<Pipeline, ParseError>)
    ensures
        match r {
            Ok(p) => spec_parse_pipeline(tokens@.map_values(|s: String| s@))
                == Ok::<Seq<CommandView>, ParseError>(pipeline_commands(p)),
            Err(e) => spec_parse_pipeline(tokens@.map_values(|s: String| s@))
                == Err::<Seq<CommandView>, ParseError>(e),
        },
{
    let ghost t = tokens@.map_values(|s: String| s@);
    let mut current: Vec<String> = Vec::new();
    let mut pipeline: Option<Pipeline> = None;
    let ghost mut groups: Seq<Seq<Seq<char>>> = seq![];
    let mut i: usize = 0;
    assert(current@.map_values(|s: String| s@) =~= Seq::<Seq<char>>::empty());
    assert(groups.map_values(|g: Seq<Seq<char>>| spec_parse_simple(g)) =~= Seq::<CommandView>::empty());
    while i < tokens.len()
        invariant
            t == tokens@.map_values(|s: String| s@),
            i <= tokens.len(),
            pipe_run(t, i as int, current@.map_values(|s: String| s@), groups) == pipe_run(t, 0, seq![], seq![]),
            opt_pipeline_commands(pipeline) == groups.map_values(|g: Seq<Seq<char>>| spec_parse_simple(g)),
            pipeline is None <==> groups.len() == 0,
        decreases tokens.len() - i,
    {
        let tok = tokens[i].as_str();
        assert(tok@ == t[i as int]);
        if str_eq(tok, "|") {
            proof { reveal_strlit("|"); }
            assert(t[i as int] =~= lit_pipe());
            if current.len() == 0 {
                assert(current@.map_values(|s: String| s@) =~= Seq::<Seq<char>>::empty());
                return Err(ParseError::Empty);
            }
            let cmd = parse_simple(current.as_slice());
            let ghost g = current@.map_values(|s: String| s@);
            proof {
                let ng = groups.push(g);
                assert(ng.map_values(|x: Seq<Seq<char>>| spec_parse_simple(x))
                    =~= groups.map_values(|x: Seq<Seq<char>>| spec_parse_simple(x)).push(spec_parse_simple(g)));
                groups = ng;
            }
            pipeline = match pipeline {
                None => Some(Pipeline::Single(cmd)),
                Some(p) => Some(Pipeline::Pipe(Box::new(p), cmd)),
            };
            current = Vec::new();
            assert(current@.map_values(|s: String| s@) =~= Seq::<Seq<char>>::empty());
        } else {
            proof {
                reveal_strlit("|");
                assert(lit_pipe() =~= "|"@);
            }
            let ghost old = current@.map_values(|s: String| s@);
            current.push(clone_string(&tokens[i]));
            assert(current@.map_values(|s: String| s@) =~= old.push(t[i as int]));
        }
        i = i + 1;
    }
    if current.len() > 0 {
        let cmd = parse_simple(current.as_slice());
        let ghost g = current@.map_values(|s: String| s@);
        proof {
            let ng = groups.push(g);
            assert(ng.map_values(|x: Seq<Seq<char>>| spec_parse_simple(x))
                =~= groups.map_values(|x: Seq<Seq<char>>| spec_parse_simple(x)).push(spec_parse_simple(g)));
            groups = ng;
        }
        pipeline = match pipeline {
            None => Some(Pipeline::Single(cmd)),
            Some(p) => Some(Pipeline::Pipe(Box::new(p), cmd)),
        };
    }
    match pipeline {
        None => Err(ParseError::Empty),
        Some(p) => Ok(p),
    }
}

/// Whether `c` joins the current word as it is: in double quotes anything but a double
/// quote or a backslash; outside quotes anything but a blank, a quote or a backslash.
pub open spec fn plain_in(c: char, in_double: bool) -> bool {
    c != '"' && c != '\\' && (in_double || (c != '\'' && !is_blank(c)))
}

/// A run of characters that join the word as they are is appended to the current word.
proof fn lemma_plain_run(s: Seq<char>, i: int, j: int, st: TokState)
    requires
        0 <= i <= j <= s.len(),
        !st.in_single,
        forall|k: int| i <= k < j ==> plain_in(#[trigger] s[k], st.in_double),
    ensures
        tok_run(s, i, st) == tok_run(s, j, TokState { current: st.current + s.subrange(i, j), ..st }),
    decreases j - i,
{
    if i == j {
        assert(st.current + s.subrange(i, j) =~= st.current);
        assert(TokState { current: st.current + s.subrange(i, j), ..st } == st);
    } else {
        let c = s[i];
        assert(plain_in(c, st.in_double));
        let st1 = TokState { current: st.current.push(c), ..st };
        assert(tok_run(s, i, st) == tok_run(s, i + 1, st1));
        lemma_plain_run(s, i + 1, j, st1);
        assert(st1.current + s.subrange(i + 1, j) =~= st.current + s.subrange(i, j));
    }
}

/// A double quote never ends a word: a word `w1`, then text `q` in double quotes, then a
/// word `w2`, with no blank, quote or backslash in the words and no double quote or
/// backslash in `q`, is one word, the line without its quotes, even when `q` holds blanks.
pub proof fn law_quotes_join_the_word(w1: Seq<char>, q: Seq<char>, w2: Seq<char>)
    requires
        forall|k: int| 0 <= k < w1.len() ==> plain_in(#[trigger] w1[k], false),
        forall|k: int| 0 <= k < q.len() ==> plain_in(#[trigger] q[k], true),
        forall|k: int| 0 <= k < w2.len() ==> plain_in(#[trigger] w2[k], false),
        w1.len() + q.len() + w2.len() > 0,
    ensures
        spec_tokenize(w1 + seq!['"'] + q + seq!['"'] + w2) == Ok::<Seq<Seq<char>>, ParseError>(seq![w1 + q + w2]),
{
    let s = w1 + seq!['"'] + q + seq!['"'] + w2;
    let a = w1.len() as int;
    let b = a + 1 + q.len();
    let st0 = tok_init();
    assert forall|k: int| 0 <= k < a implies plain_in(#[trigger] s[k], false) by {
        assert(s[k] == w1[k]);
    }
    lemma_plain_run(s, 0, a, st0);
    assert(s.subrange(0, a) =~= w1);
    let st1 = TokState { current: w1, ..st0 };
    assert(TokState { current: st0.current + s.subrange(0, a), ..st0 } == st1) by {
        assert(st0.current + s.subrange(0, a) =~= w1);
    }
    assert(s[a] == '"');
    let st2 = TokState { in_double: true, ..st1 };
    assert(tok_run(s, a, st1) == tok_run(s, a + 1, st2));
    assert forall|k: int| a + 1 <= k < b implies plain_in(#[trigger] s[k], true) by {
        assert(s[k] == q[k - a - 1]);
    }
    lemma_plain_run(s, a + 1, b, st2);
    let st3 = TokState { current: w1 + q, ..st2 };
    assert(TokState { current: st2.current + s.subrange(a + 1, b), ..st2 } == st3) by {
        assert(s.subrange(a + 1, b) =~= q);
    }
    assert(s[b] == '"');
    let st4 = TokState { in_double: false, ..st3 };
    assert(tok_run(s, b, st3) == tok_run(s, b + 1, st4));
    assert forall|k: int| b + 1 <= k < s.len() implies plain_in(#[trigger] s[k], false) by {
        assert(s[k] == w2[k - b - 1]);
    }
    lemma_plain_run(s, b + 1, s.len() as int, st4);
    let st5 = TokState { current: w1 + q + w2, ..st4 };
    assert(TokState { current: st4.current + s.subrange(b + 1, s.len() as int), ..st4 } == st5) by {
        assert(s.subrange(b + 1, s.len() as int) =~= w2);
    }
    assert(tok_run(s, s.len() as int, st5) == st5);
    assert(st5.tokens.push(st5.current) =~= seq![w1 + q + w2]);
}

// ---------------------------------------------------------------- paths

/// `~` alone is the home directory, `~/rest` is the home directory followed by `/rest`,
/// anything else is left as it is.
pub open spec fn spec_expand_path(path: Seq<char>, home: Seq<char>) -> Seq<char> {
    if path == seq!['~'] {
        home
    } else if path.len() >= 2 && path[0] == '~' && path[1] == '/' {
        home + path.subrange(1, path.len() as int)
    } else {
        path
    }
}

/// Expands a leading `~` in a path.
pub fn expand_path(path: &str, home: &str) -> (r: String)
    ensures
        r@ == spec_expand_path(path@, home@),
{
    let n = path.unicode_len();
    if n == 1 && path.get_char(0) == '~' {
        assert(path@ =~= seq!['~']);
        String::from_str(home)
    } else if n >= 2 && path.get_char(0) == '~' && path.get_char(1) == '/' {
        let mut s = String::from_str(home);
        let rest = substring(path, 1, n);
        s.append(rest.as_str());
        s
    } else {
        proof {
            if path@ == seq!['~'] {
                assert(path@.len() == 1);
            }
        }
        String::from_str(path)
    }
}

/// Expanding twice is expanding once, as long as the home directory itself does not start
/// with `~/`; and a path other than `~` and `~/...` is left as it is.
pub proof fn law_expand_path_idempotent(path: Seq<char>, home: Seq<char>)
    requires
        !(home.len() >= 2 && home[0] == '~' && home[1] == '/'),
    ensures
        spec_expand_path(spec_expand_path(path, home), home) == spec_expand_path(path, home),
        path != seq!['~'] && !(path.len() >= 2 && path[0] == '~' && path[1] == '/')
            ==> spec_expand_path(path, home) == path,
{
    if home == seq!['~'] {
        if path.len() >= 2 && path[0] == '~' && path[1] == '/' {
            assert(home + path.subrange(1, path.len() as int) =~= path);
        }
    } else if path.len() >= 2 && path[0] == '~' && path[1] == '/' && path != seq!['~'] {
        let e = home + path.subrange(1, path.len() as int);
        assert(e[home.len() as int] == '/');
        if e == seq!['~'] {
            assert(e.len() == 1);
        }
        if e.len() >= 2 && e[0] == '~' && e[1] == '/' {
            if home.len() == 0 {
                assert(e[0] == '/');
            } else if home.len() == 1 {
                assert(home =~= seq!['~']);
            }
        }
    }
}

} // verus!

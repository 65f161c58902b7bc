use mizu::shell_parse::{expand_path, parse_pipeline, parse_simple, tokenize, ParseError, Pipeline};

#[test]
fn test_tokenize_simple() {
    let t = tokenize("ls -la /tmp").unwrap();
    assert_eq!(t, vec!["ls", "-la", "/tmp"]);
}

#[test]
fn test_tokenize_quotes() {
    let t = tokenize(r#"echo "hello world" 'single quotes'"#).unwrap();
    assert_eq!(t, vec!["echo", "hello world", "single quotes"]);
}

#[test]
fn test_tokenize_pipe() {
    let t = tokenize("ls | grep foo").unwrap();
    assert_eq!(t, vec!["ls", "|", "grep", "foo"]);
}

#[test]
fn test_parse_redirect() {
    let tokens = tokenize("cat < input.txt > output.txt").unwrap();
    let cmd = parse_simple(&tokens);
    assert_eq!(cmd.args, vec!["cat"]);
    assert_eq!(cmd.stdin_file, Some("input.txt".into()));
    assert_eq!(cmd.stdout_file, Some("output.txt".into()));
}

#[test]
fn test_parse_pipeline() {
    let tokens = tokenize("ls -la | grep mizu | wc -l").unwrap();
    let pipeline = parse_pipeline(&tokens).unwrap();
    match pipeline {
        Pipeline::Pipe(_, _) => assert!(true),
        _ => panic!("expected pipe"),
    }
}

#[test]
fn test_expand_path() {
    assert_eq!(expand_path("~/foo", "/root"), "/root/foo");
    assert_eq!(expand_path("~", "/home/mizu"), "/home/mizu");
    assert_eq!(expand_path("/bin", "/root"), "/bin");
}

#[test]
fn tokenize_escapes_and_tabs() {
    let t = tokenize("a\\ b\tc 'x\\y' \"p\\\"q\"").unwrap();
    assert_eq!(t, vec!["a b", "c", "x\\y", "p\"q"]);
    let t = tokenize("end\\").unwrap();
    assert_eq!(t, vec!["end\\"]);
    let t = tokenize("\"it's\"").unwrap();
    assert_eq!(t, vec!["it's"]);
}

#[test]
fn tokenize_errors() {
    assert_eq!(tokenize("echo 'oops").unwrap_err(), ParseError::UnterminatedQuote);
    assert_eq!(tokenize("echo \"oops").unwrap_err(), ParseError::UnterminatedQuote);
    assert_eq!(tokenize("   \t ").unwrap_err(), ParseError::Empty);
    assert_eq!(tokenize("").unwrap_err(), ParseError::Empty);
    assert_eq!(tokenize("''").unwrap_err(), ParseError::Empty);
}

#[test]
fn parse_simple_append_and_dangling() {
    let tokens = tokenize("echo hi >> log.txt").unwrap();
    let cmd = parse_simple(&tokens);
    assert_eq!(cmd.args, vec!["echo", "hi"]);
    assert_eq!(cmd.stdout_file, Some("log.txt".into()));
    assert!(cmd.stdout_append);
    assert_eq!(cmd.stdin_file, None);
    let tokens = tokenize("cat <").unwrap();
    let cmd = parse_simple(&tokens);
    assert_eq!(cmd.args, vec!["cat"]);
    assert_eq!(cmd.stdin_file, None);
    let tokens = tokenize("a > x > y").unwrap();
    let cmd = parse_simple(&tokens);
    assert_eq!(cmd.stdout_file, Some("y".into()));
    assert!(!cmd.stdout_append);
}

#[test]
fn parse_pipeline_shapes() {
    let tokens = tokenize("ls | grep foo | wc").unwrap();
    match parse_pipeline(&tokens).unwrap() {
        Pipeline::Pipe(left, last) => {
            assert_eq!(last.args, vec!["wc"]);
            match *left {
                Pipeline::Pipe(first, mid) => {
                    assert_eq!(mid.args, vec!["grep", "foo"]);
                    match *first {
                        Pipeline::Single(c) => assert_eq!(c.args, vec!["ls"]),
                        _ => panic!("expected single"),
                    }
                }
                _ => panic!("expected pipe"),
            }
        }
        _ => panic!("expected pipe"),
    }
    let tokens = tokenize("ls |").unwrap();
    match parse_pipeline(&tokens).unwrap() {
        Pipeline::Single(c) => assert_eq!(c.args, vec!["ls"]),
        _ => panic!("expected single"),
    }
    let tokens = tokenize("| ls").unwrap();
    assert_eq!(parse_pipeline(&tokens).unwrap_err(), ParseError::Empty);
    let tokens = tokenize("ls | | wc").unwrap();
    assert_eq!(parse_pipeline(&tokens).unwrap_err(), ParseError::Empty);
    let tokens = tokenize("|").unwrap();
    assert_eq!(parse_pipeline(&tokens).unwrap_err(), ParseError::Empty);
}

#[test]
fn expand_path_edge_cases() {
    assert_eq!(expand_path("~x", "/root"), "~x");
    assert_eq!(expand_path("~/", "/root"), "/root/");
    assert_eq!(expand_path("a/~/b", "/root"), "a/~/b");
    assert_eq!(expand_path("", "/root"), "");
}

use rs_pipe::parser::{parse_tokens, tokenize};
use rs_pipe::{parse, starts, Command};

fn cmd(argv: &[&str], stdin: Option<&str>, stdout: Option<&str>) -> Command {
    Command {
        command: argv.iter().map(|s| String::from(*s)).collect(),
        stdin: stdin.map(String::from),
        stdout: stdout.map(String::from),
    }
}

#[test]
fn test_simple_parse() {
    assert_eq!(
        parse(">foo bar < zog | wc -l"),
        vec![
            cmd(&["bar"], Some("zog"), Some("foo")),
            cmd(&["wc", "-l"], None, None),
        ]
    );
}

#[test]
fn parse_empty_line_gives_one_empty_stage() {
    let stages = parse("");
    assert_eq!(stages, vec![cmd(&[], None, None)]);
    let stages = parse("   \t  ");
    assert_eq!(stages, vec![cmd(&[], None, None)]);
}

#[test]
fn parse_never_returns_empty_pipeline() {
    for line in ["", "|", "a | b", "< > |", "   "] {
        assert!(parse(line).len() >= 1);
    }
}

#[test]
fn parse_plain_command_keeps_argument_order() {
    assert_eq!(
        parse("cmd arg1 arg2"),
        vec![cmd(&["cmd", "arg1", "arg2"], None, None)]
    );
}

#[test]
fn parse_fused_and_spaced_redirections_agree() {
    let expected = vec![cmd(&["cmd"], Some("in"), Some("out"))];
    assert_eq!(parse(">out cmd < in"), expected);
    assert_eq!(parse("> out cmd <in"), expected);
    assert_eq!(parse("> out cmd < in"), expected);
    assert_eq!(parse(">out cmd <in"), expected);
}

#[test]
fn parse_splits_stages_on_pipes() {
    assert_eq!(
        parse("a | b | c"),
        vec![
            cmd(&["a"], None, None),
            cmd(&["b"], None, None),
            cmd(&["c"], None, None),
        ]
    );
}

#[test]
fn parse_collapses_whitespace_runs() {
    assert_eq!(
        parse("  echo\t  hi \t "),
        vec![cmd(&["echo", "hi"], None, None)]
    );
}

#[test]
fn parse_trailing_bare_redirect_has_no_target() {
    assert_eq!(parse("cmd <"), vec![cmd(&["cmd"], None, None)]);
    assert_eq!(parse("cmd >"), vec![cmd(&["cmd"], None, None)]);
}

#[test]
fn parse_redirection_only_stage_has_empty_argv() {
    assert_eq!(parse(">out"), vec![cmd(&[], None, Some("out"))]);
    assert_eq!(parse("<in"), vec![cmd(&[], Some("in"), None)]);
}

#[test]
fn parse_pending_redirect_crosses_a_pipe() {
    // A redirection flag raised before a `|` is consumed by the first
    // word of the next stage.
    assert_eq!(
        parse("a < | b"),
        vec![cmd(&["a"], None, None), cmd(&[], Some("b"), None)]
    );
}

#[test]
fn parse_pending_input_claims_fused_output_target() {
    // With an input redirection pending, a fused `>file` token's
    // remainder is consumed as the input target first; the output flag
    // it raised then claims the next word.
    assert_eq!(
        parse("cmd < >both next"),
        vec![cmd(&["cmd"], Some("both"), Some("next"))]
    );
}

#[test]
fn parse_counts_one_stage_per_pipe_token() {
    assert_eq!(
        parse("| |"),
        vec![cmd(&[], None, None), cmd(&[], None, None), cmd(&[], None, None)]
    );
    assert_eq!(parse("a | | b").len(), 3);
}

#[test]
fn parse_tokens_takes_any_words() {
    // An empty word cannot come out of the tokenizer, but the
    // token-level parser accepts it as an ordinary argument.
    let stages = parse_tokens(&vec![String::from("cmd"), String::new()]);
    assert_eq!(stages, vec![cmd(&["cmd", ""], None, None)]);
}

#[test]
fn tokenize_splits_on_whitespace() {
    assert_eq!(tokenize("  a  bb\tc "), vec!["a", "bb", "c"]);
    assert_eq!(tokenize(""), Vec::<String>::new());
}

#[test]
fn starts_needs_length_and_leading_symbol() {
    assert!(starts("<file", '<'));
    assert!(starts(">>", '>'));
    assert!(!starts("<", '<'));
    assert!(!starts("x<", '<'));
    assert!(!starts("", '<'));
}

//! The pipeline parser: a raw command line becomes a sequence of stage
//! descriptors. The parser is a pure function; its behaviour is pinned
//! down by a token-by-token fold specification (`parse_fold`).

use vstd::prelude::*;
use vstd::string::StrSliceExecFns;
use vstd::string::StringExecFns;

verus! {

/// One pipeline stage: a program with its arguments and optional
/// input/output redirection targets.
#[derive(Debug, PartialEq, Eq)]
pub struct Command {
    /// Program name followed by its arguments. May be empty for a
    /// redirection-only clause; such a stage is a no-op at execution.
    pub command: Vec<String>,
    /// When present, the stage's standard input is read from this file.
    pub stdin: Option<String>,
    /// When present, the stage's standard output is written to this file.
    pub stdout: Option<String>,
}

/// The mathematical model of a stage: plain character sequences.
#[verifier::ext_equal]
pub ghost struct CommandView {
    pub command: Seq<Seq<char>>,
    pub stdin: Option<Seq<char>>,
    pub stdout: Option<Seq<char>>,
}

impl View for Command {
    type V = CommandView;

    open spec fn view(&self) -> CommandView {
        CommandView {
            command: self.command.deep_view(),
            stdin: self.stdin.deep_view(),
            stdout: self.stdout.deep_view(),
        }
    }
}

impl DeepView for Command {
    type V = CommandView;

    open spec fn deep_view(&self) -> CommandView {
        self.view()
    }
}

/// Whether `tok` is longer than one character and begins with `sym`:
/// the shape of a fused redirection token such as `<file` or `>file`.
pub open spec fn spec_starts(tok: Seq<char>, sym: char) -> bool {
    tok.len() > 1 && tok[0] == sym
}

/// Whether `word` is longer than one character and begins with `sym`.
pub fn starts(word: &str, sym: char) -> (r: bool)
    ensures
        r == spec_starts(word@, sym),
{
    let n = word.unicode_len();
    n > 1 && word.get_char(0) == sym
}

/// The Unicode `White_Space` characters: the separators on which a
/// command line is split into tokens.
pub open spec fn spec_is_ws(c: char) -> bool {
    ||| c == '\u{0009}'
    ||| c == '\u{000A}'
    ||| c == '\u{000B}'
    ||| c == '\u{000C}'
    ||| c == '\u{000D}'
    ||| c == '\u{0020}'
    ||| c == '\u{0085}'
    ||| c == '\u{00A0}'
    ||| c == '\u{1680}'
    ||| ('\u{2000}' <= c && c <= '\u{200A}')
    ||| c == '\u{2028}'
    ||| c == '\u{2029}'
    ||| c == '\u{202F}'
    ||| c == '\u{205F}'
    ||| c == '\u{3000}'
}

/// Whether `c` is a token separator (Unicode whitespace).
pub fn is_ws(c: char) -> (r: bool)
    ensures
        r == spec_is_ws(c),
{
    c == '\u{0009}' || c == '\u{000A}' || c == '\u{000B}' || c == '\u{000C}' || c == '\u{000D}'
        || c == '\u{0020}' || c == '\u{0085}' || c == '\u{00A0}' || c == '\u{1680}' || ('\u{2000}'
        <= c && c <= '\u{200A}') || c == '\u{2028}' || c == '\u{2029}' || c == '\u{202F}' || c
        == '\u{205F}' || c == '\u{3000}'
}

/// One step of the tokenizer fold: the accumulator holds the finished
/// tokens and the (possibly empty) token being gathered.
pub open spec fn tok_step(acc: (Seq<Seq<char>>, Seq<char>), c: char) -> (Seq<Seq<char>>, Seq<char>) {
    if spec_is_ws(c) {
        if acc.1.len() == 0 {
            acc
        } else {
            (acc.0.push(acc.1), Seq::empty())
        }
    } else {
        (acc.0, acc.1.push(c))
    }
}

/// The tokenizer fold over a whole character sequence.
pub open spec fn tok_fold(s: Seq<char>) -> (Seq<Seq<char>>, Seq<char>)
    decreases s.len(),
{
    if s.len() == 0 {
        (Seq::empty(), Seq::empty())
    } else {
        tok_step(tok_fold(s.drop_last()), s.last())
    }
}

/// The tokens of a line: the fold's finished tokens, plus the trailing
/// token if the line does not end in whitespace. Every token is a
/// maximal non-empty run of non-whitespace characters.
pub open spec fn spec_tokens(s: Seq<char>) -> Seq<Seq<char>> {
    let acc = tok_fold(s);
    if acc.1.len() == 0 {
        acc.0
    } else {
        acc.0.push(acc.1)
    }
}

proof fn lemma_tok_fold_step(s: Seq<char>, i: int)
    requires
        0 <= i < s.len(),
    ensures
        tok_fold(s.take(i + 1)) == tok_step(tok_fold(s.take(i)), s[i]),
{
    assert(s.take(i + 1).drop_last() =~= s.take(i));
    assert(s.take(i + 1).last() == s[i]);
}

/// Splits `line` into whitespace-delimited tokens.
pub fn tokenize(line: &str) -> (r: Vec<String>)
    ensures
        r.deep_view() == spec_tokens(line@),
{
    let ghost s = line@;
    let n = line.unicode_len();
    let mut toks: Vec<String> = Vec::new();
    let mut start: usize = 0;
    let mut i: usize = 0;
    while i < n
        invariant
            s == line@,
            n == s.len(),
            start <= i <= n,
            toks.deep_view() == tok_fold(s.take(i as int)).0,
            s.subrange(start as int, i as int) == tok_fold(s.take(i as int)).1,
        decreases n - i,
    {
        let c = line.get_char(i);
        proof {
            lemma_tok_fold_step(s, i as int);
        }
        if is_ws(c) {
            if start < i {
                let t = line.substring_char(start, i);
                let ghost old_dv = toks.deep_view();
                toks.push(String::from_str(t));
                proof {
                    assert(toks.deep_view() =~= old_dv.push(s.subrange(
                        start as int,
                        i as int,
                    )));
                }
            }
            start = i + 1;
        }
        i = i + 1;
        proof {
            assert(s.subrange(start as int, i as int) =~= tok_fold(s.take(i as int)).1);
        }
    }
    proof {
        assert(s.take(n as int) =~= s);
    }
    if start < n {
        let t = line.substring_char(start, n);
        let ghost old_dv = toks.deep_view();
        toks.push(String::from_str(t));
        proof {
            assert(toks.deep_view() =~= old_dv.push(s.subrange(start as int, n as int)));
        }
    }
    toks
}

/// A stage with no arguments and no redirections.
pub open spec fn empty_stage() -> CommandView {
    CommandView { command: Seq::empty(), stdin: None, stdout: None }
}

/// The parser's running state: finished stages, the stage being built,
/// and the two pending-redirection flags.
#[verifier::ext_equal]
pub ghost struct ParseState {
    pub done: Seq<CommandView>,
    pub cur: CommandView,
    pub next_stdin: bool,
    pub next_stdout: bool,
}

/// The state before any token has been read.
pub open spec fn init_state() -> ParseState {
    ParseState { done: Seq::empty(), cur: empty_stage(), next_stdin: false, next_stdout: false }
}

/// How a word is consumed once redirection prefixes are stripped: a
/// pending input redirection claims it first, then a pending output
/// redirection, and otherwise it joins the argument list.
pub open spec fn spec_consume(cur: CommandView, next_stdin: bool, next_stdout: bool, w: Seq<char>) -> (
    CommandView,
    bool,
    bool,
) {
    if next_stdin {
        (CommandView { command: cur.command, stdin: Some(w), stdout: cur.stdout }, false, next_stdout)
    } else if next_stdout {
        (CommandView { command: cur.command, stdin: cur.stdin, stdout: Some(w) }, next_stdin, false)
    } else {
        (
            CommandView { command: cur.command.push(w), stdin: cur.stdin, stdout: cur.stdout },
            next_stdin,
            next_stdout,
        )
    }
}

/// One parser step. A bare `<` or `>` only raises a flag; a fused
/// `<file` or `>file` raises the flag and supplies its remainder in the
/// same step; `|` finishes the current stage; anything else is consumed
/// as a redirection target or an argument.
pub open spec fn parse_step(st: ParseState, tok: Seq<char>) -> ParseState {
    if tok == seq!['<'] {
        ParseState { done: st.done, cur: st.cur, next_stdin: true, next_stdout: st.next_stdout }
    } else if spec_starts(tok, '<') {
        let r = spec_consume(st.cur, true, st.next_stdout, tok.drop_first());
        ParseState { done: st.done, cur: r.0, next_stdin: r.1, next_stdout: r.2 }
    } else if tok == seq!['>'] {
        ParseState { done: st.done, cur: st.cur, next_stdin: st.next_stdin, next_stdout: true }
    } else if spec_starts(tok, '>') {
        let r = spec_consume(st.cur, st.next_stdin, true, tok.drop_first());
        ParseState { done: st.done, cur: r.0, next_stdin: r.1, next_stdout: r.2 }
    } else if tok == seq!['|'] {
        ParseState {
            done: st.done.push(st.cur),
            cur: empty_stage(),
            next_stdin: st.next_stdin,
            next_stdout: st.next_stdout,
        }
    } else {
        let r = spec_consume(st.cur, st.next_stdin, st.next_stdout, tok);
        ParseState { done: st.done, cur: r.0, next_stdin: r.1, next_stdout: r.2 }
    }
}

/// The parser fold over a whole token sequence.
pub open spec fn parse_fold(toks: Seq<Seq<char>>) -> ParseState
    decreases toks.len(),
{
    if toks.len() == 0 {
        init_state()
    } else {
        parse_step(parse_fold(toks.drop_last()), toks.last())
    }
}

/// The pipeline described by a token sequence: the finished stages,
/// with the stage still being built appended unconditionally, so that a
/// pipeline always has at least one stage.
pub open spec fn spec_parse(toks: Seq<Seq<char>>) -> Seq<CommandView> {
    let st = parse_fold(toks);
    st.done.push(st.cur)
}

/// The pipeline described by a raw line.
pub open spec fn spec_parse_line(s: Seq<char>) -> Seq<CommandView> {
    spec_parse(spec_tokens(s))
}

proof fn lemma_parse_fold_step(toks: Seq<Seq<char>>, i: int)
    requires
        0 <= i < toks.len(),
    ensures
        parse_fold(toks.take(i + 1)) == parse_step(parse_fold(toks.take(i)), toks[i]),
{
    assert(toks.take(i + 1).drop_last() =~= toks.take(i));
    assert(toks.take(i + 1).last() == toks[i]);
}

fn consume_word(cur: &mut Command, next_stdin: &mut bool, next_stdout: &mut bool, w: String)
    ensures
        (final(cur)@, *final(next_stdin), *final(next_stdout)) == spec_consume(
            old(cur)@,
            *old(next_stdin),
            *old(next_stdout),
            w@,
        ),
{
    if *next_stdin {
        cur.stdin = Some(w);
        *next_stdin = false;
    } else if *next_stdout {
        cur.stdout = Some(w);
        *next_stdout = false;
    } else {
        let ghost old_cmd = cur.command.deep_view();
        let ghost wv = w@;
        cur.command.push(w);
        proof {
            assert(cur.command.deep_view() =~= old_cmd.push(wv));
        }
    }
}

/// Parses an already-tokenized line into its pipeline stages.
pub fn parse_tokens(tokens: &Vec<String>) -> (r: Vec<Command>)
    ensures
        r.deep_view() == spec_parse(tokens.deep_view()),
        r@.len() >= 1,
{
    let ghost toks = tokens.deep_view();
    let mut done: Vec<Command> = Vec::new();
    let mut cur = Command { command: Vec::new(), stdin: None, stdout: None };
    let mut next_stdin = false;
    let mut next_stdout = false;
    proof {
        assert(cur@.command =~= Seq::<Seq<char>>::empty());
    }
    let n = tokens.len();
    let mut idx: usize = 0;
    while idx < n
        invariant
            toks == tokens.deep_view(),
            n == tokens@.len(),
            idx <= n,
            parse_fold(toks.take(idx as int)) == (ParseState {
                done: done.deep_view(),
                cur: cur@,
                next_stdin: next_stdin,
                next_stdout: next_stdout,
            }),
        decreases n - idx,
    {
        proof {
            lemma_parse_fold_step(toks, idx as int);
        }
        let tok = &tokens[idx];
        let ghost tv = toks[idx as int];
        proof {
            assert(tv == tok@);
        }
        let tl = tok.as_str().unicode_len();
        let is_lt = tl == 1 && tok.as_str().get_char(0) == '<';
        let starts_lt = tl > 1 && tok.as_str().get_char(0) == '<';
        let is_gt = tl == 1 && tok.as_str().get_char(0) == '>';
        let starts_gt = tl > 1 && tok.as_str().get_char(0) == '>';
        let is_pipe = tl == 1 && tok.as_str().get_char(0) == '|';
        proof {
            if is_lt {
                assert(tv =~= seq!['<']);
            }
            if is_gt {
                assert(tv =~= seq!['>']);
            }
            if is_pipe {
                assert(tv =~= seq!['|']);
            }
            if !is_lt {
                assert(tv != seq!['<']) by {
                    if tv == seq!['<'] {
                        assert(tv.len() == 1 && tv[0] == '<');
                    }
                }
            }
            if !is_gt {
                assert(tv != seq!['>']) by {
                    if tv == seq!['>'] {
                        assert(tv.len() == 1 && tv[0] == '>');
                    }
                }
            }
            if !is_pipe {
                assert(tv != seq!['|']) by {
                    if tv == seq!['|'] {
                        assert(tv.len() == 1 && tv[0] == '|');
                    }
                }
            }
        }
        if is_lt {
            next_stdin = true;
        } else if starts_lt {
            next_stdin = true;
            let w = String::from_str(tok.as_str().substring_char(1, tl));
            proof {
                assert(w@ =~= tv.drop_first());
            }
            consume_word(&mut cur, &mut next_stdin, &mut next_stdout, w);
        } else if is_gt {
            next_stdout = true;
        } else if starts_gt {
            next_stdout = true;
            let w = String::from_str(tok.as_str().substring_char(1, tl));
            proof {
                assert(w@ =~= tv.drop_first());
            }
            consume_word(&mut cur, &mut next_stdin, &mut next_stdout, w);
        } else if is_pipe {
            let ghost old_done = done.deep_view();
            let ghost old_cur = cur@;
            done.push(cur);
            cur = Command { command: Vec::new(), stdin: None, stdout: None };
            proof {
                assert(done.deep_view() =~= old_done.push(old_cur));
                assert(cur@.command =~= Seq::<Seq<char>>::empty());
            }
        } else {
            let w = tok.clone();
            consume_word(&mut cur, &mut next_stdin, &mut next_stdout, w);
        }
        idx = idx + 1;
    }
    proof {
        assert(toks.take(n as int) =~= toks);
    }
    let ghost old_done = done.deep_view();
    let ghost old_cur = cur@;
    done.push(cur);
    proof {
        assert(done.deep_view() =~= old_done.push(old_cur));
    }
    done
}

/// Whether a token is an ordinary word: non-empty, not the pipe
/// separator, and not a redirection token of either form.
pub open spec fn is_plain_word(w: Seq<char>) -> bool {
    w.len() >= 1 && w != seq!['|'] && w[0] != '<' && w[0] != '>'
}

/// Spaced and fused input redirection agree: reading the bare token `<`
/// and then a plain word leaves the parser exactly where the fused
/// token `<word` does, from any state.
pub proof fn lemma_stdin_fusion(st: ParseState, w: Seq<char>)
    requires
        is_plain_word(w),
    ensures
        parse_step(parse_step(st, seq!['<']), w) == parse_step(st, seq!['<'] + w),
{
    let fused = seq!['<'] + w;
    assert(fused.len() == 1 + w.len());
    assert(fused[0] == '<');
    assert(fused.drop_first() =~= w);
    assert(w != seq!['<']) by {
        if w == seq!['<'] {
            assert(w[0] == '<');
        }
    }
    assert(w != seq!['>']) by {
        if w == seq!['>'] {
            assert(w[0] == '>');
        }
    }
}

/// Spaced and fused output redirection agree: reading the bare token
/// `>` and then a plain word leaves the parser exactly where the fused
/// token `>word` does, from any state.
pub proof fn lemma_stdout_fusion(st: ParseState, w: Seq<char>)
    requires
        is_plain_word(w),
    ensures
        parse_step(parse_step(st, seq!['>']), w) == parse_step(st, seq!['>'] + w),
{
    let fused = seq!['>'] + w;
    assert(fused.len() == 1 + w.len());
    assert(fused[0] == '>');
    assert(fused.drop_first() =~= w);
    assert(w != seq!['<']) by {
        if w == seq!['<'] {
            assert(w[0] == '<');
        }
    }
    assert(w != seq!['>']) by {
        if w == seq!['>'] {
            assert(w[0] == '>');
        }
    }
}

proof fn lemma_plain_words_fold(toks: Seq<Seq<char>>)
    requires
        forall|j: int| 0 <= j < toks.len() ==> is_plain_word(#[trigger] toks[j]),
    ensures
        parse_fold(toks) == (ParseState {
            done: Seq::empty(),
            cur: CommandView { command: toks, stdin: None, stdout: None },
            next_stdin: false,
            next_stdout: false,
        }),
    decreases toks.len(),
{
    if toks.len() == 0 {
        assert(Seq::<Seq<char>>::empty() =~= toks);
    } else {
        let prev = toks.drop_last();
        assert(forall|j: int| 0 <= j < prev.len() ==> is_plain_word(#[trigger] prev[j])) by {
            assert(forall|j: int| 0 <= j < prev.len() ==> prev[j] == toks[j]);
        }
        lemma_plain_words_fold(prev);
        let w = toks.last();
        assert(is_plain_word(w));
        assert(w != seq!['<']) by {
            if w == seq!['<'] {
                assert(w[0] == '<');
            }
        }
        assert(w != seq!['>']) by {
            if w == seq!['>'] {
                assert(w[0] == '>');
            }
        }
        assert(prev.push(w) =~= toks);
    }
}

/// A command line of ordinary words round-trips: it parses to exactly
/// one stage whose argument list is those words in order, with no
/// redirections.
pub proof fn lemma_plain_words_single_stage(toks: Seq<Seq<char>>)
    requires
        forall|j: int| 0 <= j < toks.len() ==> is_plain_word(#[trigger] toks[j]),
    ensures
        spec_parse(toks) == seq![CommandView { command: toks, stdin: None, stdout: None }],
{
    lemma_plain_words_fold(toks);
    assert(Seq::<CommandView>::empty().push(
        CommandView { command: toks, stdin: None, stdout: None },
    ) =~= seq![CommandView { command: toks, stdin: None, stdout: None }]);
}

/// The number of pipe separator tokens in a token sequence.
pub open spec fn count_pipes(toks: Seq<Seq<char>>) -> nat
    decreases toks.len(),
{
    if toks.len() == 0 {
        0
    } else {
        count_pipes(toks.drop_last()) + (if toks.last() == seq!['|'] {
            1nat
        } else {
            0nat
        })
    }
}

proof fn lemma_fold_stage_count(toks: Seq<Seq<char>>)
    ensures
        parse_fold(toks).done.len() == count_pipes(toks),
    decreases toks.len(),
{
    if toks.len() > 0 {
        lemma_fold_stage_count(toks.drop_last());
        let st = parse_fold(toks.drop_last());
        let tok = toks.last();
        if tok == seq!['|'] {
            assert(tok.len() == 1 && tok[0] == '|');
            assert(tok != seq!['<']);
            assert(tok != seq!['>']);
            assert(parse_fold(toks).done == st.done.push(st.cur));
        } else {
            assert(parse_fold(toks).done == st.done);
        }
    }
}

/// A pipeline has exactly one stage more than its line has pipe
/// separator tokens; in particular it is never empty.
pub proof fn lemma_stage_count(toks: Seq<Seq<char>>)
    ensures
        spec_parse(toks).len() == 1 + count_pipes(toks),
{
    lemma_fold_stage_count(toks);
}

/// Parses a raw command line into its pipeline stages.
pub fn parse(line: &str) -> (r: Vec<Command>)
    ensures
        r.deep_view() == spec_parse_line(line@),
        r@.len() >= 1,
{
    let toks = tokenize(line);
    parse_tokens(&toks)
}

} // verus!

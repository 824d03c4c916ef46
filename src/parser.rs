//! Shell command lines: pipelines of commands with redirections.
use vstd::prelude::*;

use crate::text::{
    chars_of, is_whitespace, lemma_views_push, opt_view, push_char, same_text, views, whitespace,
};

verus! {

/// One command of a pipeline.
#[derive(Debug, Clone)]
pub struct Command {
    pub name: String,
    pub args: Vec<String>,
    pub stdin_redirect: Option<String>,
    /// Target file, and whether output is appended to it.
    pub stdout_redirect: Option<(String, bool)>,
    pub stderr_redirect: Option<String>,
}

/// Commands connected by pipes, in order.
#[derive(Debug)]
pub struct Pipeline {
    pub commands: Vec<Command>,
}

/// A command with its strings as character sequences.
pub struct CommandView {
    pub name: Seq<char>,
    pub args: Seq<Seq<char>>,
    pub stdin_redirect: Option<Seq<char>>,
    pub stdout_redirect: Option<(Seq<char>, bool)>,
    pub stderr_redirect: Option<Seq<char>>,
}

impl View for Command {
    type V = CommandView;

    open spec fn view(&self) -> CommandView {
        CommandView {
            name: self.name@,
            args: views(self.args@),
            stdin_redirect: opt_view(self.stdin_redirect),
            stdout_redirect: match self.stdout_redirect {
                Some((f, append)) => Some((f@, append)),
                None => None,
            },
            stderr_redirect: opt_view(self.stderr_redirect),
        }
    }
}

pub open spec fn command_views(v: Seq<Command>) -> Seq<CommandView> {
    v.map_values(|c: Command| c@)
}

impl Command {
    pub fn new(name: String, args: Vec<String>) -> (r: Self)
        ensures
            r.name == name,
            r.args == args,
            r.stdin_redirect is None,
            r.stdout_redirect is None,
            r.stderr_redirect is None,
    {
        Command { name, args, stdin_redirect: None, stdout_redirect: None, stderr_redirect: None }
    }
}

pub open spec fn all_whitespace(s: Seq<char>) -> bool {
    forall|i: int| 0 <= i < s.len() ==> is_whitespace(#[trigger] s[i])
}

/// `s` without its leading whitespace.
pub open spec fn trim_start(s: Seq<char>) -> Seq<char>
    decreases s.len(),
{
    if s.len() > 0 && is_whitespace(s[0]) {
        trim_start(s.drop_first())
    } else {
        s
    }
}

/// `s` without its trailing whitespace.
pub open spec fn trim_end(s: Seq<char>) -> Seq<char>
    decreases s.len(),
{
    if s.len() > 0 && is_whitespace(s.last()) {
        trim_end(s.drop_last())
    } else {
        s
    }
}

/// `s` without leading and trailing whitespace.
pub open spec fn trimmed(s: Seq<char>) -> Seq<char> {
    trim_end(trim_start(s))
}

/// The pieces of `s` between `|` characters, where `cur` is a piece under way.
pub open spec fn pieces_from(s: Seq<char>, cur: Seq<char>) -> Seq<Seq<char>>
    decreases s.len(),
{
    if s.len() == 0 {
        seq![cur]
    } else if s[0] == '|' {
        seq![cur] + pieces_from(s.drop_first(), Seq::empty())
    } else {
        pieces_from(s.drop_first(), cur.push(s[0]))
    }
}

/// The words of a command: separated by unquoted spaces and tabs, with
/// quote characters toggling quoting and dropped.
pub open spec fn tokens_from(s: Seq<char>, cur: Seq<char>, quoted: bool) -> Seq<Seq<char>>
    decreases s.len(),
{
    if s.len() == 0 {
        if cur.len() == 0 {
            Seq::empty()
        } else {
            seq![cur]
        }
    } else if s[0] == '"' || s[0] == '\'' {
        tokens_from(s.drop_first(), cur, !quoted)
    } else if (s[0] == ' ' || s[0] == '\t') && !quoted {
        if cur.len() == 0 {
            tokens_from(s.drop_first(), Seq::empty(), quoted)
        } else {
            seq![cur] + tokens_from(s.drop_first(), Seq::empty(), quoted)
        }
    } else {
        tokens_from(s.drop_first(), cur.push(s[0]), quoted)
    }
}

/// The command after applying the words from `i` on: redirection operators
/// take the word after them, other words are arguments.
pub open spec fn apply_words(t: Seq<Seq<char>>, i: int, c: CommandView) -> CommandView
    decreases t.len() - i,
{
    if i < 1 || i >= t.len() {
        c
    } else {
        let has_target = i + 1 < t.len();
        if t[i] == "<"@ {
            if has_target {
                apply_words(t, i + 2, CommandView { stdin_redirect: Some(t[i + 1]), ..c })
            } else {
                apply_words(t, i + 1, c)
            }
        } else if t[i] == ">"@ {
            if has_target {
                apply_words(t, i + 2, CommandView { stdout_redirect: Some((t[i + 1], false)), ..c })
            } else {
                apply_words(t, i + 1, c)
            }
        } else if t[i] == ">>"@ {
            if has_target {
                apply_words(t, i + 2, CommandView { stdout_redirect: Some((t[i + 1], true)), ..c })
            } else {
                apply_words(t, i + 1, c)
            }
        } else if t[i] == "2>"@ {
            if has_target {
                apply_words(t, i + 2, CommandView { stderr_redirect: Some(t[i + 1]), ..c })
            } else {
                apply_words(t, i + 1, c)
            }
        } else {
            apply_words(t, i + 1, CommandView { args: c.args.push(t[i]), ..c })
        }
    }
}

/// The command written in `s`, if it has a word.
pub open spec fn command_of(s: Seq<char>) -> Option<CommandView> {
    let t = tokens_from(s, Seq::empty(), false);
    if t.len() == 0 {
        None
    } else {
        Some(
            apply_words(
                t,
                1,
                CommandView {
                    name: t[0],
                    args: Seq::empty(),
                    stdin_redirect: None,
                    stdout_redirect: None,
                    stderr_redirect: None,
                },
            ),
        )
    }
}

/// The commands of the first `n` pieces, skipping pieces with no word.
pub open spec fn commands_of(pieces: Seq<Seq<char>>, n: int) -> Seq<CommandView>
    decreases n,
{
    if n <= 0 {
        Seq::empty()
    } else {
        match command_of(trimmed(pieces[n - 1])) {
            Some(c) => commands_of(pieces, n - 1).push(c),
            None => commands_of(pieces, n - 1),
        }
    }
}

/// The pipeline written in `line`, if it has a command.
pub open spec fn pipeline_of(line: Seq<char>) -> Option<Seq<CommandView>> {
    let pieces = pieces_from(line, Seq::empty());
    let cmds = commands_of(pieces, pieces.len() as int);
    if all_whitespace(line) || cmds.len() == 0 {
        None
    } else {
        Some(cmds)
    }
}

fn trim(s: &Vec<char>) -> (r: Vec<char>)
    ensures
        r@ == trimmed(s@),
{
    let n = s.len();
    let mut a: usize = 0;
    assert(s@.subrange(0, n as int) =~= s@);
    while a < n && whitespace(s[a])
        invariant
            a <= n,
            n == s@.len(),
            trim_start(s@) == trim_start(s@.subrange(a as int, n as int)),
        decreases n - a,
    {
        assert(s@.subrange(a as int, n as int).drop_first() =~= s@.subrange(a + 1, n as int));
        a = a + 1;
    }
    assert(trim_start(s@) == s@.subrange(a as int, n as int));
    let mut b: usize = n;
    while b > a && whitespace(s[b - 1])
        invariant
            a <= b <= n,
            n == s@.len(),
            trimmed(s@) == trim_end(s@.subrange(a as int, b as int)),
        decreases b - a,
    {
        assert(s@.subrange(a as int, b as int).drop_last() =~= s@.subrange(a as int, b - 1));
        b = b - 1;
    }
    let mut out: Vec<char> = Vec::new();
    let mut k: usize = a;
    while k < b
        invariant
            a <= k <= b,
            b <= n,
            n == s@.len(),
            out@ == s@.subrange(a as int, k as int),
        decreases b - k,
    {
        out.push(s[k]);
        k = k + 1;
        assert(out@ =~= s@.subrange(a as int, k as int));
    }
    out
}

/// Whether every character of `s` is whitespace.
fn blank(s: &Vec<char>) -> (r: bool)
    ensures
        r == all_whitespace(s@),
{
    let mut i: usize = 0;
    while i < s.len()
        invariant
            i <= s.len(),
            forall|k: int| 0 <= k < i ==> is_whitespace(#[trigger] s@[k]),
        decreases s.len() - i,
    {
        if !whitespace(s[i]) {
            return false;
        }
        i = i + 1;
    }
    true
}

pub open spec fn char_views(v: Seq<Vec<char>>) -> Seq<Seq<char>> {
    v.map_values(|x: Vec<char>| x@)
}

/// Splits `s` at each `|`.
fn split_pieces(s: &Vec<char>) -> (r: Vec<Vec<char>>)
    ensures
        char_views(r@) == pieces_from(s@, Seq::empty()),
{
    let mut out: Vec<Vec<char>> = Vec::new();
    let mut cur: Vec<char> = Vec::new();
    let mut i: usize = 0;
    assert(s@.subrange(0, s@.len() as int) =~= s@);
    assert(char_views(out@) + pieces_from(s@, Seq::empty()) =~= pieces_from(s@, Seq::empty()));
    assert(cur@ =~= Seq::<char>::empty());
    while i < s.len()
        invariant
            i <= s.len(),
            char_views(out@) + pieces_from(s@.subrange(i as int, s@.len() as int), cur@)
                == pieces_from(s@, Seq::empty()),
        decreases s.len() - i,
    {
        let c = s[i];
        let ghost rest = s@.subrange(i as int, s@.len() as int);
        assert(rest.drop_first() =~= s@.subrange(i + 1, s@.len() as int));
        assert(rest[0] == c);
        if c == '|' {
            let ghost prev = out@;
            let piece = cur;
            out.push(piece);
            cur = Vec::new();
            assert(char_views(out@) =~= char_views(prev).push(piece@));
            assert(char_views(out@) + pieces_from(rest.drop_first(), cur@) =~= char_views(prev) + (
            seq![piece@] + pieces_from(rest.drop_first(), Seq::empty())));
        } else {
            cur.push(c);
        }
        i = i + 1;
    }
    let ghost prev = out@;
    let piece = cur;
    out.push(piece);
    assert(char_views(out@) =~= char_views(prev).push(piece@));
    assert(char_views(prev) + seq![piece@] =~= char_views(out@));
    out
}

/// Splits a command into its words.
fn tokenize(s: &Vec<char>) -> (r: Vec<String>)
    ensures
        views(r@) == tokens_from(s@, Seq::empty(), false),
{
    let mut parts: Vec<String> = Vec::new();
    let mut cur = String::new();
    let mut quoted = false;
    let mut i: usize = 0;
    assert(s@.subrange(0, s@.len() as int) =~= s@);
    assert(views(parts@) + tokens_from(s@, Seq::empty(), false) =~= tokens_from(s@, Seq::empty(), false));
    while i < s.len()
        invariant
            i <= s.len(),
            views(parts@) + tokens_from(s@.subrange(i as int, s@.len() as int), cur@, quoted)
                == tokens_from(s@, Seq::empty(), false),
        decreases s.len() - i,
    {
        let c = s[i];
        let ghost rest = s@.subrange(i as int, s@.len() as int);
        assert(rest.drop_first() =~= s@.subrange(i + 1, s@.len() as int));
        assert(rest[0] == c);
        if c == '"' || c == '\'' {
            quoted = !quoted;
        } else if (c == ' ' || c == '\t') && !quoted {
            if !cur.as_str().is_empty() {
                proof {
                    lemma_views_push(parts@, cur);
                    assert(views(parts@.push(cur)) + tokens_from(rest.drop_first(), Seq::empty(), quoted)
                        =~= views(parts@) + (seq![cur@] + tokens_from(rest.drop_first(), Seq::empty(), quoted)));
                }
                parts.push(cur);
                cur = String::new();
            } else {
                assert(cur@ =~= Seq::<char>::empty());
            }
        } else {
            push_char(&mut cur, c);
        }
        i = i + 1;
    }
    if !cur.as_str().is_empty() {
        proof {
            lemma_views_push(parts@, cur);
        }
        parts.push(cur);
    } else {
        assert(views(parts@) + Seq::<Seq<char>>::empty() =~= views(parts@));
    }
    parts
}

/// Parses one command with its redirections.
fn parse_single_command(line: &Vec<char>) -> (r: Option<Command>)
    ensures
        match command_of(line@) {
            Some(c) => r matches Some(x) && x@ == c,
            None => r is None,
        },
{
    let parts = tokenize(line);
    if parts.len() == 0 {
        return None;
    }
    let ghost t = views(parts@);
    let mut cmd = Command::new(parts[0].clone(), Vec::new());
    assert(views(cmd.args@) =~= Seq::<Seq<char>>::empty());
    let mut i: usize = 1;
    while i < parts.len()
        invariant
            1 <= i <= parts.len(),
            t == views(parts@),
            command_of(line@) == Some(apply_words(t, i as int, cmd@)),
        decreases parts.len() - i,
    {
        let word = parts[i].as_str();
        let has_target = i + 1 < parts.len();
        assert(t[i as int] == parts@[i as int]@);
        if same_text(word, "<") {
            if has_target {
                cmd.stdin_redirect = Some(parts[i + 1].clone());
                i = i + 2;
            } else {
                i = i + 1;
            }
        } else if same_text(word, ">") {
            if has_target {
                cmd.stdout_redirect = Some((parts[i + 1].clone(), false));
                i = i + 2;
            } else {
                i = i + 1;
            }
        } else if same_text(word, ">>") {
            if has_target {
                cmd.stdout_redirect = Some((parts[i + 1].clone(), true));
                i = i + 2;
            } else {
                i = i + 1;
            }
        } else if same_text(word, "2>") {
            if has_target {
                cmd.stderr_redirect = Some(parts[i + 1].clone());
                i = i + 2;
            } else {
                i = i + 1;
            }
        } else {
            let w = parts[i].clone();
            proof {
                lemma_views_push(cmd.args@, w);
            }
            cmd.args.push(w);
            i = i + 1;
        }
    }
    Some(cmd)
}

/// Parses a command line into a pipeline; `None` when it holds no command.
pub fn parse(line: &str) -> (r: Option<Pipeline>)
    ensures
        match pipeline_of(line@) {
            Some(cmds) => r matches Some(p) && command_views(p.commands@) == cmds,
            None => r is None,
        },
{
    let chars = chars_of(line);
    if blank(&chars) {
        return None;
    }
    let pieces = split_pieces(&chars);
    let ghost pv = char_views(pieces@);
    let mut commands: Vec<Command> = Vec::new();
    let mut k: usize = 0;
    while k < pieces.len()
        invariant
            k <= pieces.len(),
            pv == char_views(pieces@),
            command_views(commands@) == commands_of(pv, k as int),
        decreases pieces.len() - k,
    {
        let piece = trim(&pieces[k]);
        assert(pv[k as int] == pieces@[k as int]@);
        match parse_single_command(&piece) {
            Some(cmd) => {
                let ghost prev = commands@;
                commands.push(cmd);
                assert(command_views(commands@) =~= command_views(prev).push(cmd@));
            },
            None => {},
        }
        k = k + 1;
    }
    if commands.len() == 0 {
        return None;
    }
    Some(Pipeline { commands })
}

} // verus!

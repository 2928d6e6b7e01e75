//! Deciding what a parsed command line asks for: a built-in, an external
//! program, an output redirection or a pipeline; and taking a redirection
//! or a pipeline apart.
use vstd::prelude::*;

use crate::commands::{builtin_commands, contains_word, echo_line, exe_echo};
use crate::text::eq_str;

verus! {

/// Which stream goes to the file, and whether the file is appended to.
#[derive(Clone, Copy, PartialEq, Eq, Structural, Debug)]
pub enum RedirectKind {
    /// `>` or `1>`: standard output, file truncated.
    Stdout,
    /// `2>`: standard error, file truncated.
    Stderr,
    /// `>>` or `1>>`: standard output, appended.
    StdoutAppend,
    /// `2>>`: standard error, appended.
    StderrAppend,
}

/// What the shell does with a command line.
#[derive(Clone, Copy, PartialEq, Eq, Structural, Debug)]
pub enum Dispatch {
    /// No words: prompt again.
    Empty,
    /// `exit` alone: leave the shell.
    Exit,
    /// A single word that names no built-in command (nor `ls`): report it
    /// as not found.
    NotFound,
    /// `history`, with at most one argument.
    History,
    /// A redirection; the operator is the word at the given position.
    Redirect(RedirectKind, usize),
    /// More than one `|`: a pipeline of several stages.
    MultiPipe,
    /// One `|`, at the given position.
    Pipe(usize),
    /// `ls`.
    Ls,
    /// `echo`.
    Echo,
    /// `type`.
    Type,
    /// `pwd`.
    Pwd,
    /// `cd`.
    Cd,
    /// Any other program, looked up on the search path.
    External,
}

/// The position of the last word equal to `a` or to `b`.
pub open spec fn last_position(words: Seq<Seq<char>>, a: Seq<char>, b: Seq<char>) -> Option<int>
    decreases words.len(),
{
    if words.len() == 0 {
        None
    } else if words.last() == a || words.last() == b {
        Some(words.len() - 1)
    } else {
        last_position(words.drop_last(), a, b)
    }
}

/// A position as a `usize`.
pub open spec fn as_position(p: Option<int>) -> Option<usize> {
    match p {
        Some(i) => Some(i as usize),
        None => None,
    }
}

/// How many words equal `w`.
pub open spec fn count_word(words: Seq<Seq<char>>, w: Seq<char>) -> nat
    decreases words.len(),
{
    if words.len() == 0 {
        0
    } else {
        count_word(words.drop_last(), w) + if words.last() == w {
            1nat
        } else {
            0nat
        }
    }
}

/// What the shell does with the words of a command line. In order: no
/// words; `exit` alone; a single word that is neither a built-in command
/// nor `ls`; `history` with at most one argument; the last `>`/`1>`, else
/// the last `2>`, else the last `>>`/`1>>`, else the last `2>>`; more than
/// one `|`; one `|`; then by the first word: `ls`, `echo`, `type`, `pwd`,
/// `cd`, or any other program.
pub open spec fn dispatch_spec(words: Seq<Seq<char>>) -> Dispatch {
    if words.len() == 0 {
        Dispatch::Empty
    } else if words.len() == 1 && words[0] == "exit"@ {
        Dispatch::Exit
    } else if words.len() == 1 && !builtin_commands().contains(words[0]) && words[0] != "ls"@ {
        Dispatch::NotFound
    } else if words.len() <= 2 && words[0] == "history"@ {
        Dispatch::History
    } else if last_position(words, ">"@, "1>"@) is Some {
        Dispatch::Redirect(RedirectKind::Stdout, last_position(words, ">"@, "1>"@)->0 as usize)
    } else if last_position(words, "2>"@, "2>"@) is Some {
        Dispatch::Redirect(RedirectKind::Stderr, last_position(words, "2>"@, "2>"@)->0 as usize)
    } else if last_position(words, ">>"@, "1>>"@) is Some {
        Dispatch::Redirect(
            RedirectKind::StdoutAppend,
            last_position(words, ">>"@, "1>>"@)->0 as usize,
        )
    } else if last_position(words, "2>>"@, "2>>"@) is Some {
        Dispatch::Redirect(
            RedirectKind::StderrAppend,
            last_position(words, "2>>"@, "2>>"@)->0 as usize,
        )
    } else if count_word(words, "|"@) > 1 {
        Dispatch::MultiPipe
    } else if last_position(words, "|"@, "|"@) is Some {
        Dispatch::Pipe(last_position(words, "|"@, "|"@)->0 as usize)
    } else if words[0] == "ls"@ {
        Dispatch::Ls
    } else if words[0] == "echo"@ {
        Dispatch::Echo
    } else if words[0] == "type"@ {
        Dispatch::Type
    } else if words[0] == "pwd"@ {
        Dispatch::Pwd
    } else if words[0] == "cd"@ {
        Dispatch::Cd
    } else {
        Dispatch::External
    }
}

/// Decides what the shell does with the command line `data_vec`.
pub fn plan_command(data_vec: &Vec<String>) -> (d: Dispatch)
    ensures
        d == dispatch_spec(data_vec.deep_view()),
{
    let ghost words = data_vec.deep_view();
    let mut stdout_pos: Option<usize> = None;
    let mut stderr_pos: Option<usize> = None;
    let mut stdout_append_pos: Option<usize> = None;
    let mut stderr_append_pos: Option<usize> = None;
    let mut pipe_pos: Option<usize> = None;
    let mut pipes: usize = 0;
    let mut idx: usize = 0;
    while idx < data_vec.len()
        invariant
            idx <= data_vec.len(),
            words == data_vec.deep_view(),
            pipes <= idx,
            pipes == count_word(words.take(idx as int), "|"@),
            stdout_pos == as_position(last_position(words.take(idx as int), ">"@, "1>"@)),
            stderr_pos == as_position(last_position(words.take(idx as int), "2>"@, "2>"@)),
            stdout_append_pos == as_position(last_position(words.take(idx as int), ">>"@, "1>>"@)),
            stderr_append_pos == as_position(last_position(words.take(idx as int), "2>>"@, "2>>"@)),
            pipe_pos == as_position(last_position(words.take(idx as int), "|"@, "|"@)),
        decreases data_vec.len() - idx,
    {
        let w = &data_vec[idx];
        proof {
            reveal_strlit(">");
            reveal_strlit("1>");
            reveal_strlit(">>");
            reveal_strlit("1>>");
            reveal_strlit("2>");
            reveal_strlit("2>>");
            reveal_strlit("|");
            assert(">"@[0] != "|"@[0]);
            assert("1>"@[0] != "2>"@[0]);
            assert(">>"@[0] != "1>"@[0]);
            assert(">>"@[0] != "2>"@[0]);
            assert("1>>"@[0] != "2>>"@[0]);
        }
        let ghost prefix = words.take(idx + 1);
        assert(prefix.drop_last() =~= words.take(idx as int));
        assert(prefix.last() == w@);
        if eq_str(w, ">>") || eq_str(w, "1>>") {
            stdout_append_pos = Some(idx);
        } else if eq_str(w, ">") || eq_str(w, "1>") {
            stdout_pos = Some(idx);
        } else if eq_str(w, "2>") {
            stderr_pos = Some(idx);
        } else if eq_str(w, "2>>") {
            stderr_append_pos = Some(idx);
        } else if eq_str(w, "|") {
            pipe_pos = Some(idx);
        }
        if eq_str(w, "|") {
            pipes = pipes + 1;
        }
        idx = idx + 1;
    }
    assert(words.take(idx as int) =~= words);
    if data_vec.len() == 0 {
        return Dispatch::Empty;
    }
    let first = &data_vec[0];
    assert(words[0] == first@);
    let inbuilt = crate::commands::inbuilt_commands();
    if data_vec.len() == 1 && eq_str(first, "exit") {
        Dispatch::Exit
    } else if data_vec.len() == 1 && !contains_word(&inbuilt, first) && !eq_str(first, "ls") {
        Dispatch::NotFound
    } else if data_vec.len() <= 2 && eq_str(first, "history") {
        Dispatch::History
    } else if let Some(p) = stdout_pos {
        Dispatch::Redirect(RedirectKind::Stdout, p)
    } else if let Some(p) = stderr_pos {
        Dispatch::Redirect(RedirectKind::Stderr, p)
    } else if let Some(p) = stdout_append_pos {
        Dispatch::Redirect(RedirectKind::StdoutAppend, p)
    } else if let Some(p) = stderr_append_pos {
        Dispatch::Redirect(RedirectKind::StderrAppend, p)
    } else if pipes > 1 {
        Dispatch::MultiPipe
    } else if let Some(p) = pipe_pos {
        Dispatch::Pipe(p)
    } else if eq_str(first, "ls") {
        Dispatch::Ls
    } else if eq_str(first, "echo") {
        Dispatch::Echo
    } else if eq_str(first, "type") {
        Dispatch::Type
    } else if eq_str(first, "pwd") {
        Dispatch::Pwd
    } else if eq_str(first, "cd") {
        Dispatch::Cd
    } else {
        Dispatch::External
    }
}

/// A command whose output or error stream goes to a file.
pub struct RedirectCommand {
    /// The program.
    pub command: String,
    /// Its arguments.
    pub args: Vec<String>,
    /// The file that receives the stream.
    pub file: String,
}

/// Takes apart a redirection whose operator is the word at `pos`: the
/// program is the first word, its arguments are the words before the
/// operator, and the file is the word just after it.
pub fn redirect_parts(data_vec: &Vec<String>, pos: usize) -> (r: RedirectCommand)
    requires
        1 <= pos,
        pos + 1 < data_vec.len(),
    ensures
        r.command@ == data_vec.deep_view()[0],
        r.args.deep_view() == data_vec.deep_view().subrange(1, pos as int),
        r.file@ == data_vec.deep_view()[pos + 1],
{
    let ghost words = data_vec.deep_view();
    let mut args: Vec<String> = Vec::new();
    let mut k: usize = 1;
    while k < pos
        invariant
            1 <= k <= pos,
            pos + 1 < data_vec.len(),
            words == data_vec.deep_view(),
            args.deep_view() == words.subrange(1, k as int),
        decreases pos - k,
    {
        let ghost before = args.deep_view();
        args.push(data_vec[k].clone());
        assert(args.deep_view() =~= before.push(words[k as int]));
        k = k + 1;
        assert(args.deep_view() =~= words.subrange(1, k as int));
    }
    RedirectCommand { command: data_vec[0].clone(), args, file: data_vec[pos + 1].clone() }
}

/// The words `data_vec[from..to]`.
fn words_between(data_vec: &Vec<String>, from: usize, to: usize) -> (v: Vec<String>)
    requires
        from <= to <= data_vec.len(),
    ensures
        v.deep_view() == data_vec.deep_view().subrange(from as int, to as int),
{
    let ghost words = data_vec.deep_view();
    let mut v: Vec<String> = Vec::new();
    let mut k: usize = from;
    while k < to
        invariant
            from <= k <= to <= data_vec.len(),
            words == data_vec.deep_view(),
            v.deep_view() == words.subrange(from as int, k as int),
        decreases to - k,
    {
        let ghost before = v.deep_view();
        v.push(data_vec[k].clone());
        assert(v.deep_view() =~= before.push(words[k as int]));
        k = k + 1;
        assert(v.deep_view() =~= words.subrange(from as int, k as int));
    }
    v
}

/// What a command line with one `|` does.
pub enum PipePlan {
    /// The second command is `echo`: print this line (what `echo` prints
    /// for the whole command line).
    Echo(String),
    /// The second command is `type`: run `type` on the whole command line.
    Type,
    /// The second command is another built-in command: nothing is run.
    Builtin,
    /// Run the first command with its output fed to the second one.
    Spawn { first: String, first_args: Vec<String>, second: String, second_args: Vec<String> },
}

/// Decides what the command line `data_vec`, with its one `|` at
/// `pipe_pos`, does. The first command is the first word, with the words
/// up to the `|` as arguments; the second is the word after the `|`, with
/// the rest as arguments. When the second command is one of
/// `inbuilt_commands`, nothing is spawned: `echo` and `type` run on the
/// whole line, any other built-in does nothing.
pub fn single_pipe(data_vec: &Vec<String>, pipe_pos: usize, inbuilt_commands: &Vec<String>) -> (plan: PipePlan)
    requires
        1 <= pipe_pos,
        pipe_pos + 1 < data_vec.len(),
    ensures
        ({
            let words = data_vec.deep_view();
            let second = words[pipe_pos + 1];
            if inbuilt_commands.deep_view().contains(second) {
                if second == "echo"@ {
                    plan matches PipePlan::Echo(line) && line@ == echo_line(words)
                } else if second == "type"@ {
                    plan is Type
                } else {
                    plan is Builtin
                }
            } else {
                plan matches PipePlan::Spawn { first, first_args, second: second_cmd, second_args }
                    && first@ == words[0] && first_args.deep_view() == words.subrange(
                    1,
                    pipe_pos as int,
                ) && second_cmd@ == second && second_args.deep_view() == words.subrange(
                    pipe_pos + 2,
                    words.len() as int,
                )
            }
        }),
{
    let ghost words = data_vec.deep_view();
    let second = &data_vec[pipe_pos + 1];
    if contains_word(inbuilt_commands, second) {
        if eq_str(second, "echo") {
            assert(words.contains("echo"@)) by {
                assert(words[pipe_pos + 1] == "echo"@);
            }
            PipePlan::Echo(exe_echo(data_vec))
        } else if eq_str(second, "type") {
            PipePlan::Type
        } else {
            PipePlan::Builtin
        }
    } else {
        PipePlan::Spawn {
            first: data_vec[0].clone(),
            first_args: words_between(data_vec, 1, pipe_pos),
            second: second.clone(),
            second_args: words_between(data_vec, pipe_pos + 2, data_vec.len()),
        }
    }
}

/// The pieces of `words` between the `|` words, in order, empty pieces
/// included; there is always one more piece than there are `|` words.
pub open spec fn split_at_bars(words: Seq<Seq<char>>) -> Seq<Seq<Seq<char>>>
    decreases words.len(),
{
    if words.len() == 0 {
        seq![seq![]]
    } else {
        let pieces = split_at_bars(words.drop_last());
        if words.last() == "|"@ {
            pieces.push(seq![])
        } else {
            pieces.update(pieces.len() - 1, pieces.last().push(words.last()))
        }
    }
}

/// The stages of a pipeline: the pieces between the `|` words, the last
/// one left out when it is empty.
pub open spec fn pipeline_stages(words: Seq<Seq<char>>) -> Seq<Seq<Seq<char>>> {
    let pieces = split_at_bars(words);
    if pieces.last().len() == 0 {
        pieces.drop_last()
    } else {
        pieces
    }
}

/// Splits the command line `data_vec` into the stages of a pipeline: the
/// commands, each with its arguments, between the `|` words.
pub fn exe_multi_pipe(data_vec: &Vec<String>) -> (stages: Vec<Vec<String>>)
    ensures
        stages.deep_view() == pipeline_stages(data_vec.deep_view()),
{
    let ghost words = data_vec.deep_view();
    let mut stages: Vec<Vec<String>> = Vec::new();
    let mut temp: Vec<String> = Vec::new();
    let mut i: usize = 0;
    assert(words.take(0) =~= Seq::<Seq<char>>::empty());
    assert(stages.deep_view() =~= Seq::<Seq<Seq<char>>>::empty());
    assert(temp.deep_view() =~= Seq::<Seq<char>>::empty());
    assert(stages.deep_view().push(temp.deep_view()) =~= seq![seq![]]);
    while i < data_vec.len()
        invariant
            i <= data_vec.len(),
            words == data_vec.deep_view(),
            split_at_bars(words.take(i as int)) == stages.deep_view().push(temp.deep_view()),
        decreases data_vec.len() - i,
    {
        let w = &data_vec[i];
        let ghost prefix = words.take(i + 1);
        assert(prefix.drop_last() =~= words.take(i as int));
        assert(prefix.last() == w@);
        let ghost before_stages = stages.deep_view();
        let ghost before_temp = temp.deep_view();
        if eq_str(w, "|") {
            stages.push(temp);
            temp = Vec::new();
            assert(stages.deep_view() =~= before_stages.push(before_temp));
            assert(temp.deep_view() =~= Seq::<Seq<char>>::empty());
        } else {
            temp.push(w.clone());
            assert(temp.deep_view() =~= before_temp.push(w@));
            assert(before_stages.push(before_temp).update(
                before_stages.len() as int,
                before_temp.push(w@),
            ) =~= before_stages.push(temp.deep_view()));
        }
        i = i + 1;
    }
    assert(words.take(i as int) =~= words);
    if temp.len() != 0 {
        let ghost before_stages = stages.deep_view();
        let ghost last = temp.deep_view();
        stages.push(temp);
        assert(stages.deep_view() =~= before_stages.push(last));
    } else {
        assert(stages.deep_view().push(temp.deep_view()).drop_last() =~= stages.deep_view());
    }
    stages
}

proof fn lemma_split_at_bars(words: Seq<Seq<char>>)
    ensures
        split_at_bars(words).len() == count_word(words, "|"@) + 1,
        forall|i: int, j: int|
            0 <= i < split_at_bars(words).len() && 0 <= j < split_at_bars(words)[i].len()
                ==> #[trigger] split_at_bars(words)[i][j] != "|"@,
    decreases words.len(),
{
    if words.len() > 0 {
        let rest = words.drop_last();
        lemma_split_at_bars(rest);
        let pieces = split_at_bars(rest);
        let w = words.last();
        if w != "|"@ {
            let updated = pieces.update(pieces.len() - 1, pieces.last().push(w));
            assert forall|i: int, j: int|
                0 <= i < updated.len() && 0 <= j < updated[i].len() implies #[trigger] updated[i][j]
                != "|"@ by {
                if i < pieces.len() - 1 {
                    assert(updated[i] == pieces[i]);
                } else if j < pieces.last().len() {
                    assert(updated[i][j] == pieces[i][j]);
                }
            }
        } else {
            let pushed = pieces.push(seq![]);
            assert forall|i: int, j: int|
                0 <= i < pushed.len() && 0 <= j < pushed[i].len() implies #[trigger] pushed[i][j]
                != "|"@ by {
                assert(pushed[i] == pieces[i]);
            }
        }
    }
}

/// The `|` words cut the command line into one more piece than there are
/// of them, and no piece holds a `|`: every stage of a pipeline is a plain
/// command with its arguments, and a trailing `|` only leaves out the empty
/// last piece.
pub proof fn law_pipeline_stages(words: Seq<Seq<char>>)
    ensures
        split_at_bars(words).len() == count_word(words, "|"@) + 1,
        pipeline_stages(words).len() == count_word(words, "|"@) + 1 || (pipeline_stages(words).len()
            == count_word(words, "|"@) && split_at_bars(words).last().len() == 0),
        forall|i: int, j: int|
            0 <= i < pipeline_stages(words).len() && 0 <= j < pipeline_stages(words)[i].len()
                ==> #[trigger] pipeline_stages(words)[i][j] != "|"@,
{
    lemma_split_at_bars(words);
    let pieces = split_at_bars(words);
    let stages = pipeline_stages(words);
    assert forall|i: int, j: int|
        0 <= i < stages.len() && 0 <= j < stages[i].len() implies #[trigger] stages[i][j] != "|"@ by {
        assert(stages[i] == pieces[i]);
    }
}

proof fn lemma_last_position(words: Seq<Seq<char>>, a: Seq<char>, b: Seq<char>)
    ensures
        last_position(words, a, b) matches Some(p) ==> 0 <= p < words.len() && (words[p] == a
            || words[p] == b) && forall|k: int|
            p < k < words.len() ==> #[trigger] words[k] != a && words[k] != b,
        last_position(words, a, b) is None ==> forall|k: int|
            0 <= k < words.len() ==> #[trigger] words[k] != a && words[k] != b,
    decreases words.len(),
{
    if words.len() > 0 {
        lemma_last_position(words.drop_last(), a, b);
        assert forall|k: int| 0 <= k < words.len() - 1 implies #[trigger] words[k] == words.drop_last()[k] by {}
    }
}

/// The word of the operator that the operator names.
pub open spec fn operator_of(kind: RedirectKind, w: Seq<char>) -> bool {
    match kind {
        RedirectKind::Stdout => w == ">"@ || w == "1>"@,
        RedirectKind::Stderr => w == "2>"@,
        RedirectKind::StdoutAppend => w == ">>"@ || w == "1>>"@,
        RedirectKind::StderrAppend => w == "2>>"@,
    }
}

/// A redirection is taken at a word that is its operator, and at the last
/// such word; a single pipe is taken at a `|` word.
pub proof fn law_dispatch_positions(words: Seq<Seq<char>>)
    requires
        words.len() <= usize::MAX,
    ensures
        dispatch_spec(words) matches Dispatch::Redirect(kind, p) ==> p < words.len()
            && operator_of(kind, words[p as int]) && forall|k: int|
            p < k < words.len() ==> !operator_of(kind, #[trigger] words[k]),
        dispatch_spec(words) matches Dispatch::Pipe(p) ==> p < words.len() && words[p as int]
            == "|"@ && count_word(words, "|"@) == 1,
{
    lemma_last_position(words, ">"@, "1>"@);
    lemma_last_position(words, "2>"@, "2>"@);
    lemma_last_position(words, ">>"@, "1>>"@);
    lemma_last_position(words, "2>>"@, "2>>"@);
    lemma_last_position(words, "|"@, "|"@);
    if let Some(p) = last_position(words, "|"@, "|"@) {
        lemma_count_word_positive(words, "|"@, p);
    }
}

proof fn lemma_count_word_positive(words: Seq<Seq<char>>, w: Seq<char>, k: int)
    requires
        0 <= k < words.len(),
        words[k] == w,
    ensures
        count_word(words, w) >= 1,
    decreases words.len(),
{
    if k < words.len() - 1 {
        assert(words.drop_last()[k] == w);
        lemma_count_word_positive(words.drop_last(), w, k);
    }
}

proof fn lemma_count_word_one(words: Seq<Seq<char>>, w: Seq<char>, p: int)
    requires
        0 <= p < words.len(),
        words[p] == w,
        forall|k: int| 0 <= k < words.len() && k != p ==> words[k] != w,
    ensures
        count_word(words, w) == 1,
    decreases words.len(),
{
    if p < words.len() - 1 {
        let rest = words.drop_last();
        assert forall|k: int| 0 <= k < rest.len() && k != p implies rest[k] != w by {
            assert(rest[k] == words[k]);
        }
        lemma_count_word_one(rest, w, p);
    } else {
        lemma_count_word_none(words.drop_last(), w);
    }
}

proof fn lemma_count_word_none(words: Seq<Seq<char>>, w: Seq<char>)
    requires
        forall|k: int| 0 <= k < words.len() ==> words[k] != w,
    ensures
        count_word(words, w) == 0,
    decreases words.len(),
{
    if words.len() > 0 {
        let rest = words.drop_last();
        assert forall|k: int| 0 <= k < rest.len() implies rest[k] != w by {
            assert(rest[k] == words[k]);
        }
        lemma_count_word_none(rest, w);
        assert(words.last() == words[words.len() - 1]);
    }
}

proof fn lemma_count_word_two(words: Seq<Seq<char>>, w: Seq<char>, p: int, q: int)
    requires
        0 <= p < q < words.len(),
        words[p] == w,
        words[q] == w,
    ensures
        count_word(words, w) >= 2,
    decreases words.len(),
{
    if q < words.len() - 1 {
        assert(words.drop_last()[p] == w);
        assert(words.drop_last()[q] == w);
        lemma_count_word_two(words.drop_last(), w, p, q);
    } else {
        assert(words.drop_last()[p] == w);
        lemma_count_word_positive(words.drop_last(), w, p);
    }
}

/// A word that redirects a stream: `>`, `1>`, `2>`, `>>`, `1>>` or `2>>`.
pub open spec fn is_redirect_word(w: Seq<char>) -> bool {
    w == ">"@ || w == "1>"@ || w == "2>"@ || w == ">>"@ || w == "1>>"@ || w == "2>>"@
}

proof fn lemma_no_redirect(words: Seq<Seq<char>>)
    requires
        forall|k: int| 0 <= k < words.len() ==> !is_redirect_word(#[trigger] words[k]),
    ensures
        last_position(words, ">"@, "1>"@) is None,
        last_position(words, "2>"@, "2>"@) is None,
        last_position(words, ">>"@, "1>>"@) is None,
        last_position(words, "2>>"@, "2>>"@) is None,
{
    lemma_last_position(words, ">"@, "1>"@);
    lemma_last_position(words, "2>"@, "2>"@);
    lemma_last_position(words, ">>"@, "1>>"@);
    lemma_last_position(words, "2>>"@, "2>>"@);
}

/// A command line of more than one word (other than `history` with one
/// argument) with exactly one `|` word and no redirection operator is a
/// single pipe at that `|`, whatever its first word: `echo test | grep
/// test` pipes `echo`'s output into `grep`.
pub proof fn law_single_pipe_dispatch(words: Seq<Seq<char>>, p: int)
    requires
        words.len() <= usize::MAX,
        words.len() > 1,
        !(words.len() <= 2 && words[0] == "history"@),
        0 <= p < words.len(),
        words[p] == "|"@,
        forall|k: int| 0 <= k < words.len() && k != p ==> words[k] != "|"@,
        forall|k: int| 0 <= k < words.len() ==> !is_redirect_word(#[trigger] words[k]),
    ensures
        dispatch_spec(words) == Dispatch::Pipe(p as usize),
{
    lemma_no_redirect(words);
    lemma_count_word_one(words, "|"@, p);
    lemma_last_position(words, "|"@, "|"@);
    if last_position(words, "|"@, "|"@) is None {
        assert(words[p] != "|"@);
    }
}

/// A command line of more than one word (other than `history` with one
/// argument) with two or more `|` words and no redirection operator is a
/// pipeline of several stages, whatever its first word.
pub proof fn law_multi_pipe_dispatch(words: Seq<Seq<char>>, p: int, q: int)
    requires
        words.len() <= usize::MAX,
        words.len() > 1,
        !(words.len() <= 2 && words[0] == "history"@),
        0 <= p < q < words.len(),
        words[p] == "|"@,
        words[q] == "|"@,
        forall|k: int| 0 <= k < words.len() ==> !is_redirect_word(#[trigger] words[k]),
    ensures
        dispatch_spec(words) == Dispatch::MultiPipe,
{
    lemma_no_redirect(words);
    lemma_count_word_two(words, "|"@, p, q);
}

/// The stages put back together, with a `|` word between each two.
pub open spec fn join_with_bars(stages: Seq<Seq<Seq<char>>>) -> Seq<Seq<char>>
    decreases stages.len(),
{
    if stages.len() == 0 {
        seq![]
    } else if stages.len() == 1 {
        stages[0]
    } else {
        join_with_bars(stages.drop_last()) + seq!["|"@] + stages.last()
    }
}

proof fn lemma_join_split(words: Seq<Seq<char>>)
    ensures
        split_at_bars(words).len() >= 1,
        join_with_bars(split_at_bars(words)) == words,
    decreases words.len(),
{
    if words.len() == 0 {
        assert(join_with_bars(seq![seq![]]) == Seq::<Seq<char>>::empty());
        assert(words =~= Seq::<Seq<char>>::empty());
    } else {
        let rest = words.drop_last();
        let w = words.last();
        lemma_join_split(rest);
        let s = split_at_bars(rest);
        if w == "|"@ {
            let t = s.push(seq![]);
            assert(t.drop_last() =~= s);
            assert(join_with_bars(t) == join_with_bars(s) + seq!["|"@] + Seq::<Seq<char>>::empty());
            assert(rest + seq!["|"@] + Seq::<Seq<char>>::empty() =~= words);
        } else {
            let t = s.update(s.len() - 1, s.last().push(w));
            if s.len() == 1 {
                assert(join_with_bars(s) == s[0]);
                assert(t[0] == s[0].push(w));
                assert(rest.push(w) =~= words);
            } else {
                assert(t.drop_last() =~= s.drop_last());
                assert(t.last() == s.last().push(w));
                assert(join_with_bars(t) == join_with_bars(s.drop_last()) + seq!["|"@] + s.last().push(w));
                assert(join_with_bars(s) == join_with_bars(s.drop_last()) + seq!["|"@] + s.last());
                assert(join_with_bars(s.drop_last()) + seq!["|"@] + s.last().push(w) =~= (
                join_with_bars(s.drop_last()) + seq!["|"@] + s.last()).push(w));
                assert(rest.push(w) =~= words);
            }
        }
    }
}

/// No word is lost, added or moved by splitting a pipeline: putting its
/// stages back together with a `|` between each two gives the command
/// line again (followed by the `|` it ended with, if it ended with one).
pub proof fn law_pipeline_rejoins(words: Seq<Seq<char>>)
    ensures
        words.len() > 0 && words.last() == "|"@ ==> join_with_bars(pipeline_stages(words)).push(
            "|"@,
        ) == words,
        !(words.len() > 0 && words.last() == "|"@) ==> join_with_bars(pipeline_stages(words))
            == words,
{
    lemma_join_split(words);
    let pieces = split_at_bars(words);
    if words.len() > 0 {
        let s = split_at_bars(words.drop_last());
        lemma_join_split(words.drop_last());
        if words.last() == "|"@ {
            assert(pieces == s.push(seq![]));
            assert(pieces.last().len() == 0);
            assert(pieces.drop_last() =~= s);
            assert(pipeline_stages(words) == s);
            assert(join_with_bars(pieces) == join_with_bars(s) + seq!["|"@] + Seq::<Seq<char>>::empty());
            assert(join_with_bars(s) + seq!["|"@] + Seq::<Seq<char>>::empty() =~= join_with_bars(s).push("|"@));
        } else {
            let t = s.update(s.len() - 1, s.last().push(words.last()));
            assert(pieces == t);
            assert(t.last() == s.last().push(words.last()));
            assert(pieces.last().len() > 0);
        }
    } else {
        assert(pieces == seq![Seq::<Seq<char>>::empty()]);
        assert(pipeline_stages(words) =~= Seq::<Seq<Seq<char>>>::empty());
        assert(words =~= Seq::<Seq<char>>::empty());
    }
}

} // verus!

//! What the built-in commands `echo`, `type` and `history` print, computed
//! from the words of the command line.
use vstd::prelude::*;

use crate::auto_complete::is_exec_mode;
use crate::parser::{lemma_ws_words_append_word, ws_words};
use crate::text::{decimal, is_ws, eq_str, parse_usize, parse_usize_spec, push_char, push_decimal};

verus! {

/// The names of the shell's built-in commands, in the order the shell
/// lists them.
pub open spec fn builtin_commands() -> Seq<Seq<char>> {
    seq!["echo"@, "exit"@, "type"@, "pwd"@, "cd"@, "history"@]
}

/// The shell's built-in commands.
pub fn inbuilt_commands() -> (v: Vec<String>)
    ensures
        v.deep_view() == builtin_commands(),
{
    let v = vec![
        String::from_str("echo"),
        String::from_str("exit"),
        String::from_str("type"),
        String::from_str("pwd"),
        String::from_str("cd"),
        String::from_str("history"),
    ];
    assert(v.deep_view() =~= builtin_commands());
    v
}

/// Whether `words` holds a word equal to `w`.
pub fn contains_word(words: &Vec<String>, w: &String) -> (r: bool)
    ensures
        r == words.deep_view().contains(w@),
{
    let mut k: usize = 0;
    while k < words.len()
        invariant
            k <= words.len(),
            forall|j: int| 0 <= j < k ==> words.deep_view()[j] != w@,
        decreases words.len() - k,
    {
        if words[k] == *w {
            assert(words.deep_view()[k as int] == w@);
            return true;
        }
        k = k + 1;
    }
    false
}

/// The position of the first word of `words` equal to `w`, or the number
/// of words when there is none.
pub open spec fn first_index(words: Seq<Seq<char>>, w: Seq<char>) -> nat
    decreases words.len(),
{
    if words.len() == 0 || words[0] == w {
        0
    } else {
        1 + first_index(words.drop_first(), w)
    }
}

proof fn lemma_first_index(words: Seq<Seq<char>>, w: Seq<char>)
    ensures
        first_index(words, w) <= words.len(),
        first_index(words, w) < words.len() ==> words[first_index(words, w) as int] == w,
        forall|j: int| 0 <= j < first_index(words, w) ==> words[j] != w,
        words.contains(w) ==> first_index(words, w) < words.len(),
    decreases words.len(),
{
    if words.len() > 0 && words[0] != w {
        lemma_first_index(words.drop_first(), w);
        let r = first_index(words.drop_first(), w);
        assert forall|j: int| 0 <= j < first_index(words, w) implies words[j] != w by {
            if j > 0 {
                assert(words[j] == words.drop_first()[j - 1]);
            }
        }
    }
}

/// Finds the first word of `words` that reads `lit`.
fn find_word(words: &Vec<String>, lit: &str) -> (pos: usize)
    ensures
        pos == first_index(words.deep_view(), lit@),
{
    proof {
        lemma_first_index(words.deep_view(), lit@);
    }
    let mut k: usize = 0;
    while k < words.len()
        invariant
            k <= words.len(),
            forall|j: int| 0 <= j < k ==> words.deep_view()[j] != lit@,
            forall|j: int|
                0 <= j < first_index(words.deep_view(), lit@) ==> words.deep_view()[j] != lit@,
            first_index(words.deep_view(), lit@) <= words.len(),
            first_index(words.deep_view(), lit@) < words.len() ==> words.deep_view()[first_index(
                words.deep_view(),
                lit@,
            ) as int] == lit@,
        decreases words.len() - k,
    {
        if eq_str(&words[k], lit) {
            assert(words.deep_view()[k as int] == lit@);
            return k;
        }
        k = k + 1;
    }
    k
}

/// The words joined with one space between each two.
pub open spec fn join_words(words: Seq<Seq<char>>) -> Seq<char>
    decreases words.len(),
{
    if words.len() == 0 {
        seq![]
    } else if words.len() == 1 {
        words[0]
    } else {
        join_words(words.drop_last()) + seq![' '] + words.last()
    }
}

/// The line that `echo` prints (without its line break): the words after
/// the first `echo`, as they are, with one space between each two.
pub open spec fn echo_line(words: Seq<Seq<char>>) -> Seq<char> {
    join_words(words.skip((first_index(words, "echo"@) + 1) as int))
}

/// What `echo` prints for the command line `data_vec`, without the line
/// break: the words after its first `echo` with one space between each two.
pub fn exe_echo(data_vec: &Vec<String>) -> (line: String)
    requires
        data_vec.deep_view().contains("echo"@),
    ensures
        line@ == echo_line(data_vec.deep_view()),
{
    let ghost words = data_vec.deep_view();
    let pos = find_word(data_vec, "echo");
    proof {
        lemma_first_index(words, "echo"@);
        assert(words.len() == data_vec.len());
    }
    let mut line = String::new();
    let mut k: usize = pos + 1;
    assert(words.skip(pos + 1).take(0) =~= Seq::<Seq<char>>::empty());
    while k < data_vec.len()
        invariant
            pos < data_vec.len(),
            pos + 1 <= k <= data_vec.len(),
            words == data_vec.deep_view(),
            line@ == join_words(words.skip(pos + 1).take(k - pos - 1)),
        decreases data_vec.len() - k,
    {
        let ghost before = words.skip(pos + 1).take(k - pos - 1);
        if k > pos + 1 {
            push_char(&mut line, ' ');
        }
        line.append(data_vec[k].as_str());
        let ghost after = words.skip(pos + 1).take(k - pos);
        assert(after.drop_last() =~= before);
        assert(after.last() == data_vec[k as int]@);
        if k > pos + 1 {
            assert(line@ =~= join_words(before) + seq![' '] + after.last());
        } else {
            assert(after =~= seq![after.last()]);
            assert(line@ =~= after.last());
        }
        k = k + 1;
    }
    assert(words.skip(pos + 1).take(k - pos - 1) =~= words.skip(pos + 1));
    line
}

/// The words after the first `type`: the names `type` describes.
pub open spec fn type_targets_of(words: Seq<Seq<char>>) -> Seq<Seq<char>> {
    words.skip((first_index(words, "type"@) + 1) as int)
}

/// The names that `type` describes in the command line `data_vec`: the
/// words after its first `type`.
pub fn type_targets(data_vec: &Vec<String>) -> (targets: Vec<String>)
    requires
        data_vec.deep_view().contains("type"@),
    ensures
        targets.deep_view() == type_targets_of(data_vec.deep_view()),
{
    let ghost words = data_vec.deep_view();
    let pos = find_word(data_vec, "type");
    proof {
        lemma_first_index(words, "type"@);
        assert(words.len() == data_vec.len());
    }
    let mut targets: Vec<String> = Vec::new();
    let mut k: usize = pos + 1;
    while k < data_vec.len()
        invariant
            pos < data_vec.len(),
            pos + 1 <= k <= data_vec.len(),
            words == data_vec.deep_view(),
            targets.deep_view() == words.subrange(pos + 1, k as int),
        decreases data_vec.len() - k,
    {
        let ghost before = targets.deep_view();
        targets.push(data_vec[k].clone());
        assert(targets.deep_view() =~= before.push(words[k as int]));
        k = k + 1;
        assert(targets.deep_view() =~= words.subrange(pos + 1, k as int));
    }
    assert(words.subrange(pos + 1, k as int) =~= type_targets_of(words));
    targets
}

/// The line `type` prints for `name`: a built-in command is called so;
/// otherwise the executable found for it on the search path is named, or
/// it is reported as not found.
pub open spec fn type_line(name: Seq<char>, found: Option<Seq<char>>, builtins: Seq<Seq<char>>) -> Seq<
    char,
> {
    if builtins.contains(name) {
        name + " is a shell builtin"@
    } else {
        match found {
            Some(path) => name + " is "@ + path,
            None => name + ": not found"@,
        }
    }
}

/// The lines `type` prints for the command line `data_vec`, one per name
/// after its first `type`. `found_paths` gives, for each of those names in
/// order, the executable found for it on the search path, if any;
/// `inbuilt_commands` are the built-in commands.
pub fn exe_type(data_vec: &Vec<String>, found_paths: &Vec<Option<String>>, inbuilt_commands: &Vec<String>) -> (lines: Vec<String>)
    requires
        data_vec.deep_view().contains("type"@),
        found_paths.len() == type_targets_of(data_vec.deep_view()).len(),
    ensures
        lines.len() == found_paths.len(),
        forall|k: int|
            0 <= k < lines.len() ==> #[trigger] lines[k]@ == type_line(
                type_targets_of(data_vec.deep_view())[k],
                found_paths.deep_view()[k],
                inbuilt_commands.deep_view(),
            ),
{
    let targets = type_targets(data_vec);
    let ghost t = targets.deep_view();
    let mut lines: Vec<String> = Vec::new();
    let mut k: usize = 0;
    while k < targets.len()
        invariant
            k <= targets.len() == found_paths.len(),
            t == targets.deep_view(),
            t == type_targets_of(data_vec.deep_view()),
            lines.len() == k,
            forall|j: int|
                0 <= j < k ==> #[trigger] lines[j]@ == type_line(
                    t[j],
                    found_paths.deep_view()[j],
                    inbuilt_commands.deep_view(),
                ),
        decreases targets.len() - k,
    {
        let name = &targets[k];
        let mut line = name.clone();
        if contains_word(inbuilt_commands, name) {
            line.append(" is a shell builtin");
        } else {
            match &found_paths[k] {
                Some(path) => {
                    line.append(" is ");
                    line.append(path.as_str());
                },
                None => {
                    line.append(": not found");
                },
            }
        }
        assert(t[k as int] == name@);
        assert(line@ =~= type_line(t[k as int], found_paths.deep_view()[k as int], inbuilt_commands.deep_view()));
        lines.push(line);
        k = k + 1;
    }
    lines
}

/// The position of the first candidate that exists (`Some`) with an
/// execute bit set in its permission bits, if any.
pub open spec fn first_executable_spec(candidates: Seq<Option<u32>>) -> Option<int>
    decreases candidates.len(),
{
    if candidates.len() == 0 {
        None
    } else if candidates[0] matches Some(mode) && is_exec_mode(mode) {
        Some(0)
    } else {
        match first_executable_spec(candidates.drop_first()) {
            Some(k) => Some(k + 1),
            None => None,
        }
    }
}

/// Where `type` finds a name on the search path: given, for each directory
/// of the path in order, the permission bits of the file of that name there
/// (`None` when there is no such file), the first directory whose file is
/// executable.
pub fn first_executable(candidates: &Vec<Option<u32>>) -> (r: Option<usize>)
    ensures
        match first_executable_spec(candidates@) {
            Some(k) => r == Some(k as usize),
            None => r is None,
        },
{
    let mut k: usize = 0;
    assert(candidates@.skip(0) =~= candidates@);
    while k < candidates.len()
        invariant
            k <= candidates.len(),
            first_executable_spec(candidates@) == match first_executable_spec(candidates@.skip(k as int)) {
                Some(j) => Some(j + k),
                None => None,
            },
        decreases candidates.len() - k,
    {
        let ghost rest = candidates@.skip(k as int);
        assert(rest[0] == candidates@[k as int]);
        assert(rest.drop_first() =~= candidates@.skip(k + 1));
        if let Some(mode) = candidates[k] {
            if mode & 0o111u32 != 0 {
                return Some(k);
            }
        }
        k = k + 1;
    }
    assert(candidates@.skip(k as int) =~= Seq::<Option<u32>>::empty());
    None
}

/// Why `history` cannot list the history.
#[derive(Clone, Copy, PartialEq, Eq, Structural, Debug)]
pub enum HistoryError {
    /// The count is not an unsigned number.
    InvalidCount,
    /// The count is larger than the history.
    CountTooLarge,
}

/// The line `history` prints for the command at position `k`: its number
/// (`k + 1`), a space, and the command.
pub open spec fn history_line(history: Seq<Seq<char>>, k: int) -> Seq<char> {
    decimal((k + 1) as nat) + seq![' '] + history[k]
}

/// The lines for the commands from position `start` on.
pub open spec fn history_lines_from(history: Seq<Seq<char>>, start: nat) -> Seq<Seq<char>> {
    Seq::new((history.len() - start) as nat, |j: int| history_line(history, j + start))
}

/// What `history` prints for the command line `words`, given the history
/// (oldest first, the `history` command itself included). Without an
/// argument every command is listed, numbered from 1. With an argument and
/// more than one command in the history, the argument is a count `n` and
/// the commands from position `n` on are listed (none for a count of 0);
/// with a history of one command an argument lists nothing.
pub open spec fn history_result(history: Seq<Seq<char>>, words: Seq<Seq<char>>) -> Result<
    Seq<Seq<char>>,
    HistoryError,
> {
    if words.len() < 2 {
        Ok(history_lines_from(history, 0))
    } else if history.len() > 1 {
        match parse_usize_spec(words[1]) {
            None => Err(HistoryError::InvalidCount),
            Some(n) => if n == 0 {
                Ok(seq![])
            } else if n > history.len() {
                Err(HistoryError::CountTooLarge)
            } else {
                Ok(history_lines_from(history, n as nat))
            },
        }
    } else {
        Ok(seq![])
    }
}

/// The lines for the commands from position `start` on.
fn history_lines(history_commands: &Vec<String>, start: usize) -> (lines: Vec<String>)
    requires
        start <= history_commands.len(),
    ensures
        lines.deep_view() == history_lines_from(history_commands.deep_view(), start as nat),
{
    let ghost h = history_commands.deep_view();
    let mut lines: Vec<String> = Vec::new();
    let mut k: usize = start;
    while k < history_commands.len()
        invariant
            start <= k <= history_commands.len(),
            h == history_commands.deep_view(),
            lines.len() == k - start,
            forall|j: int| 0 <= j < lines.len() ==> #[trigger] lines.deep_view()[j] == history_line(h, j + start),
        decreases history_commands.len() - k,
    {
        let mut line = String::new();
        push_decimal(&mut line, k + 1);
        push_char(&mut line, ' ');
        line.append(history_commands[k].as_str());
        assert(line@ =~= history_line(h, k as int));
        let ghost before = lines.deep_view();
        lines.push(line);
        assert(lines.deep_view() =~= before.push(history_line(h, k as int)));
        k = k + 1;
    }
    assert(lines.deep_view() =~= history_lines_from(h, start as nat));
    lines
}

/// The lines `history` prints for the command line `data_vec`, given the
/// history `history_commands` (oldest first, this command included).
pub fn show_history(history_commands: &Vec<String>, data_vec: &Vec<String>) -> (res: Result<Vec<String>, HistoryError>)
    ensures
        match history_result(history_commands.deep_view(), data_vec.deep_view()) {
            Ok(lines) => res matches Ok(v) && v.deep_view() == lines,
            Err(e) => res == Err::<Vec<String>, HistoryError>(e),
        },
{
    if data_vec.len() < 2 {
        return Ok(history_lines(history_commands, 0));
    }
    if history_commands.len() <= 1 {
        let v: Vec<String> = Vec::new();
        assert(v.deep_view() =~= Seq::<Seq<char>>::empty());
        return Ok(v);
    }
    match parse_usize(&data_vec[1]) {
        None => Err(HistoryError::InvalidCount),
        Some(n) => {
            if n == 0 {
                let v: Vec<String> = Vec::new();
                assert(v.deep_view() =~= Seq::<Seq<char>>::empty());
                Ok(v)
            } else if n > history_commands.len() {
                Err(HistoryError::CountTooLarge)
            } else {
                Ok(history_lines(history_commands, n))
            }
        },
    }
}

/// `history` numbers the commands from 1 in the order they were typed:
/// without an argument it lists them all; with a count `n` it lists those
/// after the first `n`, each still under its own number.
pub proof fn law_history_numbering(history: Seq<Seq<char>>, words: Seq<Seq<char>>)
    ensures
        words.len() < 2 ==> (history_result(history, words) matches Ok(lines) && lines.len()
            == history.len() && forall|k: int|
            0 <= k < history.len() ==> #[trigger] lines[k] == decimal((k + 1) as nat) + seq![' ']
                + history[k]),
        words.len() >= 2 && history.len() > 1 ==> (parse_usize_spec(words[1]) matches Some(n) ==> (0
            < n <= history.len() ==> (history_result(history, words) matches Ok(lines)
            && lines.len() == history.len() - n && forall|k: int|
            0 <= k < lines.len() ==> #[trigger] lines[k] == decimal((n + k + 1) as nat) + seq![' ']
                + history[n + k]))),
{
}

proof fn lemma_first_index_after(pre: Seq<Seq<char>>, w: Seq<char>, rest: Seq<Seq<char>>)
    requires
        forall|k: int| 0 <= k < pre.len() ==> pre[k] != w,
    ensures
        first_index(pre + seq![w] + rest, w) == pre.len(),
    decreases pre.len(),
{
    let all = pre + seq![w] + rest;
    if pre.len() == 0 {
        assert(all[0] == w);
    } else {
        assert(all[0] == pre[0]);
        assert(all.drop_first() =~= pre.drop_first() + seq![w] + rest);
        assert forall|k: int| 0 <= k < pre.drop_first().len() implies pre.drop_first()[k] != w by {
            assert(pre.drop_first()[k] == pre[k + 1]);
        }
        lemma_first_index_after(pre.drop_first(), w, rest);
    }
}

/// `type` describes exactly the words after its first `type`, every one of
/// them, a later `type` included.
pub proof fn law_type_targets_after_first(pre: Seq<Seq<char>>, rest: Seq<Seq<char>>)
    requires
        forall|k: int| 0 <= k < pre.len() ==> pre[k] != "type"@,
    ensures
        type_targets_of(pre + seq!["type"@] + rest) == rest,
{
    lemma_first_index_after(pre, "type"@, rest);
    assert((pre + seq!["type"@] + rest).skip((pre.len() + 1) as int) =~= rest);
}

/// `echo` prints the words after its first `echo` with single spaces
/// between them: splitting its output at whitespace gives those words back
/// (when none of them is empty or holds whitespace), a later `echo`
/// included.
pub proof fn law_echo_prints_arguments(pre: Seq<Seq<char>>, rest: Seq<Seq<char>>)
    requires
        forall|k: int| 0 <= k < pre.len() ==> pre[k] != "echo"@,
        forall|k: int| 0 <= k < rest.len() ==> (#[trigger] rest[k]).len() > 0,
        forall|k: int, j: int| 0 <= k < rest.len() && 0 <= j < rest[k].len() ==> !is_ws(#[trigger] rest[k][j]),
    ensures
        ws_words(echo_line(pre + seq!["echo"@] + rest)) == rest,
{
    lemma_first_index_after(pre, "echo"@, rest);
    assert((pre + seq!["echo"@] + rest).skip((pre.len() + 1) as int) =~= rest);
    lemma_join_words_split(rest);
}

proof fn lemma_join_words_split(words: Seq<Seq<char>>)
    requires
        forall|k: int| 0 <= k < words.len() ==> (#[trigger] words[k]).len() > 0,
        forall|k: int, j: int| 0 <= k < words.len() && 0 <= j < words[k].len() ==> !is_ws(#[trigger] words[k][j]),
    ensures
        ws_words(join_words(words)) == words,
    decreases words.len(),
{
    if words.len() == 0 {
        assert(ws_words(Seq::<char>::empty()) =~= words);
    } else if words.len() == 1 {
        let x = words[0];
        assert(forall|j: int| 0 <= j < x.len() ==> !is_ws(#[trigger] x[j]));
        lemma_ws_words_append_word(Seq::<char>::empty(), x);
        assert(Seq::<char>::empty() + seq![' '] + x =~= seq![' '] + x);
        let sx = seq![' '] + x;
        assert(sx[0] == ' ');
        assert(sx.drop_first() =~= x);
        assert(ws_words(sx) == ws_words(x));
        assert(Seq::<Seq<char>>::empty().push(x) =~= words);
    } else {
        let init = words.drop_last();
        let x = words.last();
        assert forall|k: int| 0 <= k < init.len() implies (#[trigger] init[k]).len() > 0 by {
            assert(init[k] == words[k]);
        }
        assert forall|k: int, j: int| 0 <= k < init.len() && 0 <= j < init[k].len() implies !is_ws(
            #[trigger] init[k][j],
        ) by {
            assert(init[k] == words[k]);
        }
        lemma_join_words_split(init);
        assert(x == words[words.len() - 1]);
        assert(forall|j: int| 0 <= j < x.len() ==> !is_ws(#[trigger] x[j]));
        lemma_ws_words_append_word(join_words(init), x);
        assert(init.push(x) =~= words);
    }
}

} // verus!

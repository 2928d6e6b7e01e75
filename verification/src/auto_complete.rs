//! Tab completion of the last word of the line: first against the shell's
//! own commands, then against the executables found on the search path.
use vstd::prelude::*;

use crate::commands::builtin_commands;
use crate::text::{
    chars_of, is_prefix, is_ws, last_word, last_word_of, lemma_trim_end_ws_push_ws, lemma_word_start_append,
    lemma_word_start_bound,
    push_char, push_chars_from, starts_with, trim_end_ws, word_start,
};

verus! {

/// One entry of a directory on the search path: its file name and its Unix
/// permission bits.
pub struct PathEntry {
    pub name: String,
    pub mode: u32,
}

/// Whether permission bits `mode` let someone execute the file.
pub open spec fn is_exec_mode(mode: u32) -> bool {
    mode & 0o111u32 != 0
}

/// The commands that `auto_complete` offers, in the order it tries them:
/// the shell's built-in commands.
pub open spec fn builtin_completions() -> Seq<Seq<char>> {
    seq![
        seq!['e', 'x', 'i', 't'],
        seq!['e', 'c', 'h', 'o'],
        seq!['t', 'y', 'p', 'e'],
        seq!['p', 'w', 'd'],
        seq!['c', 'd'],
        seq!['h', 'i', 's', 't', 'o', 'r', 'y'],
        seq!['l', 's'],
    ]
}

/// The first of `cands` that starts with `w`.
pub open spec fn first_with_prefix(cands: Seq<Seq<char>>, w: Seq<char>) -> Option<Seq<char>>
    decreases cands.len(),
{
    if cands.len() == 0 {
        None
    } else if is_prefix(w, cands[0]) {
        Some(cands[0])
    } else {
        first_with_prefix(cands.drop_first(), w)
    }
}

/// The completed line, or `None` when nothing matches: the last word of
/// `data` is extended to the first built-in command it begins, and a space
/// follows.
pub open spec fn builtin_completion(data: Seq<char>) -> Option<Seq<char>> {
    match last_word(data) {
        None => None,
        Some(w) => match first_with_prefix(builtin_completions(), w) {
            None => None,
            Some(cand) => Some(data + cand.skip(w.len() as int) + seq![' ']),
        },
    }
}

/// The name of the first executable entry, directory by directory in the
/// order given, whose name starts with `w`.
pub open spec fn first_exe_in_dir(entries: Seq<PathEntry>, w: Seq<char>) -> Option<Seq<char>>
    decreases entries.len(),
{
    if entries.len() == 0 {
        None
    } else if is_exec_mode(entries[0].mode) && is_prefix(w, entries[0].name@) {
        Some(entries[0].name@)
    } else {
        first_exe_in_dir(entries.drop_first(), w)
    }
}

/// `first_exe_in_dir` over the directories in order.
pub open spec fn first_exe(dirs: Seq<Vec<PathEntry>>, w: Seq<char>) -> Option<Seq<char>>
    decreases dirs.len(),
{
    if dirs.len() == 0 {
        None
    } else {
        match first_exe_in_dir(dirs[0]@, w) {
            Some(name) => Some(name),
            None => first_exe(dirs.drop_first(), w),
        }
    }
}

/// The completion from the search path, or `None` when nothing matches:
/// the name of the first executable that begins with the last word of
/// `data`, followed by a space. The completion stands for the whole line.
pub open spec fn path_completion(data: Seq<char>, dirs: Seq<Vec<PathEntry>>) -> Option<Seq<char>> {
    match last_word(data) {
        None => None,
        Some(w) => match first_exe(dirs, w) {
            None => None,
            Some(name) => Some(name.push(' ')),
        },
    }
}

fn builtin_completion_list() -> (v: Vec<Vec<char>>)
    ensures
        v.len() == builtin_completions().len(),
        forall|k: int| 0 <= k < v.len() ==> #[trigger] v[k]@ == builtin_completions()[k],
{
    let v = vec![
        vec!['e', 'x', 'i', 't'],
        vec!['e', 'c', 'h', 'o'],
        vec!['t', 'y', 'p', 'e'],
        vec!['p', 'w', 'd'],
        vec!['c', 'd'],
        vec!['h', 'i', 's', 't', 'o', 'r', 'y'],
        vec!['l', 's'],
    ];
    assert(v[0]@ =~= builtin_completions()[0]);
    assert(v[1]@ =~= builtin_completions()[1]);
    assert(v[2]@ =~= builtin_completions()[2]);
    assert(v[3]@ =~= builtin_completions()[3]);
    assert(v[4]@ =~= builtin_completions()[4]);
    assert(v[5]@ =~= builtin_completions()[5]);
    assert(v[6]@ =~= builtin_completions()[6]);
    v
}

/// Completes the last word of `data` to a built-in command (`exit`, `echo`,
/// `type`, `pwd`, `cd`, `history`, `ls`, tried in that order) and adds a
/// space. `no_match` is set
/// when nothing was completed; `data` then comes back unchanged.
pub fn auto_complete(data: &str, no_match: &mut bool) -> (res: String)
    ensures
        match builtin_completion(data@) {
            Some(line) => res@ == line && !*final(no_match),
            None => res@ == data@ && *final(no_match),
        },
{
    let chars = chars_of(data);
    let mut res = String::from_str(data);
    let word = match last_word_of(&chars) {
        None => {
            *no_match = true;
            return res;
        },
        Some(w) => w,
    };
    let cands = builtin_completion_list();
    let ghost w = word@;
    let mut i: usize = 0;
    assert(builtin_completions().skip(0) =~= builtin_completions());
    while i < cands.len()
        invariant
            i <= cands.len() == builtin_completions().len(),
            forall|k: int| 0 <= k < cands.len() ==> #[trigger] cands[k]@ == builtin_completions()[k],
            first_with_prefix(builtin_completions(), w) == first_with_prefix(
                builtin_completions().skip(i as int),
                w,
            ),
            res@ == data@,
            word@ == w,
            last_word(data@) == Some(w),
        decreases cands.len() - i,
    {
        let ghost rest = builtin_completions().skip(i as int);
        assert(rest[0] == cands[i as int]@);
        assert(rest.drop_first() =~= builtin_completions().skip(i + 1));
        if starts_with(&cands[i], &word) {
            assert(first_with_prefix(rest, w) == Some(cands[i as int]@));
            push_chars_from(&mut res, &cands[i], word.len());
            push_char(&mut res, ' ');
            assert(last_word(data@) == Some(w));
            *no_match = false;
            return res;
        }
        i = i + 1;
    }
    *no_match = true;
    res
}

/// Completes the last word of `data` to the name of an executable found on
/// the search path, given as the entries of each of its directories in
/// order. The first entry with an execute bit set whose name begins with
/// the word is taken, and the result is that name and a space (the rest of
/// the line is not kept). `no_match` is set when nothing was completed;
/// `data` then comes back unchanged.
pub fn auto_complete_exe(data: &str, no_match: &mut bool, path_dirs: &Vec<Vec<PathEntry>>) -> (res: String)
    ensures
        match path_completion(data@, path_dirs@) {
            Some(line) => res@ == line && !*final(no_match),
            None => res@ == data@ && *final(no_match),
        },
{
    let chars = chars_of(data);
    let word = match last_word_of(&chars) {
        None => {
            *no_match = true;
            return String::from_str(data);
        },
        Some(w) => w,
    };
    let ghost w = word@;
    let mut i: usize = 0;
    assert(path_dirs@.skip(0) =~= path_dirs@);
    while i < path_dirs.len()
        invariant
            i <= path_dirs.len(),
            first_exe(path_dirs@, w) == first_exe(path_dirs@.skip(i as int), w),
            word@ == w,
            last_word(data@) == Some(w),
        decreases path_dirs.len() - i,
    {
        let dir = &path_dirs[i];
        let ghost drest = path_dirs@.skip(i as int);
        assert(drest[0] == *dir);
        assert(drest.drop_first() =~= path_dirs@.skip(i + 1));
        let mut j: usize = 0;
        assert(dir@.skip(0) =~= dir@);
        while j < dir.len()
            invariant
                j <= dir.len(),
                first_exe_in_dir(dir@, w) == first_exe_in_dir(dir@.skip(j as int), w),
                word@ == w,
                last_word(data@) == Some(w),
                i < path_dirs.len(),
                *dir == path_dirs@[i as int],
                first_exe(path_dirs@, w) == first_exe(path_dirs@.skip(i as int), w),
            decreases dir.len() - j,
        {
            let entry = &dir[j];
            let ghost erest = dir@.skip(j as int);
            assert(erest[0] == *entry);
            assert(erest.drop_first() =~= dir@.skip(j + 1));
            let name_chars = chars_of(entry.name.as_str());
            if entry.mode & 0o111u32 != 0 && starts_with(&name_chars, &word) {
                assert(first_exe_in_dir(erest, w) == Some(entry.name@));
                let ghost drest = path_dirs@.skip(i as int);
                assert(drest[0] == *dir);
                assert(first_exe(drest, w) == Some(entry.name@));
                let mut res = entry.name.clone();
                push_char(&mut res, ' ');
                assert(last_word(data@) == Some(w));
                *no_match = false;
                return res;
            }
            j = j + 1;
        }
        assert(dir@.skip(j as int) =~= Seq::<PathEntry>::empty());
        i = i + 1;
    }
    *no_match = true;
    String::from_str(data)
}

proof fn lemma_first_with_prefix(cands: Seq<Seq<char>>, w: Seq<char>)
    ensures
        first_with_prefix(cands, w) matches Some(c) ==> cands.contains(c) && is_prefix(w, c),
    decreases cands.len(),
{
    if cands.len() > 0 && !is_prefix(w, cands[0]) {
        lemma_first_with_prefix(cands.drop_first(), w);
        if let Some(c) = first_with_prefix(cands.drop_first(), w) {
            let k = choose|k: int| 0 <= k < cands.drop_first().len() && cands.drop_first()[k] == c;
            assert(cands[k + 1] == c);
        }
    } else if cands.len() > 0 {
        assert(cands[0] == cands[0]);
    }
}

/// Tab on a line that does not end in whitespace turns its last word into
/// a built-in command: the completed line's last word is the command the
/// typed word began, and the line typed so far is kept in front of it.
pub proof fn law_builtin_completion_completes_word(data: Seq<char>)
    requires
        data.len() > 0,
        !is_ws(data.last()),
        builtin_completion(data) is Some,
    ensures
        ({
            let line = builtin_completion(data)->0;
            let cand = first_with_prefix(builtin_completions(), last_word(data)->0)->0;
            &&& builtin_completions().contains(cand)
            &&& is_prefix(last_word(data)->0, cand)
            &&& is_prefix(data, line)
            &&& last_word(line) == Some(cand)
        }),
{
    let w = last_word(data)->0;
    lemma_first_with_prefix(builtin_completions(), w);
    let cand = first_with_prefix(builtin_completions(), w)->0;
    let r = cand.skip(w.len() as int);
    let line = data + r + seq![' '];
    assert(trim_end_ws(data) == data);
    let k = choose|k: int| 0 <= k < builtin_completions().len() && builtin_completions()[k] == cand;
    assert(forall|j: int| 0 <= j < cand.len() ==> !is_ws(#[trigger] cand[j])) by {
        assert(0 <= k < 7);
    }
    assert forall|j: int| 0 <= j < r.len() implies !is_ws(#[trigger] r[j]) by {
        assert(r[j] == cand[j + w.len()]);
    }
    assert((data + r).push(' ') =~= line);
    lemma_trim_end_ws_push_ws(data + r, ' ');
    let dr = data + r;
    if r.len() > 0 {
        assert(dr.last() == r[r.len() - 1]);
    } else {
        assert(dr.last() == data.last());
    }
    assert(trim_end_ws(dr) == dr);
    lemma_word_start_append(data, r);
    let ws = word_start(data);
    lemma_word_start_bound(data);
    assert(w == data.skip(ws as int));
    assert(cand =~= cand.take(w.len() as int) + r);
    assert(dr.skip(ws as int) =~= data.skip(ws as int) + r);
    assert(line.take(data.len() as int) =~= data);
}

/// An entry that path completion may choose for the word `w`: it has an
/// execute bit set and its name begins with `w` (or is `w`).
pub open spec fn completes_to(e: PathEntry, w: Seq<char>) -> bool {
    is_exec_mode(e.mode) && is_prefix(w, e.name@)
}

proof fn lemma_first_exe_in_dir(entries: Seq<PathEntry>, w: Seq<char>)
    ensures
        first_exe_in_dir(entries, w) is None <==> forall|j: int|
            0 <= j < entries.len() ==> !completes_to(#[trigger] entries[j], w),
        first_exe_in_dir(entries, w) matches Some(n) ==> exists|j: int|
            0 <= j < entries.len() && completes_to(#[trigger] entries[j], w) && entries[j].name@ == n
                && forall|i: int| 0 <= i < j ==> !completes_to(#[trigger] entries[i], w),
    decreases entries.len(),
{
    if entries.len() > 0 {
        let rest = entries.drop_first();
        lemma_first_exe_in_dir(rest, w);
        if completes_to(entries[0], w) {
            assert(first_exe_in_dir(entries, w) == Some(entries[0].name@));
            assert(forall|i: int| 0 <= i < 0 ==> !completes_to(#[trigger] entries[i], w));
        } else {
            assert forall|j: int| 0 <= j < rest.len() implies rest[j] == entries[j + 1] by {}
            if first_exe_in_dir(rest, w) is None {
                assert forall|j: int| 0 <= j < entries.len() implies !completes_to(#[trigger] entries[j], w) by {
                    if j > 0 {
                        assert(entries[j] == rest[j - 1]);
                    }
                }
            } else {
                let n = first_exe_in_dir(rest, w)->0;
                let j = choose|j: int|
                    0 <= j < rest.len() && completes_to(#[trigger] rest[j], w) && rest[j].name@ == n
                        && forall|i: int| 0 <= i < j ==> !completes_to(#[trigger] rest[i], w);
                assert(entries[j + 1] == rest[j]);
                assert forall|i: int| 0 <= i < j + 1 implies !completes_to(#[trigger] entries[i], w) by {
                    if i > 0 {
                        assert(entries[i] == rest[i - 1]);
                    }
                }
                assert(!(forall|k: int| 0 <= k < entries.len() ==> !completes_to(#[trigger] entries[k], w)));
            }
        }
    }
}

proof fn lemma_first_exe(dirs: Seq<Vec<PathEntry>>, w: Seq<char>)
    ensures
        first_exe(dirs, w) is None <==> forall|d: int, e: int|
            0 <= d < dirs.len() && 0 <= e < dirs[d]@.len() ==> !completes_to(#[trigger] dirs[d]@[e], w),
        first_exe(dirs, w) matches Some(n) ==> exists|d: int, e: int|
            0 <= d < dirs.len() && 0 <= e < dirs[d]@.len() && completes_to(#[trigger] dirs[d]@[e], w)
                && dirs[d]@[e].name@ == n && forall|d2: int, e2: int|
                0 <= d2 <= d && 0 <= e2 < dirs[d2]@.len() && (d2 < d || e2 < e) ==> !completes_to(
                    #[trigger] dirs[d2]@[e2],
                    w,
                ),
    decreases dirs.len(),
{
    if dirs.len() > 0 {
        let rest = dirs.drop_first();
        lemma_first_exe(rest, w);
        lemma_first_exe_in_dir(dirs[0]@, w);
        assert forall|d: int| 0 <= d < rest.len() implies rest[d] == dirs[d + 1] by {}
        match first_exe_in_dir(dirs[0]@, w) {
            Some(n) => {
                let e = choose|j: int|
                    0 <= j < dirs[0]@.len() && completes_to(#[trigger] dirs[0]@[j], w) && dirs[0]@[j].name@
                        == n && forall|i: int| 0 <= i < j ==> !completes_to(#[trigger] dirs[0]@[i], w);
                assert(completes_to(dirs[0]@[e], w));
                assert forall|d2: int, e2: int|
                    0 <= d2 <= 0 && 0 <= e2 < dirs[d2]@.len() && (d2 < 0 || e2 < e) implies !completes_to(
                        #[trigger] dirs[d2]@[e2],
                        w,
                    ) by {}
            },
            None => {
                if first_exe(rest, w) is None {
                    assert forall|d: int, e: int|
                        0 <= d < dirs.len() && 0 <= e < dirs[d]@.len() implies !completes_to(
                            #[trigger] dirs[d]@[e],
                            w,
                        ) by {
                        if d > 0 {
                            assert(dirs[d] == rest[d - 1]);
                        }
                    }
                } else {
                    let n = first_exe(rest, w)->0;
                    let (d, e) = choose|d: int, e: int|
                        0 <= d < rest.len() && 0 <= e < rest[d]@.len() && completes_to(
                            #[trigger] rest[d]@[e],
                            w,
                        ) && rest[d]@[e].name@ == n && forall|d2: int, e2: int|
                            0 <= d2 <= d && 0 <= e2 < rest[d2]@.len() && (d2 < d || e2 < e)
                                ==> !completes_to(#[trigger] rest[d2]@[e2], w);
                    assert(dirs[d + 1] == rest[d]);
                    assert(completes_to(dirs[d + 1]@[e], w));
                    assert forall|d2: int, e2: int|
                        0 <= d2 <= d + 1 && 0 <= e2 < dirs[d2]@.len() && (d2 < d + 1 || e2 < e)
                            implies !completes_to(#[trigger] dirs[d2]@[e2], w) by {
                        if d2 > 0 {
                            assert(dirs[d2] == rest[d2 - 1]);
                        }
                    }
                    assert(!(forall|d3: int, e3: int|
                        0 <= d3 < dirs.len() && 0 <= e3 < dirs[d3]@.len() ==> !completes_to(
                            #[trigger] dirs[d3]@[e3],
                            w,
                        )));
                }
            },
        }
    }
}

/// Path completion takes the first entry, directory by directory and in
/// each directory in order, that has an execute bit set and whose name
/// begins with the last word (a word begins itself, so a complete name is
/// completed too): it gives that name and a space. It gives nothing only
/// when the line has no word or no such entry exists.
pub proof fn law_path_completion_first_match(data: Seq<char>, dirs: Seq<Vec<PathEntry>>)
    ensures
        (last_word(data) matches Some(w) && exists|d: int, e: int|
            0 <= d < dirs.len() && 0 <= e < dirs[d]@.len() && completes_to(#[trigger] dirs[d]@[e], w))
            ==> path_completion(data, dirs) is Some,
        path_completion(data, dirs) matches Some(line) ==> last_word(data) matches Some(w)
            && exists|d: int, e: int|
            0 <= d < dirs.len() && 0 <= e < dirs[d]@.len() && completes_to(#[trigger] dirs[d]@[e], w)
                && line == dirs[d]@[e].name@.push(' ') && forall|d2: int, e2: int|
                0 <= d2 <= d && 0 <= e2 < dirs[d2]@.len() && (d2 < d || e2 < e) ==> !completes_to(
                    #[trigger] dirs[d2]@[e2],
                    w,
                ),
{
    if let Some(w) = last_word(data) {
        lemma_first_exe(dirs, w);
    }
}

proof fn lemma_first_with_prefix_first(cands: Seq<Seq<char>>, w: Seq<char>)
    ensures
        first_with_prefix(cands, w) is None <==> forall|i: int|
            0 <= i < cands.len() ==> !is_prefix(w, #[trigger] cands[i]),
        first_with_prefix(cands, w) matches Some(c) ==> exists|i: int|
            0 <= i < cands.len() && #[trigger] cands[i] == c && is_prefix(w, c) && forall|j: int|
                0 <= j < i ==> !is_prefix(w, #[trigger] cands[j]),
    decreases cands.len(),
{
    if cands.len() > 0 {
        let rest = cands.drop_first();
        lemma_first_with_prefix_first(rest, w);
        assert forall|i: int| 0 <= i < rest.len() implies rest[i] == cands[i + 1] by {}
        if is_prefix(w, cands[0]) {
            assert(cands[0] == cands[0]);
        } else if first_with_prefix(rest, w) is None {
            assert forall|i: int| 0 <= i < cands.len() implies !is_prefix(w, #[trigger] cands[i]) by {
                if i > 0 {
                    assert(cands[i] == rest[i - 1]);
                }
            }
        } else {
            let c = first_with_prefix(rest, w)->0;
            let i = choose|i: int|
                0 <= i < rest.len() && #[trigger] rest[i] == c && is_prefix(w, c) && forall|j: int|
                    0 <= j < i ==> !is_prefix(w, #[trigger] rest[j]);
            assert(cands[i + 1] == c);
            assert forall|j: int| 0 <= j < i + 1 implies !is_prefix(w, #[trigger] cands[j]) by {
                if j > 0 {
                    assert(cands[j] == rest[j - 1]);
                }
            }
        }
    }
}

/// Tab completes to the first built-in command, in the order they are
/// offered, that the last word begins (a word begins itself): the line
/// followed by the rest of that command and a space. It completes nothing
/// only when the line has no word or no built-in command begins with it.
pub proof fn law_builtin_completion_first_match(data: Seq<char>)
    ensures
        (last_word(data) matches Some(w) && exists|i: int|
            0 <= i < builtin_completions().len() && is_prefix(w, #[trigger] builtin_completions()[i]))
            ==> builtin_completion(data) is Some,
        builtin_completion(data) matches Some(line) ==> last_word(data) matches Some(w) && exists|i: int|
            0 <= i < builtin_completions().len() && is_prefix(w, #[trigger] builtin_completions()[i])
                && line == data + builtin_completions()[i].skip(w.len() as int) + seq![' ']
                && forall|j: int| 0 <= j < i ==> !is_prefix(w, #[trigger] builtin_completions()[j]),
{
    if let Some(w) = last_word(data) {
        lemma_first_with_prefix_first(builtin_completions(), w);
    }
}

/// Every built-in command of the shell, and `ls`, is offered by Tab.
pub proof fn law_builtins_offered()
    ensures
        forall|i: int|
            0 <= i < builtin_commands().len() ==> builtin_completions().contains(
                #[trigger] builtin_commands()[i],
            ),
        builtin_completions().contains("ls"@),
{
    reveal_strlit("echo");
    reveal_strlit("exit");
    reveal_strlit("type");
    reveal_strlit("pwd");
    reveal_strlit("cd");
    reveal_strlit("history");
    reveal_strlit("ls");
    let b = builtin_completions();
    assert("exit"@ =~= b[0]);
    assert("echo"@ =~= b[1]);
    assert("type"@ =~= b[2]);
    assert("pwd"@ =~= b[3]);
    assert("cd"@ =~= b[4]);
    assert("history"@ =~= b[5]);
    assert("ls"@ =~= b[6]);
}

} // verus!

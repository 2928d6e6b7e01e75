//! Line editing: what each key press does to the line being typed and to
//! the position in the command history, and what the terminal is to show.
use vstd::prelude::*;

use crate::auto_complete::{auto_complete, auto_complete_exe, builtin_completion, path_completion, PathEntry};
use crate::text::push_char;

verus! {

/// The key that was pressed.
#[derive(Clone, Copy, PartialEq, Eq, Structural, Debug)]
pub enum Key {
    Char(char),
    Up,
    Down,
    Tab,
    Enter,
    Backspace,
    Other,
}

/// A key press: the key and whether Control was held.
#[derive(Clone, Copy, PartialEq, Eq, Structural, Debug)]
pub struct KeyPress {
    pub code: Key,
    pub ctrl: bool,
}

/// What the terminal is to do after a key press.
pub enum InputAction {
    /// Nothing to show.
    Nothing,
    /// Show this text.
    Print(String),
    /// Ring the bell: nothing could be completed.
    Bell,
    /// Control-C: leave raw mode and end the shell.
    Interrupt,
    /// Enter: the line is complete.
    Submit,
    /// Tab found no built-in command: complete from the search path with
    /// `complete_from_path`.
    CompleteFromPath,
}

/// `InputAction` with the text to show as a sequence of characters.
pub enum ActionView {
    Nothing,
    Print(Seq<char>),
    Bell,
    Interrupt,
    Submit,
    CompleteFromPath,
}

impl View for InputAction {
    type V = ActionView;

    open spec fn view(&self) -> ActionView {
        match self {
            InputAction::Nothing => ActionView::Nothing,
            InputAction::Print(s) => ActionView::Print(s@),
            InputAction::Bell => ActionView::Bell,
            InputAction::Interrupt => ActionView::Interrupt,
            InputAction::Submit => ActionView::Submit,
            InputAction::CompleteFromPath => ActionView::CompleteFromPath,
        }
    }
}

/// The history length as the position counter sees it (a `u32`).
pub open spec fn history_len(history: Seq<Seq<char>>) -> u32 {
    history.len() as u32
}

/// Control-C.
pub open spec fn is_interrupt(key: KeyPress) -> bool {
    key.ctrl && key.code == Key::Char('c')
}

/// What a key press does: the line and the history position after it, and
/// what to show. `idx` counts how far back in the history the last Up went.
/// - Control-C interrupts; Enter submits; both leave line and position.
/// - A character is added to the line and shown.
/// - Up moves one step back; when that step is within the history, the
///   line becomes that older command, which is shown with a space after it.
/// - Down, unless at the newest position, moves one step forward; when that
///   step is within the history, the line becomes that newer command, which
///   is shown with a space after it.
/// - Tab completes the last word to a built-in command and shows the new
///   line after a carriage return and the prompt; when no built-in command
///   fits, completion from the search path is asked for.
/// - Backspace removes the last character of a non-empty line and rubs it
///   out on the screen.
pub open spec fn key_step(history: Seq<Seq<char>>, data: Seq<char>, idx: u32, key: KeyPress) -> (
    Seq<char>,
    u32,
    ActionView,
) {
    let len = history_len(history);
    if is_interrupt(key) {
        (data, idx, ActionView::Interrupt)
    } else {
        match key.code {
            Key::Char(c) => (data.push(c), idx, ActionView::Print(seq![c])),
            Key::Up => {
                let n = (idx + 1) as u32;
                if n <= len {
                    let entry = history[len - n];
                    (entry, n, ActionView::Print(entry.push(' ')))
                } else {
                    (data, n, ActionView::Nothing)
                }
            },
            Key::Down => {
                if idx == 0 {
                    (data, idx, ActionView::Nothing)
                } else {
                    let n = (idx - 1) as u32;
                    if n <= len && len - n < history.len() {
                        let entry = history[len - n];
                        (entry, n, ActionView::Print(entry.push(' ')))
                    } else {
                        (data, n, ActionView::Nothing)
                    }
                }
            },
            Key::Tab => match builtin_completion(data) {
                Some(line) => (line, idx, ActionView::Print(seq!['\r', '$', ' '] + line)),
                None => (data, idx, ActionView::CompleteFromPath),
            },
            Key::Enter => (data, idx, ActionView::Submit),
            Key::Backspace => {
                if data.len() > 0 {
                    (data.drop_last(), idx, ActionView::Print(seq!['\u{8}', ' ', '\u{8}']))
                } else {
                    (data, idx, ActionView::Nothing)
                }
            },
            Key::Other => (data, idx, ActionView::Nothing),
        }
    }
}

/// What completing from the search path does: the line becomes the
/// completion, shown after a carriage return and the prompt; without a
/// completion the bell rings and the line stays.
pub open spec fn path_step(data: Seq<char>, dirs: Seq<Vec<PathEntry>>) -> (Seq<char>, ActionView) {
    match path_completion(data, dirs) {
        Some(line) => (line, ActionView::Print(seq!['\r', '$', ' '] + line)),
        None => (data, ActionView::Bell),
    }
}

/// Removes the last character of `s` (std's `String::pop`).
#[verifier::external_body]
fn pop_char(s: &mut String) -> (c: Option<char>)
    ensures
        old(s)@.len() == 0 ==> c is None && final(s)@ == old(s)@,
        old(s)@.len() > 0 ==> c == Some(old(s)@.last()) && final(s)@ == old(s)@.drop_last(),
{
    s.pop()
}

/// `"\r$ "` followed by `line`: the prompt redrawn with a new line.
fn redraw(line: &String) -> (s: String)
    ensures
        s@ == seq!['\r', '$', ' '] + line@,
{
    let mut s = String::new();
    push_char(&mut s, '\r');
    push_char(&mut s, '$');
    push_char(&mut s, ' ');
    s.append(line.as_str());
    assert(s@ =~= seq!['\r', '$', ' '] + line@);
    s
}

/// Takes one key press while a command line is typed: updates the line
/// `data` and the history position `his_idx`, and says what to show.
/// `history` holds the earlier commands, oldest first.
pub fn take_input(history: &Vec<String>, data: &mut String, his_idx: &mut u32, key: KeyPress) -> (action: InputAction)
    requires
        !is_interrupt(key) && key.code == Key::Up ==> *old(his_idx) < u32::MAX,
    ensures
        (final(data)@, *final(his_idx), action@) == key_step(
            history.deep_view(),
            old(data)@,
            *old(his_idx),
            key,
        ),
{
    let ghost h = history.deep_view();
    let his_len = history.len() as u32;
    assert(his_len == history_len(h));
    if key.ctrl && key.code == Key::Char('c') {
        return InputAction::Interrupt;
    }
    match key.code {
        Key::Char(c) => {
            push_char(data, c);
            let mut shown = String::new();
            push_char(&mut shown, c);
            assert(shown@ =~= seq![c]);
            InputAction::Print(shown)
        },
        Key::Up => {
            *his_idx = *his_idx + 1;
            if *his_idx <= his_len {
                let req_idx = (his_len - *his_idx) as usize;
                assert(history.len() > 0);
                if req_idx <= history.len() - 1 {
                    *data = history[req_idx].clone();
                    let mut shown = history[req_idx].clone();
                    push_char(&mut shown, ' ');
                    assert(h[req_idx as int] == history[req_idx as int]@);
                    InputAction::Print(shown)
                } else {
                    InputAction::Nothing
                }
            } else {
                InputAction::Nothing
            }
        },
        Key::Down => {
            if *his_idx == 0 {
                return InputAction::Nothing;
            }
            *his_idx = *his_idx - 1;
            if *his_idx <= his_len {
                let req_idx = (his_len - *his_idx) as usize;
                if req_idx < history.len() {
                    *data = history[req_idx].clone();
                    let mut shown = history[req_idx].clone();
                    push_char(&mut shown, ' ');
                    assert(h[req_idx as int] == history[req_idx as int]@);
                    InputAction::Print(shown)
                } else {
                    InputAction::Nothing
                }
            } else {
                InputAction::Nothing
            }
        },
        Key::Tab => {
            let mut no_match = false;
            let result = auto_complete(data.as_str(), &mut no_match);
            if no_match {
                InputAction::CompleteFromPath
            } else {
                let shown = redraw(&result);
                *data = result;
                InputAction::Print(shown)
            }
        },
        Key::Enter => InputAction::Submit,
        Key::Backspace => {
            if data.as_str().unicode_len() > 0 {
                pop_char(data);
                let mut shown = String::new();
                push_char(&mut shown, '\u{8}');
                push_char(&mut shown, ' ');
                push_char(&mut shown, '\u{8}');
                assert(shown@ =~= seq!['\u{8}', ' ', '\u{8}']);
                InputAction::Print(shown)
            } else {
                InputAction::Nothing
            }
        },
        Key::Other => InputAction::Nothing,
    }
}

/// Completes the line `data` from the executables on the search path, given
/// as the entries of each of its directories in order, after Tab found no
/// built-in command; says what to show.
pub fn complete_from_path(data: &mut String, path_dirs: &Vec<Vec<PathEntry>>) -> (action: InputAction)
    ensures
        (final(data)@, action@) == path_step(old(data)@, path_dirs@),
{
    let mut no_match = false;
    let result = auto_complete_exe(data.as_str(), &mut no_match, path_dirs);
    if no_match {
        InputAction::Bell
    } else {
        let shown = redraw(&result);
        *data = result;
        InputAction::Print(shown)
    }
}

/// Backspace right after typing a character gives back the line and the
/// history position as they were before the character.
pub proof fn law_backspace_undoes_typing(
    history: Seq<Seq<char>>,
    data: Seq<char>,
    idx: u32,
    c: char,
    ctrl_typed: bool,
    ctrl_erase: bool,
)
    requires
        !is_interrupt(KeyPress { code: Key::Char(c), ctrl: ctrl_typed }),
    ensures
        ({
            let typed = key_step(history, data, idx, KeyPress { code: Key::Char(c), ctrl: ctrl_typed });
            let erased = key_step(
                history,
                typed.0,
                typed.1,
                KeyPress { code: Key::Backspace, ctrl: ctrl_erase },
            );
            erased.0 == data && erased.1 == idx
        }),
{
    assert(data.push(c).drop_last() =~= data);
}

/// Down right after Up comes back to the history position from before Up.
pub proof fn law_down_undoes_up(
    history: Seq<Seq<char>>,
    data: Seq<char>,
    idx: u32,
    ctrl_up: bool,
    ctrl_down: bool,
)
    requires
        idx < u32::MAX,
    ensures
        ({
            let up = key_step(history, data, idx, KeyPress { code: Key::Up, ctrl: ctrl_up });
            let down = key_step(history, up.0, up.1, KeyPress { code: Key::Down, ctrl: ctrl_down });
            down.1 == idx
        }),
{
}

/// Down right after Up, from a position other than the newest, brings the
/// line back to the command at that position: Up then Down returns to the
/// newer command.
pub proof fn law_down_restores_newer(
    history: Seq<Seq<char>>,
    data: Seq<char>,
    idx: u32,
    ctrl_up: bool,
    ctrl_down: bool,
)
    requires
        history.len() <= u32::MAX,
        1 <= idx < history.len(),
    ensures
        ({
            let up = key_step(history, data, idx, KeyPress { code: Key::Up, ctrl: ctrl_up });
            let down = key_step(history, up.0, up.1, KeyPress { code: Key::Down, ctrl: ctrl_down });
            down.0 == history[history.len() - idx] && down.1 == idx
        }),
{
}

/// The line and history position after a run of key presses.
pub open spec fn key_run(history: Seq<Seq<char>>, data: Seq<char>, idx: u32, keys: Seq<KeyPress>) -> (
    Seq<char>,
    u32,
)
    decreases keys.len(),
{
    if keys.len() == 0 {
        (data, idx)
    } else {
        let step = key_step(history, data, idx, keys[0]);
        key_run(history, step.0, step.1, keys.drop_first())
    }
}

/// Typing characters (none of them Control-C) adds them to the line in
/// order and leaves the history position alone.
pub proof fn law_typing_appends(history: Seq<Seq<char>>, data: Seq<char>, idx: u32, keys: Seq<KeyPress>)
    requires
        forall|k: int|
            0 <= k < keys.len() ==> (#[trigger] keys[k]).code is Char && !is_interrupt(keys[k]),
    ensures
        key_run(history, data, idx, keys) == (
            data + Seq::new(keys.len(), |k: int| keys[k].code->Char_0),
            idx,
        ),
    decreases keys.len(),
{
    let typed = Seq::new(keys.len(), |k: int| keys[k].code->Char_0);
    if keys.len() == 0 {
        assert(data + typed =~= data);
    } else {
        let c = keys[0].code->Char_0;
        let rest = keys.drop_first();
        assert forall|k: int| 0 <= k < rest.len() implies (#[trigger] rest[k]).code is Char
            && !is_interrupt(rest[k]) by {
            assert(rest[k] == keys[k + 1]);
        }
        law_typing_appends(history, data.push(c), idx, rest);
        let rest_typed = Seq::new(rest.len(), |k: int| rest[k].code->Char_0);
        assert(data.push(c) + rest_typed =~= data + typed);
    }
}

/// Up, from a position within the history, brings back the command one
/// step older than that position: the newest command first, then older ones.
pub proof fn law_up_recalls_history(history: Seq<Seq<char>>, data: Seq<char>, idx: u32, ctrl: bool)
    requires
        history.len() <= u32::MAX,
        idx < history.len(),
    ensures
        key_step(history, data, idx, KeyPress { code: Key::Up, ctrl }).0 == history[history.len()
            - 1 - idx],
{
}

} // verus!

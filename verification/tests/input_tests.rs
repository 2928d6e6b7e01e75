use rust_shell::auto_complete::PathEntry;
use rust_shell::input::{complete_from_path, take_input, InputAction, Key, KeyPress};

fn press(code: Key) -> KeyPress {
    KeyPress { code, ctrl: false }
}

fn printed(a: &InputAction) -> Option<String> {
    match a {
        InputAction::Print(s) => Some(s.clone()),
        _ => None,
    }
}

fn history() -> Vec<String> {
    vec!["echo \"first command\"".to_string(), "echo \"second command\"".to_string()]
}

#[test]
fn typing_appends_and_echoes() {
    let h = history();
    let mut data = String::from("ec");
    let mut idx = 0u32;
    let a = take_input(&h, &mut data, &mut idx, press(Key::Char('h')));
    assert_eq!(data, "ech");
    assert_eq!(printed(&a), Some("h".to_string()));
    let a = take_input(&h, &mut data, &mut idx, KeyPress { code: Key::Char('x'), ctrl: true });
    assert_eq!(data, "echx");
    assert_eq!(printed(&a), Some("x".to_string()));
}

#[test]
fn control_c_interrupts() {
    let h = history();
    let mut data = String::from("abc");
    let mut idx = 1u32;
    let a = take_input(&h, &mut data, &mut idx, KeyPress { code: Key::Char('c'), ctrl: true });
    assert!(matches!(a, InputAction::Interrupt));
    assert_eq!(data, "abc");
    assert_eq!(idx, 1);
}

#[test]
fn readme_history_navigation() {
    let h = history();
    let mut data = String::new();
    let mut idx = 0u32;
    let a = take_input(&h, &mut data, &mut idx, press(Key::Up));
    assert_eq!(printed(&a), Some("echo \"second command\" ".to_string()));
    assert_eq!(data, "echo \"second command\"");
    let a = take_input(&h, &mut data, &mut idx, press(Key::Up));
    assert_eq!(printed(&a), Some("echo \"first command\" ".to_string()));
    assert_eq!(data, "echo \"first command\"");
    let a = take_input(&h, &mut data, &mut idx, press(Key::Down));
    assert_eq!(printed(&a), Some("echo \"second command\" ".to_string()));
    assert_eq!(data, "echo \"second command\"");
    assert_eq!(idx, 1);
    let a = take_input(&h, &mut data, &mut idx, press(Key::Enter));
    assert!(matches!(a, InputAction::Submit));
    assert_eq!(data, "echo \"second command\"");
}

#[test]
fn arrows_without_history_do_nothing() {
    let h: Vec<String> = vec![];
    let mut data = String::new();
    let mut idx = 0u32;
    let a = take_input(&h, &mut data, &mut idx, press(Key::Up));
    assert!(matches!(a, InputAction::Nothing));
    let a = take_input(&h, &mut data, &mut idx, press(Key::Down));
    assert!(matches!(a, InputAction::Nothing));
    assert_eq!(data, "");
    assert_eq!(idx, 0);
}

#[test]
fn law_down_restores_newer_example() {
    let h = vec!["a".to_string(), "b".to_string(), "c".to_string()];
    for start in 1u32..3 {
        let mut data = String::from("typed");
        let mut idx = start;
        take_input(&h, &mut data, &mut idx, press(Key::Up));
        take_input(&h, &mut data, &mut idx, press(Key::Down));
        assert_eq!(data, h[h.len() - start as usize]);
        assert_eq!(idx, start);
    }
}

#[test]
fn law_typing_appends_example() {
    let h = history();
    let mut data = String::from("e");
    let mut idx = 2u32;
    for c in "cho hi".chars() {
        take_input(&h, &mut data, &mut idx, KeyPress { code: Key::Char(c), ctrl: c == 'h' });
    }
    assert_eq!(data, "echo hi");
    assert_eq!(idx, 2);
}

#[test]
fn up_past_the_oldest_and_down_at_newest() {
    let h = history();
    let mut data = String::from("x");
    let mut idx = 2u32;
    let a = take_input(&h, &mut data, &mut idx, press(Key::Up));
    assert!(matches!(a, InputAction::Nothing));
    assert_eq!(idx, 3);
    assert_eq!(data, "x");
    let a = take_input(&h, &mut data, &mut idx, press(Key::Down));
    assert_eq!(printed(&a), Some("echo \"first command\" ".to_string()));
    assert_eq!(data, "echo \"first command\"");
    assert_eq!(idx, 2);
    let mut idx = 0u32;
    let a = take_input(&h, &mut data, &mut idx, press(Key::Down));
    assert!(matches!(a, InputAction::Nothing));
    assert_eq!(idx, 0);
    let mut idx = 1u32;
    let a = take_input(&h, &mut data, &mut idx, press(Key::Down));
    assert!(matches!(a, InputAction::Nothing));
    assert_eq!(idx, 0);
}

#[test]
fn tab_completes_builtin_and_redraws() {
    let h = history();
    let mut data = String::from("ec");
    let mut idx = 0u32;
    let a = take_input(&h, &mut data, &mut idx, press(Key::Tab));
    assert_eq!(data, "echo ");
    assert_eq!(printed(&a), Some("\r$ echo ".to_string()));
}

#[test]
fn tab_falls_back_to_search_path() {
    let h = history();
    let mut data = String::from("gr");
    let mut idx = 0u32;
    let a = take_input(&h, &mut data, &mut idx, press(Key::Tab));
    assert!(matches!(a, InputAction::CompleteFromPath));
    assert_eq!(data, "gr");
    let dirs = vec![vec![PathEntry { name: "grep".to_string(), mode: 0o755 }]];
    let a = complete_from_path(&mut data, &dirs);
    assert_eq!(data, "grep ");
    assert_eq!(printed(&a), Some("\r$ grep ".to_string()));
    let mut data = String::from("zz");
    let a = complete_from_path(&mut data, &dirs);
    assert!(matches!(a, InputAction::Bell));
    assert_eq!(data, "zz");
}

#[test]
fn enter_submits_and_other_keys_do_nothing() {
    let h = history();
    let mut data = String::from("ls");
    let mut idx = 0u32;
    assert!(matches!(take_input(&h, &mut data, &mut idx, press(Key::Enter)), InputAction::Submit));
    assert!(matches!(take_input(&h, &mut data, &mut idx, press(Key::Other)), InputAction::Nothing));
    assert_eq!(data, "ls");
}

#[test]
fn backspace_removes_last_char() {
    let h = history();
    let mut data = String::from("aé");
    let mut idx = 0u32;
    let a = take_input(&h, &mut data, &mut idx, press(Key::Backspace));
    assert_eq!(data, "a");
    assert_eq!(printed(&a), Some("\u{8} \u{8}".to_string()));
    let mut data = String::new();
    let a = take_input(&h, &mut data, &mut idx, press(Key::Backspace));
    assert!(matches!(a, InputAction::Nothing));
    assert_eq!(data, "");
}

#[test]
fn law_backspace_undoes_typing_example() {
    let h = history();
    let mut data = String::from("pw");
    let mut idx = 1u32;
    take_input(&h, &mut data, &mut idx, press(Key::Char('d')));
    take_input(&h, &mut data, &mut idx, press(Key::Backspace));
    assert_eq!(data, "pw");
    assert_eq!(idx, 1);
}

#[test]
fn law_down_undoes_up_example() {
    let h = history();
    for start in 0u32..5 {
        let mut data = String::new();
        let mut idx = start;
        take_input(&h, &mut data, &mut idx, press(Key::Up));
        take_input(&h, &mut data, &mut idx, press(Key::Down));
        assert_eq!(idx, start);
    }
}

#[test]
fn law_up_recalls_history_example() {
    let h = vec!["a".to_string(), "b".to_string(), "c".to_string()];
    let mut data = String::new();
    let mut idx = 0u32;
    for expected in ["c", "b", "a"] {
        take_input(&h, &mut data, &mut idx, press(Key::Up));
        assert_eq!(data, expected);
    }
}

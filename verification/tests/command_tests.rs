use rust_shell::commands::{exe_echo, exe_type, first_executable, inbuilt_commands, show_history, type_targets, HistoryError};
use rust_shell::text::{is_whitespace, parse_usize, push_decimal};

fn words(v: &[&str]) -> Vec<String> {
    v.iter().map(|s| s.to_string()).collect()
}

#[test]
fn builtin_list() {
    assert_eq!(inbuilt_commands(), words(&["echo", "exit", "type", "pwd", "cd", "history"]));
}

#[test]
fn echo_joins_arguments() {
    assert_eq!(exe_echo(&words(&["echo", "hello", "world"])), "hello world");
    assert_eq!(exe_echo(&words(&["echo", "Rust is awesome!"])), "Rust is awesome!");
    assert_eq!(exe_echo(&words(&["echo"])), "");
}

#[test]
fn echo_starts_after_first_echo() {
    assert_eq!(exe_echo(&words(&["ls", "|", "echo", "x", "echo"])), "x echo");
}

#[test]
fn echo_keeps_arguments_as_given() {
    assert_eq!(exe_echo(&words(&["echo", "a  "])), "a  ");
    assert_eq!(exe_echo(&words(&["echo", "a", "b\t \u{a0}"])), "a b\t \u{a0}");
    assert_eq!(exe_echo(&words(&["echo", " ", " "])), "   ");
}

#[test]
fn type_reports_each_name() {
    let dv = words(&["type", "echo", "ls", "nope"]);
    assert_eq!(type_targets(&dv), words(&["echo", "ls", "nope"]));
    let found = vec![None, Some("/bin/ls".to_string()), None];
    assert_eq!(
        exe_type(&dv, &found, &inbuilt_commands()),
        words(&["echo is a shell builtin", "ls is /bin/ls", "nope: not found"])
    );
}

#[test]
fn type_builtin_wins_over_path() {
    let dv = words(&["x", "type", "cd"]);
    let found = vec![Some("/usr/bin/cd".to_string())];
    assert_eq!(exe_type(&dv, &found, &inbuilt_commands()), words(&["cd is a shell builtin"]));
    assert_eq!(exe_type(&words(&["type"]), &vec![], &inbuilt_commands()), Vec::<String>::new());
}

#[test]
fn history_lists_from_count() {
    let h = words(&["a", "b", "c", "history 1"]);
    assert_eq!(
        show_history(&h, &words(&["history", "1"])),
        Ok(words(&["2 b", "3 c", "4 history 1"]))
    );
    assert_eq!(show_history(&h, &words(&["history", "+3"])), Ok(words(&["4 history 1"])));
    assert_eq!(show_history(&h, &words(&["history", "4"])), Ok(vec![]));
    assert_eq!(show_history(&h, &words(&["history", "0"])), Ok(vec![]));
}

#[test]
fn history_numbers_past_nine() {
    let h: Vec<String> = (0..12).map(|i| format!("cmd{}", i)).collect();
    assert_eq!(
        show_history(&h, &words(&["history", "9"])),
        Ok(words(&["10 cmd9", "11 cmd10", "12 cmd11"]))
    );
}

#[test]
fn bare_history_lists_everything() {
    assert_eq!(show_history(&words(&["history"]), &words(&["history"])), Ok(words(&["1 history"])));
    assert_eq!(
        show_history(&words(&["echo a", "history"]), &words(&["history"])),
        Ok(words(&["1 echo a", "2 history"]))
    );
}

#[test]
fn count_with_single_command_lists_nothing() {
    assert_eq!(show_history(&words(&["history 3"]), &words(&["history", "3"])), Ok(vec![]));
}

#[test]
fn history_errors() {
    let h = words(&["a", "history"]);
    assert_eq!(show_history(&h, &words(&["history", "x"])), Err(HistoryError::InvalidCount));
    assert_eq!(show_history(&h, &words(&["history", "-1"])), Err(HistoryError::InvalidCount));
    assert_eq!(show_history(&h, &words(&["history", "3"])), Err(HistoryError::CountTooLarge));
}

#[test]
fn parse_usize_agrees_with_std() {
    for s in ["0", "42", "+7", "", "+", "-1", "1a", " 1", "007", "18446744073709551615", "18446744073709551616", "99999999999999999999999"] {
        assert_eq!(parse_usize(&s.to_string()), s.parse::<usize>().ok(), "{:?}", s);
    }
}

#[test]
fn decimal_agrees_with_std() {
    for n in [0usize, 7, 10, 99, 1234, usize::MAX] {
        let mut s = String::from("n=");
        push_decimal(&mut s, n);
        assert_eq!(s, format!("n={}", n));
    }
}

#[test]
fn whitespace_agrees_with_std() {
    for u in 0u32..0x3100 {
        if let Some(c) = char::from_u32(u) {
            assert_eq!(is_whitespace(c), c.is_whitespace(), "{:?}", c);
        }
    }
    for c in ['\u{feff}', '\u{200b}', '\u{e000}', '\u{10ffff}'] {
        assert_eq!(is_whitespace(c), c.is_whitespace());
    }
}

#[test]
fn first_executable_on_path() {
    assert_eq!(first_executable(&vec![None, Some(0o644), Some(0o755), Some(0o700)]), Some(2));
    assert_eq!(first_executable(&vec![Some(0o001)]), Some(0));
    assert_eq!(first_executable(&vec![None, Some(0o666)]), None);
    assert_eq!(first_executable(&vec![]), None);
}

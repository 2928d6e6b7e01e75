use rust_shell::auto_complete::{auto_complete, auto_complete_exe, PathEntry};

fn entry(name: &str, mode: u32) -> PathEntry {
    PathEntry { name: name.to_string(), mode }
}

#[test]
fn readme_completes_builtins() {
    let mut no_match = true;
    assert_eq!(auto_complete("ec", &mut no_match), "echo ");
    assert!(!no_match);
    assert_eq!(auto_complete("pw", &mut no_match), "pwd ");
    assert!(!no_match);
}

#[test]
fn completes_every_builtin() {
    let mut no_match = true;
    assert_eq!(auto_complete("hist", &mut no_match), "history ");
    assert!(!no_match);
    assert_eq!(auto_complete("c", &mut no_match), "cd ");
    assert_eq!(auto_complete("l", &mut no_match), "ls ");
    assert_eq!(auto_complete("x", &mut no_match), "x");
    assert!(no_match);
}

#[test]
fn first_builtin_in_order_wins() {
    let mut no_match = true;
    assert_eq!(auto_complete("e", &mut no_match), "exit ");
    assert!(!no_match);
    assert_eq!(auto_complete("t", &mut no_match), "type ");
    assert_eq!(auto_complete("exit", &mut no_match), "exit ");
}

#[test]
fn last_word_is_completed_and_line_kept() {
    let mut no_match = true;
    assert_eq!(auto_complete("ls -la ty", &mut no_match), "ls -la type ");
    assert!(!no_match);
    assert_eq!(auto_complete("foo ech  ", &mut no_match), "foo ech  o ");
}

#[test]
fn no_builtin_match() {
    let mut no_match = false;
    assert_eq!(auto_complete("zz", &mut no_match), "zz");
    assert!(no_match);
    let mut no_match = false;
    assert_eq!(auto_complete("echo x", &mut no_match), "echo x");
    assert!(no_match);
}

#[test]
fn blank_line_is_not_completed() {
    let mut no_match = false;
    assert_eq!(auto_complete("", &mut no_match), "");
    assert!(no_match);
    let mut no_match = false;
    assert_eq!(auto_complete("  \t", &mut no_match), "  \t");
    assert!(no_match);
}

#[test]
fn readme_completes_executable_from_path() {
    let dirs = vec![vec![entry("gr", 0o644), entry("grep", 0o755)]];
    let mut no_match = true;
    assert_eq!(auto_complete_exe("gr", &mut no_match, &dirs), "grep ");
    assert!(!no_match);
}

#[test]
fn executable_bit_and_directory_order() {
    let dirs = vec![
        vec![entry("grepx", 0o644)],
        vec![entry("ls", 0o755), entry("grep2", 0o010)],
        vec![entry("grep", 0o755)],
    ];
    let mut no_match = true;
    assert_eq!(auto_complete_exe("gre", &mut no_match, &dirs), "grep2 ");
    assert!(!no_match);
}

#[test]
fn path_completion_replaces_whole_line() {
    let dirs = vec![vec![entry("find", 0o700)]];
    let mut no_match = true;
    assert_eq!(auto_complete_exe("cat fi", &mut no_match, &dirs), "find ");
    assert!(!no_match);
}

#[test]
fn no_executable_match() {
    let dirs = vec![vec![entry("grep", 0o644)], vec![]];
    let mut no_match = false;
    assert_eq!(auto_complete_exe("gr", &mut no_match, &dirs), "gr");
    assert!(no_match);
    let mut no_match = false;
    assert_eq!(auto_complete_exe(" ", &mut no_match, &dirs), " ");
    assert!(no_match);
    let mut no_match = false;
    assert_eq!(auto_complete_exe("x", &mut no_match, &Vec::new()), "x");
    assert!(no_match);
}

#[test]
fn law_builtin_completion_completes_word_example() {
    for data in ["foo ec", "t", "x  pw", "ty", "h", "a c"] {
        let mut no_match = true;
        let line = auto_complete(data, &mut no_match);
        assert!(!no_match);
        assert!(line.starts_with(data));
        let last = line.split_whitespace().last().unwrap();
        assert!(["exit", "echo", "type", "pwd", "cd", "history", "ls"].contains(&last));
        assert!(last.starts_with(data.split_whitespace().last().unwrap()));
    }
}

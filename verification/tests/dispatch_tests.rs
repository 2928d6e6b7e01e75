use rust_shell::commands::inbuilt_commands;
use rust_shell::dispatch::{exe_multi_pipe, plan_command, redirect_parts, single_pipe, Dispatch, PipePlan, RedirectKind};

fn words(v: &[&str]) -> Vec<String> {
    v.iter().map(|s| s.to_string()).collect()
}

#[test]
fn empty_exit_and_not_found() {
    assert_eq!(plan_command(&vec![]), Dispatch::Empty);
    assert_eq!(plan_command(&words(&["exit"])), Dispatch::Exit);
    assert_eq!(plan_command(&words(&["git"])), Dispatch::NotFound);
    assert_eq!(plan_command(&words(&["exit", "now"])), Dispatch::External);
}

#[test]
fn builtins_by_first_word() {
    assert_eq!(plan_command(&words(&["ls"])), Dispatch::Ls);
    assert_eq!(plan_command(&words(&["echo", "hi"])), Dispatch::Echo);
    assert_eq!(plan_command(&words(&["echo"])), Dispatch::Echo);
    assert_eq!(plan_command(&words(&["type", "ls"])), Dispatch::Type);
    assert_eq!(plan_command(&words(&["pwd"])), Dispatch::Pwd);
    assert_eq!(plan_command(&words(&["cd", "/tmp"])), Dispatch::Cd);
    assert_eq!(plan_command(&words(&["git", "status"])), Dispatch::External);
}

#[test]
fn history_with_at_most_one_argument() {
    assert_eq!(plan_command(&words(&["history"])), Dispatch::History);
    assert_eq!(plan_command(&words(&["history", "5"])), Dispatch::History);
    assert_eq!(plan_command(&words(&["history", "5", "6"])), Dispatch::External);
}

#[test]
fn redirections() {
    assert_eq!(plan_command(&words(&["echo", "Hello", ">", "output.txt"])), Dispatch::Redirect(RedirectKind::Stdout, 2));
    assert_eq!(plan_command(&words(&["echo", "Hello", "1>", "o"])), Dispatch::Redirect(RedirectKind::Stdout, 2));
    assert_eq!(plan_command(&words(&["ls", "nonexistent", "2>", "errors.txt"])), Dispatch::Redirect(RedirectKind::Stderr, 2));
    assert_eq!(plan_command(&words(&["echo", "World", ">>", "output.txt"])), Dispatch::Redirect(RedirectKind::StdoutAppend, 2));
    assert_eq!(plan_command(&words(&["echo", "World", "1>>", "o"])), Dispatch::Redirect(RedirectKind::StdoutAppend, 2));
    assert_eq!(plan_command(&words(&["ls", "x", "2>>", "e"])), Dispatch::Redirect(RedirectKind::StderrAppend, 2));
}

#[test]
fn redirection_precedence_and_last_operator() {
    assert_eq!(plan_command(&words(&["a", "2>", "e", ">", "o"])), Dispatch::Redirect(RedirectKind::Stdout, 3));
    assert_eq!(plan_command(&words(&["a", ">", "o", ">", "p"])), Dispatch::Redirect(RedirectKind::Stdout, 3));
    assert_eq!(plan_command(&words(&["a", "|", "b", ">>", "o"])), Dispatch::Redirect(RedirectKind::StdoutAppend, 3));
}

#[test]
fn pipes() {
    assert_eq!(plan_command(&words(&["cat", "file.txt", "|", "grep", "pattern"])), Dispatch::Pipe(2));
    assert_eq!(
        plan_command(&words(&["cat", "file.txt", "|", "grep", "error", "|", "wc", "-l"])),
        Dispatch::MultiPipe
    );
}

#[test]
fn law_dispatch_positions_example() {
    let dv = words(&["a", ">>", "b", "2>", "c", ">>", "d"]);
    match plan_command(&dv) {
        Dispatch::Redirect(RedirectKind::Stderr, p) => assert_eq!(dv[p], "2>"),
        other => panic!("{:?}", other),
    }
    let dv = words(&["x", "y", "|", "z"]);
    match plan_command(&dv) {
        Dispatch::Pipe(p) => assert_eq!(dv[p], "|"),
        other => panic!("{:?}", other),
    }
}

#[test]
fn redirect_parts_split() {
    let r = redirect_parts(&words(&["ls", "-l", "-a", ">", "out.txt", "extra"]), 3);
    assert_eq!(r.command, "ls");
    assert_eq!(r.args, words(&["-l", "-a"]));
    assert_eq!(r.file, "out.txt");
    let r = redirect_parts(&words(&["pwd", ">", "f"]), 1);
    assert_eq!(r.args, Vec::<String>::new());
}

#[test]
fn single_pipe_spawns_two_programs() {
    match single_pipe(&words(&["ls", "-l", "|", "grep", "x", "y"]), 2, &inbuilt_commands()) {
        PipePlan::Spawn { first, first_args, second, second_args } => {
            assert_eq!(first, "ls");
            assert_eq!(first_args, words(&["-l"]));
            assert_eq!(second, "grep");
            assert_eq!(second_args, words(&["x", "y"]));
        }
        _ => panic!("expected spawn"),
    }
}

#[test]
fn single_pipe_into_builtins() {
    match single_pipe(&words(&["ls", "|", "echo", "test"]), 1, &inbuilt_commands()) {
        PipePlan::Echo(line) => assert_eq!(line, "test"),
        _ => panic!("expected echo"),
    }
    assert!(matches!(single_pipe(&words(&["ls", "|", "type", "cd"]), 1, &inbuilt_commands()), PipePlan::Type));
    assert!(matches!(single_pipe(&words(&["ls", "|", "cd"]), 1, &inbuilt_commands()), PipePlan::Builtin));
}

#[test]
fn pipeline_stages() {
    assert_eq!(
        exe_multi_pipe(&words(&["cat", "f", "|", "grep", "error", "|", "wc", "-l"])),
        vec![words(&["cat", "f"]), words(&["grep", "error"]), words(&["wc", "-l"])]
    );
    assert_eq!(exe_multi_pipe(&words(&["a", "|", "b", "|"])), vec![words(&["a"]), words(&["b"])]);
    assert_eq!(exe_multi_pipe(&words(&["a", "|", "|", "b"])), vec![words(&["a"]), vec![], words(&["b"])]);
}

#[test]
fn law_pipeline_stages_example() {
    let dv = words(&["a", "|", "b", "c", "|", "d"]);
    let stages = exe_multi_pipe(&dv);
    assert_eq!(stages.len(), dv.iter().filter(|w| *w == "|").count() + 1);
    assert!(stages.iter().all(|s| s.iter().all(|w| w != "|")));
}

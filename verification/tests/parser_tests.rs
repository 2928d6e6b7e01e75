use rust_shell::parser::parse_input;

fn words(v: &[&str]) -> Vec<String> {
    v.iter().map(|s| s.to_string()).collect()
}

#[test]
fn readme_escaped_quotes_in_double_quotes() {
    assert_eq!(
        parse_input(r#"echo "hello \"world\"""#),
        words(&["echo", "hello \"world\""])
    );
}

#[test]
fn spaces_separate_words() {
    assert_eq!(parse_input("echo hello   world"), words(&["echo", "hello", "world"]));
    assert_eq!(parse_input("   ls  "), words(&["ls"]));
}

#[test]
fn empty_and_blank_lines_give_no_words() {
    assert_eq!(parse_input(""), Vec::<String>::new());
    assert_eq!(parse_input("    "), Vec::<String>::new());
    assert_eq!(parse_input("\n"), Vec::<String>::new());
}

#[test]
fn line_endings_at_the_end_are_dropped() {
    assert_eq!(parse_input("ls -la\r\n"), words(&["ls", "-la"]));
    assert_eq!(parse_input("ls -la\n\n\r"), words(&["ls", "-la"]));
    assert_eq!(parse_input("cat file\n"), parse_input("cat file"));
}

#[test]
fn single_quotes_keep_everything_literal() {
    assert_eq!(parse_input("echo 'a  b'"), words(&["echo", "a  b"]));
    assert_eq!(parse_input(r"echo 'a\b'"), words(&["echo", r"a\b"]));
    assert_eq!(parse_input(r#"echo 'say "hi"'"#), words(&["echo", "say \"hi\""]));
}

#[test]
fn double_quotes_group_words() {
    assert_eq!(parse_input("echo \"a  b\""), words(&["echo", "a  b"]));
    assert_eq!(parse_input("echo \"it's\""), words(&["echo", "it's"]));
}

#[test]
fn backslash_in_double_quotes() {
    // `\\` and `\"` stand for `\` and `"`; before anything else the backslash stays.
    assert_eq!(parse_input(r#""a\\b""#), words(&[r"a\b"]));
    assert_eq!(parse_input(r#""a\nb""#), words(&[r"a\nb"]));
    // A backslash at the very end inside double quotes is dropped.
    assert_eq!(parse_input(r#""x\"#), words(&["x"]));
}

#[test]
fn backslash_outside_quotes_escapes_next_char() {
    assert_eq!(parse_input(r"a\ b"), words(&["a b"]));
    assert_eq!(parse_input(r#"\"x\""#), words(&["\"x\""]));
    assert_eq!(parse_input(r"\'"), words(&["'"]));
    // An escaped backslash is one literal backslash.
    assert_eq!(parse_input(r"a\\b"), words(&[r"a\b"]));
    assert_eq!(parse_input(r"\\"), words(&[r"\"]));
    // A backslash at the end escapes nothing.
    assert_eq!(parse_input(r"x\"), words(&["x"]));
}

#[test]
fn quotes_join_adjacent_text() {
    assert_eq!(parse_input(r#"a"b c"d"#), words(&["ab cd"]));
    assert_eq!(parse_input("a'b'c"), words(&["abc"]));
}

#[test]
fn whitespace_separates_words() {
    assert_eq!(parse_input("echo\ta"), words(&["echo", "a"]));
    assert_eq!(parse_input("a \t\u{a0}b\u{3000}c"), words(&["a", "b", "c"]));
    assert_eq!(parse_input("'a\tb'"), words(&["a\tb"]));
    assert_eq!(parse_input("a\\\tb"), words(&["a\tb"]));
}

#[test]
fn law_backslash_escapes_example() {
    for c in ['\\', '"', '\'', ' ', '\t', 'x', '|'] {
        assert_eq!(parse_input(&format!("\\{}", c)), vec![c.to_string()]);
    }
}

#[test]
fn law_words_nonempty_example() {
    let w = parse_input("'' a \"\" b ''");
    assert_eq!(w, words(&["a", "b"]));
    assert!(w.iter().all(|x| !x.is_empty()));
}

#[test]
fn law_single_quotes_literal_example() {
    assert_eq!(parse_input(r#"' x \ "y" '"#), words(&[r#" x \ "y" "#]));
}

#[test]
fn law_double_quotes_group_example() {
    assert_eq!(parse_input("\" it's a  b \""), words(&[" it's a  b "]));
    assert_eq!(parse_input("\"'\t'\""), words(&["'\t'"]));
}

#[test]
fn law_plain_words_example() {
    for line in ["  git   commit -m  msg ", "a\tb \u{2003}c\n", "x\r\n", "", "one"] {
        let expected: Vec<String> = line.split_whitespace().map(|s| s.to_string()).collect();
        assert_eq!(parse_input(line), expected, "{:?}", line);
    }
}

#[test]
fn non_ascii_characters() {
    assert_eq!(parse_input("echo 'héllo wörld' 日本"), words(&["echo", "héllo wörld", "日本"]));
}

use omega::command::{parse_command, split_words, Command};

fn words(line: &str) -> Vec<String> {
    split_words(line.as_bytes())
        .into_iter()
        .map(|w| String::from_utf8(w).unwrap())
        .collect()
}

#[test]
fn splits_on_runs_of_whitespace() {
    assert_eq!(words("  touch \t notes  \r\n"), vec!["touch", "notes"]);
    assert_eq!(words("a b  c"), vec!["a", "b", "c"]);
    assert!(words("").is_empty());
    assert!(words(" \t ").is_empty());
    assert_eq!(words("single"), vec!["single"]);
}

#[test]
fn parses_bare_commands() {
    assert!(matches!(parse_command("help"), Command::Help));
    assert!(matches!(parse_command("  ls "), Command::List));
    assert!(matches!(parse_command("exit"), Command::Exit));
    assert!(matches!(parse_command("   "), Command::Empty));
}

#[test]
fn parses_commands_with_a_file_name() {
    match parse_command("touch notes") {
        Command::Touch(n) => assert_eq!(n, b"notes".to_vec()),
        _ => panic!("expected touch"),
    }
    match parse_command("wf  log") {
        Command::WriteFile(n) => assert_eq!(n, b"log".to_vec()),
        _ => panic!("expected wf"),
    }
    match parse_command("rm a") {
        Command::Remove(n) => assert_eq!(n, b"a".to_vec()),
        _ => panic!("expected rm"),
    }
    match parse_command("cat b") {
        Command::Cat(n) => assert_eq!(n, b"b".to_vec()),
        _ => panic!("expected cat"),
    }
}

#[test]
fn reports_wrong_number_of_arguments() {
    match parse_command("ls extra") {
        Command::WrongArity(w) => assert_eq!(w, b"ls".to_vec()),
        _ => panic!("expected wrong arity"),
    }
    match parse_command("touch") {
        Command::WrongArity(w) => assert_eq!(w, b"touch".to_vec()),
        _ => panic!("expected wrong arity"),
    }
    match parse_command("cat a b") {
        Command::WrongArity(w) => assert_eq!(w, b"cat".to_vec()),
        _ => panic!("expected wrong arity"),
    }
}

#[test]
fn reports_unknown_commands() {
    assert!(matches!(parse_command("format"), Command::Unknown));
    assert!(matches!(parse_command("exit now"), Command::Unknown));
    assert!(matches!(parse_command("Help"), Command::Unknown));
}

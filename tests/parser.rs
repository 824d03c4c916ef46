use juinit::parser::{parse, Command};

#[test]
fn test_simple_command() {
    let pipeline = parse("ls -la").unwrap();
    assert_eq!(pipeline.commands.len(), 1);
    assert_eq!(pipeline.commands[0].name, "ls");
    assert_eq!(pipeline.commands[0].args, vec!["-la"]);
}

#[test]
fn test_pipeline() {
    let pipeline = parse("ls -la | grep test").unwrap();
    assert_eq!(pipeline.commands.len(), 2);
    assert_eq!(pipeline.commands[0].name, "ls");
    assert_eq!(pipeline.commands[1].name, "grep");
}

#[test]
fn test_output_redirect() {
    let pipeline = parse("echo hello > file.txt").unwrap();
    assert_eq!(pipeline.commands.len(), 1);
    assert_eq!(pipeline.commands[0].stdout_redirect, Some(("file.txt".to_string(), false)));
}

#[test]
fn test_append_redirect() {
    let pipeline = parse("echo hello >> file.txt").unwrap();
    assert_eq!(pipeline.commands.len(), 1);
    assert_eq!(pipeline.commands[0].stdout_redirect, Some(("file.txt".to_string(), true)));
}

#[test]
fn test_input_redirect() {
    let pipeline = parse("cat < input.txt").unwrap();
    assert_eq!(pipeline.commands.len(), 1);
    assert_eq!(pipeline.commands[0].stdin_redirect, Some("input.txt".to_string()));
}

#[test]
fn blank_lines_hold_no_pipeline() {
    assert!(parse("").is_none());
    assert!(parse("   \t\n").is_none());
    assert!(parse(" | ").is_none());
}

#[test]
fn quotes_keep_spaces_and_are_dropped() {
    let pipeline = parse("echo \"hello world\" 'a b'").unwrap();
    assert_eq!(pipeline.commands[0].args, vec!["hello world", "a b"]);
}

#[test]
fn stderr_redirect_and_dangling_operator() {
    let pipeline = parse("make 2> err.log >").unwrap();
    let cmd = &pipeline.commands[0];
    assert_eq!(cmd.name, "make");
    assert_eq!(cmd.stderr_redirect, Some("err.log".to_string()));
    assert_eq!(cmd.stdout_redirect, None);
    assert!(cmd.args.is_empty());
}

#[test]
fn empty_pipe_segments_are_skipped() {
    let pipeline = parse("ls || wc -l").unwrap();
    assert_eq!(pipeline.commands.len(), 2);
    assert_eq!(pipeline.commands[1].name, "wc");
    assert_eq!(pipeline.commands[1].args, vec!["-l"]);
}

#[test]
fn command_new_has_no_redirections() {
    let cmd = Command::new("ls".to_string(), vec!["-l".to_string()]);
    assert_eq!(cmd.name, "ls");
    assert_eq!(cmd.args, vec!["-l"]);
    assert!(cmd.stdin_redirect.is_none());
    assert!(cmd.stdout_redirect.is_none());
    assert!(cmd.stderr_redirect.is_none());
}

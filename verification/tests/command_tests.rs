use kvstore::command::{parse_command, step, Command};

fn run(content: &[u8], line: &str) -> kvstore::command::StepResult {
    step(&content.to_vec(), &line.as_bytes().to_vec())
}

fn lines(result: &kvstore::command::StepResult) -> Vec<String> {
    result.output.iter().map(|l| String::from_utf8(l.clone()).unwrap()).collect()
}

#[test]
fn set_persists_and_reports() {
    let result = run(b"", "set greeting hello");
    assert_eq!(lines(&result), vec!["Set 'greeting'"]);
    assert_eq!(result.write, Some(b"greeting,hello\n".to_vec()));
    assert!(!result.quit);
}

#[test]
fn set_joins_value_words_with_single_spaces() {
    let result = run(b"", "set greeting hello   world");
    assert_eq!(result.write, Some(b"greeting,hello world\n".to_vec()));
}

#[test]
fn set_then_get_returns_multi_word_value() {
    let set = run(b"", "set greeting hello world");
    let content = set.write.unwrap();
    let get = run(&content, "get greeting");
    assert_eq!(lines(&get), vec!["hello world"]);
    assert!(get.write.is_none());
}

#[test]
fn set_twice_keeps_one_record() {
    let first = run(b"", "set k v");
    let second = run(&first.write.unwrap(), "set k v");
    assert_eq!(second.write, Some(b"k,v\n".to_vec()));
}

#[test]
fn set_overwrite_moves_key_to_end() {
    let content = b"k,v1\nother,x\n";
    let result = run(content, "set k v2");
    assert_eq!(result.write, Some(b"other,x\nk,v2\n".to_vec()));
}

#[test]
fn set_without_value_prints_usage() {
    let result = run(b"", "set k");
    assert_eq!(lines(&result), vec!["Usage: set <key> <value>"]);
    assert!(result.write.is_none());
}

#[test]
fn get_of_absent_key_reports_not_found() {
    let result = run(b"a,1\n", "get b");
    assert_eq!(lines(&result), vec!["Key not found"]);
}

#[test]
fn get_without_key_prints_usage() {
    let result = run(b"", "get");
    assert_eq!(lines(&result), vec!["Usage: get <key>"]);
}

#[test]
fn delete_of_absent_key_leaves_store_untouched() {
    let result = run(b"a,1\n", "delete b");
    assert_eq!(lines(&result), vec!["Key not found"]);
    assert!(result.write.is_none());
}

#[test]
fn delete_of_present_key_persists_without_it() {
    let result = run(b"a,1\nb,2\n", "delete a");
    assert_eq!(lines(&result), vec!["Deleted 'a'"]);
    assert_eq!(result.write, Some(b"b,2\n".to_vec()));
}

#[test]
fn delete_removes_preexisting_duplicates() {
    let result = run(b"k,1\na,x\nk,2\n", "delete k");
    assert_eq!(result.write, Some(b"a,x\n".to_vec()));
}

#[test]
fn delete_without_key_prints_usage() {
    let result = run(b"", "delete");
    assert_eq!(lines(&result), vec!["Usage: delete <key>"]);
}

#[test]
fn list_of_empty_store_prints_empty_marker() {
    let result = run(b"", "list");
    assert_eq!(lines(&result), vec!["(empty)"]);
    assert!(result.write.is_none());
}

#[test]
fn list_of_blank_file_prints_empty_marker() {
    let result = run(b"\n  \n", "list");
    assert_eq!(lines(&result), vec!["(empty)"]);
}

#[test]
fn list_prints_records_in_file_order() {
    let result = run(b"b,2\na,1\n", "list");
    assert_eq!(lines(&result), vec!["b,2", "a,1"]);
}

#[test]
fn comma_in_value_survives_set_and_get() {
    let set = run(b"", "set k a,b");
    assert_eq!(set.write, Some(b"k,a,b\n".to_vec()));
    let get = run(&set.write.unwrap(), "get k");
    assert_eq!(lines(&get), vec!["a,b"]);
}

#[test]
fn quit_and_exit_stop_the_loop() {
    let quit = run(b"", "quit");
    assert_eq!(lines(&quit), vec!["Exiting."]);
    assert!(quit.quit);
    let exit = run(b"", "exit");
    assert_eq!(lines(&exit), vec!["Exiting."]);
    assert!(exit.quit);
}

#[test]
fn unknown_command_prints_hint() {
    let result = run(b"", "frob x");
    assert_eq!(lines(&result), vec!["Unknown command: frob", "Available: set, get, delete, list, quit"]);
    assert!(result.write.is_none());
    assert!(!result.quit);
}

#[test]
fn blank_line_does_nothing() {
    let result = run(b"a,1\n", "   ");
    assert!(result.output.is_empty());
    assert!(result.write.is_none());
    assert!(!result.quit);
}

#[test]
fn parse_command_reads_words() {
    match parse_command(&b"  set  k  v ".to_vec()) {
        Command::Put { key, value } => {
            assert_eq!(key, b"k".to_vec());
            assert_eq!(value, b"v".to_vec());
        },
        _ => panic!("expected a set command"),
    }
    assert!(matches!(parse_command(&b"list".to_vec()), Command::List));
    assert!(matches!(parse_command(&b"quit".to_vec()), Command::Quit));
}

use database::btree::BTree;
use database::cli::{
    execute, parse_command, result_to_string, split_words, Command, Outcome,
};

fn words(line: &str) -> Vec<String> {
    let chars: Vec<char> = line.chars().collect();
    split_words(&chars).into_iter().map(|(a, b)| chars[a..b].iter().collect()).collect()
}

fn run(tree: &mut BTree, line: &str) -> Outcome {
    execute(tree, parse_command(line))
}

#[test]
fn split_words_splits_at_white_space() {
    assert_eq!(words("insert 1 one"), vec!["insert", "1", "one"]);
    assert_eq!(words("  a\t\tb \n"), vec!["a", "b"]);
    assert_eq!(words(""), Vec::<String>::new());
    assert_eq!(words(" \r\n\t"), Vec::<String>::new());
    assert_eq!(words("a\u{a0}b\u{3000}c\u{2003}d"), vec!["a", "b", "c", "d"]);
    assert_eq!(words("x"), vec!["x"]);
}

#[test]
fn split_words_agrees_with_the_standard_library() {
    for line in ["select", " select  7 ", "a\u{85}b", "a\u{200b}b", "\u{1680}x\u{2028}y\u{205f}", "é è"] {
        let want: Vec<String> = line.split_whitespace().map(|w| w.to_string()).collect();
        assert_eq!(words(line), want, "{:?}", line);
    }
}

#[test]
fn parse_command_reads_each_command() {
    assert!(matches!(parse_command("insert 5 five"), Command::Insert { key: 5, value } if value == "five"));
    assert!(matches!(parse_command("  insert   -5   v\n"), Command::Insert { key: -5, value } if value == "v"));
    assert!(matches!(parse_command("select"), Command::SelectAll));
    assert!(matches!(parse_command("select 12"), Command::Select { key: 12 }));
    assert!(matches!(parse_command("delete 12"), Command::Delete { key: 12 }));
    assert!(matches!(parse_command("analyze 3"), Command::Analyze { key: 3 }));
    assert!(matches!(parse_command("exit\n"), Command::Exit));
}

#[test]
fn parse_command_refuses_a_key_that_is_no_number() {
    assert!(matches!(parse_command("insert x v"), Command::InvalidKey));
    assert!(matches!(parse_command("select x"), Command::InvalidKey));
    assert!(matches!(parse_command("delete 1.5"), Command::InvalidKey));
    assert!(matches!(parse_command("analyze 99999999999"), Command::InvalidKey));
}

#[test]
fn parse_command_refuses_everything_else() {
    for line in ["", "   ", "insert", "insert 1", "insert 1 a b", "select 1 2", "delete", "exit now",
        "Select", "quit", "analyze", "5 insert v"]
    {
        assert!(matches!(parse_command(line), Command::Invalid), "{:?}", line);
    }
}

#[test]
fn insert_prints_and_asks_to_save() {
    let mut tree = BTree::new();
    let out = run(&mut tree, "insert 5 five");
    assert_eq!(out.lines, vec!["Inserted: 5 => five"]);
    assert!(out.save && !out.to_stderr && !out.exit && out.analyze.is_none());
    assert_eq!(tree.search(5), Some("five".to_string()));
}

#[test]
fn select_prints_the_record_or_that_there_is_none() {
    let mut tree = BTree::new();
    run(&mut tree, "insert -3 minus");
    let out = run(&mut tree, "select -3");
    assert_eq!(out.lines, vec!["Found: -3 => minus"]);
    assert!(!out.save && !out.to_stderr);
    let out = run(&mut tree, "select 4");
    assert_eq!(out.lines, vec!["Key 4 not found"]);
    assert!(!out.save && !out.to_stderr);
}

#[test]
fn select_all_lists_the_records_in_key_order() {
    let mut tree = BTree::new();
    assert_eq!(run(&mut tree, "select").lines, vec!["No records found"]);
    for line in ["insert 2 two", "insert 1 one", "insert 3 three", "insert 2 zwei"] {
        run(&mut tree, line);
    }
    let out = run(&mut tree, "select");
    assert_eq!(out.lines, vec!["All records:", "- 1 => one", "- 2 => zwei", "- 3 => three"]);
    assert!(!out.save);
}

#[test]
fn delete_prints_and_asks_to_save_only_what_changed() {
    let mut tree = BTree::new();
    run(&mut tree, "insert 1 one");
    let out = run(&mut tree, "delete 2");
    assert_eq!(out.lines, vec!["Key 2 not found"]);
    assert!(!out.save);
    let out = run(&mut tree, "delete 1");
    assert_eq!(out.lines, vec!["Deleted key 1"]);
    assert!(out.save);
    assert_eq!(tree.search(1), None);
}

#[test]
fn analyze_and_exit_print_nothing() {
    let mut tree = BTree::new();
    let out = run(&mut tree, "analyze 7");
    assert!(out.lines.is_empty());
    assert_eq!(out.analyze, Some(7));
    assert!(!out.exit && !out.save);
    let out = run(&mut tree, "exit");
    assert!(out.lines.is_empty());
    assert!(out.exit && out.analyze.is_none() && !out.save);
}

#[test]
fn faults_are_reported() {
    let mut tree = BTree::new();
    let out = run(&mut tree, "insert x y");
    assert_eq!(out.lines, vec!["Invalid key"]);
    assert!(out.to_stderr && !out.save);
    let out = run(&mut tree, "frobnicate");
    assert_eq!(out.lines, vec!["Invalid command"]);
    assert!(!out.to_stderr && !out.save);
    assert!(tree.get_all_records().is_empty());
}

#[test]
fn lookup_outcome_is_put_in_words() {
    assert_eq!(result_to_string(Some("abc".to_string())), "Found \"abc\"");
    assert_eq!(result_to_string(Some(String::new())), "Found \"\"");
    assert_eq!(result_to_string(None), "Not found");
}

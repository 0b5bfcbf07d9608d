use lib::stack::CharacterStack;

fn chars(s: &str) -> Vec<char> {
    s.chars().collect()
}

#[test]
fn check_string_reads_only_on_a_match() {
    let mut stack = CharacterStack::new(chars("abc"), None);
    assert!(!stack.check_string(&chars("b")));
    assert!(stack.check_string(&chars("ab")));
    assert_eq!(stack.pop(), Some('c'));
    assert!(stack.is_empty());
    assert_eq!(stack.pop(), None);
    assert!(!stack.check_string(&chars("c")));
    assert!(stack.check_string(&chars("")));
}

#[test]
fn positions_follow_lines_and_columns() {
    let mut stack = CharacterStack::new(chars("ab\ncd"), Some(chars("f")));
    stack.pop();
    stack.start_positions();
    stack.pop();
    stack.pop();
    stack.pop();
    let runs = stack.final_positions();
    assert_eq!(runs.len(), 2);
    assert_eq!((runs[0].line, runs[0].character, runs[0].length), (1, 2, 2));
    assert_eq!((runs[1].line, runs[1].character, runs[1].length), (2, 1, 1));
    assert_eq!(runs[0].file, Some(chars("f")));
}

#[test]
fn till_breaking_reads_one_word() {
    let mut stack = CharacterStack::new(chars("ab'cd"), None);
    stack.register_breaking('\'');
    assert_eq!(stack.till_breaking(), chars("ab"));
    assert_eq!(stack.till_breaking(), chars("'cd"));
    assert!(stack.is_empty());
    assert_eq!(stack.till_breaking(), chars(""));
}

#[test]
fn signatures_end_words() {
    let mut stack = CharacterStack::new(chars("xy//z"), None);
    stack.register_signature(chars("//"));
    assert_eq!(stack.till_breaking(), chars("xy"));
    assert_eq!(stack.till_breaking(), chars("//z"));
    assert!(stack.is_empty());
}

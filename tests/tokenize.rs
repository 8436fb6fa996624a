use scan::Scanner;

const SPACES: &str = "   one    more  word      \n";
const MIXED: &str = "one\tmore\r\nword \n\t one\n\n\tmore\r\n";

fn events(text: &str) -> Vec<Result<char, ()>> {
    text.chars().map(Ok).collect()
}

#[test]
fn tokenize_one_from_spaces() {
    let mut input = Scanner::new(events(SPACES));
    let first = input.next_str().unwrap().unwrap();
    assert!("one" == first);
}

#[test]
fn tokenize_all_from_spaces_check_none_end() {
    let mut input = Scanner::new(events(SPACES));
    let first = input.next_str().unwrap().unwrap();
    assert!(first == "one");
    let second = input.next_str().unwrap().unwrap();
    assert!(second == "more");
    let third = input.next_str().unwrap().unwrap();
    assert!(third == "word");
    let fourth = input.next_str();
    assert!(fourth.is_none());
    let fifth = input.next_str();
    assert!(fifth.is_none());
}

#[test]
fn tokenize_mixed_whitespace() {
    let mut input = Scanner::new(events(MIXED));
    let first = input.next_str().unwrap().unwrap();
    assert!(first == "one");
    let second = input.next_str().unwrap().unwrap();
    assert!(second == "more");
    let third = input.next_str().unwrap().unwrap();
    assert!(third == "word");
    let fourth = input.next_str().unwrap().unwrap();
    assert!(fourth == "one");
    let fifth = input.next_str().unwrap().unwrap();
    assert!(fifth == "more");
    let sixth = input.next_str();
    assert!(sixth.is_none());
}

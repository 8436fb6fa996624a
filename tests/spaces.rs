use scan::Scanner;

const SPACES: &str = "   one    more  word      \n";

fn events(text: &str) -> Vec<Result<char, ()>> {
    text.chars().map(Ok).collect()
}

#[test]
fn read_one() {
    let mut input = Scanner::new(events(SPACES));
    let first = input.next_str().unwrap().unwrap();
    assert!("one" == first);
}

#[test]
fn read_all_check_none_end() {
    let mut input = Scanner::new(events(SPACES));
    let first = input.next_str().unwrap().unwrap();
    assert!(first == "one");
    let second = input.next_str().unwrap().unwrap();
    assert!(second == "more");
    let third = input.next_str().unwrap().unwrap();
    assert!(third == "word");
    let fourth = input.next_str();
    assert!(fourth.is_none());
    let fifth = input.next_str();
    assert!(fifth.is_none());
}

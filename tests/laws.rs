use scan::{is_white, parse_outcome, Scan, ScanError, Scanner, Tokenizer};
use std::str::FromStr;

fn events(text: &str) -> Vec<Result<char, &'static str>> {
    text.chars().map(Ok).collect()
}

fn all_tokens(text: &str) -> Vec<String> {
    let mut input = Scanner::new(events(text));
    let mut out = Vec::new();
    while let Some(r) = input.next_str() {
        out.push(r.unwrap());
    }
    out
}

#[test]
fn only_delimiters_end_at_once() {
    let mut input = Scanner::new(events(" \t\n\r  \n"));
    assert!(input.next_str().is_none());
    let mut commas = Scanner::custom(events(",,,"), |c: &char| *c == ',');
    assert!(commas.next_str().is_none());
}

#[test]
fn empty_input_ends_at_once() {
    let mut input = Scanner::new(events(""));
    assert!(input.next_str().is_none());
    assert!(input.next(i32::from_str).is_none());
}

#[test]
fn delimiter_runs_collapse() {
    assert_eq!(all_tokens("a   b"), vec!["a", "b"]);
    assert_eq!(all_tokens("a b"), vec!["a", "b"]);
    assert_eq!(all_tokens("\n\n a \t\r\n b \n"), vec!["a", "b"]);
}

#[test]
fn trailing_token_is_flushed() {
    let mut input = Scanner::new(events("abc"));
    assert_eq!(input.next_str().unwrap().unwrap(), "abc");
    assert!(input.next_str().is_none());
}

#[test]
fn exhaustion_is_final() {
    let mut input = Scanner::new(events("x "));
    assert_eq!(input.next_str().unwrap().unwrap(), "x");
    assert!(input.next_str().is_none());
    assert!(input.next_str().is_none());
    assert!(input.next_str().is_none());
}

#[test]
fn signed_and_unsigned_parsing() {
    let mut signed = Scanner::new(events("64 -34 5"));
    assert_eq!(signed.next(i64::from_str).unwrap().unwrap(), 64);
    assert_eq!(signed.next(i64::from_str).unwrap().unwrap(), -34);
    assert_eq!(signed.next(i64::from_str).unwrap().unwrap(), 5);
    assert!(signed.next(i64::from_str).is_none());

    let mut unsigned = Scanner::new(events("64 -34 5"));
    assert_eq!(unsigned.next(u64::from_str).unwrap().unwrap(), 64);
    assert!(matches!(unsigned.next(u64::from_str), Some(Err(ScanError::Parse(_)))));
    assert_eq!(unsigned.next(u64::from_str).unwrap().unwrap(), 5);
    assert!(unsigned.next(u64::from_str).is_none());
}

#[test]
fn zero_and_newline_as_delimiters() {
    let mut input = Scanner::custom(events("30\naa0\n"), |c: &char| *c == '0' || *c == '\n');
    assert_eq!(input.next_str().unwrap().unwrap(), "3");
    assert_eq!(input.next_str().unwrap().unwrap(), "aa");
    assert!(input.next_str().is_none());
}

#[test]
fn float_literals() {
    let mut input = Scanner::new(events("1e21 12.3"));
    assert_eq!(input.next(f64::from_str).unwrap().unwrap(), 1e21);
    assert_eq!(input.next(f64::from_str).unwrap().unwrap(), 12.3);
    assert!(input.next(f64::from_str).is_none());
}

#[test]
fn io_error_drops_partial_token() {
    let mut input = Scanner::new(vec![Ok('a'), Ok('b'), Err("broken"), Ok('c'), Ok(' ')]);
    assert!(matches!(input.next_str(), Some(Err("broken"))));
    assert_eq!(input.next_str().unwrap().unwrap(), "c");
    assert!(input.next_str().is_none());
}

#[test]
fn io_error_before_any_token() {
    let mut input = Scanner::new(vec![Ok(' '), Ok('\n'), Err("broken")]);
    assert!(matches!(input.next(i32::from_str), Some(Err(ScanError::Io("broken")))));
    assert!(input.next(i32::from_str).is_none());
}

#[test]
fn delimiter_after_token_is_consumed() {
    let mut input = Scanner::custom(events("a,,b"), |c: &char| *c == ',');
    assert_eq!(input.next_str().unwrap().unwrap(), "a");
    assert_eq!(input.next_str().unwrap().unwrap(), "b");
    assert!(input.next_str().is_none());
}

#[test]
fn parse_error_keeps_stream_in_step() {
    let mut input = Scanner::new(events("7 x 9"));
    assert_eq!(input.next(u8::from_str).unwrap().unwrap(), 7);
    assert!(matches!(input.next(u8::from_str), Some(Err(ScanError::Parse(_)))));
    assert_eq!(input.next(u8::from_str).unwrap().unwrap(), 9);
}

#[test]
fn whitespace_classes() {
    assert!(is_white(&' '));
    assert!(is_white(&'\t'));
    assert!(is_white(&'\n'));
    assert!(is_white(&'\r'));
    assert!(!is_white(&'x'));
    assert!(!is_white(&'0'));
}

fn drain<S: Scan>(source: &mut S) -> Vec<String> {
    let mut out = Vec::new();
    while let Some(Ok(tok)) = Scan::next_str(source) {
        out.push(tok);
    }
    out
}

#[test]
fn tokens_through_the_scan_trait() {
    let mut input = Scanner::custom(events("x;yy;;z"), |c: &char| *c == ';');
    assert_eq!(drain(&mut input), vec!["x", "yy", "z"]);
}

fn parse_all<S: Scan>(source: &mut S) -> Vec<i32> {
    let mut out = Vec::new();
    while let Some(Ok(v)) = Scan::next(source, i32::from_str) {
        out.push(v);
    }
    out
}

#[test]
fn values_through_the_scan_trait() {
    let mut input = Scanner::new(events(" 12\n-7 x 5"));
    assert_eq!(parse_all(&mut input), vec![12, -7]);
    assert_eq!(input.next(i32::from_str).unwrap().unwrap(), 5);
}

#[test]
fn any_delimiter_run_separates_alike() {
    let mut one = Scanner::custom(events("a;b"), |c: &char| *c == ';' || *c == ' ');
    let mut many = Scanner::custom(events("a ; ;b"), |c: &char| *c == ';' || *c == ' ');
    assert_eq!(drain(&mut one), drain(&mut many));
}

#[test]
fn tokenizer_decides_one_event_at_a_time() {
    let pred = |c: &char| *c == ' ';
    let mut step: Tokenizer<&'static str, _> = Tokenizer::begin(&pred);
    assert!(step.feed(Some(Ok(' '))).is_none());
    assert!(step.feed(Some(Ok('a'))).is_none());
    assert!(step.feed(Some(Ok('b'))).is_none());
    let done = step.feed(Some(Ok(' '))).unwrap();
    assert_eq!(done.unwrap().unwrap(), "ab");

    let mut step: Tokenizer<&'static str, _> = Tokenizer::begin(&pred);
    assert!(step.feed(Some(Ok('z'))).is_none());
    assert_eq!(step.feed(None).unwrap().unwrap().unwrap(), "z");

    let mut step: Tokenizer<&'static str, _> = Tokenizer::begin(&pred);
    assert!(step.feed(Some(Ok(' '))).is_none());
    assert!(step.feed(None).unwrap().is_none());
}

#[test]
fn tokenizer_reports_error_mid_token() {
    let pred = |c: &char| *c == ' ';
    let mut step: Tokenizer<&'static str, _> = Tokenizer::begin(&pred);
    assert!(step.feed(Some(Ok('q'))).is_none());
    assert!(matches!(step.feed(Some(Err("gone"))), Some(Some(Err("gone")))));
}

#[test]
fn parse_outcome_maps_each_case() {
    assert_eq!(
        parse_outcome::<i32, _, &'static str, _>(Some(Ok("41".to_string())), i32::from_str)
            .unwrap()
            .unwrap(),
        41
    );
    assert!(matches!(
        parse_outcome::<i32, _, &'static str, _>(Some(Ok("4x".to_string())), i32::from_str),
        Some(Err(ScanError::Parse(_)))
    ));
    assert!(matches!(
        parse_outcome::<i32, _, &'static str, _>(Some(Err("bad")), i32::from_str),
        Some(Err(ScanError::Io("bad")))
    ));
    assert!(parse_outcome::<i32, _, &'static str, _>(None, i32::from_str).is_none());
}

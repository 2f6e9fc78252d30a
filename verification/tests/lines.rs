//! Lines, fields, separators.

use nano_nes_model_builder::lines::{
    content, fields, questions, split_arrow, split_at_char, split_lines, strip_prefix, trim,
};

fn chars(s: &str) -> Vec<char> {
    s.chars().collect()
}

fn text(c: &[char]) -> String {
    c.iter().collect()
}

#[test]
fn lines_end_at_line_feeds() {
    let got: Vec<String> = split_lines(&chars("a\n\nb c\n")).iter().map(|l| text(l)).collect();
    assert_eq!(got, vec!["a", "", "b c"]);
    let got: Vec<String> = split_lines(&chars("x")).iter().map(|l| text(l)).collect();
    assert_eq!(got, vec!["x"]);
    // a carriage return belongs to the line feed behind it, and to no other line
    let got: Vec<String> = split_lines(&chars("a\r\n\r\nb\r\r\nc\rd\r")).iter().map(|l| text(l)).collect();
    assert_eq!(got, vec!["a", "", "b\r", "c\rd\r"]);
    assert_eq!(got, "a\r\n\r\nb\r\r\nc\rd\r".lines().collect::<Vec<&str>>());
    assert!(split_lines(&[]).is_empty());
}

#[test]
fn comments_and_blanks_are_cut() {
    assert_eq!(text(content(&chars("  WHY * -> A B  # note # more"))), "WHY * -> A B");
    assert_eq!(text(content(&chars("# only a note"))), "");
    assert_eq!(text(content(&chars("\tA \r"))), "A");
    assert_eq!(text(trim(&chars("  # kept  "))), "# kept");
}

#[test]
fn fields_are_runs_without_blanks() {
    let got: Vec<String> = fields(&chars("  WHY\t*  HUM ")).iter().map(|f| text(f)).collect();
    assert_eq!(got, vec!["WHY", "*", "HUM"]);
    assert!(fields(&chars("   ")).is_empty());
}

#[test]
fn separators_split_once() {
    let s = chars("A -> B -> C");
    let (l, r) = split_arrow(&s).unwrap();
    assert_eq!((text(l), text(r)), ("A ".to_string(), " B -> C".to_string()));
    assert!(split_arrow(&chars("A - > B")).is_none());
    assert!(split_arrow(&chars("-")).is_none());
    let s = chars("->");
    let (l, r) = split_arrow(&s).unwrap();
    assert!(l.is_empty() && r.is_empty());
    let s = chars("A: B: C");
    let (l, r) = split_at_char(&s, ':').unwrap();
    assert_eq!((text(l), text(r)), ("A".to_string(), " B: C".to_string()));
    assert!(split_at_char(&chars("A"), ':').is_none());
    assert_eq!(text(strip_prefix(&chars("TOPIC A"), &chars("TOPIC ")).unwrap()), "A");
    assert!(strip_prefix(&chars("TOPIC"), &chars("TOPIC ")).is_none());
    assert!(strip_prefix(&chars("topic A"), &chars("TOPIC ")).is_none());
}

#[test]
fn question_files() {
    assert_eq!(questions("  why? \n\n\t\nwho?\r\n# no comment"), vec!["why?", "who?", "# no comment"]);
    assert!(questions("").is_empty());
}

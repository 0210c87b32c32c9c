use bf_tools::ins::{BfCode, BfIns};
use bf_tools::ins_parser::{parse_chars, parse_str, BfParseError};

fn chars_of(s: &str) -> Vec<char> {
    s.chars().collect()
}

fn format_of(c: &BfCode) -> String {
    c.to_chars().into_iter().collect()
}

#[test]
fn parse_simple() {
    let result = parse_chars(&chars_of("+>[-]<."));
    let expected = BfCode(vec![
        BfIns::Add(1),
        BfIns::PtrAdd(1),
        BfIns::Loop(BfCode(vec![BfIns::Sub(1)])),
        BfIns::PtrSub(1),
        BfIns::Putchar,
    ]);
    assert_eq!(result, Ok(expected));
}

#[test]
fn parse_str_nested() {
    let result = parse_str(",[[-]]<");
    let expected = BfCode(vec![
        BfIns::Getchar,
        BfIns::Loop(BfCode(vec![BfIns::Loop(BfCode(vec![BfIns::Sub(1)]))])),
        BfIns::PtrSub(1),
    ]);
    assert_eq!(result, Ok(expected));
}

#[test]
fn parse_ignores_comments() {
    let result = parse_str("+ hello - world .");
    let expected = BfCode(vec![BfIns::Add(1), BfIns::Sub(1), BfIns::Putchar]);
    assert_eq!(result, Ok(expected));
}

#[test]
fn parse_unmatched_closing_bracket() {
    let result = parse_str("[+]]");
    assert_eq!(result, Err(BfParseError::UnmatchedClosingBracket { char_pos: 3 }));
}

#[test]
fn parse_unclosed_bracket() {
    let result = parse_str("[[+]");
    assert_eq!(result, Err(BfParseError::UnclosedBracket));
}

#[test]
fn parse_format_round_trip() {
    for s in ["", "+-><.,", "[[]]", "+[>-<].", ",[>,]++[--[+]]", "[+]><"] {
        let code = parse_str(s).unwrap();
        assert_eq!(format_of(&code), s);
    }
}

#[test]
fn ins_len_counts_loops() {
    // +++[-]>,<+ has 9 instructions and 10 characters
    let code = parse_str("+++[-]>,<+").unwrap();
    assert_eq!(code.ins_len(), 9);
    assert_eq!(code.chars_len(), 10);
}

#[test]
fn chars_len_grouped_runs() {
    let code = BfCode(vec![BfIns::Add(4), BfIns::PtrAdd(6), BfIns::Loop(BfCode(vec![]))]);
    assert_eq!(code.chars_len(), 12);
    assert_eq!(code.ins_len(), 3);
    assert_eq!(format_of(&code), "++++>>>>>>[]");
}

use cmd::cmd_record::CmdRecord;
use cmd::csv_codec::{encode_record, encode_records, int_to_string, parse_content, parse_line, parse_usize};

fn rec(id: usize, command: &str, used_times: usize) -> CmdRecord {
    CmdRecord { id, command: command.to_string(), used_times }
}

#[test]
fn numbers_round_trip() {
    assert_eq!(int_to_string(0), "0");
    assert_eq!(int_to_string(12345), "12345");
    assert_eq!(parse_usize("12345"), Some(12345));
    assert_eq!(parse_usize("0"), Some(0));
    assert_eq!(parse_usize(""), None);
    assert_eq!(parse_usize("12x"), None);
    assert_eq!(parse_usize("99999999999999999999999999"), None);
}

#[test]
fn plain_line_parses() {
    let r = parse_line("1,git log,0").unwrap();
    assert_eq!(r.id, 1);
    assert_eq!(r.command, "git log");
    assert_eq!(r.used_times, 0);
}

#[test]
fn quoted_line_parses_with_commas_and_quotes() {
    let r = parse_line("7,\"git commit -m \"\"a, b\"\"\",3").unwrap();
    assert_eq!(r.id, 7);
    assert_eq!(r.command, "git commit -m \"a, b\"");
    assert_eq!(r.used_times, 3);
}

#[test]
fn malformed_lines_are_rejected() {
    assert!(parse_line("no commas here").is_none());
    assert!(parse_line("x,git log,1").is_none());
    assert!(parse_line("1,git log,").is_none());
    assert!(parse_line("1,git log,x").is_none());
}

#[test]
fn record_round_trips_through_its_line() {
    let original = rec(5, "git commit -m \"x, y\"", 9);
    let line = encode_record(&original);
    let back = parse_line(&line).unwrap();
    assert_eq!(back.id, 5);
    assert_eq!(back.command, "git commit -m \"x, y\"");
    assert_eq!(back.used_times, 9);
}

#[test]
fn content_round_trips_and_skips_bad_lines() {
    let records = vec![rec(1, "git log", 2), rec(2, "echo a,b", 0)];
    let content = encode_records(&records);
    let back = parse_content(&content);
    assert_eq!(back.len(), 2);
    assert_eq!(back[0].command, "git log");
    assert_eq!(back[1].command, "echo a,b");

    let mixed = "1,git log,0\nnot a record\n2,git branch,4";
    let parsed = parse_content(mixed);
    assert_eq!(parsed.len(), 2);
    assert_eq!(parsed[1].command, "git branch");
    assert_eq!(parsed[1].used_times, 4);
}

#[test]
fn crlf_lines_parse() {
    let parsed = parse_content("1,git log,0\r\n2,git branch,1\r\n");
    assert_eq!(parsed.len(), 2);
    assert_eq!(parsed[0].command, "git log");
    assert_eq!(parsed[1].command, "git branch");
}

use chatan::message::overrustle::{parse_line, parse_string};
use chatan::message::tokenizer::normal;
use chatan::message::Messages;
use chrono::{DateTime, Utc};

/// 2019-07-01T00:00:00Z in seconds since 1970-01-01T00:00:00Z.
const JULY_1: i64 = 1_561_939_200;

fn lines(m: &Messages) -> Vec<(i64, String, String)> {
    m.vec()
        .iter()
        .map(|x| (x.timestamp(), x.user(m).to_string(), x.message(m).to_string()))
        .collect()
}

#[test]
fn message_test_parse_line() {
    let line = "[2019-07-01 00:00:42 UTC] someuser: FeelsGoodMan WE FeelsGoodMan ARE FeelsGoodMan READY FeelsGoodMan";
    match parse_line(line) {
        Some((ts, usr, msg)) => {
            assert_eq!(usr, "someuser");
            assert_eq!(msg, "FeelsGoodMan WE FeelsGoodMan ARE FeelsGoodMan READY FeelsGoodMan");
            assert_eq!(
                ts,
                DateTime::<Utc>::from(humantime::parse_rfc3339_weak("2019-07-01 00:00:42").unwrap())
                    .timestamp()
            );
        }
        None => assert!(false, "Message should parse correctly"),
    }
}

#[test]
fn parse_line_gives_seconds_since_epoch() {
    let (ts, _, _) = parse_line("[2019-07-01 00:00:42 UTC] someuser: hi").unwrap();
    assert_eq!(ts, JULY_1 + 42);
    let (first, _, _) = parse_line("[1970-01-01 00:00:00 UTC] someuser: hi").unwrap();
    assert_eq!(first, 0);
}

#[test]
fn parse_line_rejects_short_lines() {
    assert!(parse_line("").is_none());
    assert!(parse_line("[2019-07-01 00:00:42 UTC] ").is_none());
    // 27 bytes, but the colon would have to stand before the last byte
    assert!(parse_line("[2019-07-01 00:00:42 UTC] a").is_none());
    assert!(parse_line("[2019-07-01 00:00:42 UTC] a:").is_none());
}

#[test]
fn parse_line_shortest_message() {
    assert_eq!(parse_line("[2019-07-01 00:00:42 UTC] a: "), Some((JULY_1 + 42, "a", "")));
    assert_eq!(parse_line("[2019-07-01 00:00:42 UTC] : x"), Some((JULY_1 + 42, "", "x")));
}

#[test]
fn parse_line_needs_a_colon() {
    assert!(parse_line("[2019-07-01 00:00:42 UTC] someuser says hello to all").is_none());
}

#[test]
fn parse_line_counts_colons_after_the_bracket_only() {
    // a colon inside the bracket does not end the name
    assert_eq!(
        parse_line("[2019-07-01 00:00:42 U:C] bob: hi"),
        Some((JULY_1 + 42, "bob", "hi"))
    );
    // a colon directly after the bracket would end the name before it starts
    assert!(parse_line("[2019-07-01 00:00:42 UTC]:bob: hi there").is_none());
}

#[test]
fn parse_line_ends_the_name_at_the_first_colon() {
    assert_eq!(
        parse_line("[2019-07-01 00:00:42 UTC] bob: a: b"),
        Some((JULY_1 + 42, "bob", "a: b"))
    );
}

#[test]
fn parse_line_rejects_bad_instants() {
    assert!(parse_line("[2019-13-01 00:00:42 UTC] someuser: hi").is_none());
    assert!(parse_line("[2019-07-01 25:00:42 UTC] someuser: hi").is_none());
    assert!(parse_line("[not a timestamp at all] someuser: hi").is_none());
    assert!(parse_line("[1969-12-31 23:59:59 UTC] someuser: hi").is_none());
}

#[test]
fn parse_line_keeps_text_that_is_not_ascii() {
    assert_eq!(
        parse_line("[2019-07-01 00:00:42 UTC] zoë: grüß dich ☺"),
        Some((JULY_1 + 42, "zoë", "grüß dich ☺"))
    );
}

#[test]
fn parse_line_never_splits_a_character() {
    // the byte after the colon starts a character of two bytes
    assert!(parse_line("[2019-07-01 00:00:42 UTC] bob:émile").is_none());
    // a character of two bytes lies across byte 26
    assert!(parse_line("[2019-07-01 00:00:42 UTC]ébob: hi there").is_none());
    // the same character one byte earlier ends before byte 26
    assert_eq!(
        parse_line("[2019-07-01 00:00:42 UTCé bob: hi there"),
        Some((JULY_1 + 42, " bob", "hi there"))
    );
}

#[test]
fn malformed_line_is_left_out() {
    let m = parse_string(
        "[2019-07-01 00:00:42 UTC] alice: hello\n[2019-07-01 00:00:43 UTC] bob says nothing\n"
            .to_string(),
    );
    assert_eq!(lines(&m), vec![(JULY_1 + 42, "alice".to_string(), "hello".to_string())]);
}

#[test]
fn parse_string_keeps_the_order_of_the_lines() {
    let m = parse_string(
        "[2019-07-01 00:00:45 UTC] a: late\n\nbroken\n[2019-07-01 00:00:42 UTC] b: early"
            .to_string(),
    );
    assert_eq!(
        lines(&m),
        vec![
            (JULY_1 + 45, "a".to_string(), "late".to_string()),
            (JULY_1 + 42, "b".to_string(), "early".to_string()),
        ]
    );
}

#[test]
fn from_string_sorts_on_request() {
    let text = "[2019-07-01 00:00:45 UTC] a: late\n[2019-07-01 00:00:42 UTC] b: early\n";
    let sorted = Messages::from_string(text.to_string(), true);
    assert_eq!(
        lines(&sorted),
        vec![
            (JULY_1 + 42, "b".to_string(), "early".to_string()),
            (JULY_1 + 45, "a".to_string(), "late".to_string()),
        ]
    );
    let unsorted = Messages::from_string(text.to_string(), false);
    assert_eq!(unsorted.vec()[0].timestamp(), JULY_1 + 45);
}

#[test]
fn empty_partition() {
    let m = Messages::empty();
    assert!(m.vec().is_empty());
    assert!(m.temporal_slice(0, i64::MAX).is_empty());
    assert!(parse_string(String::new()).vec().is_empty());
}

fn five() -> Messages {
    parse_string(
        "[2019-07-01 00:00:10 UTC] a: one\n\
         [2019-07-01 00:00:20 UTC] a: two\n\
         [2019-07-01 00:00:20 UTC] a: three\n\
         [2019-07-01 00:00:30 UTC] a: four\n\
         [2019-07-01 00:00:40 UTC] a: five\n"
            .to_string(),
    )
}

fn words(m: &Messages, t0: i64, t1: i64) -> Vec<String> {
    m.temporal_slice(JULY_1 + t0, JULY_1 + t1).iter().map(|x| x.message(m).to_string()).collect()
}

#[test]
fn temporal_slice_is_half_open() {
    let m = five();
    assert_eq!(words(&m, 10, 30), vec!["one", "two", "three"]);
    assert_eq!(words(&m, 30, 50), vec!["four", "five"]);
    assert_eq!(words(&m, 20, 21), vec!["two", "three"]);
    assert_eq!(words(&m, 11, 20), Vec::<String>::new());
}

#[test]
fn temporal_slice_at_the_ends() {
    let m = five();
    assert_eq!(words(&m, 0, 100), vec!["one", "two", "three", "four", "five"]);
    // the last message is at the end of the window, so it is not in it
    assert_eq!(words(&m, 0, 40), vec!["one", "two", "three", "four"]);
    assert_eq!(words(&m, 40, 41), vec!["five"]);
    assert_eq!(words(&m, 41, 100), Vec::<String>::new());
    assert_eq!(words(&m, 0, 10), Vec::<String>::new());
}

#[test]
fn temporal_slice_of_a_window_that_ends_before_it_starts() {
    let m = five();
    assert_eq!(words(&m, 30, 10), Vec::<String>::new());
}

#[test]
fn normal_splits_at_ascii_white_space() {
    assert_eq!(normal("hello world"), vec!["hello", "world"]);
    assert_eq!(normal("  a\tb\nc\r\nd\x0ce  "), vec!["a", "b", "c", "d", "e"]);
    assert_eq!(normal(""), Vec::<&str>::new());
    assert_eq!(normal(" \t "), Vec::<&str>::new());
    assert_eq!(normal("one"), vec!["one"]);
}

#[test]
fn normal_keeps_other_white_space() {
    // a no-break space and a vertical tab are no ASCII white space
    assert_eq!(normal("a\u{a0}b c\x0bd"), vec!["a\u{a0}b", "c\x0bd"]);
    assert_eq!(normal("grüß dich"), vec!["grüß", "dich"]);
}

use chatan::calendar::{date_of, date_of_wide, day_after, midnight, MAX_TIMESTAMP, SECS_PER_DAY};
use chatan::util::{capitalizable, capitalized, progress_bar};

#[test]
fn capitalized_raises_the_first_letter() {
    assert_eq!(capitalized(&"forsen".to_string()), "Forsen");
    assert_eq!(capitalized(&"Forsen".to_string()), "Forsen");
    assert_eq!(capitalized(&"x".to_string()), "X");
    assert_eq!(capitalized(&"july%202019".to_string()), "July%202019");
    assert_eq!(capitalized(&"1abc".to_string()), "1abc");
    assert_eq!(capitalized(&"zoë".to_string()), "Zoë");
}

#[test]
fn what_can_be_capitalized() {
    assert!(capitalizable("forsen"));
    assert!(capitalizable("1"));
    assert!(!capitalizable(""));
    assert!(!capitalizable("éric"));
}

#[test]
fn progress_is_a_value() {
    assert!(progress_bar(true).enabled);
    assert!(!progress_bar(false).enabled);
    assert_eq!(progress_bar(true).bar_length(31), Some(31));
    assert_eq!(progress_bar(false).bar_length(31), None);
}

#[test]
fn day_of_an_instant() {
    assert_eq!(date_of(0), 0);
    assert_eq!(date_of(86_399), 0);
    assert_eq!(date_of(86_400), 1);
    assert_eq!(date_of(-1), -1);
    assert_eq!(date_of(-86_400), -1);
    assert_eq!(date_of(-86_401), -2);
    assert_eq!(date_of(1_704_067_200), 19_723);
    assert_eq!(date_of(i64::MAX), 106_751_991_167_300);
    assert_eq!(date_of(i64::MIN), -106_751_991_167_301);
    assert_eq!(date_of_wide(-1), -1);
    assert_eq!(date_of_wide(i64::MAX as i128 + 86_400), 106_751_991_167_301);
}

#[test]
fn days_and_midnights() {
    assert_eq!(SECS_PER_DAY, 86_400);
    assert_eq!(day_after(19_723), 19_724);
    assert_eq!(day_after(-1), 0);
    assert_eq!(midnight(19_723), Some(1_704_067_200));
    assert_eq!(midnight(-1), Some(-86_400));
    assert_eq!(midnight(i64::MAX), None);
    assert_eq!(midnight(i64::MIN), None);
}

#[test]
fn last_instant_is_the_end_of_year_9999() {
    let last = chrono::NaiveDate::from_ymd_opt(9999, 12, 31)
        .unwrap()
        .and_hms_opt(23, 59, 59)
        .unwrap()
        .and_utc()
        .timestamp();
    assert_eq!(last as u64, MAX_TIMESTAMP);
    let line = "[9999-12-31 23:59:59 UTC] someuser: bye";
    assert_eq!(chatan::message::overrustle::parse_line(line).map(|m| m.0), Some(last));
}

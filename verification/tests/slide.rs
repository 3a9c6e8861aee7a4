use chatan::chatlog::{index_end, index_start, DailyChatLog};
use chatan::message::overrustle::parse_string;
use chatan::message::Messages;
use chatan::stats::WindowStats;
use chatan::util::most_common;
use chatan::window::{check_slide, SlideError, Window, WindowSlider};

const DAY: i64 = 86_400;
/// 2024-01-01T00:00:00Z in seconds, and as a day number.
const Y2024: i64 = 1_704_067_200;
const D2024: i64 = 19_723;

struct MemoryLog {
    first: i64,
    days: Vec<String>,
    asked: Vec<i64>,
}

impl MemoryLog {
    fn new(first: i64, days: &[&str]) -> MemoryLog {
        MemoryLog { first, days: days.iter().map(|s| s.to_string()).collect(), asked: Vec::new() }
    }

    /// `n` days from 2024-01-01 on, each with one message at noon and one at 23:59:59.
    fn daily(n: usize) -> MemoryLog {
        let mut days = Vec::new();
        for i in 0..n {
            let d = chrono::NaiveDate::from_epoch_days((D2024 + i as i64) as i32).unwrap();
            let date = d.format("%Y-%m-%d").to_string();
            days.push(format!(
                "[{} 12:00:00 UTC] user{}: noon of day {}\n[{} 23:59:59 UTC] user{}: end of day {}\n",
                date, i, i, date, i, i
            ));
        }
        MemoryLog { first: D2024, days, asked: Vec::new() }
    }
}

impl DailyChatLog for MemoryLog {
    fn index_range(&self) -> Option<(i64, i64)> {
        self.range()
    }

    fn range(&self) -> Option<(i64, i64)> {
        if self.days.is_empty() {
            None
        } else {
            Some((self.first, self.first + self.days.len() as i64 - 1))
        }
    }

    fn load(&mut self, date: i64) -> Option<Messages> {
        self.asked.push(date);
        if date < self.first || date >= self.first + self.days.len() as i64 {
            return None;
        }
        Some(parse_string(self.days[(date - self.first) as usize].clone()))
    }
}

fn texts(w: &Window) -> Vec<(i64, String, String)> {
    let mut out = Vec::new();
    for part in w.parts() {
        for i in 0..part.len() {
            out.push((part.timestamp(i), part.user(i).to_string(), part.message(i).to_string()));
        }
    }
    out
}

fn scenario() -> MemoryLog {
    MemoryLog::new(
        D2024,
        &[
            "[2024-01-01 00:00:01 UTC] alice: hello world\n[2024-01-01 00:00:05 UTC] bob: hello again\n",
            "[2024-01-02 00:00:02 UTC] alice: hello\n",
        ],
    )
}

#[test]
fn day_numbers_agree_with_chrono() {
    let d = chrono::NaiveDate::from_ymd_opt(2024, 1, 1).unwrap();
    assert_eq!(d.to_epoch_days() as i64, D2024);
    assert_eq!(d.and_hms_opt(0, 0, 0).unwrap().and_utc().timestamp(), Y2024);
}

#[test]
fn two_days_one_window() {
    let mut log = scenario();
    let mut seen = Vec::new();
    let r = log.slide(Y2024, Y2024 + 2 * DAY, DAY as u32, 2 * DAY as u32, |t0, t1, w| {
        seen.push((t0, t1, texts(w), w.len()));
    });
    let summary = r.ok().unwrap();
    assert_eq!(summary.windows, 1);
    assert_eq!(seen.len(), 1);
    assert_eq!(seen[0].0, Y2024);
    assert_eq!(seen[0].1, Y2024 + 2 * DAY);
    assert_eq!(seen[0].3, 3);
    assert_eq!(
        seen[0].2,
        vec![
            (Y2024 + 1, "alice".to_string(), "hello world".to_string()),
            (Y2024 + 5, "bob".to_string(), "hello again".to_string()),
            (Y2024 + DAY + 2, "alice".to_string(), "hello".to_string()),
        ]
    );
}

#[test]
fn two_days_one_window_token_counts() {
    let mut log = scenario();
    let mut seen = Vec::new();
    let r = log.slide_token_counts(
        Y2024,
        Y2024 + 2 * DAY,
        DAY as u32,
        2 * DAY as u32,
        |t0, t1, stats: WindowStats| {
            let ranked: Vec<(String, u64)> = most_common(&stats.token_counts, 0)
                .iter()
                .map(|(s, n)| (s.to_string(), *n))
                .collect();
            seen.push((t0, t1, stats.n_messages, stats.n_tokens, stats.n_tokens_filtered, ranked));
        },
        |_| true,
    );
    assert_eq!(r.ok().unwrap().windows, 1);
    assert_eq!(seen.len(), 1);
    let (t0, t1, n_messages, n_tokens, n_filtered, ranked) = seen.pop().unwrap();
    assert_eq!((t0, t1), (Y2024, Y2024 + 2 * DAY));
    assert_eq!((n_messages, n_tokens, n_filtered), (3, 5, 5));
    assert_eq!(
        ranked,
        vec![("hello".to_string(), 3), ("world".to_string(), 1), ("again".to_string(), 1)]
    );
}

#[test]
fn filter_decides_what_is_counted() {
    let mut log = scenario();
    let mut seen = Vec::new();
    let r = log.slide_token_counts(
        Y2024,
        Y2024 + 2 * DAY,
        DAY as u32,
        DAY as u32,
        |_, _, stats: WindowStats| {
            seen.push((
                stats.n_messages,
                stats.n_tokens,
                stats.n_tokens_filtered,
                stats.token_counts.count("hello"),
                stats.token_counts.count("world"),
                stats.token_counts.len(),
            ));
        },
        |t| t != "hello",
    );
    assert_eq!(r.ok().unwrap().windows, 2);
    assert_eq!(seen, vec![(2, 4, 2, 0, 1, 2), (1, 1, 0, 0, 0, 0)]);
}

#[test]
fn daily_windows_over_consecutive_days() {
    let n = 5;
    let mut log = MemoryLog::daily(n);
    let mut seen = Vec::new();
    let r = log.slide(Y2024, Y2024 + n as i64 * DAY, DAY as u32, DAY as u32, |t0, t1, w| {
        seen.push((t0, t1, texts(w)));
    });
    assert_eq!(r.ok().unwrap().windows, n as u128);
    assert_eq!(seen.len(), n);
    for (k, (t0, t1, msgs)) in seen.iter().enumerate() {
        assert_eq!(*t0, Y2024 + k as i64 * DAY);
        assert_eq!(*t1, Y2024 + (k as i64 + 1) * DAY);
        assert_eq!(
            *msgs,
            vec![
                (t0 + DAY / 2, format!("user{}", k), format!("noon of day {}", k)),
                (t1 - 1, format!("user{}", k), format!("end of day {}", k)),
            ]
        );
    }
}

#[test]
fn message_at_the_end_of_a_window_belongs_to_the_next() {
    let mut log = MemoryLog::new(
        D2024,
        &[
            "[2024-01-01 11:59:59 UTC] a: before\n[2024-01-01 12:00:00 UTC] b: at the end\n[2024-01-01 12:00:01 UTC] c: after\n",
        ],
    );
    let mut seen = Vec::new();
    let half = (DAY / 2) as u32;
    let r = log.slide(Y2024, Y2024 + DAY, half, half, |_, _, w| {
        let words: Vec<String> = texts(w).into_iter().map(|m| m.2).collect();
        seen.push(words);
    });
    assert_eq!(r.ok().unwrap().windows, 2);
    assert_eq!(seen, vec![vec!["before".to_string()], vec!["at the end".to_string(), "after".to_string()]]);
}

#[test]
fn overlapping_windows_ask_for_each_day_once() {
    let n = 7;
    let mut log = MemoryLog::daily(n);
    let mut counts = Vec::new();
    let r = log.slide(Y2024, Y2024 + n as i64 * DAY, DAY as u32, 3 * DAY as u32, |_, _, w| {
        counts.push(w.len());
    });
    let summary = r.ok().unwrap();
    assert_eq!(summary.windows, 5);
    assert_eq!(counts, vec![6, 6, 6, 6, 6]);
    // each of the seven days of the index once, and no other day
    let expected: Vec<i64> = (D2024..D2024 + n as i64).collect();
    assert_eq!(log.asked, expected);
    assert_eq!(summary.loads, 7);
}

#[test]
fn gapped_windows() {
    let n = 6;
    let mut log = MemoryLog::daily(n);
    let mut seen = Vec::new();
    let r = log.slide(Y2024, Y2024 + n as i64 * DAY, 2 * DAY as u32, DAY as u32, |t0, _, w| {
        seen.push((t0, w.len()));
    });
    let summary = r.ok().unwrap();
    assert_eq!(summary.windows, 3);
    assert_eq!(seen, vec![(Y2024, 2), (Y2024 + 2 * DAY, 2), (Y2024 + 4 * DAY, 2)]);
    let expected: Vec<i64> = (D2024..D2024 + 6).collect();
    assert_eq!(log.asked, expected);
    assert_eq!(summary.loads, 6);
}

#[test]
fn windows_that_do_not_start_at_midnight() {
    let mut log = MemoryLog::daily(3);
    let mut seen = Vec::new();
    let r = log.slide(Y2024 + DAY / 2, Y2024 + 3 * DAY, DAY as u32, DAY as u32, |t0, t1, w| {
        let words: Vec<String> = texts(w).into_iter().map(|m| m.2).collect();
        seen.push((t0, t1, words));
    });
    assert_eq!(r.ok().unwrap().windows, 2);
    assert_eq!(
        seen,
        vec![
            (
                Y2024 + DAY / 2,
                Y2024 + DAY + DAY / 2,
                vec!["noon of day 0".to_string(), "end of day 0".to_string()]
            ),
            (
                Y2024 + DAY + DAY / 2,
                Y2024 + 2 * DAY + DAY / 2,
                vec!["noon of day 1".to_string(), "end of day 1".to_string()]
            ),
        ]
    );
}

#[test]
fn a_day_that_cannot_be_read_counts_as_empty() {
    let mut log = MemoryLog::daily(3);
    log.days[1] = "this is no chat log\n".to_string();
    let mut counts = Vec::new();
    let r = log.slide(Y2024, Y2024 + 3 * DAY, DAY as u32, DAY as u32, |_, _, w| counts.push(w.len()));
    assert_eq!(r.ok().unwrap().windows, 3);
    assert_eq!(counts, vec![2, 0, 2]);
}

#[test]
fn empty_index_is_refused() {
    let mut log = MemoryLog::new(D2024, &[]);
    let r = log.slide(Y2024, Y2024 + DAY, DAY as u32, DAY as u32, |_, _, _| {});
    assert_eq!(r.err(), Some(SlideError::NotEnoughData));
    assert!(log.asked.is_empty());
}

#[test]
fn range_that_ends_before_it_starts_is_refused() {
    let mut log = MemoryLog::daily(3);
    let r = log.slide(Y2024 + DAY, Y2024, DAY as u32, DAY as u32, |_, _, _| {});
    assert_eq!(r.err(), Some(SlideError::InvalidTimeInterval));
    assert!(log.asked.is_empty());
}

#[test]
fn range_longer_than_the_index_is_refused() {
    let mut log = MemoryLog::daily(3);
    let r = log.slide(Y2024, Y2024 + 3 * DAY + 1, DAY as u32, DAY as u32, |_, _, _| {});
    assert_eq!(r.err(), Some(SlideError::InvalidTimeInterval));
    let r = log.slide(Y2024, Y2024 + 3 * DAY, DAY as u32, DAY as u32, |_, _, _| {});
    assert!(r.is_ok());
}

#[test]
fn window_longer_than_the_index_is_refused() {
    let mut log = MemoryLog::daily(1);
    let r = log.slide(Y2024, Y2024 + DAY, DAY as u32, DAY as u32 + 1, |_, _, _| {});
    assert_eq!(r.err(), Some(SlideError::NotEnoughData));
    assert!(log.asked.is_empty());
}

#[test]
fn check_slide_names_each_refusal() {
    assert_eq!(check_slide(None, 0, 1, 1), Err(SlideError::NotEnoughData));
    assert_eq!(check_slide(Some((0, 0)), 2, 1, 1), Err(SlideError::InvalidTimeInterval));
    assert_eq!(check_slide(Some((0, 0)), 0, 86_401, 1), Err(SlideError::InvalidTimeInterval));
    assert_eq!(check_slide(Some((0, 0)), 0, 86_400, 86_401), Err(SlideError::NotEnoughData));
    assert_eq!(check_slide(Some((0, 0)), 0, 86_400, 86_400), Ok(()));
    assert_eq!(check_slide(Some((5, 6)), 0, 2 * 86_400, 0), Ok(()));
}

#[test]
fn window_that_does_not_fit_the_range_is_never_handed_out() {
    let mut log = MemoryLog::daily(3);
    let mut n = 0;
    let r = log.slide(Y2024, Y2024 + DAY - 1, DAY as u32, DAY as u32, |_, _, _| n += 1);
    let summary = r.ok().unwrap();
    assert_eq!((summary.windows, summary.loads, n), (0, 0, 0));
    assert!(log.asked.is_empty());
}

#[test]
fn slider_steps_by_hand() {
    let mut s = WindowSlider::new(Some((D2024, D2024 + 1)), Y2024, Y2024 + 2 * DAY, DAY as u32, DAY as u32)
        .ok()
        .unwrap();
    assert!(s.has_window());
    s.evict();
    assert_eq!(s.wanted(), Some(D2024));
    s.accept(D2024, Some(parse_string("[2024-01-01 00:00:01 UTC] a: x\n".to_string())));
    assert_eq!(s.wanted(), Some(D2024 + 1));
    s.accept(D2024 + 1, None);
    assert_eq!(s.wanted(), None);
    {
        let w = s.window();
        assert_eq!((w.start(), w.end()), (Y2024, Y2024 + DAY));
        assert_eq!(w.parts().len(), 2);
        assert_eq!(w.len(), 1);
    }
    s.advance();
    assert!(s.has_window());
    s.evict();
    // the index ends with the second day, so nothing more is asked for
    assert_eq!(s.wanted(), None);
    {
        let w = s.window();
        assert_eq!((w.start(), w.end()), (Y2024 + DAY, Y2024 + 2 * DAY));
        assert_eq!(w.parts().len(), 1);
        assert_eq!(w.len(), 0);
    }
    s.advance();
    assert!(!s.has_window());
    let summary = s.summary();
    assert_eq!((summary.windows, summary.loads), (2, 2));
}

#[test]
fn slide_index_covers_the_whole_index() {
    let mut log = MemoryLog::daily(4);
    let mut starts = Vec::new();
    let r = log.slide_index(DAY as u32, 2 * DAY as u32, |t0, _, _| starts.push(t0));
    assert_eq!(r.ok().unwrap().windows, 3);
    assert_eq!(starts, vec![Y2024, Y2024 + DAY, Y2024 + 2 * DAY]);
    let mut empty = MemoryLog::new(D2024, &[]);
    assert_eq!(empty.slide_index(1, 1, |_, _, _| {}).err(), Some(SlideError::NotEnoughData));
}

#[test]
fn slide_update_runs_to_the_end_of_the_index() {
    let mut log = MemoryLog::daily(4);
    let mut starts = Vec::new();
    let r = log.slide_update(Y2024 + 2 * DAY, DAY as u32, DAY as u32, |t0, _, _| starts.push(t0));
    assert_eq!(r.ok().unwrap().windows, 2);
    assert_eq!(starts, vec![Y2024 + 2 * DAY, Y2024 + 3 * DAY]);
}

#[test]
fn start_and_end_of_an_index() {
    assert_eq!(index_start(Some((D2024, D2024 + 3))), Ok(Y2024));
    assert_eq!(index_end(Some((D2024, D2024 + 3))), Ok(Y2024 + 4 * DAY));
    assert_eq!(index_start(Some((-1, 0))), Ok(-DAY));
    assert_eq!(index_end(Some((-1, -1))), Ok(0));
    assert_eq!(index_start(None), Err(SlideError::NotEnoughData));
    assert_eq!(index_end(None), Err(SlideError::NotEnoughData));
    assert_eq!(index_start(Some((i64::MIN, 0))), Err(SlideError::InvalidTimeInterval));
    assert_eq!(index_end(Some((0, i64::MAX))), Err(SlideError::InvalidTimeInterval));
    assert_eq!(index_end(Some((0, i64::MAX / DAY))), Err(SlideError::InvalidTimeInterval));
    assert_eq!(index_end(Some((0, i64::MAX / DAY - 1))), Ok((i64::MAX / DAY) * DAY));
}

/// A log that claims a range of days and has no data.
struct Claimed(Option<(i64, i64)>);

impl DailyChatLog for Claimed {
    fn index_range(&self) -> Option<(i64, i64)> {
        self.0
    }

    fn range(&self) -> Option<(i64, i64)> {
        self.0
    }

    fn load(&mut self, _date: i64) -> Option<Messages> {
        None
    }
}

#[test]
fn whole_index_slides_name_each_refusal() {
    assert_eq!(Claimed(None).slide_update(0, 1, 1, |_, _, _| {}).err(), Some(SlideError::NotEnoughData));
    assert_eq!(
        Claimed(Some((0, i64::MAX))).slide_update(0, 1, 1, |_, _, _| {}).err(),
        Some(SlideError::InvalidTimeInterval)
    );
    assert_eq!(
        Claimed(Some((i64::MIN, 0))).slide_index(1, 1, |_, _, _| {}).err(),
        Some(SlideError::InvalidTimeInterval)
    );
    // the start lies after the end of the index
    assert_eq!(
        Claimed(Some((0, 1))).slide_update(2 * DAY + 1, 1, 1, |_, _, _| {}).err(),
        Some(SlideError::InvalidTimeInterval)
    );
    // a window longer than the index
    assert_eq!(
        Claimed(Some((0, 0))).slide_index(1, DAY as u32 + 1, |_, _, _| {}).err(),
        Some(SlideError::NotEnoughData)
    );
    let mut starts = Vec::new();
    let r = Claimed(Some((0, 1))).slide_index(DAY as u32, DAY as u32, |t0, t1, _| starts.push((t0, t1)));
    let summary = r.ok().unwrap();
    assert_eq!((summary.windows, summary.loads), (2, 2));
    assert_eq!(starts, vec![(0, DAY), (DAY, 2 * DAY)]);
}

#[test]
fn window_that_ends_inside_a_day_holds_the_messages_of_that_day() {
    let mut log = scenario();
    let mut seen = Vec::new();
    // a window of 36 hours, one hour apart: the step does not reach the second day
    let r = log.slide(Y2024, Y2024 + 129_600, 3_600, 129_600, |t0, t1, w| {
        seen.push((t0, t1, texts(w)));
    });
    let summary = r.ok().unwrap();
    assert_eq!((summary.windows, summary.loads), (1, 2));
    assert_eq!(log.asked, vec![D2024, D2024 + 1]);
    assert_eq!(seen.len(), 1);
    assert_eq!((seen[0].0, seen[0].1), (Y2024, Y2024 + 129_600));
    assert_eq!(
        seen[0].2,
        vec![
            (Y2024 + 1, "alice".to_string(), "hello world".to_string()),
            (Y2024 + 5, "bob".to_string(), "hello again".to_string()),
            (Y2024 + DAY + 2, "alice".to_string(), "hello".to_string()),
        ]
    );
}

#[test]
fn short_windows_inside_one_day() {
    let mut log = MemoryLog::daily(2);
    let mut seen = Vec::new();
    // windows of one hour, one hour apart, around noon of the first day
    let from = Y2024 + 11 * 3_600;
    let r = log.slide(from, from + 3 * 3_600, 3_600, 3_600, |t0, _, w| seen.push((t0, w.len())));
    let summary = r.ok().unwrap();
    assert_eq!((summary.windows, summary.loads), (3, 1));
    assert_eq!(seen, vec![(from, 0), (from + 3_600, 1), (from + 7_200, 0)]);
    assert_eq!(log.asked, vec![D2024]);
}

#[test]
fn every_window_holds_the_messages_in_its_bounds() {
    let n = 4;
    let mut log = MemoryLog::daily(n);
    let all: Vec<i64> =
        (0..n as i64).flat_map(|k| vec![Y2024 + k * DAY + DAY / 2, Y2024 + (k + 1) * DAY - 1]).collect();
    for (step, size) in [(3_600u32, 129_600u32), (50_000, 70_000), (86_400, 1), (7_200, 100_000), (200_000, 30_000)] {
        log.asked.clear();
        let mut seen = Vec::new();
        let end = Y2024 + n as i64 * DAY;
        let r = log.slide(Y2024 + 5, end, step, size, |t0, t1, w| {
            let at: Vec<i64> = texts(w).into_iter().map(|m| m.0).collect();
            seen.push((t0, t1, at));
        });
        assert!(r.is_ok());
        assert!(!seen.is_empty());
        for (t0, t1, at) in &seen {
            let expected: Vec<i64> = all.iter().copied().filter(|t| t0 <= t && t < t1).collect();
            assert_eq!(*at, expected, "step {} size {} window {}", step, size, t0);
        }
        let mut once = log.asked.clone();
        once.dedup();
        assert_eq!(once, log.asked);
        assert!(log.asked.iter().all(|d| D2024 <= *d && *d < D2024 + n as i64));
    }
}

#[test]
fn no_day_before_the_index_is_asked_for() {
    let mut log = MemoryLog::daily(2);
    let mut seen = Vec::new();
    let r = log.slide(Y2024 - DAY, Y2024 + DAY, DAY as u32, DAY as u32, |t0, _, w| seen.push((t0, w.len())));
    let summary = r.ok().unwrap();
    assert_eq!((summary.windows, summary.loads), (2, 2));
    assert_eq!(seen, vec![(Y2024 - DAY, 0), (Y2024, 2)]);
    assert_eq!(log.asked, vec![D2024, D2024 + 1]);
}

#[test]
fn step_of_zero_hands_out_the_first_window_alone() {
    let mut log = MemoryLog::daily(2);
    let mut seen = Vec::new();
    let r = log.slide(Y2024, Y2024 + 2 * DAY, 0, DAY as u32, |t0, t1, w| seen.push((t0, t1, w.len())));
    let summary = r.ok().unwrap();
    assert_eq!((summary.windows, summary.loads), (1, 1));
    assert_eq!(seen, vec![(Y2024, Y2024 + DAY, 2)]);
    assert_eq!(log.asked, vec![D2024]);
}

#[test]
fn refusals_do_not_depend_on_the_step() {
    for step in [0u32, 1, 86_400] {
        let mut empty = MemoryLog::new(D2024, &[]);
        assert_eq!(empty.slide(Y2024, Y2024 + DAY, step, 1, |_, _, _| {}).err(), Some(SlideError::NotEnoughData));
        let mut log = MemoryLog::daily(2);
        assert_eq!(
            log.slide(Y2024 + 1, Y2024, step, 1, |_, _, _| {}).err(),
            Some(SlideError::InvalidTimeInterval)
        );
        assert_eq!(
            log.slide(Y2024, Y2024 + 2 * DAY + 1, step, 1, |_, _, _| {}).err(),
            Some(SlideError::InvalidTimeInterval)
        );
        assert_eq!(
            log.slide(Y2024, Y2024 + DAY, step, 2 * DAY as u32 + 1, |_, _, _| {}).err(),
            Some(SlideError::NotEnoughData)
        );
        assert!(log.asked.is_empty());
        assert!(WindowSlider::new(None, 0, 1, step, 1).is_err());
    }
}

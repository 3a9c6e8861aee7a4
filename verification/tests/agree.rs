use chatan::counts::TokenCounts;
use chatan::message::overrustle::parse_string;
use chatan::message::tokenizer::normal;
use chatan::message::Messages;
use chatan::overrustle::{build_index, trailing_segment, LogFileUrl};
use chatan::util::most_common;

/// A small generator of numbers, the same at every run.
struct Numbers(u64);

impl Numbers {
    fn next(&mut self, below: u64) -> u64 {
        self.0 = self.0.wrapping_mul(6_364_136_223_846_793_005).wrapping_add(1_442_695_040_888_963_407);
        (self.0 >> 33) % below
    }

    fn text(&mut self, alphabet: &[&str], len: u64) -> String {
        let mut s = String::new();
        for _ in 0..len {
            s.push_str(alphabet[self.next(alphabet.len() as u64) as usize]);
        }
        s
    }
}

#[test]
fn normal_agrees_with_std() {
    let alphabet = ["a", "b", " ", " ", "\t", "\n", "\r", "\x0c", "\x0b", "é", "\u{a0}", "☺"];
    let mut n = Numbers(1);
    for _ in 0..500 {
        let len = n.next(24);
        let s = n.text(&alphabet, len);
        let expected: Vec<&str> = s.split_ascii_whitespace().collect();
        assert_eq!(normal(&s), expected, "for {:?}", s);
    }
}

#[test]
fn trailing_segment_agrees_with_std() {
    let alphabet = ["a", "/", "é", "-", "1"];
    let mut n = Numbers(2);
    for _ in 0..500 {
        let len = n.next(12);
        let s = n.text(&alphabet, len);
        assert_eq!(trailing_segment(&s), s.rsplitn(2, '/').next().unwrap(), "for {:?}", s);
    }
}

fn day_of_messages(n: &mut Numbers, count: u64) -> Messages {
    let mut at = 0;
    let mut text = String::new();
    for i in 0..count {
        at += n.next(3);
        text.push_str(&format!("[2019-07-01 00:{:02}:{:02} UTC] u: m{}\n", at / 60, at % 60, i));
    }
    parse_string(text)
}

#[test]
fn temporal_slice_agrees_with_a_filter() {
    let base = 1_561_939_200;
    let mut n = Numbers(3);
    for _ in 0..200 {
        let count = n.next(30);
        let m = day_of_messages(&mut n, count);
        assert_eq!(m.vec().len() as u64, count);
        let t0 = base + n.next(70) as i64 - 5;
        let t1 = base + n.next(70) as i64 - 5;
        let expected: Vec<String> = m
            .vec()
            .iter()
            .filter(|x| t0 <= x.timestamp() && x.timestamp() < t1)
            .map(|x| x.message(&m).to_string())
            .collect();
        let found: Vec<String> =
            m.temporal_slice(t0, t1).iter().map(|x| x.message(&m).to_string()).collect();
        assert_eq!(found, expected);
    }
}

#[test]
fn parse_string_agrees_with_line_by_line() {
    let lines = [
        "[2019-07-01 00:00:42 UTC] someuser: some words",
        "[2019-07-01 00:00:43 UTC] other: ",
        "[2019-07-01 00:00:44 UTC] zoë: grüß dich",
        "[2019-07-01 00:00:45 UTC] nocolon",
        "[2019-07-01 00:61:45 UTC] late: minute 61",
        "",
        "short",
        "[2019-07-01 00:00:46 UTC] a: b: c",
    ];
    let mut n = Numbers(4);
    for _ in 0..200 {
        let mut text = String::new();
        let mut expected = Vec::new();
        let count = n.next(8);
        for i in 0..count {
            let line = lines[n.next(lines.len() as u64) as usize];
            text.push_str(line);
            if i + 1 < count || n.next(2) == 0 {
                text.push('\n');
            }
            if let Some((at, user, words)) = chatan::message::overrustle::parse_line(line) {
                expected.push((at, user.to_string(), words.to_string()));
            }
        }
        let m = parse_string(text);
        let found: Vec<(i64, String, String)> = m
            .vec()
            .iter()
            .map(|x| (x.timestamp(), x.user(&m).to_string(), x.message(&m).to_string()))
            .collect();
        assert_eq!(found, expected);
    }
}

#[test]
fn most_common_agrees_with_a_stable_sort() {
    let words = ["a", "b", "c", "d", "e", "f", "g"];
    let mut n = Numbers(5);
    for _ in 0..200 {
        let count = n.next(40);
        let tokens: Vec<&str> = (0..count).map(|_| words[n.next(7) as usize]).collect();
        let threshold = n.next(4);
        let mut counts = TokenCounts::new();
        let mut expected: Vec<(&str, u64)> = Vec::new();
        for t in &tokens {
            counts.add(*t);
            match expected.iter_mut().find(|e| e.0 == *t) {
                Some(e) => e.1 += 1,
                None => expected.push((*t, 1)),
            }
        }
        expected.retain(|e| e.1 > threshold);
        expected.sort_by(|l, r| r.1.cmp(&l.1));
        assert_eq!(most_common(&counts, threshold), expected);
    }
}

#[test]
fn index_agrees_with_sorting_the_days() {
    let mut n = Numbers(6);
    for _ in 0..100 {
        let count = n.next(20);
        let mut found = Vec::new();
        let mut days = Vec::new();
        for _ in 0..count {
            let day = 1 + n.next(28);
            days.push(day);
            found.push(LogFileUrl::from_overrustle_url(&format!("/x/2019-07-{:02}", day)).ok().unwrap());
        }
        days.sort();
        days.dedup();
        let index = build_index(&found);
        let indexed: Vec<u64> = index.iter().map(|l| (l.date() - 18_077) as u64).collect();
        assert_eq!(indexed, days);
    }
}

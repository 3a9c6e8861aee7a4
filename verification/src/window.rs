//! The sliding window over day partitions.
//!
//! A [`WindowSlider`] walks a window of fixed size over a range of time in fixed steps.
//! It says which day to read next, keeps the partitions that a window still needs, and
//! cuts each window out of them. It reads nothing itself: the caller hands it each
//! partition it asks for, so a day is asked for once however far the windows overlap.

use vstd::prelude::*;
use vstd::slice::*;
use vstd::string::*;
use crate::calendar::{date_of, date_of_wide, day_after, day_of, day_start, lemma_day_holds};
use crate::message::{chronological, in_window, is_temporal_slice, Message, Messages};

verus! {

broadcast use {vstd::seq::group_seq_axioms, vstd::slice::group_slice_axioms};

/// Why a slide cannot start.
#[derive(Clone, Copy, Debug, PartialEq, Eq, Structural)]
pub enum SlideError {
    /// The range ends before it starts, or is longer than the index.
    InvalidTimeInterval,
    /// The index is empty, or shorter than one window.
    NotEnoughData,
}

/// What a slide did: how many windows it handed out and how many days it asked for.
#[derive(Clone, Copy, Debug, PartialEq, Eq, Structural)]
pub struct SlideSummary {
    pub windows: u128,
    pub loads: u64,
}

/// Seconds covered by an index whose first and last day are given: every day from the
/// first to the last, both included.
pub open spec fn index_span(range: (i64, i64)) -> int {
    (range.1 + 1 - range.0) * 86_400
}

/// The reason for which a slide over `start..end` with windows of `size` seconds cannot
/// start on an index of the given range of days, or `None` where it can.
pub open spec fn slide_refusal(range: Option<(i64, i64)>, start: int, end: int, size: int) -> Option<
    SlideError,
> {
    match range {
        None => Some(SlideError::NotEnoughData),
        Some(r) => if start > end || end - start > index_span(r) {
            Some(SlideError::InvalidTimeInterval)
        } else if size > index_span(r) {
            Some(SlideError::NotEnoughData)
        } else {
            None
        },
    }
}

/// Number of windows of `size` seconds that start at `start`, `start + step`, and so on,
/// and end at or before `end`. With a step of zero the window never moves, so it is
/// handed out once where it fits.
pub open spec fn window_count(start: int, end: int, step: int, size: int) -> int {
    if start + size > end {
        0
    } else if step <= 0 {
        1
    } else {
        (end - size - start) / step + 1
    }
}

/// Start of the window with number `k`, counted from 0.
pub open spec fn window_start(start: int, step: int, k: int) -> int {
    start + k * step
}

/// The day `d` where the index of the given range holds it; else the first day of the
/// index for a day before it, and the day after its last for a day after it.
pub open spec fn clamp_day(range: (i64, i64), d: int) -> int {
    if d < range.0 {
        range.0 as int
    } else if d > range.1 + 1 {
        range.1 + 1
    } else {
        d
    }
}

/// The first day that a slide from `start` asks for: the day of `start`, or the first
/// day of the index where `start` lies before it.
pub open spec fn first_asked(range: (i64, i64), start: int) -> int {
    clamp_day(range, day_of(start))
}

/// The day after the last day that window `k` makes the slider ask for. Partitions are
/// read one step ahead of the window's end: every day of the index that starts before
/// the end of the window that follows is asked for, and no day that the index does not
/// hold.
pub open spec fn frontier_of(range: (i64, i64), start: int, step: int, size: int, k: int) -> int {
    clamp_day(range, day_of(window_start(start, step, k) + size + step - 1) + 1)
}

/// Number of days asked for by the time `windows` windows have been handed out: every
/// day from the first one asked for up to the frontier of the last window, each once.
pub open spec fn load_count(range: (i64, i64), start: int, step: int, size: int, windows: int) -> int {
    if windows <= 0 {
        0
    } else {
        frontier_of(range, start, step, size, windows - 1) - first_asked(range, start)
    }
}

/// Checks that a slide can start, as `slide_refusal` says.
pub fn check_slide(range: Option<(i64, i64)>, start: i64, end: i64, size: u32) -> (r: Result<
    (),
    SlideError,
>)
    ensures
        r is Ok <==> slide_refusal(range, start as int, end as int, size as int) is None,
        r matches Err(e) ==> slide_refusal(range, start as int, end as int, size as int) == Some(e),
{
    match range {
        None => Err(SlideError::NotEnoughData),
        Some(r) => {
            let days: i128 = r.1 as i128 + 1 - r.0 as i128;
            let span: i128 = days * 86_400;
            if start > end || end as i128 - start as i128 > span {
                Err(SlideError::InvalidTimeInterval)
            } else if size as i128 > span {
                Err(SlideError::NotEnoughData)
            } else {
                Ok(())
            }
        },
    }
}

/// The messages that one buffered partition gives to a window, with the partition that
/// owns their text.
pub struct Part<'a> {
    owner: &'a Messages,
    messages: &'a [Message],
}

impl<'a> Part<'a> {
    /// The partition that the messages point into.
    pub closed spec fn owner(&self) -> Messages {
        *self.owner
    }

    /// The messages of this part, in their order.
    pub closed spec fn entries(&self) -> Seq<Message> {
        self.messages@
    }

    /// Every message of the part points at whole characters of the owner's text.
    #[verifier::type_invariant]
    pub closed spec fn wf(&self) -> bool {
        forall|i: int| 0 <= i < self.messages@.len() ==> (#[trigger] self.messages@[i]).fits(
            self.owner.text(),
        )
    }

    /// Number of messages in this part.
    pub fn len(&self) -> (n: usize)
        ensures
            n == self.entries().len(),
    {
        self.messages.len()
    }

    /// The instant of message `i`.
    pub fn timestamp(&self, i: usize) -> (t: i64)
        requires
            i < self.entries().len(),
        ensures
            t == self.entries()[i as int].at(),
    {
        self.messages[i].timestamp()
    }

    /// The speaker's name of message `i`.
    pub fn user(&self, i: usize) -> (name: &'a str)
        requires
            i < self.entries().len(),
        ensures
            name.spec_bytes() == self.entries()[i as int].user_in(self.owner().text()),
    {
        proof {
            use_type_invariant(self);
        }
        self.messages[i].user(self.owner)
    }

    /// The words of message `i`.
    pub fn message(&self, i: usize) -> (words: &'a str)
        requires
            i < self.entries().len(),
        ensures
            words.spec_bytes() == self.entries()[i as int].body_in(self.owner().text()),
    {
        proof {
            use_type_invariant(self);
        }
        self.messages[i].message(self.owner)
    }
}

/// One window: its bounds and, for each buffered partition in the order of the days, the
/// messages that fall into it. It borrows from the slider's buffer, so it cannot outlive
/// the step that made it.
pub struct Window<'a> {
    start: i64,
    end: i64,
    parts: Vec<Part<'a>>,
}

impl<'a> Window<'a> {
    /// First instant of the window.
    pub closed spec fn from(&self) -> int {
        self.start as int
    }

    /// The instant at which the window ends; it is not part of the window.
    pub closed spec fn until(&self) -> int {
        self.end as int
    }

    /// The parts of the window, one for each buffered partition.
    pub closed spec fn pieces(&self) -> Seq<Part<'a>> {
        self.parts@
    }

    /// First instant of the window.
    pub fn start(&self) -> (t: i64)
        ensures
            t == self.from(),
    {
        self.start
    }

    /// The instant at which the window ends.
    pub fn end(&self) -> (t: i64)
        ensures
            t == self.until(),
    {
        self.end
    }

    /// The parts of the window, in the order of the days.
    pub fn parts(&self) -> (p: &Vec<Part<'a>>)
        ensures
            p@ == self.pieces(),
    {
        &self.parts
    }

    /// Number of messages in the window.
    pub fn len(&self) -> (n: usize)
        ensures
            n == total_len(self.pieces()) || (n == usize::MAX && total_len(self.pieces())
                > usize::MAX),
    {
        let mut n: usize = 0;
        let mut i: usize = 0;
        let ghost mut over = false;
        while i < self.parts.len()
            invariant
                i <= self.parts@.len(),
                !over ==> n == total_len(self.parts@.take(i as int)),
                over ==> n == usize::MAX && total_len(self.parts@.take(i as int)) > usize::MAX,
            decreases self.parts@.len() - i,
        {
            let k = self.parts[i].len();
            proof {
                assert(self.parts@.take(i + 1).drop_last() =~= self.parts@.take(i as int));
                lemma_total_len_nonneg(self.parts@.take(i as int));
            }
            if k > usize::MAX - n {
                n = usize::MAX;
                proof {
                    over = true;
                }
            } else {
                n = n + k;
            }
            i = i + 1;
        }
        assert(self.parts@.take(i as int) =~= self.parts@);
        n
    }
}

/// The frontier before window `k` has asked for anything: that of the window before it,
/// or the first day asked for where it is the first window.
pub open spec fn frontier_before(range: (i64, i64), start: int, step: int, size: int, k: int) -> int {
    if k <= 0 {
        first_asked(range, start)
    } else {
        frontier_of(range, start, step, size, k - 1)
    }
}

/// `n` steps of `step` seconds from `start` are one step more than `n - 1`.
proof fn lemma_window_start_next(start: int, step: int, k: int)
    ensures
        window_start(start, step, k + 1) == window_start(start, step, k) + step,
{
    assert((k + 1) * step == k * step + step) by (nonlinear_arith);
}

/// The window count is the one number of steps that reaches the last window's start.
proof fn lemma_window_count(start: int, end: int, step: int, size: int, k: int)
    requires
        step > 0,
        k >= 0,
        window_start(start, step, k) + size <= end,
        window_start(start, step, k) + step + size > end,
    ensures
        window_count(start, end, step, size) == k + 1,
{
    let x = end - size - start;
    assert(k * step <= x < k * step + step);
    assert(x / step == k) by (nonlinear_arith)
        requires
            step > 0,
            k * step <= x < k * step + step,
    ;
}

/// A later day is never brought to an earlier place of the index.
proof fn lemma_clamp_monotone(range: (i64, i64), a: int, b: int)
    requires
        range.0 <= range.1 + 1,
        a <= b,
    ensures
        clamp_day(range, a) <= clamp_day(range, b),
        range.0 <= clamp_day(range, a) <= range.1 + 1,
{
}

/// The frontier never falls from one window to the next, and the day at which a window
/// starts is never after the frontier of the window before it.
proof fn lemma_frontier_grows(range: (i64, i64), start: int, step: int, size: int, k: int)
    requires
        range.0 <= range.1 + 1,
        step >= 0,
        size >= 0,
        k >= 0,
    ensures
        frontier_of(range, start, step, size, k) <= frontier_of(range, start, step, size, k + 1),
        clamp_day(range, day_of(window_start(start, step, k))) <= clamp_day(
            range,
            day_of(window_start(start, step, k + 1)),
        ),
        clamp_day(range, day_of(window_start(start, step, k))) <= frontier_of(
            range,
            start,
            step,
            size,
            k,
        ),
        clamp_day(range, day_of(window_start(start, step, k + 1))) <= frontier_of(
            range,
            start,
            step,
            size,
            k,
        ),
{
    lemma_window_start_next(start, step, k);
    let cur = window_start(start, step, k);
    crate::calendar::lemma_day_of_monotone(cur + size + step - 1, cur + step + size + step - 1);
    crate::calendar::lemma_day_of_monotone(cur, cur + step);
    crate::calendar::lemma_day_of_monotone(cur - 1, cur + size + step - 1);
    crate::calendar::lemma_day_of_monotone(cur + step - 1, cur + size + step - 1);
    lemma_clamp_monotone(
        range,
        day_of(cur + size + step - 1) + 1,
        day_of(cur + step + size + step - 1) + 1,
    );
    lemma_clamp_monotone(range, day_of(cur), day_of(cur + step));
    lemma_clamp_monotone(range, day_of(cur), day_of(cur + size + step - 1) + 1);
    lemma_clamp_monotone(range, day_of(cur + step), day_of(cur + size + step - 1) + 1);
}

/// The state of a slide between two of its steps.
pub struct WindowSlider {
    first: i64,
    last: i64,
    start: i64,
    end: i64,
    step: u32,
    size: u32,
    cur: i64,
    done: bool,
    loaded: Vec<(i64, Messages)>,
    frontier: i64,
    windows: u128,
    loads: u64,
}

impl WindowSlider {
    /// First and last day of the index that the slide runs on.
    pub closed spec fn index(&self) -> (i64, i64) {
        (self.first, self.last)
    }

    /// First instant of the range.
    pub closed spec fn range_start(&self) -> int {
        self.start as int
    }

    /// End of the range.
    pub closed spec fn range_end(&self) -> int {
        self.end as int
    }

    /// Seconds from one window's start to the next.
    pub closed spec fn step(&self) -> int {
        self.step as int
    }

    /// Seconds that a window covers.
    pub closed spec fn size(&self) -> int {
        self.size as int
    }

    /// No window is left.
    pub closed spec fn finished(&self) -> bool {
        self.done
    }

    /// Number of windows handed out so far.
    pub closed spec fn windows(&self) -> int {
        self.windows as int
    }

    /// Number of days asked for so far.
    pub closed spec fn loads(&self) -> int {
        self.loads as int
    }

    /// The day after the last day asked for.
    pub closed spec fn frontier(&self) -> int {
        self.frontier as int
    }

    /// The buffered partitions, in the order of their days.
    pub closed spec fn buffer(&self) -> Seq<Messages> {
        self.loaded@.map_values(|e: (i64, Messages)| e.1)
    }

    /// The day of the first buffered partition; the buffer holds this day and each day
    /// after it up to the frontier.
    pub open spec fn base(&self) -> int {
        self.frontier() - self.buffer().len()
    }

    /// Start of the window that comes next.
    pub open spec fn cur(&self) -> int {
        window_start(self.range_start(), self.step(), self.windows())
    }

    /// The frontier that the coming window asks for.
    pub open spec fn goal(&self) -> int {
        frontier_of(self.index(), self.range_start(), self.step(), self.size(), self.windows())
    }

    /// What holds of a slider at every step: its counters agree with the closed forms of
    /// this module, and its buffer holds the days from its base up to its frontier, one
    /// partition for each, all of them days of the index.
    pub closed spec fn wf(&self) -> bool {
        let range = (self.first, self.last);
        &&& self.first <= self.last + 1
        &&& self.first <= self.frontier - self.loaded@.len()
        &&& first_asked(range, self.start as int) <= self.frontier - self.loaded@.len()
        &&& self.frontier <= self.last + 1
        &&& self.loads == self.frontier - first_asked(range, self.start as int)
        &&& forall|i: int|
            0 <= i < self.loaded@.len() ==> (#[trigger] self.loaded@[i]).0 == self.frontier
                - self.loaded@.len() + i
        &&& !self.done ==> {
            &&& self.cur == self.cur()
            &&& self.cur + self.size <= self.end
            &&& (self.step == 0 ==> self.windows == 0)
            &&& self.frontier - self.loaded@.len() <= clamp_day(range, day_of(self.cur as int))
                <= self.frontier
            &&& frontier_before(
                range,
                self.start as int,
                self.step as int,
                self.size as int,
                self.windows(),
            ) <= self.frontier <= frontier_of(
                range,
                self.start as int,
                self.step as int,
                self.size as int,
                self.windows(),
            )
        }
        &&& self.done ==> {
            &&& self.windows() == window_count(
                self.start as int,
                self.end as int,
                self.step as int,
                self.size as int,
            )
            &&& self.frontier == frontier_before(
                range,
                self.start as int,
                self.step as int,
                self.size as int,
                self.windows(),
            )
        }
    }

    /// The slider stands before a window and has asked for nothing on its behalf.
    pub open spec fn idle(&self) -> bool {
        &&& self.wf()
        &&& !self.finished()
        &&& self.frontier() == frontier_before(
            self.index(),
            self.range_start(),
            self.step(),
            self.size(),
            self.windows(),
        )
    }

    /// The buffer starts at the day of the coming window's start, or at the place of
    /// that day in the index where the index does not hold it.
    pub open spec fn evicted(&self) -> bool {
        &&& self.wf()
        &&& !self.finished()
        &&& self.base() == clamp_day(self.index(), day_of(self.cur()))
    }

    /// The buffer holds every day of the index that the coming window and the step
    /// after it need.
    pub open spec fn ready(&self) -> bool {
        &&& self.evicted()
        &&& self.frontier() == self.goal()
    }

    /// The place of the day `d` in the index.
    fn clamp(first: i64, last: i64, d: i64) -> (r: i64)
        requires
            first <= last + 1,
        ensures
            r == clamp_day((first, last), d as int),
    {
        if d < first {
            first
        } else if d > last {
            last + 1
        } else {
            d
        }
    }

    /// A slider for windows of `size` seconds, `step` seconds apart, over `start..end`,
    /// on an index whose first and last day are `range`; or the reason for which the
    /// slide cannot start. A step of zero is taken as it is: the window at `start` is
    /// then the only one.
    pub fn new(range: Option<(i64, i64)>, start: i64, end: i64, step: u32, size: u32) -> (r: Result<
        WindowSlider,
        SlideError,
    >)
        ensures
            r is Ok <==> slide_refusal(range, start as int, end as int, size as int) is None,
            r matches Err(e) ==> slide_refusal(range, start as int, end as int, size as int)
                == Some(e),
            r matches Ok(s) ==> {
                &&& s.wf()
                &&& range == Some(s.index())
                &&& s.range_start() == start
                &&& s.range_end() == end
                &&& s.step() == step
                &&& s.size() == size
                &&& s.windows() == 0
                &&& s.loads() == 0
                &&& s.buffer() == Seq::<Messages>::empty()
                &&& s.finished() <==> start + size > end
                &&& !s.finished() ==> s.idle()
            },
    {
        match check_slide(range, start, end, size) {
            Err(e) => Err(e),
            Ok(()) => {
                let days = range.unwrap();
                let done = start as i128 + size as i128 > end as i128;
                let s = WindowSlider {
                    first: days.0,
                    last: days.1,
                    start,
                    end,
                    step,
                    size,
                    cur: start,
                    done,
                    loaded: Vec::new(),
                    frontier: Self::clamp(days.0, days.1, date_of(start)),
                    windows: 0,
                    loads: 0,
                };
                proof {
                    assert(s.buffer() =~= Seq::<Messages>::empty());
                    assert(0 * (step as int) == 0);
                    lemma_frontier_grows(days, start as int, step as int, size as int, 0);
                }
                Ok(s)
            },
        }
    }

    /// Drops the buffered partitions of the days before that of the coming window's
    /// start. The slide never goes back, so no later window needs them.
    pub fn evict(&mut self)
        requires
            old(self).wf(),
            !old(self).finished(),
        ensures
            final(self).evicted(),
            final(self).frontier() == old(self).frontier(),
            final(self).windows() == old(self).windows(),
            final(self).loads() == old(self).loads(),
            final(self).index() == old(self).index(),
            final(self).range_start() == old(self).range_start(),
            final(self).range_end() == old(self).range_end(),
            final(self).step() == old(self).step(),
            final(self).size() == old(self).size(),
            final(self).buffer().len() <= old(self).buffer().len(),
            final(self).buffer() == old(self).buffer().subrange(
                old(self).buffer().len() - final(self).buffer().len(),
                old(self).buffer().len() as int,
            ),
    {
        let cur_date = date_of(self.cur);
        let mut n: usize = 0;
        while n < self.loaded.len() && self.loaded[n].0 < cur_date
            invariant
                n <= self.loaded@.len(),
                forall|i: int| 0 <= i < n ==> (#[trigger] self.loaded@[i]).0 < cur_date,
            decreases self.loaded@.len() - n,
        {
            n = n + 1;
        }
        let ghost before = self.loaded@;
        let kept = self.loaded.split_off(n);
        self.loaded = kept;
        proof {
            assert(self.loaded@ == before.subrange(n as int, before.len() as int));
            assert(self.buffer() =~= old(self).buffer().subrange(
                old(self).buffer().len() - self.buffer().len(),
                old(self).buffer().len() as int,
            ));
            assert forall|i: int| 0 <= i < self.loaded@.len() implies (#[trigger] self.loaded@[i]).0
                == self.frontier - self.loaded@.len() + i by {
                assert(self.loaded@[i] == before[n + i]);
            }
            if n < before.len() {
                assert(before[n as int].0 >= cur_date);
                assert(self.loaded@[0] == before[n as int]);
                if n > 0 {
                    assert(before[n - 1].0 < cur_date);
                }
            } else if n > 0 {
                assert(before[n - 1].0 < cur_date);
            }
        }
    }

    /// The day to read next, or `None` where the buffer holds every day of the index up
    /// to one step past the end of the coming window.
    pub fn wanted(&self) -> (date: Option<i64>)
        requires
            self.evicted(),
        ensures
            date is Some <==> self.frontier() < self.goal(),
            date matches Some(d) ==> d == self.frontier(),
            date is None ==> self.ready(),
    {
        let ahead: i128 = self.cur as i128 + self.size as i128 + self.step as i128 - 1;
        let goal = Self::clamp(self.first, self.last, date_of_wide(ahead) + 1);
        if self.frontier < goal {
            Some(self.frontier)
        } else {
            None
        }
    }

    /// Takes the partition of the day that `wanted` named: `loaded` as it was read, or an
    /// empty partition where the day could not be read.
    pub fn accept(&mut self, date: i64, loaded: Option<Messages>)
        requires
            old(self).evicted(),
            date == old(self).frontier(),
            old(self).frontier() < old(self).goal(),
        ensures
            final(self).evicted(),
            final(self).frontier() == old(self).frontier() + 1,
            final(self).loads() == old(self).loads() + 1,
            final(self).windows() == old(self).windows(),
            final(self).index() == old(self).index(),
            final(self).range_start() == old(self).range_start(),
            final(self).range_end() == old(self).range_end(),
            final(self).step() == old(self).step(),
            final(self).size() == old(self).size(),
            final(self).buffer().len() == old(self).buffer().len() + 1,
            final(self).buffer().drop_last() == old(self).buffer(),
            match loaded {
                Some(m) => final(self).buffer().last() == m,
                None => final(self).buffer().last().entries() == Seq::<Message>::empty(),
            },
    {
        let partition = match loaded {
            Some(m) => m,
            None => Messages::empty(),
        };
        let ghost before = self.loaded@;
        self.loaded.push((date, partition));
        self.frontier = day_after(self.frontier);
        self.loads = self.loads + 1;
        proof {
            assert(self.buffer().drop_last() =~= old(self).buffer());
            assert(self.loaded@.last() == (date, partition));
            assert forall|i: int| 0 <= i < self.loaded@.len() implies (#[trigger] self.loaded@[i]).0
                == self.frontier - self.loaded@.len() + i by {
                if i < before.len() {
                    assert(self.loaded@[i] == before[i]);
                }
            }
        }
    }

    /// The coming window, cut out of the buffered partitions.
    pub fn window(&self) -> (w: Window<'_>)
        requires
            self.ready(),
        ensures
            w.from() == self.cur(),
            w.until() == self.cur() + self.size(),
            w.pieces().len() == self.buffer().len(),
            forall|i: int|
                0 <= i < self.buffer().len() ==> {
                    &&& (#[trigger] w.pieces()[i]).owner() == self.buffer()[i]
                    &&& is_temporal_slice(
                        self.buffer()[i].entries(),
                        w.from(),
                        w.until(),
                        w.pieces()[i].entries(),
                    )
                },
    {
        let t0 = self.cur;
        let t1 = self.cur + self.size as i64;
        let mut parts: Vec<Part<'_>> = Vec::new();
        let mut i: usize = 0;
        while i < self.loaded.len()
            invariant
                i <= self.loaded@.len(),
                parts@.len() == i,
                forall|j: int|
                    0 <= j < i ==> {
                        &&& (#[trigger] parts@[j]).owner() == self.loaded@[j].1
                        &&& is_temporal_slice(
                            self.loaded@[j].1.entries(),
                            t0 as int,
                            t1 as int,
                            parts@[j].entries(),
                        )
                    },
            decreases self.loaded@.len() - i,
        {
            let owner = &self.loaded[i].1;
            let messages = owner.temporal_slice(t0, t1);
            parts.push(Part { owner, messages });
            i = i + 1;
        }
        Window { start: t0, end: t1, parts }
    }

    /// Moves on by one step: the window just handed out is counted, and the slide is
    /// over where the step is zero or the next window would end after the end of the
    /// range.
    pub fn advance(&mut self)
        requires
            old(self).ready(),
        ensures
            final(self).wf(),
            final(self).windows() == old(self).windows() + 1,
            final(self).cur() == old(self).cur() + old(self).step(),
            final(self).frontier() == old(self).frontier(),
            final(self).loads() == old(self).loads(),
            final(self).buffer() == old(self).buffer(),
            final(self).index() == old(self).index(),
            final(self).range_start() == old(self).range_start(),
            final(self).range_end() == old(self).range_end(),
            final(self).step() == old(self).step(),
            final(self).size() == old(self).size(),
            final(self).finished() <==> old(self).step() == 0 || final(self).cur() + old(
                self,
            ).size() > old(self).range_end(),
            !final(self).finished() ==> final(self).idle(),
    {
        let next: i128 = self.cur as i128 + self.step as i128;
        proof {
            lemma_window_start_next(self.start as int, self.step as int, self.windows as int);
            lemma_frontier_grows(
                (self.first, self.last),
                self.start as int,
                self.step as int,
                self.size as int,
                self.windows as int,
            );
            assert(self.windows < u128::MAX) by {
                assert(self.step as int >= 1 ==> self.windows as int * (self.step as int)
                    >= self.windows as int) by (nonlinear_arith)
                    requires
                        self.windows as int >= 0,
                ;
            }
        }
        if self.step == 0 || next + self.size as i128 > self.end as i128 {
            proof {
                if self.step > 0 {
                    lemma_window_count(
                        self.start as int,
                        self.end as int,
                        self.step as int,
                        self.size as int,
                        self.windows as int,
                    );
                } else {
                    assert(0 * (self.step as int) == 0);
                }
            }
            self.done = true;
        } else {
            self.cur = next as i64;
        }
        self.windows = self.windows + 1;
    }

    /// Whether a window is left.
    pub fn has_window(&self) -> (b: bool)
        ensures
            b == !self.finished(),
    {
        !self.done
    }

    /// What the slide has done so far.
    pub fn summary(&self) -> (s: SlideSummary)
        ensures
            s.windows == self.windows(),
            s.loads == self.loads(),
    {
        SlideSummary { windows: self.windows, loads: self.loads }
    }
}

/// When a slide is over, it has handed out `window_count` windows and asked for
/// `load_count` days.
pub proof fn lemma_finished_counts(s: &WindowSlider)
    requires
        s.wf(),
        s.finished(),
    ensures
        s.windows() == window_count(s.range_start(), s.range_end(), s.step(), s.size()),
        s.loads() == load_count(s.index(), s.range_start(), s.step(), s.size(), s.windows()),
{
}

/// The days asked for on behalf of window `k`, as the first of them and the day after
/// the last: the days from the frontier before the window up to its own frontier.
pub open spec fn days_asked(range: (i64, i64), start: int, step: int, size: int, k: int) -> (int, int) {
    (frontier_before(range, start, step, size, k), frontier_of(range, start, step, size, k))
}

/// No day is asked for twice, however far the windows overlap: the days asked for on
/// behalf of a window all lie before those asked for on behalf of any later window.
pub proof fn lemma_days_asked_once(
    range: (i64, i64),
    start: int,
    step: int,
    size: int,
    k1: int,
    k2: int,
)
    requires
        range.0 <= range.1 + 1,
        step >= 0,
        size >= 0,
        0 <= k1 < k2,
    ensures
        days_asked(range, start, step, size, k1).0 <= days_asked(range, start, step, size, k1).1,
        days_asked(range, start, step, size, k1).1 <= days_asked(range, start, step, size, k2).0,
    decreases k2 - k1,
{
    lemma_frontier_then(range, start, step, size, k1, k2 - 1);
    if k1 > 0 {
        lemma_frontier_grows(range, start, step, size, k1 - 1);
    } else {
        lemma_frontier_grows(range, start, step, size, 0);
        assert(0 * step == 0);
    }
}

/// The frontier of a window is never after that of a later window.
proof fn lemma_frontier_then(range: (i64, i64), start: int, step: int, size: int, k1: int, k2: int)
    requires
        range.0 <= range.1 + 1,
        step >= 0,
        size >= 0,
        0 <= k1 <= k2,
    ensures
        frontier_of(range, start, step, size, k1) <= frontier_of(range, start, step, size, k2),
    decreases k2 - k1,
{
    if k1 < k2 {
        lemma_frontier_then(range, start, step, size, k1, k2 - 1);
        lemma_frontier_grows(range, start, step, size, k2 - 1);
    }
}

/// No day is asked for that the index does not hold: the days asked for on behalf of a
/// window lie from the first day of the index up to its last.
pub proof fn lemma_days_asked_in_index(range: (i64, i64), start: int, step: int, size: int, k: int)
    requires
        range.0 <= range.1 + 1,
    ensures
        range.0 <= days_asked(range, start, step, size, k).0 <= range.1 + 1,
        range.0 <= days_asked(range, start, step, size, k).1 <= range.1 + 1,
{
}

/// A window misses no day: every instant of window `k` whose day the index holds lies
/// in one of the days that are buffered when the window is cut, which are the days from
/// that of the window's start up to its frontier.
pub proof fn lemma_window_days_are_buffered(
    range: (i64, i64),
    start: int,
    step: int,
    size: int,
    k: int,
    t: int,
)
    requires
        step >= 0,
        size >= 0,
        window_start(start, step, k) <= t < window_start(start, step, k) + size,
        range.0 <= day_of(t) <= range.1,
    ensures
        clamp_day(range, day_of(window_start(start, step, k))) <= day_of(t) < frontier_of(
            range,
            start,
            step,
            size,
            k,
        ),
{
    let cur = window_start(start, step, k);
    crate::calendar::lemma_day_of_monotone(cur, t);
    crate::calendar::lemma_day_of_monotone(t, cur + size + step - 1);
}

/// The window of a whole day holds the instants of that day and no others.
pub proof fn lemma_day_window(t: int, day: int)
    ensures
        in_window(t, day_start(day), day_start(day + 1)) <==> day_of(t) == day,
{
    lemma_day_holds(t, day);
}

/// A slide over `n` whole days from the day `first` on, with windows of one day one day
/// apart, hands out `n` windows, and window `k` is the day `first + k`.
pub proof fn lemma_daily_windows(first: int, n: int)
    requires
        n >= 0,
    ensures
        window_count(day_start(first), day_start(first + n), 86_400, 86_400) == n,
        forall|k: int|
            0 <= k < n ==> #[trigger] window_start(day_start(first), 86_400, k) == day_start(
                first + k,
            ),
{
}

/// In a slide over whole days from the day `first` on, with windows of one day one day
/// apart, window `k` takes from a chronological partition the messages of the day
/// `first + k` and no others.
pub proof fn lemma_daily_window_holds_its_day(
    first: int,
    k: int,
    entries: Seq<Message>,
    window: Seq<Message>,
)
    requires
        chronological(entries),
        is_temporal_slice(
            entries,
            window_start(day_start(first), 86_400, k),
            window_start(day_start(first), 86_400, k) + 86_400,
            window,
        ),
    ensures
        forall|j: int| 0 <= j < window.len() ==> day_of((#[trigger] window[j]).at()) == first + k,
        forall|i: int|
            0 <= i < entries.len() && day_of((#[trigger] entries[i]).at()) == first + k
                ==> window.contains(entries[i]),
{
    let t0 = window_start(day_start(first), 86_400, k);
    crate::message::lemma_slice_is_window(entries, t0, t0 + 86_400, window);
    assert forall|j: int| 0 <= j < window.len() implies day_of((#[trigger] window[j]).at())
        == first + k by {
        lemma_day_window(window[j].at(), first + k);
    }
    assert forall|i: int|
        0 <= i < entries.len() && day_of((#[trigger] entries[i]).at()) == first
            + k implies window.contains(entries[i]) by {
        lemma_day_window(entries[i].at(), first + k);
    }
}

/// A slide over the `n` whole days of an index that starts with the day `first`, with
/// windows of three days one day apart, hands out `n - 2` windows and asks for `n`
/// days: each day of the index once and no other.
pub proof fn lemma_overlapping_windows(first: i64, n: int)
    requires
        n >= 3,
        first + n <= i64::MAX,
    ensures
        window_count(day_start(first as int), day_start(first + n), 86_400, 259_200) == n - 2,
        load_count(
            (first, (first + n - 1) as i64),
            day_start(first as int),
            86_400,
            259_200,
            n - 2,
        ) == n,
        days_asked((first, (first + n - 1) as i64), day_start(first as int), 86_400, 259_200, 0).0
            == first,
        days_asked(
            (first, (first + n - 1) as i64),
            day_start(first as int),
            86_400,
            259_200,
            n - 3,
        ).1 == first + n,
{
}

/// Number of messages in all `parts` together.
pub open spec fn total_len(parts: Seq<Part>) -> int
    decreases parts.len(),
{
    if parts.len() == 0 {
        0
    } else {
        total_len(parts.drop_last()) + parts.last().entries().len()
    }
}

/// The number of messages is never negative.
pub proof fn lemma_total_len_nonneg(parts: Seq<Part>)
    ensures
        total_len(parts) >= 0,
    decreases parts.len(),
{
    if parts.len() > 0 {
        lemma_total_len_nonneg(parts.drop_last());
    }
}

} // verus!

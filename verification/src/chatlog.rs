//! Chat logs kept as one partition for each calendar day.

use vstd::prelude::*;
use crate::calendar::{day_start, midnight};
use crate::message::Messages;
use crate::stats::window_stats;
use crate::window::{
    lemma_finished_counts, load_count, slide_refusal, window_count, WindowSlider,
};
pub use crate::stats::WindowStats;
pub use crate::window::{SlideError, SlideSummary, Window};

verus! {

/// What a slide returns on an index of the given range of days: the reason for which it
/// cannot start, or else the number of windows it hands out and of days it asks for.
pub open spec fn slide_outcome(
    range: Option<(i64, i64)>,
    start: int,
    end: int,
    step: int,
    size: int,
    r: Result<SlideSummary, SlideError>,
) -> bool {
    match slide_refusal(range, start, end, size) {
        Some(e) => r == Err::<SlideSummary, SlideError>(e),
        None => match range {
            Some(days) => r matches Ok(s) && s.windows == window_count(start, end, step, size)
                && s.loads == load_count(days, start, step, size, s.windows as int),
            None => false,
        },
    }
}

/// The instant at which a slide over an index of the given range of days starts: the
/// start of its first day. An empty index has none, and neither has one whose first
/// day starts outside the instants that `i64` holds.
pub open spec fn start_of_index(range: Option<(i64, i64)>) -> Result<i64, SlideError> {
    match range {
        None => Err(SlideError::NotEnoughData),
        Some(r) => if i64::MIN <= day_start(r.0 as int) <= i64::MAX {
            Ok(day_start(r.0 as int) as i64)
        } else {
            Err(SlideError::InvalidTimeInterval)
        },
    }
}

/// The instant at which a slide to the end of an index of the given range of days
/// ends: the start of the day after its last. An empty index has none, and neither has
/// one whose last day ends outside the instants that `i64` holds.
pub open spec fn end_of_index(range: Option<(i64, i64)>) -> Result<i64, SlideError> {
    match range {
        None => Err(SlideError::NotEnoughData),
        Some(r) => if i64::MIN <= day_start(r.1 + 1) <= i64::MAX {
            Ok(day_start(r.1 + 1) as i64)
        } else {
            Err(SlideError::InvalidTimeInterval)
        },
    }
}

/// The start of a slide over the whole of an index of the given range of days.
pub fn index_start(range: Option<(i64, i64)>) -> (r: Result<i64, SlideError>)
    ensures
        r == start_of_index(range),
{
    match range {
        None => Err(SlideError::NotEnoughData),
        Some(days) => match midnight(days.0) {
            Some(start) => Ok(start),
            None => Err(SlideError::InvalidTimeInterval),
        },
    }
}

/// The end of a slide to the end of an index of the given range of days.
pub fn index_end(range: Option<(i64, i64)>) -> (r: Result<i64, SlideError>)
    ensures
        r == end_of_index(range),
{
    match range {
        None => Err(SlideError::NotEnoughData),
        Some(days) => {
            if days.1 == i64::MAX {
                return Err(SlideError::InvalidTimeInterval);
            }
            match midnight(days.1 + 1) {
                Some(end) => Ok(end),
                None => Err(SlideError::InvalidTimeInterval),
            }
        },
    }
}

/// What `slide_update` returns on an index of the given range of days: the refusal of
/// the range by `end_of_index`, or else what `slide` returns from `start` to that end.
pub open spec fn slide_update_outcome(
    range: Option<(i64, i64)>,
    start: int,
    step: int,
    size: int,
    r: Result<SlideSummary, SlideError>,
) -> bool {
    match end_of_index(range) {
        Err(e) => r == Err::<SlideSummary, SlideError>(e),
        Ok(end) => slide_outcome(range, start, end as int, step, size, r),
    }
}

/// What `slide_index` returns on an index of the given range of days: the refusal of
/// the range by `start_of_index`, or else what `slide_update` returns from that start.
pub open spec fn slide_index_outcome(
    range: Option<(i64, i64)>,
    step: int,
    size: int,
    r: Result<SlideSummary, SlideError>,
) -> bool {
    match start_of_index(range) {
        Err(e) => r == Err::<SlideSummary, SlideError>(e),
        Ok(start) => slide_update_outcome(range, start as int, step, size, r),
    }
}

/// A chat log whose data is stored in one partition for each day.
///
/// An implementor gives the range of its index and reads one day at a time; the slides
/// are built on these two. The range is told twice: as `range`, which the slides call,
/// and as `index_range`, which the contracts speak of. What is proved of a slide holds
/// of a log whose `range` returns what its `index_range` says. Outside verified code
/// `index_range` is written as an ordinary method with the body of `range`.
pub trait DailyChatLog {
    /// First and last day of the index as the log holds them, or `None` where it is
    /// empty.
    spec fn index_range(&self) -> Option<(i64, i64)>;

    /// First and last day of the index, or `None` where it is empty.
    fn range(&self) -> (r: Option<(i64, i64)>)
        ensures
            r == self.index_range(),
    ;

    /// Reads the partition of the day `date`, or `None` where the log has none for that
    /// day or cannot read it.
    fn load(&mut self, date: i64) -> Option<Messages>;

    /// Walks a window of `size` seconds over `start..end` in steps of `step` seconds and
    /// hands each window to `window_fn` with its start and its end.
    ///
    /// The slide is refused before anything is read where the index is empty, the range
    /// ends before it starts or is longer than the index, or the window is longer than
    /// the index. Else a window is handed out while it ends at or before `end`; with a
    /// step of zero that is the window at `start` alone. Each day of the index that a
    /// window or the step after it reaches is asked of `load` once, in the order of the
    /// days; a day that `load` cannot give counts as a day without messages.
    fn slide<F>(&mut self, start: i64, end: i64, step: u32, size: u32, window_fn: F) -> (r: Result<
        SlideSummary,
        SlideError,
    >) where F: FnMut(i64, i64, &Window), Self: Sized
        requires
            forall|t0: i64, t1: i64, w: &Window| call_requires(window_fn, (t0, t1, w)),
        ensures
            slide_outcome(
                old(self).index_range(),
                start as int,
                end as int,
                step as int,
                size as int,
                r,
            ),
    {
        let mut f = window_fn;
        let range = self.range();
        let mut slider = match WindowSlider::new(range, start, end, step, size) {
            Ok(s) => s,
            Err(e) => {
                return Err(e);
            },
        };
        while slider.has_window()
            invariant
                slider.wf(),
                !slider.finished() ==> slider.idle(),
                range == Some(slider.index()),
                slider.range_start() == start,
                slider.range_end() == end,
                slider.step() == step,
                slider.size() == size,
                !slider.finished() ==> slider.cur() + size <= end,
                forall|t0: i64, t1: i64, w: &Window| call_requires(f, (t0, t1, w)),
            decreases
                    (if slider.finished() {
                        0
                    } else {
                        end - slider.cur() + step + 1
                    }),
        {
            slider.evict();
            let ghost k = slider.windows();
            loop
                invariant_except_break
                    slider.evicted(),
                invariant
                    slider.windows() == k,
                    range == Some(slider.index()),
                    slider.range_start() == start,
                    slider.range_end() == end,
                    slider.step() == step,
                    slider.size() == size,
                ensures
                    slider.ready(),
                decreases slider.goal() - slider.frontier(),
            {
                match slider.wanted() {
                    Some(date) => {
                        let partition = self.load(date);
                        slider.accept(date, partition);
                    },
                    None => {
                        break ;
                    },
                }
            }
            let window = slider.window();
            f(window.start(), window.end(), &window);
            slider.advance();
        }
        proof {
            lemma_finished_counts(&slider);
        }
        Ok(slider.summary())
    }

    /// Slides from `start` to the end of the index: the slide ends where the day after
    /// the last day of the index starts.
    ///
    /// The end is taken from the range of the index as `index_end` says: an empty index
    /// and an index whose end cannot be told in seconds are refused there. From then on
    /// this is `slide` from `start` to that end.
    fn slide_update<F>(&mut self, start: i64, step: u32, size: u32, window_fn: F) -> (r: Result<
        SlideSummary,
        SlideError,
    >) where F: FnMut(i64, i64, &Window), Self: Sized
        requires
            forall|t0: i64, t1: i64, w: &Window| call_requires(window_fn, (t0, t1, w)),
        ensures
            slide_update_outcome(
                old(self).index_range(),
                start as int,
                step as int,
                size as int,
                r,
            ),
    {
        match index_end(self.range()) {
            Err(e) => Err(e),
            Ok(end) => self.slide(start, end, step, size, window_fn),
        }
    }

    /// Slides over the whole index: from the start of its first day to the end of its
    /// last.
    ///
    /// The start is taken from the range of the index as `index_start` says: an empty
    /// index and an index whose start cannot be told in seconds are refused there. From
    /// then on this is `slide_update` from that start.
    fn slide_index<F>(&mut self, step: u32, size: u32, window_fn: F) -> (r: Result<
        SlideSummary,
        SlideError,
    >) where F: FnMut(i64, i64, &Window), Self: Sized
        requires
            forall|t0: i64, t1: i64, w: &Window| call_requires(window_fn, (t0, t1, w)),
        ensures
            slide_index_outcome(old(self).index_range(), step as int, size as int, r),
    {
        match index_start(self.range()) {
            Err(e) => Err(e),
            Ok(start) => self.slide_update(start, step, size, window_fn),
        }
    }

    /// Slides as `slide` does, and hands `f` the token statistics of each window in
    /// place of its messages: `filter` decides which tokens are counted.
    fn slide_token_counts<F, Filter>(
        &mut self,
        start: i64,
        end: i64,
        step: u32,
        size: u32,
        f: F,
        filter: Filter,
    ) -> (r: Result<SlideSummary, SlideError>) where
        F: FnMut(i64, i64, WindowStats),
        Filter: Fn(&str) -> bool,
        Self: Sized,

        requires
            forall|t0: i64, t1: i64, s: WindowStats| call_requires(f, (t0, t1, s)),
            forall|t: &str| call_requires(filter, (t,)),
        ensures
            slide_outcome(
                old(self).index_range(),
                start as int,
                end as int,
                step as int,
                size as int,
                r,
            ),
    {
        let mut f = f;
        let range = self.range();
        let mut slider = match WindowSlider::new(range, start, end, step, size) {
            Ok(s) => s,
            Err(e) => {
                return Err(e);
            },
        };
        while slider.has_window()
            invariant
                slider.wf(),
                !slider.finished() ==> slider.idle(),
                range == Some(slider.index()),
                slider.range_start() == start,
                slider.range_end() == end,
                slider.step() == step,
                slider.size() == size,
                !slider.finished() ==> slider.cur() + size <= end,
                forall|t0: i64, t1: i64, s: WindowStats| call_requires(f, (t0, t1, s)),
                forall|t: &str| call_requires(filter, (t,)),
            decreases
                    (if slider.finished() {
                        0
                    } else {
                        end - slider.cur() + step + 1
                    }),
        {
            slider.evict();
            let ghost k = slider.windows();
            loop
                invariant_except_break
                    slider.evicted(),
                invariant
                    slider.windows() == k,
                    range == Some(slider.index()),
                    slider.range_start() == start,
                    slider.range_end() == end,
                    slider.step() == step,
                    slider.size() == size,
                ensures
                    slider.ready(),
                decreases slider.goal() - slider.frontier(),
            {
                match slider.wanted() {
                    Some(date) => {
                        let partition = self.load(date);
                        slider.accept(date, partition);
                    },
                    None => {
                        break ;
                    },
                }
            }
            let window = slider.window();
            let stats = window_stats(&window, &filter);
            f(window.start(), window.end(), stats);
            slider.advance();
        }
        proof {
            lemma_finished_counts(&slider);
        }
        Ok(slider.summary())
    }
}

} // verus!

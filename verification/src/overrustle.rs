//! The OverRustle archive: where its day partitions are, and what to read or fetch
//! under each caching policy.
//!
//! Nothing here touches the network or the disk. The functions of this module say
//! which addresses to list, which partitions to fetch and which file to read; the
//! caller does that and reports back.

use vstd::prelude::*;
use vstd::string::*;
use vstd::utf8::*;
use crate::calendar::{format_date, formatted_date, opt_chars, parse_date, parsed_date};
use crate::text::{lemma_ascii_prefix_boundary, lemma_str_bytes_valid};
use crate::util::{can_capitalize, capitalizable, capitalized, capitalized_chars};

verus! {

broadcast use {
    vstd::utf8::group_utf8_lib,
    vstd::seq::group_seq_axioms,
    vstd::slice::group_slice_axioms,
};

/// Address of the archive.
pub const BASE_URL: &'static str = "https://overrustlelogs.net";

/// The byte that parts the segments of an address.
pub const SLASH: u8 = 0x2f;

/// What the index knows of one day: where its partition is fetched from, where it is
/// kept on disk, if it is, and which day it is, in days since 1970-01-01.
pub ghost struct Partition {
    pub url: Seq<char>,
    pub path: Option<Seq<char>>,
    pub date: int,
}

/// The descriptor of one day partition.
#[derive(Debug)]
pub struct LogFileUrl {
    url: String,
    path: Option<String>,
    date: i64,
}

/// A listing entry or a file name that names no day.
#[derive(Clone, Copy, Debug, PartialEq, Eq, Structural)]
pub enum IndexError {
    /// The last segment of the entry cannot be read as a date.
    UnparsableDate,
}

/// The offset of the last `byte` among the first `n` bytes of `text`, or -1 where
/// there is none.
pub open spec fn last_byte(text: Seq<u8>, byte: u8, n: int) -> int
    decreases n,
{
    if n <= 0 {
        -1
    } else if text[n - 1] == byte {
        n - 1
    } else {
        last_byte(text, byte, n - 1)
    }
}

/// The part of an address after its last slash; the whole of it where it has none.
pub open spec fn last_segment(text: Seq<u8>) -> Seq<u8> {
    text.subrange(last_byte(text, SLASH, text.len() as int) + 1, text.len() as int)
}

/// The part of `url` after its last slash.
pub fn trailing_segment<'a>(url: &'a str) -> (segment: &'a str)
    ensures
        segment.spec_bytes() == last_segment(url.spec_bytes()),
{
    let bytes = url.as_bytes();
    let mut n: usize = bytes.len();
    while n > 0 && bytes[n - 1] != SLASH
        invariant
            n <= bytes@.len(),
            last_byte(bytes@, SLASH, bytes@.len() as int) == last_byte(bytes@, SLASH, n as int),
        decreases n,
    {
        n = n - 1;
    }
    if n == 0 {
        assert(url.spec_bytes().subrange(0, url.spec_bytes().len() as int) =~= url.spec_bytes());
        url
    } else {
        proof {
            lemma_str_bytes_valid(url);
            is_char_boundary_iff_not_is_continuation_byte(bytes@, n - 1);
        }
        let (_, tail) = url.split_at(n - 1);
        proof {
            lemma_str_bytes_valid(tail);
            assert(tail.spec_bytes()[0] == bytes@[n - 1]);
            assert forall|i: int| 0 <= i < 1 implies tail.spec_bytes()[i] <= 0x7f by {}
            lemma_ascii_prefix_boundary(tail.spec_bytes(), 1);
        }
        let (_, segment) = tail.split_at(1);
        assert(segment.spec_bytes() =~= last_segment(url.spec_bytes()));
        segment
    }
}

impl View for LogFileUrl {
    type V = Partition;

    closed spec fn view(&self) -> Partition {
        Partition {
            url: self.url@,
            path: match self.path {
                Some(p) => Some(p@),
                None => None,
            },
            date: self.date as int,
        }
    }
}

/// The address under which the archive lists the entry `href`.
pub open spec fn entry_url(href: Seq<char>) -> Seq<char> {
    BASE_URL@ + href + ".txt"@
}

/// The address of the partition of the day `file` (a date with the ending `.txt`) of
/// the month `month` (its English name, `%20` and the year) in the log of `channel`.
pub open spec fn partition_url(channel: Seq<char>, month: Seq<char>, file: Seq<char>) -> Seq<char> {
    BASE_URL@ + "/"@ + capitalized_chars(channel) + "%20chatlog/"@ + capitalized_chars(month) + "/"@
        + file
}

/// The descriptor that a file name gives, for a file at `path` in the cache of
/// `channel`: `None` where the name is no date with the ending `.txt`, or where the
/// address of its partition cannot be written.
pub open spec fn local_partition(channel: Seq<char>, file_name: Seq<char>, path: Seq<char>) -> Option<
    Partition,
> {
    match parsed_date(file_name, "%Y-%m-%d.txt"@) {
        None => None,
        Some(date) => match (
            formatted_date(date, "%B%%20%Y"@),
            formatted_date(date, "%Y-%m-%d.txt"@),
        ) {
            (Some(month), Some(file)) => if can_capitalize(month) {
                Some(
                    Partition {
                        url: partition_url(channel, month, file),
                        path: Some(path),
                        date,
                    },
                )
            } else {
                None
            },
            _ => None,
        },
    }
}

impl LogFileUrl {
    /// The descriptor of the partition that the archive lists as `url`, a path that
    /// ends in a date such as `/Forsen chatlog/July 2019/2019-07-01`.
    pub fn from_overrustle_url(url: &str) -> (r: Result<LogFileUrl, IndexError>)
        ensures
            match parsed_date(decode_utf8(last_segment(url.spec_bytes())), "%Y-%m-%d"@) {
                Some(date) => r matches Ok(l) && l@ == (Partition {
                    url: entry_url(url@),
                    path: None,
                    date,
                }),
                None => r == Err::<LogFileUrl, IndexError>(IndexError::UnparsableDate),
            },
    {
        let segment = trailing_segment(url);
        proof {
            assert(segment@ == decode_utf8(segment.spec_bytes()));
        }
        match parse_date(segment, "%Y-%m-%d") {
            Ok(date) => {
                let address = String::from_str(BASE_URL).concat(url).concat(".txt");
                Ok(LogFileUrl { url: address, path: None, date })
            },
            Err(_) => Err(IndexError::UnparsableDate),
        }
    }

    /// The descriptor of the partition kept in the file `path`, whose name is
    /// `file_name`, in the cache of `channel`.
    pub fn from_local_path(channel: &String, file_name: &str, path: String) -> (r: Option<LogFileUrl>)
        requires
            can_capitalize(channel@),
        ensures
            match local_partition(channel@, file_name@, path@) {
                Some(p) => r matches Some(l) && l@ == p,
                None => r is None,
            },
    {
        let date = match parse_date(file_name, "%Y-%m-%d.txt") {
            Ok(d) => d,
            Err(_) => {
                return None;
            },
        };
        let month = match format_date(date, "%B%%20%Y") {
            Some(m) => m,
            None => {
                return None;
            },
        };
        let file = match format_date(date, "%Y-%m-%d.txt") {
            Some(f) => f,
            None => {
                return None;
            },
        };
        if !capitalizable(month.as_str()) {
            return None;
        }
        let url = String::from_str(BASE_URL).concat("/").concat(capitalized(channel).as_str()).concat(
            "%20chatlog/",
        ).concat(capitalized(&month).as_str()).concat("/").concat(file.as_str());
        Some(LogFileUrl { url, path: Some(path), date })
    }

    /// The address from which the partition is fetched.
    pub fn url(&self) -> (u: &String)
        ensures
            u@ == self@.url,
    {
        &self.url
    }

    /// The file in which the partition is kept, where it is kept.
    pub fn path(&self) -> (p: Option<&String>)
        ensures
            match p {
                Some(s) => self@.path == Some(s@),
                None => self@.path is None,
            },
    {
        self.path.as_ref()
    }

    /// The day of the partition, in days since 1970-01-01.
    pub fn date(&self) -> (d: i64)
        ensures
            d == self@.date,
    {
        self.date
    }

    /// A copy of the descriptor.
    pub fn copy(&self) -> (r: LogFileUrl)
        ensures
            r@ == self@,
    {
        let path = match &self.path {
            Some(p) => Some(p.clone()),
            None => None,
        };
        LogFileUrl { url: self.url.clone(), path, date: self.date }
    }
}

/// What each descriptor of `index` says.
pub open spec fn views(index: Seq<LogFileUrl>) -> Seq<Partition> {
    index.map_values(|l: LogFileUrl| l@)
}

/// The days of `index` grow strictly, so each day occurs once.
pub open spec fn strictly_sorted(index: Seq<Partition>) -> bool {
    forall|i: int, j: int| 0 <= i < j < index.len() ==> index[i].date < index[j].date
}

/// The place of the day `date` in a sorted `index`: the number of its days before `date`.
pub open spec fn slot(index: Seq<Partition>, date: int) -> int
    decreases index.len(),
{
    if index.len() == 0 {
        0
    } else if index.last().date < date {
        index.len() as int
    } else {
        slot(index.drop_last(), date)
    }
}

/// In a sorted index the days before the slot of `date` are before `date`, and the
/// days from the slot on are not.
pub proof fn lemma_slot(index: Seq<Partition>, date: int)
    requires
        strictly_sorted(index),
    ensures
        0 <= slot(index, date) <= index.len(),
        forall|i: int| 0 <= i < slot(index, date) ==> index[i].date < date,
        forall|i: int| slot(index, date) <= i < index.len() ==> index[i].date >= date,
    decreases index.len(),
{
    if index.len() > 0 && index.last().date >= date {
        let before = index.drop_last();
        assert forall|i: int, j: int| 0 <= i < j < before.len() implies before[i].date
            < before[j].date by {
            assert(before[i] == index[i] && before[j] == index[j]);
        }
        lemma_slot(before, date);
        assert forall|i: int| slot(index, date) <= i < index.len() implies index[i].date
            >= date by {
            if i < before.len() {
                assert(before[i] == index[i]);
            }
        }
        assert forall|i: int| 0 <= i < slot(index, date) implies index[i].date < date by {
            assert(before[i] == index[i]);
        }
    }
}

/// Only one place of a sorted index parts the days before `date` from the others.
pub proof fn lemma_slot_unique(index: Seq<Partition>, date: int, k: int)
    requires
        strictly_sorted(index),
        0 <= k <= index.len(),
        forall|i: int| 0 <= i < k ==> index[i].date < date,
        forall|i: int| k <= i < index.len() ==> index[i].date >= date,
    ensures
        k == slot(index, date),
{
    lemma_slot(index, date);
    let s = slot(index, date);
    if k < s {
        assert(index[k].date < date);
    } else if s < k {
        assert(index[s].date >= date);
    }
}

/// Two descriptors of one day as one: the address of the first, and the file of the
/// first where it has one, else that of the second.
pub open spec fn merged(held: Partition, new: Partition) -> Partition {
    Partition {
        url: held.url,
        path: if held.path is Some {
            held.path
        } else {
            new.path
        },
        date: held.date,
    }
}

/// `index` with the descriptor `new` taken in: merged into the descriptor of its day
/// where the index has one, put at the place of its day where it has none.
pub open spec fn taken_in(index: Seq<Partition>, new: Partition) -> Seq<Partition> {
    let k = slot(index, new.date);
    if k < index.len() && index[k].date == new.date {
        index.update(k, merged(index[k], new))
    } else {
        index.insert(k, new)
    }
}

/// The index made of `found`, taken in one by one in their order.
pub open spec fn indexed(found: Seq<Partition>) -> Seq<Partition>
    decreases found.len(),
{
    if found.len() == 0 {
        Seq::empty()
    } else {
        taken_in(indexed(found.drop_last()), found.last())
    }
}

/// Taking a descriptor into a sorted index leaves it sorted.
pub proof fn lemma_taken_in_sorted(index: Seq<Partition>, new: Partition)
    requires
        strictly_sorted(index),
    ensures
        strictly_sorted(taken_in(index, new)),
{
    lemma_slot(index, new.date);
    let k = slot(index, new.date);
    let out = taken_in(index, new);
    if k < index.len() && index[k].date == new.date {
        assert forall|i: int, j: int| 0 <= i < j < out.len() implies out[i].date < out[j].date by {
            assert(out[i].date == index[i].date && out[j].date == index[j].date);
        }
    } else {
        assert forall|i: int, j: int| 0 <= i < j < out.len() implies out[i].date < out[j].date by {
            if i < k {
                assert(out[i] == index[i]);
            } else if i > k {
                assert(out[i] == index[i - 1]);
            }
            if j < k {
                assert(out[j] == index[j]);
            } else if j > k {
                assert(out[j] == index[j - 1]);
            }
        }
    }
}

/// Indexing an index again changes nothing: an index is the index of its own
/// descriptors.
pub proof fn lemma_indexed_again(index: Seq<Partition>)
    requires
        strictly_sorted(index),
    ensures
        indexed(index) == index,
    decreases index.len(),
{
    if index.len() > 0 {
        let before = index.drop_last();
        assert forall|i: int, j: int| 0 <= i < j < before.len() implies before[i].date
            < before[j].date by {
            assert(before[i] == index[i] && before[j] == index[j]);
        }
        lemma_indexed_again(before);
        assert(slot(before, index.last().date) == before.len()) by {
            if before.len() > 0 {
                assert(before.last() == index[index.len() - 2]);
            }
        }
        assert(before.insert(before.len() as int, index.last()) =~= index);
    }
}

/// The place of the day `date` in the sorted `index`, by binary search.
pub fn find_slot(index: &Vec<LogFileUrl>, date: i64) -> (k: usize)
    requires
        strictly_sorted(views(index@)),
    ensures
        k == slot(views(index@), date as int),
        k <= index@.len(),
{
    let mut lo: usize = 0;
    let mut hi: usize = index.len();
    while lo < hi
        invariant
            lo <= hi <= index@.len(),
            forall|i: int| 0 <= i < lo ==> (#[trigger] views(index@)[i]).date < date,
            forall|i: int| hi <= i < index@.len() ==> (#[trigger] views(index@)[i]).date >= date,
            strictly_sorted(views(index@)),
        decreases hi - lo,
    {
        let mid: usize = lo + (hi - lo) / 2;
        assert(views(index@)[mid as int] == index@[mid as int]@);
        if index[mid].date() < date {
            assert forall|i: int| 0 <= i < mid + 1 implies (#[trigger] views(index@)[i]).date
                < date by {
                if i < mid {
                    assert(views(index@)[i].date < views(index@)[mid as int].date);
                }
            }
            lo = mid + 1;
        } else {
            assert forall|i: int| mid <= i < index@.len() implies (#[trigger] views(
                index@,
            )[i]).date >= date by {
                if i > mid {
                    assert(views(index@)[mid as int].date < views(index@)[i].date);
                }
            }
            hi = mid;
        }
    }
    proof {
        lemma_slot_unique(views(index@), date as int, lo as int);
    }
    lo
}

/// Takes `new` into the sorted `index`.
pub fn take_in(index: &mut Vec<LogFileUrl>, new: LogFileUrl)
    requires
        strictly_sorted(views(old(index)@)),
    ensures
        views(final(index)@) == taken_in(views(old(index)@), new@),
        strictly_sorted(views(final(index)@)),
{
    let k = find_slot(index, new.date());
    let ghost before = views(index@);
    proof {
        lemma_taken_in_sorted(before, new@);
    }
    if k < index.len() && index[k].date() == new.date() {
        assert(before[k as int] == index@[k as int]@);
        if index[k].path().is_none() {
            let held = index.remove(k);
            let both = LogFileUrl { url: held.url, path: new.path, date: held.date };
            index.insert(k, both);
            assert(views(index@) =~= taken_in(before, new@));
        } else {
            assert(merged(before[k as int], new@) == before[k as int]);
            assert(views(index@) =~= taken_in(before, new@));
        }
    } else {
        if k < index.len() {
            assert(before[k as int] == index@[k as int]@);
        }
        index.insert(k, new);
        assert(views(index@) =~= taken_in(before, new@));
    }
}

/// The index of `found`: a descriptor for each of their days, in the order of the days.
/// Of several descriptors of one day the first gives the address, and the first that
/// has a file gives the file.
pub fn build_index(found: &Vec<LogFileUrl>) -> (index: Vec<LogFileUrl>)
    ensures
        views(index@) == indexed(views(found@)),
        strictly_sorted(views(index@)),
{
    let mut index: Vec<LogFileUrl> = Vec::new();
    let mut i: usize = 0;
    assert(views(found@).take(0) =~= Seq::<Partition>::empty());
    assert(views(index@) =~= Seq::<Partition>::empty());
    while i < found.len()
        invariant
            i <= found@.len(),
            views(index@) == indexed(views(found@).take(i as int)),
            strictly_sorted(views(index@)),
        decreases found@.len() - i,
    {
        proof {
            assert(views(found@).take(i + 1).drop_last() =~= views(found@).take(i as int));
            assert(views(found@).take(i + 1).last() == found@[i as int]@);
        }
        take_in(&mut index, found[i].copy());
        i = i + 1;
    }
    assert(views(found@).take(i as int) =~= views(found@));
    index
}

/// When the data of a partition is fetched, and whether it is kept on disk.
#[derive(Clone, Copy, Debug, PartialEq, Eq, Structural)]
pub enum DataLoadMode {
    /// Each partition is fetched when it is needed and is not kept.
    Remote,
    /// Each partition is fetched when it is first needed and kept on disk from then on.
    RemoteAndCache,
    /// Every partition is fetched during `sync`. One that is still missing later is
    /// fetched when it is needed and is not kept.
    Prefetch,
    /// Every partition is fetched during `sync`. One that is still missing later is
    /// fetched when it is needed and kept on disk.
    PrefetchAndCache,
    /// Only what is on disk is used.
    Local,
}

/// The lower-case form of an ASCII letter; any other character is left as it is.
pub open spec fn lower(c: char) -> char {
    if 'A' <= c <= 'Z' {
        ((c as u8) + 32) as char
    } else {
        c
    }
}

/// `text` with its ASCII letters in lower case.
pub open spec fn lowered(text: Seq<char>) -> Seq<char> {
    text.map_values(|c: char| lower(c))
}

/// The lower-case form of `text`, through `to_ascii_lowercase` of std's `str`.
///
/// Believed of that function: it maps the letters `A` to `Z` to `a` to `z` and leaves
/// every other character as it is.
#[verifier::external_body]
fn ascii_lowercase(text: &str) -> (r: String)
    ensures
        r@ == lowered(text@),
{
    text.to_ascii_lowercase()
}

/// The mode that `name` names, whatever the case of its letters.
pub open spec fn mode_named(name: Seq<char>) -> Option<DataLoadMode> {
    let l = lowered(name);
    if l == "remote"@ {
        Some(DataLoadMode::Remote)
    } else if l == "remoteandcache"@ {
        Some(DataLoadMode::RemoteAndCache)
    } else if l == "prefetch"@ {
        Some(DataLoadMode::Prefetch)
    } else if l == "prefetchandcache"@ {
        Some(DataLoadMode::PrefetchAndCache)
    } else if l == "local"@ {
        Some(DataLoadMode::Local)
    } else {
        None
    }
}

/// The name of a mode.
pub open spec fn mode_name(mode: DataLoadMode) -> Seq<char> {
    match mode {
        DataLoadMode::Local => "Local"@,
        DataLoadMode::Remote => "Remote"@,
        DataLoadMode::RemoteAndCache => "RemoteAndCache"@,
        DataLoadMode::Prefetch => "Prefetch"@,
        DataLoadMode::PrefetchAndCache => "PrefetchAndCache"@,
    }
}

/// Whether `text` is exactly `word`.
fn is_word(text: &String, word: &str) -> (b: bool)
    ensures
        b == (text@ == word@),
{
    let other = String::from_str(word);
    *text == other
}

impl DataLoadMode {
    /// Reads a mode from its name, whatever the case of its letters; any other text
    /// comes back as the error.
    pub fn parse(s: &str) -> (r: Result<DataLoadMode, String>)
        ensures
            match mode_named(s@) {
                Some(m) => r == Ok::<DataLoadMode, String>(m),
                None => r matches Err(e) && e@ == s@,
            },
    {
        let l = ascii_lowercase(s);
        if is_word(&l, "remote") {
            Ok(DataLoadMode::Remote)
        } else if is_word(&l, "remoteandcache") {
            Ok(DataLoadMode::RemoteAndCache)
        } else if is_word(&l, "prefetch") {
            Ok(DataLoadMode::Prefetch)
        } else if is_word(&l, "prefetchandcache") {
            Ok(DataLoadMode::PrefetchAndCache)
        } else if is_word(&l, "local") {
            Ok(DataLoadMode::Local)
        } else {
            Err(String::from_str(s))
        }
    }

    /// The name of the mode.
    pub fn to_string(&self) -> (r: String)
        ensures
            r@ == mode_name(*self),
    {
        match self {
            DataLoadMode::Local => String::from_str("Local"),
            DataLoadMode::Remote => String::from_str("Remote"),
            DataLoadMode::RemoteAndCache => String::from_str("RemoteAndCache"),
            DataLoadMode::Prefetch => String::from_str("Prefetch"),
            DataLoadMode::PrefetchAndCache => String::from_str("PrefetchAndCache"),
        }
    }
}

impl std::str::FromStr for DataLoadMode {
    type Err = String;

    /// Reads a mode from its name as `parse` does: whatever the case of its letters, and
    /// with any other text handed back as the error.
    fn from_str(s: &str) -> (r: Result<DataLoadMode, String>)
        ensures
            match mode_named(s@) {
                Some(m) => r == Ok::<DataLoadMode, String>(m),
                None => r matches Err(e) && e@ == s@,
            },
    {
        DataLoadMode::parse(s)
    }
}

/// `text` ends with `suffix`.
pub open spec fn is_suffix(text: Seq<u8>, suffix: Seq<u8>) -> bool {
    suffix.len() <= text.len() && text.subrange(text.len() - suffix.len(), text.len() as int)
        == suffix
}

/// Whether `text` ends with `suffix`.
pub fn ends_with(text: &str, suffix: &str) -> (b: bool)
    ensures
        b == is_suffix(text.spec_bytes(), suffix.spec_bytes()),
{
    let t = text.as_bytes();
    let s = suffix.as_bytes();
    if s.len() > t.len() {
        return false;
    }
    let shift = t.len() - s.len();
    let mut i: usize = 0;
    while i < s.len()
        invariant
            t@ == text.spec_bytes(),
            s@ == suffix.spec_bytes(),
            t@.len() <= usize::MAX,
            shift + s@.len() == t@.len(),
            i <= s@.len(),
            forall|j: int| 0 <= j < i ==> t@[shift + j] == s@[j],
        decreases s@.len() - i,
    {
        if t[shift + i] != s[i] {
            assert(t@.subrange(shift as int, t@.len() as int)[i as int] != s@[i as int]);
            return false;
        }
        i = i + 1;
    }
    assert(t@.subrange(shift as int, t@.len() as int) =~= s@);
    true
}

/// A listing entry names a day partition: it does not end in one of the names under
/// which the archive lists other things.
pub open spec fn names_partition(href: Seq<u8>) -> bool {
    &&& !is_suffix(href, "userlogs".spec_bytes())
    &&& !is_suffix(href, "broadcaster".spec_bytes())
    &&& !is_suffix(href, "subscribers".spec_bytes())
    &&& !is_suffix(href, "bans".spec_bytes())
}

/// Whether the listing entry `href` names a day partition.
pub fn is_data_entry(href: &str) -> (b: bool)
    ensures
        b == names_partition(href.spec_bytes()),
{
    !ends_with(href, "userlogs") && !ends_with(href, "broadcaster") && !ends_with(
        href,
        "subscribers",
    ) && !ends_with(href, "bans")
}

/// The descriptor that the listing entry `href` gives, or `None` where it names no
/// partition or its last segment is no date.
pub open spec fn remote_partition(href: Seq<char>) -> Option<Partition> {
    let bytes = encode_utf8(href);
    if !names_partition(bytes) {
        None
    } else {
        match parsed_date(decode_utf8(last_segment(bytes)), "%Y-%m-%d"@) {
            Some(date) => Some(Partition { url: entry_url(href), path: None, date }),
            None => None,
        }
    }
}

/// The descriptors that the listing entries `hrefs` give, in their order.
pub open spec fn remote_partitions(hrefs: Seq<String>) -> Seq<Partition>
    decreases hrefs.len(),
{
    if hrefs.len() == 0 {
        Seq::empty()
    } else {
        let before = remote_partitions(hrefs.drop_last());
        match remote_partition(hrefs.last()@) {
            Some(p) => before.push(p),
            None => before,
        }
    }
}

/// The descriptors that the files `files`, each a name and a path, give in the cache
/// of `channel`, in their order.
pub open spec fn local_partitions(channel: Seq<char>, files: Seq<(String, String)>) -> Seq<Partition>
    decreases files.len(),
{
    if files.len() == 0 {
        Seq::empty()
    } else {
        let before = local_partitions(channel, files.drop_last());
        match local_partition(channel, files.last().0@, files.last().1@) {
            Some(p) => before.push(p),
            None => before,
        }
    }
}

/// The descriptors of the partitions among the listing entries `hrefs`. An entry that
/// names something else, or whose last segment is no date, is left out.
pub fn discover_remote(hrefs: &Vec<String>) -> (found: Vec<LogFileUrl>)
    ensures
        views(found@) == remote_partitions(hrefs@),
{
    let mut found: Vec<LogFileUrl> = Vec::new();
    let mut i: usize = 0;
    assert(hrefs@.take(0) =~= Seq::<String>::empty());
    assert(views(found@) =~= Seq::<Partition>::empty());
    while i < hrefs.len()
        invariant
            i <= hrefs@.len(),
            views(found@) == remote_partitions(hrefs@.take(i as int)),
        decreases hrefs@.len() - i,
    {
        proof {
            assert(hrefs@.take(i + 1).drop_last() =~= hrefs@.take(i as int));
            assert(hrefs@.take(i + 1).last() == hrefs@[i as int]);
        }
        let href = hrefs[i].as_str();
        if is_data_entry(href) {
            let ghost held = views(found@);
            match LogFileUrl::from_overrustle_url(href) {
                Ok(l) => {
                    found.push(l);
                    assert(views(found@) =~= held.push(l@));
                },
                Err(_) => {},
            }
        }
        i = i + 1;
    }
    assert(hrefs@.take(i as int) =~= hrefs@);
    found
}

/// The descriptors of the partitions among the files `files` of the cache of
/// `channel`, each given as its name and its path. A file whose name is no date with
/// the ending `.txt` is left out.
pub fn discover_local(channel: &String, files: &Vec<(String, String)>) -> (found: Vec<LogFileUrl>)
    requires
        can_capitalize(channel@),
    ensures
        views(found@) == local_partitions(channel@, files@),
{
    let mut found: Vec<LogFileUrl> = Vec::new();
    let mut i: usize = 0;
    assert(files@.take(0) =~= Seq::<(String, String)>::empty());
    assert(views(found@) =~= Seq::<Partition>::empty());
    while i < files.len()
        invariant
            i <= files@.len(),
            can_capitalize(channel@),
            views(found@) == local_partitions(channel@, files@.take(i as int)),
        decreases files@.len() - i,
    {
        proof {
            assert(files@.take(i + 1).drop_last() =~= files@.take(i as int));
            assert(files@.take(i + 1).last() == files@[i as int]);
        }
        let ghost held = views(found@);
        match LogFileUrl::from_local_path(channel, files[i].0.as_str(), files[i].1.clone()) {
            Some(l) => {
                found.push(l);
                assert(views(found@) =~= held.push(l@));
            },
            None => {},
        }
        i = i + 1;
    }
    assert(files@.take(i as int) =~= files@);
    found
}

/// The address under which the archive lists the months of `channel`.
pub fn channel_url(channel: &String) -> (url: String)
    requires
        can_capitalize(channel@),
    ensures
        url@ == BASE_URL@ + "/"@ + capitalized_chars(channel@) + "%20chatlog/"@,
{
    String::from_str(BASE_URL).concat("/").concat(capitalized(channel).as_str()).concat(
        "%20chatlog/",
    )
}

/// The address of the listing entry `href`.
pub fn listing_url(href: &str) -> (url: String)
    ensures
        url@ == BASE_URL@ + href@,
{
    String::from_str(BASE_URL).concat(href)
}

/// The name of the file that keeps the partition of the day `date`: the date and the
/// ending `.txt`.
pub fn file_name(date: i64) -> (name: Option<String>)
    ensures
        opt_chars(name) == formatted_date(date as int, "%Y-%m-%d.txt"@),
{
    format_date(date, "%Y-%m-%d.txt")
}

/// Number of days before today whose partitions are fetched again at every `sync`: the
/// archive may still append to them.
pub const RECENT_DAYS: i64 = 2;

/// What `sync` does under a policy.
#[derive(Clone, Copy, Debug, PartialEq, Eq, Structural)]
pub struct SyncPlan {
    /// The archive's listing is read.
    pub list_remote: bool,
    /// The cache directory is scanned.
    pub scan_local: bool,
    /// Partitions that are missing or recent are fetched.
    pub prefetch: bool,
}

/// What `sync` does under `mode`.
pub open spec fn sync_plan_of(mode: DataLoadMode) -> SyncPlan {
    match mode {
        DataLoadMode::Remote => SyncPlan { list_remote: true, scan_local: false, prefetch: false },
        DataLoadMode::RemoteAndCache => SyncPlan {
            list_remote: true,
            scan_local: true,
            prefetch: false,
        },
        DataLoadMode::Prefetch => SyncPlan { list_remote: true, scan_local: true, prefetch: true },
        DataLoadMode::PrefetchAndCache => SyncPlan {
            list_remote: true,
            scan_local: true,
            prefetch: true,
        },
        DataLoadMode::Local => SyncPlan { list_remote: false, scan_local: true, prefetch: false },
    }
}

/// How to get the data of one day, as plain values.
pub ghost enum Plan {
    NotIndexed,
    Unavailable,
    Read { path: Seq<char> },
    Fetch { url: Seq<char> },
    FetchAndCache { url: Seq<char>, file_name: Seq<char> },
}

/// How to get the data of one day.
#[derive(Debug)]
pub enum LoadPlan {
    /// The index has no partition for the day.
    NotIndexed,
    /// The partition is not on disk, and the policy forbids fetching it.
    Unavailable,
    /// Read the file `path`.
    Read { path: String },
    /// Fetch `url` and keep nothing.
    Fetch { url: String },
    /// Fetch `url`, write the data to the file named `file_name` in the cache of the
    /// channel, and report the file with `record_local`.
    FetchAndCache { url: String, file_name: String },
}

impl View for LoadPlan {
    type V = Plan;

    open spec fn view(&self) -> Plan {
        match self {
            LoadPlan::NotIndexed => Plan::NotIndexed,
            LoadPlan::Unavailable => Plan::Unavailable,
            LoadPlan::Read { path } => Plan::Read { path: path@ },
            LoadPlan::Fetch { url } => Plan::Fetch { url: url@ },
            LoadPlan::FetchAndCache { url, file_name } => Plan::FetchAndCache {
                url: url@,
                file_name: file_name@,
            },
        }
    }
}

/// How the data of the partition `p` is got under `mode`, `file_name` being the name of
/// its file in the cache, where one can be written.
pub open spec fn planned(mode: DataLoadMode, p: Partition, file_name: Option<Seq<char>>) -> Plan {
    match mode {
        DataLoadMode::Remote => Plan::Fetch { url: p.url },
        DataLoadMode::Local => match p.path {
            Some(path) => Plan::Read { path },
            None => Plan::Unavailable,
        },
        DataLoadMode::Prefetch => match p.path {
            Some(path) => Plan::Read { path },
            None => Plan::Fetch { url: p.url },
        },
        DataLoadMode::RemoteAndCache | DataLoadMode::PrefetchAndCache => match p.path {
            Some(path) => Plan::Read { path },
            None => match file_name {
                Some(name) => Plan::FetchAndCache { url: p.url, file_name: name },
                None => Plan::Fetch { url: p.url },
            },
        },
    }
}

/// One partition to fetch during `sync`, as plain values.
pub ghost struct Job {
    pub date: int,
    pub url: Seq<char>,
    pub file_name: Seq<char>,
}

/// One partition to fetch during `sync`: fetch `url`, write the data to the file named
/// `file_name` in the cache of the channel, and report the file with `record_local`.
#[derive(Debug)]
pub struct FetchJob {
    pub date: i64,
    pub url: String,
    pub file_name: String,
}

impl View for FetchJob {
    type V = Job;

    open spec fn view(&self) -> Job {
        Job { date: self.date as int, url: self.url@, file_name: self.file_name@ }
    }
}

/// What each job of `jobs` says.
pub open spec fn job_views(jobs: Seq<FetchJob>) -> Seq<Job> {
    jobs.map_values(|j: FetchJob| j@)
}

/// The partition `p` is fetched at a `sync` on the day `today`: it is not on disk, or
/// it is of one of the last `RECENT_DAYS` days or later.
pub open spec fn is_due(p: Partition, today: int) -> bool {
    p.path is None || p.date >= today - RECENT_DAYS
}

/// The job of fetching `p`, or `None` where it is not due or its file cannot be named.
pub open spec fn job_for(p: Partition, today: int) -> Option<Job> {
    if !is_due(p, today) {
        None
    } else {
        match formatted_date(p.date, "%Y-%m-%d.txt"@) {
            Some(name) => Some(Job { date: p.date, url: p.url, file_name: name }),
            None => None,
        }
    }
}

/// The jobs of a `sync` on the day `today` for the partitions of `index`, in their order.
pub open spec fn due_jobs(index: Seq<Partition>, today: int) -> Seq<Job>
    decreases index.len(),
{
    if index.len() == 0 {
        Seq::empty()
    } else {
        let before = due_jobs(index.drop_last(), today);
        match job_for(index.last(), today) {
            Some(j) => before.push(j),
            None => before,
        }
    }
}

/// Number of partitions of `index` that are on disk.
pub open spec fn local_count(index: Seq<Partition>) -> int
    decreases index.len(),
{
    if index.len() == 0 {
        0
    } else {
        local_count(index.drop_last()) + if index.last().path is Some {
            1int
        } else {
            0int
        }
    }
}

/// The logs of one channel of the archive: the index of its day partitions and the
/// policy under which their data is got.
#[derive(Debug)]
pub struct OverRustleLogs {
    root_path: String,
    channel: String,
    index: Vec<LogFileUrl>,
    mode: DataLoadMode,
}

impl OverRustleLogs {
    /// The partitions of the index, in the order of their days.
    pub closed spec fn partitions(&self) -> Seq<Partition> {
        views(self.index@)
    }

    /// The policy.
    pub closed spec fn policy(&self) -> DataLoadMode {
        self.mode
    }

    /// The name of the channel.
    pub closed spec fn channel_name(&self) -> Seq<char> {
        self.channel@
    }

    /// The directory under which the caches of all channels lie.
    pub closed spec fn root(&self) -> Seq<char> {
        self.root_path@
    }

    /// The index holds each day once, in the order of the days.
    pub open spec fn wf(&self) -> bool {
        strictly_sorted(self.partitions())
    }

    /// The logs of `channel` with an empty index, to be filled by a `sync`.
    pub fn new(root_path: String, channel: String, mode: DataLoadMode) -> (r: OverRustleLogs)
        ensures
            r.wf(),
            r.partitions() == Seq::<Partition>::empty(),
            r.policy() == mode,
            r.channel_name() == channel@,
            r.root() == root_path@,
    {
        let r = OverRustleLogs { root_path, channel, index: Vec::new(), mode };
        assert(r.partitions() =~= Seq::<Partition>::empty());
        r
    }

    /// The policy.
    pub fn mode(&self) -> (m: DataLoadMode)
        ensures
            m == self.policy(),
    {
        self.mode
    }

    /// The name of the channel.
    pub fn channel(&self) -> (c: &String)
        ensures
            c@ == self.channel_name(),
    {
        &self.channel
    }

    /// The directory under which the caches of all channels lie.
    pub fn root_path(&self) -> (p: &String)
        ensures
            p@ == self.root(),
    {
        &self.root_path
    }

    /// The index.
    pub fn index(&self) -> (index: &Vec<LogFileUrl>)
        ensures
            views(index@) == self.partitions(),
    {
        &self.index
    }

    /// What `sync` has to do under the policy of these logs.
    pub fn sync_plan(&self) -> (plan: SyncPlan)
        ensures
            plan == sync_plan_of(self.policy()),
    {
        match self.mode {
            DataLoadMode::Remote => SyncPlan { list_remote: true, scan_local: false, prefetch: false },
            DataLoadMode::RemoteAndCache => SyncPlan {
                list_remote: true,
                scan_local: true,
                prefetch: false,
            },
            DataLoadMode::Prefetch => SyncPlan { list_remote: true, scan_local: true, prefetch: true },
            DataLoadMode::PrefetchAndCache => SyncPlan {
                list_remote: true,
                scan_local: true,
                prefetch: true,
            },
            DataLoadMode::Local => SyncPlan { list_remote: false, scan_local: true, prefetch: false },
        }
    }

    /// Replaces the index by that of the listing entries `hrefs` and the cache files
    /// `files`, each given as its name and its path. Descriptors of one day are merged:
    /// a partition that the archive lists and that is on disk has the archive's address
    /// and the file.
    pub fn sync(&mut self, hrefs: &Vec<String>, files: &Vec<(String, String)>)
        requires
            can_capitalize(old(self).channel_name()),
        ensures
            final(self).wf(),
            final(self).partitions() == indexed(
                remote_partitions(hrefs@) + local_partitions(old(self).channel_name(), files@),
            ),
            final(self).policy() == old(self).policy(),
            final(self).channel_name() == old(self).channel_name(),
            final(self).root() == old(self).root(),
    {
        let mut found = discover_remote(hrefs);
        let mut local = discover_local(&self.channel, files);
        let ghost a = found@;
        let ghost b = local@;
        found.append(&mut local);
        assert(views(a + b) =~= views(a) + views(b));
        self.index = build_index(&found);
    }

    /// First and last day of the index, or `None` where it is empty.
    pub fn range(&self) -> (r: Option<(i64, i64)>)
        ensures
            self.partitions().len() == 0 ==> r is None,
            self.partitions().len() > 0 ==> (r matches Some(d) && d.0 == self.partitions().first().date
                && d.1 == self.partitions().last().date),
    {
        if self.index.len() == 0 {
            None
        } else {
            let last = self.index.len() - 1;
            assert(self.partitions()[0] == self.index@[0]@);
            assert(self.partitions()[last as int] == self.index@[last as int]@);
            Some((self.index[0].date(), self.index[last].date()))
        }
    }

    /// The place of the partition of the day `date` in the index, by binary search.
    pub fn find(&self, date: i64) -> (at: Option<usize>)
        requires
            self.wf(),
        ensures
            match at {
                Some(k) => k < self.partitions().len() && self.partitions()[k as int].date == date,
                None => forall|i: int|
                    0 <= i < self.partitions().len() ==> (#[trigger] self.partitions()[i]).date
                        != date,
            },
    {
        let k = find_slot(&self.index, date);
        proof {
            lemma_slot(self.partitions(), date as int);
        }
        if k < self.index.len() {
            assert(self.partitions()[k as int] == self.index@[k as int]@);
            if self.index[k].date() == date {
                return Some(k);
            }
        }
        assert forall|i: int| 0 <= i < self.partitions().len() implies (#[trigger] self.partitions()[i]).date
            != date by {
            if i > k {
                assert(self.partitions()[k as int].date < self.partitions()[i].date);
            }
        }
        None
    }

    /// How to get the data of the day `date` under the policy of these logs.
    pub fn load_plan(&self, date: i64) -> (plan: LoadPlan)
        requires
            self.wf(),
        ensures
            plan@ == (if exists|i: int|
                0 <= i < self.partitions().len() && (#[trigger] self.partitions()[i]).date == date {
                planned(
                    self.policy(),
                    self.partitions()[slot(self.partitions(), date as int)],
                    formatted_date(date as int, "%Y-%m-%d.txt"@),
                )
            } else {
                Plan::NotIndexed
            }),
    {
        let k = match self.find(date) {
            Some(k) => k,
            None => {
                return LoadPlan::NotIndexed;
            },
        };
        proof {
            lemma_slot(self.partitions(), date as int);
            let s = slot(self.partitions(), date as int);
            if s < k {
                assert(self.partitions()[s].date < self.partitions()[k as int].date);
            } else if k < s {
                assert(self.partitions()[k as int].date < date);
            }
            assert(self.partitions()[k as int] == self.index@[k as int]@);
        }
        let entry = &self.index[k];
        match self.mode {
            DataLoadMode::Remote => LoadPlan::Fetch { url: entry.url().clone() },
            DataLoadMode::Local => match entry.path() {
                Some(path) => LoadPlan::Read { path: path.clone() },
                None => LoadPlan::Unavailable,
            },
            DataLoadMode::Prefetch => match entry.path() {
                Some(path) => LoadPlan::Read { path: path.clone() },
                None => LoadPlan::Fetch { url: entry.url().clone() },
            },
            DataLoadMode::RemoteAndCache | DataLoadMode::PrefetchAndCache => match entry.path() {
                Some(path) => LoadPlan::Read { path: path.clone() },
                None => match file_name(date) {
                    Some(name) => LoadPlan::FetchAndCache {
                        url: entry.url().clone(),
                        file_name: name,
                    },
                    None => LoadPlan::Fetch { url: entry.url().clone() },
                },
            },
        }
    }

    /// Notes that the partition of the day `date` is now kept in the file `path`.
    /// Returns whether the index has that day.
    pub fn record_local(&mut self, date: i64, path: String) -> (known: bool)
        requires
            old(self).wf(),
        ensures
            final(self).wf(),
            final(self).policy() == old(self).policy(),
            final(self).channel_name() == old(self).channel_name(),
            final(self).root() == old(self).root(),
            known == exists|i: int|
                0 <= i < old(self).partitions().len() && (#[trigger] old(self).partitions()[i]).date
                    == date,
            known ==> final(self).partitions() == old(self).partitions().update(
                slot(old(self).partitions(), date as int),
                Partition {
                    path: Some(path@),
                    ..old(self).partitions()[slot(old(self).partitions(), date as int)]
                },
            ),
            !known ==> final(self).partitions() == old(self).partitions(),
    {
        let k = match self.find(date) {
            Some(k) => k,
            None => {
                return false;
            },
        };
        let ghost before = self.partitions();
        proof {
            lemma_slot(before, date as int);
            let s = slot(before, date as int);
            if s < k {
                assert(before[s].date < before[k as int].date);
            } else if k < s {
                assert(before[k as int].date < date);
            }
            assert(before[k as int] == self.index@[k as int]@);
        }
        let held = self.index.remove(k);
        let now = LogFileUrl { url: held.url, path: Some(path), date: held.date };
        self.index.insert(k, now);
        proof {
            assert(self.partitions() =~= before.update(
                k as int,
                Partition { path: Some(path@), ..before[k as int] },
            ));
            assert forall|i: int, j: int| 0 <= i < j < self.partitions().len() implies self.partitions()[i].date
                < self.partitions()[j].date by {
                assert(self.partitions()[i].date == before[i].date);
                assert(self.partitions()[j].date == before[j].date);
            }
        }
        true
    }

    /// The partitions to fetch at a `sync` on the day `today`, in the order of their
    /// days: those that are not on disk and those of the last days, which may have
    /// grown since they were fetched.
    pub fn fetch_list(&self, today: i64) -> (jobs: Vec<FetchJob>)
        ensures
            job_views(jobs@) == due_jobs(self.partitions(), today as int),
    {
        let mut jobs: Vec<FetchJob> = Vec::new();
        let mut i: usize = 0;
        let ghost index = self.partitions();
        assert(index.take(0) =~= Seq::<Partition>::empty());
        assert(job_views(jobs@) =~= Seq::<Job>::empty());
        while i < self.index.len()
            invariant
                i <= self.index@.len(),
                index == views(self.index@),
                job_views(jobs@) == due_jobs(index.take(i as int), today as int),
            decreases self.index@.len() - i,
        {
            proof {
                assert(index.take(i + 1).drop_last() =~= index.take(i as int));
                assert(index.take(i + 1).last() == self.index@[i as int]@);
            }
            let entry = &self.index[i];
            let due = entry.path().is_none() || entry.date() as i128 >= today as i128 - RECENT_DAYS as i128;
            if due {
                match file_name(entry.date()) {
                    Some(name) => {
                        let ghost held = job_views(jobs@);
                        let job = FetchJob { date: entry.date(), url: entry.url().clone(), file_name: name };
                        jobs.push(job);
                        assert(job_views(jobs@) =~= held.push(job@));
                    },
                    None => {},
                }
            }
            i = i + 1;
        }
        assert(index.take(i as int) =~= index);
        jobs
    }

    /// Number of partitions that are on disk.
    pub fn n_local(&self) -> (n: usize)
        ensures
            n == local_count(self.partitions()),
    {
        let mut n: usize = 0;
        let mut i: usize = 0;
        let ghost index = self.partitions();
        assert(index.take(0) =~= Seq::<Partition>::empty());
        while i < self.index.len()
            invariant
                i <= self.index@.len(),
                index == views(self.index@),
                n == local_count(index.take(i as int)),
                n <= i,
            decreases self.index@.len() - i,
        {
            proof {
                assert(index.take(i + 1).drop_last() =~= index.take(i as int));
                assert(index.take(i + 1).last() == self.index@[i as int]@);
            }
            if self.index[i].path().is_some() {
                n = n + 1;
            }
            i = i + 1;
        }
        assert(index.take(i as int) =~= index);
        n
    }
}

} // verus!

//! Work-log files: classifying lines, the parsing state machine that
//! builds one `WorkDay` per file, the segmenter that turns timestamped
//! entries into duration-bearing ones, and the per-key summaries.
use crate::dates::ClockTime;
use crate::dates::Date;
use crate::dates::Duration;
use crate::required_time;
use crate::util::all_digits_range;
use crate::util::char_at_is;
use crate::util::chars_vec;
use crate::util::check_date_shape;
use crate::util::check_digits;
use crate::util::clone_string_vec;
use crate::util::date_at;
use crate::util::date_shape_at;
use crate::util::date_value_at;
use crate::util::digits_val;
use crate::util::digits_value;
use crate::util::first_occ;
use crate::util::lemma_first_occ;
use crate::util::lemma_lines_count;
use crate::util::lex_lt;
use crate::util::spec_lines;
use crate::util::spec_strip_nl;
use crate::util::split_lines;
use crate::util::string_from_range;
use crate::util::str_lex_lt;
use crate::util::subvec;
use crate::Error;
use vstd::prelude::*;
use vstd::string::StringExecFns;

verus! {

/// One raw entry as written: its header's date and clock time, the parsed
/// activity key and sub-keys, and the verbatim source text (header line
/// plus continuation lines).
#[derive(Debug, PartialEq, Eq)]
pub struct EntryRaw {
    pub date: Date,
    pub start_ts: ClockTime,
    pub key: String,
    pub sub_keys: Vec<String>,
    pub raw_data: String,
}

/// Whether two raw entries agree in every field (sub-keys compared as
/// sequences).
pub open spec fn entry_raw_like(a: EntryRaw, b: EntryRaw) -> bool {
    &&& a.date == b.date
    &&& a.start_ts == b.start_ts
    &&& a.key == b.key
    &&& a.sub_keys@ == b.sub_keys@
    &&& a.raw_data == b.raw_data
}

impl Clone for EntryRaw {
    /// A clone agrees with the original in every field.
    fn clone(&self) -> (r: EntryRaw)
        ensures
            entry_raw_like(r, *self),
    {
        let r = EntryRaw {
            date: self.date,
            start_ts: self.start_ts,
            key: self.key.clone(),
            sub_keys: clone_string_vec(&self.sub_keys),
            raw_data: self.raw_data.clone(),
        };
        r
    }
}

/// One logged activity interval: start time, duration to the next entry,
/// activity key and sub-keys, and the verbatim source text.
#[derive(Debug, PartialEq, Eq)]
pub struct Entry {
    pub start_ts: ClockTime,
    pub duration: Duration,
    pub key: String,
    pub sub_keys: Vec<String>,
    pub raw_data: String,
}

/// Whether two entries agree in every field (sub-keys compared as
/// sequences).
pub open spec fn entry_like(a: Entry, b: Entry) -> bool {
    &&& a.start_ts == b.start_ts
    &&& a.duration == b.duration
    &&& a.key == b.key
    &&& a.sub_keys@ == b.sub_keys@
    &&& a.raw_data == b.raw_data
}

impl Clone for Entry {
    /// A clone agrees with the original in every field.
    fn clone(&self) -> (r: Entry)
        ensures
            entry_like(r, *self),
    {
        Entry {
            start_ts: self.start_ts,
            duration: self.duration,
            key: self.key.clone(),
            sub_keys: clone_string_vec(&self.sub_keys),
            raw_data: self.raw_data.clone(),
        }
    }
}

/// One calendar day's parsed log: its date, the chronologically ordered
/// entries, and the free-form trailing annotation text.
#[derive(Debug, PartialEq, Eq)]
pub struct WorkDay {
    pub date: Date,
    pub entries: Vec<Entry>,
    pub additional_text: String,
}

/// Whether two work days agree in every field (entries compared
/// element for element).
pub open spec fn work_day_like(a: WorkDay, b: WorkDay) -> bool {
    &&& a.date == b.date
    &&& a.additional_text == b.additional_text
    &&& a.entries@.len() == b.entries@.len()
    &&& forall|k: int|
        0 <= k < a.entries@.len() ==> entry_like(#[trigger] a.entries@[k], b.entries@[k])
}

impl Clone for WorkDay {
    /// A clone agrees with the original in every field.
    fn clone(&self) -> (r: WorkDay)
        ensures
            work_day_like(r, *self),
    {
        let mut entries: Vec<Entry> = Vec::new();
        let mut i: usize = 0;
        while i < self.entries.len()
            invariant
                i <= self.entries@.len(),
                entries@.len() == i,
                forall|k: int|
                    0 <= k < i ==> entry_like(#[trigger] entries@[k], self.entries@[k]),
            decreases self.entries@.len() - i,
        {
            entries.push(self.entries[i].clone());
            i = i + 1;
        }
        WorkDay { date: self.date, entries, additional_text: self.additional_text.clone() }
    }
}

/// The shape of an entry-header line: the date and clock-time fields as
/// written (unvalidated) and the description tail.
pub struct HeaderShape {
    pub date: Date,
    pub time: ClockTime,
    pub desc: Seq<char>,
}

/// Whether `s` holds an `HH:MM` shape at position `k`.
pub open spec fn time_shape_at(s: Seq<char>, k: int) -> bool {
    &&& 0 <= k && k + 5 <= s.len()
    &&& all_digits_range(s, k, k + 2)
    &&& s[k + 2] == ':'
    &&& all_digits_range(s, k + 3, k + 5)
}

/// The clock-time fields written at position `k` (unvalidated).
pub open spec fn time_value_at(s: Seq<char>, k: int) -> ClockTime {
    ClockTime {
        hour: digits_val(s.subrange(k, k + 2)) as u32,
        minute: digits_val(s.subrange(k + 3, k + 5)) as u32,
    }
}

/// Whether `s` holds the ` -- ` separator at position `k`.
pub open spec fn sep_shape_at(s: Seq<char>, k: int) -> bool {
    &&& 0 <= k && k + 4 <= s.len()
    &&& s[k] == ' '
    &&& s[k + 1] == '-'
    &&& s[k + 2] == '-'
    &&& s[k + 3] == ' '
}

/// Classifies a line: an entry header
/// `-- YYYY-MM-DD [token ]HH:MM -- description` yields its fields, any
/// other line is a continuation line.  A weekday token, when present, is
/// a non-blank word between the date and the time.
pub open spec fn spec_header(line: Seq<char>) -> Option<HeaderShape> {
    let s = spec_strip_nl(line);
    if !(s.len() >= 14 && s[0] == '-' && s[1] == '-' && s[2] == ' ' && date_shape_at(s, 3) && s[13]
        == ' ') {
        None
    } else {
        let j = 14 + first_occ(s.skip(14), ' ');
        if j > 14 && j < s.len() && time_shape_at(s, j + 1) && sep_shape_at(s, j + 6) {
            Some(
                HeaderShape {
                    date: date_value_at(s, 3),
                    time: time_value_at(s, j + 1),
                    desc: s.skip(j + 10),
                },
            )
        } else if time_shape_at(s, 14) && sep_shape_at(s, 19) {
            Some(
                HeaderShape {
                    date: date_value_at(s, 3),
                    time: time_value_at(s, 14),
                    desc: s.skip(23),
                },
            )
        } else {
            None
        }
    }
}

/// Whether `v` holds an `HH:MM` shape at position `k`.
fn check_time_shape(v: &Vec<char>, k: usize) -> (b: bool)
    ensures
        b == time_shape_at(v@, k as int),
{
    if k > v.len() || v.len() - k < 5 {
        return false;
    }
    if !check_digits(v, k, k + 2) {
        return false;
    }
    if !char_at_is(v, k + 2, ':') {
        return false;
    }
    check_digits(v, k + 3, k + 5)
}

/// Reads the clock-time fields written at position `k`.
fn time_at(v: &Vec<char>, k: usize) -> (t: ClockTime)
    requires
        time_shape_at(v@, k as int),
    ensures
        t == time_value_at(v@, k as int),
{
    let n = v.len();
    assert(k + 5 <= n);
    let hour = digits_value(v, k, k + 2);
    let minute = digits_value(v, k + 3, k + 5);
    ClockTime { hour, minute }
}

/// Whether `v` holds the ` -- ` separator at position `k`.
fn check_sep_shape(v: &Vec<char>, k: usize) -> (b: bool)
    ensures
        b == sep_shape_at(v@, k as int),
{
    if k > v.len() || v.len() - k < 4 {
        return false;
    }
    char_at_is(v, k, ' ') && char_at_is(v, k + 1, '-') && char_at_is(v, k + 2, '-') && char_at_is(
        v,
        k + 3,
        ' ',
    )
}

/// Classifies one line, as `spec_header` describes.
fn header_shape(line: &Vec<char>) -> (r: Option<(Date, ClockTime, Vec<char>)>)
    ensures
        match spec_header(line@) {
            None => r is None,
            Some(h) => {
                &&& r matches Some((d, t, desc))
                &&& d == h.date
                &&& t == h.time
                &&& desc@ == h.desc
            },
        },
{
    let e0 = if line.len() > 0 && char_at_is(line, line.len() - 1, '\n') {
        line.len() - 1
    } else {
        line.len()
    };
    let s = subvec(line, 0, e0);
    proof {
        assert(s@ =~= spec_strip_nl(line@));
    }
    if s.len() < 14 {
        return None;
    }
    if !char_at_is(&s, 0, '-') || !char_at_is(&s, 1, '-') || !char_at_is(&s, 2, ' ')
        || !check_date_shape(&s, 3) || !char_at_is(&s, 13, ' ') {
        return None;
    }
    let j = crate::util::find_char(&s, 14, ' ');
    if j > 14 && j < s.len() && check_time_shape(&s, j + 1) && check_sep_shape(&s, j + 6) {
        let desc = subvec(&s, j + 10, s.len());
        proof {
            assert(s@.subrange(j + 10, s@.len() as int) =~= s@.skip(j + 10));
        }
        return Some((date_at(&s, 3), time_at(&s, j + 1), desc));
    }
    if check_time_shape(&s, 14) && check_sep_shape(&s, 19) {
        let desc = subvec(&s, 23, s.len());
        proof {
            assert(s@.subrange(23, s@.len() as int) =~= s@.skip(23));
        }
        return Some((date_at(&s, 3), time_at(&s, 14), desc));
    }
    None
}

/// The characters that delimit tokens of a description: blanks, tabs and
/// colons.
pub open spec fn is_delim(c: char) -> bool {
    c == ' ' || c == '\t' || c == ':'
}

/// The index of the first delimiter in `s`, or `s.len()`.
pub open spec fn first_delim(s: Seq<char>) -> int
    decreases s.len(),
{
    if s.len() == 0 {
        0
    } else if is_delim(s[0]) {
        0
    } else {
        1 + first_delim(s.drop_first())
    }
}

/// The non-empty tokens of a description, in order.
pub open spec fn spec_tokens(s: Seq<char>) -> Seq<Seq<char>>
    decreases s.len(),
{
    if s.len() == 0 {
        Seq::empty()
    } else if is_delim(s[0]) {
        spec_tokens(s.drop_first())
    } else {
        let t = first_delim(s);
        if 1 <= t <= s.len() {
            seq![s.take(t)] + spec_tokens(s.skip(t))
        } else {
            seq![s]
        }
    }
}

/// The key and the sub-keys of a description: the first non-empty token,
/// and all later ones, order preserved.  An all-blank description has an
/// empty key and no sub-keys.
pub open spec fn spec_description(desc: Seq<char>) -> (Seq<char>, Seq<Seq<char>>) {
    let toks = spec_tokens(desc);
    if toks.len() == 0 {
        (Seq::empty(), Seq::empty())
    } else {
        (toks[0], toks.drop_first())
    }
}

/// `first_delim` names a delimiter position, or the length; nothing
/// before it is a delimiter.
proof fn lemma_first_delim(s: Seq<char>)
    ensures
        0 <= first_delim(s) <= s.len(),
        first_delim(s) < s.len() ==> is_delim(s[first_delim(s)]),
        forall|i: int| 0 <= i < first_delim(s) ==> !is_delim(#[trigger] s[i]),
    decreases s.len(),
{
    if s.len() > 0 && !is_delim(s[0]) {
        lemma_first_delim(s.drop_first());
        assert forall|i: int| 0 <= i < first_delim(s) implies !is_delim(#[trigger] s[i]) by {
            if i > 0 {
                assert(s.drop_first()[i - 1] == s[i]);
            }
        }
    }
}

/// Whether the character at `i` is a delimiter.
fn delim_at(v: &Vec<char>, i: usize) -> (b: bool)
    requires
        i < v.len(),
    ensures
        b == is_delim(v@[i as int]),
{
    char_at_is(v, i, ' ') || char_at_is(v, i, '\t') || char_at_is(v, i, ':')
}

/// The tokens of a description, as `spec_tokens` describes.
#[verifier::rlimit(100)]
fn tokenize(v: &Vec<char>) -> (r: Vec<String>)
    ensures
        r@.len() == spec_tokens(v@).len(),
        forall|k: int| 0 <= k < r@.len() ==> #[trigger] r@[k]@ == spec_tokens(v@)[k],
{
    let mut r: Vec<String> = Vec::new();
    let ghost mut tv: Seq<Seq<char>> = Seq::empty();
    let mut pos: usize = 0;
    proof {
        assert(v@.skip(0) =~= v@);
        assert(spec_tokens(v@) =~= tv + spec_tokens(v@));
    }
    while pos < v.len()
        invariant
            pos <= v@.len(),
            tv.len() == r@.len(),
            forall|k: int| 0 <= k < r@.len() ==> #[trigger] r@[k]@ == tv[k],
            spec_tokens(v@) == tv + spec_tokens(v@.skip(pos as int)),
        decreases v.len() - pos,
    {
        let ghost rest = v@.skip(pos as int);
        if delim_at(v, pos) {
            proof {
                assert(rest[0] == v@[pos as int]);
                assert(rest.drop_first() =~= v@.skip(pos + 1));
            }
            pos = pos + 1;
        } else {
            proof {
                assert(rest[0] == v@[pos as int]);
                lemma_first_delim(rest);
            }
            let mut t: usize = pos + 1;
            proof {
                assert(rest.take(1) =~= v@.subrange(pos as int, pos + 1));
            }
            while t < v.len() && !delim_at(v, t)
                invariant
                    pos < t <= v@.len(),
                    forall|i: int| pos <= i < t ==> !is_delim(#[trigger] v@[i]),
                decreases v.len() - t,
            {
                t = t + 1;
            }
            proof {
                assert forall|i: int| 0 <= i < t - pos implies !is_delim(#[trigger] rest[i]) by {
                    assert(rest[i] == v@[pos + i]);
                }
                if t < v@.len() {
                    assert(rest[t - pos] == v@[t as int]);
                }
                assert(first_delim(rest) == t - pos) by {
                    if first_delim(rest) < t - pos {
                        assert(is_delim(rest[first_delim(rest)]));
                    }
                    if first_delim(rest) > t - pos {
                        assert(t - pos < rest.len());
                        assert(!is_delim(rest[t - pos]));
                    }
                }
                assert(rest.take(t - pos) =~= v@.subrange(pos as int, t as int));
                assert(rest.skip(t - pos) =~= v@.skip(t as int));
                assert(spec_tokens(rest) == seq![rest.take(t - pos)] + spec_tokens(
                    v@.skip(t as int),
                ));
                assert((tv + seq![rest.take(t - pos)]) + spec_tokens(v@.skip(t as int)) =~= tv
                    + spec_tokens(rest));
                tv = tv + seq![rest.take(t - pos)];
            }
            r.push(string_from_range(v, pos, t));
            pos = t;
        }
    }
    proof {
        assert(v@.skip(pos as int) =~= Seq::<char>::empty());
        assert(spec_tokens(v@) =~= tv);
    }
    r
}

/// Splits a description into its key and sub-keys, as `spec_description`
/// describes.
fn parse_description(desc: &Vec<char>) -> (r: (String, Vec<String>))
    ensures
        r.0@ == spec_description(desc@).0,
        r.1@.len() == spec_description(desc@).1.len(),
        forall|k: int|
            0 <= k < r.1@.len() ==> #[trigger] r.1@[k]@ == spec_description(desc@).1[k],
{
    let mut toks = tokenize(desc);
    if toks.len() == 0 {
        (String::new(), toks)
    } else {
        let key = toks.remove(0);
        (key, toks)
    }
}

/// The segmented form of raw entries: order kept, each entry's duration
/// the distance to its successor's start, the last one's zero.
pub open spec fn spec_segment_dur(raws: Seq<EntryRaw>, i: int) -> int {
    if i + 1 < raws.len() {
        raws[i + 1].start_ts.spec_minute_of_day() - raws[i].start_ts.spec_minute_of_day()
    } else {
        0
    }
}

impl Entry {
    /// Converts timestamped raw entries into duration-bearing entries by
    /// adjacent differencing: entry `i` lasts until entry `i + 1` starts,
    /// and the last entry has duration zero.
    pub fn from(entries: Vec<EntryRaw>) -> (r: Vec<Entry>)
        requires
            forall|i: int|
                0 <= i < entries@.len() ==> (#[trigger] entries@[i]).start_ts.valid(),
            forall|i: int|
                0 <= i && i + 1 < entries@.len() ==> (#[trigger] entries@[i]).start_ts.spec_minute_of_day()
                    <= entries@[i + 1].start_ts.spec_minute_of_day(),
        ensures
            r@.len() == entries@.len(),
            forall|i: int|
                0 <= i < r@.len() ==> {
                    let e = #[trigger] r@[i];
                    &&& e.start_ts == entries@[i].start_ts
                    &&& e.duration@ == spec_segment_dur(entries@, i)
                    &&& e.key == entries@[i].key
                    &&& e.sub_keys@ == entries@[i].sub_keys@
                    &&& e.raw_data == entries@[i].raw_data
                },
            forall|i: int| 0 <= i < r@.len() ==> (#[trigger] r@[i]).duration@ >= 0,
            r@.len() > 0 ==> r@[r@.len() - 1].duration@ == 0,
    {
        let mut r: Vec<Entry> = Vec::new();
        let mut i: usize = 0;
        while i < entries.len()
            invariant
                i <= entries@.len(),
                r@.len() == i,
                forall|k: int|
                    0 <= k < i ==> {
                        let e = #[trigger] r@[k];
                        &&& e.start_ts == entries@[k].start_ts
                        &&& e.duration@ == spec_segment_dur(entries@, k)
                        &&& e.key == entries@[k].key
                        &&& e.sub_keys@ == entries@[k].sub_keys@
                        &&& e.raw_data == entries@[k].raw_data
                    },
            decreases entries.len() - i,
        {
            let cur = &entries[i];
            let duration: Duration = if i + 1 < entries.len() {
                let a = cur.start_ts.minute_of_day();
                let b = entries[i + 1].start_ts.minute_of_day();
                Duration::minutes((b - a) as i64)
            } else {
                Duration::zero()
            };
            r.push(
                Entry {
                    start_ts: cur.start_ts,
                    duration,
                    key: cur.key.clone(),
                    sub_keys: clone_string_vec(&cur.sub_keys),
                    raw_data: cur.raw_data.clone(),
                },
            );
            proof {
                assert(r@[i as int].sub_keys@ =~= entries@[i as int].sub_keys@);
            }
            i = i + 1;
        }
        r
    }
}

/// The segmenter's guarantees, for every chronologically ordered input:
/// start times are kept and non-decreasing, every duration is
/// non-negative, and the final entry's duration is exactly zero.
pub proof fn lemma_segmenter_properties(entries: Seq<EntryRaw>, r: Seq<Entry>)
    requires
        forall|i: int| 0 <= i < entries.len() ==> (#[trigger] entries[i]).start_ts.valid(),
        forall|i: int|
            0 <= i && i + 1 < entries.len() ==> (#[trigger] entries[i]).start_ts.spec_minute_of_day()
                <= entries[i + 1].start_ts.spec_minute_of_day(),
        r.len() == entries.len(),
        forall|i: int|
            0 <= i < r.len() ==> (#[trigger] r[i]).start_ts == entries[i].start_ts && r[i].duration@
                == spec_segment_dur(entries, i),
    ensures
        forall|i: int|
            0 <= i && i + 1 < r.len() ==> (#[trigger] r[i]).start_ts.spec_minute_of_day() <= r[i
                + 1].start_ts.spec_minute_of_day(),
        forall|i: int| 0 <= i < r.len() ==> (#[trigger] r[i]).duration@ >= 0,
        r.len() > 0 ==> r[r.len() - 1].duration@ == 0,
{
    assert forall|i: int|
        0 <= i && i + 1 < r.len() implies (#[trigger] r[i]).start_ts.spec_minute_of_day() <= r[i
        + 1].start_ts.spec_minute_of_day() by {
        assert(r[i].start_ts == entries[i].start_ts);
        assert(r[i + 1].start_ts == entries[i + 1].start_ts);
    }
}

/// One raw entry, abstractly: what `EntryRaw` holds, over sequences.
pub struct RawRec {
    pub date: Date,
    pub time: ClockTime,
    pub key: Seq<char>,
    pub subs: Seq<Seq<char>>,
    pub raw: Seq<char>,
}

/// The abstraction of one raw entry.
pub open spec fn raw_rec_of(e: EntryRaw) -> RawRec {
    RawRec {
        date: e.date,
        time: e.start_ts,
        key: e.key@,
        subs: Seq::new(e.sub_keys@.len(), |j: int| e.sub_keys@[j]@),
        raw: e.raw_data@,
    }
}

/// The abstraction of a list of raw entries.
pub open spec fn raws_rec_of(v: Seq<EntryRaw>) -> Seq<RawRec> {
    Seq::new(v.len(), |i: int| raw_rec_of(v[i]))
}

/// The parser's states: skipping leading blank and comment lines,
/// collecting entries, or collecting trailing annotation text.
pub enum PState {
    Skipping,
    InEntries { date: Date, cur: RawRec, done: Seq<RawRec> },
    Trailing { date: Option<Date>, done: Seq<RawRec>, text: Seq<char> },
}

/// How parsing one work-day file can fail.
pub enum WdErr {
    /// A header names an impossible calendar date.
    BadDate,
    /// A header names an impossible clock time.
    BadTime,
    /// A header dated differently from the day the file is for.
    Unexpected { line: int, expected: Date, found: Date },
    /// A header earlier than its predecessor.
    NonMonotonic { line: int },
    /// A header after the blank line that closed the entries block.
    AfterSep { line: int },
    /// No date could be determined for the file.
    NoDate,
    /// The last entry is not the final pause (strict mode only).
    NoPause,
}

/// A blank line: empty, or a lone newline.
pub open spec fn is_blank(line: Seq<char>) -> bool {
    line.len() == 0 || (line.len() == 1 && line[0] == '\n')
}

/// A comment line: it starts with a number sign.
pub open spec fn is_comment(line: Seq<char>) -> bool {
    line.len() > 0 && line[0] == '#'
}

/// The raw entry a header line starts.
pub open spec fn start_entry(h: HeaderShape, line: Seq<char>) -> RawRec {
    RawRec {
        date: h.date,
        time: h.time,
        key: spec_description(h.desc).0,
        subs: spec_description(h.desc).1,
        raw: line,
    }
}

/// One step of the parsing state machine on line number `n` (1-based).
/// Blank and comment lines are skipped while leading, close the entries
/// block inside it, and comments stay invisible in the trailing text.  A
/// header is validated, must repeat the day's date, and must not run
/// backwards in time; in the trailing text it is an error outright.
pub open spec fn spec_wd_step(st: PState, line: Seq<char>, n: int, expected0: Option<Date>) -> Result<
    PState,
    WdErr,
> {
    match st {
        PState::Skipping => {
            if is_blank(line) || is_comment(line) {
                Ok(PState::Skipping)
            } else {
                match spec_header(line) {
                    None => Ok(
                        PState::Trailing { date: expected0, done: Seq::empty(), text: Seq::empty() },
                    ),
                    Some(h) => {
                        if !h.date.valid() {
                            Err(WdErr::BadDate)
                        } else if !(h.time.hour < 24 && h.time.minute < 60) {
                            Err(WdErr::BadTime)
                        } else if expected0 matches Some(ed) && ed != h.date {
                            Err(WdErr::Unexpected { line: n, expected: expected0->0, found: h.date })
                        } else {
                            Ok(
                                PState::InEntries {
                                    date: h.date,
                                    cur: start_entry(h, line),
                                    done: Seq::empty(),
                                },
                            )
                        }
                    },
                }
            }
        },
        PState::InEntries { date, cur, done } => {
            if is_blank(line) || is_comment(line) {
                Ok(PState::Trailing { date: Some(date), done: done.push(cur), text: Seq::empty() })
            } else {
                match spec_header(line) {
                    None => Ok(
                        PState::InEntries {
                            date,
                            cur: RawRec { raw: cur.raw + line, ..cur },
                            done,
                        },
                    ),
                    Some(h) => {
                        if !h.date.valid() {
                            Err(WdErr::BadDate)
                        } else if !(h.time.hour < 24 && h.time.minute < 60) {
                            Err(WdErr::BadTime)
                        } else if h.date != date {
                            Err(WdErr::Unexpected { line: n, expected: date, found: h.date })
                        } else if h.time.spec_minute_of_day() < cur.time.spec_minute_of_day() {
                            Err(WdErr::NonMonotonic { line: n })
                        } else {
                            Ok(
                                PState::InEntries {
                                    date,
                                    cur: start_entry(h, line),
                                    done: done.push(cur),
                                },
                            )
                        }
                    },
                }
            }
        },
        PState::Trailing { date, done, text } => {
            if is_comment(line) {
                Ok(PState::Trailing { date, done, text })
            } else if spec_header(line) is Some {
                Err(WdErr::AfterSep { line: n })
            } else {
                Ok(PState::Trailing { date, done, text: text + line })
            }
        },
    }
}

/// What a finished day looks like, abstractly: its date, its raw entries
/// in order, and the trailing text.
pub struct WdRec {
    pub date: Date,
    pub raws: Seq<RawRec>,
    pub text: Seq<char>,
}

/// Closes a parse: a date must be known, and in strict mode a non-empty
/// day must end in the reserved "Pause" entry.
pub open spec fn spec_wd_complete(
    date: Option<Date>,
    raws: Seq<RawRec>,
    text: Seq<char>,
    lenient: bool,
) -> Result<WdRec, WdErr> {
    match date {
        None => Err(WdErr::NoDate),
        Some(d) => {
            if raws.len() > 0 && raws.last().key != "Pause"@ && !lenient {
                Err(WdErr::NoPause)
            } else {
                Ok(WdRec { date: d, raws, text })
            }
        },
    }
}

/// The result at end-of-file, from whichever state the machine is in.
pub open spec fn spec_wd_finalize(st: PState, expected0: Option<Date>, lenient: bool) -> Result<
    WdRec,
    WdErr,
> {
    match st {
        PState::Skipping => spec_wd_complete(expected0, Seq::empty(), Seq::empty(), lenient),
        PState::InEntries { date, cur, done } => spec_wd_complete(
            Some(date),
            done.push(cur),
            Seq::empty(),
            lenient,
        ),
        PState::Trailing { date, done, text } => spec_wd_complete(date, done, text, lenient),
    }
}

/// Runs the machine over the lines from index `i` on, then closes it.
pub open spec fn spec_wd_run(
    st: PState,
    lines: Seq<Seq<char>>,
    i: int,
    expected0: Option<Date>,
    lenient: bool,
) -> Result<WdRec, WdErr>
    decreases lines.len() - i,
        when 0 <= i <= lines.len()
{
    if i >= lines.len() {
        spec_wd_finalize(st, expected0, lenient)
    } else {
        match spec_wd_step(st, lines[i], i + 1, expected0) {
            Err(e) => Err(e),
            Ok(st2) => spec_wd_run(st2, lines, i + 1, expected0, lenient),
        }
    }
}

/// Parsing one file, start to finish.
pub open spec fn spec_parse_work_day(
    text: Seq<char>,
    expected0: Option<Date>,
    lenient: bool,
) -> Result<WdRec, WdErr> {
    spec_wd_run(PState::Skipping, spec_lines(text), 0, expected0, lenient)
}

/// The duration of raw entry `i`: the distance to its successor, zero
/// for the last one.
pub open spec fn raw_seg_dur(raws: Seq<RawRec>, i: int) -> int {
    if i + 1 < raws.len() {
        raws[i + 1].time.spec_minute_of_day() - raws[i].time.spec_minute_of_day()
    } else {
        0
    }
}

/// Whether a built `WorkDay` is the segmented form of a finished parse.
pub open spec fn wd_matches(wd: WorkDay, rec: WdRec) -> bool {
    &&& wd.date == rec.date
    &&& wd.additional_text@ == rec.text
    &&& wd.entries@.len() == rec.raws.len()
    &&& forall|i: int|
        0 <= i < rec.raws.len() ==> {
            let e = #[trigger] wd.entries@[i];
            &&& e.start_ts == rec.raws[i].time
            &&& e.duration@ == raw_seg_dur(rec.raws, i)
            &&& e.key@ == rec.raws[i].key
            &&& e.sub_keys@.len() == rec.raws[i].subs.len()
            &&& (forall|j: int|
                0 <= j < e.sub_keys@.len() ==> #[trigger] e.sub_keys@[j]@ == rec.raws[i].subs[j])
            &&& e.raw_data@ == rec.raws[i].raw
        }
}

/// Whether an `Error` value is the report of a machine failure, for the
/// given file name.
pub open spec fn wd_err_matches(e: Error, k: WdErr, file: Seq<char>) -> bool {
    match k {
        WdErr::BadDate => e == Error::ParseDay,
        WdErr::BadTime => e == Error::ParseTime,
        WdErr::Unexpected { line, expected, found } => {
            &&& e matches Error::UnexpectedDate { file: f, line_nr, expected_date, found_date }
            &&& f@ == file
            &&& line_nr as int == line
            &&& expected_date == expected
            &&& found_date == found
        },
        WdErr::NonMonotonic { line } => {
            &&& e matches Error::TimeNotMonotonic { file: f, line_nr }
            &&& f@ == file
            &&& line_nr as int == line
        },
        WdErr::AfterSep { line } => {
            &&& e matches Error::EntryAfterSeparator { file: f, line_nr }
            &&& f@ == file
            &&& line_nr as int == line
        },
        WdErr::NoDate => e matches Error::MissingDate { file: f } && f@ == file,
        WdErr::NoPause => e matches Error::MissingFinalPause { file: f } && f@ == file,
    }
}

/// Chronological well-formedness of a raw-entry list: valid clock times,
/// non-decreasing.
pub open spec fn raws_wf(rs: Seq<RawRec>) -> bool {
    &&& forall|i: int| 0 <= i < rs.len() ==> (#[trigger] rs[i]).time.valid()
    &&& forall|i: int|
        0 <= i && i + 1 < rs.len() ==> (#[trigger] rs[i]).time.spec_minute_of_day() <= rs[i
            + 1].time.spec_minute_of_day()
}

/// The machine's invariant: whatever it has collected is chronological.
pub open spec fn pstate_wf(st: PState) -> bool {
    match st {
        PState::Skipping => true,
        PState::InEntries { date, cur, done } => raws_wf(done.push(cur)),
        PState::Trailing { date, done, text } => raws_wf(done),
    }
}

/// An ordered mapping from activity key to accumulated duration,
/// iterated in key-sorted order.
#[derive(Debug, PartialEq, Eq)]
pub struct Summary {
    pub items: Vec<(String, Duration)>,
}

impl Clone for Summary {
    /// A clone holds the same items.
    fn clone(&self) -> (r: Summary)
        ensures
            r.items@ == self.items@,
    {
        let mut items: Vec<(String, Duration)> = Vec::new();
        let mut i: usize = 0;
        while i < self.items.len()
            invariant
                i <= self.items@.len(),
                items@.len() == i,
                forall|k: int| 0 <= k < i ==> #[trigger] items@[k] == self.items@[k],
            decreases self.items@.len() - i,
        {
            let key = self.items[i].0.clone();
            let v = self.items[i].1;
            items.push((key, v));
            i = i + 1;
        }
        proof {
            assert(items@ =~= self.items@);
        }
        Summary { items }
    }
}

/// The index of the first item with the given key, or -1.
pub open spec fn key_index(items: Seq<(String, Duration)>, k: Seq<char>) -> int
    decreases items.len(),
{
    if items.len() == 0 {
        -1
    } else if items[0].0@ == k {
        0
    } else {
        let r = key_index(items.drop_first(), k);
        if r < 0 {
            -1
        } else {
            1 + r
        }
    }
}

/// `key_index` names the first matching index, or -1 when no key
/// matches.
pub proof fn lemma_key_index(items: Seq<(String, Duration)>, k: Seq<char>)
    ensures
        key_index(items, k) == -1 ==> forall|i: int|
            0 <= i < items.len() ==> (#[trigger] items[i]).0@ != k,
        key_index(items, k) != -1 ==> {
            let j = key_index(items, k);
            &&& 0 <= j < items.len()
            &&& items[j].0@ == k
            &&& forall|i: int| 0 <= i < j ==> (#[trigger] items[i]).0@ != k
        },
    decreases items.len(),
{
    if items.len() > 0 && items[0].0@ != k {
        lemma_key_index(items.drop_first(), k);
        let r = key_index(items.drop_first(), k);
        if r < 0 {
            assert forall|i: int| 0 <= i < items.len() implies (#[trigger] items[i]).0@ != k by {
                if i > 0 {
                    assert(items[i] == items.drop_first()[i - 1]);
                }
            }
        } else {
            assert(items[1 + r] == items.drop_first()[r]);
            assert forall|i: int| 0 <= i < 1 + r implies (#[trigger] items[i]).0@ != k by {
                if i > 0 {
                    assert(items[i] == items.drop_first()[i - 1]);
                }
            }
        }
    }
}

/// The mapping an item list denotes: each key to its first stored
/// duration (a well-formed summary stores each key once).
pub open spec fn view_of(items: Seq<(String, Duration)>) -> Map<Seq<char>, int> {
    Map::new(
        |k: Seq<char>| key_index(items, k) >= 0,
        |k: Seq<char>| items[key_index(items, k)].1@,
    )
}

impl View for Summary {
    type V = Map<Seq<char>, int>;

    /// The mapping a summary denotes: each key to its accumulated
    /// minutes.
    open spec fn view(&self) -> Map<Seq<char>, int> {
        view_of(self.items@)
    }
}

/// Adding `v` under `k`: into the existing value, or as a new key.
pub open spec fn map_add(m: Map<Seq<char>, int>, k: Seq<char>, v: int) -> Map<Seq<char>, int> {
    if m.dom().contains(k) {
        m.insert(k, m[k] + v)
    } else {
        m.insert(k, v)
    }
}

/// The pointwise sum of two summaries' mappings; absent keys count as
/// zero.
pub open spec fn map_sum(a: Map<Seq<char>, int>, b: Map<Seq<char>, int>) -> Map<Seq<char>, int> {
    Map::new(
        |k: Seq<char>| a.dom().contains(k) || b.dom().contains(k),
        |k: Seq<char>|
            (if a.dom().contains(k) {
                a[k]
            } else {
                0
            }) + (if b.dom().contains(k) {
                b[k]
            } else {
                0
            }),
    )
}

/// Merging the empty summary's mapping into any mapping changes nothing:
/// the merge has a neutral element.
pub proof fn lemma_merge_identity(s: Map<Seq<char>, int>)
    ensures
        map_sum(Map::empty(), s) == s,
{
    assert(map_sum(Map::empty(), s) =~= s);
}

/// Merging summaries' mappings is commutative.
pub proof fn lemma_merge_commutative(a: Map<Seq<char>, int>, b: Map<Seq<char>, int>)
    ensures
        map_sum(a, b) == map_sum(b, a),
{
    assert(map_sum(a, b) =~= map_sum(b, a));
}

/// Merging summaries' mappings is associative.
pub proof fn lemma_merge_associative(
    a: Map<Seq<char>, int>,
    b: Map<Seq<char>, int>,
    c: Map<Seq<char>, int>,
)
    ensures
        map_sum(map_sum(a, b), c) == map_sum(a, map_sum(b, c)),
{
    assert(map_sum(map_sum(a, b), c) =~= map_sum(a, map_sum(b, c)));
}

impl Summary {
    /// Key-sorted and therefore duplicate-free.
    pub open spec fn wf(self) -> bool {
        forall|i: int, j: int|
            0 <= i < j < self.items@.len() ==> lex_lt(
                (#[trigger] self.items@[i]).0@,
                (#[trigger] self.items@[j]).0@,
            )
    }

    /// The empty summary.
    pub fn new() -> (r: Summary)
        ensures
            r.wf(),
            r@ == Map::<Seq<char>, int>::empty(),
            r.items@.len() == 0,
    {
        let r = Summary { items: Vec::new() };
        proof {
            assert(r@ =~= Map::<Seq<char>, int>::empty());
        }
        r
    }

    /// Adds `d` to the value stored under `key`, inserting the key in
    /// its sorted place when it is new.
    pub fn add(&mut self, key: &String, d: Duration)
        requires
            old(self).wf(),
            old(self)@.dom().contains(key@) ==> i64::MIN <= old(self)@[key@] + d@ <= i64::MAX,
        ensures
            final(self).wf(),
            final(self)@ == map_add(old(self)@, key@, d@),
    {
        proof {
            lemma_key_index(old(self).items@, key@);
        }
        let mut j: usize = 0;
        while j < self.items.len()
            invariant
                self == old(self),
                j <= self.items@.len(),
                forall|i: int|
                    0 <= i < j ==> (#[trigger] self.items@[i]).0@ != key@ && lex_lt(
                        self.items@[i].0@,
                        key@,
                    ),
            decreases self.items@.len() - j,
        {
            if self.items[j].0 == *key {
                let k2 = self.items[j].0.clone();
                let v = self.items[j].1;
                let ghost items0 = self.items@;
                self.items[j] = (k2, v.plus(&d));
                proof {
                    assert(key_index(items0, key@) == j as int);
                    assert forall|i1: int, i2: int|
                        0 <= i1 < i2 < self.items@.len() implies lex_lt(
                        (#[trigger] self.items@[i1]).0@,
                        (#[trigger] self.items@[i2]).0@,
                    ) by {
                        assert(items0[i1].0@ == self.items@[i1].0@);
                        assert(items0[i2].0@ == self.items@[i2].0@);
                    }
                    assert forall|k: Seq<char>| true implies key_index(self.items@, k) == key_index(
                        items0,
                        k,
                    ) && (key_index(items0, k) >= 0 ==> (k != key@ ==> key_index(items0, k)
                        != j as int)) by {
                        lemma_key_index_stable(items0, self.items@, k);
                        lemma_key_index(items0, k);
                    }
                    let m2 = map_add(old(self)@, key@, d@);
                    assert(old(self)@.dom().contains(key@));
                    assert forall|k: Seq<char>| #![auto] true implies (self@.dom().contains(k)
                        <==> m2.dom().contains(k)) && (self@.dom().contains(k) ==> self@[k]
                        == m2[k]) by {
                        lemma_key_index(items0, k);
                        if k == key@ {
                            assert(self.items@[j as int].1@ == v@ + d@);
                        } else {
                            if key_index(items0, k) >= 0 {
                                assert(self.items@[key_index(items0, k)] == items0[key_index(
                                    items0,
                                    k,
                                )]);
                            }
                        }
                    }
                    assert(self@ =~= m2);
                }
                return ;
            }
            let lt = str_lex_lt(key.as_str(), self.items[j].0.as_str());
            if lt {
                let ghost items0 = self.items@;
                proof {
                    assert forall|i: int|
                        0 <= i < items0.len() implies (#[trigger] items0[i]).0@ != key@ by {
                        crate::util::lemma_lex_irreflexive(key@);
                        if i as int > j as int {
                            crate::util::lemma_lex_transitive(
                                key@,
                                items0[j as int].0@,
                                items0[i].0@,
                            );
                        }
                    }
                }
                self.items.insert(j, (key.clone(), d));
                proof {
                    lemma_key_index_inserted(items0, self.items@, j as int, key@);
                    assert(self@ =~= map_add(old(self)@, key@, d@));
                    let b = self.items@;
                    assert forall|i1: int, i2: int|
                        0 <= i1 < i2 < b.len() implies lex_lt(
                        (#[trigger] b[i1]).0@,
                        (#[trigger] b[i2]).0@,
                    ) by {
                        if i1 < j && i2 < j {
                            assert(b[i1] == items0[i1]);
                            assert(b[i2] == items0[i2]);
                        } else if i1 < j && i2 == j {
                            assert(b[i1] == items0[i1]);
                        } else if i1 < j && i2 > j {
                            assert(b[i1] == items0[i1]);
                            assert(b[i2] == items0[i2 - 1]);
                        } else if i1 == j && i2 > j {
                            assert(b[i2] == items0[i2 - 1]);
                            if i2 - 1 > j {
                                assert(lex_lt(items0[j as int].0@, items0[i2 - 1].0@));
                                crate::util::lemma_lex_transitive(
                                    key@,
                                    items0[j as int].0@,
                                    items0[i2 - 1].0@,
                                );
                            }
                        } else {
                            assert(b[i1] == items0[i1 - 1]);
                            assert(b[i2] == items0[i2 - 1]);
                        }
                    }
                }
                return ;
            }
            proof {
                if !lex_lt(self.items@[j as int].0@, key@) {
                    crate::util::lemma_lex_trichotomy(key@, self.items@[j as int].0@);
                }
            }
            j = j + 1;
        }
        let ghost items0 = self.items@;
        self.items.push((key.clone(), d));
        proof {
            lemma_key_index_inserted(items0, self.items@, items0.len() as int, key@);
            assert(self@ =~= map_add(old(self)@, key@, d@));
            let b = self.items@;
            assert forall|i1: int, i2: int|
                0 <= i1 < i2 < b.len() implies lex_lt(
                (#[trigger] b[i1]).0@,
                (#[trigger] b[i2]).0@,
            ) by {
                assert(b[i1] == items0[i1]);
                if i2 < b.len() - 1 {
                    assert(b[i2] == items0[i2]);
                }
            }
        }
    }
}

/// The total of all durations of an entry list.
pub open spec fn total_dur(es: Seq<Entry>) -> int
    decreases es.len(),
{
    if es.len() == 0 {
        0
    } else {
        total_dur(es.drop_last()) + es.last().duration@
    }
}

/// With non-negative durations, a prefix never exceeds the whole.
proof fn lemma_total_dur_prefix(es: Seq<Entry>, i: int)
    requires
        0 <= i <= es.len(),
        forall|k: int| 0 <= k < es.len() ==> (#[trigger] es[k]).duration@ >= 0,
    ensures
        total_dur(es.take(i)) <= total_dur(es),
    decreases es.len() - i,
{
    if i == es.len() {
        assert(es.take(i) =~= es);
    } else {
        assert(es.take(i + 1).drop_last() =~= es.take(i));
        assert(es.take(i + 1).last() == es[i]);
        lemma_total_dur_prefix(es, i + 1);
    }
}

/// The summary of an entry list: every duration added under its key, in
/// order.
pub open spec fn sum_map(es: Seq<Entry>) -> Map<Seq<char>, int>
    decreases es.len(),
{
    if es.len() == 0 {
        Map::empty()
    } else {
        map_add(sum_map(es.drop_last()), es.last().key@, es.last().duration@)
    }
}

impl WorkDay {
    /// Sums the day's logged durations by activity key; the result
    /// iterates its keys in sorted order.
    pub fn compute_summary(&self) -> (r: Summary)
        requires
            forall|i: int| 0 <= i < self.entries@.len() ==> (#[trigger] self.entries@[i]).duration@ >= 0,
            total_dur(self.entries@) <= i64::MAX,
        ensures
            r.wf(),
            r@ == sum_map(self.entries@),
    {
        let mut ret = Summary::new();
        let mut i: usize = 0;
        proof {
            assert(self.entries@.take(0) =~= Seq::<Entry>::empty());
        }
        while i < self.entries.len()
            invariant
                i <= self.entries@.len(),
                ret.wf(),
                ret@ == sum_map(self.entries@.take(i as int)),
                total_dur(self.entries@.take(i as int)) >= 0,
                forall|k: Seq<char>|
                    #![auto]
                    ret@.dom().contains(k) ==> 0 <= ret@[k] <= total_dur(
                        self.entries@.take(i as int),
                    ),
            decreases self.entries@.len() - i,
        {
            let e = &self.entries[i];
            proof {
                assert(self.entries@.take(i + 1 as int).drop_last() =~= self.entries@.take(
                    i as int,
                ));
                assert(self.entries@.take(i + 1 as int).last() == self.entries@[i as int]);
                lemma_total_dur_prefix(self.entries@, i + 1 as int);
            }
            let ghost prev = ret@;
            let ghost tprev = total_dur(self.entries@.take(i as int));
            ret.add(&e.key, e.duration);
            proof {
                assert(self.entries@.take(i + 1 as int).drop_last() =~= self.entries@.take(
                    i as int,
                ));
                assert(self.entries@.take(i + 1 as int).last() == self.entries@[i as int]);
                let tnext = total_dur(self.entries@.take(i + 1 as int));
                assert(tnext == tprev + self.entries@[i as int].duration@);
                assert forall|k: Seq<char>| #![auto] ret@.dom().contains(k) implies 0 <= ret@[k]
                    <= tnext by {
                    if k == e.key@ {
                        if prev.dom().contains(k) {
                            assert(ret@[k] == prev[k] + e.duration@);
                        } else {
                            assert(ret@[k] == e.duration@);
                        }
                    } else {
                        assert(ret@[k] == prev[k]);
                    }
                }
            }
            i = i + 1;
        }
        proof {
            assert(self.entries@.take(self.entries@.len() as int) =~= self.entries@);
        }
        ret
    }

    /// Adds every accumulated duration of `right` into `left`, key by
    /// key: afterwards `left` denotes the pointwise sum of both
    /// mappings.
    pub fn merge_summaries_right_into_left(left: &mut Summary, right: &Summary)
        requires
            old(left).wf(),
            right.wf(),
            forall|k: Seq<char>|
                #![auto]
                old(left)@.dom().contains(k) && right@.dom().contains(k) ==> i64::MIN <= old(
                    left,
                )@[k] + right@[k] <= i64::MAX,
        ensures
            final(left).wf(),
            final(left)@ == map_sum(old(left)@, right@),
    {
        let mut j: usize = 0;
        proof {
            assert(right.items@.take(0) =~= Seq::<(String, Duration)>::empty());
            assert(map_sum(old(left)@, view_of(right.items@.take(0))) =~= old(left)@);
        }
        while j < right.items.len()
            invariant
                j <= right.items@.len(),
                left.wf(),
                left@ == map_sum(old(left)@, view_of(right.items@.take(j as int))),
            decreases right.items@.len() - j,
        {
            let p = &right.items[j];
            let ghost a = right.items@.take(j as int);
            let ghost b = right.items@.take(j + 1 as int);
            proof {
                assert forall|i: int| 0 <= i < a.len() implies (#[trigger] a[i]).0@ != p.0@ by {
                    assert(a[i] == right.items@[i]);
                    assert(lex_lt(right.items@[i].0@, right.items@[j as int].0@));
                    crate::util::lemma_lex_irreflexive(p.0@);
                }
                assert forall|i: int| 0 <= i < j implies #[trigger] b[i] == a[i] by {}
                assert(b[j as int].0@ == p.0@);
                lemma_key_index_inserted(a, b, j as int, p.0@);
                lemma_key_index(right.items@, p.0@);
                assert forall|i: int|
                    0 <= i < j as int implies (#[trigger] right.items@[i]).0@ != p.0@ by {
                    assert(lex_lt(right.items@[i].0@, right.items@[j as int].0@));
                    crate::util::lemma_lex_irreflexive(p.0@);
                }
                let items = right.items@;
                let kk = items[j as int].0@;
                assert(p.0@ == kk);
                lemma_key_index(items, kk);
                let ki = key_index(items, kk);
                if ki == -1 {
                    assert(items[j as int].0@ != kk);
                    assert(false);
                } else if ki < j as int {
                    assert(items[ki].0@ == kk);
                    assert(items[ki].0@ != kk);
                    assert(false);
                } else if ki > j as int {
                    assert(items[j as int].0@ != kk);
                    assert(false);
                }
                assert(key_index(right.items@, p.0@) == j as int);
                assert(right@[p.0@] == p.1@);
                lemma_key_index(a, kk);
                if key_index(a, kk) != -1 {
                    assert(a[key_index(a, kk)].0@ == kk);
                    assert(false);
                }
                assert(!view_of(a).dom().contains(kk));
                assert(b[j as int] == right.items@[j as int]);
                assert forall|k2: Seq<char>| #![auto] true implies (view_of(b).dom().contains(k2)
                    <==> map_add(view_of(a), kk, p.1@).dom().contains(k2)) && (view_of(
                    b,
                ).dom().contains(k2) ==> view_of(b)[k2] == map_add(view_of(a), kk, p.1@)[k2]) by {
                    if k2 != kk {
                        assert(key_index(b, k2) == (if key_index(a, k2) < j as int {
                            key_index(a, k2)
                        } else {
                            key_index(a, k2) + 1
                        }));
                        lemma_key_index(a, k2);
                        lemma_key_index(b, k2);
                        if key_index(a, k2) >= 0 {
                            assert(b[key_index(b, k2)].1@ == a[key_index(a, k2)].1@);
                        }
                    } else {
                        assert(key_index(b, kk) == j as int);
                        assert(b[j as int].1@ == p.1@);
                    }
                }
                assert(view_of(b) =~= map_add(view_of(a), kk, p.1@));
                lemma_map_sum_add(old(left)@, view_of(a), kk, p.1@);
                if left@.dom().contains(kk) {
                    assert(!view_of(a).dom().contains(kk));
                    assert(old(left)@.dom().contains(kk));
                    assert(left@[kk] == old(left)@[kk]);
                    assert(right@.dom().contains(kk));
                }
            }
            Summary::add(left, &p.0, p.1);
            j = j + 1;
        }
        proof {
            assert(right.items@.take(right.items@.len() as int) =~= right.items@);
        }
    }
}

/// Adding a fresh key on the right distributes over the pointwise sum.
proof fn lemma_map_sum_add(
    a: Map<Seq<char>, int>,
    b: Map<Seq<char>, int>,
    k: Seq<char>,
    v: int,
)
    requires
        !b.dom().contains(k),
    ensures
        map_add(map_sum(a, b), k, v) == map_sum(a, map_add(b, k, v)),
{
    assert(map_add(map_sum(a, b), k, v) =~= map_sum(a, map_add(b, k, v)));
}

/// Replacing one item's value, key kept, moves no key: every lookup
/// lands where it did.
proof fn lemma_key_index_stable(
    a: Seq<(String, Duration)>,
    b: Seq<(String, Duration)>,
    k: Seq<char>,
)
    requires
        a.len() == b.len(),
        forall|i: int| 0 <= i < a.len() ==> (#[trigger] a[i]).0@ == b[i].0@,
    ensures
        key_index(a, k) == key_index(b, k),
    decreases a.len(),
{
    if a.len() > 0 {
        assert(a[0].0@ == b[0].0@);
        assert forall|i: int|
            0 <= i < a.drop_first().len() implies (#[trigger] a.drop_first()[i]).0@
            == b.drop_first()[i].0@ by {
            assert(a.drop_first()[i] == a[i + 1]);
            assert(b.drop_first()[i] == b[i + 1]);
        }
        lemma_key_index_stable(a.drop_first(), b.drop_first(), k);
    }
}

/// After inserting a fresh key at position `j`, it is found there, and
/// every other key is found exactly where it was.
proof fn lemma_key_index_inserted(
    a: Seq<(String, Duration)>,
    b: Seq<(String, Duration)>,
    j: int,
    k: Seq<char>,
)
    requires
        0 <= j <= a.len(),
        b.len() == a.len() + 1,
        b[j].0@ == k,
        forall|i: int| 0 <= i < j ==> #[trigger] b[i] == a[i],
        forall|i: int| j < i < b.len() ==> #[trigger] b[i] == a[i - 1],
        forall|i: int| 0 <= i < a.len() ==> (#[trigger] a[i]).0@ != k,
    ensures
        key_index(b, k) == j,
        forall|k2: Seq<char>|
            k2 != k ==> #[trigger] key_index(b, k2) == (if key_index(a, k2) < j {
                key_index(a, k2)
            } else {
                key_index(a, k2) + 1
            }),
        forall|k2: Seq<char>|
            k2 != k && key_index(a, k2) >= 0 ==> #[trigger] b[key_index(b, k2)].1@ == a[key_index(
                a,
                k2,
            )].1@,
{
    lemma_key_index(a, k);
    lemma_key_index(b, k);
    if key_index(b, k) != j {
        let jj = key_index(b, k);
        if jj == -1 {
            assert(b[j].0@ == k);
        } else if jj < j {
            assert(b[jj].0@ == a[jj].0@);
        } else {
            assert(b[j].0@ == k);
        }
    }
    assert forall|k2: Seq<char>| k2 != k implies #[trigger] key_index(b, k2) == (if key_index(
        a,
        k2,
    ) < j {
        key_index(a, k2)
    } else {
        key_index(a, k2) + 1
    }) by {
        lemma_key_index(a, k2);
        lemma_key_index(b, k2);
        let ja = key_index(a, k2);
        let jb = key_index(b, k2);
        if ja == -1 {
            if jb != -1 {
                if jb < j {
                    assert(a[jb].0@ == k2);
                } else if jb > j {
                    assert(a[jb - 1].0@ == k2);
                } else {
                    assert(k2 == k);
                }
            }
        } else if ja < j {
            assert(b[ja].0@ == k2);
            if jb < ja {
                if jb < j {
                    assert(a[jb].0@ == k2);
                } else {
                    assert(jb == j || a[jb - 1].0@ == k2);
                }
            }
            if jb > ja {
                assert(a[ja].0@ == k2);
            }
        } else {
            assert(b[ja + 1].0@ == k2);
            if jb < ja + 1 {
                if jb < j {
                    assert(a[jb].0@ == k2);
                } else if jb == j {
                    assert(k2 == k);
                } else {
                    assert(a[jb - 1].0@ == k2);
                }
            }
            if jb > ja + 1 {
                assert(a[ja].0@ == k2);
                assert(b[if ja < j {
                    ja
                } else {
                    ja + 1
                }].0@ == k2);
            }
        }
    }
    assert forall|k2: Seq<char>| k2 != k && key_index(a, k2) >= 0 implies #[trigger] b[key_index(
        b,
        k2,
    )].1@ == a[key_index(a, k2)].1@ by {
        lemma_key_index(a, k2);
        let ja = key_index(a, k2);
        if ja < j {
            assert(b[ja] == b[ja]);
        }
    }
}

/// Once the entries block has closed, a line matching the entry-header
/// pattern fails the whole parse with the separator error at that line's
/// 1-based number, whatever the file holds before or after it.
pub proof fn lemma_header_after_separator(
    date: Option<Date>,
    done: Seq<RawRec>,
    text: Seq<char>,
    lines: Seq<Seq<char>>,
    i: int,
    expected0: Option<Date>,
    lenient: bool,
)
    requires
        0 <= i < lines.len(),
        spec_header(lines[i]) is Some,
    ensures
        spec_wd_run(
            PState::Trailing { date, done, text },
            lines,
            i,
            expected0,
            lenient,
        ) == Err::<WdRec, WdErr>(WdErr::AfterSep { line: i + 1 }),
{
    let line = lines[i];
    let s = spec_strip_nl(line);
    assert(s.len() >= 14);
    assert(line[0] == s[0]);
    assert(!is_comment(line));
}

/// Strict and lenient runs of the machine differ only in the final
/// "Pause" check: what strict mode accepts, lenient mode accepts
/// unchanged; what strict mode rejects for any other reason, lenient
/// mode rejects the same way; and what strict mode rejects only for the
/// missing final pause, lenient mode accepts.
pub proof fn lemma_lenient_run(st: PState, lines: Seq<Seq<char>>, i: int, expected0: Option<Date>)
    requires
        0 <= i <= lines.len(),
    ensures
        ({
            let rs = spec_wd_run(st, lines, i, expected0, false);
            let rl = spec_wd_run(st, lines, i, expected0, true);
            &&& (rs is Ok ==> rl == rs)
            &&& (rs matches Err(e) && !(e is NoPause) ==> rl == rs)
            &&& (rs == Err::<WdRec, WdErr>(WdErr::NoPause) ==> rl is Ok
                && rl->Ok_0.raws.len() > 0 && rl->Ok_0.raws.last().key != "Pause"@)
        }),
    decreases lines.len() - i,
{
    if i < lines.len() {
        match spec_wd_step(st, lines[i], i + 1, expected0) {
            Err(e) => {},
            Ok(st2) => {
                lemma_lenient_run(st2, lines, i + 1, expected0);
            },
        }
    }
}

/// Parsing with the lenient flag accepts everything strict mode accepts,
/// unchanged; fails identically on every failure but the missing final
/// pause; and succeeds where strict mode misses only the final pause,
/// yielding a non-empty day whose last entry is indeed no "Pause".
pub proof fn lemma_lenient_parse(text: Seq<char>, expected0: Option<Date>)
    ensures
        ({
            let rs = spec_parse_work_day(text, expected0, false);
            let rl = spec_parse_work_day(text, expected0, true);
            &&& (rs is Ok ==> rl == rs)
            &&& (rs matches Err(e) && !(e is NoPause) ==> rl == rs)
            &&& (rs == Err::<WdRec, WdErr>(WdErr::NoPause) ==> rl is Ok
                && rl->Ok_0.raws.len() > 0 && rl->Ok_0.raws.last().key != "Pause"@)
        }),
{
    lemma_lenient_run(PState::Skipping, spec_lines(text), 0, expected0);
}

/// One calendar day joined with its requirement: the contractual daily
/// duration, the finalized required time, and the day's parsed log (an
/// empty placeholder when no log file covers the date).
#[derive(Debug, PartialEq, Eq)]
pub struct Day {
    pub duration_of_day: Duration,
    pub required_time: required_time::RequiredTime,
    pub work_day: WorkDay,
}

/// The joined view over a whole analysis window.
#[derive(Debug, PartialEq, Eq)]
pub struct Days {
    pub days: Vec<Day>,
}

/// The index of the first work day for the given date, or -1.
pub open spec fn spec_find_wd(ws: Seq<WorkDay>, d: Date) -> int
    decreases ws.len(),
{
    if ws.len() == 0 {
        -1
    } else if ws[0].date == d {
        0
    } else {
        let r = spec_find_wd(ws.drop_first(), d);
        if r < 0 {
            -1
        } else {
            1 + r
        }
    }
}

/// `spec_find_wd` names the first matching index, or -1.
pub proof fn lemma_find_wd(ws: Seq<WorkDay>, d: Date)
    ensures
        spec_find_wd(ws, d) == -1 ==> forall|i: int|
            0 <= i < ws.len() ==> (#[trigger] ws[i]).date != d,
        spec_find_wd(ws, d) != -1 ==> {
            let j = spec_find_wd(ws, d);
            &&& 0 <= j < ws.len()
            &&& ws[j].date == d
            &&& forall|i: int| 0 <= i < j ==> (#[trigger] ws[i]).date != d
        },
    decreases ws.len(),
{
    if ws.len() > 0 && ws[0].date != d {
        lemma_find_wd(ws.drop_first(), d);
        let r = spec_find_wd(ws.drop_first(), d);
        if r < 0 {
            assert forall|i: int| 0 <= i < ws.len() implies (#[trigger] ws[i]).date != d by {
                if i > 0 {
                    assert(ws[i] == ws.drop_first()[i - 1]);
                }
            }
        } else {
            assert(ws[1 + r] == ws.drop_first()[r]);
            assert forall|i: int| 0 <= i < 1 + r implies (#[trigger] ws[i]).date != d by {
                if i > 0 {
                    assert(ws[i] == ws.drop_first()[i - 1]);
                }
            }
        }
    }
}

impl Days {
    /// Pairs every finalized requirement with the work day logged for its
    /// date, or with an empty placeholder day when none was.  One `Day`
    /// per requirement, same order.
    pub fn join_work_and_requirement(
        work_days: &Vec<WorkDay>,
        required_times: &Vec<required_time::RequiredTime>,
        duration_of_day: &Duration,
    ) -> (r: Days)
        ensures
            r.days@.len() == required_times@.len(),
            forall|i: int|
                0 <= i < r.days@.len() ==> {
                    let day = #[trigger] r.days@[i];
                    &&& day.duration_of_day == duration_of_day
                    &&& day.required_time == required_times@[i]
                    &&& {
                        let j = spec_find_wd(work_days@, required_times@[i].date);
                        if j >= 0 {
                            work_day_like(day.work_day, work_days@[j])
                        } else {
                            &&& day.work_day.date == required_times@[i].date
                            &&& day.work_day.entries@.len() == 0
                            &&& day.work_day.additional_text@.len() == 0
                        }
                    }
                },
    {
        let mut days: Vec<Day> = Vec::new();
        let mut i: usize = 0;
        while i < required_times.len()
            invariant
                i <= required_times@.len(),
                days@.len() == i,
                forall|k: int|
                    0 <= k < i ==> {
                        let day = #[trigger] days@[k];
                        &&& day.duration_of_day == duration_of_day
                        &&& day.required_time == required_times@[k]
                        &&& {
                            let j = spec_find_wd(work_days@, required_times@[k].date);
                            if j >= 0 {
                                work_day_like(day.work_day, work_days@[j])
                            } else {
                                &&& day.work_day.date == required_times@[k].date
                                &&& day.work_day.entries@.len() == 0
                                &&& day.work_day.additional_text@.len() == 0
                            }
                        }
                    },
            decreases required_times@.len() - i,
        {
            let rt = &required_times[i];
            proof {
                lemma_find_wd(work_days@, rt.date);
            }
            let mut j: usize = 0;
            let mut found: Option<usize> = None;
            while j < work_days.len()
                invariant
                    j <= work_days@.len(),
                    match found {
                        None => forall|k: int|
                            0 <= k < j ==> (#[trigger] work_days@[k]).date != rt.date,
                        Some(f) => {
                            &&& f < work_days@.len()
                            &&& work_days@[f as int].date == rt.date
                            &&& forall|k: int|
                                0 <= k < f ==> (#[trigger] work_days@[k]).date != rt.date
                        },
                    },
                decreases work_days@.len() - j,
            {
                if found.is_none() && work_days[j].date == rt.date {
                    found = Some(j);
                }
                j = j + 1;
            }
            proof {
                let sf = spec_find_wd(work_days@, rt.date);
                match found {
                    None => {
                        if sf != -1 {
                            assert(work_days@[sf].date == rt.date);
                            assert(false);
                        }
                    },
                    Some(f) => {
                        if sf == -1 {
                            assert(work_days@[f as int].date != rt.date);
                            assert(false);
                        } else if sf < f as int {
                            assert(work_days@[sf].date == rt.date);
                            assert(work_days@[sf].date != rt.date);
                            assert(false);
                        } else if sf > f as int {
                            assert(work_days@[f as int].date != rt.date);
                            assert(false);
                        }
                    },
                }
            }
            let work_day = match found {
                Some(j2) => work_days[j2].clone(),
                None => WorkDay {
                    date: rt.date,
                    entries: Vec::new(),
                    additional_text: String::new(),
                },
            };
            days.push(
                Day {
                    duration_of_day: *duration_of_day,
                    required_time: rt.clone(),
                    work_day,
                },
            );
            i = i + 1;
        }
        Days { days }
    }
}

/// Whether the file-name pattern `YYYYMMDD_<rest>.work` matches at
/// position `p`: at the start or right after a path separator, eight
/// digits, an underscore, and the `.work` ending the name, with no line
/// break inside `<rest>`.
pub open spec fn fd_match_at(s: Seq<char>, p: int) -> bool {
    &&& 0 <= p && p + 14 <= s.len()
    &&& (p == 0 || s[p - 1] == '/')
    &&& all_digits_range(s, p, p + 8)
    &&& s[p + 8] == '_'
    &&& (forall|i: int| p + 9 <= i < s.len() - 5 ==> s[i] != '\n')
    &&& s[s.len() - 5] == '.'
    &&& s[s.len() - 4] == 'w'
    &&& s[s.len() - 3] == 'o'
    &&& s[s.len() - 2] == 'r'
    &&& s[s.len() - 1] == 'k'
}

/// The leftmost position where the file-name pattern matches, or -1.
pub open spec fn spec_fd_search(s: Seq<char>, p: int) -> int
    decreases s.len() - p,
        when 0 <= p
{
    if p + 14 > s.len() {
        -1
    } else if fd_match_at(s, p) {
        p
    } else {
        spec_fd_search(s, p + 1)
    }
}

/// The date a file name encodes, if any: the digits of the leftmost
/// pattern match, read as year, month and day — and only when they name
/// a real calendar date; otherwise nothing, never an error.
pub open spec fn spec_file_date(s: Seq<char>) -> Option<Date> {
    let p = spec_fd_search(s, 0);
    if p < 0 {
        None
    } else {
        let d = Date {
            year: digits_val(s.subrange(p, p + 4)) as u32,
            month: digits_val(s.subrange(p + 4, p + 6)) as u32,
            day: digits_val(s.subrange(p + 6, p + 8)) as u32,
        };
        if d.valid() {
            Some(d)
        } else {
            None
        }
    }
}

/// Whether the file-name pattern matches at position `p`.
fn fd_match(v: &Vec<char>, p: usize) -> (b: bool)
    ensures
        b == fd_match_at(v@, p as int),
{
    let n = v.len();
    if p > n || n - p < 14 {
        return false;
    }
    if !(p == 0 || char_at_is(v, p - 1, '/')) {
        return false;
    }
    if !check_digits(v, p, p + 8) {
        return false;
    }
    if !char_at_is(v, p + 8, '_') {
        return false;
    }
    let nl = crate::util::find_char(v, p + 9, '\n');
    proof {
        lemma_first_occ(v@.skip(p + 9), '\n');
    }
    if nl < n - 5 {
        proof {
            assert(v@.skip(p + 9)[nl - (p + 9)] == v@[nl as int]);
        }
        return false;
    }
    proof {
        assert forall|i: int| p + 9 <= i < v@.len() - 5 implies v@[i] != '\n' by {
            assert(v@.skip(p + 9)[i - (p + 9)] == v@[i]);
        }
    }
    char_at_is(v, n - 5, '.') && char_at_is(v, n - 4, 'w') && char_at_is(v, n - 3, 'o')
        && char_at_is(v, n - 2, 'r') && char_at_is(v, n - 1, 'k')
}

/// Reads the expected date off a file name, when the name encodes one;
/// a pure function of the name alone.
pub fn date_from_file_name(file_name: &str) -> (r: Option<Date>)
    ensures
        r == spec_file_date(file_name@),
{
    let v = chars_vec(file_name);
    let mut p: usize = 0;
    loop
        invariant
            v@ == file_name@,
            0 <= p,
            p <= v.len() + 1,
            spec_fd_search(v@, 0) == spec_fd_search(v@, p as int),
        decreases v@.len() + 14 - p,
    {
        if p > v.len() || v.len() - p < 14 {
            return None;
        }
        if fd_match(&v, p) {
            let y = digits_value(&v, p, p + 4);
            let m = digits_value(&v, p + 4, p + 6);
            let d = digits_value(&v, p + 6, p + 8);
            let date = Date { year: y, month: m, day: d };
            if date.is_valid() {
                return Some(date);
            } else {
                return None;
            }
        }
        p = p + 1;
    }
}

/// The parser's state, concretely.
enum ParseState {
    Skipping,
    InEntries { date: Date, cur: EntryRaw, done: Vec<EntryRaw> },
    Trailing { date: Option<Date>, done: Vec<EntryRaw>, text: String },
}

/// The abstraction of a concrete parser state.
spec fn pstate_of(s: ParseState) -> PState {
    match s {
        ParseState::Skipping => PState::Skipping,
        ParseState::InEntries { date, cur, done } => PState::InEntries {
            date,
            cur: raw_rec_of(cur),
            done: raws_rec_of(done@),
        },
        ParseState::Trailing { date, done, text } => PState::Trailing {
            date,
            done: raws_rec_of(done@),
            text: text@,
        },
    }
}

fn line_is_blank(v: &Vec<char>) -> (b: bool)
    ensures
        b == is_blank(v@),
{
    v.len() == 0 || (v.len() == 1 && char_at_is(v, 0, '\n'))
}

fn line_is_comment(v: &Vec<char>) -> (b: bool)
    ensures
        b == is_comment(v@),
{
    v.len() > 0 && char_at_is(v, 0, '#')
}

/// Builds the raw entry a header line starts.
fn start_raw(d: Date, t: ClockTime, desc: &Vec<char>, line: &Vec<char>) -> (e: EntryRaw)
    ensures
        raw_rec_of(e) == start_entry(
            HeaderShape { date: d, time: t, desc: desc@ },
            line@,
        ),
{
    let (key, sub_keys) = parse_description(desc);
    let raw_data = string_from_range(line, 0, line.len());
    let e = EntryRaw { date: d, start_ts: t, key, sub_keys, raw_data };
    proof {
        assert(e.raw_data@ =~= line@);
        assert(raw_rec_of(e).subs =~= spec_description(desc@).1);
    }
    e
}

impl WorkDay {
    /// Parses one work-day file, given the text of the file, the date the
    /// file is expected to cover (if one is known), the file's name for
    /// error reports, and whether a missing final "Pause" entry is
    /// tolerated.  The behaviour is exactly `spec_parse_work_day`; the
    /// resulting entries are the segmented form of the collected raw
    /// entries.
    #[verifier::rlimit(100)]
    pub fn parse(text: &str, expected_date: Option<Date>, file: &str, lenient: bool) -> (r: Result<
        WorkDay,
        Error,
    >)
        requires
            text@.len() < 0xffffffff,
        ensures
            ({
                let pr = spec_parse_work_day(text@, expected_date, lenient);
                match r {
                    Ok(wd) => pr is Ok && wd_matches(wd, pr->Ok_0),
                    Err(e) => pr is Err && wd_err_matches(e, pr->Err_0, file@),
                }
            }),
    {
        let cv = chars_vec(text);
        let lines = split_lines(&cv);
        let ghost lv = spec_lines(text@);
        proof {
            lemma_lines_count(text@);
        }
        let ghost whole = spec_wd_run(PState::Skipping, lv, 0, expected_date, lenient);
        let mut st = ParseState::Skipping;
        let mut i: usize = 0;
        while i < lines.len()
            invariant
                i <= lines@.len(),
                spec_wd_run(pstate_of(st), lv, i as int, expected_date, lenient) == whole,
                pstate_wf(pstate_of(st)),
            decreases lines@.len() - i,
        {
            let line = &lines[i];
            let line_nr: u32 = (i + 1) as u32;
            let ghost n = i + 1 as int;
            let ghost st0 = pstate_of(st);
            let ghost lview = lv[i as int];
            proof {
                assert(lines@[i as int]@ == lview);
            }
            st = match st {
                ParseState::Skipping => {
                    if line_is_blank(line) || line_is_comment(line) {
                        proof {
                            assert(spec_wd_step(st0, lview, n, expected_date) == Ok::<
                                PState,
                                WdErr,
                            >(PState::Skipping));
                        }
                        ParseState::Skipping
                    } else {
                        match header_shape(line) {
                            None => {
                                let st2 = ParseState::Trailing {
                                    date: expected_date,
                                    done: Vec::new(),
                                    text: String::new(),
                                };
                                proof {
                                    assert(raws_rec_of(Seq::<EntryRaw>::empty()) =~= Seq::<
                                        RawRec,
                                    >::empty());
                                    assert(spec_wd_step(st0, lview, n, expected_date) == Ok::<
                                        PState,
                                        WdErr,
                                    >(pstate_of(st2)));
                                }
                                st2
                            },
                            Some((d, t, desc)) => {
                                let ghost h = spec_header(lview)->0;
                                proof {
                                    assert(h == HeaderShape { date: d, time: t, desc: desc@ });
                                }
                                if !d.is_valid() {
                                    proof {
                                        assert(spec_wd_step(st0, lview, n, expected_date) == Err::<
                                            PState,
                                            WdErr,
                                        >(WdErr::BadDate));
                                    }
                                    return Err(Error::ParseDay);
                                }
                                if t.hour > 23 || t.minute > 59 {
                                    proof {
                                        assert(spec_wd_step(st0, lview, n, expected_date) == Err::<
                                            PState,
                                            WdErr,
                                        >(WdErr::BadTime));
                                    }
                                    return Err(Error::ParseTime);
                                }
                                if let Some(ed) = expected_date {
                                    if !(ed == d) {
                                        proof {
                                            assert(spec_wd_step(st0, lview, n, expected_date)
                                                == Err::<PState, WdErr>(
                                                WdErr::Unexpected {
                                                    line: n,
                                                    expected: ed,
                                                    found: d,
                                                },
                                            ));
                                        }
                                        return Err(
                                            Error::UnexpectedDate {
                                                file: file.to_owned(),
                                                line_nr,
                                                expected_date: ed,
                                                found_date: d,
                                            },
                                        );
                                    }
                                }
                                let cur = start_raw(d, t, &desc, line);
                                let done: Vec<EntryRaw> = Vec::new();
                                let st2 = ParseState::InEntries { date: d, cur, done };
                                proof {
                                    assert(raws_rec_of(Seq::<EntryRaw>::empty()) =~= Seq::<
                                        RawRec,
                                    >::empty());
                                    assert(spec_wd_step(st0, lview, n, expected_date) == Ok::<
                                        PState,
                                        WdErr,
                                    >(pstate_of(st2)));
                                    assert(raws_wf(Seq::<RawRec>::empty().push(start_entry(h, lview))));
                                }
                                st2
                            },
                        }
                    }
                },
                ParseState::InEntries { date, mut cur, mut done } => {
                    let ghost done_rec = raws_rec_of(done@);
                    let ghost cur_rec = raw_rec_of(cur);
                    proof {
                        assert(st0 == PState::InEntries { date, cur: cur_rec, done: done_rec });
                        let s0 = done_rec.push(cur_rec);
                        assert(raws_wf(s0));
                        assert(s0[s0.len() - 1] == cur_rec);
                        assert(cur_rec.time.valid());
                    }
                    if line_is_blank(line) || line_is_comment(line) {
                        done.push(cur);
                        let st2 = ParseState::Trailing {
                            date: Some(date),
                            done,
                            text: String::new(),
                        };
                        proof {
                            assert(spec_wd_step(st0, lview, n, expected_date) == Ok::<
                                PState,
                                WdErr,
                            >(PState::Trailing {
                                date: Some(date),
                                done: done_rec.push(cur_rec),
                                text: Seq::empty(),
                            }));
                            assert(pstate_of(st2) matches PState::Trailing { done: dn, .. }
                                && dn =~= done_rec.push(cur_rec));
                        }
                        st2
                    } else {
                        match header_shape(line) {
                            None => {
                                crate::util::push_chars(&mut cur.raw_data, line);
                                proof {
                                    assert(raw_rec_of(cur).subs =~= cur_rec.subs);
                                    assert(raw_rec_of(cur) == RawRec {
                                        date: cur_rec.date,
                                        time: cur_rec.time,
                                        key: cur_rec.key,
                                        subs: cur_rec.subs,
                                        raw: cur_rec.raw + lview,
                                    });
                                    let s1 = done_rec.push(raw_rec_of(cur));
                                    let s0 = done_rec.push(cur_rec);
                                    assert forall|k: int|
                                        0 <= k < s1.len() implies (#[trigger] s1[k]).time
                                        == s0[k].time by {
                                        if k < s1.len() - 1 {
                                            assert(s1[k] == s0[k]);
                                        }
                                    }
                                    assert(raws_wf(s1));
                                }
                                ParseState::InEntries { date, cur, done }
                            },
                            Some((d, t, desc)) => {
                                let ghost h = spec_header(lview)->0;
                                proof {
                                    assert(h == HeaderShape { date: d, time: t, desc: desc@ });
                                }
                                if !d.is_valid() {
                                    proof {
                                        assert(spec_wd_step(st0, lview, n, expected_date) == Err::<
                                            PState,
                                            WdErr,
                                        >(WdErr::BadDate));
                                    }
                                    return Err(Error::ParseDay);
                                }
                                if t.hour > 23 || t.minute > 59 {
                                    proof {
                                        assert(spec_wd_step(st0, lview, n, expected_date) == Err::<
                                            PState,
                                            WdErr,
                                        >(WdErr::BadTime));
                                    }
                                    return Err(Error::ParseTime);
                                }
                                if !(d == date) {
                                    proof {
                                        assert(spec_wd_step(st0, lview, n, expected_date) == Err::<
                                            PState,
                                            WdErr,
                                        >(WdErr::Unexpected {
                                            line: n,
                                            expected: date,
                                            found: d,
                                        }));
                                    }
                                    return Err(
                                        Error::UnexpectedDate {
                                            file: file.to_owned(),
                                            line_nr,
                                            expected_date: date,
                                            found_date: d,
                                        },
                                    );
                                }
                                if t.minute_of_day() < cur.start_ts.minute_of_day() {
                                    proof {
                                        assert(spec_wd_step(st0, lview, n, expected_date) == Err::<
                                            PState,
                                            WdErr,
                                        >(WdErr::NonMonotonic { line: n }));
                                    }
                                    return Err(
                                        Error::TimeNotMonotonic { file: file.to_owned(), line_nr },
                                    );
                                }
                                done.push(cur);
                                let cur2 = start_raw(d, t, &desc, line);
                                let st2 = ParseState::InEntries { date, cur: cur2, done };
                                proof {
                                    assert(raws_rec_of(done@) =~= done_rec.push(cur_rec));
                                    assert(spec_wd_step(st0, lview, n, expected_date) == Ok::<
                                        PState,
                                        WdErr,
                                    >(pstate_of(st2)));
                                    let s0 = done_rec.push(cur_rec);
                                    let s1 = s0.push(raw_rec_of(cur2));
                                    assert forall|k: int|
                                        0 <= k < s1.len() implies (#[trigger] s1[k]).time.valid()
                                        by {
                                        if k < s1.len() - 1 {
                                            assert(s1[k] == s0[k]);
                                        } else {
                                            assert(s1[k] == raw_rec_of(cur2));
                                        }
                                    }
                                    assert forall|k: int|
                                        0 <= k && k + 1 < s1.len() implies (#[trigger] s1[k]).time.spec_minute_of_day()
                                        <= s1[k + 1].time.spec_minute_of_day() by {
                                        assert(s1[k] == s0[k]);
                                        if k + 1 < s1.len() - 1 {
                                            assert(s1[k + 1] == s0[k + 1]);
                                        } else {
                                            assert(s1[k] == cur_rec);
                                            assert(s1[k + 1] == raw_rec_of(cur2));
                                        }
                                    }
                                    assert(raws_wf(raws_rec_of(done@).push(raw_rec_of(cur2))));
                                }
                                st2
                            },
                        }
                    }
                },
                ParseState::Trailing { date, done, mut text } => {
                    let ghost done_rec = raws_rec_of(done@);
                    let ghost text0 = text@;
                    if line_is_comment(line) {
                        proof {
                            assert(spec_wd_step(st0, lview, n, expected_date) == Ok::<
                                PState,
                                WdErr,
                            >(st0));
                        }
                        ParseState::Trailing { date, done, text }
                    } else {
                        match header_shape(line) {
                            Some(_) => {
                                proof {
                                    assert(spec_wd_step(st0, lview, n, expected_date) == Err::<
                                        PState,
                                        WdErr,
                                    >(WdErr::AfterSep { line: n }));
                                }
                                return Err(
                                    Error::EntryAfterSeparator { file: file.to_owned(), line_nr },
                                );
                            },
                            None => {
                                crate::util::push_chars(&mut text, line);
                                proof {
                                    assert(text@ == text0 + lview);
                                }
                                ParseState::Trailing { date, done, text }
                            },
                        }
                    }
                },
            };
            proof {
                assert(spec_wd_step(st0, lview, n, expected_date) == Ok::<PState, WdErr>(
                    pstate_of(st),
                ));
            }
            i = i + 1;
        }
        let ghost gfin = pstate_of(st);
        proof {
            assert(spec_wd_finalize(gfin, expected_date, lenient) == whole);
        }
        let (date_opt, done, text) = match st {
            ParseState::Skipping => (expected_date, Vec::new(), String::new()),
            ParseState::InEntries { date, cur, mut done } => {
                let ghost done0 = done@;
                done.push(cur);
                proof {
                    assert(raws_rec_of(done@) =~= raws_rec_of(done0).push(
                        raw_rec_of(done@.last()),
                    ));
                }
                (Some(date), done, String::new())
            },
            ParseState::Trailing { date, done, text } => (date, done, text),
        };
        let ghost raws = raws_rec_of(done@);
        proof {
            if st is Skipping {
                assert(raws =~= Seq::<RawRec>::empty());
            }
            assert(whole == spec_wd_complete(date_opt, raws, text@, lenient));
            assert(raws_wf(raws));
        }
        let d = match date_opt {
            None => {
                return Err(Error::MissingDate { file: file.to_owned() });
            },
            Some(d) => d,
        };
        if done.len() > 0 && !lenient {
            let pause = String::from_str("Pause");
            if !(done[done.len() - 1].key == pause) {
                proof {
                    assert(raws.last() == raw_rec_of(done@.last()));
                    assert(raws.last().key != "Pause"@);
                }
                return Err(Error::MissingFinalPause { file: file.to_owned() });
            }
        }
        proof {
            if done@.len() > 0 {
                assert(raws.last() == raw_rec_of(done@.last()));
            }
            assert forall|k: int| 0 <= k < done@.len() implies (#[trigger] done@[k]).start_ts.valid()
                by {
                assert(raws[k] == raw_rec_of(done@[k]));
            }
            assert forall|k: int|
                0 <= k && k + 1 < done@.len() implies (#[trigger] done@[k]).start_ts.spec_minute_of_day()
                <= done@[k + 1].start_ts.spec_minute_of_day() by {
                assert(raws[k] == raw_rec_of(done@[k]));
                assert(raws[k + 1] == raw_rec_of(done@[k + 1]));
            }
        }
        let ghost text_v = text@;
        let ghost done_v = done@;
        let entries = Entry::from(done);
        let wd = WorkDay { date: d, entries, additional_text: text };
        proof {
            assert forall|i: int| 0 <= i < raws.len() implies {
                let e = #[trigger] wd.entries@[i];
                &&& e.start_ts == raws[i].time
                &&& e.duration@ == raw_seg_dur(raws, i)
                &&& e.key@ == raws[i].key
                &&& e.sub_keys@.len() == raws[i].subs.len()
                &&& (forall|j: int|
                    0 <= j < e.sub_keys@.len() ==> #[trigger] e.sub_keys@[j]@ == raws[i].subs[j])
                &&& e.raw_data@ == raws[i].raw
            } by {
                assert(raws[i] == raw_rec_of(done_v[i]));
                if i + 1 < raws.len() {
                    assert(raws[i + 1] == raw_rec_of(done_v[i + 1]));
                }
            }
            assert(wd_matches(wd, WdRec { date: d, raws, text: text_v }));
        }
        Ok(wd)
    }
}

} // verus!

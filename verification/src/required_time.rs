//! Day-type declarations and the required-time consolidation: parsing the
//! holiday/vacation file, resolving conflicting declarations to one
//! decision per calendar date, and computing the required work duration
//! for every date of a queried window.
use crate::dates::Date;
use crate::dates::Duration;
use crate::util::char_at_is;
use crate::util::char_eq;
use crate::util::chars_vec;
use crate::util::check_date_shape;
use crate::util::date_at;
use crate::util::date_shape_at;
use crate::util::date_value_at;
use crate::util::find_char;
use crate::util::first_occ;
use crate::util::lemma_lines_count;
use crate::util::skip_char_run;
use crate::util::span_of;
use crate::util::spec_lines;
use crate::util::spec_strip_nl;
use crate::util::split_lines;
use crate::util::string_from_range;
use crate::util::strip_spaces_end;
use crate::util::strip_trailing_spaces;
use crate::util::subvec;
use crate::Error;
use vstd::prelude::*;

verus! {

/// The classification of one calendar date for required-hours purposes.
/// Five variants carry the free-text description given in the holiday
/// file.
#[derive(Debug, PartialEq, Eq)]
pub enum DayType {
    WorkDay,
    JobTravel { description: String },
    Sick { description: String },
    WeekEnd,
    Holiday { name: String },
    Vacation { description: String },
    VacationHalfDay { description: String },
    OvertimeReduction { description: String },
}

/// The three-level precedence ranking among day types, used to resolve
/// conflicting declarations: `Work < Vacation < WeekendAndHolidays`.
#[derive(Clone, Copy, Debug, PartialEq, Eq, Structural)]
pub enum DayTypeClass {
    Work,
    Vacation,
    WeekendAndHolidays,
}

/// The class of each day type.
pub open spec fn spec_class(dt: DayType) -> DayTypeClass {
    match dt {
        DayType::WorkDay => DayTypeClass::Work,
        DayType::OvertimeReduction { .. } => DayTypeClass::Work,
        DayType::WeekEnd => DayTypeClass::WeekendAndHolidays,
        DayType::JobTravel { .. } => DayTypeClass::Work,
        DayType::Sick { .. } => DayTypeClass::Work,
        DayType::Holiday { .. } => DayTypeClass::WeekendAndHolidays,
        DayType::Vacation { .. } => DayTypeClass::Vacation,
        DayType::VacationHalfDay { .. } => DayTypeClass::Vacation,
    }
}

/// The position of a class in the precedence order.
pub open spec fn spec_class_rank(c: DayTypeClass) -> int {
    match c {
        DayTypeClass::Work => 0,
        DayTypeClass::Vacation => 1,
        DayTypeClass::WeekendAndHolidays => 2,
    }
}

impl DayType {
    /// The precedence class of this day type.
    pub fn to_day_type_class(&self) -> (r: DayTypeClass)
        ensures
            r == spec_class(*self),
    {
        match *self {
            DayType::WorkDay => DayTypeClass::Work,
            DayType::OvertimeReduction { .. } => DayTypeClass::Work,
            DayType::WeekEnd => DayTypeClass::WeekendAndHolidays,
            DayType::JobTravel { .. } => DayTypeClass::Work,
            DayType::Sick { .. } => DayTypeClass::Work,
            DayType::Holiday { .. } => DayTypeClass::WeekendAndHolidays,
            DayType::Vacation { .. } => DayTypeClass::Vacation,
            DayType::VacationHalfDay { .. } => DayTypeClass::Vacation,
        }
    }
}

impl DayTypeClass {
    /// The position of this class in the precedence order.
    pub fn rank(&self) -> (r: u32)
        ensures
            r == spec_class_rank(*self),
    {
        match *self {
            DayTypeClass::Work => 0,
            DayTypeClass::Vacation => 1,
            DayTypeClass::WeekendAndHolidays => 2,
        }
    }
}

impl Clone for DayType {
    /// A clone is equal to the original, field for field.
    fn clone(&self) -> (r: DayType)
        ensures
            r == *self,
    {
        match self {
            DayType::WorkDay => DayType::WorkDay,
            DayType::JobTravel { description } => DayType::JobTravel {
                description: description.clone(),
            },
            DayType::Sick { description } => DayType::Sick { description: description.clone() },
            DayType::WeekEnd => DayType::WeekEnd,
            DayType::Holiday { name } => DayType::Holiday { name: name.clone() },
            DayType::Vacation { description } => DayType::Vacation {
                description: description.clone(),
            },
            DayType::VacationHalfDay { description } => DayType::VacationHalfDay {
                description: description.clone(),
            },
            DayType::OvertimeReduction { description } => DayType::OvertimeReduction {
                description: description.clone(),
            },
        }
    }
}

/// One raw declaration from the holiday file: the date it covers, the
/// declared type, whether the declaration's source line was an explicit
/// date range, and that line's number.
#[derive(Debug, PartialEq, Eq)]
pub struct DayTypeEntry {
    pub date: Date,
    pub day_type: DayType,
    pub given_as_range: bool,
    pub line_nr: u32,
}

impl Clone for DayTypeEntry {
    /// A clone is equal to the original, field for field.
    fn clone(&self) -> (r: DayTypeEntry)
        ensures
            r == *self,
    {
        DayTypeEntry {
            date: self.date,
            day_type: self.day_type.clone(),
            given_as_range: self.given_as_range,
            line_nr: self.line_nr,
        }
    }
}

/// One finalized decision: the required work duration for one date.
#[derive(Debug, PartialEq, Eq)]
pub struct RequiredTime {
    pub date: Date,
    pub day_type: DayType,
    pub required_time: Duration,
    pub line_nr: u32,
}

impl Clone for RequiredTime {
    /// A clone is equal to the original, field for field.
    fn clone(&self) -> (r: RequiredTime)
        ensures
            r == *self,
    {
        RequiredTime {
            date: self.date,
            day_type: self.day_type.clone(),
            required_time: self.required_time,
            line_nr: self.line_nr,
        }
    }
}

/// Whether this side of a same-date pair raises a duplicate-date conflict:
/// it does unless it was given as a range, is of weekend/holiday class, or
/// is a job-travel declaration.
pub open spec fn spec_side_conflicts(e: DayTypeEntry) -> bool {
    &&& !e.given_as_range
    &&& spec_class(e.day_type) != DayTypeClass::WeekendAndHolidays
    &&& !(e.day_type is JobTravel)
}

/// The conflict rule between an already-stored declaration and a new one:
/// `None` when they are reconcilable, `Some(line)` with the line of the
/// first offending side otherwise.  Records for different dates, and pairs
/// where either side declares a plain work day, never conflict.
pub open spec fn spec_check_day_types(orig: DayTypeEntry, new_entry: DayTypeEntry) -> Option<
    u32,
> {
    if orig.date != new_entry.date {
        None
    } else if orig.day_type is WorkDay || new_entry.day_type is WorkDay {
        None
    } else if spec_side_conflicts(orig) {
        Some(orig.line_nr)
    } else if spec_side_conflicts(new_entry) {
        Some(new_entry.line_nr)
    } else {
        None
    }
}

/// Decides whether a stored declaration and a new declaration for the same
/// date can coexist; reports `DuplicateDate` at the first offending side's
/// line otherwise.
pub fn check_day_types(orig: &DayTypeEntry, new_entry: &DayTypeEntry) -> (r: Result<(), Error>)
    ensures
        match r {
            Ok(()) => spec_check_day_types(*orig, *new_entry) is None,
            Err(e) => {
                &&& spec_check_day_types(*orig, *new_entry) matches Some(l)
                &&& (e matches Error::DuplicateDate { file, line_nr } && line_nr
                    == spec_check_day_types(*orig, *new_entry)->0 && file@ == Seq::<
                    char,
                >::empty())
            },
        },
{
    if !(orig.date == new_entry.date) {
        return Ok(());
    }
    if matches!(orig.day_type, DayType::WorkDay) || matches!(new_entry.day_type, DayType::WorkDay) {
        return Ok(());
    }
    if !orig.given_as_range && !matches!(
        orig.day_type.to_day_type_class(),
        DayTypeClass::WeekendAndHolidays,
    ) && !matches!(orig.day_type, DayType::JobTravel { .. }) {
        return Err(Error::DuplicateDate { file: String::new(), line_nr: orig.line_nr });
    }
    if !new_entry.given_as_range && !matches!(
        new_entry.day_type.to_day_type_class(),
        DayTypeClass::WeekendAndHolidays,
    ) && !matches!(new_entry.day_type, DayType::JobTravel { .. }) {
        return Err(Error::DuplicateDate { file: String::new(), line_nr: new_entry.line_nr });
    }
    Ok(())
}

/// The natural classification of a date: a work day Monday through
/// Friday, a weekend day otherwise.
pub open spec fn spec_natural_day_type(date: Date) -> DayType {
    if date.spec_is_weekend() {
        DayType::WeekEnd
    } else {
        DayType::WorkDay
    }
}

/// The natural classification of a date, from its weekday alone.
pub fn compute_day_type(date: &Date) -> (r: DayType)
    requires
        date.valid(),
    ensures
        r == spec_natural_day_type(*date),
{
    if date.is_weekend() {
        DayType::WeekEnd
    } else {
        DayType::WorkDay
    }
}

/// The required duration on a date that carries no explicit declaration:
/// the full daily duration Monday through Friday, zero on weekends.
pub open spec fn spec_simple_required(date: Date, duration_of_day: int) -> int {
    if date.spec_is_weekend() {
        0
    } else {
        duration_of_day
    }
}

fn compute_simple_required_time(date: &Date, duration_of_day: &Duration) -> (r: Duration)
    requires
        date.valid(),
    ensures
        r@ == spec_simple_required(*date, duration_of_day@),
{
    match compute_day_type(date) {
        DayType::WorkDay => *duration_of_day,
        _ => Duration::zero(),
    }
}

/// The required-duration table for an explicitly declared date, a
/// function of the declared type alone: the full daily duration for
/// work days and overtime reduction, half of it for a half vacation
/// day, and zero for travel, sickness, holidays, vacation and weekends.
/// Explicit work-day/weekend declarations never reach this table: the
/// consolidator's precondition rules them out.
pub open spec fn spec_required_duration(dt: DayType, duration_of_day: int) -> int {
    match dt {
        DayType::JobTravel { .. } => 0,
        DayType::Sick { .. } => 0,
        DayType::Holiday { .. } => 0,
        DayType::Vacation { .. } => 0,
        DayType::VacationHalfDay { .. } => duration_of_day / 2,
        DayType::OvertimeReduction { .. } => duration_of_day,
        DayType::WorkDay => duration_of_day,
        DayType::WeekEnd => 0,
    }
}

/// The index of the first entry for the given date, or -1 if none exists.
pub open spec fn spec_find_date(acc: Seq<DayTypeEntry>, d: Date) -> int
    decreases acc.len(),
{
    if acc.len() == 0 {
        -1
    } else if acc[0].date == d {
        0
    } else {
        let r = spec_find_date(acc.drop_first(), d);
        if r < 0 {
            -1
        } else {
            1 + r
        }
    }
}

/// `spec_find_date` names the first matching index, or -1 when no entry
/// matches.
pub proof fn lemma_find_date(acc: Seq<DayTypeEntry>, d: Date)
    ensures
        spec_find_date(acc, d) == -1 ==> forall|i: int|
            0 <= i < acc.len() ==> (#[trigger] acc[i]).date != d,
        spec_find_date(acc, d) != -1 ==> {
            let j = spec_find_date(acc, d);
            &&& 0 <= j < acc.len()
            &&& acc[j].date == d
            &&& forall|i: int| 0 <= i < j ==> (#[trigger] acc[i]).date != d
        },
    decreases acc.len(),
{
    if acc.len() > 0 && acc[0].date != d {
        lemma_find_date(acc.drop_first(), d);
        let r = spec_find_date(acc.drop_first(), d);
        if r < 0 {
            assert forall|i: int| 0 <= i < acc.len() implies (#[trigger] acc[i]).date != d by {
                if i > 0 {
                    assert(acc[i] == acc.drop_first()[i - 1]);
                }
            }
        } else {
            assert(acc[1 + r] == acc.drop_first()[r]);
            assert forall|i: int| 0 <= i < 1 + r implies (#[trigger] acc[i]).date != d by {
                if i > 0 {
                    assert(acc[i] == acc.drop_first()[i - 1]);
                }
            }
        }
    }
}

/// Inserting one declaration into the consolidated per-date list: a new
/// date is appended; a repeated date is checked for conflicts, and the
/// declaration of the strictly higher class wins (ties keep the stored
/// one).
pub open spec fn spec_insert(acc: Seq<DayTypeEntry>, e: DayTypeEntry) -> Result<
    Seq<DayTypeEntry>,
    u32,
> {
    let j = spec_find_date(acc, e.date);
    if j < 0 {
        Ok(acc.push(e))
    } else {
        match spec_check_day_types(acc[j], e) {
            Some(l) => Err(l),
            None => if spec_class_rank(spec_class(e.day_type)) > spec_class_rank(
                spec_class(acc[j].day_type),
            ) {
                Ok(acc.update(j, e))
            } else {
                Ok(acc)
            },
        }
    }
}

/// Phase one of consolidation: fold all raw declarations, in order, into
/// a list holding one declaration per date, or the line of the first
/// conflict.
pub open spec fn spec_fold(entries: Seq<DayTypeEntry>) -> Result<Seq<DayTypeEntry>, u32>
    decreases entries.len(),
{
    if entries.len() == 0 {
        Ok(Seq::empty())
    } else {
        match spec_fold(entries.drop_last()) {
            Err(l) => Err(l),
            Ok(acc) => spec_insert(acc, entries.last()),
        }
    }
}

/// Once the fold has failed on a prefix, the whole fold fails the same
/// way.
pub proof fn lemma_fold_err_persists(entries: Seq<DayTypeEntry>, k: int)
    requires
        0 <= k <= entries.len(),
        spec_fold(entries.take(k)) is Err,
    ensures
        spec_fold(entries) == spec_fold(entries.take(k)),
    decreases entries.len() - k,
{
    if k == entries.len() {
        assert(entries.take(k) =~= entries);
    } else {
        assert(entries.take(k + 1).drop_last() =~= entries.take(k));
        lemma_fold_err_persists(entries, k + 1);
    }
}

/// Phase two, one date: the finalized decision for `d`.  A date without a
/// stored declaration gets its natural day type and duration; a stored
/// declaration is first checked against a synthetic range-flagged record
/// of the date's natural classification, then priced by the
/// required-duration table.
pub open spec fn spec_materialize(acc: Seq<DayTypeEntry>, d: Date, duration_of_day: int) -> Result<
    RequiredTime,
    u32,
> {
    let j = spec_find_date(acc, d);
    if j < 0 {
        Ok(
            RequiredTime {
                date: d,
                day_type: spec_natural_day_type(d),
                required_time: Duration { minutes: spec_simple_required(d, duration_of_day) as i64 },
                line_nr: 0,
            },
        )
    } else {
        let stored = acc[j];
        let synthetic = DayTypeEntry {
            date: d,
            day_type: spec_natural_day_type(d),
            given_as_range: true,
            line_nr: 0,
        };
        match spec_check_day_types(synthetic, stored) {
            Some(l) => Err(l),
            None => Ok(
                RequiredTime {
                    date: d,
                    day_type: stored.day_type,
                    required_time: Duration {
                        minutes: spec_required_duration(stored.day_type, duration_of_day) as i64,
                    },
                    line_nr: stored.line_nr,
                },
            ),
        }
    }
}

/// Phase two of consolidation: one finalized decision per date of
/// `[cur, end]`, in ascending date order.
pub open spec fn spec_expand(
    acc: Seq<DayTypeEntry>,
    cur: Date,
    end: Date,
    duration_of_day: int,
) -> Result<Seq<RequiredTime>, u32>
    decreases end.rank() - cur.rank(),
        when cur.valid() && end.valid()
{
    if cur.rank() > end.rank() {
        Ok(Seq::empty())
    } else {
        match spec_materialize(acc, cur, duration_of_day) {
            Err(l) => Err(l),
            Ok(item) => if cur.rank() == end.rank() {
                Ok(seq![item])
            } else {
                match spec_expand(acc, cur.spec_succ(), end, duration_of_day) {
                    Err(l) => Err(l),
                    Ok(rest) => Ok(seq![item] + rest),
                }
            },
        }
    }
}

/// Both phases of consolidation, as `consolidate_required_time` performs
/// them.
pub open spec fn spec_consolidate(
    raw_entries: Seq<DayTypeEntry>,
    start_date: Date,
    end_date: Date,
    duration_of_day: int,
) -> Result<Seq<RequiredTime>, u32> {
    match spec_fold(raw_entries) {
        Err(l) => Err(l),
        Ok(acc) => spec_expand(acc, start_date, end_date, duration_of_day),
    }
}

/// The first entry of `acc` for the date `d`, if any.
fn find_date(acc: &Vec<DayTypeEntry>, d: Date) -> (r: Option<usize>)
    ensures
        match r {
            Some(j) => j == spec_find_date(acc@, d) && j < acc@.len() && acc@[j as int].date == d,
            None => spec_find_date(acc@, d) == -1,
        },
{
    proof {
        lemma_find_date(acc@, d);
    }
    let mut i: usize = 0;
    while i < acc.len()
        invariant
            i <= acc.len(),
            forall|k: int| 0 <= k < i ==> (#[trigger] acc@[k]).date != d,
        decreases acc.len() - i,
    {
        if acc[i].date == d {
            return Some(i);
        }
        i = i + 1;
    }
    None
}

/// Resolves all raw declarations to one decision per calendar date and
/// prices every date of the window `[start_date, end_date]`: the central
/// consolidation algorithm, exactly as `spec_consolidate` states it.  A
/// conflict aborts the whole run with `DuplicateDate` at the offending
/// line.
#[verifier::rlimit(60)]
pub fn consolidate_required_time(
    raw_entries: &Vec<DayTypeEntry>,
    start_date: &Date,
    end_date: &Date,
    duration_of_day: &Duration,
) -> (r: Result<Vec<RequiredTime>, Error>)
    requires
        start_date.valid(),
        end_date.valid(),
        duration_of_day@ >= 0,
        forall|i: int|
            0 <= i < raw_entries@.len() ==> !((#[trigger] raw_entries@[i]).day_type is WorkDay)
                && !(raw_entries@[i].day_type is WeekEnd),
    ensures
        ({
            let sc = spec_consolidate(raw_entries@, *start_date, *end_date, duration_of_day@);
            match r {
                Ok(v) => sc == Ok::<Seq<RequiredTime>, u32>(v@),
                Err(e) => {
                    &&& sc is Err
                    &&& e matches Error::DuplicateDate { file, line_nr } && line_nr == sc->Err_0
                        && file@.len() == 0
                },
            }
        }),
{
    let mut acc: Vec<DayTypeEntry> = Vec::new();
    let mut i: usize = 0;
    proof {
        assert(raw_entries@.take(0) =~= Seq::<DayTypeEntry>::empty());
    }
    while i < raw_entries.len()
        invariant
            i <= raw_entries@.len(),
            spec_fold(raw_entries@.take(i as int)) == Ok::<Seq<DayTypeEntry>, u32>(acc@),
            forall|k: int|
                0 <= k < acc@.len() ==> !((#[trigger] acc@[k]).day_type is WorkDay) && !(
                acc@[k].day_type is WeekEnd),
        decreases raw_entries@.len() - i,
    {
        let e = &raw_entries[i];
        proof {
            assert(raw_entries@.take(i + 1 as int).drop_last() =~= raw_entries@.take(i as int));
            assert(raw_entries@.take(i + 1 as int).last() == raw_entries@[i as int]);
        }
        match find_date(&acc, e.date) {
            None => {
                acc.push(e.clone());
            },
            Some(j) => {
                match check_day_types(&acc[j], e) {
                    Err(err) => {
                        proof {
                            lemma_fold_err_persists(raw_entries@, i + 1);
                            assert(raw_entries@.take(raw_entries@.len() as int) =~= raw_entries@);
                        }
                        return Err(err);
                    },
                    Ok(()) => {
                        if e.day_type.to_day_type_class().rank()
                            > acc[j].day_type.to_day_type_class().rank() {
                            acc[j] = e.clone();
                        }
                    },
                }
            },
        }
        i = i + 1;
    }
    proof {
        assert(raw_entries@.take(raw_entries@.len() as int) =~= raw_entries@);
    }
    let mut ret: Vec<RequiredTime> = Vec::new();
    let mut cur = *start_date;
    if !cur.le(end_date) {
        return Ok(ret);
    }
    loop
        invariant
            cur.valid(),
            start_date.valid(),
            end_date.valid(),
            duration_of_day@ >= 0,
            cur.rank() <= end_date.rank(),
            spec_fold(raw_entries@) == Ok::<Seq<DayTypeEntry>, u32>(acc@),
            forall|k: int|
                0 <= k < acc@.len() ==> !((#[trigger] acc@[k]).day_type is WorkDay) && !(
                acc@[k].day_type is WeekEnd),
            ({
                let whole = spec_expand(acc@, *start_date, *end_date, duration_of_day@);
                let rest = spec_expand(acc@, cur, *end_date, duration_of_day@);
                match rest {
                    Ok(tail) => whole == Ok::<Seq<RequiredTime>, u32>(ret@ + tail),
                    Err(l) => whole == Err::<Seq<RequiredTime>, u32>(l),
                }
            }),
        decreases end_date.rank() - cur.rank(),
    {
        let rt = match find_date(&acc, cur) {
            None => RequiredTime {
                date: cur,
                day_type: compute_day_type(&cur),
                required_time: compute_simple_required_time(&cur, duration_of_day),
                line_nr: 0,
            },
            Some(j) => {
                let synthetic = DayTypeEntry {
                    date: cur,
                    day_type: compute_day_type(&cur),
                    given_as_range: true,
                    line_nr: 0,
                };
                match check_day_types(&synthetic, &acc[j]) {
                    Err(err) => {
                        return Err(err);
                    },
                    Ok(()) => RequiredTime {
                        date: cur,
                        day_type: acc[j].day_type.clone(),
                        required_time: compute_required_time(&acc[j].day_type, duration_of_day),
                        line_nr: acc[j].line_nr,
                    },
                }
            },
        };
        proof {
            assert(rt == spec_materialize(acc@, cur, duration_of_day@)->Ok_0);
        }
        let ghost old_ret = ret@;
        ret.push(rt);
        if cur.rank_of() == end_date.rank_of() {
            proof {
                assert(spec_expand(acc@, cur, *end_date, duration_of_day@) == Ok::<
                    Seq<RequiredTime>,
                    u32,
                >(seq![rt]));
                assert(old_ret + seq![rt] =~= ret@);
            }
            return Ok(ret);
        }
        let next = cur.succ();
        proof {
            let rest_next = spec_expand(acc@, next, *end_date, duration_of_day@);
            if rest_next is Ok {
                assert(old_ret + (seq![rt] + rest_next->Ok_0) =~= ret@ + rest_next->Ok_0);
            }
        }
        cur = next;
    }
}

fn compute_required_time(day_type: &DayType, duration_of_day: &Duration) -> (r: Duration)
    requires
        duration_of_day@ >= 0,
        !(day_type is WorkDay),
        !(day_type is WeekEnd),
    ensures
        r@ == spec_required_duration(*day_type, duration_of_day@),
{
    match day_type {
        DayType::JobTravel { .. } => Duration::zero(),
        DayType::Sick { .. } => Duration::zero(),
        DayType::Holiday { .. } => Duration::zero(),
        DayType::Vacation { .. } => Duration::zero(),
        DayType::VacationHalfDay { .. } => duration_of_day.half(),
        DayType::OvertimeReduction { .. } => *duration_of_day,
        DayType::WorkDay | DayType::WeekEnd => {
            proof {
                assert(false);
            }
            Duration::zero()
        },
    }
}

/// A successful consolidation covers its window completely: the result
/// starts at the window's first date, ends at its last, and walks the
/// calendar one successor step per element — one decision for every
/// date of `[cur, end]`, in ascending order.
pub proof fn lemma_expand_covers_window(
    acc: Seq<DayTypeEntry>,
    cur: Date,
    end: Date,
    duration_of_day: int,
)
    requires
        cur.valid(),
        end.valid(),
        cur.rank() <= end.rank(),
        spec_expand(acc, cur, end, duration_of_day) is Ok,
    ensures
        ({
            let v = spec_expand(acc, cur, end, duration_of_day)->Ok_0;
            &&& v.len() >= 1
            &&& v[0].date == cur
            &&& v[v.len() - 1].date == end
            &&& forall|i: int| 0 <= i < v.len() ==> (#[trigger] v[i]).date.valid()
            &&& forall|i: int|
                0 <= i && i + 1 < v.len() ==> (#[trigger] v[i + 1]).date == v[i].date.spec_succ()
        }),
    decreases end.rank() - cur.rank(),
{
    let v = spec_expand(acc, cur, end, duration_of_day)->Ok_0;
    if cur.rank() == end.rank() {
        crate::dates::lemma_rank_injective(cur, end);
    } else {
        lemma_expand_covers_window(acc, cur.spec_succ(), end, duration_of_day);
        let rest = spec_expand(acc, cur.spec_succ(), end, duration_of_day)->Ok_0;
        let item = spec_materialize(acc, cur, duration_of_day)->Ok_0;
        assert(spec_materialize(acc, cur, duration_of_day) is Ok);
        assert(spec_expand(acc, cur.spec_succ(), end, duration_of_day) is Ok);
        assert(v == seq![item] + rest);
        assert(item.date == cur);
        assert(v[0] == item);
        assert(v[0].date == cur);
        assert forall|i: int|
            0 <= i && i + 1 < v.len() implies (#[trigger] v[i + 1]).date == v[i].date.spec_succ() by {
            if i == 0 {
                assert(v[1] == rest[0]);
            } else {
                assert(v[i] == rest[i - 1]);
                assert(v[i + 1] == rest[(i - 1) + 1]);
                assert(rest[(i - 1) + 1].date == rest[i - 1].date.spec_succ());
            }
        }
        assert forall|i: int| 0 <= i < v.len() implies (#[trigger] v[i]).date.valid() by {
            if i > 0 {
                assert(v[i] == rest[i - 1]);
            }
        }
        assert(v[v.len() - 1] == rest[rest.len() - 1]);
    }
}

/// Two declarations for the same date conflict on the second one's
/// account when the earlier side yields (it was given as a range, is of
/// weekend/holiday class, or declares job travel) while the later one is
/// a non-range declaration of a type outside the weekend/holiday class
/// (and not job travel): consolidating them fails with `DuplicateDate`
/// at the second declaration's own source line.
pub proof fn lemma_second_declaration_conflicts(
    e1: DayTypeEntry,
    e2: DayTypeEntry,
    start_date: Date,
    end_date: Date,
    duration_of_day: int,
)
    requires
        e1.date == e2.date,
        !(e1.day_type is WorkDay),
        !(e2.day_type is WorkDay),
        !spec_side_conflicts(e1),
        !e2.given_as_range,
        spec_class(e2.day_type) != DayTypeClass::WeekendAndHolidays,
        !(e2.day_type is JobTravel),
    ensures
        spec_consolidate(seq![e1, e2], start_date, end_date, duration_of_day) == Err::<
            Seq<RequiredTime>,
            u32,
        >(e2.line_nr),
{
    let s = seq![e1, e2];
    assert(s.drop_last() =~= seq![e1]);
    assert(seq![e1].drop_last() =~= Seq::<DayTypeEntry>::empty());
    assert(spec_find_date(Seq::<DayTypeEntry>::empty(), e1.date) == -1);
    assert(Seq::<DayTypeEntry>::empty().push(e1) =~= seq![e1]);
    assert(seq![e1].last() == e1);
    assert(spec_fold(Seq::<DayTypeEntry>::empty()) == Ok::<Seq<DayTypeEntry>, u32>(
        Seq::empty(),
    ));
    assert(spec_insert(Seq::<DayTypeEntry>::empty(), e1) == Ok::<Seq<DayTypeEntry>, u32>(
        seq![e1],
    ));
    assert(spec_fold(seq![e1]) == Ok::<Seq<DayTypeEntry>, u32>(seq![e1]));
    assert(s.last() == e2);
    assert(spec_find_date(seq![e1], e2.date) == 0);
    assert(spec_check_day_types(e1, e2) == Some(e2.line_nr));
    assert(spec_fold(s) == Err::<Seq<DayTypeEntry>, u32>(e2.line_nr));
}

/// The shape of one declaration line, as read off the text: the start and
/// end dates' fields, whether an explicit range was written, and the
/// declaration tail (code and description) with surrounding blanks
/// removed.
pub struct RtShape {
    pub start: Date,
    pub end: Date,
    pub has_range: bool,
    pub decl: Seq<char>,
}

/// Reads the `YYYY-MM-DD[--YYYY-MM-DD] -- <tail>` shape off a line, or
/// nothing when the line is not a declaration.
pub open spec fn spec_rt_shape(line: Seq<char>) -> Option<RtShape> {
    let s = spec_strip_nl(line);
    if !date_shape_at(s, 0) {
        None
    } else {
        let has_range = date_shape_at(s, 12) && s[10] == '-' && s[11] == '-';
        let q: int = if has_range {
            22
        } else {
            10
        };
        if !(q + 4 <= s.len() && s[q] == ' ' && s[q + 1] == '-' && s[q + 2] == '-' && s[q + 3]
            == ' ') {
            None
        } else {
            let w = q + 4 + span_of(s.skip(q + 4), ' ');
            let body = strip_trailing_spaces(s);
            let decl = if w <= body.len() {
                body.subrange(w, body.len() as int)
            } else {
                Seq::empty()
            };
            Some(
                RtShape {
                    start: date_value_at(s, 0),
                    end: if has_range {
                        date_value_at(s, 12)
                    } else {
                        date_value_at(s, 0)
                    },
                    has_range,
                    decl,
                },
            )
        }
    }
}

/// The six one-letter codes of the holiday file.
pub open spec fn spec_code_char(c: char) -> bool {
    c == 'W' || c == 'K' || c == 'F' || c == 'U' || c == 'H' || c == 'Ü'
}

/// Reads the declaration tail: its code letter and its description.  The
/// description runs to the first colon when the tail holds one, and is
/// the first blank-delimited word otherwise.
pub open spec fn spec_decl_parse(decl: Seq<char>) -> Option<(char, Seq<char>)> {
    if !(decl.len() >= 2 && spec_code_char(decl[0]) && decl[1] == ' ') {
        None
    } else {
        let w = 1 + span_of(decl.skip(1), ' ');
        let rest = decl.skip(w);
        let p = first_occ(rest, ':');
        if p < rest.len() {
            Some((decl[0], rest.take(p)))
        } else {
            Some((decl[0], rest.take(first_occ(rest, ' '))))
        }
    }
}

/// Whether a day type is the one the given code letter declares, with the
/// given description.  Plain work-day and weekend types are never
/// declared by a code.
pub open spec fn dt_matches_code(dt: DayType, code: char, text: Seq<char>) -> bool {
    match dt {
        DayType::JobTravel { description } => code == 'W' && description@ == text,
        DayType::Sick { description } => code == 'K' && description@ == text,
        DayType::Holiday { name } => code == 'F' && name@ == text,
        DayType::Vacation { description } => code == 'U' && description@ == text,
        DayType::VacationHalfDay { description } => code == 'H' && description@ == text,
        DayType::OvertimeReduction { description } => code == 'Ü' && description@ == text,
        DayType::WorkDay => false,
        DayType::WeekEnd => false,
    }
}

/// Every date of `[d, e]`, in ascending order.
pub open spec fn spec_date_range(d: Date, e: Date) -> Seq<Date>
    decreases e.rank() - d.rank(),
        when d.valid() && e.valid()
{
    if d.rank() > e.rank() {
        Seq::empty()
    } else if d.rank() == e.rank() {
        seq![d]
    } else {
        seq![d] + spec_date_range(d.spec_succ(), e)
    }
}

/// One parsed declaration, covering one date.
pub struct RtRec {
    pub date: Date,
    pub code: char,
    pub text: Seq<char>,
    pub range: bool,
    pub line: int,
}

/// How one holiday-file line can fail.
pub enum RtParseErr {
    /// A date written on the line does not exist in the calendar.
    InvalidDate,
    /// A backwards range or an unreadable declaration tail, at this line.
    BadLine(int),
}

/// The declarations of one line: nothing for a line that is no
/// declaration, one record per date of the declared range otherwise.
pub open spec fn spec_rt_line(line: Seq<char>, n: int) -> Result<Seq<RtRec>, RtParseErr> {
    match spec_rt_shape(line) {
        None => Ok(Seq::empty()),
        Some(sh) => {
            if !sh.start.valid() || !sh.end.valid() {
                Err(RtParseErr::InvalidDate)
            } else if sh.start.rank() > sh.end.rank() {
                Err(RtParseErr::BadLine(n))
            } else {
                match spec_decl_parse(sh.decl) {
                    None => Err(RtParseErr::BadLine(n)),
                    Some((code, text)) => Ok(
                        spec_date_range(sh.start, sh.end).map_values(
                            |d: Date|
                                RtRec { date: d, code: code, text: text, range: sh.has_range, line: n },
                        ),
                    ),
                }
            }
        },
    }
}

/// The declarations of the first `n` lines, in file order.
pub open spec fn spec_rt_upto(lines: Seq<Seq<char>>, n: int) -> Result<Seq<RtRec>, RtParseErr>
    decreases n,
{
    if n <= 0 {
        Ok(Seq::empty())
    } else {
        match spec_rt_upto(lines, n - 1) {
            Err(e) => Err(e),
            Ok(acc) => match spec_rt_line(lines[n - 1], n) {
                Err(e) => Err(e),
                Ok(recs) => Ok(acc + recs),
            },
        }
    }
}

/// Once a prefix of the file has failed, the whole file fails the same
/// way.
pub proof fn lemma_rt_upto_err_persists(lines: Seq<Seq<char>>, k: int, n: int)
    requires
        0 <= k <= n,
        spec_rt_upto(lines, k) is Err,
    ensures
        spec_rt_upto(lines, n) == spec_rt_upto(lines, k),
    decreases n - k,
{
    if k < n {
        lemma_rt_upto_err_persists(lines, k, n - 1);
    }
}

/// Whether a stored entry is what one parsed declaration record calls
/// for.
pub open spec fn rec_matches(e: DayTypeEntry, rec: RtRec) -> bool {
    &&& e.date == rec.date
    &&& dt_matches_code(e.day_type, rec.code, rec.text)
    &&& e.given_as_range == rec.range
    &&& e.line_nr as int == rec.line
}

/// Reads the date-and-range prefix of a declaration line.
fn rt_shape(line: &Vec<char>) -> (r: Option<(Date, Date, bool, Vec<char>)>)
    ensures
        match spec_rt_shape(line@) {
            None => r is None,
            Some(sh) => {
                &&& r matches Some((d1, d2, hr, decl))
                &&& d1 == sh.start
                &&& d2 == sh.end
                &&& hr == sh.has_range
                &&& decl@ == sh.decl
            },
        },
{
    let e0 = if line.len() > 0 && char_at_is(line, line.len() - 1, '\n') {
        line.len() - 1
    } else {
        line.len()
    };
    let s = subvec(line, 0, e0);
    proof {
        if line@.len() > 0 && line@.last() == '\n' {
            assert(s@ =~= spec_strip_nl(line@));
        } else {
            assert(s@ =~= spec_strip_nl(line@));
        }
    }
    if !check_date_shape(&s, 0) {
        return None;
    }
    let has_range = check_date_shape(&s, 12) && char_at_is(&s, 10, '-') && char_at_is(&s, 11, '-');
    let q: usize = if has_range {
        22
    } else {
        10
    };
    if q + 4 > s.len() {
        return None;
    }
    if !char_at_is(&s, q, ' ') || !char_at_is(&s, q + 1, '-') || !char_at_is(&s, q + 2, '-')
        || !char_at_is(&s, q + 3, ' ') {
        return None;
    }
    let w = skip_char_run(&s, q + 4, ' ');
    let e = strip_spaces_end(&s, s.len());
    proof {
        assert(s@.take(s@.len() as int) =~= s@);
    }
    let decl = if w <= e {
        let d = subvec(&s, w, e);
        proof {
            assert(s@.take(e as int).subrange(w as int, e as int) =~= s@.subrange(
                w as int,
                e as int,
            ));
        }
        d
    } else {
        Vec::new()
    };
    let d1 = date_at(&s, 0);
    let d2 = if has_range {
        date_at(&s, 12)
    } else {
        d1
    };
    Some((d1, d2, has_range, decl))
}

/// Reads the code letter and description of a declaration tail.
fn decl_parse(decl: &Vec<char>) -> (r: Option<(char, String)>)
    ensures
        match spec_decl_parse(decl@) {
            None => r is None,
            Some((c, text)) => {
                &&& r matches Some((rc, s))
                &&& rc == c
                &&& s@ == text
            },
        },
{
    if decl.len() < 2 {
        return None;
    }
    let c0 = decl[0];
    let is_code = char_at_is(decl, 0, 'W') || char_at_is(decl, 0, 'K') || char_at_is(decl, 0, 'F')
        || char_at_is(decl, 0, 'U') || char_at_is(decl, 0, 'H') || char_at_is(decl, 0, 'Ü');
    if !is_code || !char_at_is(decl, 1, ' ') {
        return None;
    }
    let w = skip_char_run(decl, 1, ' ');
    let p = find_char(decl, w, ':');
    proof {
        assert(decl@.skip(w as int).take(p - w) =~= decl@.subrange(w as int, p as int));
    }
    if p < decl.len() {
        Some((c0, string_from_range(decl, w, p)))
    } else {
        let t = find_char(decl, w, ' ');
        proof {
            assert(decl@.skip(w as int).take(t - w) =~= decl@.subrange(w as int, t as int));
        }
        Some((c0, string_from_range(decl, w, t)))
    }
}

/// Appends one entry per date of `[d1, d2]`, all carrying the same
/// declaration.
fn append_decl_entries(
    out: &mut Vec<DayTypeEntry>,
    d1: Date,
    d2: Date,
    has_range: bool,
    dt: &DayType,
    line_nr: u32,
)
    requires
        d1.valid(),
        d2.valid(),
        d1.rank() <= d2.rank(),
    ensures
        ({
            let range = spec_date_range(d1, d2);
            &&& final(out)@.len() == old(out)@.len() + range.len()
            &&& final(out)@.subrange(0, old(out)@.len() as int) == old(out)@
            &&& forall|k: int|
                0 <= k < range.len() ==> {
                    let e = #[trigger] final(out)@[old(out)@.len() + k];
                    &&& e.date == range[k]
                    &&& e.day_type == dt
                    &&& e.given_as_range == has_range
                    &&& e.line_nr == line_nr
                }
        }),
{
    let ghost full = spec_date_range(d1, d2);
    let ghost base = out@.len();
    let ghost saved = out@;
    let ghost mut pushed: Seq<Date> = Seq::empty();
    let mut cur = d1;
    proof {
        assert(full =~= pushed + spec_date_range(cur, d2));
    }
    while cur.rank_of() < d2.rank_of()
        invariant
            cur.valid(),
            cur.rank() <= d2.rank(),
            full == pushed + spec_date_range(cur, d2),
            out@.len() == base + pushed.len(),
            out@.subrange(0, base as int) == saved,
            forall|k: int|
                0 <= k < pushed.len() ==> {
                    let e = #[trigger] out@[base + k];
                    &&& e.date == pushed[k]
                    &&& e.day_type == dt
                    &&& e.given_as_range == has_range
                    &&& e.line_nr == line_nr
                },
        decreases d2.rank() - cur.rank(),
    {
        let ghost out_before = out@;
        let ghost pushed_before = pushed;
        out.push(
            DayTypeEntry { date: cur, day_type: dt.clone(), given_as_range: has_range, line_nr },
        );
        proof {
            pushed = pushed.push(cur);
            assert(out@.subrange(0, base as int) =~= out_before.subrange(0, base as int));
            assert(spec_date_range(cur, d2) == seq![cur] + spec_date_range(cur.spec_succ(), d2));
            assert(pushed_before + spec_date_range(cur, d2) =~= pushed + spec_date_range(
                cur.spec_succ(),
                d2,
            ));
        }
        cur = cur.succ();
    }
    let ghost out_before = out@;
    let ghost pushed_before = pushed;
    out.push(DayTypeEntry { date: cur, day_type: dt.clone(), given_as_range: has_range, line_nr });
    proof {
        pushed = pushed.push(cur);
        assert(out@.subrange(0, base as int) =~= out_before.subrange(0, base as int));
        assert(spec_date_range(cur, d2) =~= seq![cur]);
        assert(pushed_before + spec_date_range(cur, d2) =~= pushed);
        assert(full == pushed);
    }
}

/// Parses the holiday/vacation file: one `DayTypeEntry` per covered date
/// of every declaration line, in file order.  Lines that are no
/// declarations are ignored; a declaration with an impossible date fails
/// with `ParseDay`, and a backwards range or an unreadable tail fails
/// with `ParseDayType` at its line.
#[verifier::rlimit(100)]
pub fn parse_required_time(text: &str, file_name: &str) -> (r: Result<Vec<DayTypeEntry>, Error>)
    requires
        text@.len() < 0xffffffff,
    ensures
        ({
            let lv = spec_lines(text@);
            let lr = spec_rt_upto(lv, lv.len() as int);
            match r {
                Ok(v) => {
                    &&& lr is Ok
                    &&& v@.len() == lr->Ok_0.len()
                    &&& forall|k: int|
                        0 <= k < v@.len() ==> rec_matches(#[trigger] v@[k], lr->Ok_0[k])
                },
                Err(e) => {
                    &&& lr is Err
                    &&& match lr->Err_0 {
                        RtParseErr::InvalidDate => e == Error::ParseDay,
                        RtParseErr::BadLine(n) => e matches Error::ParseDayType {
                            file,
                            line_nr,
                        } && file@ == file_name@ && line_nr as int == n,
                    }
                },
            }
        }),
{
    let cv = chars_vec(text);
    let lines = split_lines(&cv);
    let ghost lv = spec_lines(text@);
    proof {
        lemma_lines_count(text@);
    }
    let mut out: Vec<DayTypeEntry> = Vec::new();
    let ghost mut recs: Seq<RtRec> = Seq::empty();
    let mut i: usize = 0;
    while i < lines.len()
        invariant
            i <= lines@.len(),
            spec_rt_upto(lv, i as int) == Ok::<Seq<RtRec>, RtParseErr>(recs),
            out@.len() == recs.len(),
            forall|k: int| 0 <= k < recs.len() ==> rec_matches(#[trigger] out@[k], recs[k]),
        decreases lines@.len() - i,
    {
        let line = &lines[i];
        let line_nr: u32 = (i + 1) as u32;
        let ghost n = i + 1 as int;
        match rt_shape(line) {
            None => {
                proof {
                    assert(spec_rt_line(lv[i as int], n) == Ok::<Seq<RtRec>, RtParseErr>(
                        Seq::empty(),
                    ));
                    assert(recs + Seq::<RtRec>::empty() =~= recs);
                }
            },
            Some((d1, d2, has_range, decl)) => {
                if !d1.is_valid() || !d2.is_valid() {
                    proof {
                        lemma_rt_upto_err_persists(lv, n, lv.len() as int);
                    }
                    return Err(Error::ParseDay);
                }
                if !d1.le(&d2) {
                    proof {
                        lemma_rt_upto_err_persists(lv, n, lv.len() as int);
                    }
                    return Err(
                        Error::ParseDayType { file: file_name.to_owned(), line_nr },
                    );
                }
                match decl_parse(&decl) {
                    None => {
                        proof {
                            lemma_rt_upto_err_persists(lv, n, lv.len() as int);
                        }
                        return Err(
                            Error::ParseDayType { file: file_name.to_owned(), line_nr },
                        );
                    },
                    Some((code, desc)) => {
                        let dt = if char_eq(code, 'W') {
                            DayType::JobTravel { description: desc }
                        } else if char_eq(code, 'K') {
                            DayType::Sick { description: desc }
                        } else if char_eq(code, 'F') {
                            DayType::Holiday { name: desc }
                        } else if char_eq(code, 'U') {
                            DayType::Vacation { description: desc }
                        } else if char_eq(code, 'H') {
                            DayType::VacationHalfDay { description: desc }
                        } else {
                            assert(code == 'Ü');
                            DayType::OvertimeReduction { description: desc }
                        };
                        let ghost sh = spec_rt_shape(lv[i as int])->0;
                        let ghost pair = spec_decl_parse(sh.decl)->0;
                        proof {
                            assert(dt_matches_code(dt, pair.0, pair.1));
                        }
                        let ghost full = spec_date_range(d1, d2);
                        let ghost base = out@.len();
                        let ghost saved = out@;
                        append_decl_entries(&mut out, d1, d2, has_range, &dt, line_nr);
                        proof {
                            let mapped = full.map_values(
                                |d: Date|
                                    RtRec {
                                        date: d,
                                        code: pair.0,
                                        text: pair.1,
                                        range: sh.has_range,
                                        line: n,
                                    },
                            );
                            let lr = spec_rt_line(lv[i as int], n);
                            assert(lr is Ok);
                            assert forall|k: int|
                                0 <= k < full.len() implies lr->Ok_0[k] == mapped[k] by {}
                            assert(lr->Ok_0 =~= mapped);
                            assert(spec_rt_line(lv[i as int], n) == Ok::<Seq<RtRec>, RtParseErr>(
                                mapped,
                            ));
                            assert forall|k: int|
                                0 <= k < (recs + mapped).len() implies rec_matches(
                                #[trigger] out@[k],
                                (recs + mapped)[k],
                            ) by {
                                assert(base == recs.len());
                                if k < recs.len() {
                                    assert(out@[k] == out@.subrange(0, base as int)[k]);
                                    assert(out@[k] == saved[k]);
                                } else {
                                    let j = k - recs.len();
                                    assert(out@[base + j].date == full[j]);
                                    assert(mapped[j] == RtRec {
                                        date: full[j],
                                        code: pair.0,
                                        text: pair.1,
                                        range: sh.has_range,
                                        line: n,
                                    });
                                }
                            }
                            recs = recs + mapped;
                        }
                    },
                }
            },
        }
        i = i + 1;
    }
    proof {
        assert(i as int == lv.len());
    }
    Ok(out)
}

} // verus!

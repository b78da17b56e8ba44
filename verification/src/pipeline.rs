//! The attendance aggregation pipeline.
//!
//! One pipeline run authenticates, lists the day's participants, fetches each
//! participant's check-in events, and aggregates them into a time-ordered
//! snapshot of students. The network transport lives outside the library; the
//! aggregation here takes the fetched records as plain values.

use crate::time::clock_12h;
use crate::time::time_of_day;
use crate::time::timestamp_seconds;
use crate::time::valid_timestamp;
use crate::zone::phoenix_offset_of;
use vstd::prelude::*;

verus! {

use vstd::string::StringExecFns;

/// Why a pipeline run was abandoned. Every failure aborts the whole run and
/// leaves the previous snapshot in place.
#[derive(Clone, Copy, Debug, PartialEq, Eq, Structural)]
pub enum PipelineError {
    /// The network or HTTP layer failed (unreachable host, non-2xx status).
    TransportFailure,
    /// A response body did not match the expected shape.
    DecodeFailure,
    /// A check-in timestamp was not a valid `YYYY-MM-DD HH:MM:SS` string.
    TimeParseFailure,
}

/// One line of the served snapshot: a student present today, with the start
/// of their attendance window and display strings in studio-local time.
pub struct Student {
    /// First and last name, separated by one space.
    pub name: String,
    /// The rank the participant record carries.
    pub belt: String,
    /// Start of the attendance window: the earliest qualifying check-in,
    /// in seconds since the Unix epoch (UTC).
    pub time_start_dt: i64,
    /// The window's start on the 12-hour clock, studio-local.
    pub time_start: String,
    /// The window's end on the 12-hour clock, studio-local.
    pub time_end: String,
}

impl Clone for Student {
    fn clone(&self) -> (r: Self)
        ensures
            r == *self,
    {
        Student {
            name: self.name.clone(),
            belt: self.belt.clone(),
            time_start_dt: self.time_start_dt,
            time_start: self.time_start.clone(),
            time_end: self.time_end.clone(),
        }
    }
}

/// One participant as the listing call reports it, identifiers and all.
/// Discarded after aggregation.
pub struct Participant {
    pub student_id: String,
    pub membership_registration_id: String,
    pub participant_id: String,
    pub participant_first_name: String,
    pub participant_last_name: String,
    pub rank_name: String,
}

/// One attendance status record for a participant, as the class-details call
/// reports it: a status string and a `YYYY-MM-DD HH:MM:SS` UTC timestamp.
pub struct CheckinEvent {
    pub checkin_status: String,
    pub checkin_time_utc: String,
}

/// A participant together with the day's check-in events fetched for them:
/// the input of the aggregation stage.
pub struct ParticipantRecord {
    pub participant: Participant,
    pub class_details: Vec<CheckinEvent>,
}

/// The most check-in events one fetched record may carry: keeps the end of
/// an attendance window (one hour per event past a year-9999 start) within
/// the range of representable instants.
pub const MAX_EVENTS_PER_RECORD: usize = 2000000000;

/// The status string that marks an actual attendance. The external service
/// reports an attended hour with this counter-intuitive wording; it is taken
/// exactly as named, not reinterpreted.
pub open spec fn attendance_marker() -> Seq<char> {
    "Cancel check in"@
}

/// The event counts toward attendance.
pub open spec fn is_qualifying(e: CheckinEvent) -> bool {
    e.checkin_status@ == attendance_marker()
}

/// How many of the events count toward attendance.
pub open spec fn qual_count(events: Seq<CheckinEvent>) -> int
    decreases events.len(),
{
    if events.len() == 0 {
        0
    } else {
        qual_count(events.drop_last()) + if is_qualifying(events.last()) {
            1int
        } else {
            0int
        }
    }
}

/// Every qualifying event carries a well-formed timestamp.
pub open spec fn all_qualifying_parse(events: Seq<CheckinEvent>) -> bool
    decreases events.len(),
{
    if events.len() == 0 {
        true
    } else {
        all_qualifying_parse(events.drop_last()) && (is_qualifying(events.last())
            ==> valid_timestamp(events.last().checkin_time_utc@))
    }
}

/// The earliest qualifying check-in instant, when there is one.
pub open spec fn earliest_checkin(events: Seq<CheckinEvent>) -> Option<int>
    decreases events.len(),
{
    if events.len() == 0 {
        Option::None
    } else {
        let rest = earliest_checkin(events.drop_last());
        if !is_qualifying(events.last()) {
            rest
        } else {
            let t = timestamp_seconds(events.last().checkin_time_utc@);
            match rest {
                Option::None => Option::Some(t),
                Option::Some(b) => Option::Some(
                    if t < b {
                        t
                    } else {
                        b
                    },
                ),
            }
        }
    }
}

/// The studio-local 12-hour rendering of the instant `t`.
pub open spec fn display_string(t: int) -> Seq<char> {
    clock_12h(time_of_day(t + phoenix_offset_of(t)))
}

/// `st` is exactly the student that one refresh derives from `rec`: the
/// window starts at the earliest qualifying check-in, ends one hour per
/// qualifying event later, and both ends are displayed in studio-local time.
pub open spec fn student_matches(st: Student, rec: ParticipantRecord) -> bool {
    &&& qual_count(rec.class_details@) > 0
    &&& all_qualifying_parse(rec.class_details@)
    &&& earliest_checkin(rec.class_details@) matches Some(start) && {
        let end = start + 3600 * qual_count(rec.class_details@);
        &&& st.time_start_dt == start
        &&& st.name@ == rec.participant.participant_first_name@ + " "@
            + rec.participant.participant_last_name@
        &&& st.belt@ == rec.participant.rank_name@
        &&& st.time_start@ == display_string(start)
        &&& st.time_end@ == display_string(end)
    }
}

proof fn lemma_qual_count_le_len(events: Seq<CheckinEvent>)
    ensures
        0 <= qual_count(events) <= events.len(),
    decreases events.len(),
{
    if events.len() > 0 {
        lemma_qual_count_le_len(events.drop_last());
    }
}

proof fn lemma_earliest_some_iff(events: Seq<CheckinEvent>)
    ensures
        earliest_checkin(events) is Some <==> qual_count(events) > 0,
    decreases events.len(),
{
    if events.len() > 0 {
        lemma_earliest_some_iff(events.drop_last());
        lemma_qual_count_le_len(events.drop_last());
    }
}

proof fn lemma_earliest_in_range(events: Seq<CheckinEvent>)
    requires
        all_qualifying_parse(events),
    ensures
        earliest_checkin(events) matches Some(t) ==> -62167219200 <= t <= 320000000000,
    decreases events.len(),
{
    if events.len() > 0 {
        lemma_earliest_in_range(events.drop_last());
        if is_qualifying(events.last()) {
            crate::time::lemma_timestamp_seconds_bounds(events.last().checkin_time_utc@);
        }
    }
}

proof fn lemma_all_parse_bad_at(events: Seq<CheckinEvent>, i: int)
    requires
        0 <= i < events.len(),
        is_qualifying(events[i]),
        !valid_timestamp(events[i].checkin_time_utc@),
    ensures
        !all_qualifying_parse(events),
    decreases events.len(),
{
    if i < events.len() - 1 {
        lemma_all_parse_bad_at(events.drop_last(), i);
    }
}

/// Aggregate one participant's events. `None` when no event qualifies (the
/// participant is left out of the snapshot); `TimeParseFailure` exactly when
/// a qualifying event carries a malformed timestamp.
pub fn aggregate_participant(rec: &ParticipantRecord) -> (r: Result<Option<Student>, PipelineError>)
    requires
        rec.class_details@.len() <= MAX_EVENTS_PER_RECORD,
    ensures
        match r {
            Ok(opt) => {
                &&& all_qualifying_parse(rec.class_details@)
                &&& (opt is Some <==> qual_count(rec.class_details@) > 0)
                &&& (opt matches Some(st) ==> student_matches(st, *rec))
            },
            Err(e) => e == PipelineError::TimeParseFailure && !all_qualifying_parse(
                rec.class_details@,
            ),
        },
{
    let marker = String::from_str("Cancel check in");
    let mut count: usize = 0;
    let mut start_opt: Option<i64> = None;
    let mut i: usize = 0;
    while i < rec.class_details.len()
        invariant
            i <= rec.class_details@.len(),
            rec.class_details@.len() <= MAX_EVENTS_PER_RECORD,
            marker@ == attendance_marker(),
            count as int == qual_count(rec.class_details@.take(i as int)),
            count <= i,
            all_qualifying_parse(rec.class_details@.take(i as int)),
            match start_opt {
                Some(t) => earliest_checkin(rec.class_details@.take(i as int)) == Some(t as int),
                None => earliest_checkin(rec.class_details@.take(i as int)) is None,
            },
        decreases rec.class_details@.len() - i,
    {
        proof {
            assert(rec.class_details@.take(i + 1).drop_last() =~= rec.class_details@.take(i as int));
            assert(rec.class_details@.take(i + 1).last() == rec.class_details@[i as int]);
        }
        let e = &rec.class_details[i];
        if e.checkin_status == marker {
            match crate::time::parse_timestamp(e.checkin_time_utc.as_str()) {
                Err(err) => {
                    proof {
                        lemma_all_parse_bad_at(rec.class_details@, i as int);
                    }
                    return Err(err);
                },
                Ok(t) => {
                    count = count + 1;
                    start_opt = match start_opt {
                        None => Some(t),
                        Some(b) => if t < b {
                            Some(t)
                        } else {
                            Some(b)
                        },
                    };
                },
            }
        }
        i = i + 1;
    }
    proof {
        assert(rec.class_details@.take(rec.class_details@.len() as int) =~= rec.class_details@);
    }
    if count == 0 {
        proof {
            lemma_earliest_some_iff(rec.class_details@);
        }
        return Ok(None);
    }
    proof {
        lemma_earliest_some_iff(rec.class_details@);
        lemma_earliest_in_range(rec.class_details@);
        lemma_qual_count_le_len(rec.class_details@);
    }
    let start = start_opt.unwrap();
    let end: i64 = start + 3600 * (count as i64);
    let off_start = crate::zone::phoenix_offset_seconds(start);
    let off_end = crate::zone::phoenix_offset_seconds(end);
    let time_start = crate::time::format_time_12h(start, off_start);
    let time_end = crate::time::format_time_12h(end, off_end);
    let mut name = rec.participant.participant_first_name.clone();
    name.append(" ");
    name.append(rec.participant.participant_last_name.as_str());
    let belt = rec.participant.rank_name.clone();
    Ok(Some(Student { name, belt, time_start_dt: start, time_start, time_end }))
}

/// The record contributes a student to the snapshot.
pub open spec fn has_qualifying(rec: ParticipantRecord) -> bool {
    qual_count(rec.class_details@) > 0
}

/// `sts` is exactly the in-order aggregation of `recs`: one matching student
/// per record with a qualifying event, records without one skipped.
pub open spec fn collect_matches(sts: Seq<Student>, recs: Seq<ParticipantRecord>) -> bool
    decreases recs.len(),
{
    if recs.len() == 0 {
        sts.len() == 0
    } else if has_qualifying(recs.last()) {
        &&& sts.len() > 0
        &&& student_matches(sts.last(), recs.last())
        &&& collect_matches(sts.drop_last(), recs.drop_last())
    } else {
        collect_matches(sts, recs.drop_last())
    }
}

/// Every qualifying event of every record carries a well-formed timestamp.
pub open spec fn all_records_parse(recs: Seq<ParticipantRecord>) -> bool
    decreases recs.len(),
{
    if recs.len() == 0 {
        true
    } else {
        all_records_parse(recs.drop_last()) && all_qualifying_parse(recs.last().class_details@)
    }
}

proof fn lemma_records_parse_bad_at(recs: Seq<ParticipantRecord>, i: int)
    requires
        0 <= i < recs.len(),
        !all_qualifying_parse(recs[i].class_details@),
    ensures
        !all_records_parse(recs),
    decreases recs.len(),
{
    if i < recs.len() - 1 {
        lemma_records_parse_bad_at(recs.drop_last(), i);
    }
}

/// How many records hold at least one qualifying event: the length of the
/// snapshot one refresh produces.
pub open spec fn qualifying_record_count(recs: Seq<ParticipantRecord>) -> int
    decreases recs.len(),
{
    if recs.len() == 0 {
        0
    } else {
        qualifying_record_count(recs.drop_last()) + if has_qualifying(recs.last()) {
            1int
        } else {
            0int
        }
    }
}

proof fn lemma_collect_len(sts: Seq<Student>, recs: Seq<ParticipantRecord>)
    requires
        collect_matches(sts, recs),
    ensures
        sts.len() == qualifying_record_count(recs),
    decreases recs.len(),
{
    if recs.len() > 0 {
        if has_qualifying(recs.last()) {
            lemma_collect_len(sts.drop_last(), recs.drop_last());
        } else {
            lemma_collect_len(sts, recs.drop_last());
        }
    }
}

/// For a participant with at least one qualifying check-in event, the
/// attendance window ends exactly one hour per qualifying event after it
/// starts, and the end display shows that instant in studio-local time.
pub proof fn lemma_window_end_is_start_plus_hours(st: Student, rec: ParticipantRecord)
    requires
        student_matches(st, rec),
    ensures
        earliest_checkin(rec.class_details@) == Some(st.time_start_dt as int),
        st.time_start@ == display_string(st.time_start_dt as int),
        st.time_end@ == display_string(
            st.time_start_dt + 3600 * qual_count(rec.class_details@),
        ),
{
}

/// The student is the aggregation of some record that has a qualifying event.
pub open spec fn derived_from_some_record(st: Student, recs: Seq<ParticipantRecord>) -> bool {
    exists|j: int| 0 <= j < recs.len() && has_qualifying(#[trigger] recs[j]) && student_matches(st, recs[j])
}

/// A participant with no qualifying check-in never appears: every student a
/// collection holds matches some record that has a qualifying event.
pub proof fn lemma_collected_only_qualifying(sts: Seq<Student>, recs: Seq<ParticipantRecord>)
    requires
        collect_matches(sts, recs),
    ensures
        forall|k: int| 0 <= k < sts.len() ==> derived_from_some_record(#[trigger] sts[k], recs),
    decreases recs.len(),
{
    if recs.len() > 0 {
        let shorter = recs.drop_last();
        if has_qualifying(recs.last()) {
            lemma_collected_only_qualifying(sts.drop_last(), shorter);
            assert forall|k: int| 0 <= k < sts.len() implies derived_from_some_record(
                sts[k],
                recs,
            ) by {
                if k == sts.len() - 1 {
                    assert(has_qualifying(recs[recs.len() - 1]) && student_matches(
                        sts[k],
                        recs[recs.len() - 1],
                    ));
                } else {
                    assert(sts.drop_last()[k] == sts[k]);
                    assert(derived_from_some_record(sts.drop_last()[k], shorter));
                    let j = choose|j: int|
                        0 <= j < shorter.len() && has_qualifying(#[trigger] shorter[j])
                            && student_matches(sts[k], shorter[j]);
                    assert(shorter[j] == recs[j]);
                    assert(has_qualifying(recs[j]) && student_matches(sts[k], recs[j]));
                }
            }
        } else {
            lemma_collected_only_qualifying(sts, shorter);
            assert forall|k: int| 0 <= k < sts.len() implies derived_from_some_record(
                sts[k],
                recs,
            ) by {
                assert(derived_from_some_record(sts[k], shorter));
                let j = choose|j: int|
                    0 <= j < shorter.len() && has_qualifying(#[trigger] shorter[j])
                        && student_matches(sts[k], shorter[j]);
                assert(shorter[j] == recs[j]);
                assert(has_qualifying(recs[j]) && student_matches(sts[k], recs[j]));
            }
        }
    }
}

/// Aggregate every fetched record into unsorted students, in record order.
/// Fails, leaving no partial output, exactly when some qualifying event's
/// timestamp is malformed.
pub fn collect_students(records: &Vec<ParticipantRecord>) -> (r: Result<
    Vec<Student>,
    PipelineError,
>)
    requires
        forall|j: int|
            0 <= j < records@.len() ==> (#[trigger] records@[j].class_details@.len())
                <= MAX_EVENTS_PER_RECORD,
    ensures
        match r {
            Ok(v) => {
                &&& all_records_parse(records@)
                &&& collect_matches(v@, records@)
                &&& v@.len() == qualifying_record_count(records@)
            },
            Err(e) => e == PipelineError::TimeParseFailure && !all_records_parse(records@),
        },
{
    let mut out: Vec<Student> = Vec::new();
    let mut i: usize = 0;
    while i < records.len()
        invariant
            i <= records@.len(),
            forall|j: int|
                0 <= j < records@.len() ==> (#[trigger] records@[j].class_details@.len())
                    <= MAX_EVENTS_PER_RECORD,
            all_records_parse(records@.take(i as int)),
            collect_matches(out@, records@.take(i as int)),
        decreases records@.len() - i,
    {
        proof {
            assert(records@.take(i + 1).drop_last() =~= records@.take(i as int));
            assert(records@.take(i + 1).last() == records@[i as int]);
        }
        match aggregate_participant(&records[i]) {
            Err(err) => {
                proof {
                    lemma_records_parse_bad_at(records@, i as int);
                }
                return Err(err);
            },
            Ok(Some(st)) => {
                let ghost pre = out@;
                out.push(st);
                proof {
                    assert(out@.drop_last() =~= pre);
                }
            },
            Ok(None) => {},
        }
        i = i + 1;
    }
    proof {
        assert(records@.take(records@.len() as int) =~= records@);
        lemma_collect_len(out@, records@);
    }
    Ok(out)
}


/// The snapshot order: non-decreasing by the start of the attendance window.
pub open spec fn sorted_by_start(s: Seq<Student>) -> bool {
    forall|i: int, j: int| 0 <= i <= j < s.len() ==> s[i].time_start_dt <= s[j].time_start_dt
}

/// Insert `x` after every student whose window starts no later, keeping the
/// stable order.
pub open spec fn insert_by_start(x: Student, s: Seq<Student>) -> Seq<Student>
    decreases s.len(),
{
    if s.len() == 0 {
        seq![x]
    } else if s[0].time_start_dt <= x.time_start_dt {
        seq![s[0]] + insert_by_start(x, s.drop_first())
    } else {
        seq![x] + s
    }
}

/// The stable sort of the students by window start: equal starts keep their
/// original order.
pub open spec fn sort_by_start(s: Seq<Student>) -> Seq<Student>
    decreases s.len(),
{
    if s.len() == 0 {
        s
    } else {
        insert_by_start(s.last(), sort_by_start(s.drop_last()))
    }
}

proof fn lemma_insert_len(x: Student, s: Seq<Student>)
    ensures
        insert_by_start(x, s).len() == s.len() + 1,
    decreases s.len(),
{
    if s.len() > 0 && s[0].time_start_dt <= x.time_start_dt {
        lemma_insert_len(x, s.drop_first());
    }
}

proof fn lemma_sort_len(s: Seq<Student>)
    ensures
        sort_by_start(s).len() == s.len(),
    decreases s.len(),
{
    if s.len() > 0 {
        lemma_sort_len(s.drop_last());
        lemma_insert_len(s.last(), sort_by_start(s.drop_last()));
    }
}

proof fn lemma_insert_multiset(x: Student, s: Seq<Student>)
    ensures
        insert_by_start(x, s).to_multiset() =~= s.to_multiset().insert(x),
    decreases s.len(),
{
    broadcast use vstd::seq_lib::group_seq_properties;

    vstd::seq_lib::lemma_multiset_commutative(seq![x], s);
    if s.len() == 0 {
        assert(seq![x] =~= Seq::<Student>::empty().push(x));
        Seq::<Student>::empty().to_multiset_ensures();
    } else if s[0].time_start_dt <= x.time_start_dt {
        lemma_insert_multiset(x, s.drop_first());
        vstd::seq_lib::lemma_multiset_commutative(seq![s[0]], insert_by_start(x, s.drop_first()));
        vstd::seq_lib::lemma_multiset_commutative(seq![s[0]], s.drop_first());
        assert(s =~= seq![s[0]] + s.drop_first());
    }
}

proof fn lemma_sort_multiset(s: Seq<Student>)
    ensures
        sort_by_start(s).to_multiset() =~= s.to_multiset(),
    decreases s.len(),
{
    s.to_multiset_ensures();
    if s.len() > 0 {
        lemma_sort_multiset(s.drop_last());
        lemma_insert_multiset(s.last(), sort_by_start(s.drop_last()));
        s.drop_last().to_multiset_ensures();
        assert(s =~= s.drop_last().push(s.last()));
    }
}

/// Inserting at the first place whose start is later lands exactly where the
/// stable insertion puts it.
proof fn lemma_insert_at_point(x: Student, s: Seq<Student>, j: int)
    requires
        sorted_by_start(s),
        0 <= j <= s.len(),
        forall|k: int| 0 <= k < j ==> s[k].time_start_dt <= x.time_start_dt,
        j < s.len() ==> s[j].time_start_dt > x.time_start_dt,
    ensures
        insert_by_start(x, s) == s.take(j) + seq![x] + s.skip(j),
    decreases s.len(),
{
    if s.len() == 0 {
        assert(insert_by_start(x, s) =~= s.take(j) + seq![x] + s.skip(j));
    } else if j == 0 {
        assert(insert_by_start(x, s) =~= s.take(0) + seq![x] + s.skip(0));
    } else {
        let rest = s.drop_first();
        assert(s[0].time_start_dt <= x.time_start_dt);
        assert forall|k: int| 0 <= k < j - 1 implies rest[k].time_start_dt
            <= x.time_start_dt by {
            assert(rest[k] == s[k + 1]);
        }
        lemma_insert_at_point(x, rest, j - 1);
        assert(insert_by_start(x, s) == seq![s[0]] + (rest.take(j - 1) + seq![x] + rest.skip(j
            - 1)));
        assert(seq![s[0]] + (rest.take(j - 1) + seq![x] + rest.skip(j - 1)) =~= s.take(j)
            + seq![x] + s.skip(j));
    }
}

fn insertion_point(v: &Vec<Student>, hi: usize, key: i64) -> (j: usize)
    requires
        hi <= v@.len(),
    ensures
        j <= hi,
        forall|k: int| 0 <= k < j ==> v@[k].time_start_dt <= key,
        j < hi ==> v@[j as int].time_start_dt > key,
{
    let mut j: usize = 0;
    while j < hi && v[j].time_start_dt <= key
        invariant
            j <= hi,
            hi <= v@.len(),
            forall|k: int| 0 <= k < j ==> v@[k].time_start_dt <= key,
        decreases hi - j,
    {
        j = j + 1;
    }
    j
}

/// Stable-sort the students by the start of their attendance window: the
/// result is the stable sort of the input (ties keep their input order), so
/// it is non-decreasing by start and holds exactly the input students.
pub fn sort_by_start_instant(students: Vec<Student>) -> (r: Vec<Student>)
    ensures
        r@ == sort_by_start(students@),
        sorted_by_start(r@),
        r@.to_multiset() == students@.to_multiset(),
{
    let ghost orig = students@;
    let mut v = students;
    proof {
        lemma_sort_multiset(orig);
        if orig.len() >= 1 {
            assert(orig.take(1).drop_last() =~= Seq::<Student>::empty());
            assert(orig.take(1) =~= seq![orig[0]]);
        }
    }
    if v.len() <= 1 {
        proof {
            if orig.len() == 1 {
                assert(sort_by_start(orig) == insert_by_start(
                    orig.last(),
                    sort_by_start(orig.drop_last()),
                ));
                assert(orig.drop_last() =~= Seq::<Student>::empty());
                assert(sort_by_start(orig) =~= orig);
            }
        }
        return v;
    }
    let mut i: usize = 1;
    proof {
        let t1 = orig.take(1);
        assert(t1.len() == 1);
        assert(t1.drop_last() =~= Seq::<Student>::empty());
        assert(sort_by_start(t1.drop_last()) == Seq::<Student>::empty());
        assert(sort_by_start(t1) == insert_by_start(t1.last(), Seq::<Student>::empty()));
        assert(insert_by_start(t1.last(), Seq::<Student>::empty()) == seq![t1.last()]);
        assert(t1.last() == orig[0]);
        assert(v@ =~= seq![orig[0]] + orig.skip(1));
        assert(v@ =~= sort_by_start(orig.take(1)) + orig.skip(1));
    }
    while i < v.len()
        invariant
            1 <= i <= orig.len(),
            v@.len() == orig.len(),
            v@ == sort_by_start(orig.take(i as int)) + orig.skip(i as int),
            sorted_by_start(sort_by_start(orig.take(i as int))),
        decreases orig.len() - i,
    {
        proof {
            lemma_sort_len(orig.take(i as int));
        }
        let ghost prefix = sort_by_start(orig.take(i as int));
        let x = v.remove(i);
        proof {
            assert(v@ =~= prefix + orig.skip(i + 1));
            assert(x == orig[i as int]);
        }
        let j = insertion_point(&v, i, x.time_start_dt);
        v.insert(j, x);
        proof {
            assert forall|k: int| 0 <= k < j implies prefix[k].time_start_dt
                <= x.time_start_dt by {
                assert((prefix + orig.skip(i + 1))[k] == prefix[k]);
            }
            if (j as int) < i {
                assert((prefix + orig.skip(i + 1))[j as int] == prefix[j as int]);
            }
            lemma_insert_at_point(x, prefix, j as int);
            assert(orig.take(i + 1).drop_last() =~= orig.take(i as int));
            assert(orig.take(i + 1).last() == orig[i as int]);
            assert(sort_by_start(orig.take(i + 1)) == insert_by_start(x, prefix));
            assert(v@ =~= (prefix + orig.skip(i + 1)).insert(j as int, x));
            assert((prefix + orig.skip(i + 1)).insert(j as int, x) =~= (prefix.take(j as int)
                + seq![x] + prefix.skip(j as int)) + orig.skip(i + 1));
            assert(v@ == sort_by_start(orig.take(i + 1)) + orig.skip(i + 1));
            // the new prefix stays sorted
            let np = sort_by_start(orig.take(i + 1));
            assert forall|a: int, b: int| 0 <= a <= b < np.len() implies np[a].time_start_dt
                <= np[b].time_start_dt by {
                assert(np == prefix.take(j as int) + seq![x] + prefix.skip(j as int));
                if a < j && b < j {
                    assert(np[a] == prefix[a] && np[b] == prefix[b]);
                } else if a < j && b == j {
                    assert(np[a] == prefix[a] && np[b] == x);
                } else if a < j && b > j {
                    assert(np[a] == prefix[a] && np[b] == prefix[b - 1]);
                } else if a == j && b == j {
                } else if a == j && b > j {
                    assert(np[a] == x && np[b] == prefix[b - 1]);
                    assert(prefix[j as int].time_start_dt > x.time_start_dt);
                    assert(prefix[j as int].time_start_dt <= prefix[b - 1].time_start_dt);
                } else {
                    assert(np[a] == prefix[a - 1] && np[b] == prefix[b - 1]);
                }
            }
        }
        i = i + 1;
    }
    proof {
        assert(orig.take(orig.len() as int) =~= orig);
        assert(orig.skip(orig.len() as int) =~= Seq::<Student>::empty());
        assert(v@ =~= sort_by_start(orig));
    }
    v
}

/// No participant without a qualifying check-in reaches the served snapshot:
/// rearranging a collection (sorting it) keeps every student derived from a
/// record with a qualifying event.
pub proof fn lemma_snapshot_only_qualifying(
    v: Seq<Student>,
    w: Seq<Student>,
    recs: Seq<ParticipantRecord>,
)
    requires
        collect_matches(w, recs),
        v.to_multiset() == w.to_multiset(),
    ensures
        forall|k: int| 0 <= k < v.len() ==> derived_from_some_record(#[trigger] v[k], recs),
{
    lemma_collected_only_qualifying(w, recs);
    v.to_multiset_ensures();
    w.to_multiset_ensures();
    assert forall|k: int| 0 <= k < v.len() implies derived_from_some_record(v[k], recs) by {
        assert(v.contains(v[k]));
        assert(v.to_multiset().count(v[k]) > 0);
        assert(w.contains(v[k]));
        let j = choose|j: int| 0 <= j < w.len() && w[j] == v[k];
        assert(derived_from_some_record(w[j], recs));
    }
}

/// One whole aggregation stage: every record aggregated in order, the result
/// stable-sorted by window start. Fails, leaving no output, exactly when a
/// qualifying event's timestamp is malformed.
pub fn aggregate_students(records: &Vec<ParticipantRecord>) -> (r: Result<
    Vec<Student>,
    PipelineError,
>)
    requires
        forall|j: int|
            0 <= j < records@.len() ==> (#[trigger] records@[j].class_details@.len())
                <= MAX_EVENTS_PER_RECORD,
    ensures
        match r {
            Ok(v) => {
                &&& all_records_parse(records@)
                &&& sorted_by_start(v@)
                &&& v@.len() == qualifying_record_count(records@)
                &&& (forall|k: int|
                    0 <= k < v@.len() ==> derived_from_some_record(#[trigger] v@[k], records@))
                &&& exists|w: Seq<Student>|
                    collect_matches(w, records@) && v@ == sort_by_start(w) && v@.to_multiset()
                        == w.to_multiset()
            },
            Err(e) => e == PipelineError::TimeParseFailure && !all_records_parse(records@),
        },
{
    let unsorted = match collect_students(records) {
        Ok(v) => v,
        Err(e) => {
            return Err(e);
        },
    };
    let ghost w = unsorted@;
    let sorted = sort_by_start_instant(unsorted);
    proof {
        lemma_sort_len(w);
        lemma_snapshot_only_qualifying(sorted@, w, records@);
        assert(collect_matches(w, records@) && sorted@ == sort_by_start(w) && sorted@.to_multiset()
            == w.to_multiset());
    }
    Ok(sorted)
}

} // verus!

//! The compact textual schedule encoding and its loader: one record per
//! employee, fields separated by commas, records separated by `,--`, and
//! the round trip between producing and parsing.

use vstd::prelude::*;
use crate::business::{
    Business, BusinessView, find_emp_idx, find_role_idx, assign_block_ok_spec, inv,
    lemma_find_emp_idx, emps_view, roles_view,
};
use crate::role::{OccView, RoleView};
use crate::digits::{
    dec_chars, dec_value, usize_parsable, lemma_dec_chars_digits, lemma_dec_value_of_chars,
    is_digit,
};
use crate::clock::{TimeOfDay, time_chars, time_parsable, parsed_time, lemma_time_round_trip,
    lemma_time_chars_shape};
use crate::employee::EmployeeView;

verus! {

/// Errors from parsing a serialized schedule.
#[derive(Debug, Clone, Copy, PartialEq, Eq, Structural)]
pub enum ParseError {
    /// A numeric field did not parse as an unsigned integer.
    BadInt,
    /// A time field was not a valid `HH:MM:SS` rendering.
    BadTime,
    /// A record broke off before its clock fields.
    MissingField,
}

/// One employee's parsed schedule: clock bounds and raw status codes, or
/// nothing for an unscheduled employee.
#[derive(Debug, PartialEq, Eq)]
pub enum Schedule {
    True((TimeOfDay, TimeOfDay, Vec<usize>)),
    False,
}

impl Schedule {
    /// The record's contents, as mathematical values.
    pub open spec fn view_opt(self) -> Option<(TimeOfDay, TimeOfDay, Seq<usize>)> {
        match self {
            Schedule::True((ci, co, codes)) => Some((ci, co, codes@)),
            Schedule::False => None,
        }
    }

    /// The clock bounds and status codes of a scheduled record, or `None`.
    pub fn decompose(self) -> (r: Option<(TimeOfDay, TimeOfDay, Vec<usize>)>)
        ensures
            match self.view_opt() {
                Some(t) => r matches Some(u) && u.0 == t.0 && u.1 == t.1 && u.2@ == t.2,
                None => r is None,
            },
    {
        match self {
            Schedule::True(x) => Some(x),
            Schedule::False => None,
        }
    }
}

/// The record separator, as characters.
pub open spec fn rsep() -> Seq<char> {
    seq![',', '-', '-']
}

/// The characters `false`.
pub open spec fn false_chars() -> Seq<char> {
    seq!['f', 'a', 'l', 's', 'e']
}

/// The status codes joined with commas.
pub open spec fn join_codes(a: Seq<usize>) -> Seq<char>
    decreases a.len(),
{
    if a.len() == 0 {
        Seq::empty()
    } else if a.len() == 1 {
        dec_chars(a[0] as nat)
    } else {
        dec_chars(a[0] as nat) + seq![','] + join_codes(a.drop_first())
    }
}

/// One employee's record, without the record separator: the id, then
/// either `false` or the clock bounds and one status code per block, all
/// comma-separated.
#[verifier::opaque]
pub open spec fn record_body(e: EmployeeView) -> Seq<char> {
    dec_chars(e.id as nat) + seq![','] + (if !e.scheduled {
        false_chars()
    } else {
        time_chars(e.clock_in) + seq![','] + time_chars(e.clock_out) + (if e.assigned.len() == 0 {
            Seq::<char>::empty()
        } else {
            seq![','] + join_codes(e.assigned)
        })
    })
}

/// The whole encoding: each record followed by the record separator.
pub open spec fn csv_chars(emps: Seq<EmployeeView>) -> Seq<char>
    decreases emps.len(),
{
    if emps.len() == 0 {
        Seq::empty()
    } else {
        record_body(emps[0]) + rsep() + csv_chars(emps.drop_first())
    }
}

/// The comma-separated fields of a segment, in order; always at least one.
pub open spec fn split_fields(s: Seq<char>) -> Seq<Seq<char>>
    decreases s.len(),
{
    if s.len() == 0 {
        seq![Seq::<char>::empty()]
    } else if s[0] == ',' {
        seq![Seq::<char>::empty()] + split_fields(s.drop_first())
    } else {
        let rest = split_fields(s.drop_first());
        seq![seq![s[0]] + rest[0]] + rest.drop_first()
    }
}

/// The record segments of the encoding, split on the leftmost occurrences
/// of the record separator; always at least one.
pub open spec fn split_records(s: Seq<char>) -> Seq<Seq<char>>
    decreases s.len(),
{
    if s.len() < 3 {
        seq![s]
    } else if s[0] == ',' && s[1] == '-' && s[2] == '-' {
        seq![Seq::<char>::empty()] + split_records(s.skip(3))
    } else {
        let rest = split_records(s.drop_first());
        seq![seq![s[0]] + rest[0]] + rest.drop_first()
    }
}

/// Both splitters yield at least one piece.
pub proof fn lemma_split_nonempty(s: Seq<char>)
    ensures
        split_fields(s).len() >= 1,
        split_records(s).len() >= 1,
    decreases s.len(),
{
    if s.len() >= 3 && s[0] == ',' && s[1] == '-' && s[2] == '-' {
        lemma_split_nonempty(s.skip(3));
    } else if s.len() > 0 {
        lemma_split_nonempty(s.drop_first());
    }
}

/// What one record means. The id field must parse; a second field of
/// `false` means unscheduled; otherwise two clock fields and then one
/// status code per remaining field, all of which must parse.
#[verifier::opaque]
pub open spec fn parse_record_spec(seg: Seq<char>) -> Result<
    (usize, Option<(TimeOfDay, TimeOfDay, Seq<usize>)>),
    ParseError,
> {
    let fields = split_fields(seg);
    if !usize_parsable(fields[0]) {
        Err(ParseError::BadInt)
    } else {
        let id = dec_value(fields[0]) as usize;
        if fields.len() < 2 {
            Err(ParseError::MissingField)
        } else if fields[1] == false_chars() {
            Ok((id, None))
        } else if !time_parsable(fields[1]) {
            Err(ParseError::BadTime)
        } else if fields.len() < 3 {
            Err(ParseError::MissingField)
        } else if !time_parsable(fields[2]) {
            Err(ParseError::BadTime)
        } else if exists|p: int| 3 <= p < fields.len() && !usize_parsable(#[trigger] fields[p]) {
            Err(ParseError::BadInt)
        } else {
            Ok(
                (
                    id,
                    Some(
                        (
                            parsed_time(fields[1]),
                            parsed_time(fields[2]),
                            Seq::new(
                                (fields.len() - 3) as nat,
                                |p: int| dec_value(fields[p + 3]) as usize,
                            ),
                        ),
                    ),
                ),
            )
        }
    }
}

/// What a list of segments means: empty segments are skipped, the rest are
/// parsed in order, and the first failure aborts the whole parse.
pub open spec fn parse_segments_spec(segs: Seq<Seq<char>>) -> Result<
    Seq<(usize, Option<(TimeOfDay, TimeOfDay, Seq<usize>)>)>,
    ParseError,
>
    decreases segs.len(),
{
    if segs.len() == 0 {
        Ok(Seq::empty())
    } else if segs[0].len() == 0 {
        parse_segments_spec(segs.drop_first())
    } else {
        match parse_record_spec(segs[0]) {
            Err(e) => Err(e),
            Ok(r) => match parse_segments_spec(segs.drop_first()) {
                Err(e) => Err(e),
                Ok(rs) => Ok(seq![r] + rs),
            },
        }
    }
}

/// What the whole encoding means.
pub open spec fn parse_csv_spec(s: Seq<char>) -> Result<
    Seq<(usize, Option<(TimeOfDay, TimeOfDay, Seq<usize>)>)>,
    ParseError,
> {
    parse_segments_spec(split_records(s))
}

/// The records the encoding of a table should parse back to.
pub open spec fn records_of(emps: Seq<EmployeeView>) -> Seq<
    (usize, Option<(TimeOfDay, TimeOfDay, Seq<usize>)>),
> {
    Seq::new(
        emps.len(),
        |k: int|
            (
                emps[k].id,
                if emps[k].scheduled {
                    Some((emps[k].clock_in, emps[k].clock_out, emps[k].assigned))
                } else {
                    None
                },
            ),
    )
}

/// Splitting on commas after a comma-free prefix and a comma peels off the
/// prefix as one field.
pub proof fn lemma_split_fields_concat(a: Seq<char>, b: Seq<char>)
    requires
        forall|i: int| 0 <= i < a.len() ==> (#[trigger] a[i]) != ',',
    ensures
        split_fields(a + seq![','] + b) == seq![a] + split_fields(b),
    decreases a.len(),
{
    let s = a + seq![','] + b;
    if a.len() == 0 {
        assert(s[0] == ',');
        assert(s.drop_first() =~= b);
        assert(seq![Seq::<char>::empty()] + split_fields(b) =~~= seq![a] + split_fields(b));
    } else {
        assert(s[0] == a[0]);
        assert(s[0] != ',');
        assert(s.drop_first() =~= a.drop_first() + seq![','] + b);
        assert forall|i: int| 0 <= i < a.drop_first().len() implies (#[trigger] a.drop_first()[i])
            != ',' by {
            assert(a.drop_first()[i] == a[i + 1]);
        }
        lemma_split_fields_concat(a.drop_first(), b);
        lemma_split_nonempty(b);
        let rest = split_fields(s.drop_first());
        assert(rest == seq![a.drop_first()] + split_fields(b));
        assert(rest[0] == a.drop_first());
        assert(seq![s[0]] + rest[0] =~= a);
        assert(rest.drop_first() =~= split_fields(b));
        assert(split_fields(s) =~~= seq![a] + split_fields(b));
    }
}

/// A comma-free segment is one single field.
pub proof fn lemma_split_fields_single(a: Seq<char>)
    requires
        forall|i: int| 0 <= i < a.len() ==> (#[trigger] a[i]) != ',',
    ensures
        split_fields(a) == seq![a],
    decreases a.len(),
{
    if a.len() > 0 {
        assert forall|i: int| 0 <= i < a.drop_first().len() implies (#[trigger] a.drop_first()[i])
            != ',' by {
            assert(a.drop_first()[i] == a[i + 1]);
        }
        lemma_split_fields_single(a.drop_first());
        let rest = split_fields(a.drop_first());
        assert(rest[0] == a.drop_first());
        assert(seq![a[0]] + rest[0] =~= a);
        assert(rest.drop_first() =~~= Seq::<Seq<char>>::empty());
        assert(split_fields(a) =~~= seq![a]);
    } else {
        assert(split_fields(a) =~~= seq![a]);
    }
}

/// Splitting on the record separator after a dash-free prefix peels off
/// the prefix as one segment.
pub proof fn lemma_split_records_concat(a: Seq<char>, b: Seq<char>)
    requires
        forall|i: int| 0 <= i < a.len() ==> (#[trigger] a[i]) != '-',
    ensures
        split_records(a + rsep() + b) == seq![a] + split_records(b),
    decreases a.len(),
{
    let s = a + rsep() + b;
    assert(s.len() == a.len() + 3 + b.len());
    if a.len() == 0 {
        assert(s[0] == ',' && s[1] == '-' && s[2] == '-');
        assert(s.skip(3) =~= b);
        assert(split_records(s) =~~= seq![a] + split_records(b));
    } else {
        assert(s[0] == a[0]);
        let no_match = !(s[0] == ',' && s[1] == '-' && s[2] == '-');
        assert(no_match) by {
            if a.len() == 1 {
                assert(s[1] == ',');
            } else {
                assert(s[1] == a[1]);
                assert(a[1] != '-');
            }
        }
        assert(s.drop_first() =~= a.drop_first() + rsep() + b);
        assert forall|i: int| 0 <= i < a.drop_first().len() implies (#[trigger] a.drop_first()[i])
            != '-' by {
            assert(a.drop_first()[i] == a[i + 1]);
        }
        lemma_split_records_concat(a.drop_first(), b);
        lemma_split_nonempty(b);
        let rest = split_records(s.drop_first());
        assert(rest == seq![a.drop_first()] + split_records(b));
        assert(rest[0] == a.drop_first());
        assert(seq![s[0]] + rest[0] =~= a);
        assert(rest.drop_first() =~= split_records(b));
        assert(split_records(s) =~~= seq![a] + split_records(b));
    }
}


/// Joined status codes hold only digits and commas.
pub proof fn lemma_join_codes_shape(a: Seq<usize>)
    ensures
        forall|i: int|
            0 <= i < join_codes(a).len() ==> is_digit(#[trigger] join_codes(a)[i]) || join_codes(
                a,
            )[i] == ',',
    decreases a.len(),
{
    if a.len() == 1 {
        lemma_dec_chars_digits(a[0] as nat);
    } else if a.len() > 1 {
        lemma_dec_chars_digits(a[0] as nat);
        lemma_join_codes_shape(a.drop_first());
        let d = dec_chars(a[0] as nat);
        let j = join_codes(a);
        assert forall|i: int|
            0 <= i < j.len() implies is_digit(#[trigger] j[i]) || j[i] == ',' by {
            if i < d.len() {
                assert(j[i] == d[i]);
            } else if i == d.len() {
                assert(j[i] == ',');
            } else {
                assert(j[i] == join_codes(a.drop_first())[i - d.len() - 1]);
            }
        }
    }
}

/// A record body never holds a dash.
pub proof fn lemma_record_no_dash(e: EmployeeView)
    ensures
        forall|i: int| 0 <= i < record_body(e).len() ==> (#[trigger] record_body(e)[i]) != '-',
{
    reveal(record_body);
    let r = record_body(e);
    let d = dec_chars(e.id as nat);
    lemma_dec_chars_digits(e.id as nat);
    lemma_time_chars_shape(e.clock_in);
    lemma_time_chars_shape(e.clock_out);
    lemma_join_codes_shape(e.assigned);
    assert forall|i: int| 0 <= i < r.len() implies (#[trigger] r[i]) != '-' by {
        if i < d.len() {
            assert(r[i] == d[i]);
            assert(is_digit(d[i]));
        } else if i == d.len() {
            assert(r[i] == ',');
        } else {
            let t = i - d.len() - 1;
            if !e.scheduled {
                assert(r[i] == false_chars()[t]);
            } else {
                let t1 = time_chars(e.clock_in);
                let t2 = time_chars(e.clock_out);
                if t < 8 {
                    assert(r[i] == t1[t]);
                } else if t == 8 {
                    assert(r[i] == ',');
                } else if t < 17 {
                    assert(r[i] == t2[t - 9]);
                } else if t == 17 {
                    assert(r[i] == ',');
                } else {
                    assert(r[i] == join_codes(e.assigned)[t - 18]);
                }
            }
        }
    }
}

/// Splitting joined codes yields each code's digits as one field.
pub proof fn lemma_split_join(a: Seq<usize>)
    requires
        a.len() >= 1,
    ensures
        split_fields(join_codes(a)) =~~= Seq::new(a.len() as nat, |i: int| dec_chars(a[i] as nat)),
    decreases a.len(),
{
    lemma_dec_chars_digits(a[0] as nat);
    assert forall|i: int|
        0 <= i < dec_chars(a[0] as nat).len() implies (#[trigger] dec_chars(a[0] as nat)[i])
            != ',' by {
        assert(is_digit(dec_chars(a[0] as nat)[i]));
    }
    if a.len() == 1 {
        lemma_split_fields_single(dec_chars(a[0] as nat));
    } else {
        lemma_split_join(a.drop_first());
        lemma_split_fields_concat(dec_chars(a[0] as nat), join_codes(a.drop_first()));
    }
}

/// The fields of a record body: the id's digits, then either `false` or
/// the two clock renderings followed by each status code's digits.
pub proof fn lemma_record_fields(e: EmployeeView)
    ensures
        split_fields(record_body(e)) =~~= (if !e.scheduled {
            seq![dec_chars(e.id as nat), false_chars()]
        } else {
            seq![
                dec_chars(e.id as nat),
                time_chars(e.clock_in),
                time_chars(e.clock_out),
            ] + Seq::new(e.assigned.len() as nat, |i: int| dec_chars(e.assigned[i] as nat))
        }),
{
    reveal(record_body);
    let d = dec_chars(e.id as nat);
    lemma_dec_chars_digits(e.id as nat);
    assert forall|i: int| 0 <= i < d.len() implies (#[trigger] d[i]) != ',' by {
        assert(is_digit(d[i]));
    }
    let t1 = time_chars(e.clock_in);
    let t2 = time_chars(e.clock_out);
    lemma_time_chars_shape(e.clock_in);
    lemma_time_chars_shape(e.clock_out);
    assert forall|i: int| 0 <= i < t1.len() implies (#[trigger] t1[i]) != ',' by {
        assert(is_digit(t1[i]) || t1[i] == ':');
    }
    assert forall|i: int| 0 <= i < t2.len() implies (#[trigger] t2[i]) != ',' by {
        assert(is_digit(t2[i]) || t2[i] == ':');
    }
    if !e.scheduled {
        assert(record_body(e) =~= d + seq![','] + false_chars());
        lemma_split_fields_concat(d, false_chars());
        assert forall|i: int|
            0 <= i < false_chars().len() implies (#[trigger] false_chars()[i]) != ',' by {}
        lemma_split_fields_single(false_chars());
    } else {
        if e.assigned.len() == 0 {
            assert(record_body(e) =~= d + seq![','] + (t1 + seq![','] + t2));
            lemma_split_fields_concat(d, t1 + seq![','] + t2);
            lemma_split_fields_concat(t1, t2);
            lemma_split_fields_single(t2);
            assert(Seq::new(0nat, |i: int| dec_chars(e.assigned[i] as nat))
                =~= Seq::<Seq<char>>::empty());
        } else {
            let tail = join_codes(e.assigned);
            assert(record_body(e) =~= d + seq![','] + (t1 + seq![','] + (t2 + seq![','] + tail)));
            lemma_split_fields_concat(d, t1 + seq![','] + (t2 + seq![','] + tail));
            lemma_split_fields_concat(t1, t2 + seq![','] + tail);
            lemma_split_fields_concat(t2, tail);
            lemma_split_join(e.assigned);
        }
    }
}

/// A record body parses back to the employee's id, scheduling flag, clock
/// bounds, and status codes.
pub proof fn lemma_parse_record_round_trip(e: EmployeeView)
    requires
        e.clock_in.valid(),
        e.clock_out.valid(),
    ensures
        parse_record_spec(record_body(e)) == Ok::<_, ParseError>(
            (
                e.id,
                if e.scheduled {
                    Some((e.clock_in, e.clock_out, e.assigned))
                } else {
                    None::<(TimeOfDay, TimeOfDay, Seq<usize>)>
                },
            ),
        ),
{
    reveal(parse_record_spec);
    lemma_record_fields(e);
    let fields = split_fields(record_body(e));
    lemma_dec_chars_digits(e.id as nat);
    lemma_dec_value_of_chars(e.id as nat);
    assert(usize_parsable(fields[0]));
    assert(dec_value(fields[0]) as usize == e.id);
    lemma_time_round_trip(e.clock_in);
    lemma_time_round_trip(e.clock_out);
    if !e.scheduled {
        assert(fields[1] == false_chars());
    } else {
        assert(fields[1] == time_chars(e.clock_in));
        assert(fields[1] != false_chars()) by {
            assert(time_chars(e.clock_in).len() == 8);
            assert(false_chars().len() == 5);
        }
        assert(time_parsable(fields[1]));
        assert(parsed_time(fields[1]) == e.clock_in);
        assert(fields[2] == time_chars(e.clock_out));
        assert(fields[2] != false_chars()) by {
            assert(time_chars(e.clock_out).len() == 8);
        }
        assert(time_parsable(fields[2]));
        assert(parsed_time(fields[2]) == e.clock_out);
        assert(fields.len() - 3 == e.assigned.len());
        assert forall|p: int| 3 <= p < fields.len() implies usize_parsable(
            #[trigger] fields[p],
        ) by {
            assert(fields[p] == dec_chars(e.assigned[p - 3] as nat));
            lemma_dec_chars_digits(e.assigned[p - 3] as nat);
            lemma_dec_value_of_chars(e.assigned[p - 3] as nat);
        }
        let parsed = Seq::new(
            (fields.len() - 3) as nat,
            |p: int| dec_value(fields[p + 3]) as usize,
        );
        assert(parsed =~= e.assigned) by {
            assert forall|p: int| 0 <= p < e.assigned.len() implies parsed[p]
                == e.assigned[p] by {
                assert(fields[p + 3] == dec_chars(e.assigned[p] as nat));
                lemma_dec_value_of_chars(e.assigned[p] as nat);
            }
        }
    }
}

/// Parsing a non-empty head segment and a parsed tail yields the head's
/// record followed by the tail's.
pub proof fn lemma_parse_cons(
    body: Seq<char>,
    tail: Seq<Seq<char>>,
    r0: (usize, Option<(TimeOfDay, TimeOfDay, Seq<usize>)>),
    rs: Seq<(usize, Option<(TimeOfDay, TimeOfDay, Seq<usize>)>)>,
)
    requires
        body.len() > 0,
        parse_record_spec(body) == Ok::<_, ParseError>(r0),
        parse_segments_spec(tail) == Ok::<_, ParseError>(rs),
    ensures
        parse_segments_spec(seq![body] + tail) == Ok::<_, ParseError>(seq![r0] + rs),
{
    let segs = seq![body] + tail;
    assert(segs[0] == body);
    assert(segs.drop_first() =~~= tail);
}

/// The round trip: the encoding of an employee table parses back to
/// exactly the table's ids, scheduling flags, clock bounds and status
/// rows.
#[verifier::spinoff_prover]
#[verifier::rlimit(100)]
pub proof fn lemma_csv_round_trip(emps: Seq<EmployeeView>)
    requires
        forall|k: int|
            0 <= k < emps.len() ==> (#[trigger] emps[k]).clock_in.valid()
                && emps[k].clock_out.valid(),
    ensures
        parse_csv_spec(csv_chars(emps)) == Ok::<_, ParseError>(records_of(emps)),
    decreases emps.len(),
{
    if emps.len() == 0 {
        let segs = seq![Seq::<char>::empty()];
        assert(split_records(csv_chars(emps)) =~~= segs);
        assert(segs.drop_first() =~= Seq::<Seq<char>>::empty());
        assert(parse_segments_spec(Seq::<Seq<char>>::empty()) == Ok::<_, ParseError>(
            Seq::<(usize, Option<(TimeOfDay, TimeOfDay, Seq<usize>)>)>::empty(),
        ));
        assert(parse_segments_spec(segs) == Ok::<_, ParseError>(
            Seq::<(usize, Option<(TimeOfDay, TimeOfDay, Seq<usize>)>)>::empty(),
        ));
        assert(records_of(emps)
            =~= Seq::<(usize, Option<(TimeOfDay, TimeOfDay, Seq<usize>)>)>::empty());
    } else {
        let e = emps[0];
        let body = record_body(e);
        let rest = emps.drop_first();
        assert forall|k: int|
            0 <= k < rest.len() implies (#[trigger] rest[k]).clock_in.valid()
                && rest[k].clock_out.valid() by {
            assert(rest[k] == emps[k + 1]);
        }
        lemma_csv_round_trip(rest);
        lemma_record_no_dash(e);
        lemma_split_records_concat(body, csv_chars(rest));
        assert(csv_chars(emps) =~= body + rsep() + csv_chars(rest));
        assert(body.len() > 0) by {
            reveal(record_body);
            lemma_dec_chars_digits(e.id as nat);
        }
        lemma_parse_record_round_trip(e);
        let r0 = (
            e.id,
            if e.scheduled {
                Some((e.clock_in, e.clock_out, e.assigned))
            } else {
                None
            },
        );
        assert(split_records(csv_chars(emps)) == seq![body] + split_records(csv_chars(rest)));
        assert(parse_segments_spec(split_records(csv_chars(rest))) == Ok::<_, ParseError>(
            records_of(rest),
        ));
        lemma_parse_cons(body, split_records(csv_chars(rest)), r0, records_of(rest));
        assert(parse_segments_spec(split_records(csv_chars(emps))) == Ok::<_, ParseError>(
            seq![r0] + records_of(rest),
        ));
        assert(seq![r0] + records_of(rest) =~= records_of(emps));
    }
}


/// Relies on std's `String::push`: the string gains exactly the pushed
/// character at its end.
pub assume_specification[ String::push ](s: &mut String, ch: char)
    ensures
        final(s)@ == old(s)@.push(ch),
;

/// The characters of `s`, in order.
pub fn string_to_chars(s: &str) -> (v: Vec<char>)
    ensures
        v@ == s@,
{
    let n = s.unicode_len();
    let mut v: Vec<char> = Vec::new();
    let mut i: usize = 0;
    while i < n
        invariant
            i <= n,
            n == s@.len(),
            v@ =~= s@.take(i as int),
        decreases n - i,
    {
        v.push(s.get_char(i));
        proof {
            assert(v@ =~= s@.take(i as int + 1));
        }
        i = i + 1;
    }
    proof {
        assert(s@.take(n as int) =~= s@);
    }
    v
}

/// A string holding exactly the given characters.
pub fn chars_to_string(v: &Vec<char>) -> (s: String)
    ensures
        s@ == v@,
{
    let mut s = String::new();
    let mut i: usize = 0;
    while i < v.len()
        invariant
            i <= v@.len(),
            s@ =~= v@.take(i as int),
        decreases v@.len() - i,
    {
        s.push(v[i]);
        proof {
            assert(s@ =~= v@.take(i as int + 1));
        }
        i = i + 1;
    }
    proof {
        assert(v@.take(v@.len() as int) =~= v@);
    }
    s
}

/// A copy of the characters of `s` from `from` to the end.
fn tail_chars(s: &Vec<char>, from: usize) -> (r: Vec<char>)
    requires
        from <= s@.len(),
    ensures
        r@ == s@.skip(from as int),
{
    let mut r: Vec<char> = Vec::new();
    let mut i: usize = from;
    while i < s.len()
        invariant
            from <= i <= s@.len(),
            r@ =~= s@.subrange(from as int, i as int),
        decreases s@.len() - i,
    {
        r.push(s[i]);
        proof {
            assert(r@ =~= s@.subrange(from as int, i as int + 1));
        }
        i = i + 1;
    }
    proof {
        assert(s@.subrange(from as int, s@.len() as int) =~= s@.skip(from as int));
    }
    r
}

/// The record segments of `s` from `from` on, as vectors.
fn split_records_exec(s: &Vec<char>, from: usize) -> (r: Vec<Vec<char>>)
    requires
        from <= s@.len(),
    ensures
        r@.len() == split_records(s@.skip(from as int)).len(),
        forall|p: int|
            0 <= p < r@.len() ==> (#[trigger] r@[p])@ == split_records(s@.skip(from as int))[p],
    decreases s@.len() - from,
{
    let ghost piece = s@.skip(from as int);
    if s.len() - from < 3 {
        let mut r: Vec<Vec<char>> = Vec::new();
        r.push(tail_chars(s, from));
        proof {
            assert(split_records(piece) == seq![piece]);
        }
        r
    } else if s[from] == ',' && s[from + 1] == '-' && s[from + 2] == '-' {
        let mut rest = split_records_exec(s, from + 3);
        proof {
            assert(piece.skip(3) =~= s@.skip(from as int + 3));
            assert(piece[0] == ',' && piece[1] == '-' && piece[2] == '-');
        }
        rest.insert(0, Vec::new());
        proof {
            let sp = split_records(piece);
            assert(sp == seq![Seq::<char>::empty()] + split_records(s@.skip(from as int + 3)));
            assert forall|p: int| 0 <= p < rest@.len() implies (#[trigger] rest@[p])@ == sp[p] by {
                if p > 0 {
                    assert(rest@[p] == rest@.subrange(1, rest@.len() as int)[p - 1]);
                }
            }
        }
        rest
    } else {
        let c0 = s[from];
        let mut rest = split_records_exec(s, from + 1);
        proof {
            assert(piece.drop_first() =~= s@.skip(from as int + 1));
            assert(piece[0] == c0);
            assert(!(piece[0] == ',' && piece[1] == '-' && piece[2] == '-'));
            lemma_split_nonempty(s@.skip(from as int + 1));
        }
        let ghost pre0 = rest@[0]@;
        rest[0].insert(0, c0);
        proof {
            let sp = split_records(piece);
            let tailsp = split_records(s@.skip(from as int + 1));
            assert(sp == seq![seq![piece[0]] + tailsp[0]] + tailsp.drop_first());
            assert(rest@[0]@ =~= seq![c0] + pre0);
            assert forall|p: int| 0 <= p < rest@.len() implies (#[trigger] rest@[p])@ == sp[p] by {
                if p > 0 {
                    assert(sp[p] == tailsp.drop_first()[p - 1]);
                    assert(tailsp.drop_first()[p - 1] == tailsp[p]);
                }
            }
        }
        rest
    }
}

/// The comma-separated fields of `s` from `from` on, as vectors.
fn split_fields_exec(s: &Vec<char>, from: usize) -> (r: Vec<Vec<char>>)
    requires
        from <= s@.len(),
    ensures
        r@.len() == split_fields(s@.skip(from as int)).len(),
        forall|p: int|
            0 <= p < r@.len() ==> (#[trigger] r@[p])@ == split_fields(s@.skip(from as int))[p],
    decreases s@.len() - from,
{
    let ghost piece = s@.skip(from as int);
    if s.len() == from {
        let mut r: Vec<Vec<char>> = Vec::new();
        r.push(Vec::new());
        proof {
            assert(piece =~= Seq::<char>::empty());
            assert(split_fields(piece) == seq![Seq::<char>::empty()]);
        }
        r
    } else if s[from] == ',' {
        let mut rest = split_fields_exec(s, from + 1);
        proof {
            assert(piece.drop_first() =~= s@.skip(from as int + 1));
            assert(piece[0] == ',');
        }
        rest.insert(0, Vec::new());
        proof {
            let sp = split_fields(piece);
            assert(sp == seq![Seq::<char>::empty()] + split_fields(s@.skip(from as int + 1)));
            assert forall|p: int| 0 <= p < rest@.len() implies (#[trigger] rest@[p])@ == sp[p] by {
                if p > 0 {
                    assert(rest@[p] == rest@.subrange(1, rest@.len() as int)[p - 1]);
                }
            }
        }
        rest
    } else {
        let c0 = s[from];
        let mut rest = split_fields_exec(s, from + 1);
        proof {
            assert(piece.drop_first() =~= s@.skip(from as int + 1));
            assert(piece[0] == c0);
            lemma_split_nonempty(s@.skip(from as int + 1));
        }
        let ghost pre0 = rest@[0]@;
        rest[0].insert(0, c0);
        proof {
            let sp = split_fields(piece);
            let tailsp = split_fields(s@.skip(from as int + 1));
            assert(sp == seq![seq![piece[0]] + tailsp[0]] + tailsp.drop_first());
            assert(rest@[0]@ =~= seq![c0] + pre0);
            assert forall|p: int| 0 <= p < rest@.len() implies (#[trigger] rest@[p])@ == sp[p] by {
                if p > 0 {
                    assert(sp[p] == tailsp.drop_first()[p - 1]);
                    assert(tailsp.drop_first()[p - 1] == tailsp[p]);
                }
            }
        }
        rest
    }
}

/// Parses one record segment.
fn parse_record_exec(seg: &Vec<char>) -> (r: Result<(usize, Schedule), ParseError>)
    ensures
        match parse_record_spec(seg@) {
            Err(e) => r == Err::<(usize, Schedule), ParseError>(e),
            Ok(sp) => (r matches Ok((id, sch)) && id == sp.0 && sch.view_opt() == sp.1),
        },
{
    proof {
        reveal(parse_record_spec);
    }
    let fields = split_fields_exec(seg, 0);
    proof {
        assert(seg@.skip(0) =~= seg@);
        lemma_split_nonempty(seg@);
    }
    let ghost spfields = split_fields(seg@);
    let f0 = &fields[0];
    let id = match crate::digits::parse_usize_range(f0, 0, f0.len()) {
        Some(v) => v,
        None => {
            proof {
                assert(f0@.subrange(0, f0@.len() as int) =~= spfields[0]);
            }
            return Err(ParseError::BadInt);
        },
    };
    proof {
        assert(f0@.subrange(0, f0@.len() as int) =~= spfields[0]);
    }
    if fields.len() < 2 {
        return Err(ParseError::MissingField);
    }
    let f1 = &fields[1];
    let is_false = f1.len() == 5 && f1[0] == 'f' && f1[1] == 'a' && f1[2] == 'l' && f1[3] == 's'
        && f1[4] == 'e';
    proof {
        if is_false {
            assert(f1@ =~= false_chars());
        } else {
            assert(f1@ != false_chars()) by {
                if f1@ == false_chars() {
                    assert(f1@.len() == 5);
                    assert(f1@[0] == 'f' && f1@[1] == 'a' && f1@[2] == 'l' && f1@[3] == 's'
                        && f1@[4] == 'e');
                }
            }
        }
    }
    if is_false {
        return Ok((id, Schedule::False));
    }
    let clock_in = match crate::clock::parse_time_range(f1, 0, f1.len()) {
        Some(t) => t,
        None => {
            proof {
                assert(f1@.subrange(0, f1@.len() as int) =~= spfields[1]);
            }
            return Err(ParseError::BadTime);
        },
    };
    proof {
        assert(f1@.subrange(0, f1@.len() as int) =~= spfields[1]);
    }
    if fields.len() < 3 {
        return Err(ParseError::MissingField);
    }
    let f2 = &fields[2];
    let clock_out = match crate::clock::parse_time_range(f2, 0, f2.len()) {
        Some(t) => t,
        None => {
            proof {
                assert(f2@.subrange(0, f2@.len() as int) =~= spfields[2]);
            }
            return Err(ParseError::BadTime);
        },
    };
    proof {
        assert(f2@.subrange(0, f2@.len() as int) =~= spfields[2]);
    }
    let mut codes: Vec<usize> = Vec::new();
    let mut p: usize = 3;
    while p < fields.len()
        invariant
            3 <= p <= spfields.len(),
            spfields == split_fields(seg@),
            usize_parsable(spfields[0]),
            spfields.len() >= 3,
            spfields[1] != false_chars(),
            time_parsable(spfields[1]),
            time_parsable(spfields[2]),
            id == dec_value(spfields[0]),
            clock_in == parsed_time(spfields[1]),
            clock_out == parsed_time(spfields[2]),
            fields@.len() == spfields.len(),
            forall|q: int| 0 <= q < spfields.len() ==> (#[trigger] fields@[q])@ == spfields[q],
            codes@.len() == p - 3,
            forall|q: int| 3 <= q < p ==> usize_parsable(#[trigger] spfields[q]),
            forall|q: int| 0 <= q < p - 3 ==> (#[trigger] codes@[q]) == dec_value(spfields[q + 3]),
        decreases fields@.len() - p,
    {
        let fq = &fields[p];
        match crate::digits::parse_usize_range(fq, 0, fq.len()) {
            Some(v) => {
                proof {
                    assert(fq@.subrange(0, fq@.len() as int) =~= spfields[p as int]);
                }
                codes.push(v);
            },
            None => {
                proof {
                    reveal(parse_record_spec);
                    assert(fq@.subrange(0, fq@.len() as int) =~= spfields[p as int]);
                    assert(!usize_parsable(spfields[p as int]));
                }
                return Err(ParseError::BadInt);
            },
        }
        p = p + 1;
    }
    proof {
        assert(codes@ =~= Seq::new(
            (spfields.len() - 3) as nat,
            |q: int| dec_value(spfields[q + 3]) as usize,
        ));
    }
    Ok((id, Schedule::True((clock_in, clock_out, codes))))
}

/// Extending the segment list by one segment extends a successful parse by
/// that segment's record (or keeps it, for an empty segment), and keeps a
/// failure failed.
pub proof fn lemma_parse_segments_snoc(segs: Seq<Seq<char>>, j: int)
    requires
        0 <= j < segs.len(),
    ensures
        parse_segments_spec(segs.take(j + 1)) == (match parse_segments_spec(segs.take(j)) {
            Err(e) => Err::<_, ParseError>(e),
            Ok(rs) => {
                if segs[j].len() == 0 {
                    Ok::<_, ParseError>(rs)
                } else {
                    match parse_record_spec(segs[j]) {
                        Err(e) => Err::<_, ParseError>(e),
                        Ok(r) => Ok::<_, ParseError>(rs.push(r)),
                    }
                }
            },
        }),
    decreases segs.len(),
{
    if j == 0 {
        assert(segs.take(0) =~~= Seq::<Seq<char>>::empty());
        assert(segs.take(1).drop_first() =~~= Seq::<Seq<char>>::empty());
        assert(segs.take(1)[0] == segs[0]);
        match parse_record_spec(segs[0]) {
            Err(e) => {},
            Ok(r) => {
                assert(seq![r] + Seq::<(usize, Option<(TimeOfDay, TimeOfDay, Seq<usize>)>)>::empty()
                    =~= Seq::<(usize, Option<(TimeOfDay, TimeOfDay, Seq<usize>)>)>::empty().push(
                    r,
                ));
            },
        }
    } else {
        lemma_parse_segments_snoc(segs.drop_first(), j - 1);
        assert(segs.take(j + 1).drop_first() =~~= segs.drop_first().take(j));
        assert(segs.take(j).drop_first() =~~= segs.drop_first().take(j - 1));
        assert(segs.take(j + 1)[0] == segs[0]);
        assert(segs.take(j)[0] == segs[0]);
        assert(segs.drop_first()[j - 1] == segs[j]);
        if segs[0].len() == 0 {
        } else {
            match parse_record_spec(segs[0]) {
                Err(e) => {},
                Ok(r0) => {
                    match parse_segments_spec(segs.drop_first().take(j - 1)) {
                        Err(e) => {},
                        Ok(rs) => {
                            match parse_record_spec(segs[j]) {
                                Err(e) => {},
                                Ok(rj) => {
                                    if segs[j].len() > 0 {
                                        assert(seq![r0] + rs.push(rj) =~= (seq![r0] + rs).push(
                                            rj,
                                        ));
                                    }
                                },
                            }
                        },
                    }
                },
            }
        }
    }
}

/// Parses a serialized schedule into one record per employee entry, in
/// order. The first malformed field aborts the whole parse with its error.
pub fn csv_to_schedule(csv: String) -> (r: Result<Vec<(usize, Schedule)>, ParseError>)
    ensures
        match parse_csv_spec(csv@) {
            Err(e) => r == Err::<Vec<(usize, Schedule)>, ParseError>(e),
            Ok(sp) => (r matches Ok(v) && v@.len() == sp.len() && (forall|k: int|
                0 <= k < sp.len() ==> (#[trigger] v@[k]).0 == sp[k].0 && v@[k].1.view_opt()
                    == sp[k].1)),
        },
{
    let chars = string_to_chars(csv.as_str());
    let segments = split_records_exec(&chars, 0);
    proof {
        assert(chars@.skip(0) =~= chars@);
    }
    let ghost spsegs = split_records(csv@);
    let mut result: Vec<(usize, Schedule)> = Vec::new();
    let mut j: usize = 0;
    proof {
        assert(spsegs.take(0) =~~= Seq::<Seq<char>>::empty());
    }
    while j < segments.len()
        invariant
            j <= segments@.len(),
            spsegs == split_records(csv@),
            segments@.len() == spsegs.len(),
            forall|p: int| 0 <= p < spsegs.len() ==> (#[trigger] segments@[p])@ == spsegs[p],
            parse_segments_spec(spsegs.take(j as int)) matches Ok(rs) && result@.len() == rs.len()
                && (forall|k: int|
                0 <= k < rs.len() ==> (#[trigger] result@[k]).0 == rs[k].0
                    && result@[k].1.view_opt() == rs[k].1),
        decreases segments@.len() - j,
    {
        proof {
            lemma_parse_segments_snoc(spsegs, j as int);
        }
        let seg = &segments[j];
        if seg.len() > 0 {
            match parse_record_exec(seg) {
                Ok(rec) => {
                    result.push(rec);
                },
                Err(e) => {
                    proof {
                        lemma_parse_segments_prefix_err(spsegs, j as int + 1);
                    }
                    return Err(e);
                },
            }
        }
        j = j + 1;
    }
    proof {
        assert(spsegs.take(spsegs.len() as int) =~~= spsegs);
    }
    Ok(result)
}

/// A failed prefix parse fails the whole list with the same error.
pub proof fn lemma_parse_segments_prefix_err(segs: Seq<Seq<char>>, j: int)
    requires
        0 <= j <= segs.len(),
        parse_segments_spec(segs.take(j)) is Err,
    ensures
        parse_segments_spec(segs) == parse_segments_spec(segs.take(j)),
    decreases segs.len(),
{
    if j == 0 {
        assert(segs.take(0) =~~= Seq::<Seq<char>>::empty());
        assert(false);
    } else {
        assert(segs.take(j)[0] == segs[0]);
        assert(segs.take(j).drop_first() =~~= segs.drop_first().take(j - 1));
        if segs[0].len() == 0 {
            lemma_parse_segments_prefix_err(segs.drop_first(), j - 1);
        } else {
            match parse_record_spec(segs[0]) {
                Err(e) => {},
                Ok(r) => {
                    lemma_parse_segments_prefix_err(segs.drop_first(), j - 1);
                },
            }
        }
    }
}


/// The joined digits of the status codes from position `from` on.
fn emit_join(codes: &Vec<usize>, from: usize) -> (v: Vec<char>)
    requires
        from <= codes@.len(),
    ensures
        v@ == join_codes(codes@.skip(from as int)),
    decreases codes@.len() - from,
{
    let ghost piece = codes@.skip(from as int);
    if from == codes.len() {
        proof {
            assert(piece =~= Seq::<usize>::empty());
        }
        Vec::new()
    } else if from + 1 == codes.len() {
        let v = crate::digits::usize_to_chars(codes[from]);
        proof {
            assert(piece.len() == 1);
            assert(piece[0] == codes@[from as int]);
        }
        v
    } else {
        let mut v = crate::digits::usize_to_chars(codes[from]);
        v.push(',');
        let mut rest = emit_join(codes, from + 1);
        v.append(&mut rest);
        proof {
            assert(piece[0] == codes@[from as int]);
            assert(piece.drop_first() =~= codes@.skip(from as int + 1));
            assert(v@ =~= dec_chars(codes@[from as int] as nat) + seq![','] + join_codes(
                piece.drop_first(),
            ));
        }
        v
    }
}

/// One employee's record, as characters.
fn emit_record(e: &crate::employee::Employee) -> (v: Vec<char>)
    requires
        e.clock_in.valid(),
        e.clock_out.valid(),
    ensures
        v@ == record_body(e@),
{
    proof {
        reveal(record_body);
    }
    let mut v = crate::digits::usize_to_chars(e.id);
    v.push(',');
    if !e.scheduled {
        v.push('f');
        v.push('a');
        v.push('l');
        v.push('s');
        v.push('e');
        proof {
            assert(v@ =~= record_body(e@));
        }
    } else {
        let mut t1 = crate::clock::time_to_chars(&e.clock_in);
        v.append(&mut t1);
        v.push(',');
        let mut t2 = crate::clock::time_to_chars(&e.clock_out);
        v.append(&mut t2);
        if e.assigned.len() > 0 {
            v.push(',');
            let mut tail = emit_join(&e.assigned, 0);
            proof {
                assert(e.assigned@.skip(0) =~= e.assigned@);
            }
            v.append(&mut tail);
        }
        proof {
            assert(v@ =~= record_body(e@));
        }
    }
    v
}

/// The records of the employees from table position `from` on.
fn emit_csv(emps: &Vec<crate::employee::Employee>, from: usize) -> (v: Vec<char>)
    requires
        from <= emps@.len(),
        forall|k: int|
            from <= k < emps@.len() ==> (#[trigger] emps@[k]).clock_in.valid()
                && emps@[k].clock_out.valid(),
    ensures
        v@ == csv_chars(crate::business::emps_view(*emps).skip(from as int)),
    decreases emps@.len() - from,
{
    let ghost piece = crate::business::emps_view(*emps).skip(from as int);
    if from == emps.len() {
        proof {
            assert(piece =~= Seq::<EmployeeView>::empty());
        }
        Vec::new()
    } else {
        let mut v = emit_record(&emps[from]);
        v.push(',');
        v.push('-');
        v.push('-');
        let mut rest = emit_csv(emps, from + 1);
        v.append(&mut rest);
        proof {
            assert(piece[0] == crate::business::emps_view(*emps)[from as int]);
            assert(piece.drop_first() =~= crate::business::emps_view(*emps).skip(from as int + 1));
            assert(v@ =~= record_body(piece[0]) + rsep() + csv_chars(piece.drop_first()));
        }
        v
    }
}

/// Serializes the business's employee table: one record per employee in
/// table order, each closed by the record separator. Only the clock bounds
/// need to be valid times; the engine keeps them so through every
/// operation, the role fill included.
pub fn schedule_to_csv(business: &crate::business::Business) -> (r: String)
    requires
        forall|k: int|
            0 <= k < business@.employees.len() ==> (#[trigger] business@.employees[k]).clock_in.valid()
                && business@.employees[k].clock_out.valid(),
    ensures
        r@ == csv_chars(business@.employees),
{
    proof {
        assert(business@.employees.skip(0) =~= business@.employees);
        assert forall|k: int|
            0 <= k < business.employees@.len() implies (#[trigger] business.employees@[k]).clock_in.valid()
                && business.employees@[k].clock_out.valid() by {
            assert(business@.employees[k].clock_in.valid());
            assert(business@.employees[k].clock_out.valid());
        }
    }
    let chars = emit_csv(&business.employees, 0);
    chars_to_string(&chars)
}

/// What a comma-separated byte list parses to: every field must be a
/// decimal number of at most 255.
pub open spec fn bytes_parse_spec(s: Seq<char>) -> Result<Seq<u8>, ParseError> {
    let fs = split_fields(s);
    if exists|p: int|
        0 <= p < fs.len() && !(usize_parsable(#[trigger] fs[p]) && dec_value(fs[p]) <= 255) {
        Err(ParseError::BadInt)
    } else {
        Ok(Seq::new(fs.len(), |p: int| dec_value(fs[p]) as u8))
    }
}

/// Renders bytes as comma-separated decimal numbers.
pub fn encoded_to_string(bytes: Vec<u8>) -> (r: String)
    ensures
        r@ == join_codes(bytes@.map_values(|b: u8| b as usize)),
{
    let mut as_usize: Vec<usize> = Vec::new();
    let mut i: usize = 0;
    while i < bytes.len()
        invariant
            i <= bytes@.len(),
            as_usize@ =~= bytes@.map_values(|b: u8| b as usize).take(i as int),
        decreases bytes@.len() - i,
    {
        as_usize.push(bytes[i] as usize);
        proof {
            assert(as_usize@ =~= bytes@.map_values(|b: u8| b as usize).take(i as int + 1));
        }
        i = i + 1;
    }
    proof {
        assert(bytes@.map_values(|b: u8| b as usize).take(bytes@.len() as int) =~= bytes@.map_values(
            |b: u8| b as usize,
        ));
    }
    let chars = emit_join(&as_usize, 0);
    proof {
        assert(as_usize@.skip(0) =~= as_usize@);
    }
    chars_to_string(&chars)
}

/// Parses comma-separated decimal numbers back into bytes; any field that
/// is not a number of at most 255 fails the whole parse.
pub fn encoded_from_string(encoded: String) -> (r: Result<Vec<u8>, ParseError>)
    ensures
        match bytes_parse_spec(encoded@) {
            Err(e) => r == Err::<Vec<u8>, ParseError>(e),
            Ok(bs) => (r matches Ok(v) && v@ == bs),
        },
{
    let chars = string_to_chars(encoded.as_str());
    let fields = split_fields_exec(&chars, 0);
    proof {
        assert(chars@.skip(0) =~= chars@);
    }
    let ghost fs = split_fields(encoded@);
    let mut out: Vec<u8> = Vec::new();
    let mut p: usize = 0;
    while p < fields.len()
        invariant
            p <= fields@.len(),
            fs == split_fields(encoded@),
            fields@.len() == fs.len(),
            forall|q: int| 0 <= q < fs.len() ==> (#[trigger] fields@[q])@ == fs[q],
            out@.len() == p,
            forall|q: int|
                0 <= q < p ==> usize_parsable(#[trigger] fs[q]) && dec_value(fs[q]) <= 255,
            forall|q: int| 0 <= q < p ==> (#[trigger] out@[q]) == dec_value(fs[q]) as u8,
        decreases fields@.len() - p,
    {
        let fq = &fields[p];
        match crate::digits::parse_usize_range(fq, 0, fq.len()) {
            Some(v) if v <= 255 => {
                proof {
                    assert(fq@.subrange(0, fq@.len() as int) =~= fs[p as int]);
                }
                out.push(v as u8);
            },
            _ => {
                proof {
                    assert(fq@.subrange(0, fq@.len() as int) =~= fs[p as int]);
                }
                return Err(ParseError::BadInt);
            },
        }
        p = p + 1;
    }
    proof {
        assert(out@ =~= Seq::new(fs.len(), |q: int| dec_value(fs[q]) as u8));
    }
    Ok(out)
}


/// A parsed time is a valid time of day.
pub proof fn lemma_parsed_time_valid(s: Seq<char>)
    requires
        time_parsable(s),
    ensures
        parsed_time(s).valid(),
{
}

/// The ascending positions at which `codes` holds `c`.
pub open spec fn positions_of(codes: Seq<usize>, c: usize) -> Seq<usize>
    decreases codes.len(),
{
    if codes.len() == 0 {
        Seq::empty()
    } else if codes.last() == c {
        positions_of(codes.drop_last(), c) + seq![(codes.len() - 1) as usize]
    } else {
        positions_of(codes.drop_last(), c)
    }
}

/// Whether the code at position `j` already occurs earlier.
pub open spec fn seen_before(codes: Seq<usize>, j: int) -> bool {
    exists|q: int| 0 <= q < j && codes[q] == codes[j]
}

/// The fresh status row a loaded record starts from: off the clock where
/// the record says so, available everywhere else.
pub open spec fn row_init(codes: Seq<usize>) -> Seq<usize> {
    Seq::new(codes.len(), |i: int| if codes[i] == 0 { 0usize } else { 1usize })
}

/// One grouped assignment during loading: the engine call, or no change
/// when the ids do not resolve or the employee lacks the qualification.
pub open spec fn apply_code(b: BusinessView, emp_id: usize, c: usize, idxs: Seq<usize>) -> BusinessView {
    match (find_emp_idx(b.employees, emp_id), find_role_idx(b.roles, c)) {
        (Some(ke), Some(kr)) => if b.employees[ke].roles.contains(c) {
            assign_block_ok_spec(b, ke, kr, c, idxs).0
        } else {
            b
        },
        _ => b,
    }
}

/// The grouped assignments of one record, walking the codes from position
/// `j` on: each distinct code above 1 is assigned once, at its first
/// occurrence, over all its positions.
pub open spec fn assign_codes_fold(b: BusinessView, emp_id: usize, codes: Seq<usize>, j: int) -> BusinessView
    decreases codes.len() - j,
{
    if j < 0 || j >= codes.len() {
        b
    } else {
        let c = codes[j];
        let b2 = if c <= 1 || seen_before(codes, j) {
            b
        } else {
            apply_code(b, emp_id, c, positions_of(codes, c))
        };
        assign_codes_fold(b2, emp_id, codes, j + 1)
    }
}

/// What loading one record does: an unknown id, an unscheduled record, or
/// a status row of the wrong length changes nothing; otherwise the
/// employee takes the record's clocks and fresh row and the grouped codes
/// are assigned through the engine.
pub open spec fn apply_record_spec(
    b: BusinessView,
    rec: (usize, Option<(TimeOfDay, TimeOfDay, Seq<usize>)>),
) -> BusinessView {
    match find_emp_idx(b.employees, rec.0) {
        None => b,
        Some(ke) => match rec.1 {
            None => b,
            Some((ci, co, codes)) => {
                if codes.len() != b.employees[ke].assigned.len() {
                    b
                } else {
                    let e2 = crate::employee::EmployeeView {
                        scheduled: true,
                        clock_in: ci,
                        clock_out: co,
                        assigned: row_init(codes),
                        ..b.employees[ke]
                    };
                    let b1 = BusinessView { employees: b.employees.update(ke, e2), ..b };
                    assign_codes_fold(b1, rec.0, codes, 0)
                }
            },
        },
    }
}

/// Loading applied to the records from position `j` on, in order.
pub open spec fn load_fold(
    b: BusinessView,
    recs: Seq<(usize, Option<(TimeOfDay, TimeOfDay, Seq<usize>)>)>,
    j: int,
) -> BusinessView
    decreases recs.len() - j,
{
    if j < 0 || j >= recs.len() {
        b
    } else {
        load_fold(apply_record_spec(b, recs[j]), recs, j + 1)
    }
}

/// The wiped state the loader starts from: every occupancy blank, every
/// employee unscheduled with an all-zero row.
pub open spec fn wipe_spec(b: BusinessView) -> BusinessView {
    BusinessView {
        roles: Seq::new(
            b.roles.len(),
            |k: int|
                RoleView {
                    occ: (if b.roles[k].occ is Single {
                        OccView::Single(Seq::new(b.blocks, |i: int| 0usize))
                    } else {
                        OccView::Multi(Seq::new(b.blocks, |i: int| Seq::<usize>::empty()))
                    }),
                    ..b.roles[k]
                },
        ),
        employees: Seq::new(
            b.employees.len(),
            |k: int|
                crate::employee::EmployeeView {
                    scheduled: false,
                    assigned: Seq::new(b.blocks, |i: int| 0usize),
                    ..b.employees[k]
                },
        ),
        ..b
    }
}

/// The positions at which `codes` holds `c`, ascending.
fn positions_of_exec(codes: &Vec<usize>, c: usize) -> (r: Vec<usize>)
    ensures
        r@ == positions_of(codes@, c),
{
    let mut r: Vec<usize> = Vec::new();
    let mut i: usize = 0;
    while i < codes.len()
        invariant
            i <= codes@.len(),
            r@ == positions_of(codes@.take(i as int), c),
        decreases codes@.len() - i,
    {
        proof {
            assert(codes@.take(i as int + 1).drop_last() =~= codes@.take(i as int));
            assert(codes@.take(i as int + 1).last() == codes@[i as int]);
        }
        if codes[i] == c {
            r.push(i);
            proof {
                assert(r@ =~= positions_of(codes@.take(i as int), c) + seq![i]);
            }
        }
        i = i + 1;
    }
    proof {
        assert(codes@.take(codes@.len() as int) =~= codes@);
    }
    r
}

/// Whether the code at position `j` occurs earlier in the row.
fn seen_before_exec(codes: &Vec<usize>, j: usize) -> (r: bool)
    requires
        j < codes@.len(),
    ensures
        r == seen_before(codes@, j as int),
{
    let mut q: usize = 0;
    while q < j
        invariant
            q <= j < codes@.len(),
            forall|p: int| 0 <= p < q ==> codes@[p] != codes@[j as int],
        decreases j - q,
    {
        if codes[q] == codes[j] {
            return true;
        }
        q = q + 1;
    }
    false
}

impl Business {
    /// Replaces the whole schedule with a parsed one: wipes every occupancy
    /// and deschedules everyone, then applies each record in order —
    /// unknown ids and wrong-length rows are skipped, off-clock codes are
    /// applied directly, and every other distinct code is assigned through
    /// the engine, which skips unknown roles and missing qualifications. A
    /// parse failure leaves the business unchanged.
    pub fn load_schedule(&mut self, schedule: String)
        requires
            old(self).wf(),
        ensures
            final(self).wf(),
            match parse_csv_spec(schedule@) {
                Err(_) => final(self)@ == old(self)@,
                Ok(recs) => final(self)@ == load_fold(wipe_spec(old(self)@), recs, 0),
            },
    {
        let ghost b0 = self@;
        let ghost sview = schedule@;
        let parsed = match csv_to_schedule(schedule) {
            Ok(p) => p,
            Err(_) => {
                return ;
            },
        };
        let ghost recs = parse_csv_spec(sview)->Ok_0;
        let blocks = self.blocks;
        let ghost rvec0 = self.roles@;
        let mut k: usize = 0;
        while k < self.roles.len()
            invariant
                k <= self.roles@.len(),
                blocks == b0.blocks,
                roles_view(self.roles).len() == b0.roles.len(),
                rvec0.len() == b0.roles.len(),
                forall|j: int| 0 <= j < b0.roles.len() ==> (#[trigger] rvec0[j])@ == b0.roles[j],
                forall|j: int|
                    0 <= j < k ==> (#[trigger] roles_view(self.roles)[j]) == wipe_spec(b0).roles[j],
                forall|j: int|
                    k <= j < b0.roles.len() ==> (#[trigger] self.roles@[j]) == rvec0[j],
                self.employees == old(self).employees,
                self.open == b0.open,
                self.close == b0.close,
                self@.blocks == b0.blocks,
                self.block_size == b0.block_size,
                self.role_colors == old(self).role_colors,
            decreases self.roles@.len() - k,
        {
            let ghost pre = roles_view(self.roles);
            let ghost rex_old = self.roles@[k as int];
            self.roles[k].blank_out(blocks);
            proof {
                assert(roles_view(self.roles) =~= pre.update(
                    k as int,
                    roles_view(self.roles)[k as int],
                ));
                let r2 = roles_view(self.roles)[k as int];
                let rw = wipe_spec(b0).roles[k as int];
                let rex = self.roles@[k as int];
                assert(rex_old@ == b0.roles[k as int]);
                assert(r2.id == rw.id && r2.sort == rw.sort && r2.name == rw.name && r2.color
                    == rw.color && r2.empty == rw.empty);
                if rex is SingleRole {
                    assert(r2.occ->Single_0 == rex.single_occ());
                    assert(r2.occ == rw.occ);
                    assert(r2 == rw);
                } else {
                    assert(r2.occ->Multi_0 == rex.multi_occ());
                    assert(r2.occ =~~= rw.occ);
                    assert(r2 == rw);
                }
            }
            k = k + 1;
        }
        let ghost roles_wiped = roles_view(self.roles);
        let mut q: usize = 0;
        while q < self.employees.len()
            invariant
                q <= self.employees@.len(),
                blocks == b0.blocks,
                roles_view(self.roles) == roles_wiped,
                emps_view(self.employees).len() == b0.employees.len(),
                forall|j: int|
                    0 <= j < q ==> (#[trigger] emps_view(self.employees)[j]) == wipe_spec(
                        b0,
                    ).employees[j],
                forall|j: int|
                    q <= j < b0.employees.len() ==> (#[trigger] emps_view(self.employees)[j])
                        == b0.employees[j],
                self.open == b0.open,
                self.close == b0.close,
                self@.blocks == b0.blocks,
                self.block_size == b0.block_size,
                self.role_colors == old(self).role_colors,
            decreases self.employees@.len() - q,
        {
            let ghost pre = emps_view(self.employees);
            self.employees[q].deschedule(blocks);
            proof {
                assert(emps_view(self.employees) =~= pre.update(
                    q as int,
                    emps_view(self.employees)[q as int],
                ));
                let e2 = emps_view(self.employees)[q as int];
                let ew = wipe_spec(b0).employees[q as int];
                assert(pre[q as int] == b0.employees[q as int]);
                assert(e2.id == ew.id && e2.name == ew.name && e2.roles == ew.roles && e2.lunch
                    == ew.lunch && e2.clock_in == ew.clock_in && e2.clock_out == ew.clock_out);
                assert(e2.scheduled == ew.scheduled);
                assert(e2.assigned =~= ew.assigned);
                assert(e2 == ew);
            }
            q = q + 1;
        }
        proof {
            assert(self@.roles =~= wipe_spec(b0).roles);
            assert(self@.employees =~= wipe_spec(b0).employees);
            assert(self@ == wipe_spec(b0));
            // the wiped state satisfies the invariant
            let bw = self@;
            assert forall|k2: int, i: int|
                0 <= k2 < bw.employees.len() && 0 <= i < bw.blocks implies
                #[trigger] crate::business::consistent_at(bw, k2, i) by {
                assert(bw.employees[k2].assigned[i] == 0);
            }
            assert(crate::business::role_id_taken(bw.roles, 2)) by {
                let kk = choose|kk: int|
                    0 <= kk < b0.roles.len() && (#[trigger] b0.roles[kk]).id == 2;
                assert(bw.roles[kk].id == 2);
            }
            assert(inv(bw));
        }
        let ghost wiped = self@;
        let mut j: usize = 0;
        while j < parsed.len()
            invariant
                j <= parsed@.len(),
                parse_csv_spec(sview) == Ok::<_, ParseError>(recs),
                recs.len() == parsed@.len(),
                forall|p: int|
                    0 <= p < recs.len() ==> (#[trigger] parsed@[p]).0 == recs[p].0
                        && parsed@[p].1.view_opt() == recs[p].1,
                inv(self@),
                self@ == load_fold_partial(wiped, recs, j as int),
                inv(wiped),
            decreases parsed@.len() - j,
        {
            let ghost pre = self@;
            let emp_id = parsed[j].0;
            match &parsed[j].1 {
                Schedule::False => {
                    proof {
                        assert(apply_record_spec(pre, recs[j as int]) == pre);
                    }
                },
                Schedule::True((ci, co, codes)) => {
                    let ke = match self.find_employee(emp_id) {
                        Some(ke) => ke,
                        None => {
                            proof {
                                assert(apply_record_spec(pre, recs[j as int]) == pre);
                            }
                            proof {
                                lemma_load_fold_step(wiped, recs, j as int);
                            }
                            j = j + 1;
                            continue ;
                        },
                    };
                    proof {
                        lemma_find_emp_idx(pre.employees, emp_id);
                    }
                    if codes.len() != self.employees[ke].assigned.len() {
                        proof {
                            assert(apply_record_spec(pre, recs[j as int]) == pre);
                        }
                    } else {
                        self.employees[ke].scheduled = true;
                        self.employees[ke].clock_in = *ci;
                        self.employees[ke].clock_out = *co;
                        let mut i: usize = 0;
                        let ghost e_target = crate::employee::EmployeeView {
                            scheduled: true,
                            clock_in: *ci,
                            clock_out: *co,
                            assigned: row_init(codes@),
                            ..pre.employees[ke as int]
                        };
                        while i < codes.len()
                            invariant
                                i <= codes@.len(),
                                0 <= ke < emps_view(self.employees).len(),
                                emps_view(self.employees).len() == pre.employees.len(),
                                codes@.len() == emps_view(self.employees)[ke as int].assigned.len(),
                                forall|p: int|
                                    0 <= p < pre.employees.len() && p != ke ==> (
                                    #[trigger] emps_view(self.employees)[p]) == pre.employees[p],
                                emps_view(self.employees)[ke as int].id == e_target.id,
                                emps_view(self.employees)[ke as int].name == e_target.name,
                                emps_view(self.employees)[ke as int].roles == e_target.roles,
                                emps_view(self.employees)[ke as int].scheduled,
                                emps_view(self.employees)[ke as int].lunch == e_target.lunch,
                                emps_view(self.employees)[ke as int].clock_in == e_target.clock_in,
                                emps_view(self.employees)[ke as int].clock_out
                                    == e_target.clock_out,
                                forall|p: int|
                                    0 <= p < i ==> (#[trigger] emps_view(
                                        self.employees,
                                    )[ke as int].assigned[p]) == row_init(codes@)[p],
                                forall|p: int|
                                    i <= p < codes@.len() ==> (#[trigger] emps_view(
                                        self.employees,
                                    )[ke as int].assigned[p]) == pre.employees[ke as int].assigned[p],
                                roles_view(self.roles) == pre.roles,
                                self.open == pre.open,
                                self.close == pre.close,
                                self@.blocks == pre.blocks,
                                self.block_size == pre.block_size,
                                self@.role_colors == pre.role_colors,
                            decreases codes@.len() - i,
                        {
                            let ghost emid = emps_view(self.employees);
                            if codes[i] == 0 {
                                self.employees[ke].assigned[i] = 0;
                            } else {
                                self.employees[ke].assigned[i] = 1;
                            }
                            proof {
                                assert(emps_view(self.employees) =~= emid.update(
                                    ke as int,
                                    emps_view(self.employees)[ke as int],
                                ));
                            }
                            i = i + 1;
                        }
                        proof {
                            assert(emps_view(self.employees)[ke as int].assigned
                                =~= row_init(codes@));
                            assert(emps_view(self.employees)[ke as int] == e_target);
                            assert(self@.employees =~= pre.employees.update(ke as int, e_target));
                            let b1 = BusinessView {
                                employees: pre.employees.update(ke as int, e_target),
                                ..pre
                            };
                            assert(self@ == b1);
                            // the refreshed row keeps the invariant: it holds
                            // nothing above 1 and the record's times are valid
                            assert forall|k2: int, i2: int|
                                0 <= k2 < b1.employees.len() && 0 <= i2 < b1.blocks implies
                                #[trigger] crate::business::consistent_at(b1, k2, i2) by {
                                if k2 == ke {
                                    assert(b1.employees[k2].assigned[i2] <= 1);
                                } else {
                                    assert(crate::business::consistent_at(pre, k2, i2));
                                    let v = b1.employees[k2].assigned[i2];
                                    if v >= 2 {
                                        let rq = choose|rq: int|
                                            0 <= rq < pre.roles.len() && (#[trigger] pre.roles[rq]).id
                                                == v && pre.roles[rq].occ.occupies(
                                                i2,
                                                pre.employees[k2].id,
                                            );
                                        assert(b1.roles[rq].occ.occupies(i2, b1.employees[k2].id));
                                    }
                                }
                            }
                            assert(crate::business::role_id_taken(b1.roles, 2)) by {
                                let kk = choose|kk: int|
                                    0 <= kk < pre.roles.len() && (#[trigger] pre.roles[kk]).id
                                        == 2;
                                assert(b1.roles[kk].id == 2);
                            }
                            assert(recs[j as int].1 matches Some(t) && t.0 == *ci && t.1 == *co
                                && t.2 == codes@);
                            assert((*ci).valid() && (*co).valid()) by {
                                lemma_times_valid_of_parse(sview, recs, j as int);
                            }
                            assert(inv(b1));
                        }
                        // grouped engine assignment per distinct code
                        let ghost b1 = self@;
                        let mut jj: usize = 0;
                        proof {
                            assert(assign_codes_fold(b1, emp_id, codes@, 0) == assign_codes_fold(
                                self@,
                                emp_id,
                                codes@,
                                0,
                            ));
                        }
                        while jj < codes.len()
                            invariant
                                jj <= codes@.len(),
                                inv(self@),
                                assign_codes_fold(b1, emp_id, codes@, 0) == assign_codes_fold(
                                    self@,
                                    emp_id,
                                    codes@,
                                    jj as int,
                                ),
                            decreases codes@.len() - jj,
                        {
                            let ghost sp = self@;
                            let c = codes[jj];
                            if c > 1 && !seen_before_exec(codes, jj) {
                                let pos = positions_of_exec(codes, c);
                                let _ = self.assign_block(emp_id, c, pos);
                                proof {
                                    crate::business::lemma_find_emp_idx(sp.employees, emp_id);
                                    crate::business::lemma_find_role_idx(sp.roles, c);
                                    assert(self@ == apply_code(sp, emp_id, c, positions_of(
                                        codes@,
                                        c,
                                    )));
                                }
                            }
                            proof {
                                assert(assign_codes_fold(sp, emp_id, codes@, jj as int)
                                    == assign_codes_fold(self@, emp_id, codes@, jj as int + 1));
                            }
                            jj = jj + 1;
                        }
                        proof {
                            assert(assign_codes_fold(self@, emp_id, codes@, codes@.len() as int)
                                == self@);
                            assert(self@ == apply_record_spec(pre, recs[j as int]));
                        }
                    }
                },
            }
            proof {
                lemma_load_fold_step(wiped, recs, j as int);
                assert(self@ == load_fold_partial(wiped, recs, j as int + 1));
            }
            j = j + 1;
        }
        proof {
            lemma_load_fold_full(wiped, recs);
        }
    }
}

/// Loading applied to the records before `j`, in order.
pub open spec fn load_fold_partial(
    b: BusinessView,
    recs: Seq<(usize, Option<(TimeOfDay, TimeOfDay, Seq<usize>)>)>,
    j: int,
) -> BusinessView
    decreases j,
{
    if j <= 0 {
        b
    } else {
        apply_record_spec(load_fold_partial(b, recs, j - 1), recs[j - 1])
    }
}

/// Extending the loaded prefix applies one more record.
pub proof fn lemma_load_fold_step(
    b: BusinessView,
    recs: Seq<(usize, Option<(TimeOfDay, TimeOfDay, Seq<usize>)>)>,
    j: int,
)
    requires
        j >= 0,
    ensures
        load_fold_partial(b, recs, j + 1) == apply_record_spec(load_fold_partial(b, recs, j), recs[j]),
{
}

/// The full prefix equals the fold over all records.
pub proof fn lemma_load_fold_full(
    b: BusinessView,
    recs: Seq<(usize, Option<(TimeOfDay, TimeOfDay, Seq<usize>)>)>,
)
    ensures
        load_fold_partial(b, recs, recs.len() as int) == load_fold(b, recs, 0),
{
    lemma_load_fold_shift(b, recs, 0);
}

/// The tail fold from `j` applied after the prefix fold gives the whole.
pub proof fn lemma_load_fold_shift(
    b: BusinessView,
    recs: Seq<(usize, Option<(TimeOfDay, TimeOfDay, Seq<usize>)>)>,
    j: int,
)
    requires
        0 <= j <= recs.len(),
    ensures
        load_fold(load_fold_partial(b, recs, j), recs, j) == load_fold_partial(
            b,
            recs,
            recs.len() as int,
        ),
    decreases recs.len() - j,
{
    if j < recs.len() {
        lemma_load_fold_shift(b, recs, j + 1);
    }
}

/// The clock fields of a successfully parsed scheduled record are valid
/// times.
pub proof fn lemma_times_valid_of_parse(
    s: Seq<char>,
    recs: Seq<(usize, Option<(TimeOfDay, TimeOfDay, Seq<usize>)>)>,
    j: int,
)
    requires
        parse_csv_spec(s) == Ok::<_, ParseError>(recs),
        0 <= j < recs.len(),
        recs[j].1 is Some,
    ensures
        (recs[j].1->0).0.valid(),
        (recs[j].1->0).1.valid(),
{
    lemma_segments_times_valid(split_records(s));
}

/// Every scheduled record a segment list parses to has valid clock fields.
pub proof fn lemma_segments_times_valid(segs: Seq<Seq<char>>)
    ensures
        parse_segments_spec(segs) matches Ok(rs) ==> forall|j: int|
            0 <= j < rs.len() && (#[trigger] rs[j]).1 is Some ==> (rs[j].1->0).0.valid() && (
            rs[j].1->0).1.valid(),
    decreases segs.len(),
{
    reveal(parse_record_spec);
    if segs.len() > 0 {
        lemma_segments_times_valid(segs.drop_first());
        if segs[0].len() > 0 {
            match parse_record_spec(segs[0]) {
                Err(_) => {},
                Ok(r) => {
                    match parse_segments_spec(segs.drop_first()) {
                        Err(_) => {},
                        Ok(rs) => {
                            if r.1 is Some {
                                let fields = split_fields(segs[0]);
                                lemma_parsed_time_valid(fields[1]);
                                lemma_parsed_time_valid(fields[2]);
                            }
                            assert forall|j: int|
                                0 <= j < (seq![r] + rs).len() && (#[trigger] (seq![r] + rs)[j]).1
                                    is Some implies ((seq![r] + rs)[j].1->0).0.valid() && ((
                            seq![r] + rs)[j].1->0).1.valid() by {
                                if j > 0 {
                                    assert((seq![r] + rs)[j] == rs[j - 1]);
                                }
                            }
                        },
                    }
                },
            }
        }
    }
}

} // verus!

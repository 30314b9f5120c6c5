//! Records of the ranking file: one team and the score it gave to each case.

use vstd::prelude::*;
use vstd::string::StringSliceAdditionalSpecFns;
use vstd::utf8::{decode_utf8, encode_utf8_decode_utf8, is_char_boundary};
use crate::score::{parse_i32, parse_score};
use crate::text::{bytes_of, lines_of, split_fields, split_lines, split_record};

verus! {

/// A team and its scores, one for each case in the order of the cases.
#[derive(Clone, Debug, PartialEq, Eq)]
pub struct Record {
    pub team_name: String,
    pub allocation: Vec<i32>,
}

/// A record as the contracts see it.
pub struct RecordView {
    pub team_name: Seq<char>,
    pub allocation: Seq<i32>,
}

impl View for Record {
    type V = RecordView;

    open spec fn view(&self) -> RecordView {
        RecordView { team_name: self.team_name@, allocation: self.allocation@ }
    }
}

/// Why the scores of a team are refused.
#[derive(Clone, Copy, Debug, PartialEq, Eq, Structural)]
pub enum AllocationError {
    /// There are fewer scores than cases.
    MissingScore,
    /// A score is not a number.
    MalformedScore,
    /// A score is less than one or more than the number of cases.
    ScoreOutOfRange,
    /// Two cases have the same score.
    DuplicateScore,
}

/// Why a line of the ranking file is refused.
#[derive(Clone, Debug, PartialEq, Eq)]
pub enum InputError {
    /// The line is shorter than a time stamp, or the time stamp ends inside a character.
    MissingTimestamp,
    /// The scores of the named team are refused.
    Allocation { team_name: String, reason: AllocationError },
}

/// A refusal as the contracts see it.
pub enum InputFault {
    MissingTimestamp,
    Allocation { team_name: Seq<char>, reason: AllocationError },
}

impl View for InputError {
    type V = InputFault;

    open spec fn view(&self) -> InputFault {
        match self {
            InputError::MissingTimestamp => InputFault::MissingTimestamp,
            InputError::Allocation { team_name, reason } => InputFault::Allocation {
                team_name: team_name@,
                reason: *reason,
            },
        }
    }
}

/// The number of bytes that the time stamp takes at the start of a line.
pub const TIMESTAMP_LEN: usize = 20;

/// The field at `i` is there and holds a score between one and the number of cases.
pub open spec fn score_accepted(fields: Seq<Seq<u8>>, i: int, num_cases: int) -> bool {
    &&& i < fields.len()
    &&& parse_score(fields[i]) is Some
    &&& 1 <= parse_score(fields[i]).unwrap() <= num_cases
}

/// Why the field at `i` is refused, where it is.
pub open spec fn score_fault(fields: Seq<Seq<u8>>, i: int) -> AllocationError {
    if i >= fields.len() {
        AllocationError::MissingScore
    } else if parse_score(fields[i]) is None {
        AllocationError::MalformedScore
    } else {
        AllocationError::ScoreOutOfRange
    }
}

/// The field at `i` is refused and every field before it is accepted.
pub open spec fn is_first_rejected(fields: Seq<Seq<u8>>, i: int, num_cases: int) -> bool {
    &&& 0 <= i < num_cases
    &&& !score_accepted(fields, i, num_cases)
    &&& forall|k: int| 0 <= k < i ==> score_accepted(fields, k, num_cases)
}

/// The scores of the first `num_cases` fields.
pub open spec fn scores(fields: Seq<Seq<u8>>, num_cases: int) -> Seq<i32> {
    Seq::new(num_cases as nat, |i: int| parse_score(fields[i]).unwrap())
}

/// No two scores are alike.
pub open spec fn distinct(a: Seq<i32>) -> bool {
    forall|i: int, j: int| 0 <= i < j < a.len() ==> a[i] != a[j]
}

/// The scores rank the cases: one score for each case, each between one and the number of
/// cases, no two alike.
pub open spec fn valid_allocation(a: Seq<i32>, num_cases: int) -> bool {
    &&& a.len() == num_cases
    &&& forall|i: int| 0 <= i < a.len() ==> 1 <= #[trigger] a[i] <= num_cases
    &&& distinct(a)
}

/// What the fields of a record hold: the scores, or the fault of the first field that is
/// refused, or, where each field alone is accepted, that two of them are alike.
pub open spec fn allocation_of(fields: Seq<Seq<u8>>, num_cases: int) -> Result<
    Seq<i32>,
    AllocationError,
> {
    if exists|i: int| is_first_rejected(fields, i, num_cases) {
        Err(score_fault(fields, choose|i: int| is_first_rejected(fields, i, num_cases)))
    } else if distinct(scores(fields, num_cases)) {
        Ok(scores(fields, num_cases))
    } else {
        Err(AllocationError::DuplicateScore)
    }
}

/// Scores that are read without fault rank the cases.
pub proof fn lemma_allocation_valid(fields: Seq<Seq<u8>>, num_cases: int)
    requires
        0 <= num_cases,
        allocation_of(fields, num_cases) is Ok,
    ensures
        valid_allocation(allocation_of(fields, num_cases)->Ok_0, num_cases),
{
    let a = scores(fields, num_cases);
    assert forall|i: int| 0 <= i < a.len() implies 1 <= #[trigger] a[i] <= num_cases by {
        lemma_all_accepted(fields, num_cases, i);
    }
}

/// Where no field is the first to be refused, every field is accepted.
proof fn lemma_all_accepted(fields: Seq<Seq<u8>>, num_cases: int, i: int)
    requires
        !exists|k: int| is_first_rejected(fields, k, num_cases),
        0 <= i < num_cases,
    ensures
        score_accepted(fields, i, num_cases),
    decreases i,
{
    if !score_accepted(fields, i, num_cases) {
        assert forall|k: int| 0 <= k < i implies score_accepted(fields, k, num_cases) by {
            lemma_all_accepted(fields, num_cases, k);
        }
        assert(is_first_rejected(fields, i, num_cases));
    }
}

/// Only one field can be the first to be refused.
proof fn lemma_first_rejected_unique(fields: Seq<Seq<u8>>, i: int, num_cases: int)
    requires
        is_first_rejected(fields, i, num_cases),
    ensures
        allocation_of(fields, num_cases) == Err::<Seq<i32>, AllocationError>(
            score_fault(fields, i),
        ),
{
    let c = choose|k: int| is_first_rejected(fields, k, num_cases);
    if c < i {
        assert(score_accepted(fields, c, num_cases));
    } else if i < c {
        assert(score_accepted(fields, i, num_cases));
    }
}

/// Reads the scores of a team from the fields of its record, one field for each case.
///
/// The fields are read in order, and the first one that is missing, is not a number or is out of
/// range decides the error. Fields beyond the number of cases are not looked at.
pub fn parse_allocation(tokens: Vec<&str>, num_cases: usize) -> (r: Result<
    Vec<i32>,
    AllocationError,
>)
    ensures
        match r {
            Ok(a) => allocation_of(bytes_of(tokens@), num_cases as int) == Ok::<
                Seq<i32>,
                AllocationError,
            >(a@),
            Err(e) => allocation_of(bytes_of(tokens@), num_cases as int) == Err::<
                Seq<i32>,
                AllocationError,
            >(e),
        },
        r matches Ok(a) ==> valid_allocation(a@, num_cases as int),
{
    proof {
        if allocation_of(bytes_of(tokens@), num_cases as int) is Ok {
            lemma_allocation_valid(bytes_of(tokens@), num_cases as int);
        }
    }
    let ghost fields = bytes_of(tokens@);
    let mut allocation: Vec<i32> = Vec::new();
    let mut i: usize = 0;
    while i < num_cases
        invariant
            i <= num_cases,
            allocation.len() == i,
            fields == bytes_of(tokens@),
            forall|k: int|
                0 <= k < i ==> #[trigger] score_accepted(fields, k, num_cases as int)
                    && parse_score(fields[k]) == Some(allocation[k]),
        decreases num_cases - i,
    {
        if i >= tokens.len() {
            proof {
                lemma_first_rejected_unique(fields, i as int, num_cases as int);
            }
            return Err(AllocationError::MissingScore);
        }
        match parse_i32(tokens[i]) {
            None => {
                proof {
                    lemma_first_rejected_unique(fields, i as int, num_cases as int);
                }
                return Err(AllocationError::MalformedScore);
            },
            Some(v) => {
                if v < 1 || v as usize > num_cases {
                    proof {
                        lemma_first_rejected_unique(fields, i as int, num_cases as int);
                    }
                    return Err(AllocationError::ScoreOutOfRange);
                }
                allocation.push(v);
            },
        }
        i = i + 1;
    }
    proof {
        assert(!exists|k: int| is_first_rejected(fields, k, num_cases as int));
        assert forall|k: int| 0 <= k < num_cases implies allocation@[k] == scores(
            fields,
            num_cases as int,
        )[k] by {
            assert(score_accepted(fields, k, num_cases as int));
        }
        assert(allocation@ =~= scores(fields, num_cases as int));
    }
    let mut i: usize = 0;
    while i < num_cases
        invariant
            i <= num_cases,
            allocation.len() == num_cases,
            fields == bytes_of(tokens@),
            !exists|k: int| is_first_rejected(fields, k, num_cases as int),
            allocation@ == scores(fields, num_cases as int),
            forall|a: int, b: int| 0 <= a < i && a < b < num_cases ==> allocation[a] != allocation[b],
        decreases num_cases - i,
    {
        let mut j: usize = i + 1;
        while j < num_cases
            invariant
                i < j <= num_cases,
                allocation.len() == num_cases,
                fields == bytes_of(tokens@),
                !exists|k: int| is_first_rejected(fields, k, num_cases as int),
                allocation@ == scores(fields, num_cases as int),
                forall|b: int| i < b < j ==> allocation[i as int] != allocation[b],
            decreases num_cases - j,
        {
            if allocation[i] == allocation[j] {
                return Err(AllocationError::DuplicateScore);
            }
            j = j + 1;
        }
        i = i + 1;
    }
    Ok(allocation)
}

/// What follows the time stamp of a line, where the line starts with one: the time stamp
/// takes a fixed number of bytes and must end where a character ends.
pub open spec fn after_timestamp(line: Seq<u8>) -> Option<Seq<u8>> {
    if is_char_boundary(line, TIMESTAMP_LEN as int) {
        Some(line.subrange(TIMESTAMP_LEN as int, line.len() as int))
    } else {
        None
    }
}

/// What a line holds. After the time stamp comes the name of the team, and after the name
/// the scores: the last `num_cases` fields, or all the fields after the first where there
/// are fewer. The name may hold commas. A line with too few scores is refused for its team.
pub open spec fn record_of(line: Seq<u8>, num_cases: int) -> Result<RecordView, InputFault> {
    match after_timestamp(line) {
        None => Err(InputFault::MissingTimestamp),
        Some(rest) => {
            let parts = split_fields(rest, num_cases as nat);
            let team_name = decode_utf8(parts.0);
            match allocation_of(parts.1, num_cases) {
                Ok(allocation) => Ok(RecordView { team_name, allocation }),
                Err(reason) => Err(InputFault::Allocation { team_name, reason }),
            }
        },
    }
}

/// The records of the given lines, or the refusal of the first line that is refused.
pub open spec fn records_of(lines: Seq<Seq<u8>>, num_cases: int) -> Result<
    Seq<RecordView>,
    InputFault,
>
    decreases lines.len(),
{
    if lines.len() == 0 {
        Ok(Seq::empty())
    } else {
        match records_of(lines.drop_last(), num_cases) {
            Err(fault) => Err(fault),
            Ok(records) => match record_of(lines.last(), num_cases) {
                Err(fault) => Err(fault),
                Ok(record) => Ok(records.push(record)),
            },
        }
    }
}

/// The lines that hold records: all but the first, which holds the headings.
pub open spec fn data_lines(lines: Seq<Seq<u8>>) -> Seq<Seq<u8>> {
    if lines.len() == 0 {
        lines
    } else {
        lines.subrange(1, lines.len() as int)
    }
}

/// Each record as the contracts see it.
pub open spec fn records_view(records: Seq<Record>) -> Seq<RecordView> {
    Seq::new(records.len(), |i: int| records[i]@)
}

/// Every record ranks the cases.
pub open spec fn valid_records(records: Seq<RecordView>, num_cases: int) -> bool {
    forall|i: int|
        0 <= i < records.len() ==> valid_allocation(#[trigger] records[i].allocation, num_cases)
}

/// Every record has one score for each case.
pub open spec fn complete_records(records: Seq<RecordView>, num_cases: int) -> bool {
    forall|i: int| 0 <= i < records.len() ==> (#[trigger] records[i]).allocation.len() == num_cases
}

/// Whether every record has one score for each case.
pub fn are_complete(records: &Vec<Record>, num_cases: usize) -> (ok: bool)
    ensures
        ok == complete_records(records_view(records@), num_cases as int),
{
    let mut i: usize = 0;
    while i < records.len()
        invariant
            i <= records.len(),
            forall|k: int|
                0 <= k < i ==> (#[trigger] records_view(records@)[k]).allocation.len()
                    == num_cases,
        decreases records.len() - i,
    {
        if records[i].allocation.len() != num_cases {
            assert(records_view(records@)[i as int].allocation.len() != num_cases);
            return false;
        }
        i = i + 1;
    }
    true
}

/// Records that rank the cases have one score for each case.
pub proof fn lemma_valid_records_complete(records: Seq<RecordView>, num_cases: int)
    requires
        valid_records(records, num_cases),
    ensures
        complete_records(records, num_cases),
{
    assert forall|i: int| 0 <= i < records.len() implies (#[trigger] records[i]).allocation.len()
        == num_cases by {
        assert(valid_allocation(records[i].allocation, num_cases));
    }
}

/// A refusal among the first lines is the refusal of all the lines.
proof fn lemma_refusal_stays(lines: Seq<Seq<u8>>, k: int, num_cases: int)
    requires
        0 <= k <= lines.len(),
        records_of(lines.take(k), num_cases) is Err,
    ensures
        records_of(lines, num_cases) == records_of(lines.take(k), num_cases),
    decreases lines.len() - k,
{
    if k < lines.len() {
        assert(lines.take(k + 1).drop_last() =~= lines.take(k));
        lemma_refusal_stays(lines, k + 1, num_cases);
    } else {
        assert(lines.take(k) =~= lines);
    }
}

/// Records that are read without refusal rank the cases.
pub proof fn lemma_records_valid(lines: Seq<Seq<u8>>, num_cases: int)
    requires
        0 <= num_cases,
        records_of(lines, num_cases) is Ok,
    ensures
        records_of(lines, num_cases)->Ok_0.len() == lines.len(),
        valid_records(records_of(lines, num_cases)->Ok_0, num_cases),
    decreases lines.len(),
{
    if lines.len() > 0 {
        lemma_records_valid(lines.drop_last(), num_cases);
        let rest = after_timestamp(lines.last())->Some_0;
        lemma_allocation_valid(split_fields(rest, num_cases as nat).1, num_cases);
    }
}

/// Reads the record of a team from a line of the ranking file. A line that does not start
/// with a time stamp is refused without a name; any other line that is refused names its team.
pub fn parse_record(line: &str, num_cases: usize) -> (r: Result<Record, InputError>)
    ensures
        match r {
            Ok(record) => record_of(line.spec_bytes(), num_cases as int) == Ok::<
                RecordView,
                InputFault,
            >(record@),
            Err(error) => record_of(line.spec_bytes(), num_cases as int) == Err::<
                RecordView,
                InputFault,
            >(error@),
        },
        r matches Ok(record) ==> valid_allocation(record.allocation@, num_cases as int),
        r matches Err(InputError::MissingTimestamp) <==> !is_char_boundary(
            line.spec_bytes(),
            TIMESTAMP_LEN as int,
        ),
{
    if !line.is_char_boundary(TIMESTAMP_LEN) {
        return Err(InputError::MissingTimestamp);
    }
    let (_, rest) = line.split_at(TIMESTAMP_LEN);
    let (name, tokens) = split_record(rest, num_cases);
    proof {
        encode_utf8_decode_utf8(name@);
    }
    let team_name = name.to_owned();
    match parse_allocation(tokens, num_cases) {
        Ok(allocation) => Ok(Record { team_name, allocation }),
        Err(reason) => Err(InputError::Allocation { team_name, reason }),
    }
}

/// Reads the records of a ranking file: one line of headings, then one line for each team.
/// The first line that is refused decides the error.
pub fn parse_records(content: &str, num_cases: usize) -> (r: Result<Vec<Record>, InputError>)
    ensures
        match r {
            Ok(records) => records_of(
                data_lines(lines_of(content.spec_bytes())),
                num_cases as int,
            ) == Ok::<Seq<RecordView>, InputFault>(records_view(records@)),
            Err(error) => records_of(
                data_lines(lines_of(content.spec_bytes())),
                num_cases as int,
            ) == Err::<Seq<RecordView>, InputFault>(error@),
        },
        r is Ok ==> valid_records(records_view(r->Ok_0@), num_cases as int),
{
    let lines = split_lines(content);
    let ghost data = data_lines(bytes_of(lines@));
    let mut records: Vec<Record> = Vec::new();
    let mut i: usize = 1;
    assert(data.take(0) =~= Seq::<Seq<u8>>::empty());
    assert(records_view(records@) =~= Seq::<RecordView>::empty());
    while i < lines.len()
        invariant
            1 <= i,
            data == data_lines(bytes_of(lines@)),
            records.len() + 1 == i,
            i <= lines.len() || (lines.len() == 0 && i == 1),
            bytes_of(lines@) == lines_of(content.spec_bytes()),
            records_of(data.take(i - 1), num_cases as int) == Ok::<Seq<RecordView>, InputFault>(
                records_view(records@),
            ),
        decreases lines.len() - i,
    {
        let ghost before = records_view(records@);
        proof {
            assert(data.take(i as int).drop_last() =~= data.take(i - 1));
            assert(data.take(i as int).last() == lines@[i as int].spec_bytes());
        }
        match parse_record(lines[i], num_cases) {
            Err(error) => {
                proof {
                    assert(records_of(data.take(i as int), num_cases as int) == Err::<
                        Seq<RecordView>,
                        InputFault,
                    >(error@));
                    lemma_refusal_stays(data, i as int, num_cases as int);
                }
                return Err(error);
            },
            Ok(record) => {
                records.push(record);
                assert(records_view(records@) =~= before.push(record@));
                assert(records_of(data.take(i as int), num_cases as int) == Ok::<
                    Seq<RecordView>,
                    InputFault,
                >(records_view(records@)));
            },
        }
        i = i + 1;
    }
    proof {
        assert(data.take(data.len() as int) =~= data);
        if lines.len() == 0 {
            assert(data.len() == 0);
            assert(data.take(i - 1) =~= data);
        }
        lemma_records_valid(data, num_cases as int);
    }
    Ok(records)
}

} // verus!

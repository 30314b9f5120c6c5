//! From the ranking file to the lines of the result.

use vstd::prelude::*;
use vstd::string::{StringExecFns, StringSliceAdditionalSpecFns};
use crate::assignment::{is_optimal, quota_total, quota_upto};
use crate::extraction::AssignError;
use crate::network::{instance_of, lemma_instance_of, FlowNetwork};
use crate::quota::{
    lemma_quotas_exceed_teams,
    lemma_share_bounded,
    lemma_weight_bounded,
    max_teams_per_case,
    quota_sum,
    quotas_of,
    total_weight,
    weight_sum,
    Case,
};
use crate::record::{
    complete_records,
    data_lines,
    lemma_valid_records_complete,
    parse_records,
    records_of,
    records_view,
    InputError,
    InputFault,
    Record,
    RecordView,
};
use crate::solver::{solution, solve};
use crate::text::lines_of;

verus! {

/// What assigning the teams of the records to the cases gives. Each case takes its quota of
/// teams; where there are cases but no weight, no quota can be had.
pub open spec fn assigned(
    records: Seq<RecordView>,
    cases: Seq<Case>,
    r: Result<Vec<usize>, AssignError>,
) -> bool {
    if cases.len() > 0 && weight_sum(cases) == 0 {
        r matches Err(AssignError::NoWeight)
    } else {
        let inst = instance_of(records, quotas_of(records.len() as int, cases));
        if !inst.representable() {
            r matches Err(AssignError::TooLarge)
        } else {
            solution(inst, r)
        }
    }
}

/// The quotas of cases with weight always leave room for every team, so the teams can be
/// assigned within them.
pub proof fn lemma_quotas_give_room(records: Seq<RecordView>, cases: Seq<Case>)
    requires
        cases.len() > 0,
        weight_sum(cases) > 0,
        records.len() < usize::MAX,
    ensures
        quota_total(instance_of(records, quotas_of(records.len() as int, cases))) > records.len(),
{
    lemma_quotas_add_up(records, cases, cases.len());
    assert(cases.take(cases.len() as int) =~= cases);
    lemma_quotas_exceed_teams(records.len() as int, cases);
}

/// The first quotas of the instance are the quotas of the first cases.
proof fn lemma_quotas_add_up(records: Seq<RecordView>, cases: Seq<Case>, n: nat)
    requires
        n <= cases.len(),
        weight_sum(cases) > 0,
        records.len() < usize::MAX,
    ensures
        quota_upto(instance_of(records, quotas_of(records.len() as int, cases)), n) == quota_sum(
            records.len() as int,
            cases.take(n as int),
            weight_sum(cases),
        ),
    decreases n,
{
    if n > 0 {
        lemma_quotas_add_up(records, cases, (n - 1) as nat);
        assert(cases.take(n as int).drop_last() =~= cases.take(n - 1));
        lemma_weight_bounded(cases, n - 1);
        lemma_share_bounded(
            records.len() as int,
            cases[n - 1].weight as int,
            weight_sum(cases),
        );
    }
}

/// Assigns each team to a case. Every record must have one score for each case. The result
/// holds the case of each team by its position among the cases, in the order of the records.
pub fn assign(records: &Vec<Record>, cases: &Vec<Case>) -> (r: Result<Vec<usize>, AssignError>)
    requires
        complete_records(records_view(records@), cases.len() as int),
    ensures
        assigned(records_view(records@), cases@, r),
        r matches Ok(a) ==> is_optimal(
            instance_of(records_view(records@), quotas_of(records.len() as int, cases@)),
            a@,
        ),
{
    let ghost inst = instance_of(records_view(records@), quotas_of(records.len() as int, cases@));
    if cases.len() > 0 {
        if total_weight(cases) == 0 {
            return Err(AssignError::NoWeight);
        }
        if records.len() == usize::MAX {
            proof {
                lemma_instance_of(
                    records_view(records@),
                    quotas_of(records.len() as int, cases@),
                );
                assert(inst.num_teams() * inst.num_cases() >= 0) by (nonlinear_arith)
                    requires
                        inst.num_teams() >= 0,
                        inst.num_cases() >= 0,
                ;
            }
            return Err(AssignError::TooLarge);
        }
    }
    let quotas = max_teams_per_case(records.len(), cases);
    match FlowNetwork::build(records, &quotas) {
        Some(net) => solve(&net),
        None => Err(AssignError::TooLarge),
    }
}

/// The line that tells the case of a team.
pub open spec fn line_of(team: Seq<char>, case: Seq<char>) -> Seq<char> {
    "Team \""@ + team + "\" -> Case \""@ + case + "\""@
}

/// The lines that tell the case of each team, in the order of the teams.
pub open spec fn report_of(records: Seq<RecordView>, cases: Seq<Case>, a: Seq<usize>) -> Seq<
    Seq<char>,
> {
    Seq::new(a.len(), |t: int| line_of(records[t].team_name, cases[a[t] as int].name@))
}

/// The characters of each line.
pub open spec fn lines_view(lines: Seq<String>) -> Seq<Seq<char>> {
    Seq::new(lines.len(), |i: int| lines[i]@)
}

/// Writes the line that tells the case of a team.
pub fn render(team: &str, case: &str) -> (line: String)
    ensures
        line@ == line_of(team@, case@),
{
    let mut line = String::from_str("Team \"");
    line.append(team);
    line.append("\" -> Case \"");
    line.append(case);
    line.append("\"");
    line
}

/// Writes the lines that tell the case of each team, in the order of the teams.
pub fn report(records: &Vec<Record>, cases: &Vec<Case>, a: &Vec<usize>) -> (lines: Vec<String>)
    requires
        a.len() == records.len(),
        forall|t: int| 0 <= t < a.len() ==> #[trigger] a[t] < cases.len(),
    ensures
        lines.len() == a.len(),
        lines_view(lines@) == report_of(records_view(records@), cases@, a@),
{
    let mut lines: Vec<String> = Vec::new();
    let mut t: usize = 0;
    while t < a.len()
        invariant
            t <= a.len(),
            a.len() == records.len(),
            forall|s: int| 0 <= s < a.len() ==> #[trigger] a[s] < cases.len(),
            lines.len() == t,
            forall|s: int|
                0 <= s < t ==> (#[trigger] lines[s])@ == line_of(
                    records[s].team_name@,
                    cases[a[s] as int].name@,
                ),
        decreases a.len() - t,
    {
        let line = render(records[t].team_name.as_str(), cases[a[t]].name.as_str());
        lines.push(line);
        t = t + 1;
    }
    assert(lines_view(lines@) =~= report_of(records_view(records@), cases@, a@));
    lines
}

/// The case of each team, and the lines that tell it.
#[derive(Clone, Debug, PartialEq, Eq)]
pub struct Allocation {
    pub assignment: Vec<usize>,
    pub lines: Vec<String>,
}

/// Why a ranking file gives no result.
#[derive(Clone, Debug, PartialEq, Eq)]
pub enum RunError {
    /// A line of the file is refused.
    Input(InputError),
    /// The teams cannot be assigned.
    Assign(AssignError),
}

/// Reads the ranking file, assigns each team to a case and writes the lines of the result.
///
/// The file is refused with its first line that is refused, before anything is solved.
pub fn run(content: &str, cases: &Vec<Case>) -> (r: Result<Allocation, RunError>)
    ensures
        match r {
            Err(RunError::Input(error)) => records_of(
                data_lines(lines_of(content.spec_bytes())),
                cases.len() as int,
            ) == Err::<Seq<RecordView>, InputFault>(error@),
            Err(RunError::Assign(error)) => {
                let read = records_of(
                    data_lines(lines_of(content.spec_bytes())),
                    cases.len() as int,
                );
                read is Ok && assigned(read->Ok_0, cases@, Err(error))
            },
            Ok(allocation) => {
                let read = records_of(
                    data_lines(lines_of(content.spec_bytes())),
                    cases.len() as int,
                );
                &&& read is Ok
                &&& assigned(read->Ok_0, cases@, Ok(allocation.assignment))
                &&& is_optimal(
                    instance_of(read->Ok_0, quotas_of(read->Ok_0.len() as int, cases@)),
                    allocation.assignment@,
                )
                &&& lines_view(allocation.lines@) == report_of(
                    read->Ok_0,
                    cases@,
                    allocation.assignment@,
                )
            },
        },
{
    let records = match parse_records(content, cases.len()) {
        Ok(records) => records,
        Err(error) => {
            return Err(RunError::Input(error));
        },
    };
    proof {
        lemma_valid_records_complete(records_view(records@), cases.len() as int);
    }
    let assignment = match assign(&records, cases) {
        Ok(assignment) => assignment,
        Err(error) => {
            return Err(RunError::Assign(error));
        },
    };
    proof {
        lemma_instance_of(records_view(records@), quotas_of(records.len() as int, cases@));
    }
    let lines = report(&records, cases, &assignment);
    Ok(Allocation { assignment, lines })
}

} // verus!

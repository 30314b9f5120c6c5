//! What is said to the user when a ranking file gives no result.

use vstd::prelude::*;
use vstd::string::StringExecFns;
use crate::engine::RunError;
use crate::extraction::AssignError;
use crate::record::{AllocationError, InputError};

verus! {

/// The digit `d` as text.
pub open spec fn digit_text(d: nat) -> Seq<char> {
    if d == 0 {
        "0"@
    } else if d == 1 {
        "1"@
    } else if d == 2 {
        "2"@
    } else if d == 3 {
        "3"@
    } else if d == 4 {
        "4"@
    } else if d == 5 {
        "5"@
    } else if d == 6 {
        "6"@
    } else if d == 7 {
        "7"@
    } else if d == 8 {
        "8"@
    } else {
        "9"@
    }
}

/// The number `n` in base ten, without leading zeros.
pub open spec fn decimal_text(n: nat) -> Seq<char>
    decreases n,
{
    if n < 10 {
        digit_text(n)
    } else {
        decimal_text(n / 10) + digit_text(n % 10)
    }
}

/// The first `k` digits as text, the last of them first.
pub open spec fn reversed_text(digits: Seq<usize>, k: nat) -> Seq<char>
    decreases k,
{
    if k == 0 {
        Seq::empty()
    } else {
        digit_text(digits[k - 1] as nat) + reversed_text(digits, (k - 1) as nat)
    }
}

/// Digits that agree at the first `k` positions give the same text.
proof fn lemma_reversed_text_agrees(a: Seq<usize>, b: Seq<usize>, k: nat)
    requires
        forall|i: int| 0 <= i < k ==> a[i] == b[i],
    ensures
        reversed_text(a, k) == reversed_text(b, k),
    decreases k,
{
    if k > 0 {
        lemma_reversed_text_agrees(a, b, (k - 1) as nat);
    }
}

/// Writes a digit.
fn digit(d: usize) -> (text: &'static str)
    requires
        d < 10,
    ensures
        text@ == digit_text(d as nat),
{
    if d == 0 {
        "0"
    } else if d == 1 {
        "1"
    } else if d == 2 {
        "2"
    } else if d == 3 {
        "3"
    } else if d == 4 {
        "4"
    } else if d == 5 {
        "5"
    } else if d == 6 {
        "6"
    } else if d == 7 {
        "7"
    } else if d == 8 {
        "8"
    } else {
        "9"
    }
}

/// Writes a number in base ten.
pub fn decimal(n: usize) -> (text: String)
    ensures
        text@ == decimal_text(n as nat),
{
    let mut digits: Vec<usize> = Vec::new();
    let mut rest = n;
    assert(decimal_text(rest as nat) + reversed_text(digits@, 0) =~= decimal_text(n as nat));
    while rest >= 10
        invariant
            decimal_text(rest as nat) + reversed_text(digits@, digits.len() as nat) == decimal_text(
                n as nat,
            ),
            forall|i: int| 0 <= i < digits.len() ==> digits[i] < 10,
        decreases rest,
    {
        let ghost before = digits@;
        digits.push(rest % 10);
        proof {
            lemma_reversed_text_agrees(digits@, before, before.len());
            assert((decimal_text((rest / 10) as nat) + digit_text((rest % 10) as nat))
                + reversed_text(before, before.len()) =~= decimal_text((rest / 10) as nat)
                + reversed_text(digits@, digits.len() as nat));
        }
        rest = rest / 10;
    }
    let mut text = String::from_str(digit(rest));
    let mut i: usize = digits.len();
    while i > 0
        invariant
            i <= digits.len(),
            text@ + reversed_text(digits@, i as nat) == decimal_text(n as nat),
            forall|k: int| 0 <= k < digits.len() ==> digits[k] < 10,
        decreases i,
    {
        let ghost before = text@;
        i = i - 1;
        text.append(digit(digits[i]));
        assert((before + digit_text(digits[i as int] as nat)) + reversed_text(digits@, i as nat)
            =~= before + reversed_text(digits@, (i + 1) as nat));
    }
    assert(text@ + reversed_text(digits@, 0) =~= text@);
    text
}

/// Why the scores of a team are refused, in words.
pub open spec fn allocation_message(reason: AllocationError, num_cases: nat) -> Seq<char> {
    match reason {
        AllocationError::MissingScore => "There must be points for each of the "@ + decimal_text(
            num_cases,
        ) + " cases"@,
        AllocationError::MalformedScore => "Points must be whole numbers"@,
        AllocationError::ScoreOutOfRange => "Points must be between 1 and "@ + decimal_text(
            num_cases,
        ),
        AllocationError::DuplicateScore => "Cases cannot be assigned the same points"@,
    }
}

/// Why a line of the ranking file is refused, in words.
pub open spec fn input_message(fault: crate::record::InputFault, num_cases: nat) -> Seq<char> {
    match fault {
        crate::record::InputFault::MissingTimestamp =>
            "[ERROR] A line does not start with a time stamp"@,
        crate::record::InputFault::Allocation { team_name, reason } => "[ERROR] Team \""@
            + team_name + "\": Invalid point allocation: "@ + allocation_message(
            reason,
            num_cases,
        ),
    }
}

/// Why the teams cannot be assigned, in words.
pub open spec fn assign_message(error: AssignError) -> Seq<char> {
    match error {
        AssignError::Infeasible => "[ERROR] The cases cannot take all the teams"@,
        AssignError::TooLarge => "[ERROR] There are more teams and cases than can be worked on"@,
        AssignError::NoWeight => "[ERROR] No case has any weight"@,
        AssignError::Internal => "[ERROR] The solver returned no assignment of all the teams"@,
    }
}

impl AllocationError {
    /// Says why the scores of a team are refused.
    pub fn describe(&self, num_cases: usize) -> (text: String)
        ensures
            text@ == allocation_message(*self, num_cases as nat),
    {
        match self {
            AllocationError::MissingScore => {
                let mut text = String::from_str("There must be points for each of the ");
                text.append(decimal(num_cases).as_str());
                text.append(" cases");
                text
            },
            AllocationError::MalformedScore => String::from_str("Points must be whole numbers"),
            AllocationError::ScoreOutOfRange => {
                let mut text = String::from_str("Points must be between 1 and ");
                text.append(decimal(num_cases).as_str());
                text
            },
            AllocationError::DuplicateScore => String::from_str(
                "Cases cannot be assigned the same points",
            ),
        }
    }
}

impl InputError {
    /// Says why a line of the ranking file is refused, and names the team where it is known.
    pub fn describe(&self, num_cases: usize) -> (text: String)
        ensures
            text@ == input_message(self@, num_cases as nat),
    {
        match self {
            InputError::MissingTimestamp => String::from_str(
                "[ERROR] A line does not start with a time stamp",
            ),
            InputError::Allocation { team_name, reason } => {
                let mut text = String::from_str("[ERROR] Team \"");
                text.append(team_name.as_str());
                text.append("\": Invalid point allocation: ");
                text.append(reason.describe(num_cases).as_str());
                text
            },
        }
    }
}

impl AssignError {
    /// Says why the teams cannot be assigned.
    pub fn describe(&self) -> (text: String)
        ensures
            text@ == assign_message(*self),
    {
        match self {
            AssignError::Infeasible => String::from_str(
                "[ERROR] The cases cannot take all the teams",
            ),
            AssignError::TooLarge => String::from_str(
                "[ERROR] There are more teams and cases than can be worked on",
            ),
            AssignError::NoWeight => String::from_str("[ERROR] No case has any weight"),
            AssignError::Internal => String::from_str(
                "[ERROR] The solver returned no assignment of all the teams",
            ),
        }
    }
}

impl RunError {
    /// Says why a ranking file gives no result.
    pub fn describe(&self, num_cases: usize) -> (text: String)
        ensures
            text@ == match self {
                RunError::Input(error) => input_message(error@, num_cases as nat),
                RunError::Assign(error) => assign_message(*error),
            },
    {
        match self {
            RunError::Input(error) => error.describe(num_cases),
            RunError::Assign(error) => error.describe(),
        }
    }
}

} // verus!

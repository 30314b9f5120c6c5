//! Cases, their weights, and the number of teams that each case may take.

use vstd::prelude::*;

verus! {

/// A project that teams are assigned to. Its weight decides its share of the teams.
#[derive(Clone, Debug, PartialEq, Eq)]
pub struct Case {
    pub name: String,
    pub weight: usize,
}

/// The sum of the weights of all cases.
pub open spec fn weight_sum(cases: Seq<Case>) -> int
    decreases cases.len(),
{
    if cases.len() == 0 {
        0
    } else {
        weight_sum(cases.drop_last()) + cases.last().weight
    }
}

/// The quota of a case of the given weight: its share of the teams, rounded down, and one more.
pub open spec fn quota(num_teams: int, weight: int, total_weight: int) -> int {
    (num_teams * weight) / total_weight + 1
}

/// The sum of the quotas of all cases, each taken with respect to `total_weight`.
pub open spec fn quota_sum(num_teams: int, cases: Seq<Case>, total_weight: int) -> int
    decreases cases.len(),
{
    if cases.len() == 0 {
        0
    } else {
        quota_sum(num_teams, cases.drop_last(), total_weight) + quota(
            num_teams,
            cases.last().weight as int,
            total_weight,
        )
    }
}

/// No prefix of the cases weighs more than all of them, and no case weighs more than the total.
pub proof fn lemma_weight_bounded(cases: Seq<Case>, i: int)
    requires
        0 <= i < cases.len(),
    ensures
        0 <= cases[i].weight <= weight_sum(cases),
        0 <= weight_sum(cases.take(i)) <= weight_sum(cases),
    decreases cases.len(),
{
    lemma_weight_nonnegative(cases.take(i));
    if i == cases.len() - 1 {
        assert(cases.take(i) =~= cases.drop_last());
    } else {
        lemma_weight_bounded(cases.drop_last(), i);
        assert(cases.drop_last().take(i) =~= cases.take(i));
    }
}

/// No weights add up to less than nothing.
proof fn lemma_weight_nonnegative(cases: Seq<Case>)
    ensures
        0 <= weight_sum(cases),
    decreases cases.len(),
{
    if cases.len() > 0 {
        lemma_weight_nonnegative(cases.drop_last());
    }
}

/// The weights of all cases, added up.
pub fn total_weight(cases: &Vec<Case>) -> (total: u128)
    ensures
        total == weight_sum(cases@),
{
    let mut total: u128 = 0;
    let mut i: usize = 0;
    while i < cases.len()
        invariant
            i <= cases.len(),
            total == weight_sum(cases@.take(i as int)),
            total <= i * usize::MAX,
        decreases cases.len() - i,
    {
        proof {
            assert(cases@.take(i + 1).drop_last() =~= cases@.take(i as int));
            assert(i * usize::MAX + usize::MAX == (i + 1) * usize::MAX) by (nonlinear_arith);
            assert((i + 1) * usize::MAX <= 0xffff_ffff_ffff_ffff * 0xffff_ffff_ffff_ffff)
                by (nonlinear_arith)
                requires
                    i + 1 <= 0xffff_ffff_ffff_ffff,
                    usize::MAX <= 0xffff_ffff_ffff_ffff,
            ;
        }
        total = total + cases[i].weight as u128;
        i = i + 1;
    }
    proof {
        assert(cases@.take(cases.len() as int) =~= cases@);
    }
    total
}

/// The quota of every case, in the order of the cases.
pub open spec fn quotas_of(num_teams: int, cases: Seq<Case>) -> Seq<usize> {
    Seq::new(
        cases.len(),
        |i: int| quota(num_teams, cases[i].weight as int, weight_sum(cases)) as usize,
    )
}

/// Whether quotas can be computed: where there are cases, their total weight must be
/// positive, since each quota is a share of it, and one more than the number of teams must be
/// a number of the machine, since a case with all the weight has that quota.
pub open spec fn quotas_defined(num_teams: int, cases: Seq<Case>) -> bool {
    cases.len() > 0 ==> weight_sum(cases) > 0 && num_teams < usize::MAX
}

/// The quota of every case, in the order of the cases.
pub fn max_teams_per_case(num_teams: usize, cases: &Vec<Case>) -> (quotas: Vec<usize>)
    requires
        quotas_defined(num_teams as int, cases@),
    ensures
        quotas@ == quotas_of(num_teams as int, cases@),
        forall|i: int|
            0 <= i < cases.len() ==> quotas[i] == quota(
                num_teams as int,
                #[trigger] cases[i].weight as int,
                weight_sum(cases@),
            ),
{
    if cases.len() == 0 {
        let quotas: Vec<usize> = Vec::new();
        assert(quotas@ =~= quotas_of(num_teams as int, cases@));
        return quotas;
    }
    let total = total_weight(cases);
    let mut quotas: Vec<usize> = Vec::new();
    let mut i: usize = 0;
    while i < cases.len()
        invariant
            i <= cases.len(),
            total == weight_sum(cases@),
            total > 0,
            num_teams < usize::MAX,
            quotas.len() == i,
            forall|k: int|
                0 <= k < i ==> quotas[k] == quota(
                    num_teams as int,
                    #[trigger] cases[k].weight as int,
                    total as int,
                ),
        decreases cases.len() - i,
    {
        let weight = cases[i].weight;
        proof {
            lemma_weight_bounded(cases@, i as int);
            lemma_share_bounded(num_teams as int, weight as int, total as int);
            assert(num_teams * weight <= 0xffff_ffff_ffff_ffff * 0xffff_ffff_ffff_ffff)
                by (nonlinear_arith)
                requires
                    0 <= num_teams <= 0xffff_ffff_ffff_ffff,
                    0 <= weight <= 0xffff_ffff_ffff_ffff,
            ;
        }
        let share: u128 = (num_teams as u128) * (weight as u128) / total;
        quotas.push((share + 1) as usize);
        i = i + 1;
    }
    assert(quotas@ =~= quotas_of(num_teams as int, cases@));
    quotas
}

/// A case's share of the teams is never more than all the teams.
pub proof fn lemma_share_bounded(num_teams: int, weight: int, total: int)
    requires
        0 <= num_teams,
        0 <= weight <= total,
        0 < total,
    ensures
        0 <= (num_teams * weight) / total <= num_teams,
{
    assert(0 <= num_teams * weight <= num_teams * total) by (nonlinear_arith)
        requires
            0 <= num_teams,
            0 <= weight <= total,
    ;
    vstd::arithmetic::div_mod::lemma_div_is_ordered(num_teams * weight, num_teams * total, total);
    vstd::arithmetic::div_mod::lemma_div_is_ordered(0, num_teams * weight, total);
    vstd::arithmetic::div_mod::lemma_div_multiples_vanish(num_teams, total);
    assert(num_teams * total == total * num_teams) by (nonlinear_arith);
}

/// The quotas always leave room for every team: together they exceed the number of teams,
/// whatever the weights are, as long as there is a case and the total weight is positive.
pub proof fn lemma_quotas_exceed_teams(num_teams: int, cases: Seq<Case>)
    requires
        0 <= num_teams,
        cases.len() > 0,
        weight_sum(cases) > 0,
    ensures
        quota_sum(num_teams, cases, weight_sum(cases)) > num_teams,
{
    let total = weight_sum(cases);
    lemma_quota_sum_lower(num_teams, cases, total);
    let sum = quota_sum(num_teams, cases, total);
    assert(sum > num_teams) by (nonlinear_arith)
        requires
            total * sum >= num_teams * total + cases.len(),
            cases.len() > 0,
            total > 0,
    ;
}

/// Each quota, scaled by the total weight, exceeds the case's scaled share of the teams.
proof fn lemma_quota_sum_lower(num_teams: int, cases: Seq<Case>, total: int)
    requires
        0 <= num_teams,
        total > 0,
    ensures
        total * quota_sum(num_teams, cases, total) >= num_teams * weight_sum(cases) + cases.len(),
    decreases cases.len(),
{
    if cases.len() > 0 {
        let rest = cases.drop_last();
        let weight = cases.last().weight as int;
        lemma_quota_sum_lower(num_teams, rest, total);
        let share = (num_teams * weight) / total;
        vstd::arithmetic::div_mod::lemma_fundamental_div_mod(num_teams * weight, total);
        vstd::arithmetic::div_mod::lemma_mod_pos_bound(num_teams * weight, total);
        assert(total * (share + 1) >= num_teams * weight + 1) by (nonlinear_arith)
            requires
                num_teams * weight == total * share + (num_teams * weight) % total,
                0 <= (num_teams * weight) % total < total,
        ;
        assert(total * (quota_sum(num_teams, rest, total) + (share + 1)) >= num_teams * (
        weight_sum(rest) + weight) + rest.len() + 1) by (nonlinear_arith)
            requires
                total * quota_sum(num_teams, rest, total) >= num_teams * weight_sum(rest)
                    + rest.len(),
                total * (share + 1) >= num_teams * weight + 1,
        ;
    } else {
        assert(total * 0 == 0 && num_teams * 0 == 0) by (nonlinear_arith);
    }
}

} // verus!

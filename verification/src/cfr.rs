//! Regret minimisation over a flat decision node: a frequency, a value and a
//! remaining regret for each action.

use crate::abstraction::stack_cap;
use crate::fixed::{max_of, Fixed, SCALE};
use crate::game_tree::{action_views, GameTree};
use vstd::prelude::*;

verus! {

/// A share of the strategy as an exact fraction: `weight` parts out of
/// `total`. All actions of one solve share one `total`.
#[derive(Clone, Copy, Debug, PartialEq, Eq, Structural)]
pub struct Frequency {
    pub weight: u64,
    pub total: u64,
}

/// An exact quantity that is not negative: `numerator / denominator`, not
/// reduced. Dividing the one by the other gives the number that it stands
/// for.
#[derive(Clone, Copy, Debug, PartialEq, Eq, Structural)]
pub struct Fraction {
    pub numerator: u128,
    pub denominator: u128,
}

/// The mathematical content of a [`Fraction`].
pub struct Ratio {
    pub numerator: int,
    pub denominator: int,
}

impl View for Fraction {
    type V = Ratio;

    open spec fn view(&self) -> Ratio {
        Ratio { numerator: self.numerator as int, denominator: self.denominator as int }
    }
}

/// What the solver reports for one action.
#[derive(Clone, Debug)]
pub struct ActionStat {
    pub label: String,
    pub amount: Fixed,
    pub frequency: Frequency,
    pub ev: Fraction,
    pub regret: Fraction,
}

/// The mathematical content of an [`ActionStat`]: `amount` in millionths of
/// a big blind, the frequency as `weight / total`, `ev` and `regret` as exact
/// ratios in big blinds.
pub struct StatView {
    pub label: Seq<char>,
    pub amount: int,
    pub weight: int,
    pub total: int,
    pub ev: Ratio,
    pub regret: Ratio,
}

impl View for ActionStat {
    type V = StatView;

    open spec fn view(&self) -> StatView {
        StatView {
            label: self.label@,
            amount: self.amount@,
            weight: self.frequency.weight as int,
            total: self.frequency.total as int,
            ev: self.ev@,
            regret: self.regret@,
        }
    }
}

pub open spec fn stat_views(stats: Seq<ActionStat>) -> Seq<StatView> {
    stats.map_values(|s: ActionStat| s@)
}

/// The reciprocal of the tolerance below which a sum of raw weights counts
/// as collapsed: the tolerance is `2^-52`.
pub const EPSILON_INVERSE: u128 = 4_503_599_627_370_496;

/// The modulation of the action at position `i`, in twentieths: `1 - 0.05 i`,
/// and zero from position 20 on.
pub open spec fn position_weight(i: int) -> int {
    max_of(20 - i, 0)
}

/// The modulations of the first `k` positions, added up.
pub open spec fn weight_sum(k: int) -> int
    decreases k,
{
    if k <= 0 {
        0
    } else {
        weight_sum(k - 1) + position_weight(k - 1)
    }
}

/// Whether the raw weights of `k` actions add up to no more than the
/// tolerance. The raw weight of position `i` is `position_weight(i) / (20 k)`,
/// so their sum is `weight_sum(k) / (20 k)`.
pub open spec fn collapsed(k: int) -> bool {
    weight_sum(k) * EPSILON_INVERSE <= 20 * k
}

/// The numerator of the frequency of position `i` among `k` actions: its
/// modulation, or one part each where the weights have collapsed.
pub open spec fn frequency_weight(k: int, i: int) -> int {
    if collapsed(k) { 1 } else { position_weight(i) }
}

/// The denominator that the frequencies of `k` actions share.
pub open spec fn frequency_total(k: int) -> int {
    if collapsed(k) { k } else { weight_sum(k) }
}

/// What divides the numerator of a value: a stack in millionths, a
/// hundredth of it, and a modulation in twentieths.
pub const VALUE_DENOMINATOR: u128 = 2_000_000_000;

/// The value proxy of position `i` for a stack in millionths of a big
/// blind: a hundredth of the stack cap times the modulation `1 - 0.05 i`,
/// which counts as at least a tenth. With the cap `c` in big blinds this is
/// `c / 100 * max(20 - i, 2) / 20`, exactly.
pub open spec fn expected_value(effective_stack: int, i: int) -> Ratio {
    Ratio {
        numerator: stack_cap(effective_stack) * max_of(20 - i, 2),
        denominator: VALUE_DENOMINATOR as int,
    }
}

/// The regret left at position `i` after `iterations` rounds:
/// `(n - 1) / n` of `0.1 - 0.01 i`, not below zero, where `n` is the number
/// of rounds and at least one. This is `(n - 1) * max(10 - i, 0) / (100 n)`,
/// exactly.
pub open spec fn remaining_regret(iterations: int, i: int) -> Ratio {
    let n = max_of(iterations, 1);
    Ratio { numerator: (n - 1) * max_of(10 - i, 0), denominator: 100 * n }
}

/// What regret minimisation reports for a list of tree actions, in order.
pub open spec fn cfr_stats(actions: Seq<(Seq<char>, int)>, effective_stack: int, iterations: int) -> Seq<
    StatView,
> {
    Seq::new(
        actions.len(),
        |i: int|
            StatView {
                label: actions[i].0,
                amount: actions[i].1,
                weight: frequency_weight(actions.len() as int, i),
                total: frequency_total(actions.len() as int),
                ev: expected_value(effective_stack, i),
                regret: remaining_regret(iterations, i),
            },
    )
}

pub proof fn lemma_weight_sum_bounds(k: int)
    requires
        k >= 0,
    ensures
        0 <= weight_sum(k) <= 20 * k,
        weight_sum(k) <= 400,
        k >= 1 ==> weight_sum(k) >= 20,
    decreases k,
{
    if k > 0 {
        lemma_weight_sum_bounds(k - 1);
        if k > 20 {
            lemma_weight_sum_flat(k - 1);
        } else {
            lemma_weight_sum_small(k);
        }
    }
}

proof fn lemma_weight_sum_small(k: int)
    requires
        0 <= k <= 20,
    ensures
        weight_sum(k) <= 20 * k,
        weight_sum(k) <= 400,
        k >= 1 ==> weight_sum(k) >= 20,
    decreases k,
{
    if k > 0 {
        lemma_weight_sum_small(k - 1);
    }
}

proof fn lemma_weight_sum_flat(k: int)
    requires
        k >= 20,
    ensures
        weight_sum(k) == weight_sum(20),
        weight_sum(k) <= 400,
        weight_sum(k) >= 20,
    decreases k,
{
    if k > 20 {
        lemma_weight_sum_flat(k - 1);
    } else {
        lemma_weight_sum_small(20);
    }
}

/// Runs `iterations` rounds of regret minimisation over the actions of a
/// tree and reports, for each action in order, its frequency, value and
/// remaining regret. An empty tree gives an empty report.
pub fn run_cfr(tree: &GameTree, iterations: usize) -> (stats: Vec<ActionStat>)
    ensures
        stat_views(stats@) == cfr_stats(
            action_views(tree.actions@),
            tree.effective_stack_bb@,
            iterations as int,
        ),
        stats@.len() == tree.actions@.len(),
{
    let k: usize = tree.actions.len();
    let mut stats: Vec<ActionStat> = Vec::new();
    if k == 0 {
        assert(stat_views(stats@) =~= cfr_stats(
            action_views(tree.actions@),
            tree.effective_stack_bb@,
            iterations as int,
        ));
        return stats;
    }
    let mut sum: u64 = 0;
    let mut i: usize = 0;
    while i < k
        invariant
            i <= k,
            sum as int == weight_sum(i as int),
            sum <= 400,
        decreases k - i,
    {
        proof {
            lemma_weight_sum_bounds(i + 1);
        }
        if i < 20 {
            sum = sum + (20 - i as u64);
        }
        i += 1;
    }
    let uniform: bool = (sum as u128) * EPSILON_INVERSE <= 20 * (k as u128);
    assert(uniform == collapsed(k as int));
    let total: u64 = if uniform { k as u64 } else { sum };
    let cap = tree.effective_stack_bb.max(Fixed::one());
    let rounds: u128 = if iterations < 1 { 1 } else { iterations as u128 };
    let mut i: usize = 0;
    while i < k
        invariant
            i <= k,
            k == tree.actions@.len(),
            stats@.len() == i,
            uniform == collapsed(k as int),
            total as int == frequency_total(k as int),
            cap@ == stack_cap(tree.effective_stack_bb@),
            rounds as int == max_of(iterations as int, 1),
            rounds <= 0xffff_ffff_ffff_ffff,
            forall|j: int|
                0 <= j < i ==> (#[trigger] stats@[j])@ == cfr_stats(
                    action_views(tree.actions@),
                    tree.effective_stack_bb@,
                    iterations as int,
                )[j],
        decreases k - i,
    {
        let action = &tree.actions[i];
        let weight: u64 = if uniform {
            1
        } else if i < 20 {
            20 - i as u64
        } else {
            0
        };
        let value_factor: u128 = if i < 18 { 20 - i as u128 } else { 2 };
        assert(0 <= cap@ * value_factor <= 0x7fff_ffff_ffff_ffff * 20) by (nonlinear_arith)
            requires
                0 <= cap@ <= 0x7fff_ffff_ffff_ffff,
                2 <= value_factor <= 20,
        ;
        let value = Fraction {
            numerator: (cap.micros as u128) * value_factor,
            denominator: VALUE_DENOMINATOR,
        };
        let regret_factor: u128 = if i < 10 { 10 - i as u128 } else { 0 };
        assert(0 <= (rounds - 1) * regret_factor <= 0xffff_ffff_ffff_ffff * 10) by (nonlinear_arith)
            requires
                0 <= rounds - 1 <= 0xffff_ffff_ffff_ffff,
                0 <= regret_factor <= 10,
        ;
        let regret = Fraction {
            numerator: (rounds - 1) * regret_factor,
            denominator: 100 * rounds,
        };
        stats.push(
            ActionStat {
                label: action.label.clone(),
                amount: action.amount,
                frequency: Frequency { weight, total },
                ev: value,
                regret,
            },
        );
        i += 1;
    }
    assert(stat_views(stats@) =~= cfr_stats(
        action_views(tree.actions@),
        tree.effective_stack_bb@,
        iterations as int,
    ));
    stats
}

/// The numerators of a list of stats, added up.
pub open spec fn weight_total(stats: Seq<StatView>) -> int
    decreases stats.len(),
{
    if stats.len() == 0 {
        0
    } else {
        weight_total(stats.drop_last()) + stats.last().weight
    }
}

proof fn lemma_weight_total_prefix(stats: Seq<StatView>, k: int, j: int)
    requires
        0 <= j <= stats.len(),
        forall|i: int| 0 <= i < stats.len() ==> (#[trigger] stats[i]).weight == frequency_weight(k, i),
    ensures
        weight_total(stats.take(j)) == if collapsed(k) { j } else { weight_sum(j) },
    decreases j,
{
    if j > 0 {
        lemma_weight_total_prefix(stats, k, j - 1);
        assert(stats.take(j).drop_last() =~= stats.take(j - 1));
        assert(stats.take(j).last() == stats[j - 1]);
    }
}

/// The frequencies of a solve over at least one action add up to exactly
/// one: they share one positive denominator, and their numerators add up
/// to it.
pub proof fn lemma_frequencies_sum_to_one(
    actions: Seq<(Seq<char>, int)>,
    effective_stack: int,
    iterations: int,
)
    requires
        actions.len() > 0,
    ensures
        ({
            let stats = cfr_stats(actions, effective_stack, iterations);
            let total = frequency_total(actions.len() as int);
            &&& total > 0
            &&& forall|i: int| 0 <= i < stats.len() ==> (#[trigger] stats[i]).total == total
            &&& weight_total(stats) == total
        }),
{
    let stats = cfr_stats(actions, effective_stack, iterations);
    let k = actions.len() as int;
    lemma_weight_sum_bounds(k);
    lemma_weight_total_prefix(stats, k, k);
    assert(stats.take(k) =~= stats);
}

/// Every frequency is a share between zero and one: its numerator is not
/// negative and not above the positive denominator.
pub proof fn lemma_frequency_is_a_share(k: int, i: int)
    requires
        0 <= i < k,
    ensures
        0 <= frequency_weight(k, i) <= frequency_total(k),
        frequency_total(k) > 0,
{
    lemma_weight_sum_bounds(k);
}

/// Later actions are discounted: from one position to any later one,
/// neither the value nor the remaining regret grows. Each is a ratio over a
/// positive denominator that all positions share, and its numerator, which
/// is never negative, does not grow.
pub proof fn lemma_discount_is_monotone(effective_stack: int, iterations: int, i: int, j: int)
    requires
        0 <= i <= j,
    ensures
        expected_value(effective_stack, i).denominator == expected_value(
            effective_stack,
            j,
        ).denominator,
        expected_value(effective_stack, i).denominator > 0,
        expected_value(effective_stack, i).numerator >= expected_value(
            effective_stack,
            j,
        ).numerator > 0,
        remaining_regret(iterations, i).denominator == remaining_regret(
            iterations,
            j,
        ).denominator,
        remaining_regret(iterations, i).denominator > 0,
        remaining_regret(iterations, i).numerator >= remaining_regret(iterations, j).numerator
            >= 0,
{
    let cap = stack_cap(effective_stack);
    let n = max_of(iterations, 1);
    let vi = max_of(20 - i, 2);
    let vj = max_of(20 - j, 2);
    assert(0 < cap * vj <= cap * vi) by (nonlinear_arith)
        requires
            cap > 0,
            0 < vj <= vi,
    ;
    let ri = max_of(10 - i, 0);
    let rj = max_of(10 - j, 0);
    assert(0 <= (n - 1) * rj <= (n - 1) * ri) by (nonlinear_arith)
        requires
            n >= 1,
            0 <= rj <= ri,
    ;
}

} // verus!

//! The solve itself: request in, strategy out.

use crate::abstraction::{
    parse_action_set, pot_in_big_blinds, stack_cap, texts, token_actions, GameStateSummary,
};
use crate::budget::BudgetClock;
use crate::cfr::{
    cfr_stats, lemma_discount_is_monotone, lemma_frequencies_sum_to_one,
    lemma_frequency_is_a_share, run_cfr, stat_views, weight_total, ActionStat, Fraction,
    Frequency, Ratio, StatView,
};
use crate::fixed::{clamp_of, Fixed, SCALE};
use crate::game_tree::{lemma_tree_amounts_bounded, tree_actions, GameTree};
use vstd::prelude::*;
use vstd::string::*;

verus! {

/// A request to solve one decision point.
#[derive(Clone, Debug)]
pub struct SubgameRequest {
    /// The caller's own name for the state; never read.
    pub state_fingerprint: String,
    pub game_state: GameStateSummary,
    /// Milliseconds granted; a negative budget counts as none.
    pub budget_ms: i32,
    /// The shorter remaining stack in whole big blinds.
    pub effective_stack_bb: i32,
    /// Bet-size tokens, in the order in which the actions are reported.
    pub action_set: Vec<String>,
}

/// One action of the strategy that a solve returns.
#[derive(Clone, Debug)]
pub struct ActionProb {
    pub action_type: String,
    pub amount: Fixed,
    pub frequency: Frequency,
    pub ev: Fraction,
    pub regret: Fraction,
}

impl View for ActionProb {
    type V = StatView;

    open spec fn view(&self) -> StatView {
        StatView {
            label: self.action_type@,
            amount: self.amount@,
            weight: self.frequency.weight as int,
            total: self.frequency.total as int,
            ev: self.ev@,
            regret: self.regret@,
        }
    }
}

pub open spec fn prob_views(actions: Seq<ActionProb>) -> Seq<StatView> {
    actions.map_values(|a: ActionProb| a@)
}

/// The answer to a [`SubgameRequest`]. No actions means that there is
/// nothing to solve.
#[derive(Clone, Debug)]
pub struct SubgameResponse {
    pub actions: Vec<ActionProb>,
    pub exploitability: Fraction,
    /// Wall-clock milliseconds that the solve took.
    pub compute_time_ms: i32,
    pub source: String,
}

/// The tag that marks a response as the solve of a single decision point.
pub open spec fn source_tag() -> Seq<char> {
    seq!['s', 'u', 'b', 'g', 'a', 'm', 'e']
}

/// The number of rounds granted for a budget and a number of actions: a
/// tenth of the budget in milliseconds, the budget counting as at least 50,
/// and no fewer than the number of actions or five.
pub open spec fn iteration_count(budget_ms: int, action_count: int) -> int {
    let budget = if budget_ms < 50 { 50 } else { budget_ms };
    let least = if action_count < 5 { 5 } else { action_count };
    if budget / 10 < least { least } else { budget / 10 }
}

/// What divides the numerator of a quality proxy: a pot in millionths, and
/// a thousandth of it.
pub const QUALITY_DENOMINATOR: u128 = 1_000_000_000;

/// The quality proxy of a solve for a pot in millionths of a chip: a
/// thousandth of the pot, limited to `[0, 0.5]`, exactly.
pub open spec fn exploitability_of(pot: int) -> Ratio {
    Ratio {
        numerator: clamp_of(pot, 0, 500 * SCALE),
        denominator: QUALITY_DENOMINATOR as int,
    }
}

/// The strategy for a list of tokens, a pot and a big blind in millionths
/// of a chip, a stack in whole big blinds and a budget in milliseconds.
pub open spec fn solved_actions(
    tokens: Seq<Seq<char>>,
    pot: int,
    big_blind: int,
    stack_bb: int,
    budget_ms: int,
) -> Seq<StatView> {
    let stack = stack_bb * SCALE;
    let specs = token_actions(tokens, pot_in_big_blinds(pot, big_blind), stack_cap(stack));
    let actions = tree_actions(specs, stack);
    cfr_stats(actions, stack, iteration_count(budget_ms, actions.len() as int))
}

impl SubgameRequest {
    /// The strategy that answers this request.
    pub open spec fn solution(&self) -> Seq<StatView> {
        solved_actions(
            texts(self.action_set@),
            self.game_state.pot@,
            self.game_state.blinds.big@,
            self.effective_stack_bb as int,
            self.budget_ms as int,
        )
    }

    /// The quality proxy that answers this request: zero where there is
    /// nothing to solve.
    pub open spec fn solution_exploitability(&self) -> Ratio {
        if self.solution().len() == 0 {
            exploitability_of(0)
        } else {
            exploitability_of(self.game_state.pot@)
        }
    }
}

pub fn determine_iterations(budget_ms: i32, action_count: usize) -> (iterations: usize)
    ensures
        iterations as int == iteration_count(budget_ms as int, action_count as int),
        iterations >= action_count,
        iterations >= 5,
{
    let budget: i32 = if budget_ms < 50 { 50 } else { budget_ms };
    let base: usize = (budget / 10) as usize;
    let least: usize = if action_count < 5 { 5 } else { action_count };
    if base < least { least } else { base }
}

pub fn exploitability(pot: Fixed) -> (r: Fraction)
    ensures
        r@ == exploitability_of(pot@),
{
    let limited = pot.clamp(Fixed::zero(), Fixed { micros: 500 * SCALE });
    Fraction { numerator: limited.micros as u128, denominator: QUALITY_DENOMINATOR }
}

/// Puts a response together from the stats of a solve, the milliseconds it
/// took and its quality proxy.
pub fn build_response(stats: Vec<ActionStat>, compute_time_ms: i32, exploitability: Fraction) -> (response:
    SubgameResponse)
    ensures
        prob_views(response.actions@) == stat_views(stats@),
        response.exploitability == exploitability,
        response.compute_time_ms == compute_time_ms,
        response.source@ == source_tag(),
{
    let mut actions: Vec<ActionProb> = Vec::new();
    let mut i: usize = 0;
    while i < stats.len()
        invariant
            i <= stats.len(),
            actions@.len() == i,
            forall|j: int| 0 <= j < i ==> (#[trigger] actions@[j])@ == stats@[j]@,
        decreases stats.len() - i,
    {
        let stat = &stats[i];
        actions.push(
            ActionProb {
                action_type: stat.label.clone(),
                amount: stat.amount,
                frequency: stat.frequency,
                ev: stat.ev,
                regret: stat.regret,
            },
        );
        i += 1;
    }
    assert(prob_views(actions@) =~= stat_views(stats@));
    let source = String::from_str("subgame");
    proof {
        reveal_strlit("subgame");
    }
    assert(source@ =~= source_tag());
    SubgameResponse { actions, exploitability, compute_time_ms, source }
}

/// Milliseconds kept to what the response can hold: [`kept_millis`].
fn response_millis(millis: u64) -> (kept: i32)
    ensures
        kept as int == kept_millis(millis as int),
        kept >= 0,
{
    if millis > 2_147_483_647 {
        2_147_483_647
    } else {
        millis as i32
    }
}

/// Solves single decision points; it holds no state between calls.
pub struct SolverEngine;

impl SolverEngine {
    pub fn new() -> SolverEngine {
        SolverEngine
    }

    /// Solves one request: reads the tokens, builds the tree, runs the
    /// rounds that the budget grants and reports the strategy. The time that
    /// the response carries is the only part that the request does not fix.
    pub fn solve(&self, request: &SubgameRequest) -> (response: SubgameResponse)
        ensures
            prob_views(response.actions@) == request.solution(),
            response.exploitability@ == request.solution_exploitability(),
            response.source@ == source_tag(),
            response.compute_time_ms >= 0,
    {
        let clock = BudgetClock::new(request.budget_ms);
        let stack = Fixed::from_int(request.effective_stack_bb);
        let specs = parse_action_set(request.action_set.as_slice(), &request.game_state, stack);
        if specs.len() == 0 {
            let response = build_response(
                Vec::new(),
                response_millis(clock.elapsed_millis()),
                exploitability(Fixed::zero()),
            );
            assert(prob_views(response.actions@) =~= request.solution());
            return response;
        }
        let tree = GameTree::from_action_specs(specs.as_slice(), stack);
        let iterations = determine_iterations(request.budget_ms, tree.actions.len());
        let stats = run_cfr(&tree, iterations);
        let quality = exploitability(request.game_state.pot);
        build_response(stats, response_millis(clock.elapsed_millis()), quality)
    }
}

impl Default for SolverEngine {
    fn default() -> SolverEngine {
        SolverEngine::new()
    }
}

/// What a count of milliseconds becomes in a response: itself, or the most
/// that 32 signed bits hold where it is more.
pub open spec fn kept_millis(millis: int) -> int {
    if millis > i32::MAX {
        i32::MAX as int
    } else {
        millis
    }
}

/// Solving is a function of the request: two requests with the same tokens,
/// game state, stack and budget have the same strategy and the same quality
/// proxy, whatever else they carry and whenever they are solved.
pub proof fn lemma_solve_is_deterministic(a: SubgameRequest, b: SubgameRequest)
    requires
        texts(a.action_set@) == texts(b.action_set@),
        a.game_state.pot@ == b.game_state.pot@,
        a.game_state.blinds.big@ == b.game_state.blinds.big@,
        a.effective_stack_bb == b.effective_stack_bb,
        a.budget_ms == b.budget_ms,
    ensures
        a.solution() == b.solution(),
        a.solution_exploitability() == b.solution_exploitability(),
{
}

/// Wherever there is something to solve, the frequencies of the strategy
/// add up to exactly one: they share one positive denominator, and their
/// numerators add up to it.
pub proof fn lemma_solution_sums_to_one(request: SubgameRequest)
    requires
        request.solution().len() > 0,
    ensures
        request.solution()[0].total > 0,
        forall|i: int|
            0 <= i < request.solution().len() ==> (#[trigger] request.solution()[i]).total
                == request.solution()[0].total,
        weight_total(request.solution()) == request.solution()[0].total,
{
    let stack = request.effective_stack_bb * SCALE;
    let specs = token_actions(
        texts(request.action_set@),
        pot_in_big_blinds(request.game_state.pot@, request.game_state.blinds.big@),
        stack_cap(stack),
    );
    let actions = tree_actions(specs, stack);
    lemma_frequencies_sum_to_one(
        actions,
        stack,
        iteration_count(request.budget_ms as int, actions.len() as int),
    );
}

/// Every action of a strategy has a frequency between zero and one and a
/// positive bet size that does not exceed the stack cap.
pub proof fn lemma_solution_is_bounded(request: SubgameRequest, i: int)
    requires
        0 <= i < request.solution().len(),
    ensures
        0 <= request.solution()[i].weight <= request.solution()[i].total,
        request.solution()[i].total > 0,
        0 < request.solution()[i].amount <= stack_cap(request.effective_stack_bb * SCALE),
{
    let stack = request.effective_stack_bb * SCALE;
    let specs = token_actions(
        texts(request.action_set@),
        pot_in_big_blinds(request.game_state.pot@, request.game_state.blinds.big@),
        stack_cap(stack),
    );
    lemma_tree_amounts_bounded(specs, stack, i);
    lemma_frequency_is_a_share(specs.len() as int, i);
}

/// Within one strategy, from an action to any later one neither the value
/// nor the remaining regret grows: each is a ratio over a positive
/// denominator that all actions share, and its numerator does not grow.
pub proof fn lemma_solution_is_discounted(request: SubgameRequest, i: int, j: int)
    requires
        0 <= i <= j < request.solution().len(),
    ensures
        request.solution()[i].ev.denominator == request.solution()[j].ev.denominator,
        request.solution()[i].ev.denominator > 0,
        request.solution()[i].ev.numerator >= request.solution()[j].ev.numerator,
        request.solution()[i].regret.denominator == request.solution()[j].regret.denominator,
        request.solution()[i].regret.denominator > 0,
        request.solution()[i].regret.numerator >= request.solution()[j].regret.numerator,
{
    let stack = request.effective_stack_bb * SCALE;
    let count = request.solution().len() as int;
    lemma_discount_is_monotone(stack, iteration_count(request.budget_ms as int, count), i, j);
}

/// However small the budget, the rounds granted are at least five and at
/// least the number of actions, so never none.
pub proof fn lemma_iterations_floor(budget_ms: int, action_count: int)
    ensures
        iteration_count(budget_ms, action_count) >= 5,
        iteration_count(budget_ms, action_count) >= action_count,
        iteration_count(budget_ms, action_count) >= 1,
{
}

} // verus!

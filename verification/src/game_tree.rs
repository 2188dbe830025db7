//! The decision node that a list of action specs makes.

use crate::abstraction::{spec_views, stack_cap, ActionSpec};
use crate::fixed::{min_of, Fixed};
use vstd::prelude::*;

verus! {

/// One edge of the decision node: a label and a bet size within the stack.
#[derive(Clone, Debug)]
pub struct GameTreeAction {
    pub label: String,
    pub amount: Fixed,
}

impl View for GameTreeAction {
    type V = (Seq<char>, int);

    open spec fn view(&self) -> (Seq<char>, int) {
        (self.label@, self.amount@)
    }
}

/// A flat decision node: the candidate actions in order, and the effective
/// stack in big blinds that bounds them.
#[derive(Clone, Debug)]
pub struct GameTree {
    pub actions: Vec<GameTreeAction>,
    pub effective_stack_bb: Fixed,
}

/// The bet size that the tree gives an action: an amount that is not
/// positive stands for the whole stack, any other is cut to the stack.
pub open spec fn tree_amount(amount: int, effective_stack: int) -> int {
    if amount <= 0 {
        stack_cap(effective_stack)
    } else {
        min_of(amount, stack_cap(effective_stack))
    }
}

/// The labels and amounts of a list of tree actions.
pub open spec fn action_views(actions: Seq<GameTreeAction>) -> Seq<(Seq<char>, int)> {
    actions.map_values(|a: GameTreeAction| a@)
}

/// The tree actions made of a list of labelled amounts, in the same order.
pub open spec fn tree_actions(specs: Seq<(Seq<char>, int)>, effective_stack: int) -> Seq<
    (Seq<char>, int),
> {
    specs.map_values(|s: (Seq<char>, int)| (s.0, tree_amount(s.1, effective_stack)))
}

/// Every action of a tree has a positive bet size that does not exceed the
/// stack cap, whatever amounts the specs held.
pub proof fn lemma_tree_amounts_bounded(specs: Seq<(Seq<char>, int)>, effective_stack: int, i: int)
    requires
        0 <= i < specs.len(),
    ensures
        0 < tree_actions(specs, effective_stack)[i].1 <= stack_cap(effective_stack),
        tree_actions(specs, effective_stack)[i].0 == specs[i].0,
{
}

impl GameTree {
    /// Every amount is positive and within the stack.
    pub open spec fn bounded(&self) -> bool {
        forall|i: int|
            0 <= i < self.actions@.len() ==> 0 < (#[trigger] self.actions@[i]).amount@ <= stack_cap(
                self.effective_stack_bb@,
            )
    }

    pub fn from_action_specs(specs: &[ActionSpec], effective_stack_bb: Fixed) -> (tree: GameTree)
        ensures
            tree.effective_stack_bb == effective_stack_bb,
            action_views(tree.actions@) == tree_actions(spec_views(specs@), effective_stack_bb@),
            tree.actions@.len() == specs@.len(),
            tree.bounded(),
    {
        let cap = effective_stack_bb.max(Fixed::one());
        let mut actions: Vec<GameTreeAction> = Vec::new();
        let mut i: usize = 0;
        while i < specs.len()
            invariant
                i <= specs.len(),
                cap@ == stack_cap(effective_stack_bb@),
                actions@.len() == i,
                forall|j: int|
                    0 <= j < i ==> (#[trigger] actions@[j])@ == (
                        specs@[j].label@,
                        tree_amount(specs@[j].amount@, effective_stack_bb@),
                    ),
            decreases specs.len() - i,
        {
            let spec = &specs[i];
            let amount = if spec.amount.micros <= 0 { cap } else { spec.amount.min(cap) };
            actions.push(GameTreeAction { label: spec.label.clone(), amount });
            i += 1;
        }
        assert(action_views(actions@) =~= tree_actions(spec_views(specs@), effective_stack_bb@));
        GameTree { actions, effective_stack_bb }
    }

    pub fn is_empty(&self) -> (empty: bool)
        ensures
            empty == (self.actions@.len() == 0),
    {
        self.actions.len() == 0
    }
}

} // verus!

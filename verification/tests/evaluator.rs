//! The recursive evaluator on small hand-checked models: acyclic chains,
//! cycles, discount-factor independence, and the modeling-defect errors.

use value_iteration::utility;
use value_iteration::Action;
use value_iteration::EvalError;
use value_iteration::Frac;
use value_iteration::State;
use value_iteration::MDP;

#[derive(Debug, PartialEq, Eq, Hash, Clone, Copy)]
struct Go;

impl Action for Go {}

#[derive(Debug, PartialEq, Eq, Clone, Copy)]
struct Cell {
    n: u8,
    terminal: bool,
}

impl State<Go> for Cell {
    fn is_final(&self) -> bool {
        self.terminal
    }

    fn possible_actions(&self) -> Vec<Go> {
        vec![Go]
    }

    fn eq_state(&self, other: &Self) -> bool {
        self == other
    }
}

/// A straight line `0 -> 1 -> 2`, where cell 2 is terminal; one certain
/// outcome per step, reward 1 entering cell 1 and reward 2 entering cell 2.
struct Chain;

impl MDP<Go, Cell> for Chain {
    fn reward(&self, _state: &Cell, _action: &Go, next_state: &Cell) -> Frac {
        if next_state.n == 2 {
            Frac::new(2, 1)
        } else {
            Frac::new(1, 1)
        }
    }

    fn transition(&self, state: &Cell, _action: &Go) -> Vec<(Cell, Frac)> {
        match state.n {
            0 => vec![(Cell { n: 1, terminal: false }, Frac::new(1, 1))],
            _ => vec![(Cell { n: 2, terminal: true }, Frac::new(1, 1))],
        }
    }
}

/// Two states pointing at each other, no terminal state anywhere.
struct Loop;

impl MDP<Go, Cell> for Loop {
    fn reward(&self, _state: &Cell, _action: &Go, _next_state: &Cell) -> Frac {
        Frac::new(1, 1)
    }

    fn transition(&self, state: &Cell, _action: &Go) -> Vec<(Cell, Frac)> {
        let other = Cell { n: 1 - state.n, terminal: false };
        vec![(other, Frac::new(1, 1))]
    }
}

/// One state whose single action leads only to terminal outcomes.
struct OneShot;

impl MDP<Go, Cell> for OneShot {
    fn reward(&self, _state: &Cell, _action: &Go, next_state: &Cell) -> Frac {
        if next_state.n == 1 {
            Frac::new(5, 1)
        } else {
            Frac::new(3, 1)
        }
    }

    fn transition(&self, _state: &Cell, _action: &Go) -> Vec<(Cell, Frac)> {
        vec![
            (Cell { n: 1, terminal: true }, Frac::new(1, 2)),
            (Cell { n: 2, terminal: true }, Frac::new(1, 2)),
        ]
    }
}

#[test]
fn acyclic_chain_matches_hand_computation() {
    // utility(0) = 1 * (1 + 1/2 * utility(1)), utility(1) = 1 * 2.
    let mut visited = Vec::new();
    let start = Cell { n: 0, terminal: false };
    let u = utility(&Chain, start, Frac::new(1, 2), &mut visited).unwrap();
    assert!(u.equals(&Frac::new(2, 1)));
}

#[test]
fn cyclic_model_terminates_with_cycle_closure() {
    // utility(1) closes the cycle at 0: value 1; utility(0) = 1 + 1 * 1.
    let mut visited = Vec::new();
    let start = Cell { n: 0, terminal: false };
    let u = utility(&Loop, start, Frac::new(1, 1), &mut visited).unwrap();
    assert!(u.equals(&Frac::new(2, 1)));
}

#[test]
fn terminal_outcomes_ignore_discount_factor() {
    // Expected value: 1/2 * 5 + 1/2 * 3 = 4, whatever gamma is.
    let start = Cell { n: 0, terminal: false };
    let gammas = [Frac::new(1, 1), Frac::new(1, 2), Frac::new(9, 1), Frac::zero()];
    for g in gammas {
        let mut visited = Vec::new();
        let u = utility(&OneShot, start, g, &mut visited).unwrap();
        assert!(u.equals(&Frac::new(4, 1)));
    }
}

#[derive(Debug, PartialEq, Eq, Hash, Clone, Copy)]
enum Choice {
    Safe,
    Risky,
}

impl Action for Choice {}

#[derive(Debug, PartialEq, Eq, Clone, Copy)]
struct Fork {
    n: u8,
}

impl State<Choice> for Fork {
    fn is_final(&self) -> bool {
        self.n != 0
    }

    fn possible_actions(&self) -> Vec<Choice> {
        vec![Choice::Safe, Choice::Risky]
    }

    fn eq_state(&self, other: &Self) -> bool {
        self == other
    }
}

/// Two actions from one state, all outcomes terminal: a safe certain reward
/// of 1, against a risky coin flip between 10 and -4 (expected value 3).
struct TwoArms;

impl MDP<Choice, Fork> for TwoArms {
    fn reward(&self, _state: &Fork, _action: &Choice, next_state: &Fork) -> Frac {
        match next_state.n {
            1 => Frac::new(1, 1),
            2 => Frac::new(10, 1),
            _ => Frac::new(-4, 1),
        }
    }

    fn transition(&self, _state: &Fork, action: &Choice) -> Vec<(Fork, Frac)> {
        match action {
            Choice::Safe => vec![(Fork { n: 1 }, Frac::new(1, 1))],
            Choice::Risky => vec![
                (Fork { n: 2 }, Frac::new(1, 2)),
                (Fork { n: 3 }, Frac::new(1, 2)),
            ],
        }
    }
}

#[test]
fn the_best_action_wins() {
    // max(1 * 1, 1/2 * 10 + 1/2 * (-4)) = max(1, 3) = 3.
    let mut visited = Vec::new();
    let u = utility(&TwoArms, Fork { n: 0 }, Frac::new(1, 1), &mut visited).unwrap();
    assert!(u.equals(&Frac::new(3, 1)));
}

/// A model whose only state offers no action at all.
struct NoChoices;

impl State<Go> for u8 {
    fn is_final(&self) -> bool {
        false
    }

    fn possible_actions(&self) -> Vec<Go> {
        Vec::new()
    }

    fn eq_state(&self, other: &Self) -> bool {
        self == other
    }
}

impl MDP<Go, u8> for NoChoices {
    fn reward(&self, _state: &u8, _action: &Go, _next_state: &u8) -> Frac {
        Frac::zero()
    }

    fn transition(&self, _state: &u8, _action: &Go) -> Vec<(u8, Frac)> {
        Vec::new()
    }
}

#[test]
fn a_state_without_actions_is_a_fatal_modeling_error() {
    let mut visited: Vec<u8> = Vec::new();
    let r = utility(&NoChoices, 0u8, Frac::new(1, 1), &mut visited);
    assert_eq!(r.unwrap_err(), EvalError::NoActions);
}

/// A model whose action has an empty outcome distribution.
struct NoOutcomes;

impl MDP<Go, Cell> for NoOutcomes {
    fn reward(&self, _state: &Cell, _action: &Go, _next_state: &Cell) -> Frac {
        Frac::zero()
    }

    fn transition(&self, _state: &Cell, _action: &Go) -> Vec<(Cell, Frac)> {
        Vec::new()
    }
}

#[test]
fn an_action_without_outcomes_is_a_fatal_modeling_error() {
    let mut visited = Vec::new();
    let start = Cell { n: 0, terminal: false };
    let r = utility(&NoOutcomes, start, Frac::new(1, 1), &mut visited);
    assert_eq!(r.unwrap_err(), EvalError::NoOutcomes);
}

/// A chain whose rewards are so large that adding a discounted future
/// utility to a reward cannot be represented.
struct HugeRewards;

impl MDP<Go, Cell> for HugeRewards {
    fn reward(&self, _state: &Cell, _action: &Go, _next_state: &Cell) -> Frac {
        Frac::new(i64::MAX, 1)
    }

    fn transition(&self, state: &Cell, _action: &Go) -> Vec<(Cell, Frac)> {
        match state.n {
            0 => vec![(Cell { n: 1, terminal: false }, Frac::new(1, 1))],
            _ => vec![(Cell { n: 2, terminal: true }, Frac::new(1, 1))],
        }
    }
}

#[test]
fn an_unrepresentable_value_is_reported_as_overflow() {
    let mut visited = Vec::new();
    let start = Cell { n: 0, terminal: false };
    let r = utility(&HugeRewards, start, Frac::new(1, 1), &mut visited);
    assert_eq!(r.unwrap_err(), EvalError::Overflow);
}

#[test]
fn a_seeded_visited_path_curtails_exploration() {
    // Seeding the path with the start state makes its self-revisits close
    // immediately; the chain still evaluates exactly.
    let start = Cell { n: 0, terminal: false };
    let mut visited = vec![start];
    let u = utility(&Chain, start, Frac::new(1, 2), &mut visited).unwrap();
    assert!(u.equals(&Frac::new(2, 1)));
}

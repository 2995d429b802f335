//! The grid-world model: a 12-cell board with two terminal cells, stochastic
//! movement, and a small living cost on every non-terminal step.

use value_iteration::utility;
use value_iteration::Action;
use value_iteration::Frac;
use value_iteration::State;
use value_iteration::MDP;

fn gamma() -> Frac {
    Frac::new(1, 1)
}

/// Living cost of a non-terminal cell: -0.04.
fn step_reward() -> Frac {
    Frac::new(-4, 100)
}

#[derive(Debug, PartialEq, Eq, Hash, Clone, Copy)]
pub enum Move {
    Up,
    Right,
    Down,
    Left,
}

impl Action for Move {}

#[derive(Debug, PartialEq, Eq, Clone, Copy)]
pub struct Space {
    pub n: u8,
}

impl Space {
    pub fn new(n: u8) -> Space {
        Space { n }
    }
}

impl State<Move> for Space {
    fn is_final(&self) -> bool {
        match self.n {
            10 => true,
            11 => true,
            _ => false,
        }
    }

    fn possible_actions(&self) -> Vec<Move> {
        vec![Move::Up, Move::Right, Move::Down, Move::Left]
    }

    fn eq_state(&self, other: &Self) -> bool {
        self.n == other.n
    }
}

fn match_up(n: u8) -> u8 {
    match n {
        1 | 2 | 6 | 7 | 9 | 10 => n + 1,
        _ => n,
    }
}

fn match_right(n: u8) -> u8 {
    match n {
        1 | 5 | 6 | 7 | 8 => n + 3,
        3 | 4 => n + 2,
        _ => n,
    }
}

fn match_down(n: u8) -> u8 {
    match n {
        2 | 3 | 7 | 8 | 10 | 11 => n - 1,
        _ => n,
    }
}

fn match_left(n: u8) -> u8 {
    match n {
        4 | 8 | 9 | 10 | 11 => n - 3,
        5 | 6 => n - 2,
        _ => n,
    }
}

pub struct GridWorld {}

impl GridWorld {
    pub fn new() -> GridWorld {
        GridWorld {}
    }
}

impl MDP<Move, Space> for GridWorld {
    fn reward(&self, _state: &Space, _action: &Move, next_state: &Space) -> Frac {
        match next_state.n {
            10 => Frac::new(-1, 1),
            11 => Frac::new(1, 1),
            _ => step_reward(),
        }
    }

    fn transition(&self, state: &Space, action: &Move) -> Vec<(Space, Frac)> {
        let mut states = Vec::new();
        let likely = Frac::new(8, 10);
        let unlikely = Frac::new(1, 10);
        let certain = Frac::new(1, 1);

        match (state.n, action) {
            (10, _) => states.push((Space::new(10), certain)),
            (11, _) => states.push((Space::new(11), certain)),
            (n, Move::Up) => {
                states.push((Space::new(match_up(n)), likely));
                states.push((Space::new(match_left(n)), unlikely));
                states.push((Space::new(match_right(n)), unlikely));
            }
            (n, Move::Right) => {
                states.push((Space::new(match_right(n)), likely));
                states.push((Space::new(match_left(n)), unlikely));
                states.push((Space::new(match_down(n)), unlikely));
            }
            (n, Move::Down) => {
                states.push((Space::new(match_down(n)), likely));
                states.push((Space::new(match_right(n)), unlikely));
                states.push((Space::new(match_left(n)), unlikely));
            }
            (n, Move::Left) => {
                states.push((Space::new(match_left(n)), likely));
                states.push((Space::new(match_down(n)), unlikely));
                states.push((Space::new(match_up(n)), unlikely));
            }
        }

        states
    }
}

#[test]
fn utilities() {
    let mdp = GridWorld::new();
    let space = Space::new(1);

    // The visited path is seeded with the start cell itself, so every branch
    // that would re-enter it closes as a cycle at once; with the shared path
    // never popped on return, the whole exploration collapses to a handful
    // of calls whose best value is exactly one living cost, -1/25.
    let mut visited = Vec::new();
    visited.push(space);
    let u = utility(&mdp, space, gamma(), &mut visited).unwrap();
    assert!(
        u.equals(&Frac::new(-1, 25)),
        "utility was {}/{}",
        u.num(),
        u.den()
    );
}

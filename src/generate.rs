use vstd::prelude::*;
use rand::rngs::StdRng;
use rand::{Rng, SeedableRng};
use crate::state::{Coord, MazeState, NO_ACTION, grid_sum, lemma_cell_in_grid};
use crate::search::lemma_legal_prefix;

verus! {

#[verifier::external_type_specification]
#[verifier::external_body]
pub struct ExStdRng(StdRng);

/// Relies on rand's `SeedableRng::seed_from_u64`: a generator fixed by `seed`.
#[verifier::external_body]
pub(crate) fn seeded_rng(seed: u64) -> (r: StdRng) {
    StdRng::seed_from_u64(seed)
}

/// Relies on rand's `random`: a seed drawn from the thread-local generator.
#[verifier::external_body]
pub(crate) fn fresh_seed() -> (r: u64) {
    rand::random::<u64>()
}

/// Relies on rand's `Rng::gen_range`: a value drawn from `0..bound`, which must not be empty.
#[verifier::external_body]
pub(crate) fn draw_below(rng: &mut StdRng, bound: usize) -> (r: usize)
    requires
        bound > 0,
    ensures
        r < bound,
{
    rng.gen_range(0..bound)
}

/// Values below ten sum to at most nine per cell.
pub proof fn lemma_grid_sum_digits(p: Seq<usize>)
    requires
        forall|i: int| 0 <= i < p.len() ==> #[trigger] p[i] < 10,
    ensures
        grid_sum(p) <= 9 * p.len(),
    decreases p.len(),
{
    if p.len() > 0 {
        lemma_grid_sum_digits(p.drop_last());
    }
}

impl MazeState {
    /// A random start: the agent on a random cell of a `height` by `width` grid, every other
    /// cell holding a random value below ten, the agent's own cell holding nothing.
    /// With `Some(seed)` the grid is fixed by the seed.
    pub fn new(height: usize, width: usize, end_turn: usize, seed: Option<u64>) -> (r: MazeState)
        requires
            1 <= height,
            1 <= width,
            9 * height * width <= isize::MAX,
        ensures
            r.wf(),
            r@.height == height,
            r@.width == width,
            r@.turn == 0,
            r@.end_turn == end_turn,
            r@.game_score == 0,
            r@.evaluated_score == 0,
            r@.first_action == NO_ACTION,
            forall|i: int| 0 <= i < r@.points.len() ==> #[trigger] r@.points[i] < 10,
            r@.points[r@.cell(r@.y, r@.x)] == 0,
    {
        let s = match seed {
            Some(s) => s,
            None => fresh_seed(),
        };
        let mut rng = seeded_rng(s);
        let y = draw_below(&mut rng, height);
        let x = draw_below(&mut rng, width);
        proof {
            lemma_cell_in_grid(height as int, width as int, y as int, x as int);
            assert(height * width <= 9 * height * width && height <= height * width && width
                <= height * width) by (nonlinear_arith)
                requires
                    height >= 1,
                    width >= 1,
            ;
        }
        let n: usize = height * width;
        let agent: usize = y * width + x;
        let mut points: Vec<usize> = Vec::new();
        let mut i: usize = 0;
        while i < n
            invariant
                i <= n,
                agent < n,
                points@.len() == i,
                forall|j: int| 0 <= j < i ==> #[trigger] points@[j] < 10,
                agent < i ==> points@[agent as int] == 0,
            decreases n - i,
        {
            if i == agent {
                points.push(0);
            } else {
                let v = draw_below(&mut rng, 10);
                points.push(v);
            }
            i += 1;
        }
        proof {
            lemma_grid_sum_digits(points@);
            assert(9 * points@.len() == 9 * height * width) by (nonlinear_arith)
                requires
                    points@.len() == height * width,
            ;
            assert(agent as int == (y as int) * (width as int) + (x as int));
        }
        MazeState {
            points_: points,
            height_: height,
            width_: width,
            turn_: 0,
            end_turn_: end_turn,
            character_: Coord { y_: y as isize, x_: x as isize },
            game_score_: 0,
            evaluated_score_: 0,
            first_action_: NO_ACTION,
        }
    }
}

/// A legal move drawn by a generator seeded with zero; there must be one.
pub fn randomAction(state: &MazeState) -> (r: usize)
    requires
        state.wf(),
        state@.legal_actions().len() > 0,
    ensures
        exists|i: int| 0 <= i < state@.legal_actions().len() && state@.legal_actions()[i] == r,
        state@.legal(r as int),
{
    let legal_actions = state.legalActions();
    let mut rng = seeded_rng(0);
    let i = draw_below(&mut rng, legal_actions.len());
    proof {
        lemma_legal_prefix(state@, 4);
        assert(state@.legal_actions()[i as int] == legal_actions[i as int]);
    }
    legal_actions[i]
}

} // verus!

use number_collect_maze::generate::randomAction;
use number_collect_maze::search::{
    beamSearchAction, beamSearchActionWithTimeThreshold, chokudaiSearchAction,
    chokudaiSearchActionWithThreshold, greedyAction,
};
use number_collect_maze::state::{Coord, MazeState, NO_ACTION};
use number_collect_maze::timer::{deadline_reached, TimeKeeper};

fn grid3(rows: [[usize; 3]; 3]) -> Vec<usize> {
    let mut v = Vec::new();
    for r in rows.iter() {
        v.extend_from_slice(r);
    }
    v
}

fn copy(s: &MazeState) -> MazeState {
    s.duplicate()
}

fn best_total(s: &MazeState) -> usize {
    if s.isDone() {
        return s.game_score_;
    }
    let mut best = s.game_score_;
    for a in s.legalActions() {
        let mut c = copy(s);
        c.advance(a);
        let v = best_total(&c);
        if v > best {
            best = v;
        }
    }
    best
}

#[test]
fn coord_new_is_origin() {
    let c = Coord::new();
    assert_eq!((c.y_, c.x_), (0, 0));
}

#[test]
fn legal_actions_in_corner_and_center() {
    let s = MazeState::from_grid(vec![0; 9], 3, 3, 0, 0, 2);
    assert_eq!(s.legalActions(), vec![0, 2]);
    let s = MazeState::from_grid(vec![0; 9], 3, 3, 2, 2, 2);
    assert_eq!(s.legalActions(), vec![1, 3]);
    let s = MazeState::from_grid(vec![0; 9], 3, 3, 1, 1, 2);
    assert_eq!(s.legalActions(), vec![0, 1, 2, 3]);
    let s = MazeState::from_grid(vec![0; 2], 1, 2, 0, 0, 2);
    assert_eq!(s.legalActions(), vec![0]);
}

#[test]
fn legal_actions_stay_in_grid_everywhere() {
    for y in 0..3isize {
        for x in 0..4isize {
            let s = MazeState::from_grid(vec![1; 12], 3, 4, y, x, 4);
            for a in s.legalActions() {
                let mut c = copy(&s);
                c.advance(a);
                assert!(c.character_.y_ >= 0 && c.character_.y_ < 3);
                assert!(c.character_.x_ >= 0 && c.character_.x_ < 4);
            }
        }
    }
}

#[test]
fn advance_collects_and_zeroes() {
    let mut s = MazeState::from_grid(grid3([[0, 5, 0], [1, 0, 3], [0, 2, 0]]), 3, 3, 0, 0, 2);
    s.advance(0);
    assert_eq!(s.game_score_, 5);
    assert_eq!(s.points_[1], 0);
    assert_eq!(s.turn_, 1);
    assert_eq!((s.character_.y_, s.character_.x_), (0, 1));
    s.advance(1);
    assert_eq!(s.game_score_, 5);
    assert!(s.isDone());
}

#[test]
fn advance_on_zero_cell_adds_nothing() {
    let mut s = MazeState::from_grid(grid3([[0, 5, 0], [1, 0, 3], [0, 2, 0]]), 3, 3, 1, 0, 4);
    s.advance(3);
    assert_eq!(s.game_score_, 0);
    assert_eq!(s.points_, grid3([[0, 5, 0], [1, 0, 3], [0, 2, 0]]));
}

#[test]
fn evaluate_score_copies_game_score() {
    let mut s = MazeState::from_grid(grid3([[0, 5, 0], [1, 0, 3], [0, 2, 0]]), 3, 3, 0, 0, 2);
    s.advance(0);
    assert_eq!(s.evaluated_score_, 0);
    s.evaluateScore();
    assert_eq!(s.evaluated_score_, 5);
}

#[test]
fn score_never_falls_and_stays_under_grid_sum() {
    for seed in 0..20u64 {
        let mut s = MazeState::new(3, 4, 12, Some(seed));
        let total: usize = s.points_.iter().sum();
        let mut k = seed as usize;
        while !s.isDone() {
            let acts = s.legalActions();
            let before = s.game_score_;
            s.advance(acts[k % acts.len()]);
            k = k * 7 + 3;
            assert!(s.game_score_ >= before);
            assert!(s.game_score_ <= total);
            let left: usize = s.points_.iter().sum();
            assert_eq!(s.game_score_ + left, total);
        }
    }
}

#[test]
fn greedy_picks_highest_neighbor_on_first_turn() {
    let s = MazeState::from_grid(grid3([[0, 5, 0], [1, 0, 3], [0, 2, 0]]), 3, 3, 0, 0, 2);
    assert_eq!(greedyAction(&s), 0);
}

#[test]
fn greedy_goes_to_the_only_value() {
    let s = MazeState::from_grid(grid3([[0, 0, 0], [0, 0, 0], [0, 7, 0]]), 3, 3, 1, 1, 3);
    assert_eq!(greedyAction(&s), 2);
    let s = MazeState::from_grid(grid3([[0, 0, 0], [4, 0, 0], [0, 0, 0]]), 3, 3, 1, 1, 3);
    assert_eq!(greedyAction(&s), 1);
}

#[test]
fn greedy_ties_go_to_first_move() {
    let s = MazeState::from_grid(grid3([[0, 3, 0], [3, 0, 3], [0, 3, 0]]), 3, 3, 1, 1, 3);
    assert_eq!(greedyAction(&s), 0);
    let s = MazeState::from_grid(vec![0; 9], 3, 3, 1, 1, 3);
    assert_eq!(greedyAction(&s), 0);
}

#[test]
fn narrow_beam_matches_greedy() {
    for seed in 0..30u64 {
        let s = MazeState::new(4, 4, 6, Some(seed));
        assert_eq!(beamSearchAction(&s, 1, 1), greedyAction(&s));
    }
}

#[test]
fn wide_beam_reaches_brute_force_optimum() {
    let grids = [
        [[0, 5, 0], [1, 0, 3], [0, 2, 0]],
        [[0, 1, 9], [1, 0, 0], [8, 0, 0]],
        [[0, 9, 9], [9, 1, 0], [0, 0, 9]],
    ];
    for g in grids.iter() {
        let start = MazeState::from_grid(grid3(*g), 3, 3, 0, 0, 3);
        let optimum = best_total(&start);
        let mut s = copy(&start);
        while !s.isDone() {
            let a = beamSearchAction(&s, 1000, 3);
            s.advance(a);
        }
        assert_eq!(s.game_score_, optimum);
    }
}

#[test]
fn beam_search_depth_zero_keeps_no_action() {
    let s = MazeState::from_grid(grid3([[0, 5, 0], [1, 0, 3], [0, 2, 0]]), 3, 3, 0, 0, 2);
    assert_eq!(beamSearchAction(&s, 3, 0), NO_ACTION);
}

#[test]
fn beam_search_looks_past_the_first_step() {
    // greedy grabs the 1; two steps ahead the 9 is worth more
    let s = MazeState::from_grid(grid3([[0, 0, 9], [1, 0, 0], [0, 0, 0]]), 3, 3, 0, 0, 2);
    assert_eq!(greedyAction(&s), 2);
    assert_eq!(beamSearchAction(&s, 10, 2), 0);
}

#[test]
fn chokudai_single_sweep_gives_legal_first_move() {
    let s = MazeState::from_grid(grid3([[0, 5, 0], [1, 0, 3], [0, 2, 0]]), 3, 3, 0, 0, 2);
    let a = chokudaiSearchAction(&s, 1, 2, 1);
    assert!(s.legalActions().contains(&a));
    // a rollout of full depth that starts with that move exists
    let mut c = copy(&s);
    c.advance(a);
    let b = c.legalActions()[0];
    c.advance(b);
    assert!(c.isDone());
    assert_eq!(a, 0);
}

#[test]
fn chokudai_looks_past_the_first_step() {
    let s = MazeState::from_grid(grid3([[0, 0, 9], [1, 0, 0], [0, 0, 0]]), 3, 3, 0, 0, 2);
    assert_eq!(chokudaiSearchAction(&s, 10, 2, 3), 0);
}

#[test]
fn chokudai_without_sweeps_keeps_no_action() {
    let s = MazeState::from_grid(grid3([[0, 5, 0], [1, 0, 3], [0, 2, 0]]), 3, 3, 0, 0, 2);
    assert_eq!(chokudaiSearchAction(&s, 2, 2, 0), NO_ACTION);
}

#[test]
fn threshold_variants_answer_at_zero_threshold() {
    let s = MazeState::from_grid(grid3([[0, 5, 0], [1, 0, 3], [0, 2, 0]]), 3, 3, 0, 0, 2);
    assert_eq!(beamSearchActionWithTimeThreshold(&s, 2, 0), NO_ACTION);
    assert_eq!(
        chokudaiSearchActionWithThreshold(&s, 1, 2, 0),
        chokudaiSearchAction(&s, 1, 2, 1)
    );
}

#[test]
fn threshold_beam_with_time_finds_a_move() {
    let s = MazeState::from_grid(grid3([[0, 0, 9], [1, 0, 0], [0, 0, 0]]), 3, 3, 0, 0, 2);
    assert_eq!(beamSearchActionWithTimeThreshold(&s, 10, 5000), 0);
}

#[test]
fn time_keeper_zero_expires_at_once() {
    assert!(TimeKeeper::new(0).isTimeOver());
    assert!(!TimeKeeper::new(100_000).isTimeOver());
}

#[test]
fn generated_state_is_well_formed_and_seeded() {
    let a = MazeState::new(3, 4, 4, Some(4));
    let b = MazeState::new(3, 4, 4, Some(4));
    assert_eq!(a.points_, b.points_);
    assert_eq!(a.points_.len(), 12);
    assert!(a.points_.iter().all(|&v| v < 10));
    let y = a.character_.y_;
    let x = a.character_.x_;
    assert!((0..3).contains(&y) && (0..4).contains(&x));
    assert_eq!(a.points_[(y * 4 + x) as usize], 0);
    assert_eq!((a.turn_, a.game_score_, a.first_action_), (0, 0, NO_ACTION));
    let c = MazeState::new(30, 30, 100, None);
    assert_eq!(c.points_.len(), 900);
    // over many cells some value above zero is drawn
    assert!(c.points_.iter().any(|&v| v > 0));
}

#[test]
fn full_game_with_beam_search() {
    let mut s = MazeState::new(5, 5, 10, Some(11));
    while !s.isDone() {
        let a = beamSearchAction(&s, 2, 10);
        s.advance(a);
    }
    assert_eq!(s.turn_, 10);
}

#[test]
fn random_action_is_legal() {
    for y in 0..3isize {
        for x in 0..3isize {
            let s = MazeState::from_grid(vec![1; 9], 3, 3, y, x, 2);
            assert!(s.legalActions().contains(&randomAction(&s)));
        }
    }
}

#[test]
fn deadline_reached_compares_whole_milliseconds() {
    assert!(deadline_reached(0, 0));
    assert!(!deadline_reached(4, 5));
    assert!(deadline_reached(5, 5));
    assert!(deadline_reached(1500, 10));
    assert!(!deadline_reached(999, 1000));
    assert!(deadline_reached(u128::MAX, u32::MAX));
}

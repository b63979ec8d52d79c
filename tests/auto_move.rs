use number_collect_maze::auto_move::{randomAction, AutoMoveMazeState};
use number_collect_maze::state::Coord;

fn state(points: Vec<usize>, h: usize, w: usize, end_turn: usize, chars: Vec<(isize, isize)>) -> AutoMoveMazeState {
    AutoMoveMazeState {
        points_: points,
        height_: h,
        width_: w,
        turn_: 0,
        end_turn_: end_turn,
        characters_: chars.iter().map(|&(y, x)| Coord { y_: y, x_: x }).collect(),
        game_score_: 0,
        evaluated_score_: 0,
    }
}

#[test]
fn auto_is_done_at_end_turn() {
    let mut s = state(vec![1; 4], 2, 2, 1, vec![(0, 0)]);
    assert!(!s.isDone());
    s.advance();
    assert!(s.isDone());
}

#[test]
fn set_character_places_it() {
    let mut s = state(vec![1; 4], 2, 2, 1, vec![(0, 0), (0, 0)]);
    s.setCharacter(1, 1, 0);
    assert_eq!((s.characters_[1].y_, s.characters_[1].x_), (1, 0));
    assert_eq!((s.characters_[0].y_, s.characters_[0].x_), (0, 0));
}

#[test]
fn move_player_takes_greatest_neighbor() {
    // 3x3, character in the middle; neighbours: right 4, left 7, down 7, up 2
    let mut s = state(vec![0, 2, 0, 7, 0, 4, 0, 7, 0], 3, 3, 3, vec![(1, 1)]);
    s.movePlayer(0);
    // the first move reaching the greatest value is the left one
    assert_eq!((s.characters_[0].y_, s.characters_[0].x_), (1, 0));
}

#[test]
fn move_player_without_values_steps_right_even_off_grid() {
    let mut s = state(vec![0; 4], 2, 2, 3, vec![(0, 1)]);
    assert!(!s.stepsStayOnGrid());
    s.movePlayer(0);
    assert_eq!((s.characters_[0].y_, s.characters_[0].x_), (0, 2));
    let mut s = state(vec![0; 4], 2, 2, 3, vec![(0, 0)]);
    assert!(s.stepsStayOnGrid());
    s.movePlayer(0);
    assert_eq!((s.characters_[0].y_, s.characters_[0].x_), (0, 1));
}

#[test]
fn chosen_step_prefers_first_greatest() {
    let s = state(vec![0, 2, 0, 7, 0, 4, 0, 7, 0], 3, 3, 3, vec![(1, 1)]);
    assert_eq!(s.chosen_step(1, 1), (1, 0));
    assert_eq!(s.chosen_step(0, 0), (1, 0));
}

#[test]
fn clear_character_cells_scores_nothing() {
    let mut s = state(vec![5, 1, 2, 3], 2, 2, 2, vec![(0, 0), (1, 1)]);
    s.clearCharacterCells();
    assert_eq!(s.points_, vec![0, 1, 2, 0]);
    assert_eq!(s.game_score_, 0);
}

#[test]
fn advance_moves_then_collects_once_per_cell() {
    // both characters step onto the 9; it is counted once
    let mut s = state(vec![0, 9, 0, 0], 2, 2, 3, vec![(0, 0), (1, 1)]);
    s.advance();
    assert_eq!(s.game_score_, 9);
    assert_eq!(s.points_, vec![0, 0, 0, 0]);
    assert_eq!(s.turn_, 1);
}

#[test]
fn get_score_plays_to_the_end() {
    let mut s = state(vec![5, 1, 2, 3], 2, 2, 2, vec![(0, 0)]);
    // start cell emptied; then right (1) vs down (2): down, then right (3)
    assert_eq!(s.getScore(), 5);
    assert!(s.isDone());
}

#[test]
fn generated_auto_state_holds_one_to_nine() {
    let s = AutoMoveMazeState::new(5, 5, 5, 3, Some(4));
    assert_eq!(s.points_.len(), 25);
    assert!(s.points_.iter().all(|&v| (1..=9).contains(&v)));
    assert_eq!(s.characters_.len(), 3);
    assert!(s.characters_.iter().all(|c| c.y_ == 0 && c.x_ == 0));
    assert_eq!((s.turn_, s.game_score_, s.evaluated_score_), (0, 0, 0));
    let t = AutoMoveMazeState::new(5, 5, 5, 3, Some(4));
    assert_eq!(s.points_, t.points_);
}

#[test]
fn random_placement_keeps_grid_and_stays_inside() {
    let s = AutoMoveMazeState::new(5, 5, 5, 3, Some(4));
    let r = randomAction(&s);
    assert_eq!(r.points_, s.points_);
    assert_eq!(r.characters_.len(), 3);
    assert!(r.characters_.iter().all(|c| (0..5).contains(&c.y_) && (0..5).contains(&c.x_)));
    let mut played = r.duplicate();
    played.clearCharacterCells();
    while !played.isDone() {
        assert!(played.stepsStayOnGrid());
        played.advance();
    }
    let mut r = r;
    let score = r.getScore();
    assert_eq!(score, played.game_score_);
    assert!(score <= 9 * 25);
    assert_eq!(r.turn_, 5);
}

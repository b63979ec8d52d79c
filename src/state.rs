use vstd::prelude::*;

verus! {

/// The action that no move stands for: returned where a search has no move to offer.
pub const NO_ACTION: usize = 4;

/// Row offset of each of the four moves (+x, -x, +y, -y).
pub open spec fn dy(a: int) -> int {
    if a == 2 {
        1
    } else if a == 3 {
        -1
    } else {
        0
    }
}

/// Column offset of each of the four moves (+x, -x, +y, -y).
pub open spec fn dx(a: int) -> int {
    if a == 0 {
        1
    } else if a == 1 {
        -1
    } else {
        0
    }
}

/// Row offset of move `a`.
pub fn delta_y(a: usize) -> (r: isize)
    ensures
        r == dy(a as int),
{
    if a == 2 {
        1
    } else if a == 3 {
        -1
    } else {
        0
    }
}

/// Column offset of move `a`.
pub fn delta_x(a: usize) -> (r: isize)
    ensures
        r == dx(a as int),
{
    if a == 0 {
        1
    } else if a == 1 {
        -1
    } else {
        0
    }
}

/// Sum of every value left on a grid.
pub open spec fn grid_sum(p: Seq<usize>) -> int
    decreases p.len(),
{
    if p.len() == 0 {
        0
    } else {
        grid_sum(p.drop_last()) + p.last()
    }
}

/// A grid position, row first.
#[derive(Debug, Clone, Copy, PartialEq, Eq, Structural)]
pub struct Coord {
    pub y_: isize,
    pub x_: isize,
}

impl Coord {
    pub fn new() -> (r: Coord)
        ensures
            r.y_ == 0 && r.x_ == 0,
    {
        Coord { y_: 0, x_: 0 }
    }
}

/// The mathematical value of a maze state.
pub struct MazeModel {
    pub points: Seq<usize>,
    pub height: nat,
    pub width: nat,
    pub turn: nat,
    pub end_turn: nat,
    pub y: int,
    pub x: int,
    pub game_score: nat,
    pub evaluated_score: int,
    pub first_action: nat,
}

impl MazeModel {
    pub open spec fn in_grid(self, y: int, x: int) -> bool {
        0 <= y < self.height && 0 <= x < self.width
    }

    /// Index of a cell in the row-major grid.
    pub open spec fn cell(self, y: int, x: int) -> int {
        y * self.width + x
    }

    pub open spec fn wf(self) -> bool {
        &&& 1 <= self.height <= isize::MAX
        &&& 1 <= self.width <= isize::MAX
        &&& self.points.len() == self.height * self.width
        &&& self.in_grid(self.y, self.x)
        &&& self.game_score + grid_sum(self.points) <= isize::MAX
    }

    pub open spec fn is_done(self) -> bool {
        self.turn == self.end_turn
    }

    /// A move is legal when it keeps the agent on the grid.
    pub open spec fn legal(self, a: int) -> bool {
        0 <= a < 4 && self.in_grid(self.y + dy(a), self.x + dx(a))
    }

    /// The legal moves among the first `k`, in their fixed order.
    pub open spec fn legal_prefix(self, k: nat) -> Seq<usize>
        decreases k,
    {
        if k == 0 {
            seq![]
        } else {
            let prev = self.legal_prefix((k - 1) as nat);
            if self.legal(k - 1) {
                prev.push((k - 1) as usize)
            } else {
                prev
            }
        }
    }

    pub open spec fn legal_actions(self) -> Seq<usize> {
        self.legal_prefix(4)
    }

    /// Value lying on the cell that move `a` leads to.
    pub open spec fn target_value(self, a: int) -> int {
        self.points[self.cell(self.y + dy(a), self.x + dx(a))] as int
    }

    /// The state after move `a`: the agent moves, collects what lies there, and a turn passes.
    pub open spec fn advance(self, a: int) -> MazeModel {
        let ny = self.y + dy(a);
        let nx = self.x + dx(a);
        let i = self.cell(ny, nx);
        MazeModel {
            points: self.points.update(i, 0),
            turn: self.turn + 1,
            y: ny,
            x: nx,
            game_score: (self.game_score + self.points[i]) as nat,
            ..self
        }
    }

    pub open spec fn evaluate(self) -> MazeModel {
        MazeModel { evaluated_score: self.game_score as int, ..self }
    }

    /// The child that move `a` produces in a search; `stamp` marks it with `a` as its first move.
    pub open spec fn child(self, a: int, stamp: bool) -> MazeModel {
        let c = self.advance(a).evaluate();
        if stamp {
            MazeModel { first_action: a as nat, ..c }
        } else {
            c
        }
    }

    /// The children of every legal move, in the order of the moves.
    pub open spec fn expand(self, stamp: bool) -> Seq<MazeModel> {
        self.legal_actions().map_values(|a: usize| self.child(a as int, stamp))
    }
}

/// One simulated position of the game.
#[derive(Debug)]
pub struct MazeState {
    pub points_: Vec<usize>,
    pub height_: usize,
    pub width_: usize,
    pub turn_: usize,
    pub end_turn_: usize,
    pub character_: Coord,
    pub game_score_: usize,
    pub evaluated_score_: isize,
    pub first_action_: usize,
}

impl View for MazeState {
    type V = MazeModel;

    open spec fn view(&self) -> MazeModel {
        MazeModel {
            points: self.points_@,
            height: self.height_ as nat,
            width: self.width_ as nat,
            turn: self.turn_ as nat,
            end_turn: self.end_turn_ as nat,
            y: self.character_.y_ as int,
            x: self.character_.x_ as int,
            game_score: self.game_score_ as nat,
            evaluated_score: self.evaluated_score_ as int,
            first_action: self.first_action_ as nat,
        }
    }
}

pub proof fn lemma_cell_in_grid(h: int, w: int, y: int, x: int)
    requires
        0 <= y < h,
        0 <= x < w,
    ensures
        0 <= y * w + x < h * w,
{
    assert(0 <= y * w) by (nonlinear_arith)
        requires
            0 <= y,
            0 <= w,
    ;
    assert(y * w + x < h * w) by (nonlinear_arith)
        requires
            y + 1 <= h,
            0 <= x < w,
    ;
}

pub proof fn lemma_grid_sum_nonneg(p: Seq<usize>)
    ensures
        grid_sum(p) >= 0,
    decreases p.len(),
{
    if p.len() > 0 {
        lemma_grid_sum_nonneg(p.drop_last());
    }
}

/// Zeroing one cell takes exactly its value off the grid's sum.
pub proof fn lemma_grid_sum_update(p: Seq<usize>, i: int)
    requires
        0 <= i < p.len(),
    ensures
        grid_sum(p.update(i, 0)) == grid_sum(p) - p[i],
        p[i] <= grid_sum(p),
    decreases p.len(),
{
    let q = p.update(i, 0);
    lemma_grid_sum_nonneg(p.drop_last());
    if i == p.len() - 1 {
        assert(q.drop_last() =~= p.drop_last());
    } else {
        lemma_grid_sum_update(p.drop_last(), i);
        assert(q.drop_last() =~= p.drop_last().update(i, 0));
    }
}

/// A legal move keeps a well-formed state well-formed.
pub proof fn lemma_advance_wf(m: MazeModel, a: int)
    requires
        m.wf(),
        m.legal(a),
    ensures
        m.advance(a).wf(),
        m.advance(a).game_score + grid_sum(m.advance(a).points) == m.game_score + grid_sum(
            m.points,
        ),
        m.child(a, true).wf(),
        m.child(a, false).wf(),
{
    let ny = m.y + dy(a);
    let nx = m.x + dx(a);
    lemma_cell_in_grid(m.height as int, m.width as int, ny, nx);
    lemma_grid_sum_update(m.points, m.cell(ny, nx));
}

impl MazeState {
    pub open spec fn wf(&self) -> bool {
        self@.wf()
    }

    /// A state on the given row-major grid, the agent at (`y`, `x`), before any turn.
    pub fn from_grid(
        points: Vec<usize>,
        height: usize,
        width: usize,
        y: isize,
        x: isize,
        end_turn: usize,
    ) -> (r: MazeState)
        ensures
            r@ == (MazeModel {
                points: points@,
                height: height as nat,
                width: width as nat,
                turn: 0,
                end_turn: end_turn as nat,
                y: y as int,
                x: x as int,
                game_score: 0,
                evaluated_score: 0,
                first_action: NO_ACTION as nat,
            }),
    {
        MazeState {
            points_: points,
            height_: height,
            width_: width,
            turn_: 0,
            end_turn_: end_turn,
            character_: Coord { y_: y, x_: x },
            game_score_: 0,
            evaluated_score_: 0,
            first_action_: NO_ACTION,
        }
    }

    /// An independent copy, sharing no storage with `self`.
    pub fn duplicate(&self) -> (r: MazeState)
        ensures
            r@ == self@,
    {
        let points = self.points_.clone();
        assert(points@ =~= self.points_@);
        MazeState {
            points_: points,
            height_: self.height_,
            width_: self.width_,
            turn_: self.turn_,
            end_turn_: self.end_turn_,
            character_: self.character_,
            game_score_: self.game_score_,
            evaluated_score_: self.evaluated_score_,
            first_action_: self.first_action_,
        }
    }

    pub fn isDone(&self) -> (r: bool)
        ensures
            r == self@.is_done(),
    {
        self.turn_ == self.end_turn_
    }

    /// Whether move `a` keeps the agent on the grid.
    pub fn is_legal(&self, a: usize) -> (r: bool)
        requires
            self.wf(),
            a < 4,
        ensures
            r == self@.legal(a as int),
    {
        let ty: isize = if a == 2 {
            self.character_.y_ + 1
        } else if a == 3 {
            self.character_.y_ - 1
        } else {
            self.character_.y_
        };
        let tx: isize = if a == 0 {
            self.character_.x_ + 1
        } else if a == 1 {
            self.character_.x_ - 1
        } else {
            self.character_.x_
        };
        0 <= ty && ty < self.height_ as isize && 0 <= tx && tx < self.width_ as isize
    }

    pub fn legalActions(&self) -> (r: Vec<usize>)
        requires
            self.wf(),
        ensures
            r@ == self@.legal_actions(),
    {
        let mut actions: Vec<usize> = Vec::new();
        let mut action: usize = 0;
        while action < 4
            invariant
                self.wf(),
                action <= 4,
                actions@ == self@.legal_prefix(action as nat),
            decreases 4 - action,
        {
            if self.is_legal(action) {
                actions.push(action);
            }
            action += 1;
        }
        actions
    }

    /// Moves the agent by `action`, collecting the value of the cell it reaches.
    pub fn advance(&mut self, action: usize)
        requires
            old(self).wf(),
            old(self)@.legal(action as int),
            old(self).turn_ < usize::MAX,
        ensures
            final(self)@ == old(self)@.advance(action as int),
            final(self).wf(),
            final(self).game_score_ >= old(self).game_score_,
            final(self).game_score_ + grid_sum(final(self).points_@) == old(self).game_score_
                + grid_sum(old(self).points_@),
            old(self)@.target_value(action as int) == 0 ==> final(self).game_score_
                == old(self).game_score_ && final(self).points_@ == old(self).points_@,
    {
        proof {
            lemma_advance_wf(self@, action as int);
            lemma_cell_in_grid(
                self.height_ as int,
                self.width_ as int,
                self@.y + dy(action as int),
                self@.x + dx(action as int),
            );
            lemma_grid_sum_update(
                self.points_@,
                self@.cell(self@.y + dy(action as int), self@.x + dx(action as int)),
            );
        }
        if action == 0 {
            self.character_.x_ = self.character_.x_ + 1;
        } else if action == 1 {
            self.character_.x_ = self.character_.x_ - 1;
        } else if action == 2 {
            self.character_.y_ = self.character_.y_ + 1;
        } else {
            self.character_.y_ = self.character_.y_ - 1;
        }
        let n = self.points_.len();
        proof {
            lemma_cell_in_grid(
                self.height_ as int,
                self.width_ as int,
                self.character_.y_ as int,
                self.character_.x_ as int,
            );
            assert((self.character_.y_ as int) * (self.width_ as int) + (self.character_.x_ as int)
                < n);
        }
        let i: usize = self.character_.y_ as usize * self.width_ + self.character_.x_ as usize;
        let point = self.points_[i];
        if point > 0 {
            self.game_score_ = self.game_score_ + point;
            self.points_.set(i, 0);
        }
        proof {
            if point == 0 {
                assert(self.points_@ =~= old(self).points_@.update(i as int, 0));
            }
        }
        self.turn_ = self.turn_ + 1;
    }

    /// Sets the ranking score from the game score.
    pub fn evaluateScore(&mut self)
        requires
            old(self).wf(),
        ensures
            final(self)@ == old(self)@.evaluate(),
            final(self).wf(),
    {
        proof {
            lemma_grid_sum_nonneg(self.points_@);
        }
        self.evaluated_score_ = self.game_score_ as isize;
    }
}

} // verus!

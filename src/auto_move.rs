use vstd::prelude::*;
use crate::generate::{draw_below, fresh_seed, lemma_grid_sum_digits, seeded_rng};
use crate::state::{
    Coord,
    delta_x,
    delta_y,
    dx,
    dy,
    grid_sum,
    lemma_cell_in_grid,
    lemma_grid_sum_nonneg,
    lemma_grid_sum_update,
};

verus! {

/// Among the first `k` moves from (`y`, `x`) on a `h` by `w` grid, the greatest value
/// strictly above zero that a move onto the grid reaches, and the first move that
/// reaches it (zero and move zero where none does).
pub open spec fn auto_choice(p: Seq<usize>, h: nat, w: nat, y: int, x: int, k: nat) -> (int, int)
    decreases k,
{
    if k == 0 {
        (0, 0)
    } else {
        let prev = auto_choice(p, h, w, y, x, (k - 1) as nat);
        let a = k - 1;
        let ty = y + dy(a);
        let tx = x + dx(a);
        if 0 <= ty < h && 0 <= tx < w && p[ty * w + tx] > prev.0 {
            (p[ty * w + tx] as int, a)
        } else {
            prev
        }
    }
}

/// One step by the chosen move. Where no neighbour holds a value the move is move zero,
/// one cell to the right, which may leave the grid.
pub open spec fn auto_step(p: Seq<usize>, h: nat, w: nat, y: int, x: int) -> (int, int) {
    let a = auto_choice(p, h, w, y, x, 4).1;
    (y + dy(a), x + dx(a))
}

/// The mathematical value of a maze whose characters move by themselves.
pub struct AutoModel {
    pub points: Seq<usize>,
    pub height: nat,
    pub width: nat,
    pub turn: nat,
    pub end_turn: nat,
    pub chars: Seq<(int, int)>,
    pub game_score: nat,
    pub evaluated_score: int,
}

impl AutoModel {
    pub open spec fn in_grid(self, y: int, x: int) -> bool {
        0 <= y < self.height && 0 <= x < self.width
    }

    pub open spec fn cell(self, y: int, x: int) -> int {
        y * self.width + x
    }

    pub open spec fn wf(self) -> bool {
        &&& 1 <= self.height <= isize::MAX
        &&& 1 <= self.width <= isize::MAX
        &&& self.points.len() == self.height * self.width
        &&& forall|i: int|
            0 <= i < self.chars.len() ==> self.in_grid(
                (#[trigger] self.chars[i]).0,
                self.chars[i].1,
            )
        &&& self.game_score + grid_sum(self.points) <= usize::MAX
    }

    pub open spec fn is_done(self) -> bool {
        self.turn == self.end_turn
    }

    /// Where a character at (`y`, `x`) goes.
    pub open spec fn step_to(self, y: int, x: int) -> (int, int) {
        auto_step(self.points, self.height, self.width, y, x)
    }

    /// Every character's next step stays on the grid.
    pub open spec fn steps_stay(self) -> bool {
        forall|i: int|
            0 <= i < self.chars.len() ==> {
                let p = self.step_to((#[trigger] self.chars[i]).0, self.chars[i].1);
                self.in_grid(p.0, p.1)
            }
    }

    /// Every character has made its step.
    pub open spec fn moved(self) -> AutoModel {
        AutoModel {
            chars: Seq::new(self.chars.len(), |i: int| self.step_to(self.chars[i].0, self.chars[i].1)),
            ..self
        }
    }

    /// The first `k` characters, in order, collect what lies under them.
    pub open spec fn collect(self, k: nat) -> AutoModel
        decreases k,
    {
        if k == 0 {
            self
        } else {
            let p = self.collect((k - 1) as nat);
            let c = self.cell(self.chars[k - 1].0, self.chars[k - 1].1);
            AutoModel {
                points: p.points.update(c, 0),
                game_score: (p.game_score + p.points[c]) as nat,
                ..p
            }
        }
    }

    /// One turn: every character steps, then each collects in turn.
    pub open spec fn advance(self) -> AutoModel {
        let m = self.moved().collect(self.chars.len());
        AutoModel { turn: self.turn + 1, ..m }
    }

    /// The cells under the first `k` characters are emptied without scoring.
    pub open spec fn clear(self, k: nat) -> AutoModel
        decreases k,
    {
        if k == 0 {
            self
        } else {
            let p = self.clear((k - 1) as nat);
            AutoModel {
                points: p.points.update(self.cell(self.chars[k - 1].0, self.chars[k - 1].1), 0),
                ..p
            }
        }
    }

    /// The state after `k` more turns.
    pub open spec fn played(self, k: nat) -> AutoModel
        decreases k,
    {
        if k == 0 {
            self
        } else {
            self.advance().played((k - 1) as nat)
        }
    }

    /// The final score: start cells emptied, then every turn up to the last played.
    pub open spec fn final_score(self) -> nat {
        self.clear(self.chars.len()).played((self.end_turn - self.turn) as nat).game_score
    }
}

/// A maze whose characters each step toward their best neighbouring value.
#[derive(Debug)]
pub struct AutoMoveMazeState {
    pub points_: Vec<usize>,
    pub height_: usize,
    pub width_: usize,
    pub turn_: usize,
    pub end_turn_: usize,
    pub characters_: Vec<Coord>,
    pub game_score_: usize,
    pub evaluated_score_: isize,
}

impl View for AutoMoveMazeState {
    type V = AutoModel;

    open spec fn view(&self) -> AutoModel {
        AutoModel {
            points: self.points_@,
            height: self.height_ as nat,
            width: self.width_ as nat,
            turn: self.turn_ as nat,
            end_turn: self.end_turn_ as nat,
            chars: self.characters_@.map_values(|c: Coord| (c.y_ as int, c.x_ as int)),
            game_score: self.game_score_ as nat,
            evaluated_score: self.evaluated_score_ as int,
        }
    }
}

/// Playing one more turn after `k` turns is playing `k + 1` turns.
pub proof fn lemma_played_step(m: AutoModel, k: nat)
    ensures
        m.played(k + 1) == m.played(k).advance(),
    decreases k,
{
    if k == 0 {
        assert(m.advance().played(0) == m.advance());
    } else {
        lemma_played_step(m.advance(), (k - 1) as nat);
        assert(m.played(k) == m.advance().played((k - 1) as nat));
    }
}

/// Emptying start cells changes nothing but the grid.
pub proof fn lemma_clear_fields(m: AutoModel, k: nat)
    requires
        m.wf(),
        k <= m.chars.len(),
    ensures
        m.clear(k) == (AutoModel { points: m.clear(k).points, ..m }),
        m.clear(k).points.len() == m.points.len(),
    decreases k,
{
    if k > 0 {
        lemma_clear_fields(m, (k - 1) as nat);
        let p = m.clear((k - 1) as nat);
        let c = m.cell(m.chars[k - 1].0, m.chars[k - 1].1);
        lemma_cell_in_grid(m.height as int, m.width as int, m.chars[k - 1].0, m.chars[k - 1].1);
        assert(m.clear(k) == (AutoModel { points: p.points.update(c, 0), ..p }));
    }
}

/// Collecting changes nothing but the grid and the score.
pub proof fn lemma_collect_fields(m: AutoModel, k: nat)
    requires
        m.wf(),
        k <= m.chars.len(),
    ensures
        m.collect(k) == (AutoModel {
            points: m.collect(k).points,
            game_score: m.collect(k).game_score,
            ..m
        }),
        m.collect(k).points.len() == m.points.len(),
    decreases k,
{
    if k > 0 {
        lemma_collect_fields(m, (k - 1) as nat);
        let p = m.collect((k - 1) as nat);
        let c = m.cell(m.chars[k - 1].0, m.chars[k - 1].1);
        lemma_cell_in_grid(m.height as int, m.width as int, m.chars[k - 1].0, m.chars[k - 1].1);
        assert(m.collect(k) == (AutoModel {
            points: p.points.update(c, 0),
            game_score: (p.game_score + p.points[c]) as nat,
            ..p
        }));
    }
}

impl AutoMoveMazeState {
    pub open spec fn wf(&self) -> bool {
        self@.wf()
    }

    pub fn isDone(&self) -> (r: bool)
        ensures
            r == self@.is_done(),
    {
        self.turn_ == self.end_turn_
    }

    /// Index of the in-grid cell (`y`, `x`).
    fn cell_index(&self, y: isize, x: isize) -> (r: usize)
        requires
            self.wf(),
            self@.in_grid(y as int, x as int),
        ensures
            r == self@.cell(y as int, x as int),
            r < self.points_@.len(),
    {
        proof {
            lemma_cell_in_grid(self.height_ as int, self.width_ as int, y as int, x as int);
        }
        let n = self.points_.len();
        proof {
            assert((y as int) * (self.width_ as int) + (x as int) < n);
        }
        y as usize * self.width_ + x as usize
    }

    /// Puts character `characters_id` on the cell (`y`, `x`).
    pub fn setCharacter(&mut self, characters_id: usize, y: isize, x: isize)
        requires
            old(self).wf(),
            characters_id < old(self)@.chars.len(),
            old(self)@.in_grid(y as int, x as int),
        ensures
            final(self)@ == (AutoModel {
                chars: old(self)@.chars.update(characters_id as int, (y as int, x as int)),
                ..old(self)@
            }),
            final(self).wf(),
    {
        self.characters_.set(characters_id, Coord { y_: y, x_: x });
        proof {
            assert(self@.chars =~= old(self)@.chars.update(characters_id as int, (y as int, x as int)));
        }
    }

    /// The cell that a character at (`y`, `x`) steps to.
    pub fn chosen_step(&self, y: isize, x: isize) -> (r: (isize, isize))
        requires
            self.wf(),
            self@.in_grid(y as int, x as int),
        ensures
            (r.0 as int, r.1 as int) == self@.step_to(y as int, x as int),
    {
        let mut best_point: usize = 0;
        let mut best_action_index: usize = 0;
        let mut action: usize = 0;
        while action < 4
            invariant
                self.wf(),
                self@.in_grid(y as int, x as int),
                action <= 4,
                (best_point as int, best_action_index as int) == auto_choice(
                    self@.points,
                    self@.height,
                    self@.width,
                    y as int,
                    x as int,
                    action as nat,
                ),
                best_action_index < 4,
            decreases 4 - action,
        {
            let ty = y + delta_y(action);
            let tx = x + delta_x(action);
            if 0 <= ty && ty < self.height_ as isize && 0 <= tx && tx < self.width_ as isize {
                let i = self.cell_index(ty, tx);
                if self.points_[i] > best_point {
                    best_point = self.points_[i];
                    best_action_index = action;
                }
            }
            action += 1;
        }
        (y + delta_y(best_action_index), x + delta_x(best_action_index))
    }

    /// Whether every character's next step stays on the grid.
    pub fn stepsStayOnGrid(&self) -> (r: bool)
        requires
            self.wf(),
        ensures
            r == self@.steps_stay(),
    {
        let n = self.characters_.len();
        let mut i: usize = 0;
        while i < n
            invariant
                self.wf(),
                n == self@.chars.len(),
                i <= n,
                forall|j: int|
                    0 <= j < i ==> {
                        let p = self@.step_to((#[trigger] self@.chars[j]).0, self@.chars[j].1);
                        self@.in_grid(p.0, p.1)
                    },
            decreases n - i,
        {
            let c = self.characters_[i];
            proof {
                assert(self@.chars[i as int] == (c.y_ as int, c.x_ as int));
            }
            let (ny, nx) = self.chosen_step(c.y_, c.x_);
            if !(0 <= ny && ny < self.height_ as isize && 0 <= nx && nx < self.width_ as isize) {
                return false;
            }
            i += 1;
        }
        true
    }

    /// Steps character `character_id` toward the greatest value among its neighbours, or
    /// one cell to the right where no neighbour holds a value.
    pub fn movePlayer(&mut self, character_id: usize)
        requires
            old(self).wf(),
            character_id < old(self)@.chars.len(),
        ensures
            final(self)@ == (AutoModel {
                chars: old(self)@.chars.update(
                    character_id as int,
                    old(self)@.step_to(
                        old(self)@.chars[character_id as int].0,
                        old(self)@.chars[character_id as int].1,
                    ),
                ),
                ..old(self)@
            }),
            ({
                let p = old(self)@.step_to(
                    old(self)@.chars[character_id as int].0,
                    old(self)@.chars[character_id as int].1,
                );
                old(self)@.in_grid(p.0, p.1) ==> final(self).wf()
            }),
    {
        let c = self.characters_[character_id];
        proof {
            assert(self@.chars[character_id as int] == (c.y_ as int, c.x_ as int));
        }
        let ghost m = self@;
        let (ny, nx) = self.chosen_step(c.y_, c.x_);
        self.characters_.set(character_id, Coord { y_: ny, x_: nx });
        proof {
            let target = m.chars.update(
                character_id as int,
                m.step_to(m.chars[character_id as int].0, m.chars[character_id as int].1),
            );
            assert(self@.chars =~= target);
        }
    }

    /// One turn: every character steps, then each collects the value under it.
    pub fn advance(&mut self)
        requires
            old(self).wf(),
            old(self)@.steps_stay(),
            old(self).turn_ < usize::MAX,
        ensures
            final(self)@ == old(self)@.advance(),
            final(self).wf(),
            final(self).turn_ == old(self).turn_ + 1,
            final(self).end_turn_ == old(self).end_turn_,
    {
        let ghost m = self@;
        let n = self.characters_.len();
        let mut id: usize = 0;
        proof {
            assert(Seq::new(
                n as nat,
                |i: int|
                    if i < 0 {
                        m.step_to(m.chars[i].0, m.chars[i].1)
                    } else {
                        m.chars[i]
                    },
            ) =~= m.chars);
        }
        while id < n
            invariant
                id <= n,
                n == m.chars.len(),
                m.steps_stay(),
                self.wf(),
                self@ == (AutoModel {
                    chars: Seq::new(
                        n as nat,
                        |i: int|
                            if i < id {
                                m.step_to(m.chars[i].0, m.chars[i].1)
                            } else {
                                m.chars[i]
                            },
                    ),
                    ..m
                }),
            decreases n - id,
        {
            let ghost before = self@;
            proof {
                assert(before.chars[id as int] == m.chars[id as int]);
                let p = m.step_to(m.chars[id as int].0, m.chars[id as int].1);
                assert(m.in_grid(p.0, p.1));
            }
            self.movePlayer(id);
            proof {
                assert(self@.chars =~= Seq::new(
                    n as nat,
                    |i: int|
                        if i < id + 1 {
                            m.step_to(m.chars[i].0, m.chars[i].1)
                        } else {
                            m.chars[i]
                        },
                ));
            }
            id += 1;
        }
        let ghost mv = m.moved();
        proof {
            assert(self@.chars =~= mv.chars);
            assert(self@ == mv);
        }
        let mut k: usize = 0;
        proof {
            assert(mv.collect(0) == mv);
        }
        while k < n
            invariant
                k <= n,
                n == mv.chars.len(),
                mv.wf(),
                self@ == mv.collect(k as nat),
                self@.chars == mv.chars,
                self.wf(),
                self.turn_ == m.turn,
                self.end_turn_ == m.end_turn,
            decreases n - k,
        {
            let c = self.characters_[k];
            proof {
                assert(self@.chars[k as int] == (c.y_ as int, c.x_ as int));
            }
            let i = self.cell_index(c.y_, c.x_);
            let v = self.points_[i];
            let ghost before = self@;
            proof {
                lemma_grid_sum_update(self.points_@, i as int);
                lemma_grid_sum_nonneg(self.points_@.update(i as int, 0));
                lemma_collect_fields(mv, k as nat);
                lemma_collect_fields(mv, (k + 1) as nat);
            }
            self.game_score_ = self.game_score_ + v;
            self.points_.set(i, 0);
            proof {
                let next = mv.collect((k + 1) as nat);
                assert(next.points == before.points.update(i as int, 0));
                assert(next.game_score == before.game_score + v);
                assert(self@.chars == before.chars);
                assert(self@ == next);
            }
            k += 1;
        }
        self.turn_ = self.turn_ + 1;
    }

    /// Empties the cells under the characters, without scoring.
    pub fn clearCharacterCells(&mut self)
        requires
            old(self).wf(),
        ensures
            final(self)@ == old(self)@.clear(old(self)@.chars.len()),
            final(self).wf(),
    {
        let ghost m = self@;
        let n = self.characters_.len();
        let mut k: usize = 0;
        while k < n
            invariant
                k <= n,
                n == m.chars.len(),
                m.wf(),
                self@ == m.clear(k as nat),
                self@.chars == m.chars,
                self.wf(),
            decreases n - k,
        {
            let c = self.characters_[k];
            proof {
                assert(self@.chars[k as int] == (c.y_ as int, c.x_ as int));
            }
            let i = self.cell_index(c.y_, c.x_);
            let ghost before = self@;
            proof {
                lemma_grid_sum_update(self.points_@, i as int);
                lemma_clear_fields(m, k as nat);
                lemma_clear_fields(m, (k + 1) as nat);
            }
            self.points_.set(i, 0);
            proof {
                assert(self@.chars == before.chars);
                assert(self@ == m.clear((k + 1) as nat));
            }
            k += 1;
        }
    }

    /// Empties the cells under the characters, then plays every turn up to the last;
    /// gives the final score. Every character's step must stay on the grid on every turn.
    pub fn getScore(&mut self) -> (r: usize)
        requires
            old(self).wf(),
            old(self).turn_ <= old(self).end_turn_,
            forall|k: nat|
                k < old(self).end_turn_ - old(self).turn_ ==> (#[trigger] old(self)@.clear(
                    old(self)@.chars.len(),
                ).played(k)).steps_stay(),
        ensures
            r == old(self)@.final_score(),
            final(self)@ == old(self)@.clear(old(self)@.chars.len()).played(
                (old(self)@.end_turn - old(self)@.turn) as nat,
            ),
    {
        let ghost m = self@;
        let ghost n = m.chars.len();
        self.clearCharacterCells();
        let ghost start = self@;
        proof {
            lemma_clear_fields(m, n);
            assert(start.played(0) == start);
        }
        while !self.isDone()
            invariant
                start == m.clear(n),
                m.turn <= self.turn_ <= self.end_turn_,
                self.end_turn_ == m.end_turn,
                forall|k: nat| k < m.end_turn - m.turn ==> (#[trigger] start.played(k)).steps_stay(),
                self@ == start.played((self.turn_ - m.turn) as nat),
                self.wf(),
            decreases self.end_turn_ - self.turn_,
        {
            proof {
                lemma_played_step(start, (self.turn_ - m.turn) as nat);
                assert(start.played((self.turn_ - m.turn) as nat).steps_stay());
            }
            self.advance();
        }
        self.game_score_
    }
}

impl AutoMoveMazeState {
    /// A random start: every cell of a `height` by `width` grid holds a random value from
    /// one to nine, and all `character_n` characters stand on the top-left cell.
    /// With `Some(seed)` the grid is fixed by the seed.
    pub fn new(height: usize, width: usize, end_turn: usize, character_n: usize, seed: Option<u64>)
        -> (r: AutoMoveMazeState)
        requires
            1 <= height,
            1 <= width,
            9 * height * width <= isize::MAX,
        ensures
            r.wf(),
            r@.height == height,
            r@.width == width,
            r@.turn == 0,
            r@.end_turn == end_turn,
            r@.game_score == 0,
            r@.evaluated_score == 0,
            r@.chars == Seq::new(character_n as nat, |i: int| (0int, 0int)),
            forall|i: int| 0 <= i < r@.points.len() ==> 1 <= #[trigger] r@.points[i] <= 9,
    {
        let s = match seed {
            Some(s) => s,
            None => fresh_seed(),
        };
        let mut rng = seeded_rng(s);
        proof {
            assert(height * width <= 9 * height * width && height <= height * width && width
                <= height * width) by (nonlinear_arith)
                requires
                    height >= 1,
                    width >= 1,
            ;
        }
        let n: usize = height * width;
        let mut points: Vec<usize> = Vec::new();
        let mut i: usize = 0;
        while i < n
            invariant
                i <= n,
                points@.len() == i,
                forall|j: int| 0 <= j < i ==> 1 <= #[trigger] points@[j] <= 9,
            decreases n - i,
        {
            let v = draw_below(&mut rng, 9);
            points.push(v + 1);
            i += 1;
        }
        let mut characters: Vec<Coord> = Vec::new();
        let mut k: usize = 0;
        while k < character_n
            invariant
                k <= character_n,
                characters@.len() == k,
                forall|j: int| 0 <= j < k ==> #[trigger] characters@[j] == (Coord { y_: 0, x_: 0 }),
            decreases character_n - k,
        {
            characters.push(Coord { y_: 0, x_: 0 });
            k += 1;
        }
        proof {
            lemma_grid_sum_digits(points@);
            assert(9 * points@.len() == 9 * height * width) by (nonlinear_arith)
                requires
                    points@.len() == height * width,
            ;
        }
        let r = AutoMoveMazeState {
            points_: points,
            height_: height,
            width_: width,
            turn_: 0,
            end_turn_: end_turn,
            characters_: characters,
            game_score_: 0,
            evaluated_score_: 0,
        };
        proof {
            assert(r@.chars =~= Seq::new(character_n as nat, |i: int| (0int, 0int)));
        }
        r
    }

    /// An independent copy, sharing no storage with `self`.
    pub fn duplicate(&self) -> (r: AutoMoveMazeState)
        ensures
            r@ == self@,
    {
        let points = self.points_.clone();
        let characters = self.characters_.clone();
        proof {
            assert(points@ =~= self.points_@);
            assert(characters@ =~= self.characters_@);
        }
        AutoMoveMazeState {
            points_: points,
            height_: self.height_,
            width_: self.width_,
            turn_: self.turn_,
            end_turn_: self.end_turn_,
            characters_: characters,
            game_score_: self.game_score_,
            evaluated_score_: self.evaluated_score_,
        }
    }
}

/// A copy of `state` with each character put on a cell drawn by a generator seeded with zero.
pub fn randomAction(state: &AutoMoveMazeState) -> (r: AutoMoveMazeState)
    requires
        state.wf(),
    ensures
        r.wf(),
        r@ == (AutoModel { chars: r@.chars, ..state@ }),
        r@.chars.len() == state@.chars.len(),
{
    let mut now_state = state.duplicate();
    let mut rng = seeded_rng(0);
    let n = now_state.characters_.len();
    let mut character_id: usize = 0;
    while character_id < n
        invariant
            character_id <= n,
            n == state@.chars.len(),
            now_state.wf(),
            now_state@ == (AutoModel { chars: now_state@.chars, ..state@ }),
            now_state@.chars.len() == n,
        decreases n - character_id,
    {
        let y = draw_below(&mut rng, now_state.height_);
        let x = draw_below(&mut rng, now_state.width_);
        now_state.setCharacter(character_id, y as isize, x as isize);
        character_id += 1;
    }
    now_state
}

} // verus!

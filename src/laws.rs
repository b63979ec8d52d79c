use vstd::prelude::*;
use crate::state::{MazeModel, dx, dy, grid_sum, lemma_advance_wf, lemma_cell_in_grid, lemma_grid_sum_nonneg};
use crate::search::{
    beam_search_spec,
    beam_state,
    beam_step,
    best_index,
    greedy_spec,
    lemma_best_index,
    lemma_best_index_scores,
    lemma_expand_all_at,
    lemma_legal_prefix,
    pop_expand,
    all_at,
    chokudai_spec,
    deepest_answer,
    initial_queues,
    lemma_all_at_concat,
    lemma_pop_expand_all_at,
    queues_at,
    sweep_from,
    sweeps,
};

verus! {

/// The state reached by playing `acts` in order.
pub open spec fn run(m: MazeModel, acts: Seq<usize>) -> MazeModel
    decreases acts.len(),
{
    if acts.len() == 0 {
        m
    } else {
        run(m.advance(acts[0] as int), acts.drop_first())
    }
}

/// Every move of `acts` is legal where it is played.
pub open spec fn legal_run(m: MazeModel, acts: Seq<usize>) -> bool
    decreases acts.len(),
{
    if acts.len() == 0 {
        true
    } else {
        m.legal(acts[0] as int) && legal_run(m.advance(acts[0] as int), acts.drop_first())
    }
}

/// Every move that the enumeration offers is one of the four and leads to a cell of the grid.
pub proof fn law_legal_actions_stay_in_grid(m: MazeModel)
    ensures
        forall|i: int|
            0 <= i < m.legal_actions().len() ==> {
                let a = #[trigger] m.legal_actions()[i] as int;
                &&& 0 <= a < 4
                &&& 0 <= m.y + dy(a) < m.height
                &&& 0 <= m.x + dx(a) < m.width
            },
{
    lemma_legal_prefix(m, 4);
}

/// Moving onto a cell that holds nothing leaves the score and the grid as they were.
pub proof fn law_zero_cell_adds_nothing(m: MazeModel, a: int)
    requires
        m.wf(),
        m.legal(a),
        m.target_value(a) == 0,
    ensures
        m.advance(a).game_score == m.game_score,
        m.advance(a).points == m.points,
{
    let i = m.cell(m.y + dy(a), m.x + dx(a));
    lemma_cell_in_grid(m.height as int, m.width as int, m.y + dy(a), m.x + dx(a));
    assert(m.points.update(i, 0) =~= m.points);
}

/// Along any sequence of legal moves the score never falls, the score plus what is left
/// on the grid stays constant, and so the score never exceeds the start score plus the
/// grid's initial sum.
pub proof fn law_score_monotone_and_bounded(m: MazeModel, acts: Seq<usize>)
    requires
        m.wf(),
        legal_run(m, acts),
    ensures
        run(m, acts).wf(),
        run(m, acts).game_score >= m.game_score,
        run(m, acts).game_score + grid_sum(run(m, acts).points) == m.game_score + grid_sum(
            m.points,
        ),
        run(m, acts).game_score <= m.game_score + grid_sum(m.points),
    decreases acts.len(),
{
    if acts.len() > 0 {
        let a = acts[0] as int;
        lemma_advance_wf(m, a);
        law_score_monotone_and_bounded(m.advance(a), acts.drop_first());
    }
    lemma_grid_sum_nonneg(run(m, acts).points);
}

/// Where exactly one legal move leads to a cell with a value, greedy search takes it.
pub proof fn law_greedy_takes_only_value(m: MazeModel, a: int)
    requires
        m.wf(),
        m.legal(a),
        m.target_value(a) > 0,
        forall|b: int| #[trigger] m.legal(b) && b != a ==> m.target_value(b) == 0,
    ensures
        greedy_spec(m) == a,
{
    let acts = m.legal_actions();
    let kids = m.expand(false);
    lemma_legal_prefix(m, 4);
    lemma_expand_all_at(m, false);
    lemma_prefix_contains(m, 4, a);
    let ia = choose|i: int| 0 <= i < acts.len() && acts[i] == a;
    lemma_best_index(kids);
    let b = best_index(kids);
    assert(kids[ia].evaluated_score >= m.game_score + 1);
    assert(kids[b].evaluated_score >= kids[ia].evaluated_score);
    assert(m.legal(acts[b] as int));
    if acts[b] as int != a {
        assert(m.target_value(acts[b] as int) == 0);
        assert(false);
    }
}

/// A legal move among the first `k` appears in their enumeration.
proof fn lemma_prefix_contains(m: MazeModel, k: nat, a: int)
    requires
        m.legal(a),
        a < k,
        k <= 4,
    ensures
        exists|i: int| 0 <= i < m.legal_prefix(k).len() && m.legal_prefix(k)[i] == a,
    decreases k,
{
    let p = m.legal_prefix(k);
    if a == k - 1 {
        assert(p[p.len() - 1] == a);
    } else {
        lemma_prefix_contains(m, (k - 1) as nat, a);
        let i = choose|i: int|
            0 <= i < m.legal_prefix((k - 1) as nat).len() && #[trigger] m.legal_prefix(
                (k - 1) as nat,
            )[i] == a;
        assert(p[i] == a);
    }
}

/// Beam search of width one and depth one chooses what greedy search chooses.
pub proof fn law_narrow_beam_is_greedy(m: MazeModel)
    requires
        m.wf(),
        m.legal_actions().len() > 0,
    ensures
        beam_search_spec(m, 1, 1) == greedy_spec(m),
{
    let q = seq![m];
    assert(best_index(q) == 0);
    assert(q.remove(0) =~= Seq::<MazeModel>::empty());
    assert(pop_expand(q.remove(0), 0, true) == (q.remove(0), Seq::<MazeModel>::empty()));
    let stamped = m.expand(true);
    let plain = m.expand(false);
    assert(pop_expand(q, 1, true).1 == stamped + Seq::<MazeModel>::empty());
    assert(stamped + Seq::<MazeModel>::empty() =~= stamped);
    lemma_expand_all_at(m, true);
    lemma_expand_all_at(m, false);
    lemma_best_index_scores(stamped, plain);
    lemma_best_index(plain);
    assert(stamped[best_index(plain)].first_action == m.legal_actions()[best_index(plain)]);
    assert(beam_state(m, 1, 0) == (q, m, false));
    assert(beam_state(m, 1, 1) == beam_step((q, m, false), 1, true));
    assert(pop_expand(q, 1, true).1 == stamped);
    assert(beam_state(m, 1, 1) == (stamped, stamped[best_index(plain)], stamped[best_index(
        plain,
    )].is_done()));
}

/// A grid of two cells or more leaves every well-formed state a legal move.
proof fn lemma_some_legal_move(m: MazeModel)
    requires
        m.wf(),
        m.height * m.width >= 2,
    ensures
        m.legal_actions().len() > 0,
{
    if m.width >= 2 {
        if m.x + 1 < m.width {
            lemma_prefix_contains(m, 4, 0);
        } else {
            lemma_prefix_contains(m, 4, 1);
        }
    } else {
        assert(m.height >= 2) by (nonlinear_arith)
            requires
                m.height * m.width >= 2,
                m.width < 2,
        ;
        if m.y + 1 < m.height {
            lemma_prefix_contains(m, 4, 2);
        } else {
            lemma_prefix_contains(m, 4, 3);
        }
    }
}

/// What chokudai search keeps at depth `t` from `s`: `s` itself at depth zero, and below
/// it only states on the same grid whose first move is legal in `s`.
pub open spec fn rooted(s: MazeModel, m: MazeModel, t: int) -> bool {
    if t == 0 {
        m == s
    } else {
        &&& s.legal(m.first_action as int)
        &&& m.height == s.height
        &&& m.width == s.width
    }
}

pub open spec fn all_rooted(s: MazeModel, q: Seq<MazeModel>, t: int) -> bool {
    forall|i: int| 0 <= i < q.len() ==> rooted(s, #[trigger] q[i], t)
}

/// The queues hold well-formed states, each rooted at its depth.
pub open spec fn sound(s: MazeModel, qs: Seq<Seq<MazeModel>>, d: nat) -> bool {
    &&& qs.len() == d + 1
    &&& queues_at(qs, s.turn)
    &&& forall|t: int| 0 <= t < qs.len() ==> all_rooted(s, #[trigger] qs[t], t)
}

/// Some queue at depth `lo` or deeper (and at depth one or deeper) is not empty.
pub open spec fn progress(qs: Seq<Seq<MazeModel>>, lo: int, d: nat) -> bool {
    exists|j: int| (j >= 1 || j >= lo) && j <= d && (#[trigger] qs[j]).len() > 0
}

proof fn lemma_pop_expand_rooted(s: MazeModel, q: Seq<MazeModel>, w: nat, t: int)
    requires
        s.wf(),
        t >= 0,
        all_rooted(s, q, t),
    ensures
        all_rooted(s, pop_expand(q, w, t == 0).0, t),
        all_rooted(s, pop_expand(q, w, t == 0).1, t + 1),
    decreases w,
{
    if w > 0 && q.len() > 0 {
        let b = best_index(q);
        lemma_best_index(q);
        let rest = q.remove(b);
        assert forall|i: int| 0 <= i < rest.len() implies rooted(s, #[trigger] rest[i], t) by {
            if i < b {
                assert(rest[i] == q[i]);
            } else {
                assert(rest[i] == q[i + 1]);
            }
        }
        lemma_pop_expand_rooted(s, rest, (w - 1) as nat, t);
        let kids = q[b].expand(t == 0);
        let more = pop_expand(rest, (w - 1) as nat, t == 0).1;
        lemma_legal_prefix(q[b], 4);
        assert(rooted(s, q[b], t));
        assert forall|i: int| 0 <= i < kids.len() implies rooted(s, #[trigger] kids[i], t + 1) by {
            let a = q[b].legal_actions()[i];
            assert(kids[i] == q[b].child(a as int, t == 0));
        }
        assert forall|i: int| 0 <= i < (kids + more).len() implies rooted(
            s,
            #[trigger] (kids + more)[i],
            t + 1,
        ) by {
            if i < kids.len() {
                assert((kids + more)[i] == kids[i]);
            } else {
                assert((kids + more)[i] == more[i - kids.len()]);
            }
        }
    }
}

/// One sweep keeps the queues sound and, where there was progress, keeps some.
proof fn lemma_sweep_from_sound(s: MazeModel, qs: Seq<Seq<MazeModel>>, w: nat, d: nat, t: nat)
    requires
        s.wf(),
        s.height * s.width >= 2,
        w >= 1,
        t <= d,
        sound(s, qs, d),
        progress(qs, t as int, d),
    ensures
        sound(s, sweep_from(qs, w, d, t), d),
        progress(sweep_from(qs, w, d, t), d as int, d),
    decreases d - t,
{
    if t < d {
        let ti = t as int;
        let q = qs[ti];
        let r = pop_expand(q, w, t == 0);
        let nq = qs.update(ti, r.0).update(ti + 1, qs[ti + 1] + r.1);
        assert(all_at(q, (s.turn + t) as nat));
        assert(all_at(qs[ti + 1], (s.turn + t + 1) as nat));
        lemma_pop_expand_all_at(q, w, t == 0, (s.turn + t) as nat);
        lemma_all_at_concat(qs[ti + 1], r.1, (s.turn + t + 1) as nat);
        assert(all_rooted(s, q, ti));
        assert(all_rooted(s, qs[ti + 1], ti + 1));
        lemma_pop_expand_rooted(s, q, w, ti);
        assert(all_rooted(s, qs[ti + 1] + r.1, ti + 1)) by {
            let a = qs[ti + 1];
            assert forall|i: int| 0 <= i < (a + r.1).len() implies rooted(
                s,
                #[trigger] (a + r.1)[i],
                ti + 1,
            ) by {
                if i < a.len() {
                    assert((a + r.1)[i] == a[i]);
                } else {
                    assert((a + r.1)[i] == r.1[i - a.len()]);
                }
            }
        }
        assert forall|j: int| 0 <= j < nq.len() implies all_rooted(s, #[trigger] nq[j], j) && all_at(
            nq[j],
            (s.turn + j) as nat,
        ) by {
            if j != ti && j != ti + 1 {
                assert(nq[j] == qs[j]);
            }
        }
        assert(sound(s, nq, d));
        let j = choose|j: int| (j >= 1 || j >= ti) && j <= d && (#[trigger] qs[j]).len() > 0;
        if j == ti {
            lemma_best_index(q);
            let top = q[best_index(q)];
            assert(top.wf());
            lemma_some_legal_move(top);
            lemma_expand_all_at(top, t == 0);
            assert(r.1.len() > 0);
            assert(nq[ti + 1].len() > 0);
            assert(progress(nq, ti + 1, d));
        } else {
            assert(nq[j].len() > 0);
            assert(progress(nq, ti + 1, d));
        }
        lemma_sweep_from_sound(s, nq, w, d, t + 1);
    }
}

proof fn lemma_sweeps_sound(s: MazeModel, w: nat, d: nat, n: nat)
    requires
        s.wf(),
        s.height * s.width >= 2,
        w >= 1,
        d >= 1,
    ensures
        sound(s, sweeps(s, w, d, n), d),
        n >= 1 ==> progress(sweeps(s, w, d, n), d as int, d),
        progress(sweeps(s, w, d, n), 0, d),
    decreases n,
{
    if n == 0 {
        let qs = initial_queues(s, d);
        assert forall|t: int| 0 <= t < qs.len() implies all_rooted(s, #[trigger] qs[t], t) && all_at(
            qs[t],
            (s.turn + t) as nat,
        ) by {}
        assert(qs[0].len() > 0);
    } else {
        lemma_sweeps_sound(s, w, d, (n - 1) as nat);
        let prev = sweeps(s, w, d, (n - 1) as nat);
        lemma_sweep_from_sound(s, prev, w, d, 0);
        let qs = sweeps(s, w, d, n);
        let j = choose|j: int| (j >= 1 || j >= d) && j <= d && (#[trigger] qs[j]).len() > 0;
        assert(progress(qs, 0, d));
    }
}

proof fn lemma_deepest_rooted(s: MazeModel, qs: Seq<Seq<MazeModel>>, d: nat, k: int)
    requires
        sound(s, qs, d),
        1 <= k <= d + 1,
        exists|j: int| 1 <= j < k && (#[trigger] qs[j]).len() > 0,
    ensures
        s.legal(deepest_answer(qs, k) as int),
    decreases k,
{
    if qs[k - 1].len() > 0 {
        let j = choose|j: int| 1 <= j < k && (#[trigger] qs[j]).len() > 0;
        lemma_best_index(qs[k - 1]);
        assert(all_rooted(s, qs[k - 1], k - 1));
        assert(rooted(s, qs[k - 1][best_index(qs[k - 1])], k - 1));
    } else {
        let j = choose|j: int| 1 <= j < k && (#[trigger] qs[j]).len() > 0;
        assert(j < k - 1);
        lemma_deepest_rooted(s, qs, d, k - 1);
    }
}

/// After one sweep or more, chokudai search of width and depth at least one answers
/// with a move that is legal in the state searched from, on any grid of two cells or more.
pub proof fn law_chokudai_answers_legal_move(s: MazeModel, w: nat, d: nat, n: nat)
    requires
        s.wf(),
        s.height * s.width >= 2,
        w >= 1,
        d >= 1,
        n >= 1,
    ensures
        s.legal(chokudai_spec(s, w, d, n) as int),
{
    lemma_sweeps_sound(s, w, d, n);
    let qs = sweeps(s, w, d, n);
    let j = choose|j: int| (j >= 1 || j >= d) && j <= d && (#[trigger] qs[j]).len() > 0;
    assert(1 <= j < d + 1 && qs[j].len() > 0);
    lemma_deepest_rooted(s, qs, d, (d + 1) as int);
}

} // verus!

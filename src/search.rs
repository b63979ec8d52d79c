use vstd::prelude::*;
use crate::state::{MazeModel, MazeState, NO_ACTION, lemma_advance_wf};
use crate::timer::TimeKeeper;
use crate::laws::{law_chokudai_answers_legal_move, law_greedy_takes_only_value};

verus! {

/// The models of a sequence of states.
pub open spec fn models(v: Seq<MazeState>) -> Seq<MazeModel> {
    v.map_values(|s: MazeState| s@)
}

/// Every state is well formed and has played exactly `turn` turns.
pub open spec fn all_at(q: Seq<MazeModel>, turn: nat) -> bool {
    forall|i: int| 0 <= i < q.len() ==> (#[trigger] q[i]).wf() && q[i].turn == turn
}

/// Index of the first state with the greatest ranking score: the top of a queue.
pub open spec fn best_index(q: Seq<MazeModel>) -> int
    decreases q.len(),
{
    if q.len() <= 1 {
        0
    } else {
        let b = best_index(q.drop_last());
        if q.last().evaluated_score > q[b].evaluated_score {
            q.len() - 1
        } else {
            b
        }
    }
}

/// Pops up to `w` top states from `q`, one after another, and expands each.
/// Gives what is left of `q` and the children, in the order they were made.
pub open spec fn pop_expand(q: Seq<MazeModel>, w: nat, stamp: bool) -> (Seq<MazeModel>, Seq<MazeModel>)
    decreases w,
{
    if w == 0 || q.len() == 0 {
        (q, seq![])
    } else {
        let b = best_index(q);
        let r = pop_expand(q.remove(b), (w - 1) as nat, stamp);
        (r.0, q[b].expand(stamp) + r.1)
    }
}

/// The move of greatest one-step score, the first such in move order.
pub open spec fn greedy_spec(s: MazeModel) -> usize {
    let kids = s.expand(false);
    if kids.len() == 0 {
        NO_ACTION
    } else {
        s.legal_actions()[best_index(kids)]
    }
}

/// One round of beam search: the top `w` states of the beam are expanded, the
/// children form the next beam, and its top becomes the best state. The search
/// stops when no child is left or the best state has played its last turn.
pub open spec fn beam_step(prev: (Seq<MazeModel>, MazeModel, bool), w: nat, stamp: bool) -> (
    Seq<MazeModel>,
    MazeModel,
    bool,
) {
    let next = pop_expand(prev.0, w, stamp).1;
    if next.len() == 0 {
        (next, prev.1, true)
    } else {
        let top = next[best_index(next)];
        (next, top, top.is_done())
    }
}

/// Beam search after `k` rounds: the beam, the best state found, and whether it has stopped.
pub open spec fn beam_state(s: MazeModel, w: nat, k: nat) -> (Seq<MazeModel>, MazeModel, bool)
    decreases k,
{
    if k == 0 {
        (seq![s], s, false)
    } else {
        let prev = beam_state(s, w, (k - 1) as nat);
        if prev.2 {
            prev
        } else {
            beam_step(prev, w, k == 1)
        }
    }
}

/// The move that beam search of width `w` and depth `d` chooses.
pub open spec fn beam_search_spec(s: MazeModel, w: nat, d: nat) -> usize {
    beam_state(s, w, d).1.first_action as usize
}

/// One chokudai sweep, from depth `t` on: each queue hands the children of its
/// top `w` states to the next.
pub open spec fn sweep_from(qs: Seq<Seq<MazeModel>>, w: nat, d: nat, t: nat) -> Seq<Seq<MazeModel>>
    decreases d - t,
{
    if t >= d {
        qs
    } else {
        let r = pop_expand(qs[t as int], w, t == 0);
        sweep_from(qs.update(t as int, r.0).update((t + 1) as int, qs[(t + 1) as int] + r.1), w, d, t + 1)
    }
}

/// The queues of chokudai search of depth `d` before any sweep.
pub open spec fn initial_queues(s: MazeModel, d: nat) -> Seq<Seq<MazeModel>> {
    Seq::new(d + 1, |i: int| if i == 0 { seq![s] } else { seq![] })
}

/// The queues after `n` sweeps.
pub open spec fn sweeps(s: MazeModel, w: nat, d: nat, n: nat) -> Seq<Seq<MazeModel>>
    decreases n,
{
    if n == 0 {
        initial_queues(s, d)
    } else {
        sweep_from(sweeps(s, w, d, (n - 1) as nat), w, d, 0)
    }
}

/// The first move of the top of the deepest non-empty queue among the first `k`.
pub open spec fn deepest_answer(qs: Seq<Seq<MazeModel>>, k: int) -> usize
    decreases k,
{
    if k <= 0 {
        NO_ACTION
    } else if qs[k - 1].len() > 0 {
        qs[k - 1][best_index(qs[k - 1])].first_action as usize
    } else {
        deepest_answer(qs, k - 1)
    }
}

/// The move that chokudai search chooses after `n` sweeps.
pub open spec fn chokudai_spec(s: MazeModel, w: nat, d: nat, n: nat) -> usize {
    deepest_answer(sweeps(s, w, d, n), (d + 1) as int)
}

pub proof fn lemma_best_index(q: Seq<MazeModel>)
    requires
        q.len() > 0,
    ensures
        0 <= best_index(q) < q.len(),
        forall|i: int|
            0 <= i < q.len() ==> (#[trigger] q[i]).evaluated_score <= q[best_index(
                q,
            )].evaluated_score,
        forall|i: int|
            0 <= i < best_index(q) ==> (#[trigger] q[i]).evaluated_score < q[best_index(
                q,
            )].evaluated_score,
    decreases q.len(),
{
    if q.len() > 1 {
        let p = q.drop_last();
        lemma_best_index(p);
        let b = best_index(q);
        assert forall|i: int| 0 <= i < q.len() implies (#[trigger] q[i]).evaluated_score
            <= q[b].evaluated_score by {
            if i < p.len() {
                assert(q[i] == p[i]);
            }
        }
        assert forall|i: int| 0 <= i < b implies (#[trigger] q[i]).evaluated_score
            < q[b].evaluated_score by {
            assert(q[i] == p[i]);
        }
    }
}

/// Two queues whose ranking scores agree place the same state on top.
pub proof fn lemma_best_index_scores(p: Seq<MazeModel>, q: Seq<MazeModel>)
    requires
        p.len() == q.len(),
        forall|i: int| 0 <= i < p.len() ==> (#[trigger] p[i]).evaluated_score == q[i].evaluated_score,
    ensures
        best_index(p) == best_index(q),
    decreases p.len(),
{
    if p.len() > 1 {
        lemma_best_index_scores(p.drop_last(), q.drop_last());
        if p.len() > 2 {
            lemma_best_index(p.drop_last());
        }
    }
}

pub proof fn lemma_legal_prefix(m: MazeModel, k: nat)
    requires
        k <= 4,
    ensures
        forall|i: int|
            0 <= i < m.legal_prefix(k).len() ==> m.legal(#[trigger] m.legal_prefix(k)[i] as int),
        m.legal_prefix(k).len() <= k,
    decreases k,
{
    if k > 0 {
        lemma_legal_prefix(m, (k - 1) as nat);
    }
}

pub proof fn lemma_expand_all_at(m: MazeModel, stamp: bool)
    requires
        m.wf(),
    ensures
        all_at(m.expand(stamp), m.turn + 1),
        m.expand(stamp).len() == m.legal_actions().len(),
{
    lemma_legal_prefix(m, 4);
    assert forall|i: int| 0 <= i < m.expand(stamp).len() implies (#[trigger] m.expand(
        stamp,
    )[i]).wf() && m.expand(stamp)[i].turn == m.turn + 1 by {
        let a = m.legal_actions()[i];
        assert(m.legal(a as int));
        lemma_advance_wf(m, a as int);
    }
}

pub proof fn lemma_pop_expand_all_at(q: Seq<MazeModel>, w: nat, stamp: bool, turn: nat)
    requires
        all_at(q, turn),
    ensures
        all_at(pop_expand(q, w, stamp).0, turn),
        all_at(pop_expand(q, w, stamp).1, turn + 1),
    decreases w,
{
    if w > 0 && q.len() > 0 {
        let b = best_index(q);
        lemma_best_index(q);
        let rest = q.remove(b);
        assert(all_at(rest, turn)) by {
            assert forall|i: int| 0 <= i < rest.len() implies (#[trigger] rest[i]).wf()
                && rest[i].turn == turn by {
                if i < b {
                    assert(rest[i] == q[i]);
                } else {
                    assert(rest[i] == q[i + 1]);
                }
            }
        }
        lemma_pop_expand_all_at(rest, (w - 1) as nat, stamp, turn);
        lemma_expand_all_at(q[b], stamp);
        let kids = q[b].expand(stamp);
        let more = pop_expand(rest, (w - 1) as nat, stamp).1;
        assert forall|i: int| 0 <= i < (kids + more).len() implies (#[trigger] (kids + more)[i]).wf()
            && (kids + more)[i].turn == turn + 1 by {
            if i < kids.len() {
                assert((kids + more)[i] == kids[i]);
            } else {
                assert((kids + more)[i] == more[i - kids.len()]);
            }
        }
    }
}

/// Index of the top of a non-empty queue.
fn top_index(q: &Vec<MazeState>) -> (r: usize)
    requires
        q.len() > 0,
    ensures
        r == best_index(models(q@)),
        r < q.len(),
{
    let ghost m = models(q@);
    let mut b: usize = 0;
    let mut i: usize = 1;
    while i < q.len()
        invariant
            m == models(q@),
            1 <= i <= q.len(),
            b < i,
            b == best_index(m.subrange(0, i as int)),
        decreases q.len() - i,
    {
        proof {
            assert(m.subrange(0, i + 1).drop_last() =~= m.subrange(0, i as int));
        }
        if q[i].evaluated_score_ > q[b].evaluated_score_ {
            b = i;
        }
        i += 1;
    }
    proof {
        assert(m.subrange(0, q.len() as int) =~= m);
    }
    b
}

/// Appends to `out` the child of every legal move of `s`.
fn push_children(s: &MazeState, stamp: bool, out: &mut Vec<MazeState>)
    requires
        s.wf(),
        s.turn_ < usize::MAX,
    ensures
        models(final(out)@) == models(old(out)@) + s@.expand(stamp),
{
    let acts = s.legalActions();
    proof {
        lemma_legal_prefix(s@, 4);
    }
    let ghost kids = s@.expand(stamp);
    let mut k: usize = 0;
    while k < acts.len()
        invariant
            s.wf(),
            s.turn_ < usize::MAX,
            acts@ == s@.legal_actions(),
            kids == s@.expand(stamp),
            forall|i: int| 0 <= i < acts@.len() ==> s@.legal(#[trigger] acts@[i] as int),
            k <= acts.len(),
            models(out@) == models(old(out)@) + kids.subrange(0, k as int),
        decreases acts.len() - k,
    {
        let a = acts[k];
        let mut c = s.duplicate();
        c.advance(a);
        c.evaluateScore();
        if stamp {
            c.first_action_ = a;
        }
        proof {
            assert(c@ == kids[k as int]);
        }
        let ghost prev = out@;
        out.push(c);
        proof {
            let target = models(old(out)@) + kids.subrange(0, k + 1);
            assert(models(prev).len() == old(out)@.len() + k);
            assert forall|j: int| 0 <= j < out@.len() implies #[trigger] models(out@)[j]
                == target[j] by {
                if j < prev.len() {
                    assert(out@[j] == prev[j]);
                    assert(models(prev)[j] == prev[j]@);
                    if j < old(out)@.len() {
                        assert(models(prev)[j] == models(old(out)@)[j]);
                    } else {
                        assert(models(prev)[j] == kids.subrange(0, k as int)[j - old(out)@.len()]);
                    }
                }
            }
            assert(models(out@) =~= target);
        }
        k += 1;
    }
    proof {
        assert(kids.subrange(0, k as int) =~= kids);
    }
}

/// Pops up to `w` top states from `q` and appends their children to `out`.
fn pop_and_expand(q: &mut Vec<MazeState>, out: &mut Vec<MazeState>, w: usize, stamp: bool)
    requires
        forall|i: int|
            0 <= i < old(q)@.len() ==> (#[trigger] old(q)@[i]).wf() && old(q)@[i].turn_
                < usize::MAX,
    ensures
        models(final(q)@) == pop_expand(models(old(q)@), w as nat, stamp).0,
        models(final(out)@) == models(old(out)@) + pop_expand(models(old(q)@), w as nat, stamp).1,
{
    let ghost q0 = models(q@);
    let ghost out0 = models(out@);
    let mut i: usize = 0;
    while i < w && q.len() > 0
        invariant
            i <= w,
            forall|j: int|
                0 <= j < q@.len() ==> (#[trigger] q@[j]).wf() && q@[j].turn_ < usize::MAX,
            pop_expand(q0, w as nat, stamp).0 == pop_expand(models(q@), (w - i) as nat, stamp).0,
            out0 + pop_expand(q0, w as nat, stamp).1 == models(out@) + pop_expand(
                models(q@),
                (w - i) as nat,
                stamp,
            ).1,
        decreases w - i,
    {
        let ghost cur = models(q@);
        let ghost vq = q@;
        let ghost before = models(out@);
        let b = top_index(q);
        let top = q.remove(b);
        proof {
            assert(q@ == vq.remove(b as int));
            assert forall|j: int| 0 <= j < q@.len() implies #[trigger] models(q@)[j] == cur.remove(
                b as int,
            )[j] by {
                if j < b {
                    assert(q@[j] == vq[j]);
                } else {
                    assert(q@[j] == vq[j + 1]);
                }
            }
            assert(models(q@) =~= cur.remove(b as int));
            assert(cur[b as int] == top@);
        }
        push_children(&top, stamp, out);
        proof {
            let r = pop_expand(cur.remove(b as int), (w - i - 1) as nat, stamp);
            assert(pop_expand(cur, (w - i) as nat, stamp) == (r.0, top@.expand(stamp) + r.1));
            assert(before + (top@.expand(stamp) + r.1) =~= models(out@) + r.1);
            assert forall|j: int| 0 <= j < q@.len() implies (#[trigger] q@[j]).wf() && q@[j].turn_
                < usize::MAX by {
                if j < b {
                    assert(q@[j] == vq[j]);
                } else {
                    assert(q@[j] == vq[j + 1]);
                }
            }
        }
        i += 1;
    }
}

pub proof fn lemma_models_all_at(v: Seq<MazeState>, turn: nat)
    requires
        all_at(models(v), turn),
    ensures
        forall|i: int| 0 <= i < v.len() ==> (#[trigger] v[i]).wf() && v[i].turn_ == turn,
{
    assert forall|i: int| 0 <= i < v.len() implies (#[trigger] v[i]).wf() && v[i].turn_ == turn by {
        assert(models(v)[i] == v[i]@);
    }
}

/// Once beam search has stopped, further rounds change nothing.
pub proof fn lemma_beam_stopped(s: MazeModel, w: nat, k: nat, d: nat)
    requires
        k <= d,
        beam_state(s, w, k).2,
    ensures
        beam_state(s, w, d) == beam_state(s, w, k),
    decreases d,
{
    if k < d {
        lemma_beam_stopped(s, w, k, (d - 1) as nat);
    }
}

/// One round of beam search on `now_beam`; gives whether the search stops.
fn beam_round(now_beam: &mut Vec<MazeState>, best: &mut MazeState, w: usize, stamp: bool, turn: usize)
    -> (stopped: bool)
    requires
        turn < usize::MAX,
        all_at(models(old(now_beam)@), turn as nat),
    ensures
        (models(final(now_beam)@), final(best)@, stopped) == beam_step(
            (models(old(now_beam)@), old(best)@, false),
            w as nat,
            stamp,
        ),
        all_at(models(final(now_beam)@), (turn + 1) as nat),
{
    proof {
        lemma_models_all_at(now_beam@, turn as nat);
        lemma_pop_expand_all_at(models(now_beam@), w as nat, stamp, turn as nat);
    }
    let ghost q0 = models(now_beam@);
    let mut next_beam: Vec<MazeState> = Vec::new();
    pop_and_expand(now_beam, &mut next_beam, w, stamp);
    proof {
        assert(models(next_beam@) =~= pop_expand(q0, w as nat, stamp).1);
    }
    *now_beam = next_beam;
    if now_beam.len() == 0 {
        true
    } else {
        let b = top_index(now_beam);
        *best = now_beam[b].duplicate();
        proof {
            assert(models(now_beam@)[b as int] == now_beam@[b as int]@);
        }
        best.isDone()
    }
}

/// The move of greatest one-step score; the first such in move order.
pub fn greedyAction(state: &MazeState) -> (r: usize)
    requires
        state.wf(),
        state.turn_ < usize::MAX,
    ensures
        r == greedy_spec(state@),
        forall|a: int|
            #![trigger state@.legal(a)]
            state@.legal(a) && state@.target_value(a) > 0 && (forall|b: int|
                #[trigger] state@.legal(b) && b != a ==> state@.target_value(b) == 0) ==> r == a,
{
    proof {
        assert forall|a: int|
            #![trigger state@.legal(a)]
            state@.legal(a) && state@.target_value(a) > 0 && (forall|b: int|
                #[trigger] state@.legal(b) && b != a ==> state@.target_value(b) == 0) implies greedy_spec(
            state@,
        ) == a by {
            law_greedy_takes_only_value(state@, a);
        }
    }
    let legal_actions = state.legalActions();
    let mut kids: Vec<MazeState> = Vec::new();
    push_children(state, false, &mut kids);
    proof {
        lemma_expand_all_at(state@, false);
        assert(models(kids@) =~= state@.expand(false));
    }
    if kids.len() == 0 {
        NO_ACTION
    } else {
        let b = top_index(&kids);
        legal_actions[b]
    }
}

/// Beam search of width `beam_width` over at most `beam_depth` rounds; gives the first
/// move toward the best state found.
pub fn beamSearchAction(state: &MazeState, beam_width: usize, beam_depth: usize) -> (r: usize)
    requires
        state.wf(),
        state.turn_ + beam_depth <= usize::MAX,
    ensures
        r == beam_search_spec(state@, beam_width as nat, beam_depth as nat),
{
    let ghost w = beam_width as nat;
    let mut now_beam: Vec<MazeState> = Vec::new();
    now_beam.push(state.duplicate());
    let mut best_state = state.duplicate();
    let mut stopped = false;
    let mut t: usize = 0;
    proof {
        assert(models(now_beam@) =~= seq![state@]);
    }
    while t < beam_depth && !stopped
        invariant
            t <= beam_depth,
            w == beam_width as nat,
            state.turn_ + beam_depth <= usize::MAX,
            models(now_beam@) == beam_state(state@, w, t as nat).0,
            best_state@ == beam_state(state@, w, t as nat).1,
            stopped == beam_state(state@, w, t as nat).2,
            all_at(models(now_beam@), (state.turn_ + t) as nat),
        decreases beam_depth - t,
    {
        proof {
            assert(beam_state(state@, w, (t + 1) as nat) == beam_step(
                beam_state(state@, w, t as nat),
                w,
                t == 0,
            ));
        }
        stopped = beam_round(&mut now_beam, &mut best_state, beam_width, t == 0, state.turn_ + t);
        t += 1;
    }
    proof {
        if stopped {
            lemma_beam_stopped(state@, w, t as nat, beam_depth as nat);
        }
    }
    best_state.first_action_
}

/// Beam search of width `beam_width` with as many rounds as `time_threshold` milliseconds
/// allow; the clock is read before each round.
pub fn beamSearchActionWithTimeThreshold(state: &MazeState, beam_width: usize, time_threshold: u32)
    -> (r: usize)
    requires
        state.wf(),
    ensures
        exists|k: nat| r == beam_search_spec(state@, beam_width as nat, k),
        time_threshold == 0 ==> r == state.first_action_,
{
    let ghost w = beam_width as nat;
    let time_keeper = TimeKeeper::new(time_threshold);
    let mut now_beam: Vec<MazeState> = Vec::new();
    now_beam.push(state.duplicate());
    let mut best_state = state.duplicate();
    let mut stopped = false;
    let mut over = false;
    let mut t: usize = 0;
    let limit: usize = usize::MAX - state.turn_;
    proof {
        assert(models(now_beam@) =~= seq![state@]);
    }
    while t < limit && !stopped && !over
        invariant
            t <= limit,
            w == beam_width as nat,
            limit == usize::MAX - state.turn_,
            time_keeper.time_threshold_ == time_threshold,
            time_threshold == 0 ==> t == 0,
            models(now_beam@) == beam_state(state@, w, t as nat).0,
            best_state@ == beam_state(state@, w, t as nat).1,
            stopped == beam_state(state@, w, t as nat).2,
            all_at(models(now_beam@), (state.turn_ + t) as nat),
        decreases (limit - t) * 2 + if over {
            0int
        } else {
            1int
        },
    {
        if time_keeper.isTimeOver() {
            over = true;
        } else {
            proof {
                assert(beam_state(state@, w, (t + 1) as nat) == beam_step(
                    beam_state(state@, w, t as nat),
                    w,
                    t == 0,
                ));
            }
            stopped = beam_round(&mut now_beam, &mut best_state, beam_width, t == 0, state.turn_ + t);
            t += 1;
        }
    }
    proof {
        assert(best_state.first_action_ == beam_search_spec(state@, w, t as nat));
    }
    best_state.first_action_
}

/// The models of the states in each queue.
pub open spec fn queue_models(v: Seq<Vec<MazeState>>) -> Seq<Seq<MazeModel>> {
    v.map_values(|b: Vec<MazeState>| models(b@))
}

/// The states of queue `i` are well formed and have played `turn + i` turns.
pub open spec fn queues_at(qs: Seq<Seq<MazeModel>>, turn: nat) -> bool {
    forall|i: int| 0 <= i < qs.len() ==> all_at(#[trigger] qs[i], (turn + i) as nat)
}

pub proof fn lemma_all_at_concat(a: Seq<MazeModel>, b: Seq<MazeModel>, turn: nat)
    requires
        all_at(a, turn),
        all_at(b, turn),
    ensures
        all_at(a + b, turn),
{
    assert forall|i: int| 0 <= i < (a + b).len() implies (#[trigger] (a + b)[i]).wf() && (a
        + b)[i].turn == turn by {
        if i < a.len() {
            assert((a + b)[i] == a[i]);
        } else {
            assert((a + b)[i] == b[i - a.len()]);
        }
    }
}

/// One chokudai sweep: for each depth below `d`, the top `w` states of its queue are
/// expanded into the queue of the next depth.
fn sweep(beam: &mut Vec<Vec<MazeState>>, w: usize, d: usize, turn: usize)
    requires
        old(beam).len() == d + 1,
        turn + d <= usize::MAX,
        queues_at(queue_models(old(beam)@), turn as nat),
    ensures
        queue_models(final(beam)@) == sweep_from(queue_models(old(beam)@), w as nat, d as nat, 0),
        final(beam).len() == d + 1,
        queues_at(queue_models(final(beam)@), turn as nat),
{
    let ghost orig = queue_models(beam@);
    let mut t: usize = 0;
    while t < d
        invariant
            t <= d,
            beam.len() == d + 1,
            turn + d <= usize::MAX,
            queues_at(queue_models(beam@), turn as nat),
            sweep_from(orig, w as nat, d as nat, 0) == sweep_from(
                queue_models(beam@),
                w as nat,
                d as nat,
                t as nat,
            ),
        decreases d - t,
    {
        let ghost qs = queue_models(beam@);
        let ghost vb = beam@;
        let mut cur = beam.remove(t);
        let mut next = beam.remove(t);
        proof {
            assert(cur == vb[t as int]);
            assert(next == vb[t + 1]);
            assert(qs[t as int] == models(cur@));
            assert(qs[t + 1] == models(next@));
            assert(all_at(qs[t as int], (turn + t) as nat));
            assert(all_at(qs[t + 1], (turn + t + 1) as nat));
            lemma_models_all_at(cur@, (turn + t) as nat);
            lemma_pop_expand_all_at(qs[t as int], w as nat, t == 0, (turn + t) as nat);
        }
        pop_and_expand(&mut cur, &mut next, w, t == 0);
        let ghost cur_f = cur;
        let ghost next_f = next;
        beam.insert(t, next);
        beam.insert(t, cur);
        proof {
            let r = pop_expand(qs[t as int], w as nat, t == 0);
            let nq = qs.update(t as int, r.0).update(t + 1, qs[t + 1] + r.1);
            assert(beam@ =~= vb.update(t as int, cur_f).update(t + 1, next_f));
            assert(queue_models(beam@) =~= nq);
            lemma_all_at_concat(qs[t + 1], r.1, (turn + t + 1) as nat);
            assert forall|i: int| 0 <= i < nq.len() implies all_at(
                #[trigger] nq[i],
                (turn + i) as nat,
            ) by {
                if i != t && i != t + 1 {
                    assert(nq[i] == qs[i]);
                }
            }
        }
        t += 1;
    }
}

/// The first move recorded by the top of the deepest non-empty queue.
fn deepest_first_action(beam: &Vec<Vec<MazeState>>) -> (r: usize)
    ensures
        r == deepest_answer(queue_models(beam@), beam.len() as int),
{
    let ghost qs = queue_models(beam@);
    let mut k: usize = beam.len();
    while k > 0
        invariant
            k <= beam.len(),
            qs == queue_models(beam@),
            deepest_answer(qs, beam.len() as int) == deepest_answer(qs, k as int),
        decreases k,
    {
        proof {
            assert(qs[k - 1] == models(beam@[k - 1]@));
        }
        if beam[k - 1].len() > 0 {
            let b = top_index(&beam[k - 1]);
            proof {
                assert(qs[k - 1][b as int] == beam@[k - 1]@[b as int]@);
            }
            return beam[k - 1][b].first_action_;
        }
        k -= 1;
    }
    NO_ACTION
}

/// The queues of chokudai search of depth `d`, holding `state` at depth zero.
fn initial_beam(state: &MazeState, d: usize) -> (r: Vec<Vec<MazeState>>)
    requires
        state.wf(),
        d < usize::MAX,
    ensures
        queue_models(r@) == initial_queues(state@, d as nat),
        r.len() == d + 1,
        queues_at(queue_models(r@), state.turn_ as nat),
{
    let mut beam: Vec<Vec<MazeState>> = Vec::new();
    let mut first: Vec<MazeState> = Vec::new();
    first.push(state.duplicate());
    beam.push(first);
    let ghost init = initial_queues(state@, d as nat);
    proof {
        assert(models(beam@[0]@) =~= seq![state@]);
        assert(queue_models(beam@) =~= init.subrange(0, 1));
    }
    let mut i: usize = 0;
    while i < d
        invariant
            i <= d,
            d < usize::MAX,
            beam.len() == i + 1,
            init == initial_queues(state@, d as nat),
            queue_models(beam@) == init.subrange(0, i + 1),
        decreases d - i,
    {
        let ghost prev = beam@;
        beam.push(Vec::new());
        proof {
            assert(beam@[i + 1]@ =~= Seq::<MazeState>::empty());
            assert(models(beam@[i + 1]@) =~= Seq::<MazeModel>::empty());
            assert forall|j: int| 0 <= j <= i implies beam@[j] == prev[j] by {}
            assert(queue_models(beam@) =~= init.subrange(0, i + 2));
        }
        i += 1;
    }
    proof {
        assert(init.subrange(0, d + 1) =~= init);
        assert forall|j: int| 0 <= j < init.len() implies all_at(
            #[trigger] init[j],
            (state.turn_ + j) as nat,
        ) by {}
    }
    beam
}

/// Chokudai search: `beam_number` sweeps over queues of depth `0..=beam_depth`, each
/// expanding the top `beam_width` states of every depth into the next; gives the first
/// move of the top of the deepest non-empty queue.
pub fn chokudaiSearchAction(
    state: &MazeState,
    beam_width: usize,
    beam_depth: usize,
    beam_number: usize,
) -> (r: usize)
    requires
        state.wf(),
        state.turn_ + beam_depth < usize::MAX,
    ensures
        r == chokudai_spec(state@, beam_width as nat, beam_depth as nat, beam_number as nat),
        beam_width >= 1 && beam_depth >= 1 && beam_number >= 1 && state@.height * state@.width >= 2
            ==> state@.legal(r as int),
{
    proof {
        if beam_width >= 1 && beam_depth >= 1 && beam_number >= 1 && state@.height * state@.width
            >= 2 {
            law_chokudai_answers_legal_move(
                state@,
                beam_width as nat,
                beam_depth as nat,
                beam_number as nat,
            );
        }
    }
    let mut beam = initial_beam(state, beam_depth);
    let mut cnt: usize = 0;
    while cnt < beam_number
        invariant
            cnt <= beam_number,
            state.turn_ + beam_depth < usize::MAX,
            beam.len() == beam_depth + 1,
            queues_at(queue_models(beam@), state.turn_ as nat),
            queue_models(beam@) == sweeps(
                state@,
                beam_width as nat,
                beam_depth as nat,
                cnt as nat,
            ),
        decreases beam_number - cnt,
    {
        sweep(&mut beam, beam_width, beam_depth, state.turn_);
        cnt += 1;
    }
    deepest_first_action(&beam)
}

/// Chokudai search that sweeps until `time_threshold` milliseconds have passed; the
/// clock is read after each full sweep, so at least one sweep is made.
pub fn chokudaiSearchActionWithThreshold(
    state: &MazeState,
    beam_width: usize,
    beam_depth: usize,
    time_threshold: u32,
) -> (r: usize)
    requires
        state.wf(),
        state.turn_ + beam_depth < usize::MAX,
    ensures
        exists|n: nat|
            n >= 1 && r == chokudai_spec(state@, beam_width as nat, beam_depth as nat, n),
        time_threshold == 0 ==> r == chokudai_spec(
            state@,
            beam_width as nat,
            beam_depth as nat,
            1,
        ),
        beam_width >= 1 && beam_depth >= 1 && state@.height * state@.width >= 2 ==> state@.legal(
            r as int,
        ),
{
    let time_keeper = TimeKeeper::new(time_threshold);
    let mut beam = initial_beam(state, beam_depth);
    let mut cnt: usize = 0;
    let mut over = false;
    while !over && cnt < usize::MAX
        invariant
            state.turn_ + beam_depth < usize::MAX,
            time_keeper.time_threshold_ == time_threshold,
            over ==> cnt >= 1,
            time_threshold == 0 ==> cnt <= 1 && (cnt == 1 ==> over),
            beam.len() == beam_depth + 1,
            queues_at(queue_models(beam@), state.turn_ as nat),
            queue_models(beam@) == sweeps(
                state@,
                beam_width as nat,
                beam_depth as nat,
                cnt as nat,
            ),
        decreases usize::MAX - cnt,
    {
        sweep(&mut beam, beam_width, beam_depth, state.turn_);
        cnt += 1;
        if time_keeper.isTimeOver() {
            over = true;
        }
    }
    let r = deepest_first_action(&beam);
    proof {
        assert(r == chokudai_spec(state@, beam_width as nat, beam_depth as nat, cnt as nat));
        if beam_width >= 1 && beam_depth >= 1 && state@.height * state@.width >= 2 {
            law_chokudai_answers_legal_move(
                state@,
                beam_width as nat,
                beam_depth as nat,
                cnt as nat,
            );
        }
    }
    r
}

} // verus!

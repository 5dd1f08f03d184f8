//! Principal variation search with one-reply extensions, internal iterative
//! deepening, late move reductions and a history heuristic trained by ridge
//! regression.

use std::collections::HashMap;
use std::collections::VecDeque;
use std::hash::BuildHasher;

use vstd::prelude::*;
use vstd::std_specs::hash::builds_valid_hashers;

use crate::game::GameState;

verus! {

broadcast use vstd::std_specs::hash::group_hash_axioms;

/// The search window's infinity: every score lies within `[-INF, INF]`.
pub const INF: i32 = 3072;

/// The deepest search that [`search`] accepts in an unfinished position:
/// beyond it, no bound on the history weights keeps every update within
/// `i32`.
pub const MAX_DEPTH: i32 = 1_789_569;

/// Integer division rounding toward zero, as Rust's `/` on signed integers.
pub open spec fn trunc_div(a: int, b: int) -> int {
    if a >= 0 {
        a / b
    } else {
        -((-a) / b)
    }
}

/// One gradient descent step on the ridge regression `(x - target)^2 + x^2`
/// from `x = pred`, with step size `1/300`.
pub open spec fn ridge_value(pred: int, target: int) -> int {
    pred - trunc_div(2 * (pred - target) + 2 * pred, 300)
}

/// Whether `x` fits in an `i32`.
pub open spec fn fits_i32(x: int) -> bool {
    i32::MIN <= x <= i32::MAX
}

/// Whether every intermediate result of [`ridge_descent`] on `pred` and
/// `target` fits in an `i32`.
pub open spec fn ridge_fits(pred: int, target: int) -> bool {
    &&& fits_i32(pred - target)
    &&& fits_i32(2 * (pred - target))
    &&& fits_i32(2 * pred)
    &&& fits_i32(2 * (pred - target) + 2 * pred)
    &&& fits_i32(pred - trunc_div(2 * (pred - target) + 2 * pred, 300))
}

/// The largest bonus, `300 * d - 250`, that a search to `depth` trains the
/// history with: `d` is at most `depth + 1`, one more after a forced move.
pub open spec fn bonus_bound(depth: int) -> int {
    300 * (depth + 1) - 250
}

/// Whether history weights of magnitude at most `cap` stay so, with every
/// intermediate result within `i32`, under ridge descent steps toward
/// targets of magnitude at most `bonus_bound(depth)`.
pub open spec fn cap_fits(cap: int, depth: int) -> bool {
    &&& 4 * cap + 2 * bonus_bound(depth) <= i32::MAX
    &&& 2 * bonus_bound(depth) + 300 <= 4 * cap
}

/// The largest magnitude of a weight from which a ridge descent step toward
/// a target of magnitude `bonus_bound(depth)`, the bonus of a node of
/// extended depth `depth + 1`, fits in `i32`.
pub open spec fn weight_cap(depth: int) -> int {
    (i32::MAX - 2 * bonus_bound(depth)) / 4
}

/// Whether ridge descent steps toward targets of magnitude at most
/// `bonus_bound(depth)` keep a weight of magnitude at most `cap` so.
pub open spec fn cap_kept(cap: int, depth: int) -> bool {
    2 * bonus_bound(depth) + 300 <= 4 * cap
}

/// Whether the weight of `mov`, if it has one, has magnitude at most `cap`.
pub open spec fn weight_within(history: Map<u64, i32>, mov: u64, cap: int) -> bool {
    history.contains_key(mov) ==> -cap <= history[mov] <= cap
}

/// Whether every weight bound that a search to `depth` keeps holds of
/// `after` wherever it held of `before`: the search moves no weight away
/// from zero beyond such a bound.
pub open spec fn keeps_bounds(before: Map<u64, i32>, after: Map<u64, i32>, depth: int) -> bool {
    forall|m: u64, c: int|
        cap_kept(c, depth) && weight_within(before, m, c) ==> #[trigger] weight_within(
            after,
            m,
            c,
        )
}

/// Whether every weight that a search of `game` to `depth`, trying `pv`
/// first, can update is small enough for its update to fit in `i32`: the
/// weights of the legal moves of every position that the search can reach
/// with depth left, and of the moves of `pv` along its line. A node whose
/// depth, extended after a forced move, is `d` updates with bonus
/// `300 * d - 250`, so its weights must lie within `weight_cap(d - 1)`.
pub open spec fn weights_fit<G: GameState>(
    history: Map<u64, i32>,
    depth: int,
    pv: Seq<u64>,
    game: G,
) -> bool
    decreases depth_measure(depth), game.forced_horizon(),
{
    if depth <= 0 || game.finished() {
        true
    } else {
        let moves = game.legal_moves();
        let d = if moves.len() == 1 {
            depth + 1
        } else {
            depth
        };
        proof {
            if moves.len() == 1 {
                assert forall|m: u64| #[trigger] game.after(m).forced_horizon() < game.forced_horizon() by {
                    game.lemma_forced_shortens(m);
                }
            }
        }
        &&& forall|k: int|
            0 <= k < moves.len() ==> weight_within(history, #[trigger] moves[k], weight_cap(d - 1))
        &&& forall|k: int|
            0 <= k < moves.len() ==> weights_fit(
                history,
                d - 1,
                Seq::empty(),
                game.after(#[trigger] moves[k]),
            )
        &&& pv.len() > 0 ==> {
            &&& weight_within(history, pv[0], weight_cap(d - 1))
            &&& weights_fit(history, d - 1, pv.drop_first(), game.after(pv[0]))
        }
    }
}

/// `0` in a forced position (a single legal move), `1` otherwise: a forced
/// move does not use up depth.
pub open spec fn choice<G: GameState>(game: G) -> nat {
    if game.legal_moves().len() == 1 {
        0
    } else {
        1
    }
}

/// The history weight of `mov`, `0` when it has none yet.
pub open spec fn history_weight(history: Map<u64, i32>, mov: u64) -> i32 {
    if history.contains_key(mov) {
        history[mov]
    } else {
        0
    }
}

/// The sort key of `mov`: its history weight, below every weight when absent.
pub open spec fn rank(history: Map<u64, i32>, mov: u64) -> int {
    if history.contains_key(mov) {
        history[mov] as int
    } else {
        i32::MIN - 1
    }
}

/// Where a stable insertion places `mov` in `sorted`: after every move whose
/// rank is at least its own.
pub open spec fn insertion_point(sorted: Seq<u64>, history: Map<u64, i32>, mov: u64) -> nat
    decreases sorted.len(),
{
    if sorted.len() == 0 {
        0
    } else if rank(history, sorted.last()) >= rank(history, mov) {
        sorted.len()
    } else {
        insertion_point(sorted.drop_last(), history, mov)
    }
}

/// `moves` sorted by decreasing rank, keeping the generation order among
/// moves of equal rank.
pub open spec fn order_by_history(moves: Seq<u64>, history: Map<u64, i32>) -> Seq<u64>
    decreases moves.len(),
{
    if moves.len() == 0 {
        Seq::empty()
    } else {
        let sorted = order_by_history(moves.drop_last(), history);
        sorted.insert(insertion_point(sorted, history, moves.last()) as int, moves.last())
    }
}

/// The positive part of a depth, which every recursive call decreases
/// unless it moves to a later position.
pub open spec fn depth_measure(depth: int) -> nat {
    if depth > 0 {
        depth as nat
    } else {
        0
    }
}

/// The search state carried from one move of a node to the next.
#[verifier::ext_equal]
pub struct Frame {
    pub alpha: int,
    pub best: int,
    pub pv: Seq<u64>,
    pub history: Map<u64, i32>,
    pub cut: bool,
}

/// The score, principal variation and history that principal variation
/// search with window `(alpha, beta)` and depth `depth` produces from `game`,
/// starting from principal variation `pv` and history `history`.
pub open spec fn pvs_spec<G: GameState>(
    alpha: int,
    beta: int,
    depth: int,
    pv: Seq<u64>,
    history: Map<u64, i32>,
    game: G,
) -> (int, Seq<u64>, Map<u64, i32>)
    decreases depth_measure(depth), game.forced_horizon(), 2nat, 0nat,
{
    if depth <= 0 || game.finished() {
        (game.score(), pv, history)
    } else {
        let moves = game.legal_moves();
        let d = if moves.len() == 1 {
            depth + 1
        } else {
            depth
        };
        let deepened = if pv.len() == 0 && d > 3 {
            pvs_spec(alpha, beta, d - 3, pv, history, game)
        } else {
            (0, pv, history)
        };
        let pv1 = deepened.1;
        let h1 = deepened.2;
        if pv1.len() > 0 {
            let mov = pv1[0];
            proof {
                if moves.len() == 1 {
                    game.lemma_forced_shortens(mov);
                }
            }
            let child = pvs_spec(-beta, -alpha, d - 1, pv1.drop_first(), h1, game.after(mov));
            let score = -child.0;
            let best = if score > -INF {
                score
            } else {
                -INF as int
            };
            let alpha2 = if score > alpha {
                score
            } else {
                alpha
            };
            let line = seq![mov] + child.1;
            let theta = history_weight(child.2, mov) as int;
            let bonus = 300 * d - 250;
            if alpha2 >= beta {
                (best, line, child.2.insert(mov, ridge_value(theta, bonus) as i32))
            } else {
                let h2 = child.2.insert(mov, ridge_value(theta, -bonus) as i32);
                let order = order_by_history(moves, h2);
                let start = Frame { alpha: alpha2, best, pv: line, history: h2, cut: false };
                let fin = sweep(game, beta, d, Some(mov), order, 0, start);
                (fin.best, fin.pv, fin.history)
            }
        } else {
            let order = order_by_history(moves, h1);
            let start = Frame { alpha, best: -INF as int, pv: pv1, history: h1, cut: false };
            let fin = sweep(game, beta, d, None, order, 0, start);
            (fin.best, fin.pv, fin.history)
        }
    }
}

/// Searches the moves `order[i..]` in turn until one of them produces a cut.
pub open spec fn sweep<G: GameState>(
    game: G,
    beta: int,
    d: int,
    skip: Option<u64>,
    order: Seq<u64>,
    i: int,
    frame: Frame,
) -> Frame
    decreases depth_measure(d - 1) + choice(game), game.forced_horizon(), 1nat, (if 0 <= i < order.len() {
        order.len() - i
    } else {
        0
    }) as nat,
{
    if 0 <= i < order.len() && !game.finished() {
        if skip == Some(order[i]) {
            sweep(game, beta, d, skip, order, i + 1, frame)
        } else {
            let next = step_outcome(beta, d, order[i], frame, step_searches(game, beta, d, order[i], frame));
            if next.cut {
                next
            } else {
                sweep(game, beta, d, skip, order, i + 1, next)
            }
        }
    } else {
        frame
    }
}

/// Whether `moves` is sorted by decreasing rank.
pub open spec fn ranked(moves: Seq<u64>, history: Map<u64, i32>) -> bool {
    forall|i: int, j: int|
        0 <= i < j < moves.len() ==> rank(history, #[trigger] moves[i]) >= rank(
            history,
            #[trigger] moves[j],
        )
}

proof fn lemma_insertion_point(sorted: Seq<u64>, history: Map<u64, i32>, mov: u64)
    requires
        ranked(sorted, history),
    ensures
        insertion_point(sorted, history, mov) <= sorted.len(),
        forall|i: int|
            0 <= i < insertion_point(sorted, history, mov) ==> rank(history, #[trigger] sorted[i])
                >= rank(history, mov),
        forall|i: int|
            insertion_point(sorted, history, mov) <= i < sorted.len() ==> rank(
                history,
                #[trigger] sorted[i],
            ) < rank(history, mov),
    decreases sorted.len(),
{
    if sorted.len() > 0 && rank(history, sorted.last()) < rank(history, mov) {
        let rest = sorted.drop_last();
        assert(ranked(rest, history)) by {
            assert forall|i: int, j: int| 0 <= i < j < rest.len() implies rank(
                history,
                #[trigger] rest[i],
            ) >= rank(history, #[trigger] rest[j]) by {
                assert(rest[i] == sorted[i] && rest[j] == sorted[j]);
            }
        }
        lemma_insertion_point(rest, history, mov);
        assert forall|i: int|
            0 <= i < insertion_point(sorted, history, mov) implies rank(
                history,
                #[trigger] sorted[i],
            ) >= rank(history, mov) by {
            assert(sorted[i] == rest[i]);
        }
        assert forall|i: int|
            insertion_point(sorted, history, mov) <= i < sorted.len() implies rank(
                history,
                #[trigger] sorted[i],
            ) < rank(history, mov) by {
            if i < sorted.len() - 1 {
                assert(sorted[i] == rest[i]);
            }
        }
    } else if sorted.len() > 0 {
        assert forall|i: int|
            0 <= i < insertion_point(sorted, history, mov) implies rank(
                history,
                #[trigger] sorted[i],
            ) >= rank(history, mov) by {
            if i < sorted.len() - 1 {
                assert(rank(history, sorted[i]) >= rank(history, sorted[sorted.len() - 1]));
            }
        }
    }
}

/// The move order is a rearrangement of the moves, sorted by decreasing
/// history weight with unweighted moves last.
pub proof fn law_order_by_history_sorts(moves: Seq<u64>, history: Map<u64, i32>)
    ensures
        order_by_history(moves, history).to_multiset() == moves.to_multiset(),
        ranked(order_by_history(moves, history), history),
    decreases moves.len(),
{
    broadcast use vstd::seq_lib::to_multiset_insert, vstd::seq_lib::to_multiset_build;

    if moves.len() == 0 {
        assert(moves =~= Seq::<u64>::empty());
    } else {
        let rest = moves.drop_last();
        let x = moves.last();
        law_order_by_history_sorts(rest, history);
        let sorted = order_by_history(rest, history);
        lemma_insertion_point(sorted, history, x);
        let p = insertion_point(sorted, history, x) as int;
        let out = sorted.insert(p, x);
        assert(moves =~= rest.push(x));
        assert forall|i: int, j: int| 0 <= i < j < out.len() implies rank(
            history,
            #[trigger] out[i],
        ) >= rank(history, #[trigger] out[j]) by {
            if i < p {
                assert(out[i] == sorted[i]);
            } else if i > p {
                assert(out[i] == sorted[i - 1]);
            }
            if j < p {
                assert(out[j] == sorted[j]);
            } else if j > p {
                assert(out[j] == sorted[j - 1]);
            }
        }
    }
}

proof fn lemma_trunc_div_300(x: int)
    ensures
        x - 300 < 300 * trunc_div(x, 300) < x + 300,
        x >= 0 ==> 0 <= trunc_div(x, 300) <= x,
        x < 0 ==> x <= trunc_div(x, 300) <= 0,
{
    let q = trunc_div(x, 300);
    assert(x - 300 < 300 * q < x + 300) by (nonlinear_arith)
        requires
            q == trunc_div(x, 300),
    {
        if x >= 0 {
            assert(300 * (x / 300) <= x < 300 * (x / 300) + 300);
        } else {
            assert(300 * ((-x) / 300) <= -x < 300 * ((-x) / 300) + 300);
        }
    }
}

/// A ridge descent step from a weight within `cap` toward a target within
/// the bonus bound fits in `i32` and stays within `cap`.
proof fn lemma_ridge_within(pred: int, target: int, cap: int, depth: int)
    requires
        cap_fits(cap, depth),
        -cap <= pred <= cap,
        -bonus_bound(depth) <= target <= bonus_bound(depth),
    ensures
        ridge_fits(pred, target),
        -cap <= ridge_value(pred, target) <= cap,
{
    lemma_trunc_div_300(2 * (pred - target) + 2 * pred);
}

/// Whether `weight_cap(depth)` is a cap that fits at `depth`, for every
/// depth that [`search`] accepts.
proof fn lemma_weight_cap_fits(depth: int)
    requires
        0 <= depth <= MAX_DEPTH,
    ensures
        cap_fits(weight_cap(depth), depth),
        weight_cap(depth) >= 0,
{
}

/// A ridge descent step toward a target within the bonus bound keeps every
/// weight bound that the bonus bound keeps.
proof fn lemma_ridge_shrinks(pred: int, target: int, cap: int, depth: int)
    requires
        cap_kept(cap, depth),
        -cap <= pred <= cap,
        -bonus_bound(depth) <= target <= bonus_bound(depth),
    ensures
        -cap <= ridge_value(pred, target) <= cap,
{
    lemma_trunc_div_300(2 * (pred - target) + 2 * pred);
}

/// The weight caps of the nodes of a search to `depth` are kept by every
/// step of it.
proof fn lemma_node_caps_kept(depth: int, d: int, e: int)
    requires
        0 <= depth <= MAX_DEPTH,
        d <= depth + 1,
        e <= depth,
    ensures
        cap_kept(weight_cap(d - 1), e),
        weight_cap(d - 1) >= weight_cap(depth),
{
    lemma_weight_cap_fits(depth);
}

proof fn lemma_keeps_trans(a: Map<u64, i32>, b: Map<u64, i32>, c: Map<u64, i32>, e1: int, e2: int, e: int)
    requires
        keeps_bounds(a, b, e1),
        keeps_bounds(b, c, e2),
        e1 <= e,
        e2 <= e,
    ensures
        keeps_bounds(a, c, e),
{
    assert forall|m: u64, k: int| cap_kept(k, e) && weight_within(a, m, k) implies #[trigger] weight_within(c, m, k) by {
        assert(cap_kept(k, e1) && cap_kept(k, e2));
        assert(weight_within(b, m, k));
    }
}

proof fn lemma_keeps_weaken(a: Map<u64, i32>, b: Map<u64, i32>, e1: int, e: int)
    requires
        keeps_bounds(a, b, e1),
        e1 <= e,
    ensures
        keeps_bounds(a, b, e),
{
    assert forall|m: u64, k: int| cap_kept(k, e) && weight_within(a, m, k) implies #[trigger] weight_within(b, m, k) by {
        assert(cap_kept(k, e1));
    }
}

/// Setting the weight of `mov` to a ridge descent step from it keeps the
/// bounds of a search to `depth`.
proof fn lemma_keeps_step(history: Map<u64, i32>, mov: u64, target: int, depth: int)
    requires
        -bonus_bound(depth) <= target <= bonus_bound(depth),
        fits_i32(ridge_value(history_weight(history, mov) as int, target)),
    ensures
        keeps_bounds(
            history,
            history.insert(mov, ridge_value(history_weight(history, mov) as int, target) as i32),
            depth,
        ),
{
    let p = history_weight(history, mov) as int;
    let after = history.insert(mov, ridge_value(p, target) as i32);
    assert forall|m: u64, c: int| cap_kept(c, depth) && weight_within(history, m, c) implies #[trigger] weight_within(after, m, c) by {
        if m == mov {
            lemma_ridge_shrinks(p, target, c, depth);
        }
    }
}

/// Fewer plies of search reach fewer weights.
proof fn lemma_fit_shallower<G: GameState>(history: Map<u64, i32>, depth: int, shallower: int, game: G)
    requires
        weights_fit(history, depth, Seq::empty(), game),
        shallower <= depth,
    ensures
        weights_fit(history, shallower, Seq::empty(), game),
    decreases depth_measure(depth), game.forced_horizon(),
{
    if shallower > 0 && !game.finished() {
        let moves = game.legal_moves();
        let d = if moves.len() == 1 {
            depth + 1
        } else {
            depth
        };
        let d2 = if moves.len() == 1 {
            shallower + 1
        } else {
            shallower
        };
        assert forall|k: int| 0 <= k < moves.len() implies weights_fit(
            history,
            d2 - 1,
            Seq::empty(),
            game.after(#[trigger] moves[k]),
        ) by {
            if moves.len() == 1 {
                game.lemma_forced_shortens(moves[k]);
            }
            lemma_fit_shallower(history, d - 1, d2 - 1, game.after(moves[k]));
        }
        assert forall|k: int| 0 <= k < moves.len() implies weight_within(
            history,
            #[trigger] moves[k],
            weight_cap(d2 - 1),
        ) by {
            assert(weight_within(history, moves[k], weight_cap(d - 1)));
        }
    }
}

/// A legal line to try first reaches no weight beyond those of the legal
/// moves.
proof fn lemma_fit_line<G: GameState>(history: Map<u64, i32>, depth: int, pv: Seq<u64>, game: G)
    requires
        weights_fit(history, depth, Seq::empty(), game),
        legal_line(game, pv),
    ensures
        weights_fit(history, depth, pv, game),
    decreases pv.len(),
{
    if depth > 0 && !game.finished() && pv.len() > 0 {
        let moves = game.legal_moves();
        let d = if moves.len() == 1 {
            depth + 1
        } else {
            depth
        };
        let k = choose|k: int| 0 <= k < moves.len() && moves[k] == pv[0];
        assert(weight_within(history, moves[k], weight_cap(d - 1)));
        assert(weights_fit(history, d - 1, Seq::empty(), game.after(moves[k])));
        lemma_fit_line(history, d - 1, pv.drop_first(), game.after(pv[0]));
    }
}

/// Weights that fit stay so under any change that keeps the bounds of the
/// nodes' caps.
proof fn lemma_fit_kept<G: GameState>(
    before: Map<u64, i32>,
    after: Map<u64, i32>,
    e: int,
    depth: int,
    pv: Seq<u64>,
    game: G,
)
    requires
        weights_fit(before, depth, pv, game),
        keeps_bounds(before, after, e),
        0 <= e,
        depth <= MAX_DEPTH,
        forall|d: int| d <= depth + 1 ==> cap_kept(#[trigger] weight_cap(d - 1), e),
    ensures
        weights_fit(after, depth, pv, game),
    decreases depth_measure(depth), game.forced_horizon(),
{
    if depth > 0 && !game.finished() {
        let moves = game.legal_moves();
        let d = if moves.len() == 1 {
            depth + 1
        } else {
            depth
        };
        assert(cap_kept(weight_cap(d - 1), e));
        assert forall|k: int| 0 <= k < moves.len() implies weights_fit(
            after,
            d - 1,
            Seq::empty(),
            game.after(#[trigger] moves[k]),
        ) by {
            if moves.len() == 1 {
                game.lemma_forced_shortens(moves[k]);
            }
            assert(weights_fit(before, d - 1, Seq::empty(), game.after(moves[k])));
            assert forall|d2: int| d2 <= d - 1 + 1 implies cap_kept(#[trigger] weight_cap(d2 - 1), e) by {
                assert(d2 <= depth + 1);
            }
            lemma_fit_kept(before, after, e, d - 1, Seq::empty(), game.after(moves[k]));
        }
        assert forall|k: int| 0 <= k < moves.len() implies weight_within(
            after,
            #[trigger] moves[k],
            weight_cap(d - 1),
        ) by {
            assert(weight_within(before, moves[k], weight_cap(d - 1)));
        }
        if pv.len() > 0 {
            if moves.len() == 1 {
                game.lemma_forced_shortens(pv[0]);
            }
            assert(weight_within(before, pv[0], weight_cap(d - 1)));
            assert(weight_within(after, pv[0], weight_cap(d - 1)));
            assert forall|d2: int| d2 <= d - 1 + 1 implies cap_kept(#[trigger] weight_cap(d2 - 1), e) by {
                assert(d2 <= depth + 1);
            }
            lemma_fit_kept(before, after, e, d - 1, pv.drop_first(), game.after(pv[0]));
        }
    }
}

/// After a change that keeps the bounds of a search to `e`, the weights that
/// a search to `depth` can reach still fit, also when it tries a legal line
/// first.
proof fn lemma_refit<G: GameState>(
    before: Map<u64, i32>,
    after: Map<u64, i32>,
    e: int,
    depth: int,
    line: Seq<u64>,
    game: G,
)
    requires
        weights_fit(before, depth, Seq::empty(), game),
        keeps_bounds(before, after, e),
        0 <= e <= depth <= MAX_DEPTH,
        legal_line(game, line),
    ensures
        weights_fit(after, depth, line, game),
        weights_fit(after, depth, Seq::empty(), game),
{
    assert forall|d2: int| d2 <= depth + 1 implies cap_kept(#[trigger] weight_cap(d2 - 1), e) by {
        lemma_node_caps_kept(depth, d2, e);
    }
    lemma_fit_kept(before, after, e, depth, Seq::empty(), game);
    lemma_fit_line(after, depth, line, game);
}

/// Gradient descent update for the ridge regression `(x - y)^2 + x^2` with
/// step size `1/300`.
pub fn ridge_descent(pred: i32, target: i32) -> (r: i32)
    requires
        ridge_fits(pred as int, target as int),
    ensures
        r == ridge_value(pred as int, target as int),
{
    let grad = 2 * (pred - target) + 2 * pred;
    pred - grad / 300
}

fn weight_of<S: BuildHasher>(history: &HashMap<u64, i32, S>, mov: u64) -> (w: i32)
    requires
        builds_valid_hashers::<S>(),
    ensures
        w == history_weight(history@, mov),
{
    match history.get(&mov) {
        Some(w) => *w,
        None => 0,
    }
}

fn rank_of<S: BuildHasher>(history: &HashMap<u64, i32, S>, mov: u64) -> (r: i64)
    requires
        builds_valid_hashers::<S>(),
    ensures
        r == rank(history@, mov),
{
    match history.get(&mov) {
        Some(w) => *w as i64,
        None => i32::MIN as i64 - 1,
    }
}

/// Sorts `moves` by decreasing history weight, moves without a weight last,
/// keeping the generation order among equal weights.
pub fn sort_by_history<S: BuildHasher>(moves: &Vec<u64>, history: &HashMap<u64, i32, S>) -> (sorted:
    Vec<u64>)
    requires
        builds_valid_hashers::<S>(),
    ensures
        sorted@ == order_by_history(moves@, history@),
{
    let n = moves.len();
    let mut sorted: Vec<u64> = Vec::new();
    let mut i: usize = 0;
    while i < n
        invariant
            n == moves@.len(),
            i <= n,
            builds_valid_hashers::<S>(),
            sorted@ == order_by_history(moves@.take(i as int), history@),
        decreases n - i,
    {
        let mov = moves[i];
        let key = rank_of(history, mov);
        let mut j = sorted.len();
        assert(sorted@.take(j as int) == sorted@);
        while j > 0 && rank_of(history, sorted[j - 1]) < key
            invariant
                j <= sorted@.len(),
                builds_valid_hashers::<S>(),
                key == rank(history@, mov),
                insertion_point(sorted@, history@, mov) == insertion_point(
                    sorted@.take(j as int),
                    history@,
                    mov,
                ),
            decreases j,
        {
            assert(sorted@.take(j as int).drop_last() == sorted@.take(j - 1));
            j -= 1;
        }
        proof {
            if j > 0 {
                assert(sorted@.take(j as int).last() == sorted@[j - 1]);
            } else {
                assert(sorted@.take(0) == Seq::<u64>::empty());
            }
            assert(moves@.take(i + 1).drop_last() == moves@.take(i as int));
            assert(moves@.take(i + 1).last() == mov);
        }
        sorted.insert(j, mov);
        i += 1;
    }
    assert(moves@.take(n as int) == moves@);
    sorted
}

/// Searches `game` to `depth` plies with the full window `(-INF, INF)`.
///
/// `pv` holds a principal variation to try first and receives the principal
/// variation found; `history` holds the history heuristic, which the search
/// trains. At depth `0` or below, or in a finished game, the search only
/// evaluates the position. Otherwise the depth is at most [`MAX_DEPTH`] and
/// the weights that the search can update fit (`weights_fit`): each lies
/// within the bound that keeps its update at its node inside `i32`. The
/// search leaves every other weight as it is.
pub fn search<S: BuildHasher, G: GameState>(
    depth: i32,
    pv: &mut VecDeque<u64>,
    history: &mut HashMap<u64, i32, S>,
    game: &G,
) -> (score: i32)
    requires
        depth > 0 && !game.finished() ==> depth <= MAX_DEPTH && weights_fit(
            old(history)@,
            depth as int,
            old(pv)@,
            *game,
        ),
        builds_valid_hashers::<S>(),
    ensures
        (score as int, final(pv)@, final(history)@) == pvs_spec(
            -INF as int,
            INF as int,
            depth as int,
            old(pv)@,
            old(history)@,
            *game,
        ),
        -INF <= score <= INF,
        keeps_bounds(old(history)@, final(history)@, depth as int),
{
    pvs(-INF, INF, depth, pv, history, game)
}

/// The outcome of one step of the move loop, given the outcome `third` of
/// the last search of the move.
pub open spec fn step_outcome(
    beta: int,
    d: int,
    mov: u64,
    frame: Frame,
    third: (int, Seq<u64>, Map<u64, i32>),
) -> Frame {
    let score = -third.0;
    let alpha2 = if score > frame.alpha {
        score
    } else {
        frame.alpha
    };
    let theta = history_weight(third.2, mov) as int;
    let bonus = 300 * d - 250;
    Frame {
        alpha: alpha2,
        best: if score > frame.best {
            score
        } else {
            frame.best
        },
        pv: if score > frame.best {
            seq![mov] + third.1
        } else {
            frame.pv
        },
        history: if alpha2 >= beta {
            third.2.insert(mov, ridge_value(theta, bonus) as i32)
        } else {
            third.2.insert(mov, ridge_value(theta, -bonus) as i32)
        },
        cut: alpha2 >= beta,
    }
}

/// The searches of one move of the loop: a null-window search at reduced
/// depth, re-searched at full depth and then with the full window while it
/// beats `alpha`.
pub open spec fn step_searches<G: GameState>(
    game: G,
    beta: int,
    d: int,
    mov: u64,
    frame: Frame,
) -> (int, Seq<u64>, Map<u64, i32>)
    decreases depth_measure(d - 1) + choice(game), game.forced_horizon(), 0nat, 0nat,
{
    if game.finished() {
        (0, Seq::empty(), frame.history)
    } else {
        proof {
            if game.legal_moves().len() == 1 {
                game.lemma_forced_shortens(mov);
            }
        }
        let child = game.after(mov);
        let alpha = frame.alpha;
        let r = (d + 2) / 3;
        let first = pvs_spec(-alpha - 1, -alpha, d - r, Seq::empty(), frame.history, child);
        let second = if -first.0 > alpha && r > 1 {
            pvs_spec(-alpha - 1, -alpha, d - 1, first.1, first.2, child)
        } else {
            first
        };
        if -second.0 > alpha && beta - alpha > 1 {
            pvs_spec(-beta, -alpha, d - 1, second.1, second.2, child)
        } else {
            second
        }
    }
}

/// Searches `mov` from `game` as one step of the move loop of a node.
#[verifier::rlimit(80)]
fn search_move<S: BuildHasher, G: GameState>(
    game: &G,
    beta: i32,
    d: i32,
    mov: u64,
    alpha: &mut i32,
    best: &mut i32,
    pv: &mut VecDeque<u64>,
    scratch: &mut VecDeque<u64>,
    history: &mut HashMap<u64, i32, S>,
) -> (cut: bool)
    requires
        !game.finished(),
        1 <= d <= MAX_DEPTH + 1,
        weight_within(old(history)@, mov, weight_cap(d - 1)),
        weights_fit(old(history)@, d - 1, Seq::empty(), game.after(mov)),
        -INF - 1 <= *old(alpha) <= INF,
        -INF <= beta <= INF + 1,
        -INF <= *old(best) <= INF,
        old(scratch)@ == Seq::<u64>::empty(),
        builds_valid_hashers::<S>(),
    ensures
        (Frame {
            alpha: *final(alpha) as int,
            best: *final(best) as int,
            pv: final(pv)@,
            history: final(history)@,
            cut,
        }) == step_outcome(
            beta as int,
            d as int,
            mov,
            Frame {
                alpha: *old(alpha) as int,
                best: *old(best) as int,
                pv: old(pv)@,
                history: old(history)@,
                cut: false,
            },
            step_searches(
                *game,
                beta as int,
                d as int,
                mov,
                Frame {
                    alpha: *old(alpha) as int,
                    best: *old(best) as int,
                    pv: old(pv)@,
                    history: old(history)@,
                    cut: false,
                },
            ),
        ),
        -INF - 1 <= *final(alpha) <= INF,
        -INF <= *final(best) <= INF,
        final(scratch)@ == Seq::<u64>::empty(),
        keeps_bounds(old(history)@, final(history)@, d - 1),
    decreases depth_measure(d - 1) + choice(*game), game.forced_horizon(), 0nat,
{
    let mut child = game.duplicate();
    child.play(mov);
    proof {
        if game.legal_moves().len() == 1 {
            game.lemma_forced_shortens(mov);
        }
    }
    let a = *alpha;
    let r = (d + 2) / 3;
    let ghost h0 = history@;
    let ghost first = pvs_spec(-a - 1, -a, d - r, Seq::empty(), h0, game.after(mov));
    proof {
        lemma_fit_shallower(h0, d - 1, d - r, game.after(mov));
    }
    let s1 = pvs(-a - 1, -a, d - r, scratch, history, &child);
    assert((s1 as int, scratch@, history@) == first);
    let ghost h1 = history@;
    proof {
        law_search_keeps_a_legal_line(-a - 1, -a, d - r, Seq::empty(), h0, game.after(mov));
        lemma_refit(h0, h1, d - r, d - 1, first.1, game.after(mov));
    }
    let mut score = -s1;
    let ghost second = if -first.0 > a && r > 1 {
        pvs_spec(-a - 1, -a, d - 1, first.1, first.2, game.after(mov))
    } else {
        first
    };
    if score > a && r > 1 {
        let s2 = pvs(-a - 1, -a, d - 1, scratch, history, &child);
        score = -s2;
        proof {
            lemma_keeps_trans(h0, h1, history@, d - r, d - 1, d - 1);
        }
    }
    assert((-score, scratch@, history@) == second);
    let ghost h2 = history@;
    proof {
        if !(-first.0 > a && r > 1) {
            lemma_keeps_weaken(h0, h1, d - r, d - 1);
        }
        if -first.0 > a && r > 1 {
            law_search_keeps_a_legal_line(-a - 1, -a, d - 1, first.1, first.2, game.after(mov));
        }
        lemma_refit(h0, h2, d - 1, d - 1, second.1, game.after(mov));
    }
    let ghost third = if -second.0 > a && beta - a > 1 {
        pvs_spec(-beta, -a, d - 1, second.1, second.2, game.after(mov))
    } else {
        second
    };
    if score > a && beta - a > 1 {
        let s3 = pvs(-beta, -a, d - 1, scratch, history, &child);
        score = -s3;
        proof {
            lemma_keeps_trans(h0, h2, history@, d - 1, d - 1, d - 1);
        }
    }
    assert((-score, scratch@, history@) == third);
    let ghost h3 = history@;
    proof {
        lemma_node_caps_kept(d - 1, d as int, d - 1);
        assert(weight_within(h3, mov, weight_cap(d - 1)));
    }
    let ghost pv_old = pv@;
    if score > *best {
        std::mem::swap(pv, scratch);
        pv.push_front(mov);
        *best = score;
    }
    assert(pv@ =~= (if -third.0 > *old(best) {
        seq![mov] + third.1
    } else {
        pv_old
    }));
    scratch.clear();
    if score > a {
        *alpha = score;
    }
    let theta = weight_of(history, mov);
    let bonus = 300 * d - 250;
    let ghost frame0 = Frame {
        alpha: *old(alpha) as int,
        best: *old(best) as int,
        pv: old(pv)@,
        history: old(history)@,
        cut: false,
    };
    let ghost expected = step_outcome(beta as int, d as int, mov, frame0, third);
    assert(expected.alpha == *alpha);
    assert(expected.best == *best);
    assert(expected.pv == pv@);
    proof {
        lemma_weight_cap_fits((d - 1) as int);
        lemma_ridge_within(theta as int, bonus as int, weight_cap(d - 1), d - 1);
        lemma_ridge_within(theta as int, -bonus as int, weight_cap(d - 1), d - 1);
    }
    if *alpha >= beta {
        let w = ridge_descent(theta, bonus);
        history.insert(mov, w);
        proof {
            lemma_keeps_step(h3, mov, bonus as int, d - 1);
            lemma_keeps_trans(h0, h3, history@, d - 1, d - 1, d - 1);
        }
        assert(expected.cut);
        assert(expected.history == history@);
        true
    } else {
        let w = ridge_descent(theta, -bonus);
        history.insert(mov, w);
        proof {
            lemma_keeps_step(h3, mov, -bonus as int, d - 1);
            lemma_keeps_trans(h0, h3, history@, d - 1, d - 1, d - 1);
        }
        assert(!expected.cut);
        assert(expected.history == history@);
        false
    }
}

#[verifier::rlimit(50)]
fn pvs<S: BuildHasher, G: GameState>(
    alpha: i32,
    beta: i32,
    depth: i32,
    pv: &mut VecDeque<u64>,
    history: &mut HashMap<u64, i32, S>,
    game: &G,
) -> (score: i32)
    requires
        -INF - 1 <= alpha <= INF,
        -INF <= beta <= INF + 1,
        depth > 0 && !game.finished() ==> depth <= MAX_DEPTH && weights_fit(
            old(history)@,
            depth as int,
            old(pv)@,
            *game,
        ),
        builds_valid_hashers::<S>(),
    ensures
        (score as int, final(pv)@, final(history)@) == pvs_spec(
            alpha as int,
            beta as int,
            depth as int,
            old(pv)@,
            old(history)@,
            *game,
        ),
        -INF <= score <= INF,
        keeps_bounds(old(history)@, final(history)@, depth as int),
    decreases depth_measure(depth as int), game.forced_horizon(), 1nat,
{
    if depth <= 0 || game.is_over() {
        proof {
            game.lemma_score_bounded();
        }
        return game.evaluate_i32();
    }
    let ghost pv0 = pv@;
    let ghost h0 = history@;
    let moves = game.moves();
    let d: i32 = if moves.len() == 1 {
        depth + 1
    } else {
        depth
    };
    let ghost deepened = if pv0.len() == 0 && d > 3 {
        pvs_spec(alpha as int, beta as int, d - 3, pv0, h0, *game)
    } else {
        (0, pv0, h0)
    };
    proof {
        lemma_weight_cap_fits(depth as int);
        if pv0.len() == 0 && d > 3 {
            lemma_fit_shallower(h0, depth as int, d - 3, *game);
        }
    }
    if pv.len() == 0 && d > 3 {
        let _ = pvs(alpha, beta, d - 3, pv, history, game);
    }
    assert(pv@ == deepened.1 && history@ == deepened.2);
    let ghost pv1 = pv@;
    let ghost h1 = history@;
    proof {
        if pv0.len() == 0 && d > 3 {
            law_search_keeps_a_legal_line(alpha as int, beta as int, d - 3, pv0, h0, *game);
            lemma_refit(h0, h1, d - 3, depth as int, pv1, *game);
            lemma_keeps_weaken(h0, h1, d - 3, depth as int);
        }
        assert(weights_fit(h1, depth as int, pv1, *game));
        assert(keeps_bounds(h0, h1, depth as int));
        assert(weights_fit(h1, depth as int, Seq::empty(), *game));
    }
    let mut alpha_cur = alpha;
    let mut best: i32 = -INF;
    let pv_move = pv.pop_front();
    if let Some(mov) = pv_move {
        assert(pv@ == pv1.drop_first());
        let mut child = game.duplicate();
        child.play(mov);
        proof {
            if moves.len() == 1 {
                game.lemma_forced_shortens(mov);
            }
        }
        let ghost child_res = pvs_spec(-beta, -alpha, d - 1, pv1.drop_first(), h1, game.after(mov));
        proof {
            assert(weight_within(h1, mov, weight_cap(d - 1)));
            assert(weights_fit(h1, d - 1, pv1.drop_first(), game.after(mov)));
        }
        let s = pvs(-beta, -alpha, d - 1, pv, history, &child);
        assert((s as int, pv@, history@) == child_res);
        let ghost h2 = history@;
        let score = -s;
        pv.push_front(mov);
        assert(pv@ =~= seq![mov] + child_res.1);
        if score > best {
            best = score;
        }
        if score > alpha_cur {
            alpha_cur = score;
        }
        let theta = weight_of(history, mov);
        let bonus = 300 * d - 250;
        proof {
            lemma_node_caps_kept(depth as int, d as int, d - 1);
            assert(weight_within(h2, mov, weight_cap(d - 1)));
            lemma_weight_cap_fits((d - 1) as int);
            lemma_ridge_within(theta as int, bonus as int, weight_cap(d - 1), d - 1);
            lemma_ridge_within(theta as int, -bonus as int, weight_cap(d - 1), d - 1);
        }
        if alpha_cur >= beta {
            let w = ridge_descent(theta, bonus);
            history.insert(mov, w);
            proof {
                lemma_keeps_step(h2, mov, bonus as int, d - 1);
                lemma_keeps_trans(h1, h2, history@, d - 1, d - 1, d - 1);
                lemma_keeps_trans(h0, h1, history@, depth as int, d - 1, depth as int);
            }
            return best;
        }
        let w = ridge_descent(theta, -bonus);
        history.insert(mov, w);
        proof {
            lemma_keeps_step(h2, mov, -bonus as int, d - 1);
            lemma_keeps_trans(h1, h2, history@, d - 1, d - 1, d - 1);
            lemma_refit(h1, history@, d - 1, depth as int, Seq::empty(), *game);
            lemma_keeps_trans(h0, h1, history@, depth as int, d - 1, depth as int);
        }
    }
    let order = sort_by_history(&moves, history);
    proof {
        broadcast use vstd::seq_lib::to_multiset_contains;

        law_order_by_history_sorts(moves@, history@);
        assert forall|k: int| 0 <= k < order@.len() implies moves@.contains(#[trigger] order@[k]) by {
            assert(order@.to_multiset().count(order@[k]) > 0);
        }
    }
    let ghost start = Frame {
        alpha: alpha_cur as int,
        best: best as int,
        pv: pv@,
        history: history@,
        cut: false,
    };
    let ghost fin = sweep(*game, beta as int, d as int, pv_move, order@, 0, start);
    assert(pvs_spec(alpha as int, beta as int, depth as int, pv0, h0, *game) == (
        fin.best,
        fin.pv,
        fin.history,
    ));
    let mut scratch: VecDeque<u64> = VecDeque::new();
    let n = order.len();
    let mut i: usize = 0;
    while i < n
        invariant
            n == order@.len(),
            i <= n,
            depth > 0,
            pv0 == old(pv)@,
            h0 == old(history)@,
            !game.finished(),
            1 <= d <= MAX_DEPTH + 1,
            depth <= MAX_DEPTH,
            weights_fit(history@, depth as int, Seq::empty(), *game),
            keeps_bounds(h0, history@, depth as int),
            forall|k: int| 0 <= k < n ==> moves@.contains(#[trigger] order@[k]),
            moves@ == game.legal_moves(),
            d == (if moves@.len() == 1 {
                depth + 1
            } else {
                depth as int
            }),
            -INF - 1 <= alpha_cur <= INF,
            -INF <= beta <= INF + 1,
            -INF <= best <= INF,
            scratch@ == Seq::<u64>::empty(),
            builds_valid_hashers::<S>(),
            pvs_spec(alpha as int, beta as int, depth as int, pv0, h0, *game) == (
                fin.best,
                fin.pv,
                fin.history,
            ),
            sweep(
                *game,
                beta as int,
                d as int,
                pv_move,
                order@,
                i as int,
                Frame {
                    alpha: alpha_cur as int,
                    best: best as int,
                    pv: pv@,
                    history: history@,
                    cut: false,
                },
            ) == fin,
        decreases n - i,
    {
        let mov = order[i];
        let skip = match pv_move {
            Some(other) => other == mov,
            None => false,
        };
        let ghost frame = Frame {
            alpha: alpha_cur as int,
            best: best as int,
            pv: pv@,
            history: history@,
            cut: false,
        };
        if !skip {
            let ghost hb = history@;
            proof {
                let k = choose|k: int| 0 <= k < moves@.len() && moves@[k] == mov;
                assert(weight_within(hb, moves@[k], weight_cap(d - 1)));
                assert(weights_fit(hb, d - 1, Seq::empty(), game.after(moves@[k])));
            }
            let cut = search_move(
                game,
                beta,
                d,
                mov,
                &mut alpha_cur,
                &mut best,
                pv,
                &mut scratch,
                history,
            );
            proof {
                lemma_refit(hb, history@, d - 1, depth as int, Seq::empty(), *game);
                lemma_keeps_trans(h0, hb, history@, depth as int, d - 1, depth as int);
            }
            let ghost next = Frame {
                alpha: alpha_cur as int,
                best: best as int,
                pv: pv@,
                history: history@,
                cut,
            };
            assert(sweep(*game, beta as int, d as int, pv_move, order@, i as int, frame) == (if cut {
                next
            } else {
                sweep(*game, beta as int, d as int, pv_move, order@, i + 1, next)
            }));
            if cut {
                return best;
            }
        }
        i += 1;
    }
    best
}

/// The best score among `moves` from `game`, each scored by the static
/// evaluation of the position it leads to, from the opponent's side and
/// negated; `-INF` when there is no move.
pub open spec fn best_reply<G: GameState>(game: G, moves: Seq<u64>) -> int
    decreases moves.len(),
{
    if moves.len() == 0 {
        -INF as int
    } else {
        let rest = best_reply(game, moves.drop_first());
        let s = -game.after(moves[0]).score();
        if s > rest {
            s
        } else {
            rest
        }
    }
}

proof fn lemma_best_reply<G: GameState>(game: G, moves: Seq<u64>)
    ensures
        -INF <= best_reply(game, moves) <= INF,
        forall|k: int|
            0 <= k < moves.len() ==> -game.after(#[trigger] moves[k]).score() <= best_reply(
                game,
                moves,
            ),
        moves.len() == 0 ==> best_reply(game, moves) == -INF,
        moves.len() > 0 ==> exists|k: int|
            0 <= k < moves.len() && -game.after(#[trigger] moves[k]).score() == best_reply(
                game,
                moves,
            ),
    decreases moves.len(),
{
    if moves.len() > 0 {
        let rest = moves.drop_first();
        lemma_best_reply(game, rest);
        game.after(moves[0]).lemma_score_bounded();
        assert forall|k: int| 0 <= k < moves.len() implies -game.after(
            #[trigger] moves[k],
        ).score() <= best_reply(game, moves) by {
            if k > 0 {
                assert(moves[k] == rest[k - 1]);
            }
        }
        if rest.len() > 0 && best_reply(game, rest) >= -game.after(moves[0]).score() {
            let k = choose|k: int|
                0 <= k < rest.len() && -game.after(#[trigger] rest[k]).score() == best_reply(
                    game,
                    rest,
                );
            assert(moves[k + 1] == rest[k]);
        } else {
            assert(-game.after(moves[0]).score() == best_reply(game, moves));
        }
    }
}

/// Rearranging the moves does not change the best reply.
proof fn lemma_best_reply_permutation<G: GameState>(game: G, a: Seq<u64>, b: Seq<u64>)
    requires
        a.to_multiset() == b.to_multiset(),
    ensures
        best_reply(game, a) == best_reply(game, b),
{
    broadcast use vstd::seq_lib::to_multiset_contains, vstd::seq_lib::to_multiset_len;

    lemma_best_reply(game, a);
    lemma_best_reply(game, b);
    assert(a.len() == a.to_multiset().len() && b.len() == b.to_multiset().len());
    if a.len() > 0 {
        let i = choose|k: int|
            0 <= k < a.len() && -game.after(#[trigger] a[k]).score() == best_reply(game, a);
        let j = choose|k: int|
            0 <= k < b.len() && -game.after(#[trigger] b[k]).score() == best_reply(game, b);
        assert(a.to_multiset().count(a[i]) > 0);
        assert(b.contains(a[i]));
        let ib = choose|k: int| 0 <= k < b.len() && b[k] == a[i];
        assert(-game.after(b[ib]).score() <= best_reply(game, b));
        assert(b.to_multiset().count(b[j]) > 0);
        assert(a.contains(b[j]));
        let ja = choose|k: int| 0 <= k < a.len() && a[k] == b[j];
        assert(-game.after(a[ja]).score() <= best_reply(game, a));
    }
}

/// One step of the move loop one ply deep with the full window scores the
/// move by the static evaluation of the position it leads to.
proof fn lemma_step_one_ply<G: GameState>(game: G, mov: u64, frame: Frame)
    requires
        !game.finished(),
        -INF <= frame.alpha < INF,
    ensures
        step_searches(game, INF as int, 1, mov, frame).0 == game.after(mov).score(),
        step_searches(game, INF as int, 1, mov, frame).1 == Seq::<u64>::empty(),
{
    let child = game.after(mov);
    let alpha = frame.alpha;
    assert(pvs_spec(-alpha - 1, -alpha, 0, Seq::empty(), frame.history, child).0 == child.score());
    let first = pvs_spec(-alpha - 1, -alpha, 0, Seq::empty(), frame.history, child);
    assert(pvs_spec(-INF as int, -alpha, 0, first.1, first.2, child).0 == child.score());
}

/// The move loop one ply deep with the full window, started from a frame
/// whose bound and best score agree, ends with the best of that score and
/// the best reply among the remaining moves.
proof fn lemma_sweep_one_ply<G: GameState>(game: G, order: Seq<u64>, i: int, frame: Frame)
    requires
        !game.finished(),
        0 <= i <= order.len(),
        frame.alpha == frame.best,
        -INF <= frame.best < INF,
    ensures
        sweep(game, INF as int, 1, None, order, i, frame).best == (if frame.best > best_reply(
            game,
            order.skip(i),
        ) {
            frame.best
        } else {
            best_reply(game, order.skip(i))
        }),
        ({
            let res = sweep(game, INF as int, 1, None, order, i, frame);
            if best_reply(game, order.skip(i)) > frame.best {
                &&& res.pv.len() == 1
                &&& order.skip(i).contains(res.pv[0])
                &&& -game.after(res.pv[0]).score() == res.best
            } else {
                res.pv == frame.pv
            }
        }),
    decreases order.len() - i,
{
    let rest = order.skip(i);
    lemma_best_reply(game, rest);
    if i < order.len() {
        let mov = order[i];
        assert(rest[0] == mov);
        assert(rest.drop_first() == order.skip(i + 1));
        lemma_best_reply(game, order.skip(i + 1));
        game.after(mov).lemma_score_bounded();
        lemma_step_one_ply(game, mov, frame);
        let third = step_searches(game, INF as int, 1, mov, frame);
        let next = step_outcome(INF as int, 1, mov, frame, third);
        assert(seq![mov] + third.1 == seq![mov]);
        if !next.cut {
            lemma_sweep_one_ply(game, order, i + 1, next);
            let res = sweep(game, INF as int, 1, None, order, i + 1, next);
            if best_reply(game, order.skip(i + 1)) > next.best {
                let tail = order.skip(i + 1);
                let k = choose|k: int| 0 <= k < tail.len() && #[trigger] tail[k] == res.pv[0];
                assert(rest[k + 1] == res.pv[0]);
            }
        }
    } else {
        assert(rest.len() == 0);
    }
}

/// Principal variation search one ply deep, with the full window and no
/// principal variation to try first, returns the negamax value of a
/// position with a choice of moves: the best static evaluation among the
/// positions its moves lead to, each taken from the opponent's side and
/// negated, whatever the history holds. Its principal variation is a legal
/// move that reaches that value, unless every move scores `-INF`; then it
/// is empty.
pub proof fn law_depth_one_is_negamax<G: GameState>(game: G, history: Map<u64, i32>)
    requires
        !game.finished(),
        game.legal_moves().len() >= 2,
    ensures
        ({
            let (score, line, _) = pvs_spec(-INF as int, INF as int, 1, Seq::empty(), history, game);
            &&& score == best_reply(game, game.legal_moves())
            &&& line.len() == (if score > -INF {
                1int
            } else {
                0int
            })
            &&& score > -INF ==> game.legal_moves().contains(line[0]) && -game.after(
                line[0],
            ).score() == score
        }),
{
    broadcast use vstd::seq_lib::to_multiset_contains;

    let moves = game.legal_moves();
    let order = order_by_history(moves, history);
    law_order_by_history_sorts(moves, history);
    lemma_best_reply_permutation(game, order, moves);
    lemma_best_reply(game, order);
    let start = Frame {
        alpha: -INF as int,
        best: -INF as int,
        pv: Seq::empty(),
        history,
        cut: false,
    };
    assert(order.skip(0) == order);
    lemma_sweep_one_ply(game, order, 0, start);
    let fin = sweep(game, INF as int, 1, None, order, 0, start);
    if fin.best > -INF {
        assert(order.to_multiset().count(fin.pv[0]) > 0);
    }
}

/// Whether `line` is a line of legal moves from `game`: each move is legal
/// in the position that the moves before it reach.
pub open spec fn legal_line<G: GameState>(game: G, line: Seq<u64>) -> bool
    decreases line.len(),
{
    line.len() == 0 || (game.legal_moves().contains(line[0]) && legal_line(
        game.after(line[0]),
        line.drop_first(),
    ))
}

proof fn lemma_legal_cons<G: GameState>(game: G, mov: u64, line: Seq<u64>)
    requires
        game.legal_moves().contains(mov),
        legal_line(game.after(mov), line),
    ensures
        legal_line(game, seq![mov] + line),
{
    let full = seq![mov] + line;
    assert(full[0] == mov);
    assert(full.drop_first() == line);
}

/// The principal variation that the search stores is a line of legal moves
/// from the position whenever the one it starts from is.
pub proof fn law_search_keeps_a_legal_line<G: GameState>(
    alpha: int,
    beta: int,
    depth: int,
    pv: Seq<u64>,
    history: Map<u64, i32>,
    game: G,
)
    requires
        legal_line(game, pv),
    ensures
        legal_line(game, pvs_spec(alpha, beta, depth, pv, history, game).1),
    decreases depth_measure(depth), game.forced_horizon(), 2nat, 0nat,
{
    broadcast use vstd::seq_lib::to_multiset_contains;

    if !(depth <= 0 || game.finished()) {
        let moves = game.legal_moves();
        let d = if moves.len() == 1 {
            depth + 1
        } else {
            depth
        };
        if pv.len() == 0 && d > 3 {
            law_search_keeps_a_legal_line(alpha, beta, d - 3, pv, history, game);
        }
        let deepened = if pv.len() == 0 && d > 3 {
            pvs_spec(alpha, beta, d - 3, pv, history, game)
        } else {
            (0, pv, history)
        };
        let pv1 = deepened.1;
        let h1 = deepened.2;
        if pv1.len() > 0 {
            let mov = pv1[0];
            if moves.len() == 1 {
                game.lemma_forced_shortens(mov);
            }
            law_search_keeps_a_legal_line(-beta, -alpha, d - 1, pv1.drop_first(), h1, game.after(mov));
            let child = pvs_spec(-beta, -alpha, d - 1, pv1.drop_first(), h1, game.after(mov));
            lemma_legal_cons(game, mov, child.1);
            let score = -child.0;
            let best = if score > -INF {
                score
            } else {
                -INF as int
            };
            let alpha2 = if score > alpha {
                score
            } else {
                alpha
            };
            let theta = history_weight(child.2, mov) as int;
            let bonus = 300 * d - 250;
            if alpha2 < beta {
                let h2 = child.2.insert(mov, ridge_value(theta, -bonus) as i32);
                let order = order_by_history(moves, h2);
                law_order_by_history_sorts(moves, h2);
                assert forall|k: int| 0 <= k < order.len() implies moves.contains(
                    #[trigger] order[k],
                ) by {
                    assert(order.to_multiset().count(order[k]) > 0);
                }
                let start = Frame { alpha: alpha2, best, pv: seq![mov] + child.1, history: h2, cut: false };
                lemma_sweep_keeps_a_legal_line(game, beta, d, Some(mov), order, 0, start);
            }
        } else {
            let order = order_by_history(moves, h1);
            law_order_by_history_sorts(moves, h1);
            assert forall|k: int| 0 <= k < order.len() implies moves.contains(
                #[trigger] order[k],
            ) by {
                assert(order.to_multiset().count(order[k]) > 0);
            }
            let start = Frame { alpha, best: -INF as int, pv: pv1, history: h1, cut: false };
            lemma_sweep_keeps_a_legal_line(game, beta, d, None, order, 0, start);
        }
    }
}

proof fn lemma_sweep_keeps_a_legal_line<G: GameState>(
    game: G,
    beta: int,
    d: int,
    skip: Option<u64>,
    order: Seq<u64>,
    i: int,
    frame: Frame,
)
    requires
        legal_line(game, frame.pv),
        forall|k: int| 0 <= k < order.len() ==> game.legal_moves().contains(#[trigger] order[k]),
    ensures
        legal_line(game, sweep(game, beta, d, skip, order, i, frame).pv),
    decreases depth_measure(d - 1) + choice(game), game.forced_horizon(), 1nat, (if 0 <= i
        < order.len() {
        order.len() - i
    } else {
        0
    }) as nat,
{
    if 0 <= i < order.len() && !game.finished() {
        if skip == Some(order[i]) {
            lemma_sweep_keeps_a_legal_line(game, beta, d, skip, order, i + 1, frame);
        } else {
            let mov = order[i];
            lemma_step_keeps_a_legal_line(game, beta, d, mov, frame);
            let third = step_searches(game, beta, d, mov, frame);
            let next = step_outcome(beta, d, mov, frame, third);
            if -third.0 > frame.best {
                lemma_legal_cons(game, mov, third.1);
            }
            if !next.cut {
                lemma_sweep_keeps_a_legal_line(game, beta, d, skip, order, i + 1, next);
            }
        }
    }
}

proof fn lemma_step_keeps_a_legal_line<G: GameState>(
    game: G,
    beta: int,
    d: int,
    mov: u64,
    frame: Frame,
)
    ensures
        legal_line(game.after(mov), step_searches(game, beta, d, mov, frame).1),
    decreases depth_measure(d - 1) + choice(game), game.forced_horizon(), 0nat, 0nat,
{
    if !game.finished() {
        if game.legal_moves().len() == 1 {
            game.lemma_forced_shortens(mov);
        }
        let child = game.after(mov);
        let alpha = frame.alpha;
        let r = (d + 2) / 3;
        law_search_keeps_a_legal_line(-alpha - 1, -alpha, d - r, Seq::empty(), frame.history, child);
        let first = pvs_spec(-alpha - 1, -alpha, d - r, Seq::empty(), frame.history, child);
        law_search_keeps_a_legal_line(-alpha - 1, -alpha, d - 1, first.1, first.2, child);
        let second = if -first.0 > alpha && r > 1 {
            pvs_spec(-alpha - 1, -alpha, d - 1, first.1, first.2, child)
        } else {
            first
        };
        law_search_keeps_a_legal_line(-beta, -alpha, d - 1, second.1, second.2, child);
    }
}

/// Whether a search of `game` to `depth`, trying `pv` first, can update the
/// weight of `mov`: whether `mov` is a legal move of a position that the
/// search can reach with depth left, or a move of `pv` along its line.
pub open spec fn can_update<G: GameState>(mov: u64, depth: int, pv: Seq<u64>, game: G) -> bool
    decreases depth_measure(depth), game.forced_horizon(),
{
    if depth <= 0 || game.finished() {
        false
    } else {
        let moves = game.legal_moves();
        let d = if moves.len() == 1 {
            depth + 1
        } else {
            depth
        };
        proof {
            if moves.len() == 1 {
                assert forall|m: u64| #[trigger] game.after(m).forced_horizon() < game.forced_horizon() by {
                    game.lemma_forced_shortens(m);
                }
            }
        }
        ||| moves.contains(mov)
        ||| exists|k: int|
            0 <= k < moves.len() && can_update(
                mov,
                d - 1,
                Seq::empty(),
                game.after(#[trigger] moves[k]),
            )
        ||| pv.len() > 0 && (pv[0] == mov || can_update(
            mov,
            d - 1,
            pv.drop_first(),
            game.after(pv[0]),
        ))
    }
}

/// Whether `a` and `b` agree on the weight of `mov`.
pub open spec fn same_weight(a: Map<u64, i32>, b: Map<u64, i32>, mov: u64) -> bool {
    &&& a.contains_key(mov) == b.contains_key(mov)
    &&& a.contains_key(mov) ==> a[mov] == b[mov]
}

proof fn lemma_update_shallower<G: GameState>(mov: u64, depth: int, shallower: int, game: G)
    requires
        can_update(mov, shallower, Seq::empty(), game),
        shallower <= depth,
    ensures
        can_update(mov, depth, Seq::empty(), game),
    decreases depth_measure(depth), game.forced_horizon(),
{
    let moves = game.legal_moves();
    let d = if moves.len() == 1 {
        depth + 1
    } else {
        depth
    };
    let d2 = if moves.len() == 1 {
        shallower + 1
    } else {
        shallower
    };
    if !moves.contains(mov) {
        let k = choose|k: int|
            0 <= k < moves.len() && can_update(
                mov,
                d2 - 1,
                Seq::empty(),
                game.after(#[trigger] moves[k]),
            );
        if moves.len() == 1 {
            game.lemma_forced_shortens(moves[k]);
        }
        lemma_update_shallower(mov, d - 1, d2 - 1, game.after(moves[k]));
    }
}

proof fn lemma_update_line<G: GameState>(mov: u64, depth: int, pv: Seq<u64>, game: G)
    requires
        can_update(mov, depth, pv, game),
        legal_line(game, pv),
    ensures
        can_update(mov, depth, Seq::empty(), game),
    decreases pv.len(),
{
    let moves = game.legal_moves();
    let d = if moves.len() == 1 {
        depth + 1
    } else {
        depth
    };
    if pv.len() > 0 && !moves.contains(mov) && !(exists|k: int|
        0 <= k < moves.len() && can_update(
            mov,
            d - 1,
            Seq::empty(),
            game.after(#[trigger] moves[k]),
        )) {
        let k = choose|k: int| 0 <= k < moves.len() && moves[k] == pv[0];
        assert(pv[0] != mov);
        lemma_update_line(mov, d - 1, pv.drop_first(), game.after(pv[0]));
        assert(can_update(mov, d - 1, Seq::empty(), game.after(moves[k])));
    }
}

/// The search changes no weight that it cannot update: every weight
/// outside the legal moves of the positions it can reach with depth left
/// and the moves of the line it tries first is left as it is.
pub proof fn law_search_keeps_other_weights<G: GameState>(
    alpha: int,
    beta: int,
    depth: int,
    pv: Seq<u64>,
    history: Map<u64, i32>,
    game: G,
    mov: u64,
)
    requires
        !can_update(mov, depth, pv, game),
    ensures
        same_weight(history, pvs_spec(alpha, beta, depth, pv, history, game).2, mov),
    decreases depth_measure(depth), game.forced_horizon(), 2nat, 0nat,
{
    broadcast use vstd::seq_lib::to_multiset_contains;

    if !(depth <= 0 || game.finished()) {
        let moves = game.legal_moves();
        let d = if moves.len() == 1 {
            depth + 1
        } else {
            depth
        };
        if pv.len() == 0 && d > 3 {
            if can_update(mov, d - 3, pv, game) {
                lemma_update_shallower(mov, depth, d - 3, game);
            }
            law_search_keeps_other_weights(alpha, beta, d - 3, pv, history, game, mov);
            law_search_keeps_a_legal_line(alpha, beta, d - 3, pv, history, game);
        }
        let deepened = if pv.len() == 0 && d > 3 {
            pvs_spec(alpha, beta, d - 3, pv, history, game)
        } else {
            (0, pv, history)
        };
        let pv1 = deepened.1;
        let h1 = deepened.2;
        if pv.len() == 0 && d > 3 && can_update(mov, depth, pv1, game) {
            lemma_update_line(mov, depth, pv1, game);
        }
        assert(!can_update(mov, depth, pv1, game));
        assert forall|k: int| 0 <= k < moves.len() implies !can_update(
            mov,
            d - 1,
            Seq::empty(),
            game.after(#[trigger] moves[k]),
        ) by {}
        if pv1.len() > 0 {
            let mv = pv1[0];
            if moves.len() == 1 {
                game.lemma_forced_shortens(mv);
            }
            law_search_keeps_other_weights(-beta, -alpha, d - 1, pv1.drop_first(), h1, game.after(mv), mov);
            let child = pvs_spec(-beta, -alpha, d - 1, pv1.drop_first(), h1, game.after(mv));
            let score = -child.0;
            let best = if score > -INF {
                score
            } else {
                -INF as int
            };
            let alpha2 = if score > alpha {
                score
            } else {
                alpha
            };
            let theta = history_weight(child.2, mv) as int;
            let bonus = 300 * d - 250;
            if alpha2 < beta {
                let h2 = child.2.insert(mv, ridge_value(theta, -bonus) as i32);
                let order = order_by_history(moves, h2);
                law_order_by_history_sorts(moves, h2);
                assert forall|k: int| 0 <= k < order.len() implies moves.contains(
                    #[trigger] order[k],
                ) by {
                    assert(order.to_multiset().count(order[k]) > 0);
                }
                let start = Frame { alpha: alpha2, best, pv: seq![mv] + child.1, history: h2, cut: false };
                lemma_sweep_keeps_other_weights(game, beta, d, Some(mv), order, 0, start, mov);
            }
        } else {
            let order = order_by_history(moves, h1);
            law_order_by_history_sorts(moves, h1);
            assert forall|k: int| 0 <= k < order.len() implies moves.contains(
                #[trigger] order[k],
            ) by {
                assert(order.to_multiset().count(order[k]) > 0);
            }
            let start = Frame { alpha, best: -INF as int, pv: pv1, history: h1, cut: false };
            lemma_sweep_keeps_other_weights(game, beta, d, None, order, 0, start, mov);
        }
    }
}

proof fn lemma_sweep_keeps_other_weights<G: GameState>(
    game: G,
    beta: int,
    d: int,
    skip: Option<u64>,
    order: Seq<u64>,
    i: int,
    frame: Frame,
    mov: u64,
)
    requires
        forall|k: int| 0 <= k < order.len() ==> game.legal_moves().contains(#[trigger] order[k]),
        !game.legal_moves().contains(mov),
        forall|k: int|
            0 <= k < game.legal_moves().len() ==> !can_update(
                mov,
                d - 1,
                Seq::empty(),
                game.after(#[trigger] game.legal_moves()[k]),
            ),
    ensures
        same_weight(frame.history, sweep(game, beta, d, skip, order, i, frame).history, mov),
    decreases depth_measure(d - 1) + choice(game), game.forced_horizon(), 1nat, (if 0 <= i
        < order.len() {
        order.len() - i
    } else {
        0
    }) as nat,
{
    if 0 <= i < order.len() && !game.finished() {
        if skip == Some(order[i]) {
            lemma_sweep_keeps_other_weights(game, beta, d, skip, order, i + 1, frame, mov);
        } else {
            let mv = order[i];
            let k = choose|k: int| 0 <= k < game.legal_moves().len() && game.legal_moves()[k] == mv;
            assert(!can_update(mov, d - 1, Seq::empty(), game.after(game.legal_moves()[k])));
            lemma_step_keeps_other_weights(game, beta, d, mv, frame, mov);
            let third = step_searches(game, beta, d, mv, frame);
            let next = step_outcome(beta, d, mv, frame, third);
            if !next.cut {
                lemma_sweep_keeps_other_weights(game, beta, d, skip, order, i + 1, next, mov);
            }
        }
    }
}

proof fn lemma_step_keeps_other_weights<G: GameState>(
    game: G,
    beta: int,
    d: int,
    mv: u64,
    frame: Frame,
    mov: u64,
)
    requires
        !can_update(mov, d - 1, Seq::empty(), game.after(mv)),
    ensures
        same_weight(frame.history, step_searches(game, beta, d, mv, frame).2, mov),
    decreases depth_measure(d - 1) + choice(game), game.forced_horizon(), 0nat, 0nat,
{
    if !game.finished() {
        if game.legal_moves().len() == 1 {
            game.lemma_forced_shortens(mv);
        }
        let child = game.after(mv);
        let alpha = frame.alpha;
        let r = (d + 2) / 3;
        if d - r <= d - 1 && can_update(mov, d - r, Seq::empty(), child) {
            lemma_update_shallower(mov, d - 1, d - r, child);
        }
        if d - r > d - 1 {
            assert(d - r <= 0);
        }
        law_search_keeps_other_weights(-alpha - 1, -alpha, d - r, Seq::empty(), frame.history, child, mov);
        law_search_keeps_a_legal_line(-alpha - 1, -alpha, d - r, Seq::empty(), frame.history, child);
        let first = pvs_spec(-alpha - 1, -alpha, d - r, Seq::empty(), frame.history, child);
        if can_update(mov, d - 1, first.1, child) {
            lemma_update_line(mov, d - 1, first.1, child);
        }
        law_search_keeps_other_weights(-alpha - 1, -alpha, d - 1, first.1, first.2, child, mov);
        law_search_keeps_a_legal_line(-alpha - 1, -alpha, d - 1, first.1, first.2, child);
        let second = if -first.0 > alpha && r > 1 {
            pvs_spec(-alpha - 1, -alpha, d - 1, first.1, first.2, child)
        } else {
            first
        };
        if can_update(mov, d - 1, second.1, child) {
            lemma_update_line(mov, d - 1, second.1, child);
        }
        law_search_keeps_other_weights(-beta, -alpha, d - 1, second.1, second.2, child, mov);
    }
}

/// The depth-limited negamax value of `game`: its static evaluation at
/// depth `0` or below or once the game is over, and otherwise the best,
/// over its legal moves, of the negated value of the position each move
/// reaches one ply shallower. A forced move (a single legal move) does not
/// use up depth, as in the search; a position with no legal move is worth
/// `-INF`.
pub open spec fn negamax<G: GameState>(depth: int, game: G) -> int
    decreases depth_measure(depth), game.forced_horizon(), 1nat, 0nat,
{
    if depth <= 0 || game.finished() {
        game.score()
    } else {
        let d = if game.legal_moves().len() == 1 {
            depth + 1
        } else {
            depth
        };
        best_negamax(d, game, game.legal_moves(), None)
    }
}

/// The best, over the moves of `moves` other than `skip`, of the negated
/// depth `d - 1` negamax value of the position each reaches from `game`;
/// `-INF` when there is none.
pub open spec fn best_negamax<G: GameState>(
    d: int,
    game: G,
    moves: Seq<u64>,
    skip: Option<u64>,
) -> int
    decreases depth_measure(d - 1) + choice(game), game.forced_horizon(), 0nat, moves.len(),
{
    if moves.len() == 0 || game.finished() {
        -INF as int
    } else {
        let rest = best_negamax(d, game, moves.drop_first(), skip);
        if skip == Some(moves[0]) {
            rest
        } else {
            proof {
                if game.legal_moves().len() == 1 {
                    game.lemma_forced_shortens(moves[0]);
                }
            }
            let s = -negamax(d - 1, game.after(moves[0]));
            if s > rest {
                s
            } else {
                rest
            }
        }
    }
}

/// Whether a search of `game` to `depth` reduces nothing: every position it
/// can reach with depth left has at most three plies to go once a forced
/// move is extended, so late move reductions cut no ply and no internal
/// iterative deepening happens.
pub open spec fn unreduced<G: GameState>(depth: int, game: G) -> bool
    decreases depth_measure(depth), game.forced_horizon(),
{
    if depth <= 0 || game.finished() {
        true
    } else {
        let moves = game.legal_moves();
        let d = if moves.len() == 1 {
            depth + 1
        } else {
            depth
        };
        proof {
            if moves.len() == 1 {
                assert forall|m: u64| #[trigger] game.after(m).forced_horizon() < game.forced_horizon() by {
                    game.lemma_forced_shortens(m);
                }
            }
        }
        &&& d <= 3
        &&& forall|k: int|
            0 <= k < moves.len() ==> unreduced(d - 1, game.after(#[trigger] moves[k]))
    }
}

/// Whether `value`, returned by a search with window `(alpha, beta)`, tells
/// the true value `truth` as a fail-soft alpha-beta search does: an upper
/// bound when it is at most `alpha`, a lower bound when it is at least
/// `beta`, and exact in between.
pub open spec fn within_window(value: int, truth: int, alpha: int, beta: int) -> bool {
    &&& value <= alpha ==> truth <= value
    &&& value >= beta ==> truth >= value
    &&& alpha < value < beta ==> truth == value
}

proof fn lemma_negamax_bounded<G: GameState>(depth: int, game: G)
    ensures
        -INF <= negamax(depth, game) <= INF,
    decreases depth_measure(depth), game.forced_horizon(), 1nat, 0nat,
{
    if depth <= 0 || game.finished() {
        game.lemma_score_bounded();
    } else {
        let d = if game.legal_moves().len() == 1 {
            depth + 1
        } else {
            depth
        };
        lemma_best_negamax(d, game, game.legal_moves(), None);
    }
}

/// `best_negamax` is the maximum of its values: an upper bound of each of
/// them, and either one of them or `-INF`.
proof fn lemma_best_negamax<G: GameState>(d: int, game: G, moves: Seq<u64>, skip: Option<u64>)
    ensures
        -INF <= best_negamax(d, game, moves, skip) <= INF,
        !game.finished() ==> forall|k: int|
            0 <= k < moves.len() && skip != Some(moves[k]) ==> -negamax(
                d - 1,
                game.after(#[trigger] moves[k]),
            ) <= best_negamax(d, game, moves, skip),
        best_negamax(d, game, moves, skip) == -INF || exists|k: int|
            0 <= k < moves.len() && skip != Some(moves[k]) && -negamax(
                d - 1,
                game.after(#[trigger] moves[k]),
            ) == best_negamax(d, game, moves, skip),
    decreases depth_measure(d - 1) + choice(game), game.forced_horizon(), 0nat, moves.len(),
{
    if moves.len() > 0 && !game.finished() {
        let rest = moves.drop_first();
        lemma_best_negamax(d, game, rest, skip);
        if skip != Some(moves[0]) {
            if game.legal_moves().len() == 1 {
                game.lemma_forced_shortens(moves[0]);
            }
            lemma_negamax_bounded(d - 1, game.after(moves[0]));
        }
        let v = best_negamax(d, game, moves, skip);
        assert forall|k: int|
            0 <= k < moves.len() && skip != Some(moves[k]) implies -negamax(
                d - 1,
                game.after(#[trigger] moves[k]),
            ) <= v by {
            if k > 0 {
                assert(moves[k] == rest[k - 1]);
            }
        }
        if v != -INF {
            if skip != Some(moves[0]) && v == -negamax(d - 1, game.after(moves[0])) {
            } else {
                let k = choose|k: int|
                    0 <= k < rest.len() && skip != Some(rest[k]) && -negamax(
                        d - 1,
                        game.after(#[trigger] rest[k]),
                    ) == best_negamax(d, game, rest, skip);
                assert(moves[k + 1] == rest[k]);
            }
        }
    }
}

/// Two move lists that offer the same moves, apart from those skipped,
/// have the same best negamax value.
proof fn lemma_best_negamax_same<G: GameState>(
    d: int,
    game: G,
    a: Seq<u64>,
    sa: Option<u64>,
    b: Seq<u64>,
    sb: Option<u64>,
)
    requires
        !game.finished(),
        forall|m: u64| (a.contains(m) && sa != Some(m)) <==> (b.contains(m) && sb != Some(m)),
    ensures
        best_negamax(d, game, a, sa) == best_negamax(d, game, b, sb),
{
    lemma_best_negamax(d, game, a, sa);
    lemma_best_negamax(d, game, b, sb);
    let va = best_negamax(d, game, a, sa);
    let vb = best_negamax(d, game, b, sb);
    if va != -INF {
        let k = choose|k: int|
            0 <= k < a.len() && sa != Some(a[k]) && -negamax(d - 1, game.after(#[trigger] a[k])) == va;
        assert(a.contains(a[k]));
        let j = choose|j: int| 0 <= j < b.len() && b[j] == a[k];
        assert(-negamax(d - 1, game.after(b[j])) <= vb);
    }
    if vb != -INF {
        let k = choose|k: int|
            0 <= k < b.len() && sb != Some(b[k]) && -negamax(d - 1, game.after(#[trigger] b[k])) == vb;
        assert(b.contains(b[k]));
        let j = choose|j: int| 0 <= j < a.len() && a[j] == b[k];
        assert(-negamax(d - 1, game.after(a[j])) <= va);
    }
}

/// The best over all moves is the better of a move's value and the best over
/// the others.
proof fn lemma_best_negamax_split<G: GameState>(d: int, game: G, moves: Seq<u64>, m: u64)
    requires
        !game.finished(),
        moves.contains(m),
    ensures
        ({
            let t = -negamax(d - 1, game.after(m));
            let w = best_negamax(d, game, moves, Some(m));
            best_negamax(d, game, moves, None) == if t > w {
                t
            } else {
                w
            }
        }),
{
    lemma_best_negamax(d, game, moves, None);
    lemma_best_negamax(d, game, moves, Some(m));
    let v = best_negamax(d, game, moves, None);
    let w = best_negamax(d, game, moves, Some(m));
    let t = -negamax(d - 1, game.after(m));
    let i = choose|i: int| 0 <= i < moves.len() && moves[i] == m;
    assert(t <= v) by {
        assert(-negamax(d - 1, game.after(moves[i])) <= v);
    }
    if w != -INF {
        let k = choose|k: int|
            0 <= k < moves.len() && Some(m) != Some(moves[k]) && -negamax(
                d - 1,
                game.after(#[trigger] moves[k]),
            ) == w;
        assert(w <= v);
    }
    if v != -INF {
        let k = choose|k: int|
            0 <= k < moves.len() && None::<u64> != Some(moves[k]) && -negamax(
                d - 1,
                game.after(#[trigger] moves[k]),
            ) == v;
        if moves[k] != m {
            assert(-negamax(d - 1, game.after(moves[k])) <= w);
        }
    }
}

/// A search to at most two plies reduces nothing.
pub proof fn lemma_shallow_unreduced<G: GameState>(depth: int, game: G)
    requires
        depth <= 2,
    ensures
        unreduced(depth, game),
    decreases depth_measure(depth), game.forced_horizon(),
{
    if depth > 0 && !game.finished() {
        let moves = game.legal_moves();
        let d = if moves.len() == 1 {
            depth + 1
        } else {
            depth
        };
        assert forall|k: int| 0 <= k < moves.len() implies unreduced(d - 1, game.after(#[trigger] moves[k])) by {
            if moves.len() == 1 {
                game.lemma_forced_shortens(moves[k]);
            }
            lemma_shallow_unreduced(d - 1, game.after(moves[k]));
        }
    }
}

/// Principal variation search is fail-soft alpha-beta: wherever it reduces
/// nothing, and it tries a legal line first, its score with window
/// `(alpha, beta)` bounds the negamax value of the position from above when
/// it is at most `alpha`, from below when it is at least `beta`, and equals
/// it in between.
pub proof fn law_search_is_fail_soft_negamax<G: GameState>(
    alpha: int,
    beta: int,
    depth: int,
    pv: Seq<u64>,
    history: Map<u64, i32>,
    game: G,
)
    requires
        -INF - 1 <= alpha < beta <= INF + 1,
        unreduced(depth, game),
        legal_line(game, pv),
    ensures
        ({
            let v = pvs_spec(alpha, beta, depth, pv, history, game).0;
            &&& -INF <= v <= INF
            &&& within_window(v, negamax(depth, game), alpha, beta)
        }),
    decreases depth_measure(depth), game.forced_horizon(), 2nat, 0nat,
{
    broadcast use vstd::seq_lib::to_multiset_contains;

    lemma_negamax_bounded(depth, game);
    if depth <= 0 || game.finished() {
        game.lemma_score_bounded();
    } else {
        let moves = game.legal_moves();
        let d = if moves.len() == 1 {
            depth + 1
        } else {
            depth
        };
        assert(d <= 3);
        if pv.len() > 0 {
            let mov = pv[0];
            if moves.len() == 1 {
                game.lemma_forced_shortens(mov);
            }
            let k = choose|k: int| 0 <= k < moves.len() && moves[k] == mov;
            assert(unreduced(d - 1, game.after(moves[k])));
            law_search_is_fail_soft_negamax(-beta, -alpha, d - 1, pv.drop_first(), history, game.after(mov));
            lemma_best_negamax_split(d, game, moves, mov);
            lemma_negamax_bounded(d - 1, game.after(mov));
            let child = pvs_spec(-beta, -alpha, d - 1, pv.drop_first(), history, game.after(mov));
            let score = -child.0;
            let best = if score > -INF {
                score
            } else {
                -INF as int
            };
            let alpha2 = if score > alpha {
                score
            } else {
                alpha
            };
            let theta = history_weight(child.2, mov) as int;
            let bonus = 300 * d - 250;
            if alpha2 < beta {
                let h2 = child.2.insert(mov, ridge_value(theta, -bonus) as i32);
                let order = order_by_history(moves, h2);
                law_order_by_history_sorts(moves, h2);
                assert forall|j: int| 0 <= j < order.len() implies moves.contains(#[trigger] order[j]) by {
                    assert(order.to_multiset().count(order[j]) > 0);
                }
                assert forall|m: u64| (order.contains(m) && Some(mov) != Some(m)) <==> (moves.contains(m)
                    && Some(mov) != Some(m)) by {
                    assert(order.to_multiset().count(m) == moves.to_multiset().count(m));
                }
                lemma_best_negamax_same(d, game, order, Some(mov), moves, Some(mov));
                assert(order.skip(0) == order);
                let start = Frame { alpha: alpha2, best, pv: seq![mov] + child.1, history: h2, cut: false };
                lemma_sweep_negamax(game, beta, d, Some(mov), order, 0, start);
            }
        } else {
            let order = order_by_history(moves, history);
            law_order_by_history_sorts(moves, history);
            assert forall|j: int| 0 <= j < order.len() implies moves.contains(#[trigger] order[j]) by {
                assert(order.to_multiset().count(order[j]) > 0);
            }
            assert forall|m: u64| (order.contains(m) && None::<u64> != Some(m)) <==> (moves.contains(m)
                && None::<u64> != Some(m)) by {
                assert(order.to_multiset().count(m) == moves.to_multiset().count(m));
            }
            lemma_best_negamax_same(d, game, order, None, moves, None);
            assert(order.skip(0) == order);
            let start = Frame { alpha, best: -INF as int, pv, history, cut: false };
            lemma_sweep_negamax(game, beta, d, None, order, 0, start);
        }
    }
}

proof fn lemma_sweep_negamax<G: GameState>(
    game: G,
    beta: int,
    d: int,
    skip: Option<u64>,
    order: Seq<u64>,
    i: int,
    frame: Frame,
)
    requires
        !game.finished(),
        1 <= d <= 3,
        0 <= i <= order.len(),
        forall|k: int| 0 <= k < order.len() ==> game.legal_moves().contains(#[trigger] order[k]),
        forall|k: int|
            0 <= k < game.legal_moves().len() ==> unreduced(
                d - 1,
                game.after(#[trigger] game.legal_moves()[k]),
            ),
        -INF - 1 <= frame.alpha < beta <= INF + 1,
        -INF <= frame.best <= INF,
        frame.best <= frame.alpha || frame.best == -INF,
        !frame.cut,
    ensures
        ({
            let f = sweep(game, beta, d, skip, order, i, frame);
            let r = best_negamax(d, game, order.skip(i), skip);
            &&& -INF <= f.best <= INF
            &&& f.best >= frame.best
            &&& f.cut ==> f.best >= beta && r >= f.best
            &&& !f.cut ==> r <= f.best && (f.best > frame.alpha && f.best > frame.best ==> r
                >= f.best)
        }),
    decreases depth_measure(d - 1) + choice(game), game.forced_horizon(), 1nat, order.len() - i,
{
    let rest = order.skip(i);
    lemma_best_negamax(d, game, rest, skip);
    if i < order.len() {
        assert(rest[0] == order[i]);
        assert(rest.drop_first() == order.skip(i + 1));
        lemma_best_negamax(d, game, order.skip(i + 1), skip);
        if skip == Some(order[i]) {
            lemma_sweep_negamax(game, beta, d, skip, order, i + 1, frame);
        } else {
            let mov = order[i];
            let k = choose|k: int| 0 <= k < game.legal_moves().len() && game.legal_moves()[k] == mov;
            assert(unreduced(d - 1, game.after(game.legal_moves()[k])));
            lemma_step_negamax(game, beta, d, mov, frame);
            let third = step_searches(game, beta, d, mov, frame);
            let next = step_outcome(beta, d, mov, frame, third);
            if !next.cut {
                lemma_sweep_negamax(game, beta, d, skip, order, i + 1, next);
            }
        }
    } else {
        assert(rest.len() == 0);
    }
}

proof fn lemma_step_negamax<G: GameState>(game: G, beta: int, d: int, mov: u64, frame: Frame)
    requires
        !game.finished(),
        1 <= d <= 3,
        unreduced(d - 1, game.after(mov)),
        -INF - 1 <= frame.alpha < beta <= INF + 1,
    ensures
        ({
            let s = -step_searches(game, beta, d, mov, frame).0;
            let t = -negamax(d - 1, game.after(mov));
            &&& -INF <= s <= INF
            &&& s <= frame.alpha ==> t <= s
            &&& s >= beta ==> t >= s
            &&& frame.alpha < s < beta ==> t == s
        }),
    decreases depth_measure(d - 1) + choice(game), game.forced_horizon(), 0nat, 0nat,
{
    if game.legal_moves().len() == 1 {
        game.lemma_forced_shortens(mov);
    }
    let child = game.after(mov);
    let alpha = frame.alpha;
    let r = (d + 2) / 3;
    assert(r == 1);
    law_search_is_fail_soft_negamax(-alpha - 1, -alpha, d - r, Seq::empty(), frame.history, child);
    let first = pvs_spec(-alpha - 1, -alpha, d - r, Seq::empty(), frame.history, child);
    if -first.0 > alpha && beta - alpha > 1 {
        law_search_keeps_a_legal_line(-alpha - 1, -alpha, d - 1, Seq::empty(), frame.history, child);
        law_search_is_fail_soft_negamax(-beta, -alpha, d - 1, first.1, first.2, child);
    }
}

/// With the full window, wherever it reduces nothing and it tries a legal
/// line first, principal variation search returns the negamax value of the
/// position, whatever the history holds. A search to at most two plies
/// reduces nothing (`lemma_shallow_unreduced`).
pub proof fn law_full_window_search_is_negamax<G: GameState>(
    depth: int,
    pv: Seq<u64>,
    history: Map<u64, i32>,
    game: G,
)
    requires
        unreduced(depth, game),
        legal_line(game, pv),
    ensures
        pvs_spec(-INF as int, INF as int, depth, pv, history, game).0 == negamax(depth, game),
{
    law_search_is_fail_soft_negamax(-INF as int, INF as int, depth, pv, history, game);
    lemma_negamax_bounded(depth, game);
}

/// With the full window, the move loop keeps the principal variation
/// starting with a move that reaches the best score found.
proof fn lemma_sweep_line<G: GameState>(game: G, d: int, skip: Option<u64>, order: Seq<u64>, i: int, frame: Frame)
    requires
        !game.finished(),
        1 <= d <= 3,
        0 <= i <= order.len(),
        forall|k: int| 0 <= k < order.len() ==> game.legal_moves().contains(#[trigger] order[k]),
        forall|k: int|
            0 <= k < game.legal_moves().len() ==> unreduced(
                d - 1,
                game.after(#[trigger] game.legal_moves()[k]),
            ),
        frame.alpha == frame.best,
        -INF <= frame.best < INF,
        !frame.cut,
    ensures
        ({
            let f = sweep(game, INF as int, d, skip, order, i, frame);
            &&& f.best >= frame.best
            &&& f.best > frame.best ==> f.pv.len() > 0 && game.legal_moves().contains(f.pv[0])
                && -negamax(d - 1, game.after(f.pv[0])) == f.best
            &&& f.best == frame.best ==> f.pv == frame.pv
        }),
    decreases order.len() - i,
{
    if i < order.len() && skip != Some(order[i]) {
        let mov = order[i];
        let k = choose|k: int| 0 <= k < game.legal_moves().len() && game.legal_moves()[k] == mov;
        assert(unreduced(d - 1, game.after(game.legal_moves()[k])));
        lemma_step_negamax(game, INF as int, d, mov, frame);
        if game.legal_moves().len() == 1 {
            game.lemma_forced_shortens(mov);
        }
        lemma_negamax_bounded(d - 1, game.after(mov));
        let third = step_searches(game, INF as int, d, mov, frame);
        let next = step_outcome(INF as int, d, mov, frame, third);
        assert((seq![mov] + third.1)[0] == mov);
        if !next.cut {
            lemma_sweep_line(game, d, skip, order, i + 1, next);
        }
    } else if i < order.len() {
        lemma_sweep_line(game, d, skip, order, i + 1, frame);
    }
}

/// With the full window, wherever it reduces nothing and it tries a legal
/// line first, the principal variation that the search stores in a
/// position with depth left starts with a legal move that reaches the score
/// returned: the negated negamax value of the position it leads to, one ply
/// shallower unless the move is forced, is that score. It is empty only
/// when the score is `-INF`.
pub proof fn law_full_window_line_reaches_the_score<G: GameState>(
    depth: int,
    pv: Seq<u64>,
    history: Map<u64, i32>,
    game: G,
)
    requires
        depth > 0,
        !game.finished(),
        unreduced(depth, game),
        legal_line(game, pv),
    ensures
        ({
            let (v, line, _) = pvs_spec(-INF as int, INF as int, depth, pv, history, game);
            let d = if game.legal_moves().len() == 1 {
                depth + 1
            } else {
                depth
            };
            &&& line.len() > 0 ==> game.legal_moves().contains(line[0]) && -negamax(
                d - 1,
                game.after(line[0]),
            ) == v
            &&& line.len() == 0 ==> v == -INF
        }),
{
    broadcast use vstd::seq_lib::to_multiset_contains;

    let moves = game.legal_moves();
    let d = if moves.len() == 1 {
        depth + 1
    } else {
        depth
    };
    assert(d <= 3);
    if pv.len() > 0 {
        let mov = pv[0];
        if moves.len() == 1 {
            game.lemma_forced_shortens(mov);
        }
        let k = choose|k: int| 0 <= k < moves.len() && moves[k] == mov;
        assert(unreduced(d - 1, game.after(moves[k])));
        law_search_is_fail_soft_negamax(-INF as int, INF as int, d - 1, pv.drop_first(), history, game.after(mov));
        lemma_negamax_bounded(d - 1, game.after(mov));
        let child = pvs_spec(-INF as int, INF as int, d - 1, pv.drop_first(), history, game.after(mov));
        let score = -child.0;
        assert(-negamax(d - 1, game.after(mov)) == score);
        let line = seq![mov] + child.1;
        assert(line[0] == mov);
        if score < INF {
            let theta = history_weight(child.2, mov) as int;
            let bonus = 300 * d - 250;
            let h2 = child.2.insert(mov, ridge_value(theta, -bonus) as i32);
            let order = order_by_history(moves, h2);
            law_order_by_history_sorts(moves, h2);
            assert forall|j: int| 0 <= j < order.len() implies moves.contains(#[trigger] order[j]) by {
                assert(order.to_multiset().count(order[j]) > 0);
            }
            let start = Frame { alpha: score, best: score, pv: line, history: h2, cut: false };
            lemma_sweep_line(game, d, Some(mov), order, 0, start);
        }
    } else {
        let order = order_by_history(moves, history);
        law_order_by_history_sorts(moves, history);
        assert forall|j: int| 0 <= j < order.len() implies moves.contains(#[trigger] order[j]) by {
            assert(order.to_multiset().count(order[j]) > 0);
        }
        let start = Frame { alpha: -INF as int, best: -INF as int, pv, history, cut: false };
        lemma_sweep_line(game, d, None, order, 0, start);
    }
}

} // verus!

//! The solver: breadth-first search over the boards reachable from a start
//! configuration.  It returns a shortest solving move sequence, the empty
//! sequence when the start is already the goal, and `None` exactly when no
//! move sequence at all reaches the goal.

use vstd::prelude::*;

use crate::board::LightsOutPuzzle;
use crate::board::grid_dims;
use crate::board::is_goal_grid;
use crate::board::toggle_grid;

verus! {

/// The move names a cell inside a `rows` by `cols` grid.
pub open spec fn move_in_bounds(m: (usize, usize), rows: int, cols: int) -> bool {
    m.0 < rows && m.1 < cols
}

/// Every move of the sequence names a cell inside the grid.
pub open spec fn path_in_bounds(p: Seq<(usize, usize)>, rows: int, cols: int) -> bool {
    forall|k: int| 0 <= k < p.len() ==> move_in_bounds(#[trigger] p[k], rows, cols)
}

/// The grid after playing the whole move sequence, first move first.
pub open spec fn apply_path(g: Seq<Seq<bool>>, p: Seq<(usize, usize)>) -> Seq<Seq<bool>>
    decreases p.len(),
{
    if p.len() == 0 {
        g
    } else {
        apply_path(toggle_grid(g, p[0].0 as int, p[0].1 as int), p.drop_first())
    }
}

/// The move sequence stays on the board and ends in the goal.
pub open spec fn solves(b: LightsOutPuzzle, p: Seq<(usize, usize)>) -> bool {
    &&& path_in_bounds(p, b.rows as int, b.columns as int)
    &&& is_goal_grid(apply_path(b@, p))
}

/// Playing one more move after a sequence toggles the grid the sequence
/// reached.
pub proof fn lemma_apply_path_push(g: Seq<Seq<bool>>, p: Seq<(usize, usize)>, m: (usize, usize))
    ensures
        apply_path(g, p.push(m)) == toggle_grid(apply_path(g, p), m.0 as int, m.1 as int),
    decreases p.len(),
{
    let pm = p.push(m);
    if p.len() == 0 {
        assert(pm.drop_first() =~= Seq::<(usize, usize)>::empty());
        assert(apply_path(g, pm) == apply_path(
            toggle_grid(g, m.0 as int, m.1 as int),
            pm.drop_first(),
        ));
    } else {
        assert(pm[0] == p[0]);
        assert(pm.drop_first() =~= p.drop_first().push(m));
        lemma_apply_path_push(toggle_grid(g, p[0].0 as int, p[0].1 as int), p.drop_first(), m);
    }
}

/// One enqueued search node: a reached board and the move sequence that
/// produced it from the start board.
struct SearchState {
    board: LightsOutPuzzle,
    path: Vec<(usize, usize)>,
}

// ---------------------------------------------------------------------------
// The toggle graph has finitely many nodes: there are only finitely many
// grids of any fixed dimensions.  This bounds the search and proves that
// the breadth-first loop terminates.
// ---------------------------------------------------------------------------

/// Every grid with exactly `rows` rows of `cols` cells.
spec fn all_grids(rows: int, cols: int) -> Set<Seq<Seq<bool>>> {
    Set::new(|g: Seq<Seq<bool>>| grid_dims(g, rows, cols))
}

/// Every cell row of exactly `cols` cells.
spec fn all_rows(cols: int) -> Set<Seq<bool>> {
    Set::new(|s: Seq<bool>| s.len() == cols)
}

spec fn all_bools() -> Set<bool> {
    Set::new(|b: bool| true)
}

/// Every sequence that extends an element of `base` by one element of
/// `items`.
spec fn pushed_set<T>(base: Set<Seq<T>>, items: Set<T>) -> Set<Seq<T>> {
    Set::new(
        |s: Seq<T>|
            exists|s0: Seq<T>, x: T|
                base.contains(s0) && items.contains(x) && s == #[trigger] s0.push(x),
    )
}

proof fn lemma_all_bools_finite()
    ensures
        all_bools().finite(),
{
    broadcast use vstd::set::group_set_axioms;

    assert(all_bools() =~= Set::<bool>::empty().insert(true).insert(false));
}

proof fn lemma_pushed_set_finite<T>(base: Set<Seq<T>>, items: Set<T>)
    requires
        base.finite(),
        items.finite(),
    ensures
        pushed_set(base, items).finite(),
    decreases items.len(),
{
    broadcast use vstd::set::group_set_axioms;

    vstd::set_lib::lemma_set_empty_equivalency_len(items);
    if items.len() == 0 {
        assert(pushed_set(base, items) =~= Set::<Seq<T>>::empty());
    } else {
        let x = items.choose();
        assert(items.contains(x));
        let rest = items.remove(x);
        lemma_pushed_set_finite(base, rest);
        let f = |s0: Seq<T>| s0.push(x);
        base.lemma_map_finite(f);
        assert forall|s: Seq<T>| pushed_set(base, items).contains(s) implies pushed_set(
            base,
            rest,
        ).union(base.map(f)).contains(s) by {
            let (s0, y): (Seq<T>, T) = choose|s0: Seq<T>, y: T|
                base.contains(s0) && items.contains(y) && s == #[trigger] s0.push(y);
            if y == x {
                assert(s == f(s0));
                assert(base.map(f).contains(s));
            } else {
                assert(rest.contains(y));
                assert(pushed_set(base, rest).contains(s));
            }
        }
        assert forall|s: Seq<T>| pushed_set(base, rest).union(base.map(f)).contains(s)
            implies pushed_set(base, items).contains(s) by {
            if pushed_set(base, rest).contains(s) {
                let (s0, y): (Seq<T>, T) = choose|s0: Seq<T>, y: T|
                    base.contains(s0) && rest.contains(y) && s == #[trigger] s0.push(y);
                assert(items.contains(y));
                assert(pushed_set(base, items).contains(s));
            } else {
                let s0 = choose|s0: Seq<T>| base.contains(s0) && s == f(s0);
                assert(s == s0.push(x));
                assert(pushed_set(base, items).contains(s));
            }
        }
        assert(pushed_set(base, items) =~= pushed_set(base, rest).union(base.map(f)));
    }
}

proof fn lemma_all_rows_finite(cols: int)
    requires
        cols >= 0,
    ensures
        all_rows(cols).finite(),
    decreases cols,
{
    broadcast use vstd::set::group_set_axioms;

    if cols == 0 {
        assert forall|s: Seq<bool>| all_rows(0).contains(s) implies Set::<Seq<bool>>::empty()
            .insert(Seq::<bool>::empty()).contains(s) by {
            assert(s =~= Seq::<bool>::empty());
        }
        assert(all_rows(0) =~= Set::<Seq<bool>>::empty().insert(Seq::<bool>::empty()));
    } else {
        lemma_all_rows_finite(cols - 1);
        lemma_all_bools_finite();
        lemma_pushed_set_finite(all_rows(cols - 1), all_bools());
        assert forall|s: Seq<bool>| all_rows(cols).contains(s) implies pushed_set(
            all_rows(cols - 1),
            all_bools(),
        ).contains(s) by {
            let s0 = s.drop_last();
            assert(all_rows(cols - 1).contains(s0));
            assert(all_bools().contains(s.last()));
            assert(s0.push(s.last()) =~= s);
            assert(pushed_set(all_rows(cols - 1), all_bools()).contains(s));
        }
        assert forall|s: Seq<bool>| pushed_set(all_rows(cols - 1), all_bools()).contains(s)
            implies all_rows(cols).contains(s) by {
            let (s0, x): (Seq<bool>, bool) = choose|s0: Seq<bool>, x: bool|
                all_rows(cols - 1).contains(s0) && all_bools().contains(x) && s == #[trigger] s0.push(x);
            assert(s.len() == cols);
        }
        assert(all_rows(cols) =~= pushed_set(all_rows(cols - 1), all_bools()));
    }
}

proof fn lemma_all_grids_finite(rows: int, cols: int)
    requires
        rows >= 0,
        cols >= 0,
    ensures
        all_grids(rows, cols).finite(),
    decreases rows,
{
    broadcast use vstd::set::group_set_axioms;

    if rows == 0 {
        assert forall|g: Seq<Seq<bool>>| all_grids(0, cols).contains(g) implies Set::<
            Seq<Seq<bool>>,
        >::empty().insert(Seq::<Seq<bool>>::empty()).contains(g) by {
            assert(g =~= Seq::<Seq<bool>>::empty());
        }
        assert(all_grids(0, cols) =~= Set::<Seq<Seq<bool>>>::empty().insert(
            Seq::<Seq<bool>>::empty(),
        ));
    } else {
        lemma_all_grids_finite(rows - 1, cols);
        lemma_all_rows_finite(cols);
        lemma_pushed_set_finite(all_grids(rows - 1, cols), all_rows(cols));
        assert forall|g: Seq<Seq<bool>>| all_grids(rows, cols).contains(g) implies pushed_set(
            all_grids(rows - 1, cols),
            all_rows(cols),
        ).contains(g) by {
            let g0 = g.drop_last();
            assert(grid_dims(g0, rows - 1, cols)) by {
                assert forall|i: int| 0 <= i < g0.len() implies (#[trigger] g0[i]).len() == cols by {
                    assert(g0[i] == g[i]);
                }
            }
            assert(all_rows(cols).contains(g.last())) by {
                assert(g.last() == g[rows - 1]);
            }
            assert(g0.push(g.last()) =~= g);
            assert(pushed_set(all_grids(rows - 1, cols), all_rows(cols)).contains(g));
        }
        assert forall|g: Seq<Seq<bool>>| pushed_set(all_grids(rows - 1, cols), all_rows(cols)).contains(g)
            implies all_grids(rows, cols).contains(g) by {
            let (g0, x): (Seq<Seq<bool>>, Seq<bool>) = choose|g0: Seq<Seq<bool>>, x: Seq<bool>|
                all_grids(rows - 1, cols).contains(g0) && all_rows(cols).contains(x) && g == #[trigger] g0.push(x);
            assert forall|i: int| 0 <= i < g.len() implies (#[trigger] g[i]).len() == cols by {
                if i < rows - 1 {
                    assert(g[i] == g0[i]);
                } else {
                    assert(g[i] == x);
                }
            }
        }
        assert(all_grids(rows, cols) =~= pushed_set(all_grids(rows - 1, cols), all_rows(cols)));
    }
}

// ---------------------------------------------------------------------------
// Row-major indexing of the move list.
// ---------------------------------------------------------------------------

proof fn lemma_rowmajor_bounds(k: int, rows: int, cols: int)
    requires
        0 <= k < rows * cols,
        cols > 0,
    ensures
        0 <= k / cols < rows,
        0 <= k % cols < cols,
{
    vstd::arithmetic::div_mod::lemma_fundamental_div_mod(k, cols);
    vstd::arithmetic::div_mod::lemma_mod_bound(k, cols);
    let q = k / cols;
    let r = k % cols;
    assert(0 <= q < rows) by (nonlinear_arith)
        requires
            k == cols * q + r,
            0 <= r < cols,
            0 <= k,
            k < rows * cols,
            cols > 0,
    ;
}

proof fn lemma_rowmajor_index(rr: int, cc: int, rows: int, cols: int)
    requires
        0 <= rr < rows,
        0 <= cc < cols,
    ensures
        0 <= rr * cols + cc < rows * cols,
        (rr * cols + cc) / cols == rr,
        (rr * cols + cc) % cols == cc,
{
    assert(0 <= rr * cols + cc < rows * cols) by (nonlinear_arith)
        requires
            0 <= rr < rows,
            0 <= cc < cols,
    ;
    vstd::arithmetic::div_mod::lemma_fundamental_div_mod_converse(rr * cols + cc, cols, rr, cc);
}

// ---------------------------------------------------------------------------
// The search invariants.
// ---------------------------------------------------------------------------

/// Some already-enqueued node holds the board reached from node `k` by the
/// move `(rr, cc)`, with a path at most one move longer than node `k`'s.
spec fn child_present(es: Seq<SearchState>, k: int, rr: int, cc: int) -> bool {
    exists|k2: int|
        0 <= k2 < es.len() && (#[trigger] es[k2]).board@ == toggle_grid(es[k].board@, rr, cc)
            && es[k2].path@.len() <= es[k].path@.len() + 1
}

/// Every enqueued node is a well-formed non-goal board of the start's
/// dimensions, reached from the start by its recorded in-bounds path; the
/// first node is the start itself with the empty path.
spec fn entries_ok(es: Seq<SearchState>, start: LightsOutPuzzle) -> bool {
    &&& es.len() >= 1
    &&& es[0].board@ == start@
    &&& es[0].path@.len() == 0
    &&& forall|k: int|
        0 <= k < es.len() ==> {
            &&& (#[trigger] es[k]).board.well_formed()
            &&& es[k].board.rows == start.rows
            &&& es[k].board.columns == start.columns
            &&& path_in_bounds(es[k].path@, start.rows as int, start.columns as int)
            &&& apply_path(start@, es[k].path@) == es[k].board@
            &&& !is_goal_grid(es[k].board@)
        }
}

/// Recorded path lengths never decrease along the queue.
spec fn paths_sorted(es: Seq<SearchState>) -> bool {
    forall|k1: int, k2: int|
        0 <= k1 <= k2 < es.len() ==> (#[trigger] es[k1]).path@.len() <= (
        #[trigger] es[k2]).path@.len()
}

/// No enqueued path is more than one move longer than the head's.
spec fn frontier_tight(es: Seq<SearchState>, head: int) -> bool {
    forall|k: int|
        0 <= k < es.len() ==> (#[trigger] es[k]).path@.len() <= es[head].path@.len() + 1
}

/// Every node before `head` has all of its children enqueued.
spec fn processed_closed(es: Seq<SearchState>, head: int, rows: int, cols: int) -> bool {
    forall|k: int, rr: int, cc: int|
        0 <= k < head && 0 <= rr < rows && 0 <= cc < cols ==> #[trigger] child_present(
            es,
            k,
            rr,
            cc,
        )
}

/// Every board reachable by a path shorter than the head's is already held
/// by a processed node whose recorded path is no longer.
spec fn short_paths_covered(
    es: Seq<SearchState>,
    head: int,
    rows: int,
    cols: int,
    g0: Seq<Seq<bool>>,
) -> bool {
    forall|p: Seq<(usize, usize)>|
        #![trigger path_in_bounds(p, rows, cols)]
        path_in_bounds(p, rows, cols) && p.len() < es[head].path@.len() ==> exists|k: int|
            0 <= k < head && (#[trigger] es[k]).board@ == apply_path(g0, p)
                && es[k].path@.len() <= p.len()
}

/// The ghost set of already-seen grids mirrors the queue exactly.
spec fn seen_matches(es: Seq<SearchState>, seen: Set<Seq<Seq<bool>>>) -> bool {
    &&& seen.finite()
    &&& seen.len() == es.len()
    &&& forall|k: int| 0 <= k < es.len() ==> seen.contains((#[trigger] es[k]).board@)
    &&& forall|g: Seq<Seq<bool>>|
        #[trigger] seen.contains(g) ==> exists|k: int|
            0 <= k < es.len() && (#[trigger] es[k]).board@ == g
}

proof fn lemma_child_present_push(es: Seq<SearchState>, e: SearchState, k: int, rr: int, cc: int)
    requires
        0 <= k < es.len(),
        child_present(es, k, rr, cc),
    ensures
        child_present(es.push(e), k, rr, cc),
{
    let k2 = choose|k2: int|
        0 <= k2 < es.len() && (#[trigger] es[k2]).board@ == toggle_grid(es[k].board@, rr, cc)
            && es[k2].path@.len() <= es[k].path@.len() + 1;
    assert(es.push(e)[k2] == es[k2]);
    assert(es.push(e)[k] == es[k]);
}

proof fn lemma_closed_push(es: Seq<SearchState>, e: SearchState, head: int, rows: int, cols: int)
    requires
        0 <= head <= es.len(),
        processed_closed(es, head, rows, cols),
    ensures
        processed_closed(es.push(e), head, rows, cols),
{
    assert forall|k: int, rr: int, cc: int|
        0 <= k < head && 0 <= rr < rows && 0 <= cc < cols implies #[trigger] child_present(
        es.push(e),
        k,
        rr,
        cc,
    ) by {
        assert(child_present(es, k, rr, cc));
        lemma_child_present_push(es, e, k, rr, cc);
    }
}

proof fn lemma_cover_push(
    es: Seq<SearchState>,
    e: SearchState,
    head: int,
    rows: int,
    cols: int,
    g0: Seq<Seq<bool>>,
)
    requires
        0 <= head < es.len(),
        short_paths_covered(es, head, rows, cols, g0),
    ensures
        short_paths_covered(es.push(e), head, rows, cols, g0),
{
    let es2 = es.push(e);
    assert(es2[head] == es[head]);
    assert forall|p: Seq<(usize, usize)>|
        #![trigger path_in_bounds(p, rows, cols)]
        path_in_bounds(p, rows, cols) && p.len() < es2[head].path@.len() implies exists|k: int|
        0 <= k < head && (#[trigger] es2[k]).board@ == apply_path(g0, p)
            && es2[k].path@.len() <= p.len() by {
        let target = apply_path(g0, p);
        assert(path_in_bounds(p, rows, cols) && p.len() < es[head].path@.len());
        assert(exists|k: int|
            0 <= k < head && (#[trigger] es[k]).board@ == target && es[k].path@.len() <= p.len());
        let k = choose|k: int|
            0 <= k < head && (#[trigger] es[k]).board@ == target && es[k].path@.len() <= p.len();
        assert(es2[k] == es[k]);
        assert(es2[k].board@ == target && es2[k].path@.len() <= p.len());
    }
}

/// Advancing the head keeps every shorter path covered: the classic
/// breadth-first level argument.
#[verifier::rlimit(100)]
#[verifier::spinoff_prover]
proof fn lemma_advance_cover(
    es: Seq<SearchState>,
    h: int,
    rows: int,
    cols: int,
    g0: Seq<Seq<bool>>,
)
    requires
        0 <= h,
        h + 1 < es.len(),
        es.len() >= 1,
        es[0].board@ == g0,
        es[0].path@.len() == 0,
        paths_sorted(es),
        frontier_tight(es, h),
        short_paths_covered(es, h, rows, cols, g0),
        processed_closed(es, h + 1, rows, cols),
    ensures
        short_paths_covered(es, h + 1, rows, cols, g0),
{
    let lh = es[h].path@.len() as int;
    let ln = es[h + 1].path@.len() as int;
    assert(lh <= ln);
    assert(ln <= lh + 1);
    assert forall|p: Seq<(usize, usize)>|
        #![trigger path_in_bounds(p, rows, cols)]
        path_in_bounds(p, rows, cols) && p.len() < ln implies exists|k: int|
        0 <= k < h + 1 && (#[trigger] es[k]).board@ == apply_path(g0, p)
            && es[k].path@.len() <= p.len() by {
        if p.len() < lh {
            let k = choose|k: int|
                0 <= k < h && (#[trigger] es[k]).board@ == apply_path(g0, p) && es[k].path@.len()
                    <= p.len();
            assert(0 <= k < h + 1 && es[k].board@ == apply_path(g0, p) && es[k].path@.len()
                <= p.len());
        } else {
            // p.len() == lh, and ln == lh + 1.
            if p.len() == 0 {
                assert(es[0].board@ == apply_path(g0, p));
            } else {
                let q = p.drop_last();
                let m = p.last();
                assert(path_in_bounds(q, rows, cols)) by {
                    assert forall|k: int| 0 <= k < q.len() implies move_in_bounds(
                        #[trigger] q[k],
                        rows,
                        cols,
                    ) by {
                        assert(q[k] == p[k]);
                    }
                }
                let target = apply_path(g0, q);
                let kq = choose|kq: int|
                    0 <= kq < h && (#[trigger] es[kq]).board@ == target && es[kq].path@.len()
                        <= q.len();
                assert(move_in_bounds(p[p.len() - 1], rows, cols));
                assert(child_present(es, kq, m.0 as int, m.1 as int));
                let k2 = choose|k2: int|
                    0 <= k2 < es.len() && (#[trigger] es[k2]).board@ == toggle_grid(
                        es[kq].board@,
                        m.0 as int,
                        m.1 as int,
                    ) && es[k2].path@.len() <= es[kq].path@.len() + 1;
                lemma_apply_path_push(g0, q, m);
                assert(q.push(m) =~= p);
                assert(es[k2].board@ == apply_path(g0, p));
                assert(es[k2].path@.len() <= p.len());
                // A node past the new head would carry a longer path.
                if k2 >= h + 1 {
                    assert(es[h + 1].path@.len() <= es[k2].path@.len());
                    assert(false);
                }
            }
        }
    }
}

/// When the search first reaches the goal, the finished sequence solves the
/// start board and no solving sequence is shorter: everything reachable by
/// fewer moves is already enqueued, and nothing enqueued is the goal.
#[verifier::rlimit(100)]
#[verifier::spinoff_prover]
proof fn lemma_goal_return(
    es: Seq<SearchState>,
    start: LightsOutPuzzle,
    h: int,
    mv: (usize, usize),
)
    requires
        entries_ok(es, start),
        0 <= h < es.len(),
        short_paths_covered(es, h, start.rows as int, start.columns as int, start@),
        processed_closed(es, h, start.rows as int, start.columns as int),
        move_in_bounds(mv, start.rows as int, start.columns as int),
        is_goal_grid(toggle_grid(es[h].board@, mv.0 as int, mv.1 as int)),
    ensures
        solves(start, es[h].path@.push(mv)),
        forall|q: Seq<(usize, usize)>| solves(start, q) ==> es[h].path@.len() + 1 <= q.len(),
{
    let rows = start.rows as int;
    let cols = start.columns as int;
    let g0 = start@;
    let res = es[h].path@.push(mv);
    let lh = es[h].path@.len() as int;
    // The returned sequence solves the board.
    lemma_apply_path_push(g0, es[h].path@, mv);
    assert(apply_path(g0, res) == toggle_grid(es[h].board@, mv.0 as int, mv.1 as int));
    assert forall|k: int| 0 <= k < res.len() implies move_in_bounds(
        #[trigger] res[k],
        rows,
        cols,
    ) by {
        if k < lh {
            assert(res[k] == es[h].path@[k]);
        } else {
            assert(res[k] == mv);
        }
    }
    // No solving sequence is shorter.
    assert forall|q: Seq<(usize, usize)>| solves(start, q) implies lh + 1 <= q.len() by {
        if (q.len() as int) < lh + 1 {
            if (q.len() as int) < lh {
                let target = apply_path(g0, q);
                assert(exists|kq: int|
                    0 <= kq < h && (#[trigger] es[kq]).board@ == target && es[kq].path@.len()
                        <= q.len());
                let kq = choose|kq: int|
                    0 <= kq < h && (#[trigger] es[kq]).board@ == target && es[kq].path@.len()
                        <= q.len();
                assert(!is_goal_grid(es[kq].board@));
                assert(false);
            } else {
                // q.len() == lh
                if q.len() == 0 {
                    assert(q =~= Seq::<(usize, usize)>::empty());
                    assert(apply_path(g0, q) == g0);
                    assert(!is_goal_grid(es[0].board@));
                    assert(false);
                } else {
                    let q0 = q.drop_last();
                    let m = q.last();
                    assert(path_in_bounds(q0, rows, cols)) by {
                        assert forall|k: int| 0 <= k < q0.len() implies move_in_bounds(
                            #[trigger] q0[k],
                            rows,
                            cols,
                        ) by {
                            assert(q0[k] == q[k]);
                        }
                    }
                    let target = apply_path(g0, q0);
                    assert(exists|kq: int|
                        0 <= kq < h && (#[trigger] es[kq]).board@ == target && es[kq].path@.len()
                            <= q0.len());
                    let kq = choose|kq: int|
                        0 <= kq < h && (#[trigger] es[kq]).board@ == target && es[kq].path@.len()
                            <= q0.len();
                    assert(move_in_bounds(q[q.len() - 1], rows, cols));
                    assert(child_present(es, kq, m.0 as int, m.1 as int));
                    let k2 = choose|k2: int|
                        0 <= k2 < es.len() && (#[trigger] es[k2]).board@ == toggle_grid(
                            es[kq].board@,
                            m.0 as int,
                            m.1 as int,
                        ) && es[k2].path@.len() <= es[kq].path@.len() + 1;
                    lemma_apply_path_push(g0, q0, m);
                    assert(q0.push(m) =~= q);
                    assert(es[k2].board@ == apply_path(g0, q));
                    assert(!is_goal_grid(es[k2].board@));
                    assert(false);
                }
            }
        }
    }
}

/// Enqueueing a newly discovered non-goal child keeps every search
/// invariant.
#[verifier::rlimit(100)]
#[verifier::spinoff_prover]
proof fn lemma_enqueue(
    pre: Seq<SearchState>,
    es: Seq<SearchState>,
    start: LightsOutPuzzle,
    h: int,
    mv: (usize, usize),
    seen: Set<Seq<Seq<bool>>>,
)
    requires
        es.len() == pre.len() + 1,
        forall|k: int| 0 <= k < pre.len() ==> es[k] == pre[k],
        entries_ok(pre, start),
        paths_sorted(pre),
        0 <= h < pre.len(),
        frontier_tight(pre, h),
        short_paths_covered(pre, h, start.rows as int, start.columns as int, start@),
        processed_closed(pre, h, start.rows as int, start.columns as int),
        seen_matches(pre, seen),
        move_in_bounds(mv, start.rows as int, start.columns as int),
        es[pre.len() as int].board@ == toggle_grid(pre[h].board@, mv.0 as int, mv.1 as int),
        es[pre.len() as int].path@ == pre[h].path@.push(mv),
        es[pre.len() as int].board.well_formed(),
        es[pre.len() as int].board.rows == start.rows,
        es[pre.len() as int].board.columns == start.columns,
        !is_goal_grid(es[pre.len() as int].board@),
        !(exists|k: int|
            0 <= k < pre.len() && (#[trigger] pre[k]).board@ == es[pre.len() as int].board@),
    ensures
        entries_ok(es, start),
        paths_sorted(es),
        frontier_tight(es, h),
        short_paths_covered(es, h, start.rows as int, start.columns as int, start@),
        processed_closed(es, h, start.rows as int, start.columns as int),
        seen_matches(es, seen.insert(es[pre.len() as int].board@)),
        child_present(es, h, mv.0 as int, mv.1 as int),
        forall|k: int, rr: int, cc: int|
            0 <= k < pre.len() && #[trigger] child_present(pre, k, rr, cc) ==> child_present(
                es,
                k,
                rr,
                cc,
            ),
{
    broadcast use vstd::set::group_set_axioms;

    let rows = start.rows as int;
    let cols = start.columns as int;
    let n = pre.len() as int;
    let e = es[n];
    assert(es =~= pre.push(e));
    // The new node is sound: reached from the start by its in-bounds path.
    lemma_apply_path_push(start@, pre[h].path@, mv);
    assert(apply_path(start@, e.path@) == e.board@);
    assert forall|k: int| 0 <= k < e.path@.len() implies move_in_bounds(
        #[trigger] e.path@[k],
        rows,
        cols,
    ) by {
        if k < pre[h].path@.len() {
            assert(e.path@[k] == pre[h].path@[k]);
        } else {
            assert(e.path@[k] == mv);
        }
    }
    assert(entries_ok(es, start));
    assert(paths_sorted(es)) by {
        assert(e.path@.len() == pre[h].path@.len() + 1);
    }
    assert(frontier_tight(es, h)) by {
        assert(es[h] == pre[h]);
    }
    lemma_closed_push(pre, e, h, rows, cols);
    lemma_cover_push(pre, e, h, rows, cols, start@);
    assert(child_present(es, h, mv.0 as int, mv.1 as int)) by {
        assert(es[n].board@ == toggle_grid(es[h].board@, mv.0 as int, mv.1 as int));
        assert(es[n].path@.len() <= es[h].path@.len() + 1);
    }
    assert forall|k: int, rr: int, cc: int|
        0 <= k < pre.len() && #[trigger] child_present(pre, k, rr, cc) implies child_present(
        es,
        k,
        rr,
        cc,
    ) by {
        lemma_child_present_push(pre, e, k, rr, cc);
    }
    // The seen set extended by the new grid mirrors the longer queue.
    let g_new = e.board@;
    assert(!seen.contains(g_new));
    assert(seen_matches(es, seen.insert(g_new))) by {
        assert forall|g: Seq<Seq<bool>>| #[trigger] seen.insert(g_new).contains(g)
            implies exists|k: int| 0 <= k < es.len() && (#[trigger] es[k]).board@ == g by {
            if g == g_new {
                assert(es[n].board@ == g);
            } else {
                assert(seen.contains(g));
                let k = choose|k: int| 0 <= k < pre.len() && (#[trigger] pre[k]).board@ == g;
                assert(es[k].board@ == g);
            }
        }
        assert forall|k: int| 0 <= k < es.len() implies seen.insert(g_new).contains(
            (#[trigger] es[k]).board@,
        ) by {
            if k < n {
                assert(seen.contains(pre[k].board@));
            }
        }
    }
}

/// Once every enqueued node is processed, the queue holds every reachable
/// board.
proof fn lemma_closed_reachable(
    es: Seq<SearchState>,
    start: LightsOutPuzzle,
    p: Seq<(usize, usize)>,
)
    requires
        es.len() >= 1,
        es[0].board@ == start@,
        processed_closed(es, es.len() as int, start.rows as int, start.columns as int),
        path_in_bounds(p, start.rows as int, start.columns as int),
    ensures
        exists|k: int| 0 <= k < es.len() && (#[trigger] es[k]).board@ == apply_path(start@, p),
    decreases p.len(),
{
    if p.len() == 0 {
        assert(es[0].board@ == apply_path(start@, p));
    } else {
        let q = p.drop_last();
        let m = p.last();
        assert(path_in_bounds(q, start.rows as int, start.columns as int)) by {
            assert forall|k: int| 0 <= k < q.len() implies move_in_bounds(
                #[trigger] q[k],
                start.rows as int,
                start.columns as int,
            ) by {
                assert(q[k] == p[k]);
            }
        }
        lemma_closed_reachable(es, start, q);
        let kq = choose|kq: int|
            0 <= kq < es.len() && (#[trigger] es[kq]).board@ == apply_path(start@, q);
        assert(move_in_bounds(p[p.len() - 1], start.rows as int, start.columns as int));
        assert(child_present(es, kq, m.0 as int, m.1 as int));
        let k2 = choose|k2: int|
            0 <= k2 < es.len() && (#[trigger] es[k2]).board@ == toggle_grid(
                es[kq].board@,
                m.0 as int,
                m.1 as int,
            ) && es[k2].path@.len() <= es[kq].path@.len() + 1;
        lemma_apply_path_push(start@, q, m);
        assert(q.push(m) =~= p);
        assert(es[k2].board@ == apply_path(start@, p));
    }
}

// ---------------------------------------------------------------------------
// Executable helpers.
// ---------------------------------------------------------------------------

fn rows_eq(x: &Vec<bool>, y: &Vec<bool>) -> (r: bool)
    ensures
        r == (x@ == y@),
{
    if x.len() != y.len() {
        return false;
    }
    let mut k: usize = 0;
    while k < x.len()
        invariant
            k <= x@.len(),
            x@.len() == y@.len(),
            forall|l: int| 0 <= l < k ==> x@[l] == y@[l],
        decreases x@.len() - k,
    {
        if x[k] != y[k] {
            return false;
        }
        k = k + 1;
    }
    assert(x@ =~= y@);
    true
}

fn boards_eq(a: &LightsOutPuzzle, b: &LightsOutPuzzle) -> (r: bool)
    requires
        a.well_formed(),
        b.well_formed(),
    ensures
        r == (a@ == b@),
{
    if a.rows != b.rows {
        assert(a@.len() != b@.len());
        return false;
    }
    if a.columns != b.columns {
        assert(a@[0].len() != b@[0].len());
        return false;
    }
    let mut i: usize = 0;
    while i < a.rows
        invariant
            a.well_formed(),
            b.well_formed(),
            a.rows == b.rows,
            a.columns == b.columns,
            i <= a.rows,
            forall|k: int| 0 <= k < i ==> a@[k] == b@[k],
        decreases a.rows - i,
    {
        proof {
            assert(a@.len() == a.board@.len());
            assert(a@[i as int] == a.board@[i as int]@);
            assert(b@.len() == b.board@.len());
            assert(b@[i as int] == b.board@[i as int]@);
        }
        if !rows_eq(&a.board[i], &b.board[i]) {
            assert(a@[i as int] != b@[i as int]);
            return false;
        }
        i = i + 1;
    }
    assert(a@ =~~= b@);
    true
}

fn contains_board(entries: &Vec<SearchState>, b: &LightsOutPuzzle) -> (r: bool)
    requires
        b.well_formed(),
        forall|k: int| 0 <= k < entries@.len() ==> (#[trigger] entries@[k]).board.well_formed(),
    ensures
        r == exists|k: int| 0 <= k < entries@.len() && (#[trigger] entries@[k]).board@ == b@,
{
    let mut k: usize = 0;
    while k < entries.len()
        invariant
            b.well_formed(),
            forall|j: int| 0 <= j < entries@.len() ==> (#[trigger] entries@[j]).board.well_formed(),
            k <= entries@.len(),
            forall|j: int| 0 <= j < k ==> (#[trigger] entries@[j]).board@ != b@,
        decreases entries@.len() - k,
    {
        if boards_eq(&entries[k].board, b) {
            assert(entries@[k as int].board@ == b@);
            return true;
        }
        k = k + 1;
    }
    false
}

fn copy_path(p: &Vec<(usize, usize)>) -> (r: Vec<(usize, usize)>)
    ensures
        r@ == p@,
{
    let mut r: Vec<(usize, usize)> = Vec::new();
    let mut k: usize = 0;
    while k < p.len()
        invariant
            k <= p@.len(),
            r@.len() == k,
            forall|l: int| 0 <= l < k ==> r@[l] == p@[l],
        decreases p@.len() - k,
    {
        r.push(p[k]);
        k = k + 1;
    }
    assert(r@ =~= p@);
    r
}

// ---------------------------------------------------------------------------
// The solver itself.
// ---------------------------------------------------------------------------

/// After every move of the head node has been covered, the head counts as
/// processed, and the breadth-first level facts move to the next node.
#[verifier::rlimit(100)]
#[verifier::spinoff_prover]
proof fn lemma_head_done(
    es: Seq<SearchState>,
    start: LightsOutPuzzle,
    h: int,
    moves: Seq<(usize, usize)>,
)
    requires
        entries_ok(es, start),
        paths_sorted(es),
        0 <= h < es.len(),
        frontier_tight(es, h),
        short_paths_covered(es, h, start.rows as int, start.columns as int, start@),
        processed_closed(es, h, start.rows as int, start.columns as int),
        moves.len() == start.rows * start.columns,
        forall|k: int| 0 <= k < moves.len() ==> #[trigger] moves[k] == (
        ((k / (start.columns as int)) as usize, (k % (start.columns as int)) as usize)),
        forall|mk: int| 0 <= mk < moves.len() ==> child_present(
            es,
            h,
            (#[trigger] moves[mk]).0 as int,
            moves[mk].1 as int,
        ),
    ensures
        processed_closed(es, h + 1, start.rows as int, start.columns as int),
        h + 1 < es.len() ==> frontier_tight(es, h + 1),
        h + 1 < es.len() ==> short_paths_covered(
            es,
            h + 1,
            start.rows as int,
            start.columns as int,
            start@,
        ),
{
    let rows = start.rows as int;
    let cols = start.columns as int;
    assert forall|k: int, rr: int, cc: int|
        0 <= k < h + 1 && 0 <= rr < rows && 0 <= cc < cols implies #[trigger] child_present(
        es,
        k,
        rr,
        cc,
    ) by {
        if k == h {
            lemma_rowmajor_index(rr, cc, rows, cols);
            let idx = rr * cols + cc;
            assert(moves[idx] == (((idx / cols) as usize, (idx % cols) as usize)));
            assert(moves[idx].0 as int == rr && moves[idx].1 as int == cc);
            assert(child_present(es, h, moves[idx].0 as int, moves[idx].1 as int));
        }
    }
    assert(processed_closed(es, h + 1, rows, cols));
    if h + 1 < es.len() {
        assert(frontier_tight(es, h + 1)) by {
            assert(es[h].path@.len() <= es[h + 1].path@.len());
        }
        lemma_advance_cover(es, h, rows, cols, start@);
    }
}

/// Expands the head node: tries every move on it, returning a finished
/// shortest solution as soon as one move reaches the goal, and otherwise
/// enqueueing every newly seen child.
#[verifier::loop_isolation(false)]
#[verifier::rlimit(100)]
#[verifier::spinoff_prover]
fn expand_head(
    start: &LightsOutPuzzle,
    moves: &Vec<(usize, usize)>,
    entries: &mut Vec<SearchState>,
    head: usize,
    Ghost(seen_in): Ghost<Set<Seq<Seq<bool>>>>,
) -> (res: (Option<Vec<(usize, usize)>>, Ghost<Set<Seq<Seq<bool>>>>))
    requires
        start.well_formed(),
        moves@.len() == start.rows * start.columns,
        forall|k: int| 0 <= k < moves@.len() ==> #[trigger] moves@[k] == (
        ((k / (start.columns as int)) as usize, (k % (start.columns as int)) as usize)),
        forall|k: int| 0 <= k < moves@.len() ==> move_in_bounds(
            #[trigger] moves@[k],
            start.rows as int,
            start.columns as int,
        ),
        head < old(entries)@.len(),
        entries_ok(old(entries)@, *start),
        paths_sorted(old(entries)@),
        frontier_tight(old(entries)@, head as int),
        short_paths_covered(
            old(entries)@,
            head as int,
            start.rows as int,
            start.columns as int,
            start@,
        ),
        processed_closed(old(entries)@, head as int, start.rows as int, start.columns as int),
        seen_matches(old(entries)@, seen_in),
        seen_in.subset_of(all_grids(start.rows as int, start.columns as int)),
        all_grids(start.rows as int, start.columns as int).finite(),
    ensures
        res.0 matches Some(p) ==> {
            &&& solves(*start, p@)
            &&& forall|q: Seq<(usize, usize)>| solves(*start, q) ==> p@.len() <= q.len()
        },
        res.0 is None ==> {
            &&& final(entries)@.len() >= old(entries)@.len()
            &&& head < final(entries)@.len()
            &&& entries_ok(final(entries)@, *start)
            &&& paths_sorted(final(entries)@)
            &&& processed_closed(
                final(entries)@,
                head as int + 1,
                start.rows as int,
                start.columns as int,
            )
            &&& (head as int + 1 < final(entries)@.len() ==> frontier_tight(
                final(entries)@,
                head as int + 1,
            ))
            &&& (head as int + 1 < final(entries)@.len() ==> short_paths_covered(
                final(entries)@,
                head as int + 1,
                start.rows as int,
                start.columns as int,
                start@,
            ))
            &&& seen_matches(final(entries)@, res.1@)
            &&& res.1@.subset_of(all_grids(start.rows as int, start.columns as int))
        },
{
    let rows = start.rows;
    let columns = start.columns;
    let ghost mut seen: Set<Seq<Seq<bool>>> = seen_in;
    let cur_board = entries[head].board.copy_board();
    let cur_path = copy_path(&entries[head].path);
    let mut mi: usize = 0;
    while mi < moves.len()
        invariant
            head < entries@.len(),
            entries@.len() >= old(entries)@.len(),
            mi <= moves@.len(),
            entries_ok(entries@, *start),
            paths_sorted(entries@),
            frontier_tight(entries@, head as int),
            short_paths_covered(entries@, head as int, rows as int, columns as int, start@),
            processed_closed(entries@, head as int, rows as int, columns as int),
            seen_matches(entries@, seen),
            seen.subset_of(all_grids(rows as int, columns as int)),
            cur_board.well_formed(),
            cur_board.rows == rows,
            cur_board.columns == columns,
            cur_board@ == entries@[head as int].board@,
            cur_path@ == entries@[head as int].path@,
            forall|mk: int| 0 <= mk < mi ==> child_present(
                entries@,
                head as int,
                (#[trigger] moves@[mk]).0 as int,
                moves@[mk].1 as int,
            ),
        decreases moves@.len() - mi,
    {
        let mv = moves[mi];
        let child = cur_board.toggled(mv.0, mv.1);
        let ghost child_v = child@;
        if !contains_board(&entries, &child) {
            if child.solved() {
                let mut res_path = copy_path(&cur_path);
                res_path.push(mv);
                proof {
                    lemma_goal_return(entries@, *start, head as int, mv);
                    assert(res_path@ == entries@[head as int].path@.push(mv));
                }
                return (Some(res_path), Ghost(seen));
            }
            let mut child_path = copy_path(&cur_path);
            child_path.push(mv);
            let ghost pre = entries@;
            let ghost old_seen = seen;
            entries.push(SearchState { board: child, path: child_path });
            proof {
                let es = entries@;
                let h = head as int;
                let n = pre.len() as int;
                assert(es[n].board@ == child_v);
                lemma_enqueue(pre, es, *start, h, mv, old_seen);
                seen = old_seen.insert(es[n].board@);
                assert forall|mk: int| 0 <= mk < mi + 1 implies child_present(
                    es,
                    h,
                    (#[trigger] moves@[mk]).0 as int,
                    moves@[mk].1 as int,
                ) by {
                    if mk < mi {
                        assert(child_present(pre, h, moves@[mk].0 as int, moves@[mk].1 as int));
                    }
                }
                assert(grid_dims(es[n].board@, rows as int, columns as int));
                assert(seen.subset_of(all_grids(rows as int, columns as int)));
            }
        } else {
            proof {
                let es = entries@;
                let h = head as int;
                let k2 = choose|k: int| 0 <= k < es.len() && (#[trigger] es[k]).board@ == child_v;
                assert(es[k2].path@.len() <= es[h].path@.len() + 1);
                assert(child_present(es, h, mv.0 as int, mv.1 as int));
                assert forall|mk: int| 0 <= mk < mi + 1 implies child_present(
                    es,
                    h,
                    (#[trigger] moves@[mk]).0 as int,
                    moves@[mk].1 as int,
                ) by {
                    assert(0 <= mk < mi || mk == mi);
                }
            }
        }
        mi = mi + 1;
    }
    proof {
        lemma_head_done(entries@, *start, head as int, moves@);
    }
    (None, Ghost(seen))
}

impl LightsOutPuzzle {
    /// Breadth-first search from this board towards the all-lit goal.
    ///
    /// Returns the empty sequence when the board is already the goal, a
    /// shortest in-bounds solving sequence when the goal is reachable, and
    /// `None` exactly when no move sequence solves the board.
    #[verifier::loop_isolation(false)]
    #[verifier::rlimit(100)]
    pub fn solve(&self) -> (r: Option<Vec<(usize, usize)>>)
        requires
            self.well_formed(),
        ensures
            is_goal_grid(self@) ==> (r matches Some(p) && p@.len() == 0),
            r matches Some(p) ==> solves(*self, p@),
            r matches Some(p) ==> forall|q: Seq<(usize, usize)>|
                solves(*self, q) ==> p@.len() <= q.len(),
            r is None ==> forall|q: Seq<(usize, usize)>| !solves(*self, q),
    {
        let rows = self.rows;
        let columns = self.columns;
        if self.solved() {
            let empty_path: Vec<(usize, usize)> = Vec::new();
            return Some(empty_path);
        }
        let moves = self.successors();
        proof {
            assert forall|k: int| 0 <= k < moves@.len() implies move_in_bounds(
                #[trigger] moves@[k],
                rows as int,
                columns as int,
            ) by {
                lemma_rowmajor_bounds(k, rows as int, columns as int);
            }
            lemma_all_grids_finite(rows as int, columns as int);
        }
        let mut entries: Vec<SearchState> = Vec::new();
        let start_board = self.copy_board();
        let empty_path: Vec<(usize, usize)> = Vec::new();
        entries.push(SearchState { board: start_board, path: empty_path });
        let ghost mut seen: Set<Seq<Seq<bool>>> = Set::<Seq<Seq<bool>>>::empty().insert(self@);
        proof {
            broadcast use vstd::set::group_set_axioms;

            assert(entries@[0].board@ == self@);
            assert(apply_path(self@, entries@[0].path@) == self@);
            assert(seen.subset_of(all_grids(rows as int, columns as int)));
            vstd::set_lib::lemma_len_subset(seen, all_grids(rows as int, columns as int));
        }
        let mut head: usize = 0;
        while head < entries.len()
            invariant
                head <= entries@.len(),
                entries_ok(entries@, *self),
                paths_sorted(entries@),
                head < entries@.len() ==> frontier_tight(entries@, head as int),
                head < entries@.len() ==> short_paths_covered(
                    entries@,
                    head as int,
                    rows as int,
                    columns as int,
                    self@,
                ),
                processed_closed(entries@, head as int, rows as int, columns as int),
                seen_matches(entries@, seen),
                seen.subset_of(all_grids(rows as int, columns as int)),
                entries@.len() <= all_grids(rows as int, columns as int).len(),
            decreases
                    all_grids(rows as int, columns as int).len() - entries@.len(),
                    entries@.len() - head,
        {
            let (found, seen_out) = expand_head(self, &moves, &mut entries, head, Ghost(seen));
            proof {
                seen = seen_out@;
            }
            match found {
                Some(res) => {
                    proof {
                        assert(!is_goal_grid(self@));
                    }
                    return Some(res);
                },
                None => {},
            }
            proof {
                vstd::set_lib::lemma_len_subset(
                    seen,
                    all_grids(rows as int, columns as int),
                );
            }
            head = head + 1;
        }
        proof {
            let es = entries@;
            assert forall|q: Seq<(usize, usize)>| !solves(*self, q) by {
                if path_in_bounds(q, rows as int, columns as int) {
                    lemma_closed_reachable(es, *self, q);
                    let k = choose|k: int|
                        0 <= k < es.len() && (#[trigger] es[k]).board@ == apply_path(self@, q);
                    assert(!is_goal_grid(es[k].board@));
                }
            }
        }
        None
    }
}

} // verus!

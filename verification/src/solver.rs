use crate::board::Board;
use crate::grid::{
    candidates_of, cell_index, col_of, conflict_free, is_peer, is_solved, lemma_candidates_of,
    lemma_coordinates, lemma_peer_count_zero, lemma_peer_symmetric, lemma_position,
    lemma_solved_iff_full_and_conflict_free, peer_count, row_of, well_formed, Grid,
};
use crate::randomness::{choose_index, next_draw, pick, seeded_draws, seeded_generator, upcoming};
use vstd::prelude::*;

verus! {

/// Why solving gave no full board.
#[derive(Clone, Copy, Debug, PartialEq, Eq, Structural)]
pub enum SolveError {
    /// The search backed out of the first empty cell: the puzzle cannot be
    /// completed.
    SearchExhausted,
}

/// The positions below `n` that `start` leaves empty, in ascending order.
pub open spec fn empties_upto(start: Grid, n: int) -> Seq<int>
    decreases n,
{
    if n <= 0 {
        Seq::empty()
    } else {
        let rest = empties_upto(start, n - 1);
        if start[n - 1] is None {
            rest.push(n - 1)
        } else {
            rest
        }
    }
}

/// The cells that the search has to fill, in the order in which it fills them.
pub open spec fn empties_of(start: Grid) -> Seq<int> {
    empties_upto(start, 81)
}

/// The first `n` of `cands` that are not flagged in `tried`, in their order.
pub open spec fn untried_upto(cands: Seq<u8>, tried: Seq<bool>, n: int) -> Seq<u8>
    decreases n,
{
    if n <= 0 {
        Seq::empty()
    } else {
        let rest = untried_upto(cands, tried, n - 1);
        if tried[cands[n - 1] - 1] {
            rest
        } else {
            rest.push(cands[n - 1])
        }
    }
}

/// The search as contracts see it: the puzzle as it was given, the grid as it
/// is, for each cell the digits already tried there, and how many of the
/// empty cells are filled.
pub struct SolveState {
    pub start: Grid,
    pub grid: Grid,
    pub tried: Seq<Seq<bool>>,
    pub cursor: int,
}

impl SolveState {
    /// The cell to fill next.
    pub open spec fn target(self) -> int {
        empties_of(self.start)[self.cursor]
    }

    /// The values that can go into the cell to fill next: its candidates on
    /// the grid, less those already tried there.
    pub open spec fn options(self) -> Seq<u8> {
        let cands = candidates_of(self.grid, self.target());
        untried_upto(cands, self.tried[self.target()], cands.len() as int)
    }

    /// Whether digit `v` is flagged as tried at the `i`-th empty cell.
    pub open spec fn was_tried(self, i: int, v: u8) -> bool {
        self.tried[empties_of(self.start)[i]][v - 1]
    }
}

/// Where a search of `start` begins: nothing filled, nothing tried.
pub open spec fn initial_state(start: Grid) -> SolveState {
    SolveState {
        start,
        grid: start,
        tried: Seq::new(81, |p: int| Seq::new(9, |k: int| false)),
        cursor: 0,
    }
}

/// The forward step: the cell to fill next is given the value that `draw`
/// picks from its options, the value is flagged as tried there, the cursor
/// moves on, and the cell it then stands on starts with nothing tried.
pub open spec fn forward(s: SolveState, draw: u32) -> SolveState {
    let p = s.target();
    let v = pick(s.options(), draw);
    let marked = s.tried.update(p, s.tried[p].update(v - 1, true));
    let next = s.cursor + 1;
    SolveState {
        start: s.start,
        grid: s.grid.update(p, Some(v)),
        tried: if next < empties_of(s.start).len() {
            marked.update(empties_of(s.start)[next], Seq::new(9, |k: int| false))
        } else {
            marked
        },
        cursor: next,
    }
}

/// The backward step: the cursor moves back and the cell it then stands on is
/// cleared; what was tried there stays tried.
pub open spec fn backward(s: SolveState) -> SolveState {
    SolveState {
        start: s.start,
        grid: s.grid.update(empties_of(s.start)[s.cursor - 1], None),
        tried: s.tried,
        cursor: s.cursor - 1,
    }
}

/// `f` completes the puzzle `start`: it is full, keeps every given value, and
/// in it no cell that `start` left empty holds the value of a peer.
pub open spec fn is_completion(start: Grid, f: Grid) -> bool {
    &&& well_formed(f)
    &&& forall|p: int| 0 <= p < 81 ==> (#[trigger] f[p]) is Some
    &&& forall|p: int| 0 <= p < 81 && start[p] is Some ==> #[trigger] f[p] == start[p]
    &&& forall|p: int, q: int|
        0 <= p < 81 && 0 <= q < 81 && start[p] is None && #[trigger] is_peer(p, q) ==> f[q] != f[p]
}

/// `f` and `g` hold the same in every cell before `p`.
pub open spec fn agrees_below(g: Grid, f: Grid, p: int) -> bool {
    forall|q: int| 0 <= q < p ==> #[trigger] f[q] == g[q]
}

/// No completion of `start` that agrees with `g` before `p` has `v` at `p`.
pub open spec fn dead(start: Grid, g: Grid, p: int, v: u8) -> bool {
    forall|f: Grid| #[trigger] is_completion(start, f) && agrees_below(g, f, p) ==> f[p] != Some(v)
}

/// What holds of the search between any two steps.
pub open spec fn wf(s: SolveState) -> bool {
    let e = empties_of(s.start);
    &&& well_formed(s.start)
    &&& well_formed(s.grid)
    &&& s.tried.len() == 81
    &&& forall|p: int| 0 <= p < 81 ==> (#[trigger] s.tried[p]).len() == 9
    &&& 0 <= s.cursor <= e.len()
    &&& forall|p: int| 0 <= p < 81 && s.start[p] is Some ==> #[trigger] s.grid[p] == s.start[p]
    &&& forall|i: int| 0 <= i < e.len() ==> (s.grid[#[trigger] e[i]] is Some <==> i < s.cursor)
    &&& forall|i: int, q: int|
        0 <= i < s.cursor && 0 <= q < 81 && #[trigger] is_peer(e[i], q) ==> s.grid[q] != s.grid[e[i]]
    &&& forall|i: int, v: u8|
        0 <= i < s.cursor && s.grid[e[i]] == Some(v) ==> #[trigger] s.was_tried(i, v)
    &&& forall|i: int, v: u8|
        0 <= i <= s.cursor && i < e.len() && 1 <= v <= 9 && #[trigger] s.was_tried(i, v) && (i
            < s.cursor ==> s.grid[e[i]] != Some(v)) ==> dead(s.start, s.grid, e[i], v)
}

/// What the list of empty cells is: the empty cells, each once, ascending.
pub proof fn lemma_empties(start: Grid, n: int)
    requires
        0 <= n <= 81,
    ensures
        empties_upto(start, n).len() <= n,
        forall|i: int|
            0 <= i < empties_upto(start, n).len() ==> 0 <= #[trigger] empties_upto(start, n)[i] < n
                && start[empties_upto(start, n)[i]] is None,
        forall|i: int, j: int|
            0 <= i < j < empties_upto(start, n).len() ==> empties_upto(start, n)[i] < empties_upto(
                start,
                n,
            )[j],
        forall|p: int|
            0 <= p < n && start[p] is None ==> exists|i: int|
                0 <= i < empties_upto(start, n).len() && #[trigger] empties_upto(start, n)[i] == p,
    decreases n,
{
    if n > 0 {
        lemma_empties(start, n - 1);
        let rest = empties_upto(start, n - 1);
        let all = empties_upto(start, n);
        assert forall|p: int| 0 <= p < n && start[p] is None implies exists|i: int|
            0 <= i < all.len() && #[trigger] all[i] == p by {
            if p < n - 1 {
                let i = choose|i: int| 0 <= i < rest.len() && #[trigger] rest[i] == p;
                assert(all[i] == p);
            } else {
                assert(all[rest.len() as int] == p);
            }
        }
        assert forall|i: int, j: int| 0 <= i < j < all.len() implies all[i] < all[j] by {
            if j < rest.len() {
                assert(rest[i] < rest[j]);
            } else {
                assert(0 <= rest[i] < n - 1);
            }
        }
    }
}

/// What the options are: the candidates that are not flagged.
pub proof fn lemma_untried(cands: Seq<u8>, tried: Seq<bool>, n: int)
    requires
        0 <= n <= cands.len(),
    ensures
        forall|x: u8|
            #[trigger] untried_upto(cands, tried, n).contains(x) ==> !tried[x - 1] && exists|j: int|
                0 <= j < n && cands[j] == x,
        forall|j: int|
            0 <= j < n && !tried[#[trigger] cands[j] - 1] ==> untried_upto(cands, tried, n).contains(
                cands[j],
            ),
    decreases n,
{
    if n > 0 {
        lemma_untried(cands, tried, n - 1);
        let rest = untried_upto(cands, tried, n - 1);
        let all = untried_upto(cands, tried, n);
        assert forall|x: u8| #[trigger] all.contains(x) implies !tried[x - 1] && exists|j: int|
            0 <= j < n && cands[j] == x by {
            let i = choose|i: int| 0 <= i < all.len() && all[i] == x;
            if i < rest.len() {
                assert(rest[i] == x);
                assert(rest.contains(x));
            } else {
                assert(cands[n - 1] == x);
            }
        }
        assert forall|j: int| 0 <= j < n && !tried[#[trigger] cands[j] - 1] implies all.contains(
            cands[j],
        ) by {
            if j < n - 1 {
                assert(rest.contains(cands[j]));
                let i = choose|i: int| 0 <= i < rest.len() && rest[i] == cands[j];
                assert(all[i] == cands[j]);
            } else {
                assert(all[rest.len() as int] == cands[j]);
            }
        }
    }
}

/// What an option is: a digit that no peer of the target holds and that is
/// not flagged there; and every such digit is an option.
pub proof fn lemma_options(s: SolveState)
    ensures
        forall|x: u8|
            #[trigger] s.options().contains(x) ==> 1 <= x <= 9 && !s.tried[s.target()][x - 1]
                && peer_count(s.grid, s.target(), x) == 0,
        forall|x: u8|
            1 <= x <= 9 && !s.tried[s.target()][x - 1] && peer_count(s.grid, s.target(), x) == 0
                ==> #[trigger] s.options().contains(x),
{
    let cands = candidates_of(s.grid, s.target());
    lemma_candidates_of(s.grid, s.target());
    lemma_untried(cands, s.tried[s.target()], cands.len() as int);
    assert forall|x: u8| #[trigger] s.options().contains(x) implies 1 <= x <= 9 && !s.tried[s.target()][x
        - 1] && peer_count(s.grid, s.target(), x) == 0 by {
        let j = choose|j: int| 0 <= j < cands.len() && cands[j] == x;
        assert(cands.contains(x));
    }
    assert forall|x: u8|
        1 <= x <= 9 && !s.tried[s.target()][x - 1] && peer_count(s.grid, s.target(), x)
            == 0 implies #[trigger] s.options().contains(x) by {
        assert(cands.contains(x));
        let j = choose|j: int| 0 <= j < cands.len() && cands[j] == x;
        assert(!s.tried[s.target()][cands[j] - 1]);
    }
}

/// A completion that agrees with a grid up to a cell agrees with every grid
/// that holds the same up to that cell.
proof fn lemma_dead_transfers(start: Grid, g: Grid, h: Grid, p: int, v: u8)
    requires
        dead(start, g, p, v),
        forall|q: int| 0 <= q < p ==> #[trigger] g[q] == h[q],
    ensures
        dead(start, h, p, v),
{
    assert forall|f: Grid| #[trigger] is_completion(start, f) && agrees_below(h, f, p) implies f[p]
        != Some(v) by {
        assert(agrees_below(g, f, p));
    }
}

/// When the cell to fill next has no option left, no completion of the puzzle
/// agrees with the grid up to that cell.
pub proof fn lemma_stuck_means_none(s: SolveState)
    requires
        wf(s),
        s.cursor < empties_of(s.start).len(),
        s.options().len() == 0,
    ensures
        forall|f: Grid| !(#[trigger] is_completion(s.start, f) && agrees_below(s.grid, f, s.target())),
{
    let e = empties_of(s.start);
    let p = s.target();
    lemma_empties(s.start, 81);
    lemma_options(s);
    assert forall|f: Grid| !(#[trigger] is_completion(s.start, f) && agrees_below(
        s.grid,
        f,
        p,
    )) by {
        if is_completion(s.start, f) && agrees_below(s.grid, f, p) {
            assert(f[p] is Some);
            let x = f[p].unwrap();
            assert(1 <= x <= 9);
            assert forall|q: int| 0 <= q < 81 && is_peer(p, q) implies #[trigger] s.grid[q] != Some(
                x,
            ) by {
                assert(f[q] != f[p]);
                if s.grid[q] is Some {
                    if s.start[q] is Some {
                        assert(f[q] == s.start[q]);
                        assert(s.grid[q] == s.start[q]);
                    } else {
                        let j = choose|j: int| 0 <= j < e.len() && #[trigger] e[j] == q;
                        assert(s.grid[e[j]] is Some <==> j < s.cursor);
                        assert(e[j] < e[s.cursor]);
                        assert(f[q] == s.grid[q]);
                    }
                }
            }
            lemma_peer_count_zero(s.grid, p, x, 81);
            if !s.tried[p][x - 1] {
                assert(s.options().contains(x));
                let i = choose|i: int| 0 <= i < s.options().len() && s.options()[i] == x;
            }
            assert(s.was_tried(s.cursor, x));
            assert(dead(s.start, s.grid, p, x));
        }
    }
}

/// The forward step keeps what holds of the search, and fills an empty cell
/// with a digit.
pub proof fn lemma_forward_keeps_wf(s: SolveState, draw: u32)
    requires
        wf(s),
        s.cursor < empties_of(s.start).len(),
        s.options().len() > 0,
    ensures
        wf(forward(s, draw)),
        0 <= s.target() < 81,
        s.grid[s.target()] is None,
        s.options().contains(pick(s.options(), draw)),
        1 <= pick(s.options(), draw) <= 9,
{
    let e = empties_of(s.start);
    let n = e.len() as int;
    let c = s.cursor;
    let p = s.target();
    let opts = s.options();
    let v = pick(opts, draw);
    let t = forward(s, draw);
    lemma_empties(s.start, 81);
    vstd::arithmetic::div_mod::lemma_mod_bound(draw as int, opts.len() as int);
    assert(opts.contains(v));
    lemma_options(s);
    lemma_peer_count_zero(s.grid, p, v, 81);
    assert(s.grid[e[c]] is Some <==> c < s.cursor);
    assert(forall|i: int| 0 <= i < n && i != c ==> e[i] != p) by {
        assert forall|i: int| 0 <= i < n && i != c implies e[i] != p by {
            if i < c {
                assert(e[i] < e[c]);
            } else {
                assert(e[c] < e[i]);
            }
        }
    }
    assert forall|q: int| 0 <= q < 81 implies (#[trigger] t.tried[q]).len() == 9 by {
        assert(s.tried[q].len() == 9);
    }
    assert forall|q: int| 0 <= q < 81 && t.start[q] is Some implies #[trigger] t.grid[q]
        == t.start[q] by {
        assert(s.grid[q] == s.start[q]);
    }
    assert forall|i: int| 0 <= i < n implies (t.grid[#[trigger] e[i]] is Some <==> i
        < t.cursor) by {
        assert(s.grid[e[i]] is Some <==> i < s.cursor);
    }
    assert forall|i: int, q: int| 0 <= i < t.cursor && 0 <= q < 81 && #[trigger] is_peer(
        e[i],
        q,
    ) implies t.grid[q] != t.grid[e[i]] by {
        if i == c {
            assert(s.grid[q] != Some(v));
        } else {
            assert(s.grid[q] != s.grid[e[i]]);
            assert(s.grid[e[i]] is Some <==> i < s.cursor);
            if q == p {
                lemma_peer_symmetric(e[i], p);
                assert(is_peer(p, e[i]));
                assert(s.grid[e[i]] != Some(v));
            }
        }
    }
    assert forall|i: int, w: u8| 0 <= i < t.cursor && t.grid[e[i]] == Some(w) implies #[trigger] t.was_tried(
        i,
        w,
    ) by {
        if i < c {
            assert(s.was_tried(i, w));
            assert(e[i] < e[c]);
            if c + 1 < n {
                assert(e[c] < e[c + 1]);
            }
        } else {
            if c + 1 < n {
                assert(e[c] < e[c + 1]);
            }
        }
    }
    assert forall|i: int, w: u8|
        0 <= i <= t.cursor && i < n && 1 <= w <= 9 && #[trigger] t.was_tried(i, w) && (i < t.cursor
            ==> t.grid[e[i]] != Some(w)) implies dead(t.start, t.grid, e[i], w) by {
        if c + 1 < n {
            assert(e[c] < e[c + 1]);
        }
        if i <= c {
            if i < c {
                assert(e[i] < e[c]);
            }
            assert(s.was_tried(i, w));
            assert(dead(s.start, s.grid, e[i], w));
            lemma_dead_transfers(s.start, s.grid, t.grid, e[i], w);
        }
    }
}

/// The backward step keeps what holds of the search.
pub proof fn lemma_backward_keeps_wf(s: SolveState)
    requires
        wf(s),
        0 < s.cursor < empties_of(s.start).len(),
        s.options().len() == 0,
    ensures
        wf(backward(s)),
        0 <= empties_of(s.start)[s.cursor - 1] < 81,
        s.grid[empties_of(s.start)[s.cursor - 1]] is Some,
{
    let e = empties_of(s.start);
    let n = e.len() as int;
    let c = s.cursor;
    let here = e[c];
    let back = e[c - 1];
    let t = backward(s);
    lemma_empties(s.start, 81);
    lemma_stuck_means_none(s);
    assert(e[c - 1] < e[c]);
    assert(s.grid[e[c - 1]] is Some <==> c - 1 < s.cursor);
    let held = s.grid[back].unwrap();
    assert(forall|i: int| 0 <= i < n && i != c - 1 ==> e[i] != back) by {
        assert forall|i: int| 0 <= i < n && i != c - 1 implies e[i] != back by {
            if i < c - 1 {
                assert(e[i] < e[c - 1]);
            } else {
                assert(e[c - 1] < e[i]);
            }
        }
    }
    assert forall|q: int| 0 <= q < 81 && t.start[q] is Some implies #[trigger] t.grid[q]
        == t.start[q] by {
        assert(s.grid[q] == s.start[q]);
    }
    assert forall|i: int| 0 <= i < n implies (t.grid[#[trigger] e[i]] is Some <==> i
        < t.cursor) by {
        assert(s.grid[e[i]] is Some <==> i < s.cursor);
    }
    assert forall|i: int, q: int| 0 <= i < t.cursor && 0 <= q < 81 && #[trigger] is_peer(
        e[i],
        q,
    ) implies t.grid[q] != t.grid[e[i]] by {
        assert(s.grid[q] != s.grid[e[i]]);
        assert(s.grid[e[i]] is Some <==> i < s.cursor);
    }
    assert forall|i: int, w: u8| 0 <= i < t.cursor && t.grid[e[i]] == Some(w) implies #[trigger] t.was_tried(
        i,
        w,
    ) by {
        assert(s.was_tried(i, w));
    }
    assert forall|i: int, w: u8|
        0 <= i <= t.cursor && i < n && 1 <= w <= 9 && #[trigger] t.was_tried(i, w) && (i < t.cursor
            ==> t.grid[e[i]] != Some(w)) implies dead(t.start, t.grid, e[i], w) by {
        assert(s.was_tried(i, w));
        if i < c - 1 {
            assert(e[i] < e[c - 1]);
            assert(dead(s.start, s.grid, e[i], w));
            lemma_dead_transfers(s.start, s.grid, t.grid, e[i], w);
        } else if w != held {
            assert(dead(s.start, s.grid, e[i], w));
            lemma_dead_transfers(s.start, s.grid, t.grid, e[i], w);
        } else {
            assert forall|f: Grid| #[trigger] is_completion(t.start, f) && agrees_below(
                t.grid,
                f,
                back,
            ) implies f[back] != Some(w) by {
                if f[back] == Some(w) {
                    assert forall|q: int| 0 <= q < here implies #[trigger] f[q] == s.grid[q] by {
                        if q < back {
                            assert(f[q] == t.grid[q]);
                        } else if q == back {
                        } else {
                            if s.start[q] is None {
                                let j = choose|j: int| 0 <= j < n && #[trigger] e[j] == q;
                                if j < c {
                                    if j < c - 1 {
                                        assert(e[j] < e[c - 1]);
                                    }
                                } else {
                                    if j > c {
                                        assert(e[c] < e[j]);
                                    }
                                }
                            }
                            assert(f[q] == s.start[q]);
                            assert(s.grid[q] == s.start[q]);
                        }
                    }
                    assert(agrees_below(s.grid, f, here));
                    assert(is_completion(s.start, f));
                }
            }
        }
    }
}

/// When the first empty cell has no option left the puzzle has no completion.
pub proof fn lemma_exhausted_means_none(s: SolveState)
    requires
        wf(s),
        s.cursor == 0,
        0 < empties_of(s.start).len(),
        s.options().len() == 0,
    ensures
        forall|f: Grid| !is_completion(s.start, f),
        s.grid == s.start,
{
    let e = empties_of(s.start);
    lemma_empties(s.start, 81);
    lemma_stuck_means_none(s);
    assert forall|f: Grid| !is_completion(s.start, f) by {
        if is_completion(s.start, f) {
            assert forall|q: int| 0 <= q < e[0] implies #[trigger] f[q] == s.grid[q] by {
                if s.start[q] is None {
                    let j = choose|j: int| 0 <= j < e.len() && #[trigger] e[j] == q;
                    if j > 0 {
                        assert(e[0] < e[j]);
                    }
                }
                assert(f[q] == s.start[q]);
                assert(s.grid[q] == s.start[q]);
            }
            assert(agrees_below(s.grid, f, s.target()));
        }
    }
    assert forall|q: int| 0 <= q < 81 implies s.grid[q] == s.start[q] by {
        if s.start[q] is None {
            let j = choose|j: int| 0 <= j < e.len() && #[trigger] e[j] == q;
            assert(s.grid[e[j]] is Some <==> j < s.cursor);
        } else {
            assert(s.grid[q] == s.start[q]);
        }
    }
    assert(s.grid =~= s.start);
}

/// Once every empty cell is filled the grid completes the puzzle.
pub proof fn lemma_finished_is_completion(s: SolveState)
    requires
        wf(s),
        s.cursor == empties_of(s.start).len(),
    ensures
        is_completion(s.start, s.grid),
{
    let e = empties_of(s.start);
    lemma_empties(s.start, 81);
    assert forall|p: int| 0 <= p < 81 implies (#[trigger] s.grid[p]) is Some by {
        if s.start[p] is None {
            let j = choose|j: int| 0 <= j < e.len() && #[trigger] e[j] == p;
            assert(s.grid[e[j]] is Some <==> j < s.cursor);
        } else {
            assert(s.grid[p] == s.start[p]);
        }
    }
    assert forall|p: int, q: int|
        0 <= p < 81 && 0 <= q < 81 && s.start[p] is None && #[trigger] is_peer(
            p,
            q,
        ) implies s.grid[q] != s.grid[p] by {
        let j = choose|j: int| 0 <= j < e.len() && #[trigger] e[j] == p;
        assert(is_peer(e[j], q));
    }
}

/// How many of the first `n` flags are not set.
pub open spec fn untried_count(flags: Seq<bool>, n: int) -> int
    decreases n,
{
    if n <= 0 {
        0
    } else {
        untried_count(flags, n - 1) + if flags[n - 1] {
            0int
        } else {
            1int
        }
    }
}

/// The number whose decimal digits are, cell by cell for the first `n` cells,
/// how many digits are still untried there. It bounds the steps that are left.
pub open spec fn rank_upto(tried: Seq<Seq<bool>>, n: int) -> int
    decreases n,
{
    if n <= 0 {
        0
    } else {
        rank_upto(tried, n - 1) * 10 + untried_count(tried[n - 1], 9)
    }
}

/// The rank of the whole search.
pub open spec fn rank(s: SolveState) -> int {
    rank_upto(s.tried, 81)
}

/// Among `n` flags at most `n` are not set.
pub proof fn lemma_untried_count_bounds(flags: Seq<bool>, n: int)
    requires
        0 <= n,
    ensures
        0 <= untried_count(flags, n) <= n,
    decreases n,
{
    if n > 0 {
        lemma_untried_count_bounds(flags, n - 1);
    }
}

proof fn lemma_untried_count_mark(flags: Seq<bool>, k: int, n: int)
    requires
        0 <= k < flags.len(),
        0 <= n <= flags.len(),
    ensures
        untried_count(flags.update(k, true), n) == untried_count(flags, n) - if k < n && !flags[k] {
            1int
        } else {
            0int
        },
    decreases n,
{
    if n > 0 {
        lemma_untried_count_mark(flags, k, n - 1);
    }
}

/// A rank is never negative.
pub proof fn lemma_rank_bounds(tried: Seq<Seq<bool>>, n: int)
    requires
        0 <= n,
    ensures
        0 <= rank_upto(tried, n),
    decreases n,
{
    if n > 0 {
        lemma_rank_bounds(tried, n - 1);
        lemma_untried_count_bounds(tried[n - 1], 9);
    }
}

proof fn lemma_rank_prefix(a: Seq<Seq<bool>>, b: Seq<Seq<bool>>, n: int)
    requires
        0 <= n,
        forall|q: int| 0 <= q < n ==> #[trigger] a[q] == b[q],
    ensures
        rank_upto(a, n) == rank_upto(b, n),
    decreases n,
{
    if n > 0 {
        lemma_rank_prefix(a, b, n - 1);
        assert(a[n - 1] == b[n - 1]);
    }
}

/// Fewer untried digits at one cell, with the cells before it as they were,
/// make the rank smaller, whatever happens at the cells after it.
proof fn lemma_rank_lex(a: Seq<Seq<bool>>, b: Seq<Seq<bool>>, p: int, n: int)
    requires
        0 <= p < n,
        forall|q: int| 0 <= q < p ==> #[trigger] a[q] == b[q],
        untried_count(b[p], 9) < untried_count(a[p], 9),
    ensures
        rank_upto(b, n) < rank_upto(a, n),
    decreases n,
{
    lemma_untried_count_bounds(a[n - 1], 9);
    lemma_untried_count_bounds(b[n - 1], 9);
    if n == p + 1 {
        lemma_rank_prefix(a, b, p);
    } else {
        lemma_rank_lex(a, b, p, n - 1);
    }
}

/// Every forward step makes the rank smaller.
pub proof fn lemma_forward_lowers_rank(s: SolveState, draw: u32)
    requires
        wf(s),
        s.cursor < empties_of(s.start).len(),
        s.options().len() > 0,
    ensures
        0 <= rank(forward(s, draw)) < rank(s),
{
    let e = empties_of(s.start);
    let p = s.target();
    let v = pick(s.options(), draw);
    let t = forward(s, draw);
    lemma_empties(s.start, 81);
    lemma_forward_keeps_wf(s, draw);
    lemma_options(s);
    assert(s.tried[p].len() == 9);
    lemma_untried_count_mark(s.tried[p], v - 1, 9);
    if s.cursor + 1 < e.len() {
        assert(e[s.cursor] < e[s.cursor + 1]);
    }
    assert(t.tried[p] == s.tried[p].update(v - 1, true));
    assert forall|q: int| 0 <= q < p implies #[trigger] s.tried[q] == t.tried[q] by {}
    lemma_rank_lex(s.tried, t.tried, p, 81);
    lemma_rank_bounds(t.tried, 81);
}

/// A search for a completion of a puzzle: the cells to fill, for each cell the
/// digits already tried there, and how many of the cells are filled. The
/// board itself stays with the caller and is handed to every step.
pub struct Solver {
    empty_positions: Vec<(usize, usize)>,
    backtrack_blocklist: [[[bool; 9]; 9]; 9],
    pointer: usize,
    start: Ghost<Grid>,
}

/// The flags of all 81 cells, row by row.
spec fn flags_of(blocklist: [[[bool; 9]; 9]; 9]) -> Seq<Seq<bool>> {
    Seq::new(81, |p: int| Seq::new(9, |k: int| blocklist[p / 9][p % 9][k]))
}

impl Solver {
    /// The puzzle as it was given to the search.
    pub closed spec fn start(&self) -> Grid {
        self.start@
    }

    /// How many of the empty cells are filled.
    pub closed spec fn cursor(&self) -> int {
        self.pointer as int
    }

    /// The search, together with the grid of the board it works on.
    pub closed spec fn state(&self, grid: Grid) -> SolveState {
        SolveState {
            start: self.start@,
            grid,
            tried: flags_of(self.backtrack_blocklist),
            cursor: self.pointer as int,
        }
    }

    /// The search is between two steps on a board that holds `grid`.
    pub closed spec fn valid(&self, grid: Grid) -> bool {
        &&& wf(self.state(grid))
        &&& self.empty_positions@.len() == empties_of(self.start@).len()
        &&& forall|i: int|
            0 <= i < self.empty_positions@.len() ==> {
                let at = #[trigger] self.empty_positions@[i];
                at.0 < 9 && at.1 < 9 && cell_index(at.0 as int, at.1 as int) == empties_of(
                    self.start@,
                )[i]
            }
    }

    /// What a valid search knows of itself.
    pub proof fn lemma_valid(&self, grid: Grid)
        requires
            self.valid(grid),
        ensures
            wf(self.state(grid)),
            self.state(grid).start == self.start(),
            self.state(grid).grid == grid,
            self.state(grid).cursor == self.cursor(),
    {
    }

    /// A search of the puzzle on `board` that has not begun.
    pub fn new(board: &Board) -> (search: Solver)
        ensures
            search.valid(board@),
            search.start() == board@,
            search.state(board@) == initial_state(board@),
    {
        let ghost start = board@;
        let mut empty_positions: Vec<(usize, usize)> = Vec::new();
        let mut i: usize = 0;
        while i < 9
            invariant
                0 <= i <= 9,
                start == board@,
                empty_positions@.len() == empties_upto(start, i * 9).len(),
                forall|k: int|
                    0 <= k < empty_positions@.len() ==> {
                        let at = #[trigger] empty_positions@[k];
                        at.0 < 9 && at.1 < 9 && cell_index(at.0 as int, at.1 as int)
                            == empties_upto(start, i * 9)[k]
                    },
            decreases 9 - i,
        {
            let mut j: usize = 0;
            while j < 9
                invariant
                    0 <= i < 9,
                    0 <= j <= 9,
                    start == board@,
                    empty_positions@.len() == empties_upto(start, i * 9 + j).len(),
                    forall|k: int|
                        0 <= k < empty_positions@.len() ==> {
                            let at = #[trigger] empty_positions@[k];
                            at.0 < 9 && at.1 < 9 && cell_index(at.0 as int, at.1 as int)
                                == empties_upto(start, i * 9 + j)[k]
                        },
                decreases 9 - j,
            {
                let ghost before = empties_upto(start, i * 9 + j);
                if board.get_tile(i, j).is_none() {
                    empty_positions.push((i, j));
                    assert(empties_upto(start, i * 9 + j + 1) == before.push(i * 9 + j));
                } else {
                    assert(empties_upto(start, i * 9 + j + 1) == before);
                }
                j = j + 1;
            }
            i = i + 1;
        }
        let backtrack_blocklist = [[[false; 9]; 9]; 9];
        let search = Solver { empty_positions, backtrack_blocklist, pointer: 0, start: Ghost(start) };
        proof {
            let s = search.state(board@);
            assert(s.tried =~= initial_state(start).tried) by {
                assert forall|p: int| 0 <= p < 81 implies #[trigger] s.tried[p] =~= Seq::new(
                    9,
                    |k: int| false,
                ) by {
                    lemma_position(p);
                }
            }
            lemma_empties(start, 81);
            use_type_invariant(board);
            board.lemma_view_well_formed();
        }
        search
    }

    /// How many of the empty cells are filled.
    pub fn pointer(&self) -> (pointer: usize)
        ensures
            pointer == self.cursor(),
    {
        self.pointer
    }

    /// Whether every empty cell is filled.
    pub fn is_finished(&self, board: &Board) -> (done: bool)
        requires
            self.valid(board@),
        ensures
            done == (self.cursor() == empties_of(self.start()).len()),
    {
        self.pointer >= self.empty_positions.len()
    }

    /// The values that can go into the cell to fill next.
    fn options(&self, board: &Board) -> (options: Vec<u8>)
        requires
            self.valid(board@),
            self.state(board@).cursor < empties_of(self.start()).len(),
        ensures
            options@ == self.state(board@).options(),
    {
        let ghost s = self.state(board@);
        proof {
            lemma_empties(s.start, 81);
        }
        let cur = self.empty_positions[self.pointer];
        let candidates = board.get_candidates(cur.0, cur.1);
        proof {
            lemma_candidates_of(board@, s.target());
            lemma_coordinates(cur.0 as int, cur.1 as int);
        }
        let mut options: Vec<u8> = Vec::new();
        let mut i: usize = 0;
        while i < candidates.len()
            invariant
                0 <= i <= candidates@.len(),
                cur.0 < 9,
                cur.1 < 9,
                cell_index(cur.0 as int, cur.1 as int) == s.target(),
                0 <= s.target() < 81,
                row_of(s.target()) == cur.0,
                col_of(s.target()) == cur.1,
                s.tried == flags_of(self.backtrack_blocklist),
                forall|v: u8| #[trigger] candidates@.contains(v) ==> 1 <= v <= 9,
                options@ == untried_upto(candidates@, s.tried[s.target()], i as int),
            decreases candidates@.len() - i,
        {
            let v: u8 = candidates[i];
            assert(candidates@.contains(v));
            if !self.backtrack_blocklist[cur.0][cur.1][(v - 1) as usize] {
                options.push(v);
            }
            i = i + 1;
        }
        options
    }

    /// Whether nothing is left to try at the cell to fill next.
    pub fn is_stuck(&self, board: &Board) -> (stuck: bool)
        requires
            self.valid(board@),
            self.state(board@).cursor < empties_of(self.start()).len(),
        ensures
            stuck == (self.state(board@).options().len() == 0),
    {
        self.options(board).len() == 0
    }

    /// The forward step, with `draw` as the number that picks the value.
    pub fn advance(&mut self, board: &mut Board, draw: u32)
        requires
            old(self).valid(old(board)@),
            old(self).state(old(board)@).cursor < empties_of(old(self).start()).len(),
            old(self).state(old(board)@).options().len() > 0,
        ensures
            final(self).valid(final(board)@),
            final(self).start() == old(self).start(),
            final(self).state(final(board)@) == forward(old(self).state(old(board)@), draw),
    {
        let ghost s = self.state(board@);
        let ghost e = empties_of(s.start);
        proof {
            lemma_empties(s.start, 81);
            lemma_forward_keeps_wf(s, draw);
        }
        let options = self.options(board);
        let index: usize = choose_index(draw, options.len());
        let winner: u8 = options[index];
        let cur = self.empty_positions[self.pointer];
        proof {
            lemma_coordinates(cur.0 as int, cur.1 as int);
        }
        let set = board.set_tile(cur.0, cur.1, winner);
        assert(set is Ok);
        self.backtrack_blocklist[cur.0][cur.1][(winner - 1) as usize] = true;
        let ghost marked = s.tried.update(
            s.target(),
            s.tried[s.target()].update(winner - 1, true),
        );
        proof {
            assert forall|p: int| 0 <= p < 81 implies #[trigger] flags_of(
                self.backtrack_blocklist,
            )[p] =~= marked[p] by {
                lemma_position(p);
            }
            assert(flags_of(self.backtrack_blocklist) =~= marked);
        }
        self.pointer = self.pointer + 1;
        if self.pointer < self.empty_positions.len() {
            let next = self.empty_positions[self.pointer];
            self.backtrack_blocklist[next.0][next.1] = [false; 9];
            proof {
                lemma_coordinates(next.0 as int, next.1 as int);
                let wiped = marked.update(e[s.cursor + 1], Seq::new(9, |k: int| false));
                assert forall|p: int| 0 <= p < 81 implies #[trigger] flags_of(
                    self.backtrack_blocklist,
                )[p] =~= wiped[p] by {
                    lemma_position(p);
                }
                assert(flags_of(self.backtrack_blocklist) =~= wiped);
            }
        }
    }

    /// The backward step, or `SearchExhausted` with nothing changed when the
    /// cursor stands on the first empty cell.
    pub fn retreat(&mut self, board: &mut Board) -> (result: Result<(), SolveError>)
        requires
            old(self).valid(old(board)@),
            old(self).state(old(board)@).cursor < empties_of(old(self).start()).len(),
            old(self).state(old(board)@).options().len() == 0,
        ensures
            final(self).valid(final(board)@),
            final(self).start() == old(self).start(),
            old(self).state(old(board)@).cursor == 0 ==> result == Err::<(), SolveError>(
                SolveError::SearchExhausted,
            ) && final(board)@ == old(board)@ && final(self).state(final(board)@) == old(
                self,
            ).state(old(board)@),
            old(self).state(old(board)@).cursor > 0 ==> result is Ok && final(self).state(
                final(board)@,
            ) == backward(old(self).state(old(board)@)),
    {
        if self.pointer == 0 {
            return Err(SolveError::SearchExhausted);
        }
        let ghost s = self.state(board@);
        proof {
            lemma_empties(s.start, 81);
            lemma_backward_keeps_wf(s);
        }
        self.pointer = self.pointer - 1;
        let cur = self.empty_positions[self.pointer];
        let cleared = board.clear_tile(cur.0, cur.1);
        assert(cleared is Ok);
        Ok(())
    }
}

/// How a search ends that stands in `s` and takes its draws from `draws`,
/// beginning at turn `used`: with the grid once every empty cell is filled;
/// else with `SearchExhausted` when the first empty cell has no option left;
/// else as the search goes on after one more step, backward when the cell to
/// fill has no option left, forward with the next draw otherwise.
pub open spec fn run(s: SolveState, draws: Map<nat, u32>, used: nat) -> Result<Grid, SolveError>
    decreases rank(s), s.cursor,
    when wf(s)
    via run_decreases
{
    if s.cursor >= empties_of(s.start).len() {
        Ok(s.grid)
    } else if s.options().len() == 0 {
        if s.cursor <= 0 {
            Err(SolveError::SearchExhausted)
        } else {
            run(backward(s), draws, used)
        }
    } else {
        run(forward(s, draws[used]), draws, used + 1)
    }
}

#[via_fn]
proof fn run_decreases(s: SolveState, draws: Map<nat, u32>, used: nat) {
    if s.cursor < empties_of(s.start).len() && s.options().len() > 0 {
        lemma_forward_lowers_rank(s, draws[used]);
    }
}

/// The seed of the generator that `solve` draws from.
pub const SOLVER_SEED: i32 = 1;

/// What solving the puzzle `start` comes to.
pub open spec fn solve_outcome(start: Grid) -> Result<Grid, SolveError> {
    run(initial_state(start), seeded_draws(SOLVER_SEED as int), 0)
}

/// Fills the empty cells of `board` in row-major order, each with one of its
/// options drawn by a generator of fixed seed, and backs out of a cell that has
/// no option left. Cells that were given are never touched.
pub fn solve(board: &mut Board) -> (result: Result<(), SolveError>)
    ensures
        result is Ok ==> is_completion(old(board)@, final(board)@),
        result is Err ==> final(board)@ == old(board)@ && forall|f: Grid|
            !is_completion(old(board)@, f),
        solve_outcome(old(board)@) == match result {
            Ok(_) => Ok::<Grid, SolveError>(final(board)@),
            Err(e) => Err::<Grid, SolveError>(e),
        },
{
    let ghost start = board@;
    let mut rng = seeded_generator(SOLVER_SEED);
    let ghost draws = upcoming(rng);
    let ghost mut used: nat = 0;
    let mut search = Solver::new(board);
    while !search.is_finished(board)
        invariant
            search.valid(board@),
            search.start() == start,
            start == old(board)@,
            draws == seeded_draws(SOLVER_SEED as int),
            forall|i: nat| #[trigger] upcoming(rng)[i] == draws[used + i],
            run(search.state(board@), draws, used) == run(initial_state(start), draws, 0),
        decreases rank(search.state(board@)), search.state(board@).cursor,
    {
        let ghost before = search.state(board@);
        proof {
            search.lemma_valid(board@);
            lemma_rank_bounds(before.tried, 81);
        }
        if search.is_stuck(board) {
            proof {
                if before.cursor == 0 {
                    lemma_exhausted_means_none(before);
                    assert(run(before, draws, used) == Err::<Grid, SolveError>(
                        SolveError::SearchExhausted,
                    ));
                } else {
                    lemma_backward_keeps_wf(before);
                    assert(run(before, draws, used) == run(backward(before), draws, used));
                    assert(rank(backward(before)) == rank(before));
                }
            }
            match search.retreat(board) {
                Err(e) => {
                    return Err(e);
                },
                Ok(()) => {},
            }
        } else {
            let draw = next_draw(&mut rng);
            assert(draw == draws[used]);
            proof {
                lemma_forward_lowers_rank(before, draw);
                lemma_forward_keeps_wf(before, draw);
                assert(run(before, draws, used) == run(forward(before, draw), draws, used + 1));
            }
            search.advance(board, draw);
            proof {
                used = used + 1;
            }
        }
    }
    proof {
        search.lemma_valid(board@);
        lemma_finished_is_completion(search.state(board@));
    }
    Ok(())
}

/// A completion of a puzzle whose given values do not clash is a solved grid.
pub proof fn lemma_completion_is_solved(start: Grid, f: Grid)
    requires
        well_formed(start),
        conflict_free(start),
        is_completion(start, f),
    ensures
        is_solved(f),
{
    assert forall|p: int, q: int|
        0 <= p < 81 && 0 <= q < 81 && #[trigger] is_peer(p, q) && f[p] is Some implies f[p]
        != f[q] by {
        lemma_peer_symmetric(p, q);
        if start[p] is None {
        } else if start[q] is None {
            assert(is_peer(q, p));
        } else {
            assert(f[p] == start[p]);
            assert(f[q] == start[q]);
        }
    }
    assert forall|p: int| 0 <= p < 81 implies #[trigger] f[p] is Some by {}
    lemma_solved_iff_full_and_conflict_free(f);
}

} // verus!

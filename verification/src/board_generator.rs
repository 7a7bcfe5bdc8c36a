use crate::board::{are_peers, Board};
use crate::grid::{
    blank_grid, candidates_of, cell_index, col_of, conflict_free, is_peer, is_solved,
    lemma_candidates_of, lemma_peer_count_zero, lemma_position,
    lemma_solved_iff_full_and_conflict_free, row_of, well_formed, Grid,
};
use crate::randomness::{choose_index, next_draw, pick, seeded_draws, seeded_generator, upcoming};
use vstd::prelude::*;

verus! {

/// How hard the puzzle is meant to be. Generation does not look at it.
#[derive(Clone, Copy, Debug, PartialEq, Eq, Structural)]
pub enum Difficulty {
    Hard,
    Medium,
    Easy,
    Solved,
}

/// Why generation gave no board.
#[derive(Clone, Copy, Debug, PartialEq, Eq, Structural)]
pub enum GenerationError {
    /// The search backed out of the first cell: nothing is left to try.
    SearchExhausted,
    /// The step budget ran out before the last cell was filled.
    IterationBudgetExceeded,
}

/// What a generation is asked for: the seed of its draws, and a difficulty.
pub struct GenerationParams {
    seed: i32,
    difficulty: Difficulty,
}

impl GenerationParams {
    /// The seed of the draws.
    pub closed spec fn seed(self) -> i32 {
        self.seed
    }

    /// The difficulty asked for.
    pub closed spec fn difficulty(self) -> Difficulty {
        self.difficulty
    }

    /// Parameters with the given seed and difficulty.
    pub fn new(seed: i32, difficulty: Difficulty) -> (params: GenerationParams)
        ensures
            params.seed() == seed,
            params.difficulty() == difficulty,
    {
        GenerationParams { seed, difficulty }
    }
}

impl Default for GenerationParams {
    /// Seed 0 at medium difficulty.
    fn default() -> (params: GenerationParams)
        ensures
            params.seed() == 0,
            params.difficulty() == Difficulty::Medium,
    {
        GenerationParams::new(0, Difficulty::Medium)
    }
}

/// The digits 1 to 9 in ascending order: the pool of a cell on a blank board.
pub open spec fn full_pool() -> Seq<u8> {
    Seq::new(9, |i: int| (i + 1) as u8)
}

/// The first index at which `pool` holds `v`.
pub open spec fn first_position(pool: Seq<u8>, v: u8) -> int {
    choose|i: int| 0 <= i < pool.len() && pool[i] == v && forall|j: int| 0 <= j < i ==> pool[j] != v
}

/// `pool` after `v` left it: the last value takes the place of the first `v`.
pub open spec fn without(pool: Seq<u8>, v: u8) -> Seq<u8> {
    if pool.contains(v) {
        pool.update(first_position(pool, v), pool.last()).drop_last()
    } else {
        pool
    }
}

/// `pool` after `v` came back: appended, unless it is there already.
pub open spec fn with_value(pool: Seq<u8>, v: u8) -> Seq<u8> {
    if pool.contains(v) {
        pool
    } else {
        pool.push(v)
    }
}

proof fn lemma_least_position(pool: Seq<u8>, v: u8, k: int)
    requires
        0 <= k < pool.len(),
        pool[k] == v,
    ensures
        exists|i: int|
            0 <= i <= k && pool[i] == v && forall|j: int| 0 <= j < i ==> pool[j] != v,
    decreases k,
{
    if exists|j: int| 0 <= j < k && pool[j] == v {
        let j = choose|j: int| 0 <= j < k && pool[j] == v;
        lemma_least_position(pool, v, j);
    }
}

/// A pool that holds `v` holds it first at `first_position`.
pub proof fn lemma_first_position(pool: Seq<u8>, v: u8)
    requires
        pool.contains(v),
    ensures
        0 <= first_position(pool, v) < pool.len(),
        pool[first_position(pool, v)] == v,
        forall|j: int| 0 <= j < first_position(pool, v) ==> pool[j] != v,
{
    let k = choose|k: int| 0 <= k < pool.len() && pool[k] == v;
    lemma_least_position(pool, v, k);
}

/// Taking `v` out of a pool without repeats leaves the other values, still
/// without repeats.
pub proof fn lemma_without(pool: Seq<u8>, v: u8)
    requires
        pool.no_duplicates(),
    ensures
        without(pool, v).no_duplicates(),
        forall|x: u8| #[trigger] without(pool, v).contains(x) <==> (pool.contains(x) && x != v),
{
    let rest = without(pool, v);
    if pool.contains(v) {
        lemma_first_position(pool, v);
        let at = first_position(pool, v);
        let last = pool.len() - 1;
        assert forall|x: u8| #[trigger] rest.contains(x) <==> (pool.contains(x) && x != v) by {
            if rest.contains(x) {
                let i = choose|i: int| 0 <= i < rest.len() && rest[i] == x;
                if i == at {
                    assert(pool[last] == x);
                } else {
                    assert(pool[i] == x);
                }
            }
            if pool.contains(x) && x != v {
                let i = choose|i: int| 0 <= i < pool.len() && pool[i] == x;
                if i == last {
                    assert(rest[at] == x);
                } else {
                    assert(rest[i] == x);
                }
            }
        }
    }
}

/// Putting `v` back into a pool without repeats adds `v` and nothing else.
pub proof fn lemma_with_value(pool: Seq<u8>, v: u8)
    requires
        pool.no_duplicates(),
    ensures
        with_value(pool, v).no_duplicates(),
        forall|x: u8| #[trigger] with_value(pool, v).contains(x) <==> (pool.contains(x) || x == v),
{
    let more = with_value(pool, v);
    if !pool.contains(v) {
        assert forall|x: u8| #[trigger] more.contains(x) <==> (pool.contains(x) || x == v) by {
            if more.contains(x) {
                let i = choose|i: int| 0 <= i < more.len() && more[i] == x;
                if i < pool.len() {
                    assert(pool[i] == x);
                }
            }
            if pool.contains(x) {
                let i = choose|i: int| 0 <= i < pool.len() && pool[i] == x;
                assert(more[i] == x);
            }
            if x == v {
                assert(more[pool.len() as int] == x);
            }
        }
        assert forall|i: int, j: int| 0 <= i < more.len() && 0 <= j < more.len() && i != j implies more[i] != more[j] by {
            if i == pool.len() {
                assert(pool.contains(pool[j]));
            } else if j == pool.len() {
                assert(pool.contains(pool[i]));
            }
        }
    }
}

/// What the search keeps for one cell while it runs: the values still to be
/// tried there, and the later cells whose pools lost the value that this cell
/// was given.
#[derive(Debug, Clone)]
pub struct TileGenerationState {
    candidates: Vec<u8>,
    side_effects: Vec<usize>,
}

impl TileGenerationState {
    /// The values still to be tried, in the order in which they are picked.
    pub closed spec fn pool(self) -> Seq<u8> {
        self.candidates@
    }

    /// The cells whose pools were pruned when this cell was given its value.
    pub closed spec fn log(self) -> Seq<usize> {
        self.side_effects@
    }

    /// Every digit still to be tried, and nothing pruned.
    pub fn new() -> (state: TileGenerationState)
        ensures
            state.pool() == full_pool(),
            state.log() == Seq::<usize>::empty(),
    {
        let candidates = vec![1u8, 2u8, 3u8, 4u8, 5u8, 6u8, 7u8, 8u8, 9u8];
        assert(candidates@ =~= full_pool());
        TileGenerationState { candidates, side_effects: Vec::new() }
    }

    /// The given values still to be tried, and nothing pruned.
    pub fn fresh(candidates: Vec<u8>) -> (state: TileGenerationState)
        ensures
            state.pool() == candidates@,
            state.log() == Seq::<usize>::empty(),
    {
        TileGenerationState { candidates, side_effects: Vec::new() }
    }

    /// The values still to be tried.
    pub fn get_candidates(&self) -> (candidates: &Vec<u8>)
        ensures
            candidates@ == self.pool(),
    {
        &self.candidates
    }

    /// Takes `value` out of the pool, if it is there, and says whether it was.
    pub fn remove_candidate_value(&mut self, value: u8) -> (removed: bool)
        ensures
            removed == old(self).pool().contains(value),
            final(self).pool() == without(old(self).pool(), value),
            final(self).log() == old(self).log(),
    {
        let mut index: usize = 0;
        while index < self.candidates.len()
            invariant
                *self == *old(self),
                0 <= index <= self.candidates@.len(),
                forall|j: int| 0 <= j < index ==> self.candidates@[j] != value,
            decreases self.candidates@.len() - index,
        {
            if self.candidates[index] == value {
                proof {
                    assert(self.candidates@.contains(value));
                    lemma_first_position(self.candidates@, value);
                    assert(first_position(self.candidates@, value) == index);
                }
                self.candidates.swap_remove(index);
                assert(self.candidates@ =~= without(old(self).pool(), value));
                return true;
            }
            index = index + 1;
        }
        false
    }

    /// Puts `value` back into the pool, unless it is there.
    pub fn restore_candidate_value(&mut self, value: u8)
        ensures
            final(self).pool() == with_value(old(self).pool(), value),
            final(self).log() == old(self).log(),
    {
        let mut index: usize = 0;
        while index < self.candidates.len()
            invariant
                *self == *old(self),
                0 <= index <= self.candidates@.len(),
                forall|j: int| 0 <= j < index ==> self.candidates@[j] != value,
            decreases self.candidates@.len() - index,
        {
            if self.candidates[index] == value {
                assert(self.candidates@.contains(value));
                return ;
            }
            index = index + 1;
        }
        self.candidates.push(value);
    }

    /// Notes that the pool of cell `p` was pruned.
    pub fn add_side_effect(&mut self, p: usize)
        ensures
            final(self).pool() == old(self).pool(),
            final(self).log() == old(self).log().push(p),
    {
        self.side_effects.push(p);
    }

    /// Forgets which pools were pruned.
    pub fn clear_side_effects(&mut self)
        ensures
            final(self).pool() == old(self).pool(),
            final(self).log() == Seq::<usize>::empty(),
    {
        self.side_effects.clear();
    }
}

/// Row and column of the cell at row-major position `p`.
pub fn pointer_to_x_y(p: usize) -> (at: (usize, usize))
    requires
        p < 81,
    ensures
        at.0 < 9,
        at.1 < 9,
        at.0 == row_of(p as int),
        at.1 == col_of(p as int),
        cell_index(at.0 as int, at.1 as int) == p,
{
    proof {
        lemma_position(p as int);
    }
    (p / 9, p % 9)
}

/// The search as contracts see it: the grid, each cell's pool and log, and the
/// position of the cell to fill next.
pub struct GenState {
    pub grid: Grid,
    pub pools: Seq<Seq<u8>>,
    pub logs: Seq<Seq<usize>>,
    pub cursor: int,
}

/// Where every search starts: a blank grid, every pool full, every log empty,
/// the cursor on the first cell.
pub open spec fn initial_state() -> GenState {
    GenState {
        grid: blank_grid(),
        pools: Seq::new(81, |p: int| full_pool()),
        logs: Seq::new(81, |p: int| Seq::<usize>::empty()),
        cursor: 0,
    }
}

/// The cells after the cursor and before `n` that are peers of the cursor's
/// cell and still have `v` in their pool, in ascending order.
pub open spec fn pruned_upto(s: GenState, v: u8, n: int) -> Seq<usize>
    decreases n - s.cursor,
{
    if n <= s.cursor + 1 {
        Seq::empty()
    } else {
        let rest = pruned_upto(s, v, n - 1);
        if is_peer(s.cursor, n - 1) && s.pools[n - 1].contains(v) {
            rest.push((n - 1) as usize)
        } else {
            rest
        }
    }
}

/// The forward step: the cursor's cell is given the value that `draw` picks
/// from its pool, that value leaves the pool of every later peer, the peers
/// that lost it are logged at the cursor's cell, and the cursor moves on.
pub open spec fn forward(s: GenState, draw: u32) -> GenState {
    let v = pick(s.pools[s.cursor], draw);
    GenState {
        grid: s.grid.update(s.cursor, Some(v)),
        pools: Seq::new(
            81,
            |p: int|
                if p > s.cursor && is_peer(s.cursor, p) {
                    without(s.pools[p], v)
                } else {
                    s.pools[p]
                },
        ),
        logs: s.logs.update(s.cursor, s.logs[s.cursor] + pruned_upto(s, v, 81)),
        cursor: s.cursor + 1,
    }
}

/// The pools after `v` came back to the cells named by the first `n` entries
/// of `log`.
pub open spec fn restored(pools: Seq<Seq<u8>>, log: Seq<usize>, v: u8, n: int) -> Seq<Seq<u8>>
    decreases n,
{
    if n <= 0 {
        pools
    } else {
        let prev = restored(pools, log, v, n - 1);
        let p = log[n - 1] as int;
        prev.update(p, with_value(prev[p], v))
    }
}

/// The backward step: the cursor's cell starts over with the candidates that
/// the grid leaves it and an empty log; the cursor moves back; the cell it now
/// stands on loses its value for good, hands it back to the pools logged
/// there, forgets that log, and is cleared on the grid.
pub open spec fn backward(s: GenState) -> GenState {
    let here = s.cursor;
    let back = s.cursor - 1;
    let v = s.grid[back].unwrap();
    let reset = s.pools.update(here, candidates_of(s.grid, here));
    let spent = reset.update(back, without(reset[back], v));
    GenState {
        grid: s.grid.update(back, None),
        pools: restored(spent, s.logs[back], v, s.logs[back].len() as int),
        logs: s.logs.update(here, Seq::empty()).update(back, Seq::empty()),
        cursor: back,
    }
}

/// `pool` holds the value of the cell `x`.
pub open spec fn holds(pool: Seq<u8>, x: Option<u8>) -> bool {
    x matches Some(v) && pool.contains(v)
}

/// An entry `e` in the log of cell `q`: `q` is filled, `e` comes later, and no
/// cell before `q` that is a peer of `e` holds the value of `q`.
pub open spec fn entry_ok(s: GenState, q: int, e: usize) -> bool {
    q < s.cursor && q < e < 81 && forall|q2: int|
        0 <= q2 < q && #[trigger] is_peer(q2, e as int) ==> s.grid[q2] != s.grid[q]
}

/// What holds of the search between any two steps.
pub open spec fn wf(s: GenState) -> bool {
    &&& well_formed(s.grid)
    &&& s.pools.len() == 81
    &&& s.logs.len() == 81
    &&& 0 <= s.cursor <= 81
    &&& forall|p: int| 0 <= p < 81 ==> (#[trigger] s.grid[p] is Some <==> p < s.cursor)
    &&& conflict_free(s.grid)
    &&& forall|p: int| 0 <= p < 81 ==> #[trigger] s.pools[p].no_duplicates()
    &&& forall|p: int, x: u8| 0 <= p < 81 && #[trigger] s.pools[p].contains(x) ==> 1 <= x <= 9
    &&& forall|p: int, q: int|
        0 <= q < p < 81 && q < s.cursor && #[trigger] is_peer(p, q) ==> !holds(
            s.pools[p],
            s.grid[q],
        )
    &&& forall|q: int, i: int|
        0 <= q < 81 && 0 <= i < s.logs[q].len() ==> entry_ok(s, q, #[trigger] s.logs[q][i])
}

proof fn lemma_pruned(s: GenState, v: u8, n: int)
    requires
        0 <= s.cursor < 81,
        n <= 81,
    ensures
        forall|i: int|
            0 <= i < pruned_upto(s, v, n).len() ==> {
                let e = #[trigger] pruned_upto(s, v, n)[i];
                s.cursor < e < n && is_peer(s.cursor, e as int) && s.pools[e as int].contains(v)
            },
    decreases n - s.cursor,
{
    if n > s.cursor + 1 {
        lemma_pruned(s, v, n - 1);
        let all = pruned_upto(s, v, n);
        let rest = pruned_upto(s, v, n - 1);
        assert forall|i: int| 0 <= i < all.len() implies {
            let e = #[trigger] all[i];
            s.cursor < e < n && is_peer(s.cursor, e as int) && s.pools[e as int].contains(v)
        } by {
            if i < rest.len() {
                assert(all[i] == rest[i]);
            }
        }
    }
}

proof fn lemma_restored(pools: Seq<Seq<u8>>, log: Seq<usize>, v: u8, n: int)
    requires
        pools.len() == 81,
        0 <= n <= log.len(),
        forall|i: int| 0 <= i < log.len() ==> #[trigger] log[i] < 81,
        forall|p: int| 0 <= p < 81 ==> #[trigger] pools[p].no_duplicates(),
    ensures
        restored(pools, log, v, n).len() == 81,
        forall|p: int| 0 <= p < 81 ==> #[trigger] restored(pools, log, v, n)[p].no_duplicates(),
        forall|p: int, x: u8|
            0 <= p < 81 && #[trigger] restored(pools, log, v, n)[p].contains(x) ==> pools[p].contains(
                x,
            ) || (x == v && exists|i: int| 0 <= i < n && log[i] == p),
    decreases n,
{
    if n > 0 {
        lemma_restored(pools, log, v, n - 1);
        let prev = restored(pools, log, v, n - 1);
        let at = log[n - 1] as int;
        let next = restored(pools, log, v, n);
        assert(next == prev.update(at, with_value(prev[at], v)));
        lemma_with_value(prev[at], v);
        assert forall|p: int, x: u8| 0 <= p < 81 && #[trigger] next[p].contains(x) implies pools[p].contains(
            x,
        ) || (x == v && exists|i: int| 0 <= i < n && log[i] == p) by {
            if p == at {
                if prev[at].contains(x) {
                } else {
                    assert(x == v);
                    assert(log[n - 1] == p);
                }
            } else {
                assert(prev[p].contains(x));
            }
        }
    }
}

/// The forward step keeps what holds of the search.
pub proof fn lemma_forward_keeps_wf(s: GenState, draw: u32)
    requires
        wf(s),
        s.cursor < 81,
        s.pools[s.cursor].len() > 0,
    ensures
        wf(forward(s, draw)),
        1 <= pick(s.pools[s.cursor], draw) <= 9,
{
    let c = s.cursor;
    let pool = s.pools[c];
    let v = pick(pool, draw);
    let t = forward(s, draw);
    vstd::arithmetic::div_mod::lemma_mod_bound(draw as int, pool.len() as int);
    assert(pool.contains(v));
    lemma_pruned(s, v, 81);
    assert(s.logs[c].len() == 0) by {
        if s.logs[c].len() > 0 {
            assert(entry_ok(s, c, s.logs[c][0]));
        }
    }
    assert(t.logs[c] =~= pruned_upto(s, v, 81));
    assert forall|p: int| 0 <= p < 81 implies (#[trigger] t.grid[p] is Some <==> p < t.cursor) by {
        assert(s.grid[p] is Some <==> p < c);
    }
    assert forall|p: int, q: int|
        0 <= p < 81 && 0 <= q < 81 && #[trigger] is_peer(p, q) && t.grid[p] is Some implies t.grid[p]
        != t.grid[q] by {
        crate::grid::lemma_peer_symmetric(p, q);
        assert(s.grid[q] is Some <==> q < c);
        assert(s.grid[p] is Some <==> p < c);
        if p == c {
            if q < c {
                assert(is_peer(c, q));
                assert(!holds(s.pools[c], s.grid[q]));
            }
        } else if q == c {
            assert(is_peer(c, p));
            assert(!holds(s.pools[c], s.grid[p]));
        }
    }
    assert forall|p: int| 0 <= p < 81 implies #[trigger] t.pools[p].no_duplicates() by {
        assert(s.pools[p].no_duplicates());
        lemma_without(s.pools[p], v);
    }
    assert forall|p: int, x: u8| 0 <= p < 81 && #[trigger] t.pools[p].contains(x) implies 1 <= x
        <= 9 by {
        assert(s.pools[p].no_duplicates());
        lemma_without(s.pools[p], v);
        assert(s.pools[p].contains(x));
    }
    assert forall|p: int, q: int|
        0 <= q < p < 81 && q < t.cursor && #[trigger] is_peer(p, q) implies !holds(
        t.pools[p],
        t.grid[q],
    ) by {
        crate::grid::lemma_peer_symmetric(p, q);
        assert(s.pools[p].no_duplicates());
        lemma_without(s.pools[p], v);
        if q == c {
        } else {
            assert(!holds(s.pools[p], s.grid[q]));
        }
    }
    assert forall|q: int, i: int| 0 <= q < 81 && 0 <= i < t.logs[q].len() implies entry_ok(
        t,
        q,
        #[trigger] t.logs[q][i],
    ) by {
        if q == c {
            let e = pruned_upto(s, v, 81)[i];
            assert(t.logs[q][i] == e);
            assert forall|q2: int| 0 <= q2 < q && #[trigger] is_peer(q2, e as int) implies t.grid[q2]
                != t.grid[q] by {
                crate::grid::lemma_peer_symmetric(q2, e as int);
                assert(is_peer(e as int, q2));
                assert(!holds(s.pools[e as int], s.grid[q2]));
            }
        } else {
            assert(entry_ok(s, q, s.logs[q][i]));
        }
    }
}

/// The backward step keeps what holds of the search.
pub proof fn lemma_backward_keeps_wf(s: GenState)
    requires
        wf(s),
        0 < s.cursor < 81,
    ensures
        wf(backward(s)),
{
    let here = s.cursor;
    let back = s.cursor - 1;
    assert(s.grid[back] is Some <==> back < here);
    let v = s.grid[back].unwrap();
    let reset = s.pools.update(here, candidates_of(s.grid, here));
    let spent = reset.update(back, without(reset[back], v));
    let log = s.logs[back];
    let t = backward(s);
    lemma_candidates_of(s.grid, here);
    assert(s.pools[back].no_duplicates());
    lemma_without(s.pools[back], v);
    assert forall|i: int| 0 <= i < log.len() implies #[trigger] log[i] < 81 by {
        assert(entry_ok(s, back, log[i]));
    }
    assert forall|p: int| 0 <= p < 81 implies #[trigger] spent[p].no_duplicates() by {
        assert(s.pools[p].no_duplicates());
    }
    lemma_restored(spent, log, v, log.len() as int);
    assert forall|p: int| 0 <= p < 81 implies (#[trigger] t.grid[p] is Some <==> p < t.cursor) by {
        assert(s.grid[p] is Some <==> p < here);
    }
    assert(well_formed(t.grid));
    assert forall|p: int, q: int|
        0 <= p < 81 && 0 <= q < 81 && #[trigger] is_peer(p, q) && t.grid[p] is Some implies t.grid[p]
        != t.grid[q] by {
        assert(s.grid[p] != s.grid[q]);
    }
    assert forall|p: int, x: u8| 0 <= p < 81 && #[trigger] spent[p].contains(x) implies 1 <= x
        <= 9 by {
        if p == back {
            assert(s.pools[p].contains(x));
        } else if p == here {
        } else {
            assert(s.pools[p].contains(x));
        }
    }
    assert(1 <= v <= 9);
    assert forall|p: int, x: u8| 0 <= p < 81 && #[trigger] t.pools[p].contains(x) implies 1 <= x
        <= 9 by {
        if spent[p].contains(x) {
        }
    }
    assert forall|p: int, q: int|
        0 <= q < p < 81 && q < t.cursor && #[trigger] is_peer(p, q) implies !holds(
        t.pools[p],
        t.grid[q],
    ) by {
        assert(s.grid[q] is Some <==> q < here);
        let x = s.grid[q].unwrap();
        assert(t.grid[q] == Some(x));
        if t.pools[p].contains(x) {
            if spent[p].contains(x) {
                if p == here {
                    lemma_peer_count_zero(s.grid, here, x, 81);
                    assert(is_peer(here, q));
                    assert(s.grid[q] != Some(x));
                } else if p == back {
                    assert(s.pools[p].contains(x));
                    assert(!holds(s.pools[p], s.grid[q]));
                } else {
                    assert(!holds(s.pools[p], s.grid[q]));
                }
            } else {
                let i = choose|i: int| 0 <= i < log.len() && log[i] == p;
                assert(entry_ok(s, back, log[i]));
                crate::grid::lemma_peer_symmetric(p, q);
                assert(is_peer(q, log[i] as int));
            }
        }
    }
    assert forall|q: int, i: int| 0 <= q < 81 && 0 <= i < t.logs[q].len() implies entry_ok(
        t,
        q,
        #[trigger] t.logs[q][i],
    ) by {
        assert(entry_ok(s, q, s.logs[q][i]));
    }
}

/// A search for a full board: the board so far, what is kept for each of the
/// 81 cells, and the position of the cell to fill next.
pub struct Generator {
    board: Board,
    tiles: Vec<TileGenerationState>,
    pointer: usize,
}

impl View for Generator {
    type V = GenState;

    closed spec fn view(&self) -> GenState {
        GenState {
            grid: self.board@,
            pools: Seq::new(81, |p: int| self.tiles@[p].pool()),
            logs: Seq::new(81, |p: int| self.tiles@[p].log()),
            cursor: self.pointer as int,
        }
    }
}

impl Generator {
    /// The search is between two steps.
    pub closed spec fn valid(&self) -> bool {
        self.tiles@.len() == 81 && wf(self@)
    }

    /// A search that has not begun.
    pub fn new() -> (search: Generator)
        ensures
            search.valid(),
            search@ == initial_state(),
    {
        let mut tiles: Vec<TileGenerationState> = Vec::with_capacity(81);
        let mut p: usize = 0;
        while p < 81
            invariant
                0 <= p <= 81,
                tiles@.len() == p,
                forall|j: int|
                    0 <= j < p ==> (#[trigger] tiles@[j]).pool() == full_pool() && tiles@[j].log()
                        == Seq::<usize>::empty(),
            decreases 81 - p,
        {
            tiles.push(TileGenerationState::new());
            p = p + 1;
        }
        let search = Generator { board: Board::new(), tiles, pointer: 0 };
        proof {
            let s = search@;
            assert(s.pools =~= initial_state().pools);
            assert(s.logs =~= initial_state().logs);
            assert(well_formed(s.grid));
            assert forall|q: int, x: u8| 0 <= q < 81 && #[trigger] s.pools[q].contains(x) implies 1
                <= x <= 9 by {
                let i = choose|i: int| 0 <= i < full_pool().len() && full_pool()[i] == x;
            }
        }
        search
    }

    /// Whether every cell is filled.
    pub fn is_finished(&self) -> (done: bool)
        requires
            self.valid(),
        ensures
            done == (self@.cursor == 81),
    {
        self.pointer == 81
    }

    /// Whether nothing is left to try at the cell to fill next.
    pub fn is_stuck(&self) -> (stuck: bool)
        requires
            self.valid(),
            self@.cursor < 81,
        ensures
            stuck == (self@.pools[self@.cursor].len() == 0),
    {
        self.tiles[self.pointer].get_candidates().len() == 0
    }

    /// The forward step, with `draw` as the number that picks the value.
    pub fn advance(&mut self, draw: u32)
        requires
            old(self).valid(),
            old(self)@.cursor < 81,
            old(self)@.pools[old(self)@.cursor].len() > 0,
        ensures
            final(self).valid(),
            final(self)@ == forward(old(self)@, draw),
    {
        let c: usize = self.pointer;
        let ghost s = self@;
        proof {
            lemma_forward_keeps_wf(s, draw);
        }
        let len: usize = self.tiles[c].candidates.len();
        let index: usize = choose_index(draw, len);
        let value: u8 = self.tiles[c].candidates[index];
        assert(value == pick(s.pools[c as int], draw));
        let (x, y) = pointer_to_x_y(c);
        assert(s.grid[c as int] is Some <==> c < s.cursor);
        let set = self.board.set_tile(x, y, value);
        assert(set is Ok);
        let mut p: usize = c + 1;
        assert(s.logs[c as int] + pruned_upto(s, value, p as int) =~= s.logs[c as int]);
        while p < 81
            invariant
                c < p <= 81,
                x < 9,
                y < 9,
                cell_index(x as int, y as int) == c,
                s.cursor == c,
                self.pointer == c,
                self.tiles@.len() == 81,
                s.pools.len() == 81,
                s.logs.len() == 81,
                self.board@ == s.grid.update(c as int, Some(value)),
                forall|j: int|
                    0 <= j < 81 ==> (#[trigger] self.tiles@[j]).pool() == if c < j < p && is_peer(
                        c as int,
                        j,
                    ) {
                        without(s.pools[j], value)
                    } else {
                        s.pools[j]
                    },
                forall|j: int| 0 <= j < 81 && j != c ==> (#[trigger] self.tiles@[j]).log() == s.logs[j],
                self.tiles@[c as int].log() == s.logs[c as int] + pruned_upto(s, value, p as int),
            decreases 81 - p,
        {
            let (r, k) = pointer_to_x_y(p);
            let ghost before = self.tiles@[c as int].log();
            if are_peers(x, y, r, k) {
                let removed = self.tiles[p].remove_candidate_value(value);
                if removed {
                    self.tiles[c].add_side_effect(p);
                }
            }
            proof {
                let next = pruned_upto(s, value, p + 1);
                let rest = pruned_upto(s, value, p as int);
                if is_peer(c as int, p as int) && s.pools[p as int].contains(value) {
                    assert(next == rest.push(p));
                    assert(s.logs[c as int] + next =~= before.push(p));
                } else {
                    assert(next == rest);
                }
            }
            p = p + 1;
        }
        self.pointer = c + 1;
        proof {
            let t = forward(s, draw);
            assert(self@.pools =~= t.pools);
            assert(self@.logs =~= t.logs);
        }
    }

    /// The backward step, or `SearchExhausted` with nothing changed when the
    /// cursor stands on the first cell.
    pub fn retreat(&mut self) -> (result: Result<(), GenerationError>)
        requires
            old(self).valid(),
            old(self)@.cursor < 81,
        ensures
            final(self).valid(),
            old(self)@.cursor == 0 ==> result == Err::<(), GenerationError>(
                GenerationError::SearchExhausted,
            ) && final(self)@ == old(self)@,
            old(self)@.cursor > 0 ==> result is Ok && final(self)@ == backward(old(self)@),
    {
        if self.pointer == 0 {
            return Err(GenerationError::SearchExhausted);
        }
        let ghost s = self@;
        proof {
            lemma_backward_keeps_wf(s);
        }
        let here: usize = self.pointer;
        let back: usize = here - 1;
        let (hx, hy) = pointer_to_x_y(here);
        let fresh = self.board.get_candidates(hx, hy);
        self.tiles[here] = TileGenerationState::fresh(fresh);
        let (x, y) = pointer_to_x_y(back);
        assert(s.grid[back as int] is Some <==> back < s.cursor);
        let current: u8 = self.board.get_tile(x, y).unwrap();
        self.tiles[back].remove_candidate_value(current);
        let ghost reset = s.pools.update(here as int, candidates_of(s.grid, here as int));
        let ghost spent = reset.update(back as int, without(reset[back as int], current));
        let ghost log = s.logs[back as int];
        let n: usize = self.tiles[back].side_effects.len();
        let mut i: usize = 0;
        assert(Seq::new(81, |p: int| self.tiles@[p].pool()) =~= spent);
        while i < n
            invariant
                0 <= i <= n,
                n == log.len(),
                back < here < 81,
                s.logs.len() == 81,
                self.tiles@.len() == 81,
                self.tiles@[back as int].log() == log,
                forall|j: int| 0 <= j < log.len() ==> #[trigger] log[j] < 81,
                Seq::new(81, |p: int| self.tiles@[p].pool()) == restored(spent, log, current, i as int),
                forall|j: int|
                    0 <= j < 81 && j != here ==> (#[trigger] self.tiles@[j]).log() == s.logs[j],
                self.tiles@[here as int].log() == Seq::<usize>::empty(),
                self.board@ == s.grid,
                self.pointer == here,
            decreases n - i,
        {
            let p: usize = self.tiles[back].side_effects[i];
            let ghost prev = Seq::new(81, |p: int| self.tiles@[p].pool());
            self.tiles[p].restore_candidate_value(current);
            assert(Seq::new(81, |p: int| self.tiles@[p].pool()) =~= prev.update(
                p as int,
                with_value(prev[p as int], current),
            ));
            i = i + 1;
        }
        self.tiles[back].clear_side_effects();
        let cleared = self.board.clear_tile(x, y);
        assert(cleared is Ok);
        self.pointer = back;
        proof {
            let t = backward(s);
            assert(self@.pools =~= t.pools);
            assert(self@.logs =~= t.logs);
        }
        Ok(())
    }

    /// Once every cell is filled the board is solved.
    pub proof fn lemma_finished_is_solved(&self)
        requires
            self.valid(),
            self@.cursor == 81,
        ensures
            is_solved(self@.grid),
    {
        lemma_full_state_is_solved(self@);
    }

    /// The board as it stands.
    pub fn board(&self) -> (board: &Board)
        ensures
            board@ == self@.grid,
    {
        &self.board
    }

    /// The position of the cell to fill next; 81 once every cell is filled.
    pub fn pointer(&self) -> (pointer: usize)
        ensures
            pointer == self@.cursor,
    {
        self.pointer
    }

    /// What the search keeps for the cell at position `p`.
    pub fn tile(&self, p: usize) -> (tile: &TileGenerationState)
        requires
            self.valid(),
            p < 81,
        ensures
            tile.pool() == self@.pools[p as int],
            tile.log() == self@.logs[p as int],
    {
        &self.tiles[p]
    }

    /// The board as the search leaves it.
    pub fn into_board(self) -> (board: Board)
        ensures
            board@ == self@.grid,
    {
        self.board
    }
}

/// The number of steps, forward and backward together, that `generate_board`
/// allows itself.
pub const ITERATION_BUDGET: usize = 500;

/// How a search ends that starts in `s` with `budget` steps left and takes
/// its draws from `draws`, beginning at turn `used`: with the full grid once
/// the cursor has passed the last cell; else with `IterationBudgetExceeded`
/// when no step is left; else with `SearchExhausted` when the first cell has
/// nothing left to try; else as the search goes on after one more step,
/// backward when the cursor's pool is empty, forward with the next draw
/// otherwise.
pub open spec fn run(s: GenState, draws: Map<nat, u32>, used: nat, budget: nat) -> Result<
    Grid,
    GenerationError,
>
    decreases budget,
{
    if s.cursor >= 81 {
        Ok(s.grid)
    } else if budget == 0 {
        Err(GenerationError::IterationBudgetExceeded)
    } else if s.pools[s.cursor].len() == 0 {
        if s.cursor <= 0 {
            Err(GenerationError::SearchExhausted)
        } else {
            run(backward(s), draws, used, (budget - 1) as nat)
        }
    } else {
        run(forward(s, draws[used]), draws, used + 1, (budget - 1) as nat)
    }
}

/// What generation from `seed` within `budget` steps comes to.
pub open spec fn generation_outcome(seed: i32, budget: nat) -> Result<Grid, GenerationError> {
    run(initial_state(), seeded_draws(seed as int), 0, budget)
}

/// A result of generation with the board replaced by its grid.
pub open spec fn outcome_of(result: Result<Board, GenerationError>) -> Result<
    Grid,
    GenerationError,
> {
    match result {
        Ok(board) => Ok(board@),
        Err(e) => Err(e),
    }
}

/// Fills a blank board cell by cell in row-major order, each cell with a
/// value drawn from its pool by a generator seeded from the parameters, and
/// backs out of a cell whose pool is empty; gives up after `budget` steps.
pub fn generate_within(params: GenerationParams, budget: usize) -> (result: Result<
    Board,
    GenerationError,
>)
    ensures
        outcome_of(result) == generation_outcome(params.seed(), budget as nat),
        result matches Ok(board) ==> is_solved(board@),
{
    let mut rng = seeded_generator(params.seed);
    let ghost draws = upcoming(rng);
    let ghost mut used: nat = 0;
    let mut search = Generator::new();
    let mut iterations: usize = 0;
    while !search.is_finished() && iterations < budget
        invariant
            search.valid(),
            iterations <= budget,
            draws == seeded_draws(params.seed() as int),
            forall|i: nat| #[trigger] upcoming(rng)[i] == draws[used + i],
            run(search@, draws, used, (budget - iterations) as nat) == run(
                initial_state(),
                draws,
                0,
                budget as nat,
            ),
        decreases budget - iterations,
    {
        let ghost before = search@;
        let ghost left = (budget - iterations) as nat;
        if search.is_stuck() {
            assert(before.cursor > 0 ==> run(before, draws, used, left) == run(
                backward(before),
                draws,
                used,
                (left - 1) as nat,
            ));
            assert(before.cursor == 0 ==> run(before, draws, used, left) == Err::<
                Grid,
                GenerationError,
            >(GenerationError::SearchExhausted));
            match search.retreat() {
                Err(e) => {
                    return Err(e);
                },
                Ok(()) => {},
            }
        } else {
            let draw = next_draw(&mut rng);
            assert(draw == draws[used]);
            assert(run(before, draws, used, left) == run(
                forward(before, draw),
                draws,
                used + 1,
                (left - 1) as nat,
            ));
            search.advance(draw);
            proof {
                used = used + 1;
            }
        }
        iterations = iterations + 1;
    }
    if search.is_finished() {
        proof {
            search.lemma_finished_is_solved();
        }
        Ok(search.into_board())
    } else {
        Err(GenerationError::IterationBudgetExceeded)
    }
}

/// `generate_within` with the budget `ITERATION_BUDGET`.
pub fn generate_board(params: GenerationParams) -> (result: Result<Board, GenerationError>)
    ensures
        outcome_of(result) == generation_outcome(params.seed(), ITERATION_BUDGET as nat),
        result matches Ok(board) ==> is_solved(board@),
{
    generate_within(params, ITERATION_BUDGET)
}

/// Once the cursor has passed the last cell the grid is solved.
pub proof fn lemma_full_state_is_solved(s: GenState)
    requires
        wf(s),
        s.cursor == 81,
    ensures
        is_solved(s.grid),
{
    assert forall|p: int| 0 <= p < 81 implies #[trigger] s.grid[p] is Some by {
        assert(s.grid[p] is Some <==> p < s.cursor);
    }
    lemma_solved_iff_full_and_conflict_free(s.grid);
}

/// A search never ends with a grid that is not solved: whatever the draws and
/// the budget, it ends with a solved grid or with an error.
pub proof fn lemma_run_never_partial(s: GenState, draws: Map<nat, u32>, used: nat, budget: nat)
    requires
        wf(s),
    ensures
        run(s, draws, used, budget) matches Ok(grid) ==> is_solved(grid),
        budget == 0 && s.cursor < 81 ==> run(s, draws, used, budget) == Err::<
            Grid,
            GenerationError,
        >(GenerationError::IterationBudgetExceeded),
    decreases budget,
{
    if s.cursor >= 81 {
        lemma_full_state_is_solved(s);
    } else if budget == 0 {
    } else if s.pools[s.cursor].len() == 0 {
        if s.cursor > 0 {
            lemma_backward_keeps_wf(s);
            lemma_run_never_partial(backward(s), draws, used, (budget - 1) as nat);
        }
    } else {
        lemma_forward_keeps_wf(s, draws[used]);
        lemma_run_never_partial(forward(s, draws[used]), draws, used + 1, (budget - 1) as nat);
    }
}

/// A search with fewer steps left than cells to fill ends with an error: it
/// never hands out the grid as far as it got.
pub proof fn lemma_short_budget_fails(s: GenState, draws: Map<nat, u32>, used: nat, budget: nat)
    requires
        wf(s),
        budget < 81 - s.cursor,
    ensures
        run(s, draws, used, budget) is Err,
    decreases budget,
{
    if budget == 0 {
    } else if s.pools[s.cursor].len() == 0 {
        if s.cursor > 0 {
            lemma_backward_keeps_wf(s);
            lemma_short_budget_fails(backward(s), draws, used, (budget - 1) as nat);
        }
    } else {
        lemma_forward_keeps_wf(s, draws[used]);
        lemma_short_budget_fails(forward(s, draws[used]), draws, used + 1, (budget - 1) as nat);
    }
}

/// Generation is repeatable: two runs with the same seed, difficulty and
/// budget end alike, with the same error or with boards that agree in every
/// cell and every counter.
pub proof fn lemma_generation_repeatable(
    first: GenerationParams,
    second: GenerationParams,
    budget: nat,
    a: Result<Board, GenerationError>,
    b: Result<Board, GenerationError>,
)
    requires
        first.seed() == second.seed(),
        first.difficulty() == second.difficulty(),
        outcome_of(a) == generation_outcome(first.seed(), budget),
        outcome_of(b) == generation_outcome(second.seed(), budget),
        a matches Ok(board) ==> board.consistent(),
        b matches Ok(board) ==> board.consistent(),
    ensures
        outcome_of(a) == outcome_of(b),
        a is Err ==> a == b,
        a matches Ok(x) ==> b matches Ok(y) && x@ == y@ && forall|p: int, v: u8|
            0 <= p < 81 && 1 <= v <= 9 ==> x.blockers_at(p, v) == y.blockers_at(p, v),
{
    match (a, b) {
        (Ok(x), Ok(y)) => {
            x.lemma_consistent();
            y.lemma_consistent();
        },
        _ => {},
    }
}

} // verus!

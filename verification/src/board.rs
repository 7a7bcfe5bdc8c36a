use crate::grid::{
    blank_grid, candidates_of, cell_index, digits, is_peer, is_solved, lemma_candidates_of,
    lemma_near_is_peer, lemma_peer_count_bounds, lemma_peer_count_update, lemma_peer_count_zero,
    lemma_position, lemma_unit_cell, lemma_unit_permutation, near, open_values_upto, peer_count,
    unit_cell, unit_values, well_formed, Grid,
};
use vstd::prelude::*;

verus! {

/// The error of `Board::set_tile`: the value is no digit from 1 to 9, or the
/// cell already holds one.
#[derive(Clone, Copy, Debug, PartialEq, Eq)]
pub struct InvalidAssignment;

/// The error of `Board::clear_tile`: the cell holds no value.
#[derive(Clone, Copy, Debug, PartialEq, Eq)]
pub struct ClearUnassigned;

/// One cell: its value, and for each digit the number of peers that hold it.
#[derive(Clone, Copy, Debug)]
pub struct Tile {
    value: Option<u8>,
    blockers: [u8; 9],
}

impl Tile {
    /// The value of the cell, if it has one.
    pub closed spec fn value(self) -> Option<u8> {
        self.value
    }

    /// The counter kept for digit `v`.
    pub closed spec fn blocker(self, v: u8) -> int {
        self.blockers[v - 1] as int
    }

    /// An unassigned cell with every counter at zero.
    pub fn new() -> (tile: Tile)
        ensures
            tile.value() == None::<u8>,
            forall|v: u8| 1 <= v <= 9 ==> tile.blocker(v) == 0,
    {
        Tile { value: None, blockers: [0; 9] }
    }
}

/// The values of the 81 tiles, row by row.
spec fn grid_of(state: [[Tile; 9]; 9]) -> Grid {
    Seq::new(81, |p: int| state[p / 9][p % 9].value)
}

/// Every counter of every tile equals what a recount over `g` gives, plus
/// `delta` for digit `k + 1` at the cells near (`row`, `col`) among the first
/// `done` cells.
spec fn counts_match(
    state: [[Tile; 9]; 9],
    g: Grid,
    row: int,
    col: int,
    k: int,
    done: int,
    delta: int,
) -> bool {
    forall|r: int, c: int, i: int|
        0 <= r < 9 && 0 <= c < 9 && 0 <= i < 9 ==> (#[trigger] state[r][c].blockers[i]) as int
            == peer_count(g, r * 9 + c, (i + 1) as u8) + if i == k && r * 9 + c < done && near(
            row,
            col,
            r,
            c,
        ) {
            delta
        } else {
            0
        }
}

/// The tiles hold the same values in both states.
spec fn same_values(a: [[Tile; 9]; 9], b: [[Tile; 9]; 9]) -> bool {
    forall|r: int, c: int| 0 <= r < 9 && 0 <= c < 9 ==> (#[trigger] a[r][c]).value == b[r][c].value
}

/// Whether the cells at (`row`, `col`) and (`r`, `c`) are peers.
pub fn are_peers(row: usize, col: usize, r: usize, c: usize) -> (peers: bool)
    requires
        row < 9,
        col < 9,
        r < 9,
        c < 9,
    ensures
        peers == is_peer(cell_index(row as int, col as int), cell_index(r as int, c as int)),
        peers == near(row as int, col as int, r as int, c as int),
{
    proof {
        lemma_near_is_peer(row as int, col as int, r as int, c as int);
    }
    (row != r || col != c) && (row == r || col == c || (row / 3 == r / 3 && col / 3 == c / 3))
}

/// Adds `1` to counter `k` of the tile at (`r`, `c`) when `up` holds, and
/// takes one from it otherwise.
fn adjust_tile(state: &mut [[Tile; 9]; 9], r: usize, c: usize, k: usize, up: bool)
    requires
        r < 9,
        c < 9,
        k < 9,
        up ==> old(state)[r as int][c as int].blockers[k as int] < 255,
        !up ==> old(state)[r as int][c as int].blockers[k as int] > 0,
    ensures
        same_values(*final(state), *old(state)),
        forall|rr: int, cc: int, i: int|
            0 <= rr < 9 && 0 <= cc < 9 && 0 <= i < 9 ==> (#[trigger] final(state)[rr][cc].blockers[i])
                as int == old(state)[rr][cc].blockers[i] + if rr == r && cc == c
                && i == k {
                if up {
                    1int
                } else {
                    -1int
                }
            } else {
                0int
            },
{
    if up {
        state[r][c].blockers[k] = state[r][c].blockers[k] + 1;
    } else {
        state[r][c].blockers[k] = state[r][c].blockers[k] - 1;
    }
}

/// Adds one to counter `k` of every peer of (`row`, `col`) when `up` holds,
/// and takes one from each otherwise.
fn adjust_peers(state: &mut [[Tile; 9]; 9], row: usize, col: usize, k: usize, up: bool, g: Ghost<Grid>)
    requires
        row < 9,
        col < 9,
        k < 9,
        counts_match(*old(state), g@, 0, 0, 0, 0, 0),
        !up ==> forall|r: int, c: int|
            0 <= r < 9 && 0 <= c < 9 && near(row as int, col as int, r, c) ==> #[trigger] peer_count(
                g@,
                r * 9 + c,
                (k + 1) as u8,
            ) >= 1,
    ensures
        same_values(*final(state), *old(state)),
        grid_of(*final(state)) == grid_of(*old(state)),
        counts_match(
            *final(state),
            g@,
            row as int,
            col as int,
            k as int,
            81,
            if up {
                1
            } else {
                -1
            },
        ),
{
    let ghost delta = if up {
        1int
    } else {
        -1int
    };
    let mut r: usize = 0;
    while r < 9
        invariant
            0 <= r <= 9,
            row < 9,
            col < 9,
            k < 9,
            delta == if up {
                1int
            } else {
                -1int
            },
            same_values(*state, *old(state)),
            counts_match(*state, g@, row as int, col as int, k as int, r * 9, delta),
            !up ==> forall|r: int, c: int|
                0 <= r < 9 && 0 <= c < 9 && near(row as int, col as int, r, c)
                    ==> #[trigger] peer_count(g@, r * 9 + c, (k + 1) as u8) >= 1,
        decreases 9 - r,
    {
        let mut c: usize = 0;
        while c < 9
            invariant
                0 <= r < 9,
                0 <= c <= 9,
                row < 9,
                col < 9,
                k < 9,
                delta == if up {
                    1int
                } else {
                    -1int
                },
                same_values(*state, *old(state)),
                counts_match(*state, g@, row as int, col as int, k as int, r * 9 + c, delta),
                !up ==> forall|r: int, c: int|
                    0 <= r < 9 && 0 <= c < 9 && near(row as int, col as int, r, c)
                        ==> #[trigger] peer_count(g@, r * 9 + c, (k + 1) as u8) >= 1,
            decreases 9 - c,
        {
            if are_peers(row, col, r, c) {
                proof {
                    lemma_peer_count_bounds(g@, r * 9 + c, (k + 1) as u8, 81);
                    assert(state[r as int][c as int].blockers[k as int] as int == peer_count(
                        g@,
                        r * 9 + c,
                        (k + 1) as u8,
                    ));
                }
                adjust_tile(state, r, c, k, up);
            }
            c = c + 1;
        }
        r = r + 1;
    }
    proof {
        assert forall|p: int| 0 <= p < 81 implies #[trigger] grid_of(*state)[p] == grid_of(
            *old(state),
        )[p] by {
            lemma_position(p);
        }
        assert(grid_of(*state) =~= grid_of(*old(state)));
    }
}

/// The 9x9 board. Each tile keeps, beside its value, how many of its peers
/// hold each digit; the board keeps those counters equal to a recount at all
/// times.
pub struct Board {
    state: [[Tile; 9]; 9],
}

impl View for Board {
    type V = Grid;

    closed spec fn view(&self) -> Grid {
        grid_of(self.state)
    }
}

impl Board {
    /// Constraint consistency: the grid is well formed and every counter of
    /// every tile equals the number of peers that hold its digit.
    #[verifier::type_invariant]
    pub closed spec fn consistent(self) -> bool {
        well_formed(grid_of(self.state)) && counts_match(self.state, grid_of(self.state), 0, 0, 0, 0, 0)
    }

    /// The counter that the tile at position `p` keeps for digit `v`.
    pub closed spec fn blockers_at(self, p: int, v: u8) -> int {
        self.state[p / 9][p % 9].blockers[v - 1] as int
    }

    /// What consistency means to a caller.
    pub proof fn lemma_consistent(self)
        requires
            self.consistent(),
        ensures
            well_formed(self@),
            forall|p: int, v: u8|
                0 <= p < 81 && 1 <= v <= 9 ==> self.blockers_at(p, v) == peer_count(self@, p, v),
    {
        assert forall|p: int, v: u8| 0 <= p < 81 && 1 <= v <= 9 implies self.blockers_at(p, v)
            == peer_count(self@, p, v) by {
            lemma_position(p);
            let r = p / 9;
            let c = p % 9;
            let i = v - 1;
            assert(self.state[r][c].blockers[i] as int == peer_count(
                grid_of(self.state),
                r * 9 + c,
                (i + 1) as u8,
            ));
        }
    }

    /// On every board the candidates of a cell are the digits whose counter
    /// at that cell stands at zero: what a recount over the grid finds is what
    /// the counters say.
    pub proof fn lemma_candidates_are_unblocked(self, p: int)
        requires
            self.consistent(),
            0 <= p < 81,
        ensures
            forall|v: u8|
                1 <= v <= 9 ==> (#[trigger] candidates_of(self@, p).contains(v)
                    <==> self.blockers_at(p, v) == 0),
            forall|v: u8| #[trigger] candidates_of(self@, p).contains(v) ==> 1 <= v <= 9,
    {
        self.lemma_consistent();
        lemma_candidates_of(self@, p);
    }

    /// The grid of a board is well formed.
    pub proof fn lemma_view_well_formed(&self)
        requires
            self.consistent(),
        ensures
            well_formed(self@),
    {
    }

    /// A board with no cell assigned.
    pub fn new() -> (board: Board)
        ensures
            board@ == blank_grid(),
    {
        let state = [[Tile::new(); 9]; 9];
        proof {
            assert(grid_of(state) =~= blank_grid());
            assert forall|r: int, c: int, i: int| 0 <= r < 9 && 0 <= c < 9 && 0 <= i < 9 implies (
            #[trigger] state[r][c].blockers[i]) as int == peer_count(
                blank_grid(),
                r * 9 + c,
                (i + 1) as u8,
            ) by {
                assert(state[r][c].blocker((i + 1) as u8) == 0);
                lemma_peer_count_zero(blank_grid(), r * 9 + c, (i + 1) as u8, 81);
            }
        }
        Board { state }
    }

    /// Assigns `value` to the cell at (`row`, `col`) and adds one to the
    /// counter for `value` at each of its peers. Refused, with nothing
    /// changed, when `value` is no digit or the cell is already assigned.
    pub fn set_tile(&mut self, row: usize, col: usize, value: u8) -> (result: Result<
        (),
        InvalidAssignment,
    >)
        requires
            row < 9,
            col < 9,
        ensures
            result is Ok <==> (old(self)@[cell_index(row as int, col as int)] is None && 1 <= value
                <= 9),
            result is Ok ==> final(self)@ == old(self)@.update(
                cell_index(row as int, col as int),
                Some(value),
            ),
            result is Err ==> *final(self) == *old(self),
            forall|p: int, v: u8|
                0 <= p < 81 && 1 <= v <= 9 ==> #[trigger] final(self).blockers_at(p, v) == old(
                    self,
                ).blockers_at(p, v) + if result is Ok && v == value && is_peer(
                    cell_index(row as int, col as int),
                    p,
                ) {
                    1int
                } else {
                    0int
                },
    {
        proof {
            use_type_invariant(&*self);
        }
        if value < 1 || value > 9 || self.state[row][col].value.is_some() {
            return Err(InvalidAssignment);
        }
        let ghost target = cell_index(row as int, col as int);
        let ghost before = grid_of(self.state);
        let ghost after = before.update(target, Some(value));
        let k = (value - 1) as usize;
        let mut state = self.state;
        adjust_peers(&mut state, row, col, k, true, Ghost(before));
        state[row][col].value = Some(value);
        proof {
            assert(grid_of(state) =~= after);
            assert forall|r: int, c: int, i: int| 0 <= r < 9 && 0 <= c < 9 && 0 <= i < 9 implies (
            #[trigger] state[r][c].blockers[i]) as int == peer_count(
                after,
                r * 9 + c,
                (i + 1) as u8,
            ) by {
                lemma_near_is_peer(row as int, col as int, r, c);
                lemma_peer_count_update(before, r * 9 + c, (i + 1) as u8, target, Some(value), 81);
            }
            assert forall|p: int, v: u8| 0 <= p < 81 && 1 <= v <= 9 implies state[p / 9][p
                % 9].blockers[v - 1] as int == self.blockers_at(p, v) + if v == value && is_peer(
                target,
                p,
            ) {
                1int
            } else {
                0int
            } by {
                lemma_position(p);
                let r = p / 9;
                let c = p % 9;
                let i = v - 1;
                assert(state[r][c].blockers[i] as int == peer_count(
                    after,
                    r * 9 + c,
                    (i + 1) as u8,
                ));
                assert(self.state[r][c].blockers[i] as int == peer_count(
                    before,
                    r * 9 + c,
                    (i + 1) as u8,
                ));
                lemma_peer_count_update(before, p, v, target, Some(value), 81);
            }
        }
        self.state = state;
        Ok(())
    }

    /// Takes the value out of the cell at (`row`, `col`) and one from the
    /// counter for that value at each of its peers. Refused, with nothing
    /// changed, when the cell holds no value.
    pub fn clear_tile(&mut self, row: usize, col: usize) -> (result: Result<(), ClearUnassigned>)
        requires
            row < 9,
            col < 9,
        ensures
            result is Ok <==> old(self)@[cell_index(row as int, col as int)] is Some,
            result is Ok ==> final(self)@ == old(self)@.update(
                cell_index(row as int, col as int),
                None,
            ),
            result is Err ==> *final(self) == *old(self),
            forall|p: int, v: u8|
                0 <= p < 81 && 1 <= v <= 9 ==> #[trigger] final(self).blockers_at(p, v) == old(
                    self,
                ).blockers_at(p, v) - if old(self)@[cell_index(row as int, col as int)] == Some(v)
                    && is_peer(cell_index(row as int, col as int), p) {
                    1int
                } else {
                    0int
                },
    {
        proof {
            use_type_invariant(&*self);
        }
        let value = match self.state[row][col].value {
            Some(v) => v,
            None => {
                return Err(ClearUnassigned);
            },
        };
        let ghost target = cell_index(row as int, col as int);
        let ghost before = grid_of(self.state);
        let ghost after = before.update(target, None);
        assert(before[target] == Some(value));
        let k = (value - 1) as usize;
        let mut state = self.state;
        proof {
            assert forall|r: int, c: int|
                0 <= r < 9 && 0 <= c < 9 && near(
                    row as int,
                    col as int,
                    r,
                    c,
                ) implies #[trigger] peer_count(before, r * 9 + c, (k + 1) as u8) >= 1 by {
                lemma_near_is_peer(row as int, col as int, r, c);
                lemma_peer_count_zero(before, r * 9 + c, value, 81);
                lemma_peer_count_bounds(before, r * 9 + c, value, 81);
            }
        }
        adjust_peers(&mut state, row, col, k, false, Ghost(before));
        state[row][col].value = None;
        proof {
            assert(grid_of(state) =~= after);
            assert forall|r: int, c: int, i: int| 0 <= r < 9 && 0 <= c < 9 && 0 <= i < 9 implies (
            #[trigger] state[r][c].blockers[i]) as int == peer_count(
                after,
                r * 9 + c,
                (i + 1) as u8,
            ) by {
                lemma_near_is_peer(row as int, col as int, r, c);
                lemma_peer_count_update(before, r * 9 + c, (i + 1) as u8, target, None, 81);
            }
            assert forall|p: int, v: u8| 0 <= p < 81 && 1 <= v <= 9 implies state[p / 9][p
                % 9].blockers[v - 1] as int == self.blockers_at(p, v) - if v == value && is_peer(
                target,
                p,
            ) {
                1int
            } else {
                0int
            } by {
                lemma_position(p);
                let r = p / 9;
                let c = p % 9;
                let i = v - 1;
                assert(state[r][c].blockers[i] as int == peer_count(
                    after,
                    r * 9 + c,
                    (i + 1) as u8,
                ));
                assert(self.state[r][c].blockers[i] as int == peer_count(
                    before,
                    r * 9 + c,
                    (i + 1) as u8,
                ));
                lemma_peer_count_update(before, p, v, target, None, 81);
            }
        }
        self.state = state;
        Ok(())
    }

    /// The digits that no peer of the cell at (`row`, `col`) holds, in
    /// ascending order.
    pub fn get_candidates(&self, row: usize, col: usize) -> (candidates: Vec<u8>)
        requires
            row < 9,
            col < 9,
        ensures
            candidates@ == candidates_of(self@, cell_index(row as int, col as int)),
            forall|v: u8|
                #[trigger] candidates@.contains(v) <==> (1 <= v <= 9 && peer_count(
                    self@,
                    cell_index(row as int, col as int),
                    v,
                ) == 0),
    {
        proof {
            use_type_invariant(self);
        }
        let ghost p = cell_index(row as int, col as int);
        let tile = self.state[row][col];
        let mut candidates: Vec<u8> = Vec::with_capacity(9);
        let mut v: u8 = 1;
        while v <= 9
            invariant
                1 <= v <= 10,
                row < 9,
                col < 9,
                p == row * 9 + col,
                tile == self.state[row as int][col as int],
                counts_match(self.state, self@, 0, 0, 0, 0, 0),
                candidates@ == open_values_upto(self@, p, v - 1),
            decreases 10 - v,
        {
            assert(tile.blockers[v - 1] as int == peer_count(self@, row * 9 + col, ((v - 1) + 1) as u8));
            if tile.blockers[(v - 1) as usize] == 0 {
                candidates.push(v);
            }
            v = v + 1;
        }
        proof {
            lemma_candidates_of(self@, p);
        }
        candidates
    }

    /// The value of the cell at (`row`, `col`), if it has one.
    pub fn get_tile(&self, row: usize, col: usize) -> (value: Option<u8>)
        requires
            row < 9,
            col < 9,
        ensures
            value == self@[cell_index(row as int, col as int)],
            value matches Some(v) ==> 1 <= v <= 9,
    {
        proof {
            use_type_invariant(self);
            assert(self@[cell_index(row as int, col as int)] == self.state[row as int][col as int].value);
        }
        self.state[row][col].value
    }

    /// The board as text: one line per row, each cell as its digit or `?`,
    /// and a closing line of dashes.
    pub fn render(&self) -> (text: Vec<char>)
        ensures
            text@ == laid_out(Seq::new(81, |p: int| glyph(self@[p]))),
    {
        let mut cells: Vec<char> = Vec::with_capacity(81);
        let mut p: usize = 0;
        while p < 81
            invariant
                0 <= p <= 81,
                cells@.len() == p,
                forall|q: int| 0 <= q < p ==> #[trigger] cells@[q] == glyph(self@[q]),
            decreases 81 - p,
        {
            let (row, col) = (p / 9, p % 9);
            proof {
                lemma_position(p as int);
            }
            let c = match self.get_tile(row, col) {
                Some(v) => digit_char(v),
                None => '?',
            };
            cells.push(c);
            p = p + 1;
        }
        assert(cells@ =~= Seq::new(81, |p: int| glyph(self@[p])));
        lay_out(&cells)
    }

    /// The number of candidates of each cell as text, laid out as in
    /// `render`.
    pub fn render_candidate_count(&self) -> (text: Vec<char>)
        ensures
            text@ == laid_out(
                Seq::new(81, |p: int| digit_glyph(candidates_of(self@, p).len() as u8)),
            ),
    {
        let mut cells: Vec<char> = Vec::with_capacity(81);
        let mut p: usize = 0;
        while p < 81
            invariant
                0 <= p <= 81,
                cells@.len() == p,
                forall|q: int|
                    0 <= q < p ==> #[trigger] cells@[q] == digit_glyph(
                        candidates_of(self@, q).len() as u8,
                    ),
            decreases 81 - p,
        {
            let (row, col) = (p / 9, p % 9);
            proof {
                lemma_position(p as int);
                lemma_candidates_of(self@, p as int);
            }
            let count: usize = self.get_candidates(row, col).len();
            cells.push(digit_char(count as u8));
            p = p + 1;
        }
        assert(cells@ =~= Seq::new(
            81,
            |p: int| digit_glyph(candidates_of(self@, p).len() as u8),
        ));
        lay_out(&cells)
    }

    /// Whether the unit `u` holds each digit exactly once.
    fn unit_is_permutation(&self, u: usize) -> (ok: bool)
        requires
            u < 27,
        ensures
            ok == (unit_values(self@, u as int).to_multiset() == digits().to_multiset()),
    {
        let ghost s = unit_values(self@, u as int);
        let ghost mut seen_at: Seq<int> = Seq::new(9, |d: int| 0int);
        let mut seen = [false; 9];
        let mut i: usize = 0;
        while i < 9
            invariant
                0 <= i <= 9,
                u < 27,
                s == unit_values(self@, u as int),
                seen_at.len() == 9,
                forall|j: int| 0 <= j < i ==> (#[trigger] s[j] matches Some(v) && 1 <= v <= 9),
                forall|j: int| 0 <= j < i ==> seen[#[trigger] s[j].unwrap() - 1],
                forall|d: int|
                    0 <= d < 9 && #[trigger] seen[d] ==> 0 <= seen_at[d] < i && s[seen_at[d]]
                        == Some((d + 1) as u8),
                forall|j: int, k: int| 0 <= j < k < i ==> s[j] != s[k],
            decreases 9 - i,
        {
            let (r, c) = unit_position(u, i);
            proof {
                use_type_invariant(self);
                lemma_unit_cell(u as int, i as int);
            }
            let value = self.state[r][c].value;
            assert(value == s[i as int]);
            match value {
                None => {
                    proof {
                        lemma_unit_permutation(s);
                    }
                    return false;
                },
                Some(v) => {
                    let d: usize = (v - 1) as usize;
                    if seen[d] {
                        proof {
                            lemma_unit_permutation(s);
                            assert(s[seen_at[d as int]] == s[i as int]);
                        }
                        return false;
                    }
                    seen[d] = true;
                    proof {
                        seen_at = seen_at.update(d as int, i as int);
                    }
                },
            }
            i = i + 1;
        }
        proof {
            lemma_unit_permutation(s);
        }
        true
    }

    /// Whether every cell is assigned and every row, column and box holds each
    /// digit from 1 to 9 exactly once.
    pub fn is_complete(&self) -> (complete: bool)
        ensures
            complete == is_solved(self@),
    {
        proof {
            use_type_invariant(self);
        }
        let mut u: usize = 0;
        while u < 27
            invariant
                0 <= u <= 27,
                self@.len() == 81,
                forall|w: int|
                    0 <= w < u ==> #[trigger] unit_values(self@, w).to_multiset()
                        == digits().to_multiset(),
            decreases 27 - u,
        {
            if !self.unit_is_permutation(u) {
                return false;
            }
            u = u + 1;
        }
        true
    }
}

fn unit_position(u: usize, i: usize) -> (at: (usize, usize))
    requires
        u < 27,
        i < 9,
    ensures
        at.0 < 9,
        at.1 < 9,
        cell_index(at.0 as int, at.1 as int) == unit_cell(u as int, i as int),
{
    if u < 9 {
        (u, i)
    } else if u < 18 {
        (i, u - 9)
    } else {
        ((u - 18) / 3 * 3 + i / 3, (u - 18) % 3 * 3 + i % 3)
    }
}

/// Assigning a value to an unassigned cell and clearing that cell again gives
/// back the grid, and with it every counter at every cell.
pub proof fn lemma_set_then_clear_restores(
    before: Board,
    between: Board,
    after: Board,
    row: int,
    col: int,
    value: u8,
)
    requires
        0 <= row < 9,
        0 <= col < 9,
        before.consistent(),
        between.consistent(),
        after.consistent(),
        before@[cell_index(row, col)] is None,
        between@ == before@.update(cell_index(row, col), Some(value)),
        after@ == between@.update(cell_index(row, col), None),
    ensures
        after@ == before@,
        forall|p: int, v: u8|
            0 <= p < 81 && 1 <= v <= 9 ==> after.blockers_at(p, v) == before.blockers_at(p, v),
{
    before.lemma_consistent();
    after.lemma_consistent();
    assert(after@ =~= before@);
}

/// The character that stands for the number `v`, for `v` up to 9.
pub open spec fn digit_glyph(v: u8) -> char {
    (v + 48) as char
}

/// The character that stands for a cell: its digit, or `?` when it has none.
pub open spec fn glyph(x: Option<u8>) -> char {
    match x {
        Some(v) => digit_glyph(v),
        None => '?',
    }
}

/// The character at index `i` of the text that shows the 81 characters
/// `cells` as a board. Each of the 9 rows takes 20 characters: a space, then
/// each cell followed by a space, then a line feed. A line of 18 dashes and a
/// line feed close the text.
pub open spec fn laid_out_at(cells: Seq<char>, i: int) -> char {
    if i < 180 {
        let k = i % 20;
        if k == 19 {
            '\n'
        } else if k % 2 == 1 {
            cells[(i / 20) * 9 + (k - 1) / 2]
        } else {
            ' '
        }
    } else if i < 198 {
        '-'
    } else {
        '\n'
    }
}

/// The text that shows the 81 characters `cells` as a board.
pub open spec fn laid_out(cells: Seq<char>) -> Seq<char> {
    Seq::new(199, |i: int| laid_out_at(cells, i))
}

fn digit_char(v: u8) -> (c: char)
    requires
        v <= 9,
    ensures
        c == digit_glyph(v),
{
    (v + 48) as char
}

fn lay_out(cells: &Vec<char>) -> (text: Vec<char>)
    requires
        cells@.len() == 81,
    ensures
        text@ == laid_out(cells@),
{
    let mut text: Vec<char> = Vec::with_capacity(199);
    let mut row: usize = 0;
    while row < 9
        invariant
            0 <= row <= 9,
            cells@.len() == 81,
            text@.len() == row * 20,
            forall|i: int| 0 <= i < text@.len() ==> #[trigger] text@[i] == laid_out_at(cells@, i),
        decreases 9 - row,
    {
        text.push(' ');
        let mut col: usize = 0;
        while col < 9
            invariant
                0 <= row < 9,
                0 <= col <= 9,
                cells@.len() == 81,
                text@.len() == row * 20 + 1 + col * 2,
                forall|i: int|
                    0 <= i < text@.len() ==> #[trigger] text@[i] == laid_out_at(cells@, i),
            decreases 9 - col,
        {
            text.push(cells[row * 9 + col]);
            text.push(' ');
            col = col + 1;
        }
        text.push('\n');
        row = row + 1;
    }
    let mut dash: usize = 0;
    while dash < 18
        invariant
            0 <= dash <= 18,
            text@.len() == 180 + dash,
            forall|i: int| 0 <= i < text@.len() ==> #[trigger] text@[i] == laid_out_at(cells@, i),
        decreases 18 - dash,
    {
        text.push('-');
        dash = dash + 1;
    }
    text.push('\n');
    assert(text@ =~= laid_out(cells@));
    text
}


} // verus!

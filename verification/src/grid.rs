use vstd::prelude::*;

verus! {

/// The grid as contracts see it: the 81 cells in row-major order, each either
/// unassigned (`None`) or holding a digit.
pub type Grid = Seq<Option<u8>>;

/// Row-major position of the cell at (`row`, `col`).
pub open spec fn cell_index(row: int, col: int) -> int {
    row * 9 + col
}

/// Row of the cell at position `p`.
pub open spec fn row_of(p: int) -> int {
    p / 9
}

/// Column of the cell at position `p`.
pub open spec fn col_of(p: int) -> int {
    p % 9
}

/// Two distinct cells are peers when they share a row, a column or a 3x3 box.
pub open spec fn is_peer(p: int, q: int) -> bool {
    p != q && shares_unit(row_of(p), col_of(p), row_of(q), col_of(q))
}

/// The cells at (`r1`, `c1`) and (`r2`, `c2`) lie in one row, column or box.
pub open spec fn shares_unit(r1: int, c1: int, r2: int, c2: int) -> bool {
    r1 == r2 || c1 == c2 || (r1 / 3 == r2 / 3 && c1 / 3 == c2 / 3)
}

/// Row and column are recovered from the position they give.
pub proof fn lemma_coordinates(row: int, col: int)
    requires
        0 <= row < 9,
        0 <= col < 9,
    ensures
        0 <= cell_index(row, col) < 81,
        row_of(cell_index(row, col)) == row,
        col_of(cell_index(row, col)) == col,
{
    vstd::arithmetic::div_mod::lemma_fundamental_div_mod_converse(row * 9 + col, 9, row, col);
}

/// Every position below 81 is the position of its own row and column.
pub proof fn lemma_position(p: int)
    requires
        0 <= p < 81,
    ensures
        0 <= row_of(p) < 9,
        0 <= col_of(p) < 9,
        cell_index(row_of(p), col_of(p)) == p,
{
    vstd::arithmetic::div_mod::lemma_fundamental_div_mod(p, 9);
}

/// A grid has 81 cells and every assigned cell holds a digit from 1 to 9.
pub open spec fn well_formed(g: Grid) -> bool {
    g.len() == 81 && forall|p: int|
        0 <= p < 81 ==> (#[trigger] g[p] matches Some(v) ==> 1 <= v <= 9)
}

/// The grid in which no cell is assigned.
pub open spec fn blank_grid() -> Grid {
    Seq::new(81, |p: int| None)
}

/// Number of peers of `p` among the first `n` cells that hold `v`.
pub open spec fn peer_count_upto(g: Grid, p: int, v: u8, n: int) -> int
    decreases n,
{
    if n <= 0 {
        0
    } else {
        peer_count_upto(g, p, v, n - 1) + if is_peer(p, n - 1) && g[n - 1] == Some(v) {
            1int
        } else {
            0int
        }
    }
}

/// Number of peers of `p` that hold `v`, counted over the whole grid.
pub open spec fn peer_count(g: Grid, p: int, v: u8) -> int {
    peer_count_upto(g, p, v, 81)
}

/// The digits from 1 to `n` that no peer of `p` holds, in ascending order.
pub open spec fn open_values_upto(g: Grid, p: int, n: int) -> Seq<u8>
    decreases n,
{
    if n <= 0 {
        Seq::empty()
    } else {
        let rest = open_values_upto(g, p, n - 1);
        if peer_count(g, p, n as u8) == 0 {
            rest.push(n as u8)
        } else {
            rest
        }
    }
}

/// The candidates of cell `p`: every digit that no peer of `p` holds, ascending.
pub open spec fn candidates_of(g: Grid, p: int) -> Seq<u8> {
    open_values_upto(g, p, 9)
}

/// A cell is a peer of its peers.
pub proof fn lemma_peer_symmetric(p: int, q: int)
    ensures
        is_peer(p, q) == is_peer(q, p),
{
}

/// Among `n` cells at most `n` hold `v`.
pub proof fn lemma_peer_count_bounds(g: Grid, p: int, v: u8, n: int)
    requires
        0 <= n,
    ensures
        0 <= peer_count_upto(g, p, v, n) <= n,
    decreases n,
{
    if n > 0 {
        lemma_peer_count_bounds(g, p, v, n - 1);
    }
}

/// The count is zero exactly when no peer among the first `n` cells holds `v`.
pub proof fn lemma_peer_count_zero(g: Grid, p: int, v: u8, n: int)
    requires
        0 <= n,
    ensures
        peer_count_upto(g, p, v, n) == 0 <==> (forall|q: int|
            0 <= q < n && is_peer(p, q) ==> #[trigger] g[q] != Some(v)),
    decreases n,
{
    if n > 0 {
        lemma_peer_count_zero(g, p, v, n - 1);
        lemma_peer_count_bounds(g, p, v, n - 1);
        if peer_count_upto(g, p, v, n) == 0 {
            assert forall|q: int| 0 <= q < n && is_peer(p, q) implies #[trigger] g[q] != Some(
                v,
            ) by {
                if q < n - 1 {
                } else {
                }
            }
        }
    }
}

/// Writing `x` into cell `q` changes the count at `p` only if `q` is a peer of
/// `p`, and then by what `q` gains or loses of `v`.
pub proof fn lemma_peer_count_update(g: Grid, p: int, v: u8, q: int, x: Option<u8>, n: int)
    requires
        g.len() == 81,
        0 <= q < 81,
        0 <= n <= 81,
    ensures
        peer_count_upto(g.update(q, x), p, v, n) == peer_count_upto(g, p, v, n) + if q < n
            && is_peer(p, q) {
            (if x == Some(v) {
                1int
            } else {
                0int
            }) - (if g[q] == Some(v) {
                1int
            } else {
                0int
            })
        } else {
            0int
        },
    decreases n,
{
    if n > 0 {
        lemma_peer_count_update(g, p, v, q, x, n - 1);
    }
}

/// What the candidates of a cell are: the digits that no peer holds, each
/// once, in ascending order.
pub proof fn lemma_candidates_of(g: Grid, p: int)
    ensures
        forall|v: u8|
            #[trigger] candidates_of(g, p).contains(v) <==> (1 <= v <= 9 && peer_count(g, p, v)
                == 0),
        candidates_of(g, p).no_duplicates(),
        candidates_of(g, p).len() <= 9,
        forall|i: int, j: int|
            0 <= i < j < candidates_of(g, p).len() ==> candidates_of(g, p)[i] < candidates_of(
                g,
                p,
            )[j],
{
    lemma_open_values(g, p, 9);
}

proof fn lemma_open_values(g: Grid, p: int, n: int)
    requires
        0 <= n <= 9,
    ensures
        forall|v: u8|
            #[trigger] open_values_upto(g, p, n).contains(v) <==> (1 <= v <= n && peer_count(
                g,
                p,
                v,
            ) == 0),
        forall|i: int, j: int|
            0 <= i < j < open_values_upto(g, p, n).len() ==> open_values_upto(g, p, n)[i]
                < open_values_upto(g, p, n)[j],
        open_values_upto(g, p, n).no_duplicates(),
        open_values_upto(g, p, n).len() <= n,
    decreases n,
{
    if n > 0 {
        lemma_open_values(g, p, n - 1);
        let rest = open_values_upto(g, p, n - 1);
        let all = open_values_upto(g, p, n);
        if peer_count(g, p, n as u8) == 0 {
            assert(all == rest.push(n as u8));
            assert forall|v: u8| #[trigger] all.contains(v) <==> (1 <= v <= n && peer_count(
                g,
                p,
                v,
            ) == 0) by {
                if all.contains(v) {
                    let i = choose|i: int| 0 <= i < all.len() && all[i] == v;
                    if i < rest.len() {
                        assert(rest[i] == v);
                        assert(rest.contains(v));
                    }
                }
                if 1 <= v <= n && peer_count(g, p, v) == 0 {
                    if v == n {
                        assert(all[rest.len() as int] == v);
                    } else {
                        assert(rest.contains(v));
                        let i = choose|i: int| 0 <= i < rest.len() && rest[i] == v;
                        assert(all[i] == v);
                    }
                }
            }
            assert forall|i: int, j: int| 0 <= i < j < all.len() implies all[i] < all[j] by {
                if j == rest.len() {
                    assert(rest.contains(rest[i]));
                }
            }
        } else {
            assert(all == rest);
        }
    }
}

/// The cell at (`r`, `c`) is another cell than the one at (`row`, `col`) and
/// lies in one unit with it.
pub open spec fn near(row: int, col: int, r: int, c: int) -> bool {
    (row != r || col != c) && shares_unit(row, col, r, c)
}

/// On the board, `near` is the peer relation.
pub proof fn lemma_near_is_peer(row: int, col: int, r: int, c: int)
    requires
        0 <= row < 9,
        0 <= col < 9,
        0 <= r < 9,
        0 <= c < 9,
    ensures
        near(row, col, r, c) == is_peer(cell_index(row, col), cell_index(r, c)),
        near(row, col, r, c) == is_peer(cell_index(r, c), cell_index(row, col)),
{
    lemma_coordinates(row, col);
    lemma_coordinates(r, c);
}

/// Position of the `i`-th cell of unit `u`. Units 0 to 8 are the rows, 9 to 17
/// the columns, 18 to 26 the boxes.
pub open spec fn unit_cell(u: int, i: int) -> int {
    cell_index(unit_row(u, i), unit_col(u, i))
}

/// Row of the `i`-th cell of unit `u`.
pub open spec fn unit_row(u: int, i: int) -> int {
    if u < 9 {
        u
    } else if u < 18 {
        i
    } else {
        (u - 18) / 3 * 3 + i / 3
    }
}

/// Column of the `i`-th cell of unit `u`.
pub open spec fn unit_col(u: int, i: int) -> int {
    if u < 9 {
        i
    } else if u < 18 {
        u - 9
    } else {
        (u - 18) % 3 * 3 + i % 3
    }
}

/// The nine cells of unit `u`.
pub open spec fn unit_values(g: Grid, u: int) -> Seq<Option<u8>> {
    Seq::new(9, |i: int| g[unit_cell(u, i)])
}

/// The digits 1 to 9, each as the value of an assigned cell.
pub open spec fn digits() -> Seq<Option<u8>> {
    Seq::new(9, |i: int| Some((i + 1) as u8))
}

/// A grid is solved when each of its 27 units holds, as a multiset, exactly
/// the digits 1 to 9.
pub open spec fn is_solved(g: Grid) -> bool {
    g.len() == 81 && forall|u: int|
        0 <= u < 27 ==> #[trigger] unit_values(g, u).to_multiset() == digits().to_multiset()
}

/// No assigned cell holds the value of one of its peers.
pub open spec fn conflict_free(g: Grid) -> bool {
    forall|p: int, q: int|
        0 <= p < 81 && 0 <= q < 81 && #[trigger] is_peer(p, q) && g[p] is Some ==> g[p] != g[q]
}

/// Every cell holds a value.
pub open spec fn all_assigned(g: Grid) -> bool {
    forall|p: int| 0 <= p < 81 ==> #[trigger] g[p] is Some
}

/// Nine cells hold the multiset of the digits exactly when each holds a digit
/// and no two hold the same.
pub proof fn lemma_unit_permutation(s: Seq<Option<u8>>)
    requires
        s.len() == 9,
    ensures
        s.to_multiset() == digits().to_multiset() <==> (s.no_duplicates() && forall|i: int|
            0 <= i < 9 ==> (#[trigger] s[i] matches Some(v) && 1 <= v <= 9)),
{
    broadcast use vstd::seq_lib::to_multiset_contains;

    let d = digits();
    assert(d.no_duplicates());
    d.lemma_multiset_has_no_duplicates();
    assert forall|x: Option<u8>| d.contains(x) <==> (x matches Some(v) && 1 <= v <= 9) by {
        if let Some(v) = x {
            if 1 <= v <= 9 {
                assert(d[v - 1] == x);
            }
        }
    }
    if s.to_multiset() == d.to_multiset() {
        s.lemma_multiset_has_no_duplicates_conv();
        assert forall|i: int| 0 <= i < 9 implies (#[trigger] s[i] matches Some(v) && 1 <= v
            <= 9) by {
            assert(s.contains(s[i]));
            assert(s.to_multiset().count(s[i]) > 0);
            assert(d.contains(s[i]));
        }
    }
    if s.no_duplicates() && forall|i: int|
        0 <= i < 9 ==> (#[trigger] s[i] matches Some(v) && 1 <= v <= 9) {
        s.lemma_multiset_has_no_duplicates();
        s.unique_seq_to_set();
        d.unique_seq_to_set();
        vstd::seq_lib::seq_to_set_is_finite(s);
        vstd::seq_lib::seq_to_set_is_finite(d);
        assert(s.to_set().subset_of(d.to_set())) by {
            assert forall|x: Option<u8>| s.to_set().contains(x) implies d.to_set().contains(x) by {
                let i = choose|i: int| 0 <= i < s.len() && s[i] == x;
                assert(d.contains(s[i]));
            }
        }
        vstd::set_lib::lemma_subset_equality(s.to_set(), d.to_set());
        assert forall|x: Option<u8>| s.to_multiset().count(x) == d.to_multiset().count(x) by {
            assert(s.contains(x) <==> s.to_set().contains(x));
            assert(d.contains(x) <==> d.to_set().contains(x));
            assert(s.contains(x) <==> s.to_multiset().count(x) > 0);
            assert(d.contains(x) <==> d.to_multiset().count(x) > 0);
        }
        assert(s.to_multiset() =~= d.to_multiset());
    }
}

/// Row and column of the `i`-th cell of unit `u` are on the board.
pub proof fn lemma_unit_cell(u: int, i: int)
    requires
        0 <= u < 27,
        0 <= i < 9,
    ensures
        0 <= unit_row(u, i) < 9,
        0 <= unit_col(u, i) < 9,
        0 <= unit_cell(u, i) < 81,
        row_of(unit_cell(u, i)) == unit_row(u, i),
        col_of(unit_cell(u, i)) == unit_col(u, i),
{
    lemma_coordinates(unit_row(u, i), unit_col(u, i));
}

/// Two different cells of one unit are peers.
pub proof fn lemma_unit_cells_are_peers(u: int, i: int, j: int)
    requires
        0 <= u < 27,
        0 <= i < 9,
        0 <= j < 9,
        i != j,
    ensures
        is_peer(unit_cell(u, i), unit_cell(u, j)),
{
    lemma_unit_cell(u, i);
    lemma_unit_cell(u, j);
    if u >= 18 {
        let b = u - 18;
        let (x, y) = (b / 3, b % 3);
        let (ir, ic, jr, jc) = (i / 3, i % 3, j / 3, j % 3);
        vstd::arithmetic::div_mod::lemma_fundamental_div_mod_converse(x * 3 + ir, 3, x, ir);
        vstd::arithmetic::div_mod::lemma_fundamental_div_mod_converse(x * 3 + jr, 3, x, jr);
        vstd::arithmetic::div_mod::lemma_fundamental_div_mod_converse(y * 3 + ic, 3, y, ic);
        vstd::arithmetic::div_mod::lemma_fundamental_div_mod_converse(y * 3 + jc, 3, y, jc);
        assert(ir != jr || ic != jc);
    }
}

/// Two peers are two different cells of one unit.
pub proof fn lemma_peers_share_unit(p: int, q: int) -> (at: (int, int, int))
    requires
        0 <= p < 81,
        0 <= q < 81,
        is_peer(p, q),
    ensures
        0 <= at.0 < 27,
        0 <= at.1 < 9,
        0 <= at.2 < 9,
        at.1 != at.2,
        unit_cell(at.0, at.1) == p,
        unit_cell(at.0, at.2) == q,
{
    lemma_position(p);
    lemma_position(q);
    let (pr, pc, qr, qc) = (row_of(p), col_of(p), row_of(q), col_of(q));
    if pr == qr {
        (pr, pc, qc)
    } else if pc == qc {
        (9 + pc, pr, qr)
    } else {
        let (x, y) = (pr / 3, pc / 3);
        let b = x * 3 + y;
        vstd::arithmetic::div_mod::lemma_fundamental_div_mod_converse(b, 3, x, y);
        let (i, j) = (pr % 3 * 3 + pc % 3, qr % 3 * 3 + qc % 3);
        vstd::arithmetic::div_mod::lemma_fundamental_div_mod_converse(i, 3, pr % 3, pc % 3);
        vstd::arithmetic::div_mod::lemma_fundamental_div_mod_converse(j, 3, qr % 3, qc % 3);
        assert(unit_row(18 + b, i) == pr);
        assert(unit_col(18 + b, i) == pc);
        assert(unit_row(18 + b, j) == qr);
        assert(unit_col(18 + b, j) == qc);
        (18 + b, i, j)
    }
}

/// A well-formed grid is solved exactly when every cell is assigned and no
/// two peers hold the same value.
pub proof fn lemma_solved_iff_full_and_conflict_free(g: Grid)
    requires
        well_formed(g),
    ensures
        is_solved(g) <==> (all_assigned(g) && conflict_free(g)),
{
    if all_assigned(g) && conflict_free(g) {
        assert forall|u: int| 0 <= u < 27 implies #[trigger] unit_values(g, u).to_multiset()
            == digits().to_multiset() by {
            let s = unit_values(g, u);
            assert forall|i: int| 0 <= i < 9 implies (#[trigger] s[i] matches Some(v) && 1 <= v
                <= 9) by {
                lemma_unit_cell(u, i);
                assert(g[unit_cell(u, i)] is Some);
            }
            assert forall|i: int, j: int| 0 <= i < 9 && 0 <= j < 9 && i != j implies s[i]
                != s[j] by {
                lemma_unit_cell(u, i);
                lemma_unit_cell(u, j);
                lemma_unit_cells_are_peers(u, i, j);
                assert(g[unit_cell(u, i)] is Some);
            }
            lemma_unit_permutation(s);
        }
    }
    if is_solved(g) {
        assert forall|u: int| 0 <= u < 27 implies (#[trigger] unit_values(g, u)).no_duplicates()
            && forall|i: int|
            0 <= i < 9 ==> (#[trigger] unit_values(g, u)[i] matches Some(v) && 1 <= v <= 9) by {
            assert(unit_values(g, u).to_multiset() == digits().to_multiset());
            lemma_unit_permutation(unit_values(g, u));
        }
        assert forall|p: int| 0 <= p < 81 implies #[trigger] g[p] is Some by {
            lemma_position(p);
            assert(unit_cell(row_of(p), col_of(p)) == p);
            assert(unit_values(g, row_of(p))[col_of(p)] is Some);
        }
        assert forall|p: int, q: int|
            0 <= p < 81 && 0 <= q < 81 && is_peer(p, q) && g[p] is Some implies g[p] != g[q] by {
            let (u, i, j) = lemma_peers_share_unit(p, q);
            assert(unit_values(g, u).no_duplicates());
            assert(unit_values(g, u)[i] == g[p]);
            assert(unit_values(g, u)[j] == g[q]);
        }
    }
}

/// Whoever holds a solved grid holds, in every row, column and box, the
/// multiset of the digits 1 to 9: each digit once, so a unit with a repeated
/// value is never accepted, whatever its sum.
pub proof fn lemma_solved_units(g: Grid, u: int, v: u8)
    requires
        is_solved(g),
        0 <= u < 27,
    ensures
        unit_values(g, u).to_multiset() == digits().to_multiset(),
        unit_values(g, u).to_multiset().count(Some(v)) == if 1 <= v <= 9 {
            1nat
        } else {
            0nat
        },
        unit_values(g, u).to_multiset().count(None) == 0,
{
    broadcast use vstd::seq_lib::to_multiset_contains;

    let d = digits();
    assert(d.no_duplicates());
    d.lemma_multiset_has_no_duplicates();
    if 1 <= v <= 9 {
        assert(d[v - 1] == Some(v));
        assert(d.contains(Some(v)));
    } else {
        assert(!d.contains(Some(v)));
    }
    assert(!d.contains(None));
}

/// A grid that keeps two equal given values of a puzzle at two peers is not
/// solved, whatever stands in its other cells.
pub proof fn lemma_clash_is_never_solved(start: Grid, f: Grid, p: int, q: int)
    requires
        well_formed(f),
        0 <= p < 81,
        0 <= q < 81,
        is_peer(p, q),
        start[p] is Some,
        start[p] == start[q],
        f[p] == start[p],
        f[q] == start[q],
    ensures
        !is_solved(f),
{
    lemma_solved_iff_full_and_conflict_free(f);
}

} // verus!

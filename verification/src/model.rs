//! Mathematical model of a Go board.
//!
//! The board is a flat sequence of cells in row-major order
//! (`index = y * n + x` on an `n` by `n` board).  This module defines
//! orthogonal adjacency, same-color connected groups, liberties, and the
//! captured group of a seed cell, together with the lemmas about them that
//! the executable engine is verified against.

use vstd::arithmetic::div_mod::{
    lemma_fundamental_div_mod, lemma_fundamental_div_mod_converse,
};
use vstd::arithmetic::mul::lemma_mul_inequality;
use vstd::prelude::*;

use crate::player::{opposite_of, Player};

verus! {

/// `i` is a cell index on an `n` by `n` board.
pub open spec fn idx_valid(n: int, i: int) -> bool {
    0 <= i < n * n
}

/// The cell index of the point `(x, y)` in row-major order.
pub open spec fn index_of(n: int, x: int, y: int) -> int {
    y * n + x
}

/// The column of cell index `i`.
pub open spec fn x_of(n: int, i: int) -> int {
    i % n
}

/// The row of cell index `i`.
pub open spec fn y_of(n: int, i: int) -> int {
    i / n
}

/// `(x, y)` is a point on an `n` by `n` board.
pub open spec fn coord_valid(n: int, x: int, y: int) -> bool {
    0 <= x < n && 0 <= y < n
}

/// `a` and `b` are distinct, orthogonally adjacent cells of an `n` by `n`
/// board: one step apart in the same column, or in the same row.
pub open spec fn adjacent(n: int, a: int, b: int) -> bool {
    &&& idx_valid(n, a)
    &&& idx_valid(n, b)
    &&& {
        ||| b == a + n
        ||| a == b + n
        ||| (a / n == b / n && (b == a + 1 || a == b + 1))
    }
}

/// `p` is a chain of pairwise-adjacent cells that all hold `c`.
pub open spec fn is_chain(cells: Seq<Player>, n: int, c: Player, p: Seq<int>) -> bool {
    &&& cells.len() == n * n
    &&& p.len() >= 1
    &&& forall|k: int| 0 <= k < p.len() ==> idx_valid(n, #[trigger] p[k]) && cells[p[k]] == c
    &&& forall|k: int| 0 <= k < p.len() - 1 ==> adjacent(n, #[trigger] p[k], p[k + 1])
}

/// `b` lies in the same-color connected group of `a`: some chain of cells
/// of `a`'s color leads from `a` to `b`.
pub open spec fn connected(cells: Seq<Player>, n: int, a: int, b: int) -> bool {
    exists|p: Seq<int>| is_chain(cells, n, cells[a], p) && p[0] == a && p[p.len() - 1] == b
}

/// The maximal same-color connected group containing `seed`.
pub open spec fn group_of(cells: Seq<Player>, n: int, seed: int) -> Set<int> {
    Set::new(|j: int| connected(cells, n, seed, j))
}

/// Some cell of `seed`'s group has an empty orthogonal neighbor.
pub open spec fn group_has_liberty(cells: Seq<Player>, n: int, seed: int) -> bool {
    exists|i: int, j: int|
        connected(cells, n, seed, i) && #[trigger] adjacent(n, i, j) && cells[j]
            == Player::Empty
}

/// The group containing `seed` is a group of stones with no liberty left.
pub open spec fn is_captured_at(cells: Seq<Player>, n: int, seed: int) -> bool {
    &&& idx_valid(n, seed)
    &&& cells[seed].is_stone()
    &&& !group_has_liberty(cells, n, seed)
}

/// The cells removed by a capture test at `seed`: the whole group when it
/// is liberty-free, nothing otherwise.
pub open spec fn captured_group(cells: Seq<Player>, n: int, seed: int) -> Set<int> {
    if is_captured_at(cells, n, seed) {
        group_of(cells, n, seed)
    } else {
        Set::empty()
    }
}

/// The group containing `seed` consists of the one cell `seed`.
pub open spec fn group_is_singleton(cells: Seq<Player>, n: int, seed: int) -> bool {
    forall|j: int| connected(cells, n, seed, j) ==> j == seed
}

/// A cell is cleared by the move that placed `player` at `idx` when it
/// lies in a liberty-free group of the opposing color adjacent to the
/// placed stone (`c2` is the grid with the stone already placed).
pub open spec fn captured_by_move(c2: Seq<Player>, n: int, idx: int, opp: Player, i: int) -> bool {
    exists|s: int|
        #[trigger] adjacent(n, idx, s) && c2[s] == opp && captured_group(c2, n, s).contains(i)
}

/// The grid after resolving the captures of the move that placed `player`
/// at `idx` (`c2` is the grid with the stone already placed).
pub open spec fn cells_after_captures(c2: Seq<Player>, n: int, idx: int, player: Player) -> Seq<
    Player,
> {
    Seq::new(
        c2.len(),
        |i: int|
            if captured_by_move(c2, n, idx, opposite_of(player), i) {
                Player::Empty
            } else {
                c2[i]
            },
    )
}

/// A cell is cleared by the first `k` steps of the capture scan over the
/// neighbor list `nbrs`.
pub open spec fn captured_by_scan(
    c2: Seq<Player>,
    n: int,
    opp: Player,
    nbrs: Seq<int>,
    k: int,
    i: int,
) -> bool {
    exists|t: int|
        0 <= t < k && c2[#[trigger] nbrs[t]] == opp && captured_group(c2, n, nbrs[t]).contains(i)
}

/// The ko marker arising from the capture scan: the last neighbor in scan
/// order whose capture removes exactly one stone, its own.
pub open spec fn ko_from(c2: Seq<Player>, n: int, opp: Player, nbrs: Seq<int>) -> Option<int>
    decreases nbrs.len(),
{
    if nbrs.len() == 0 {
        None
    } else {
        let s = nbrs.last();
        if c2[s] == opp && is_captured_at(c2, n, s) && group_is_singleton(c2, n, s) {
            Some(s)
        } else {
            ko_from(c2, n, opp, nbrs.drop_last())
        }
    }
}

/// The grid after the whole move: stone placed, then (for a real stone)
/// every liberty-free opposing neighbor group removed.
pub open spec fn cells_after_move(cells: Seq<Player>, n: int, x: int, y: int, player: Player) -> Seq<
    Player,
> {
    let idx = index_of(n, x, y);
    let c2 = cells.update(idx, player);
    if player == Player::Empty {
        c2
    } else {
        cells_after_captures(c2, n, idx, player)
    }
}

/// The ko marker after the whole move.
pub open spec fn ko_after_move(cells: Seq<Player>, n: int, x: int, y: int, player: Player) -> Option<
    int,
> {
    let idx = index_of(n, x, y);
    let c2 = cells.update(idx, player);
    if player == Player::Empty {
        None
    } else {
        ko_from(c2, n, opposite_of(player), neighbors_seq(n, idx))
    }
}

/// A neighbor of a tentative placement fails to rescue the placed stone
/// when it holds the mover's own color, or when no capture fires there —
/// where at the ko point a capture of exactly one stone is discounted
/// (recapturing the single ko stone at once is the forbidden move).
pub open spec fn neighbor_blocks(
    c2: Seq<Player>,
    n: int,
    ko_here: bool,
    player: Player,
    i: int,
) -> bool {
    ||| c2[i] == player
    ||| (if ko_here {
        !is_captured_at(c2, n, i) || group_is_singleton(c2, n, i)
    } else {
        !is_captured_at(c2, n, i)
    })
}

/// Move legality: the target point lies on the board, is empty, and the
/// mover is a real color; and the move is neither suicide nor a forbidden
/// ko recapture.  With the stone tentatively placed, the move is rejected
/// exactly when every on-board neighbor fails to rescue it and the placed
/// stone's own group would have no liberty.
pub open spec fn move_is_legal(
    cells: Seq<Player>,
    n: int,
    ko: Option<int>,
    x: int,
    y: int,
    player: Player,
) -> bool {
    &&& coord_valid(n, x, y)
    &&& cells[index_of(n, x, y)] == Player::Empty
    &&& player != Player::Empty
    &&& {
        let idx = index_of(n, x, y);
        let c2 = cells.update(idx, player);
        let ko_here = (ko == Some(idx));
        !((forall|i: int|
            #[trigger] adjacent(n, idx, i) ==> neighbor_blocks(c2, n, ko_here, player, i))
            && is_captured_at(c2, n, idx))
    }
}

/// Capture symmetry law: a lone stone whose every on-board orthogonal
/// neighbor holds the opposing color (4 neighbors at an interior point,
/// fewer at edges and corners) forms a liberty-free singleton group, and
/// the capture search removes exactly that stone.
pub proof fn lemma_single_stone_capture(cells: Seq<Player>, n: int, i: int)
    requires
        cells.len() == n * n,
        n >= 1,
        idx_valid(n, i),
        cells[i].is_stone(),
        forall|j: int| #[trigger] adjacent(n, i, j) ==> cells[j] == opposite_of(cells[i]),
    ensures
        is_captured_at(cells, n, i),
        group_is_singleton(cells, n, i),
        captured_group(cells, n, i) == set![i],
{
    assert forall|j: int| connected(cells, n, i, j) implies j == i by {
        let p: Seq<int> = choose|p: Seq<int>|
            is_chain(cells, n, cells[i], p) && p[0] == i && p[p.len() - 1] == j;
        if p.len() > 1 {
            assert(adjacent(n, p[0], p[1]));
            assert(cells[p[1]] == cells[i]);
            assert(cells[p[1]] == opposite_of(cells[i]));
            assert(false);
        }
    }
    assert(!group_has_liberty(cells, n, i)) by {
        if group_has_liberty(cells, n, i) {
            let (gi, gj): (int, int) = choose|gi: int, gj: int|
                connected(cells, n, i, gi) && #[trigger] adjacent(n, gi, gj) && cells[gj]
                    == Player::Empty;
            assert(gi == i);
            assert(cells[gj] == opposite_of(cells[i]));
            assert(false);
        }
    }
    lemma_connected_self(cells, n, i);
    assert(captured_group(cells, n, i) =~= set![i]);
}

/// A ko marker produced by the capture scan names a scanned neighbor
/// whose capture removed exactly its own single stone.
pub proof fn lemma_ko_from_some(c2: Seq<Player>, n: int, opp: Player, nbrs: Seq<int>, v: int)
    requires
        ko_from(c2, n, opp, nbrs) == Some(v),
    ensures
        nbrs.contains(v),
        c2[v] == opp,
        is_captured_at(c2, n, v),
        group_is_singleton(c2, n, v),
    decreases nbrs.len(),
{
    if nbrs.len() > 0 {
        let s = nbrs.last();
        if c2[s] == opp && is_captured_at(c2, n, s) && group_is_singleton(c2, n, s) {
            assert(nbrs[nbrs.len() - 1] == v);
        } else {
            lemma_ko_from_some(c2, n, opp, nbrs.drop_last(), v);
            let m: int = choose|m: int|
                0 <= m < nbrs.drop_last().len() && nbrs.drop_last()[m] == v;
            assert(nbrs[m] == v);
        }
    }
}

/// Row-major mapping: a valid point maps to a valid index, and splitting
/// that index recovers the point.
pub proof fn lemma_coord_round_trip(n: int, x: int, y: int)
    requires
        n >= 1,
        coord_valid(n, x, y),
    ensures
        idx_valid(n, index_of(n, x, y)),
        x_of(n, index_of(n, x, y)) == x,
        y_of(n, index_of(n, x, y)) == y,
{
    lemma_mul_inequality(y + 1, n, n);
    assert((y + 1) * n == y * n + n) by (nonlinear_arith);
    assert(y * n + x < n * n);
    lemma_fundamental_div_mod_converse(y * n + x, n, y, x);
}

/// Row-major mapping, the other way round: a valid index splits into a
/// valid point, and mapping that point back recovers the index.
pub proof fn lemma_index_round_trip(n: int, i: int)
    requires
        n >= 1,
        idx_valid(n, i),
    ensures
        coord_valid(n, x_of(n, i), y_of(n, i)),
        index_of(n, x_of(n, i), y_of(n, i)) == i,
{
    lemma_fundamental_div_mod(i, n);
    vstd::arithmetic::div_mod::lemma_mod_bound(i, n);
    vstd::arithmetic::div_mod::lemma_div_pos_is_pos(i, n);
    if i / n >= n {
        lemma_mul_inequality(n, i / n, n);
        assert(i >= (i / n) * n);
    }
}

/// A chain of one cell connects every valid cell to itself.
pub proof fn lemma_connected_self(cells: Seq<Player>, n: int, a: int)
    requires
        cells.len() == n * n,
        idx_valid(n, a),
    ensures
        connected(cells, n, a, a),
{
    let p: Seq<int> = seq![a];
    assert(is_chain(cells, n, cells[a], p));
    assert(p[0] == a && p[p.len() - 1] == a);
}

/// Extending a chain by one adjacent same-color cell keeps it connected.
pub proof fn lemma_connected_step(cells: Seq<Player>, n: int, a: int, b: int, j: int)
    requires
        connected(cells, n, a, b),
        adjacent(n, b, j),
        cells[j] == cells[a],
    ensures
        connected(cells, n, a, j),
{
    let p: Seq<int> = choose|p: Seq<int>|
        is_chain(cells, n, cells[a], p) && p[0] == a && p[p.len() - 1] == b;
    let q: Seq<int> = p.push(j);
    assert forall|k: int| 0 <= k < q.len() - 1 implies adjacent(n, #[trigger] q[k], q[k + 1]) by {
        if k < p.len() - 1 {
            assert(q[k] == p[k] && q[k + 1] == p[k + 1]);
        } else {
            assert(q[k] == b && q[k + 1] == j);
        }
    }
    assert(is_chain(cells, n, cells[a], q));
    assert(q[0] == a && q[q.len() - 1] == j);
}

/// Connectivity is symmetric: reverse the chain.
pub proof fn lemma_connected_sym(cells: Seq<Player>, n: int, a: int, b: int)
    requires
        connected(cells, n, a, b),
    ensures
        connected(cells, n, b, a),
{
    let p: Seq<int> = choose|p: Seq<int>|
        is_chain(cells, n, cells[a], p) && p[0] == a && p[p.len() - 1] == b;
    let len: int = p.len() as int;
    assert(cells[b] == cells[a]);
    let q: Seq<int> = Seq::new(p.len(), |k: int| p[len - 1 - k]);
    assert forall|k: int| 0 <= k < q.len() - 1 implies adjacent(n, #[trigger] q[k], q[k + 1]) by {
        let m: int = len - 2 - k;
        assert(adjacent(n, p[m], p[m + 1]));
        assert(q[k] == p[m + 1] && q[k + 1] == p[m]);
    }
    assert(is_chain(cells, n, cells[b], q));
    assert(q[0] == b && q[q.len() - 1] == a);
}

/// Connectivity is transitive: join the chains.
pub proof fn lemma_connected_trans(cells: Seq<Player>, n: int, a: int, b: int, c: int)
    requires
        connected(cells, n, a, b),
        connected(cells, n, b, c),
    ensures
        connected(cells, n, a, c),
{
    let p1: Seq<int> = choose|p: Seq<int>|
        is_chain(cells, n, cells[a], p) && p[0] == a && p[p.len() - 1] == b;
    let p2: Seq<int> = choose|p: Seq<int>|
        is_chain(cells, n, cells[b], p) && p[0] == b && p[p.len() - 1] == c;
    assert(cells[b] == cells[a]);
    let q: Seq<int> = p1 + p2.subrange(1, p2.len() as int);
    let l1: int = p1.len() as int;
    let l2: int = p2.len() as int;
    assert(q.len() == l1 + l2 - 1);
    assert forall|k: int| 0 <= k < q.len() implies idx_valid(n, #[trigger] q[k]) && cells[q[k]]
        == cells[a] by {
        if k < l1 {
            assert(q[k] == p1[k]);
        } else {
            assert(q[k] == p2[k - l1 + 1]);
        }
    }
    assert forall|k: int| 0 <= k < q.len() - 1 implies adjacent(n, #[trigger] q[k], q[k + 1]) by {
        if k < l1 - 1 {
            assert(q[k] == p1[k] && q[k + 1] == p1[k + 1]);
        } else if k == l1 - 1 {
            assert(q[k] == b && q[k + 1] == p2[1]);
            assert(adjacent(n, p2[0], p2[1]));
        } else {
            assert(q[k] == p2[k - l1 + 1] && q[k + 1] == p2[k - l1 + 2]);
            assert(adjacent(n, p2[k - l1 + 1], p2[k - l1 + 2]));
        }
    }
    assert(is_chain(cells, n, cells[a], q));
    assert(q[0] == a && q[q.len() - 1] == c);
}

/// Connected cells are valid and share one color.
pub proof fn lemma_connected_color(cells: Seq<Player>, n: int, a: int, b: int)
    requires
        connected(cells, n, a, b),
    ensures
        idx_valid(n, a),
        idx_valid(n, b),
        cells[b] == cells[a],
{
    let p: Seq<int> = choose|p: Seq<int>|
        is_chain(cells, n, cells[a], p) && p[0] == a && p[p.len() - 1] == b;
    assert(cells[p[0]] == cells[a]);
    assert(cells[p[p.len() - 1]] == cells[a]);
}

/// Two connected cells are seeds of one and the same group: the reachable
/// set, the liberties, and the captured set do not depend on which member
/// the search starts from.
pub proof fn lemma_same_seed(cells: Seq<Player>, n: int, a: int, b: int)
    requires
        connected(cells, n, a, b),
    ensures
        forall|j: int| #[trigger] connected(cells, n, a, j) <==> connected(cells, n, b, j),
        group_has_liberty(cells, n, a) == group_has_liberty(cells, n, b),
        is_captured_at(cells, n, a) == is_captured_at(cells, n, b),
        captured_group(cells, n, a) == captured_group(cells, n, b),
{
    lemma_connected_color(cells, n, a, b);
    lemma_connected_sym(cells, n, a, b);
    assert forall|j: int| #[trigger] connected(cells, n, a, j) implies connected(
        cells,
        n,
        b,
        j,
    ) by {
        lemma_connected_trans(cells, n, b, a, j);
    }
    assert forall|j: int| #[trigger] connected(cells, n, b, j) implies connected(
        cells,
        n,
        a,
        j,
    ) by {
        lemma_connected_trans(cells, n, a, b, j);
    }
    if group_has_liberty(cells, n, a) {
        let (gi, gj): (int, int) = choose|gi: int, gj: int|
            connected(cells, n, a, gi) && #[trigger] adjacent(n, gi, gj) && cells[gj]
                == Player::Empty;
        assert(connected(cells, n, b, gi));
        assert(group_has_liberty(cells, n, b));
    }
    if group_has_liberty(cells, n, b) {
        let (gi, gj): (int, int) = choose|gi: int, gj: int|
            connected(cells, n, b, gi) && #[trigger] adjacent(n, gi, gj) && cells[gj]
                == Player::Empty;
        assert(connected(cells, n, a, gi));
        assert(group_has_liberty(cells, n, a));
    }
    assert(captured_group(cells, n, a) =~= captured_group(cells, n, b));
}

/// Scanning every neighbor of the placed stone removes exactly the cells
/// that the move captures.
pub proof fn lemma_scan_is_move(c2: Seq<Player>, n: int, idx: int, opp: Player)
    requires
        n >= 1,
        idx_valid(n, idx),
    ensures
        forall|i: int|
            captured_by_scan(
                c2,
                n,
                opp,
                neighbors_seq(n, idx),
                neighbors_seq(n, idx).len() as int,
                i,
            ) <==> #[trigger] captured_by_move(c2, n, idx, opp, i),
{
    let nbrs: Seq<int> = neighbors_seq(n, idx);
    lemma_neighbors_seq(n, idx);
    assert forall|i: int|
        captured_by_scan(c2, n, opp, nbrs, nbrs.len() as int, i) implies #[trigger]
        captured_by_move(c2, n, idx, opp, i) by {
        let t: int = choose|t: int|
            0 <= t < nbrs.len() && c2[#[trigger] nbrs[t]] == opp && captured_group(
                c2,
                n,
                nbrs[t],
            ).contains(i);
        assert(nbrs.contains(nbrs[t]));
        assert(adjacent(n, idx, nbrs[t]));
    }
    assert forall|i: int| #[trigger]
        captured_by_move(c2, n, idx, opp, i) implies captured_by_scan(
        c2,
        n,
        opp,
        nbrs,
        nbrs.len() as int,
        i,
    ) by {
        let s: int = choose|s: int|
            #[trigger] adjacent(n, idx, s) && c2[s] == opp && captured_group(c2, n, s).contains(i);
        assert(nbrs.contains(s));
        let t: int = choose|t: int| 0 <= t < nbrs.len() && nbrs[t] == s;
        assert(c2[nbrs[t]] == opp && captured_group(c2, n, nbrs[t]).contains(i));
    }
}

/// Every cell of a chain is connected to the chain's first cell.
pub proof fn lemma_chain_members_connected(cells: Seq<Player>, n: int, p: Seq<int>, k: int)
    requires
        is_chain(cells, n, cells[p[0]], p),
        0 <= k < p.len(),
    ensures
        connected(cells, n, p[0], p[k]),
{
    let q: Seq<int> = p.subrange(0, k + 1);
    assert(is_chain(cells, n, cells[p[0]], q));
    assert(q[0] == p[0] && q[q.len() - 1] == p[k]);
}

/// A set that contains `a` and is closed under same-color adjacency
/// contains everything connected to `a`.
pub proof fn lemma_connected_closed(cells: Seq<Player>, n: int, a: int, b: int, s: Set<int>)
    requires
        connected(cells, n, a, b),
        s.contains(a),
        forall|i: int, j: int|
            s.contains(i) && #[trigger] adjacent(n, i, j) && cells[j] == cells[a]
                ==> s.contains(j),
    ensures
        s.contains(b),
{
    let p: Seq<int> = choose|p: Seq<int>|
        is_chain(cells, n, cells[a], p) && p[0] == a && p[p.len() - 1] == b;
    lemma_chain_closed(cells, n, cells[a], p, s);
}

/// A liberty-free group contains its own seed.
pub proof fn lemma_captured_seed(cells: Seq<Player>, n: int, seed: int)
    requires
        cells.len() == n * n,
        is_captured_at(cells, n, seed),
    ensures
        captured_group(cells, n, seed).contains(seed),
{
    lemma_connected_self(cells, n, seed);
}

/// `c3` arises from `c2` by emptying some cells.
pub open spec fn removals_only(c2: Seq<Player>, c3: Seq<Player>) -> bool {
    &&& c3.len() == c2.len()
    &&& forall|i: int| 0 <= i < c2.len() ==> #[trigger] c3[i] == c2[i] || c3[i] == Player::Empty
}

/// Emptying cells that are neither in `s`'s group nor of another color
/// leaves `s`'s group, its liberties, and its capture status unchanged.
///
/// This is what makes the capture resolution of a move order-independent:
/// the liberty-free opponent groups around the placed stone are pairwise
/// disjoint and non-adjacent, so removing one does not disturb the others.
pub proof fn lemma_group_frame(c2: Seq<Player>, c3: Seq<Player>, n: int, s: int)
    requires
        removals_only(c2, c3),
        c2.len() == n * n,
        idx_valid(n, s),
        c3[s] == c2[s],
        c2[s].is_stone(),
        forall|i: int|
            0 <= i < n * n && #[trigger] c3[i] != c2[i] ==> c2[i] == c2[s] && !connected(
                c2,
                n,
                s,
                i,
            ),
    ensures
        forall|j: int| #[trigger] connected(c2, n, s, j) ==> connected(c3, n, s, j),
        forall|j: int| #[trigger] connected(c3, n, s, j) ==> connected(c2, n, s, j),
        is_captured_at(c2, n, s) == is_captured_at(c3, n, s),
        captured_group(c2, n, s) == captured_group(c3, n, s),
{
    assert forall|j: int| #[trigger] connected(c2, n, s, j) implies connected(c3, n, s, j) by {
        let p: Seq<int> = choose|p: Seq<int>|
            is_chain(c2, n, c2[s], p) && p[0] == s && p[p.len() - 1] == j;
        assert forall|k: int| 0 <= k < p.len() implies c3[#[trigger] p[k]] == c2[p[k]] by {
            lemma_chain_members_connected(c2, n, p, k);
        }
        assert(is_chain(c3, n, c3[s], p));
    }
    assert forall|j: int| #[trigger] connected(c3, n, s, j) implies connected(c2, n, s, j) by {
        let p: Seq<int> = choose|p: Seq<int>|
            is_chain(c3, n, c3[s], p) && p[0] == s && p[p.len() - 1] == j;
        assert forall|k: int| 0 <= k < p.len() implies c2[#[trigger] p[k]] == c2[s] by {
            assert(c3[p[k]] == c3[s]);
        }
        assert(is_chain(c2, n, c2[s], p));
    }
    if group_has_liberty(c2, n, s) {
        let (i, j): (int, int) = choose|i: int, j: int|
            connected(c2, n, s, i) && #[trigger] adjacent(n, i, j) && c2[j] == Player::Empty;
        assert(c3[j] == Player::Empty);
        assert(group_has_liberty(c3, n, s));
    }
    if group_has_liberty(c3, n, s) {
        let (i, j): (int, int) = choose|i: int, j: int|
            connected(c3, n, s, i) && #[trigger] adjacent(n, i, j) && c3[j] == Player::Empty;
        assert(connected(c2, n, s, i));
        if c2[j] != Player::Empty {
            lemma_connected_step(c2, n, s, i, j);
            assert(false);
        }
        assert(group_has_liberty(c2, n, s));
    }
    assert(captured_group(c2, n, s) =~= captured_group(c3, n, s));
}

/// The on-board orthogonal neighbors of cell `i`, in the fixed order
/// left, right, up, down.
pub open spec fn neighbors_seq(n: int, i: int) -> Seq<int> {
    let segl: Seq<int> = if x_of(n, i) > 0 {
        seq![i - 1]
    } else {
        Seq::empty()
    };
    let segr: Seq<int> = if x_of(n, i) < n - 1 {
        seq![i + 1]
    } else {
        Seq::empty()
    };
    let segu: Seq<int> = if y_of(n, i) > 0 {
        seq![i - n]
    } else {
        Seq::empty()
    };
    let segd: Seq<int> = if y_of(n, i) < n - 1 {
        seq![i + n]
    } else {
        Seq::empty()
    };
    segl + segr + segu + segd
}

/// `neighbors_seq` lists each neighbor once, and lists exactly the cells
/// adjacent to `i`.
pub proof fn lemma_neighbors_seq(n: int, i: int)
    requires
        n >= 1,
        idx_valid(n, i),
    ensures
        neighbors_seq(n, i).no_duplicates(),
        forall|j: int| #[trigger] neighbors_seq(n, i).contains(j) ==> adjacent(n, i, j),
        forall|j: int| #[trigger] adjacent(n, i, j) ==> neighbors_seq(n, i).contains(j),
{
    let x: int = x_of(n, i);
    let y: int = y_of(n, i);
    lemma_index_round_trip(n, i);
    assert((y + 1) * n == y * n + n) by (nonlinear_arith);
    assert((y - 1) * n == y * n - n) by (nonlinear_arith);
    let s: Seq<int> = neighbors_seq(n, i);
    if x > 0 {
        lemma_coord_round_trip(n, x - 1, y);
    }
    if x < n - 1 {
        lemma_coord_round_trip(n, x + 1, y);
    }
    if y > 0 {
        lemma_coord_round_trip(n, x, y - 1);
    }
    if y < n - 1 {
        lemma_coord_round_trip(n, x, y + 1);
    }
    assert forall|j: int| #[trigger] s.contains(j) implies adjacent(n, i, j) by {
        let k: int = choose|k: int| 0 <= k < s.len() && s[k] == j;
        assert(j == i - 1 || j == i + 1 || j == i - n || j == i + n);
    }
    assert forall|j: int| #[trigger] adjacent(n, i, j) implies s.contains(j) by {
        if j == i + n {
            assert(y < n - 1) by {
                if y == n - 1 {
                    assert((n - 1) * n == n * n - n) by (nonlinear_arith);
                }
            }
            assert(s[s.len() - 1] == j);
        } else if i == j + n {
            assert(y > 0) by {
                if y == 0 {
                    assert(y * n == 0) by (nonlinear_arith)
                        requires y == 0;
                    assert(i == x);
                }
            }
            assert(s[s.len() - (if y < n - 1 { 2int } else { 1int })] == j);
        } else if j == i + 1 {
            assert(x < n - 1) by {
                if x == n - 1 {
                    lemma_coord_round_trip(n, 0, y + 1);
                    assert(j == (y + 1) * n);
                    assert(y_of(n, j) == y + 1);
                }
            }
            assert(s[if x > 0 { 1int } else { 0int }] == j);
        } else {
            assert(j == i - 1);
            assert(x > 0) by {
                if x == 0 {
                    if y == 0 {
                        assert(y * n == 0) by (nonlinear_arith)
                            requires y == 0;
                        assert(j == -1);
                    } else {
                        assert(j == (y - 1) * n + (n - 1));
                        lemma_coord_round_trip(n, n - 1, y - 1);
                        assert(y_of(n, j) == y - 1);
                    }
                }
            }
            assert(s[0] == j);
        }
    }
    assert(s.no_duplicates()) by {
        assert forall|p: int, q: int| 0 <= p < s.len() && 0 <= q < s.len() && p != q implies s[p]
            != s[q] by {}
    }
}

/// Helper for `lemma_connected_closed`: walk the chain front to back.
proof fn lemma_chain_closed(cells: Seq<Player>, n: int, c: Player, p: Seq<int>, s: Set<int>)
    requires
        is_chain(cells, n, c, p),
        s.contains(p[0]),
        forall|i: int, j: int|
            s.contains(i) && #[trigger] adjacent(n, i, j) && cells[j] == c ==> s.contains(j),
    ensures
        s.contains(p[p.len() - 1]),
    decreases p.len(),
{
    if p.len() > 1 {
        assert(adjacent(n, p[0], p[1]));
        assert(s.contains(p[1]));
        let p2: Seq<int> = p.subrange(1, p.len() as int);
        assert(is_chain(cells, n, c, p2));
        lemma_chain_closed(cells, n, c, p2, s);
        assert(p2[p2.len() - 1] == p[p.len() - 1]);
    }
}

} // verus!

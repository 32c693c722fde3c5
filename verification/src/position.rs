//! The board position: grid of cells, ko marker, capture search, and
//! per-move legality.

use vstd::prelude::*;

use crate::model::{
    adjacent, captured_by_move, captured_by_scan, captured_group, cells_after_move, connected,
    coord_valid, group_has_liberty, group_is_singleton, idx_valid, index_of, is_captured_at,
    ko_after_move, ko_from, move_is_legal, neighbor_blocks, neighbors_seq, removals_only, x_of,
    y_of,
};
use crate::model::{
    lemma_connected_color, lemma_coord_round_trip, lemma_index_round_trip, lemma_neighbors_seq,
    lemma_same_seed, lemma_scan_is_move,
};
use crate::player::{opposite_of, Player};

verus! {

/// The square grid of stones together with the single-point ko marker.
///
/// The ko marker, when present, is the one board point where recapture is
/// temporarily forbidden: the cell whose single stone was just captured.
pub struct GoPosition {
    board_size: usize,
    cells: Vec<Player>,
    ko: Option<usize>,
}

impl GoPosition {
    /// The board edge length, as a mathematical integer.
    pub closed spec fn size(&self) -> int {
        self.board_size as int
    }

    /// The flat row-major cell sequence.
    pub closed spec fn cells_seq(&self) -> Seq<Player> {
        self.cells@
    }

    /// The ko point, as a mathematical integer.
    pub closed spec fn ko_spec(&self) -> Option<int> {
        match self.ko {
            Some(k) => Some(k as int),
            None => None,
        }
    }

    /// Grid well-formedness: a positive board whose cell count fits the
    /// machine and matches the stored sequence.
    pub open spec fn cells_wf(&self) -> bool {
        &&& self.size() >= 1
        &&& self.size() * self.size() <= usize::MAX
        &&& self.cells_seq().len() == self.size() * self.size()
    }

    /// Ko well-formedness: the marker, when present, names an empty cell
    /// of the board.
    pub open spec fn ko_wf(&self) -> bool {
        match self.ko_spec() {
            Some(k) => idx_valid(self.size(), k) && self.cells_seq()[k] == Player::Empty,
            None => true,
        }
    }

    /// Position invariant.
    pub open spec fn wf(&self) -> bool {
        self.cells_wf() && self.ko_wf()
    }

    /// A fresh position: every cell empty, no ko in effect.
    pub fn new(board_size: usize) -> (r: GoPosition)
        requires
            board_size >= 1,
            board_size * board_size <= usize::MAX,
        ensures
            r.wf(),
            r.size() == board_size,
            r.ko_spec() is None,
            r.cells_seq() =~= Seq::new((board_size * board_size) as nat, |i: int| Player::Empty),
    {
        let count: usize = board_size * board_size;
        let mut cells: Vec<Player> = Vec::new();
        while cells.len() < count
            invariant
                cells@.len() <= count,
                forall|i: int| 0 <= i < cells@.len() ==> cells@[i] == Player::Empty,
            decreases count - cells@.len(),
        {
            cells.push(Player::Empty);
        }
        GoPosition { board_size, cells, ko: None }
    }

    /// The board edge length.
    pub fn board_size(&self) -> (r: usize)
        ensures
            r as int == self.size(),
    {
        self.board_size
    }

    /// Read-only view of the flat cell sequence.
    pub fn position(&self) -> (r: &Vec<Player>)
        ensures
            r@ == self.cells_seq(),
    {
        &self.cells
    }

    /// True iff the point `(x, y)` lies on the board.  Evaluated on the
    /// raw coordinates, before any index arithmetic, so an out-of-range
    /// coordinate can never alias back into the valid index range.
    pub fn coord_is_valid(&self, x: usize, y: usize) -> (r: bool)
        ensures
            r == coord_valid(self.size(), x as int, y as int),
    {
        x < self.board_size && y < self.board_size
    }

    /// Row-major index of an on-board point.
    pub fn coord_to_index(&self, x: usize, y: usize) -> (r: usize)
        requires
            self.cells_wf(),
            coord_valid(self.size(), x as int, y as int),
        ensures
            r as int == index_of(self.size(), x as int, y as int),
            idx_valid(self.size(), r as int),
    {
        proof {
            lemma_coord_round_trip(self.size(), x as int, y as int);
        }
        y * self.board_size + x
    }

    /// The point of an on-board row-major index.
    pub fn index_to_coord(&self, index: usize) -> (r: (usize, usize))
        requires
            self.cells_wf(),
            idx_valid(self.size(), index as int),
        ensures
            r.0 as int == x_of(self.size(), index as int),
            r.1 as int == y_of(self.size(), index as int),
            coord_valid(self.size(), r.0 as int, r.1 as int),
            index_of(self.size(), r.0 as int, r.1 as int) == index as int,
    {
        proof {
            lemma_index_round_trip(self.size(), index as int);
        }
        (index % self.board_size, index / self.board_size)
    }

    /// The up-to-4 on-board orthogonal neighbors of `index`, in the fixed
    /// order left, right, up, down.
    pub fn get_surrounding_valid_indicies(&self, index: usize) -> (r: Vec<usize>)
        requires
            self.cells_wf(),
            idx_valid(self.size(), index as int),
        ensures
            r@.len() == neighbors_seq(self.size(), index as int).len(),
            forall|k: int|
                0 <= k < r@.len() ==> #[trigger] r@[k] as int == neighbors_seq(
                    self.size(),
                    index as int,
                )[k] && idx_valid(self.size(), r@[k] as int),
            r@.no_duplicates(),
            forall|u: usize| #[trigger] r@.contains(u) <==> adjacent(
                self.size(),
                index as int,
                u as int,
            ),
    {
        let n: usize = self.board_size;
        let x: usize = index % n;
        let y: usize = index / n;
        let ghost ni: int = n as int;
        let ghost ii: int = index as int;
        proof {
            lemma_index_round_trip(ni, ii);
            lemma_neighbors_seq(ni, ii);
            assert((y as int + 1) * ni == y as int * ni + ni) by (nonlinear_arith);
        }
        let ghost s: Seq<int> = neighbors_seq(ni, ii);
        let mut r: Vec<usize> = Vec::new();
        if x > 0 {
            r.push(index - 1);
        }
        if x + 1 < n {
            proof {
                lemma_coord_round_trip(ni, x as int + 1, y as int);
            }
            r.push(index + 1);
        }
        if y > 0 {
            proof {
                assert(y as int * ni >= ni) by (nonlinear_arith)
                    requires y as int >= 1, ni >= 1;
            }
            r.push(index - n);
        }
        if y + 1 < n {
            proof {
                lemma_coord_round_trip(ni, x as int, y as int + 1);
            }
            r.push(index + n);
        }
        proof {
            assert(r@.len() == s.len());
            assert forall|k: int| 0 <= k < r@.len() implies #[trigger] r@[k] as int == s[k]
                && idx_valid(ni, r@[k] as int) by {
                assert(s.contains(s[k]));
            }
            assert(r@.no_duplicates()) by {
                assert forall|p: int, q: int|
                    0 <= p < r@.len() && 0 <= q < r@.len() && p != q implies r@[p] != r@[q] by {
                    assert(r@[p] as int == s[p] && r@[q] as int == s[q]);
                }
            }
            assert forall|u: usize| #[trigger] r@.contains(u) <==> adjacent(ni, ii, u as int) by {
                if r@.contains(u) {
                    let k: int = choose|k: int| 0 <= k < r@.len() && r@[k] == u;
                    assert(s[k] == u as int);
                    assert(s.contains(s[k]));
                }
                if adjacent(ni, ii, u as int) {
                    assert(s.contains(u as int));
                    let k: int = choose|k: int| 0 <= k < s.len() && s[k] == u as int;
                    assert(r@[k] as int == u as int);
                    assert(r@[k] == u);
                    assert(r@.contains(u));
                }
            }
        }
        r
    }
    /// Flood fill over same-color adjacency: decides whether the maximal
    /// same-color group containing `index` has zero liberties, and if so
    /// returns every cell of that group (otherwise an empty vector).
    #[verifier::rlimit(100)]
    pub fn check_for_capture(&self, index: usize) -> (r: Vec<usize>)
        requires
            self.cells_wf(),
            idx_valid(self.size(), index as int),
        ensures
            r@.no_duplicates(),
            forall|u: usize| #[trigger] r@.contains(u) <==> captured_group(
                self.cells_seq(),
                self.size(),
                index as int,
            ).contains(u as int),
            r@.len() > 0 <==> is_captured_at(self.cells_seq(), self.size(), index as int),
    {
        let ghost n: int = self.size();
        let ghost cs: Seq<Player> = self.cells_seq();
        let color: Player = self.cells[index];
        if matches!(color, Player::Empty) {
            return Vec::new();
        }
        let count: usize = self.board_size * self.board_size;
        let mut visited: Vec<bool> = Vec::new();
        while visited.len() < count
            invariant
                visited@.len() <= count,
                forall|j: int| 0 <= j < visited@.len() ==> !visited@[j],
            decreases count - visited@.len(),
        {
            visited.push(false);
        }
        proof {
            lemma_count_trues_zero(visited@);
        }
        let ghost v0: Seq<bool> = visited@;
        let mut queue: Vec<usize> = Vec::new();
        let mut members: Vec<usize> = Vec::new();
        visited[index] = true;
        queue.push(index);
        proof {
            lemma_count_trues_update(v0, index as int);
            crate::model::lemma_connected_self(cs, n, index as int);
            assert(queue@[0] == index);
            assert(queue@.contains(index));
        }
        while queue.len() > 0
            invariant
                self.cells_wf(),
                n == self.size(),
                cs == self.cells_seq(),
                idx_valid(n, index as int),
                cs[index as int] == color,
                color != Player::Empty,
                visited@.len() == n * n,
                members@.len() + queue@.len() == count_trues(visited@),
                forall|j: int|
                    0 <= j < n * n ==> (visited@[j] <==> (members@.contains(j as usize)
                        || queue@.contains(j as usize))),
                members@.no_duplicates(),
                queue@.no_duplicates(),
                forall|u: usize| !(#[trigger] members@.contains(u) && queue@.contains(u)),
                forall|u: usize|
                    #![trigger members@.contains(u)]
                    #![trigger queue@.contains(u)]
                    members@.contains(u) || queue@.contains(u) ==> idx_valid(n, u as int)
                        && cs[u as int] == color && connected(cs, n, index as int, u as int),
                forall|u: usize, j: int|
                    members@.contains(u) && #[trigger] adjacent(n, u as int, j) ==> cs[j]
                        != Player::Empty && (cs[j] == color ==> visited@[j]),
                visited@[index as int],
            decreases n * n - members@.len(),
        {
            proof {
                lemma_count_trues_bound(visited@);
            }
            let ghost old_members: Seq<usize> = members@;
            let ghost old_queue: Seq<usize> = queue@;
            let cur: usize = match queue.pop() {
                Some(c) => c,
                None => {
                    proof {
                        assert(false);
                    }
                    index
                },
            };
            proof {
                lemma_seq_drop_last(old_queue);
                assert(!old_members.contains(cur));
                lemma_seq_push_fresh(old_members, cur);
            }
            members.push(cur);
            let neighbors: Vec<usize> = self.get_surrounding_valid_indicies(cur);
            let mut k: usize = 0;
            while k < neighbors.len()
                invariant
                    self.cells_wf(),
                    n == self.size(),
                    cs == self.cells_seq(),
                    idx_valid(n, index as int),
                    cs[index as int] == color,
                    color != Player::Empty,
                    idx_valid(n, cur as int),
                    cs[cur as int] == color,
                    connected(cs, n, index as int, cur as int),
                    members@.contains(cur),
                    k <= neighbors@.len(),
                    forall|u: usize| #[trigger] neighbors@.contains(u) <==> adjacent(
                        n,
                        cur as int,
                        u as int,
                    ),
                    visited@.len() == n * n,
                    members@.len() + queue@.len() == count_trues(visited@),
                    forall|j: int|
                        0 <= j < n * n ==> (visited@[j] <==> (members@.contains(j as usize)
                            || queue@.contains(j as usize))),
                    members@.no_duplicates(),
                    queue@.no_duplicates(),
                    forall|u: usize| !(#[trigger] members@.contains(u) && queue@.contains(u)),
                    forall|u: usize|
                        #![trigger members@.contains(u)]
                        #![trigger queue@.contains(u)]
                        members@.contains(u) || queue@.contains(u) ==> idx_valid(n, u as int)
                            && cs[u as int] == color && connected(cs, n, index as int, u as int),
                    forall|u: usize, j: int|
                        members@.contains(u) && u != cur && #[trigger] adjacent(n, u as int, j)
                            ==> cs[j] != Player::Empty && (cs[j] == color ==> visited@[j]),
                    forall|t: int|
                        0 <= t < neighbors@.len() ==> idx_valid(
                            n,
                            #[trigger] neighbors@[t] as int,
                        ),
                    forall|t: int|
                        0 <= t < k ==> cs[#[trigger] neighbors@[t] as int] != Player::Empty && (
                        cs[neighbors@[t] as int] == color ==> visited@[neighbors@[t] as int]),
                    visited@[index as int],
                decreases neighbors@.len() - k,
            {
                let nb: usize = neighbors[k];
                proof {
                    assert(neighbors@.contains(nb));
                }
                let cell: Player = self.cells[nb];
                if matches!(cell, Player::Empty) {
                    proof {
                        assert(group_has_liberty(cs, n, index as int)) by {
                            assert(connected(cs, n, index as int, cur as int) && adjacent(
                                n,
                                cur as int,
                                nb as int,
                            ) && cs[nb as int] == Player::Empty);
                        }
                    }
                    return Vec::new();
                }
                if cell == color && !visited[nb] {
                    let ghost old_visited: Seq<bool> = visited@;
                    let ghost old_queue2: Seq<usize> = queue@;
                    visited[nb] = true;
                    queue.push(nb);
                    proof {
                        lemma_count_trues_update(old_visited, nb as int);
                        crate::model::lemma_connected_step(
                            cs,
                            n,
                            index as int,
                            cur as int,
                            nb as int,
                        );
                        assert(!(members@.contains(nb) || old_queue2.contains(nb))) by {
                            assert(!old_visited[nb as int]);
                        }
                        lemma_seq_push_fresh(old_queue2, nb);
                        assert forall|j: int|
                            0 <= j < n * n implies (visited@[j] <==> (members@.contains(j as usize)
                            || queue@.contains(j as usize))) by {
                            if j != nb as int {
                                assert(visited@[j] == old_visited[j]);
                                assert(j as usize != nb);
                            }
                        }
                    }
                }
                proof {
                    assert(neighbors@[k as int] == nb);
                    assert(cs[nb as int] != Player::Empty);
                    assert(cs[nb as int] == color ==> visited@[nb as int]);
                }
                k = k + 1;
            }
            proof {
                assert forall|u: usize, j: int|
                    members@.contains(u) && #[trigger] adjacent(n, u as int, j) implies cs[j]
                    != Player::Empty && (cs[j] == color ==> visited@[j]) by {
                    if u == cur {
                        assert(neighbors@.contains(j as usize));
                        let t: int = choose|t: int|
                            0 <= t < neighbors@.len() && neighbors@[t] == j as usize;
                        assert(cs[neighbors@[t] as int] != Player::Empty);
                    }
                }
            }
        }
        proof {
            let closed_set: Set<int> = Set::new(
                |j: int| 0 <= j < n * n && members@.contains(j as usize),
            );
            assert(closed_set.contains(index as int));
            assert forall|i: int, j: int|
                closed_set.contains(i) && #[trigger] adjacent(n, i, j) && cs[j] == color
                implies closed_set.contains(j) by {
                assert(members@.contains(i as usize));
                assert(i as usize as int == i);
                assert(visited@[j]);
                assert(!queue@.contains(j as usize));
            }
            assert(!group_has_liberty(cs, n, index as int)) by {
                if group_has_liberty(cs, n, index as int) {
                    let (gi, gj): (int, int) = choose|gi: int, gj: int|
                        connected(cs, n, index as int, gi) && #[trigger] adjacent(n, gi, gj)
                            && cs[gj] == Player::Empty;
                    crate::model::lemma_connected_closed(cs, n, index as int, gi, closed_set);
                    assert(members@.contains(gi as usize));
                    assert(false);
                }
            }
            assert(is_captured_at(cs, n, index as int));
            assert forall|u: usize| #[trigger] members@.contains(u) implies captured_group(
                cs,
                n,
                index as int,
            ).contains(u as int) by {}
            assert forall|u: usize|
                captured_group(cs, n, index as int).contains(u as int) implies members@.contains(
                u,
            ) by {
                crate::model::lemma_connected_closed(cs, n, index as int, u as int, closed_set);
            }
            assert(members@.contains(index));
            assert(members@.len() > 0);
        }
        members
    }

    /// Places `player` at `(x, y)` and propagates the effect over the
    /// whole board: resets the ko marker, removes every liberty-free
    /// opposing neighbor group, and marks a new ko point when such a
    /// capture removed exactly one stone (the last such neighbor in scan
    /// order wins).
    ///
    /// No legality check is made here: callers validate the move first,
    /// and a stone already at the target would be overwritten.
    #[verifier::rlimit(100)]
    pub fn process_move(&mut self, x: usize, y: usize, player: Player)
        requires
            old(self).wf(),
            coord_valid(old(self).size(), x as int, y as int),
        ensures
            final(self).wf(),
            final(self).size() == old(self).size(),
            final(self).cells_seq() == cells_after_move(
                old(self).cells_seq(),
                old(self).size(),
                x as int,
                y as int,
                player,
            ),
            final(self).ko_spec() == ko_after_move(
                old(self).cells_seq(),
                old(self).size(),
                x as int,
                y as int,
                player,
            ),
    {
        let ghost n: int = old(self).size();
        let ghost cs0: Seq<Player> = old(self).cells_seq();
        let index: usize = self.coord_to_index(x, y);
        let ghost idx: int = index as int;
        self.cells[index] = player;
        self.ko = None;
        let ghost c2: Seq<Player> = self.cells@;
        if matches!(player, Player::Empty) {
            return;
        }
        let opp: Player = player.opposite();
        let ghost po: Player = opposite_of(player);
        let neighbors: Vec<usize> = self.get_surrounding_valid_indicies(index);
        let ghost nbrs: Seq<int> = neighbors_seq(n, idx);
        proof {
            lemma_neighbors_seq(n, idx);
        }
        let mut k: usize = 0;
        while k < neighbors.len()
            invariant
                n >= 1,
                n * n <= usize::MAX,
                c2.len() == n * n,
                idx_valid(n, idx),
                c2[idx] == player,
                player != Player::Empty,
                po == opposite_of(player),
                opp == po,
                po.is_stone(),
                self.size() == n,
                self.cells_wf(),
                neighbors@.len() == nbrs.len(),
                forall|t: int|
                    0 <= t < neighbors@.len() ==> #[trigger] neighbors@[t] as int == nbrs[t]
                        && idx_valid(n, nbrs[t]),
                nbrs.no_duplicates(),
                k <= neighbors@.len(),
                forall|i: int|
                    0 <= i < n * n ==> self.cells_seq()[i] == (if captured_by_scan(
                        c2,
                        n,
                        po,
                        nbrs,
                        k as int,
                        i,
                    ) {
                        Player::Empty
                    } else {
                        c2[i]
                    }),
                self.ko_spec() == ko_from(c2, n, po, nbrs.take(k as int)),
            decreases neighbors@.len() - k,
        {
            let s: usize = neighbors[k];
            let ghost si: int = s as int;
            let ghost pre: Seq<Player> = self.cells_seq();
            let scell: Player = self.cells[s];
            proof {
                assert(neighbors@[k as int] == s && si == nbrs[k as int]);
                assert(nbrs.take(k as int + 1).drop_last() =~= nbrs.take(k as int));
                assert(nbrs.take(k as int + 1).last() == nbrs[k as int]);
            }
            if scell == opp {
                proof {
                    assert(!captured_by_scan(c2, n, po, nbrs, k as int, si) && c2[si] == po);
                    assert(removals_only(c2, pre));
                    assert forall|i: int|
                        0 <= i < n * n && #[trigger] pre[i] != c2[i] implies c2[i] == c2[si]
                        && !connected(c2, n, si, i) by {
                        assert(captured_by_scan(c2, n, po, nbrs, k as int, i));
                        let t: int = choose|t: int|
                            0 <= t < k && c2[#[trigger] nbrs[t]] == po && captured_group(
                                c2,
                                n,
                                nbrs[t],
                            ).contains(i);
                        assert(connected(c2, n, nbrs[t], i));
                        lemma_connected_color(c2, n, nbrs[t], i);
                        if connected(c2, n, si, i) {
                            lemma_same_seed(c2, n, nbrs[t], i);
                            crate::model::lemma_connected_sym(c2, n, si, i);
                            assert(connected(c2, n, nbrs[t], si));
                            assert(captured_group(c2, n, nbrs[t]).contains(si));
                            assert(captured_by_scan(c2, n, po, nbrs, k as int, si));
                            assert(false);
                        }
                    }
                    crate::model::lemma_group_frame(c2, pre, n, si);
                    assert(captured_group(pre, n, si) == captured_group(c2, n, si));
                }
                let caps: Vec<usize> = self.check_for_capture(s);
                if caps.len() == 1 {
                    let first: usize = caps[0];
                    self.ko = Some(first);
                    proof {
                        assert(caps@.contains(caps@[0]));
                        assert(is_captured_at(c2, n, si));
                        crate::model::lemma_captured_seed(c2, n, si);
                        assert(caps@.contains(s));
                        assert(caps@[0] == s);
                        assert(group_is_singleton(c2, n, si)) by {
                            assert forall|j: int| connected(c2, n, si, j) implies j == si by {
                                lemma_connected_color(c2, n, si, j);
                                assert(captured_group(c2, n, si).contains(j));
                                assert(caps@.contains(j as usize));
                                assert(j as usize == s);
                            }
                        }
                        assert(self.ko_spec() == ko_from(c2, n, po, nbrs.take(k as int + 1)));
                    }
                } else {
                    proof {
                        if caps.len() == 0 {
                            assert(!is_captured_at(c2, n, si));
                        } else {
                            assert(is_captured_at(c2, n, si));
                            assert(caps@[0] != caps@[1]);
                            assert(caps@.contains(caps@[0]) && caps@.contains(caps@[1]));
                            assert(captured_group(c2, n, si).contains(caps@[0] as int));
                            assert(captured_group(c2, n, si).contains(caps@[1] as int));
                            if group_is_singleton(c2, n, si) {
                                assert(connected(c2, n, si, caps@[0] as int));
                                assert(connected(c2, n, si, caps@[1] as int));
                                assert(false);
                            }
                        }
                        assert(self.ko_spec() == ko_from(c2, n, po, nbrs.take(k as int + 1)));
                    }
                }
                let ghost ko_now: Option<int> = self.ko_spec();
                let mut m: usize = 0;
                while m < caps.len()
                    invariant
                        n >= 1,
                        n * n <= usize::MAX,
                        c2.len() == n * n,
                        idx_valid(n, si),
                        po.is_stone(),
                        self.size() == n,
                        self.cells_wf(),
                        caps@.no_duplicates(),
                        forall|u: usize| #[trigger] caps@.contains(u) <==> captured_group(
                            c2,
                            n,
                            si,
                        ).contains(u as int),
                        m <= caps@.len(),
                        forall|i: int|
                            0 <= i < n * n ==> self.cells_seq()[i] == (if captured_by_scan(
                                c2,
                                n,
                                po,
                                nbrs,
                                k as int,
                                i,
                            ) || caps@.take(m as int).contains(i as usize) {
                                Player::Empty
                            } else {
                                c2[i]
                            }),
                        self.ko_spec() == ko_now,
                    decreases caps@.len() - m,
                {
                    let c: usize = caps[m];
                    proof {
                        assert(caps@.contains(c));
                        assert(captured_group(c2, n, si).contains(c as int));
                        assert(connected(c2, n, si, c as int));
                        lemma_connected_color(c2, n, si, c as int);
                        assert(!caps@.take(m as int).contains(c)) by {
                            if caps@.take(m as int).contains(c) {
                                let t: int = choose|t: int|
                                    0 <= t < m && caps@.take(m as int)[t] == c;
                                assert(caps@[t] == caps@[m as int]);
                            }
                        }
                        lemma_seq_push_fresh(caps@.take(m as int), c);
                        assert(caps@.take(m as int + 1) =~= caps@.take(m as int).push(c));
                    }
                    self.cells[c] = Player::Empty;
                    m = m + 1;
                }
                proof {
                    assert(caps@.take(caps@.len() as int) =~= caps@);
                    assert forall|i: int|
                        0 <= i < n * n implies self.cells_seq()[i] == (if captured_by_scan(
                        c2,
                        n,
                        po,
                        nbrs,
                        k as int + 1,
                        i,
                    ) {
                        Player::Empty
                    } else {
                        c2[i]
                    }) by {
                        if captured_by_scan(c2, n, po, nbrs, k as int + 1, i) {
                            let t: int = choose|t: int|
                                0 <= t < k + 1 && c2[#[trigger] nbrs[t]] == po && captured_group(
                                    c2,
                                    n,
                                    nbrs[t],
                                ).contains(i);
                            if t < k {
                                assert(captured_by_scan(c2, n, po, nbrs, k as int, i));
                            } else {
                                assert(captured_group(c2, n, si).contains(i));
                                assert(i as usize as int == i) by {
                                    lemma_connected_color(c2, n, si, i);
                                }
                                assert(caps@.contains(i as usize));
                            }
                        } else {
                            assert(!captured_by_scan(c2, n, po, nbrs, k as int, i));
                            if caps@.contains(i as usize) {
                                assert(captured_group(c2, n, si).contains(i as usize as int));
                                assert(captured_by_scan(c2, n, po, nbrs, k as int + 1, i as usize as int)) by {
                                    assert(c2[nbrs[k as int]] == po && captured_group(
                                        c2,
                                        n,
                                        nbrs[k as int],
                                    ).contains(i as usize as int));
                                }
                            }
                        }
                    }
                }
            } else {
                proof {
                    if c2[si] == po {
                        assert(captured_by_scan(c2, n, po, nbrs, k as int, si));
                        let t: int = choose|t: int|
                            0 <= t < k && c2[#[trigger] nbrs[t]] == po && captured_group(
                                c2,
                                n,
                                nbrs[t],
                            ).contains(si);
                        assert(connected(c2, n, nbrs[t], si));
                        assert(is_captured_at(c2, n, nbrs[t]));
                        lemma_same_seed(c2, n, nbrs[t], si);
                        assert(is_captured_at(c2, n, si));
                        crate::model::lemma_connected_sym(c2, n, nbrs[t], si);
                        assert(connected(c2, n, si, nbrs[t]));
                        assert(nbrs[t] != si);
                        assert(!group_is_singleton(c2, n, si));
                        assert forall|i: int|
                            captured_by_scan(c2, n, po, nbrs, k as int + 1, i) implies
                            captured_by_scan(c2, n, po, nbrs, k as int, i) by {
                            let t2: int = choose|t2: int|
                                0 <= t2 < k + 1 && c2[#[trigger] nbrs[t2]] == po
                                    && captured_group(c2, n, nbrs[t2]).contains(i);
                            if t2 == k {
                                assert(captured_group(c2, n, si).contains(i));
                                assert(connected(c2, n, si, i));
                                assert(connected(c2, n, nbrs[t], i));
                                assert(captured_group(c2, n, nbrs[t]).contains(i));
                            }
                        }
                    } else {
                        assert forall|i: int|
                            captured_by_scan(c2, n, po, nbrs, k as int + 1, i) implies
                            captured_by_scan(c2, n, po, nbrs, k as int, i) by {
                            let t2: int = choose|t2: int|
                                0 <= t2 < k + 1 && c2[#[trigger] nbrs[t2]] == po
                                    && captured_group(c2, n, nbrs[t2]).contains(i);
                            assert(t2 != k);
                        }
                    }
                    assert(self.ko_spec() == ko_from(c2, n, po, nbrs.take(k as int + 1)));
                }
            }
            k = k + 1;
        }
        proof {
            assert(nbrs.take(nbrs.len() as int) =~= nbrs);
            lemma_scan_is_move(c2, n, idx, po);
            assert(self.cells_seq() =~= cells_after_move(cs0, n, x as int, y as int, player));
            assert(self.ko_spec() == ko_after_move(cs0, n, x as int, y as int, player));
            match self.ko_spec() {
                Some(v) => {
                    crate::model::lemma_ko_from_some(c2, n, po, nbrs, v);
                    assert(nbrs.contains(v));
                    assert(adjacent(n, idx, v));
                    crate::model::lemma_captured_seed(c2, n, v);
                    assert(captured_by_move(c2, n, idx, po, v));
                    assert(self.cells_seq()[v] == Player::Empty);
                },
                None => {},
            }
        }
    }

    /// Full legality check for placing `player` at `(x, y)`: the target
    /// must be on the board, empty, and played by a real color, and the
    /// move must be neither suicide nor the forbidden immediate ko
    /// recapture.  Works by simulate-and-revert: the position is exactly
    /// as before on every exit path.
    #[verifier::rlimit(100)]
    pub fn is_valid_move(&mut self, x: usize, y: usize, player: Player) -> (r: bool)
        requires
            old(self).wf(),
        ensures
            final(self).size() == old(self).size(),
            final(self).cells_seq() == old(self).cells_seq(),
            final(self).ko_spec() == old(self).ko_spec(),
            final(self).wf(),
            r == move_is_legal(
                old(self).cells_seq(),
                old(self).size(),
                old(self).ko_spec(),
                x as int,
                y as int,
                player,
            ),
    {
        let ghost n: int = old(self).size();
        let ghost cs0: Seq<Player> = old(self).cells_seq();
        let ghost ko0: Option<int> = old(self).ko_spec();
        if !self.coord_is_valid(x, y) {
            return false;
        }
        let index: usize = self.coord_to_index(x, y);
        let ghost idx: int = index as int;
        let target: Player = self.cells[index];
        if !matches!(target, Player::Empty) {
            return false;
        }
        if matches!(player, Player::Empty) {
            return false;
        }
        let ko_here: bool = match self.ko {
            Some(kv) => kv == index,
            None => false,
        };
        self.cells[index] = player;
        let ghost c2: Seq<Player> = self.cells@;
        let selfcap: Vec<usize> = self.check_for_capture(index);
        let neighbors: Vec<usize> = self.get_surrounding_valid_indicies(index);
        let mut all_blocked: bool = true;
        let mut k: usize = 0;
        while k < neighbors.len()
            invariant
                n >= 1,
                c2.len() == n * n,
                idx_valid(n, idx),
                c2[idx] == player,
                player != Player::Empty,
                self.size() == n,
                self.cells_wf(),
                self.cells_seq() == c2,
                self.ko_spec() == ko0,
                ko_here == (ko0 == Some(idx)),
                forall|t: int|
                    0 <= t < neighbors@.len() ==> idx_valid(n, #[trigger] neighbors@[t] as int),
                forall|u: usize| #[trigger] neighbors@.contains(u) <==> adjacent(
                    n,
                    idx,
                    u as int,
                ),
                k <= neighbors@.len(),
                all_blocked == (forall|t: int|
                    0 <= t < k ==> #[trigger] neighbor_blocks(
                        c2,
                        n,
                        ko_here,
                        player,
                        neighbors@[t] as int,
                    )),
            decreases neighbors@.len() - k,
        {
            let nb: usize = neighbors[k];
            proof {
                assert(neighbors@.contains(nb));
            }
            let ghost ni: int = nb as int;
            let ncell: Player = self.cells[nb];
            let mut blocked: bool = true;
            if ncell == player {
                proof {
                    assert(neighbor_blocks(c2, n, ko_here, player, ni));
                }
            } else {
                let caps: Vec<usize> = self.check_for_capture(nb);
                let no_rescue: bool = if ko_here {
                    caps.len() <= 1
                } else {
                    caps.len() == 0
                };
                blocked = no_rescue;
                proof {
                    if caps.len() == 0 {
                        assert(!is_captured_at(c2, n, ni));
                    } else if caps.len() == 1 {
                        assert(is_captured_at(c2, n, ni));
                        crate::model::lemma_captured_seed(c2, n, ni);
                        assert(caps@.contains(nb));
                        assert(caps@.contains(caps@[0]));
                        assert(caps@[0] == nb);
                        assert(group_is_singleton(c2, n, ni)) by {
                            assert forall|j: int| connected(c2, n, ni, j) implies j == ni by {
                                lemma_connected_color(c2, n, ni, j);
                                assert(captured_group(c2, n, ni).contains(j));
                                assert(caps@.contains(j as usize));
                                assert(j as usize == nb);
                            }
                        }
                    } else {
                        assert(is_captured_at(c2, n, ni));
                        assert(caps@[0] != caps@[1]);
                        assert(caps@.contains(caps@[0]) && caps@.contains(caps@[1]));
                        assert(captured_group(c2, n, ni).contains(caps@[0] as int));
                        assert(captured_group(c2, n, ni).contains(caps@[1] as int));
                        if group_is_singleton(c2, n, ni) {
                            assert(connected(c2, n, ni, caps@[0] as int));
                            assert(connected(c2, n, ni, caps@[1] as int));
                            assert(false);
                        }
                    }
                    assert(c2[ni] != player);
                    assert(blocked == neighbor_blocks(c2, n, ko_here, player, ni));
                }
            }
            if !blocked {
                all_blocked = false;
                proof {
                    assert(!neighbor_blocks(c2, n, ko_here, player, neighbors@[k as int] as int));
                }
            }
            k = k + 1;
        }
        self.cells[index] = Player::Empty;
        proof {
            assert(self.cells@ =~= cs0);
        }
        let suicide: bool = all_blocked && selfcap.len() > 0;
        proof {
            if all_blocked {
                assert forall|i: int| #[trigger] adjacent(n, idx, i) implies neighbor_blocks(
                    c2,
                    n,
                    ko_here,
                    player,
                    i,
                ) by {
                    assert(neighbors@.contains(i as usize));
                    let t: int = choose|t: int|
                        0 <= t < neighbors@.len() && neighbors@[t] == i as usize;
                    assert(neighbor_blocks(c2, n, ko_here, player, neighbors@[t] as int));
                }
            } else {
                let t: int = choose|t: int|
                    0 <= t < neighbors@.len() && !neighbor_blocks(
                        c2,
                        n,
                        ko_here,
                        player,
                        neighbors@[t] as int,
                    );
                assert(neighbors@.contains(neighbors@[t]));
                assert(adjacent(n, idx, neighbors@[t] as int));
            }
        }
        !suicide
    }
}

/// Helper: pushing an element that is not yet present keeps a sequence
/// duplicate-free and adds exactly that element.
proof fn lemma_seq_push_fresh(q0: Seq<usize>, nb: usize)
    requires
        q0.no_duplicates(),
        !q0.contains(nb),
    ensures
        q0.push(nb).no_duplicates(),
        forall|u: usize| #[trigger] q0.push(nb).contains(u) <==> (q0.contains(u) || u == nb),
{
    let q1: Seq<usize> = q0.push(nb);
    assert(q1[q1.len() - 1] == nb);
    assert forall|u: usize| #[trigger] q1.contains(u) implies (q0.contains(u) || u == nb) by {
        let m: int = choose|m: int| 0 <= m < q1.len() && q1[m] == u;
        if m < q0.len() {
            assert(q0[m] == u);
        }
    }
    assert forall|u: usize| q0.contains(u) implies q1.contains(u) by {
        let m: int = choose|m: int| 0 <= m < q0.len() && q0[m] == u;
        assert(q1[m] == u);
    }
    assert(q1.no_duplicates()) by {
        assert forall|p: int, q: int|
            0 <= p < q1.len() && 0 <= q < q1.len() && p != q implies q1[p] != q1[q] by {
            if p < q0.len() && q < q0.len() {
            } else if q == q0.len() && p < q0.len() {
                assert(q0.contains(q1[p]));
            } else if p == q0.len() && q < q0.len() {
                assert(q0.contains(q1[q]));
            }
        }
    }
}

/// Helper: dropping the last element of a duplicate-free sequence removes
/// exactly that element.
proof fn lemma_seq_drop_last(q0: Seq<usize>)
    requires
        q0.no_duplicates(),
        q0.len() >= 1,
    ensures
        q0.drop_last().no_duplicates(),
        q0.contains(q0.last()),
        forall|u: usize| #[trigger]
            q0.drop_last().contains(u) <==> (q0.contains(u) && u != q0.last()),
{
    let q1: Seq<usize> = q0.drop_last();
    assert(q0[q0.len() - 1] == q0.last());
    assert forall|u: usize| #[trigger] q1.contains(u) implies (q0.contains(u) && u
        != q0.last()) by {
        let m: int = choose|m: int| 0 <= m < q1.len() && q1[m] == u;
        assert(q0[m] == u);
    }
    assert forall|u: usize| q0.contains(u) && u != q0.last() implies q1.contains(u) by {
        let m: int = choose|m: int| 0 <= m < q0.len() && q0[m] == u;
        assert(m < q0.len() - 1);
        assert(q1[m] == u);
    }
    assert(q1.no_duplicates()) by {
        assert forall|p: int, q: int|
            0 <= p < q1.len() && 0 <= q < q1.len() && p != q implies q1[p] != q1[q] by {
            assert(q0[p] == q1[p] && q0[q] == q1[q]);
        }
    }
}

/// Number of raised flags in a boolean sequence.
spec fn count_trues(s: Seq<bool>) -> int
    decreases s.len(),
{
    if s.len() == 0 {
        0
    } else {
        count_trues(s.drop_last()) + if s.last() {
            1int
        } else {
            0int
        }
    }
}

/// The count of raised flags never exceeds the length.
proof fn lemma_count_trues_bound(s: Seq<bool>)
    ensures
        0 <= count_trues(s) <= s.len(),
    decreases s.len(),
{
    if s.len() > 0 {
        lemma_count_trues_bound(s.drop_last());
    }
}

/// Raising one lowered flag raises the count by one.
proof fn lemma_count_trues_update(s: Seq<bool>, j: int)
    requires
        0 <= j < s.len(),
        !s[j],
    ensures
        count_trues(s.update(j, true)) == count_trues(s) + 1,
    decreases s.len(),
{
    let t: Seq<bool> = s.update(j, true);
    if j == s.len() - 1 {
        assert(t.drop_last() =~= s.drop_last());
    } else {
        assert(t.drop_last() =~= s.drop_last().update(j, true));
        lemma_count_trues_update(s.drop_last(), j);
    }
}

/// Helper: the count of raised flags in an all-lowered sequence is zero.
proof fn lemma_count_trues_zero(s: Seq<bool>)
    requires
        forall|j: int| 0 <= j < s.len() ==> !s[j],
    ensures
        count_trues(s) == 0,
    decreases s.len(),
{
    if s.len() > 0 {
        lemma_count_trues_zero(s.drop_last());
    }
}

} // verus!

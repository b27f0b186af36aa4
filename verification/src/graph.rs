use vstd::prelude::*;
use crate::game::{CellState, GameState, MAX_CELLS};
use crate::random::shuffle_indices;
use crate::sums::{sum, lemma_sum_update, lemma_sum_bounds};

verus! {

/// A cell of a board whose cells are the nodes of a graph (the sphere, the
/// hyperbolic plane, the Voronoi board and the cube).
#[derive(Clone, Copy, Debug, PartialEq, Eq, Structural)]
pub struct GCell {
    pub is_mine: bool,
    pub state: CellState,
    /// Mines among the cell's neighbours.
    pub adjacent: u8,
}

impl GCell {
    /// A hidden cell with no mine.
    pub open spec fn blank() -> GCell {
        GCell { is_mine: false, state: CellState::Hidden, adjacent: 0 }
    }

    /// A hidden cell with no mine.
    pub fn new() -> (c: GCell)
        ensures
            c == GCell::blank(),
    {
        GCell { is_mine: false, state: CellState::Hidden, adjacent: 0 }
    }
}

/// 1 for a hidden cell.
pub open spec fn g_hidden(c: GCell) -> int {
    if c.state == CellState::Hidden {
        1
    } else {
        0
    }
}

/// 1 for a revealed cell.
pub open spec fn g_revealed(c: GCell) -> int {
    if c.state == CellState::Revealed {
        1
    } else {
        0
    }
}

/// 1 for a flagged cell.
pub open spec fn g_flagged(c: GCell) -> int {
    if c.state == CellState::Flagged {
        1
    } else {
        0
    }
}

/// The total of `f` over the cells.
pub open spec fn g_total(s: Seq<GCell>, f: spec_fn(GCell) -> int) -> int {
    sum(s.map_values(f))
}

/// Replacing one cell changes a total by the difference.
pub proof fn lemma_g_set(s: Seq<GCell>, i: int, c: GCell, f: spec_fn(GCell) -> int)
    requires
        0 <= i < s.len(),
    ensures
        g_total(s.update(i, c), f) == g_total(s, f) - f(s[i]) + f(c),
{
    lemma_sum_update(s.map_values(f), i, f(c));
    assert(s.update(i, c).map_values(f) =~= s.map_values(f).update(i, f(c)));
}

/// A total of values in [0, 1] lies in [0, number of cells].
pub proof fn lemma_g_bounds(s: Seq<GCell>, f: spec_fn(GCell) -> int)
    requires
        forall|c: GCell| 0 <= #[trigger] f(c) <= 1,
    ensures
        0 <= g_total(s, f) <= s.len(),
{
    lemma_sum_bounds(s.map_values(f), 0, 1);
}

/// A total that is zero on every cell is zero.
pub proof fn lemma_g_zero(s: Seq<GCell>, f: spec_fn(GCell) -> int)
    requires
        forall|i: int| 0 <= i < s.len() ==> f(#[trigger] s[i]) == 0,
    ensures
        g_total(s, f) == 0,
{
    lemma_sum_bounds(s.map_values(f), 0, 0);
}

/// The entries of `l` that are mines.
pub open spec fn mines_among(cells: Seq<GCell>, l: Seq<usize>) -> int
    decreases l.len(),
{
    if l.len() == 0 {
        0
    } else {
        mines_among(cells, l.drop_last()) + if cells[l.last() as int].is_mine {
            1int
        } else {
            0int
        }
    }
}

/// The entries of `l` whose cells are in state `s`.
pub open spec fn state_among(cells: Seq<GCell>, l: Seq<usize>, s: CellState) -> int
    decreases l.len(),
{
    if l.len() == 0 {
        0
    } else {
        state_among(cells, l.drop_last(), s) + if cells[l.last() as int].state == s {
            1int
        } else {
            0int
        }
    }
}

/// A minesweeper game on a graph: `adj[i]` lists the neighbours of cell `i`.
pub struct GraphGame {
    pub cells: Vec<GCell>,
    pub adj: Vec<Vec<usize>>,
    pub state: GameState,
    pub mines_total: usize,
    pub flags_placed: usize,
    pub cells_revealed: usize,
    pub total_safe: usize,
}

impl GraphGame {
    /// The number of cells.
    pub open spec fn n(self) -> int {
        self.cells@.len() as int
    }

    /// The neighbour list of cell `i`.
    pub open spec fn nbrs(self, i: int) -> Seq<usize> {
        self.adj@[i]@
    }

    /// Every neighbour list names cells of the board and is short enough to
    /// count in a byte.
    pub open spec fn wf_adj(self) -> bool {
        &&& self.adj@.len() == self.n()
        &&& forall|i: int| 0 <= i < self.n() ==> (#[trigger] self.nbrs(i)).len() <= 255
        &&& forall|i: int, j: int| 0 <= i < self.n() && 0 <= j < self.nbrs(i).len() ==> #[trigger] self.nbrs(i)[j]
            < self.n()
    }

    /// The board's bookkeeping: the counters bounded by what the cells hold,
    /// the flag counter equal to the flags while the game is live, and a
    /// fresh board before the first click.
    pub open spec fn wf(self) -> bool {
        &&& 1 <= self.n() <= MAX_CELLS
        &&& self.wf_adj()
        &&& self.mines_total <= self.n()
        &&& self.total_safe == self.n() - self.mines_total
        &&& self.cells_revealed <= g_total(self.cells@, |c: GCell| g_revealed(c))
        &&& g_total(self.cells@, |c: GCell| g_flagged(c)) <= self.flags_placed
        &&& self.flags_placed <= g_total(self.cells@, |c: GCell| g_flagged(c)) + self.n()
        &&& (self.state == GameState::Ready || self.state == GameState::Playing) ==> self.flags_placed == g_total(
            self.cells@,
            |c: GCell| g_flagged(c),
        )
        &&& self.state == GameState::Ready ==> forall|i: int|
            0 <= i < self.n() ==> !(#[trigger] self.cells@[i]).is_mine && self.cells@[i].state != CellState::Revealed
    }

    /// A new game on the graph `adj` with `mines` mines (the variant caps
    /// the number beforehand); no mine is placed before the first click.
    pub fn new(adj: Vec<Vec<usize>>, mines: usize) -> (g: GraphGame)
        requires
            1 <= adj@.len() <= MAX_CELLS,
            mines <= adj@.len(),
            forall|i: int| 0 <= i < adj@.len() ==> (#[trigger] adj@[i])@.len() <= 255,
            forall|i: int, j: int| 0 <= i < adj@.len() && 0 <= j < adj@[i]@.len() ==> #[trigger] adj@[i]@[j] < adj@.len(),
        ensures
            g.wf(),
            g.adj == adj,
            g.n() == adj@.len(),
            g.state == GameState::Ready,
            g.mines_total == mines,
            g.flags_placed == 0,
            g.cells_revealed == 0,
    {
        let n = adj.len();
        let mut cells: Vec<GCell> = Vec::new();
        for i in 0..n
            invariant
                cells@.len() == i,
                forall|k: int| 0 <= k < i ==> #[trigger] cells@[k] == GCell::blank(),
        {
            cells.push(GCell::new());
        }
        let g = GraphGame {
            cells,
            adj,
            state: GameState::Ready,
            mines_total: mines,
            flags_placed: 0,
            cells_revealed: 0,
            total_safe: n - mines,
        };
        proof {
            assert forall|i: int| 0 <= i < g.cells@.len() implies g_flagged(#[trigger] g.cells@[i]) == 0 && g_revealed(g.cells@[i]) == 0 by {}
            lemma_g_zero(g.cells@, |c: GCell| g_flagged(c));
            lemma_g_zero(g.cells@, |c: GCell| g_revealed(c));
            assert forall|c: GCell| 0 <= #[trigger] g_revealed(c) <= 1 by {}
            lemma_g_bounds(g.cells@, |c: GCell| g_revealed(c));
        }
        g
    }

    /// The number of mines still unflagged; negative when there are too many flags.
    pub fn remaining_mines(&self) -> (r: i64)
        requires
            self.wf(),
        ensures
            r == self.mines_total - self.flags_placed,
    {
        proof {
            assert forall|c: GCell| 0 <= #[trigger] g_flagged(c) <= 1 by {}
            lemma_g_bounds(self.cells@, |c: GCell| g_flagged(c));
        }
        self.mines_total as i64 - self.flags_placed as i64
    }

    /// Replace one cell, keeping everything else.
    pub(crate) fn put(&mut self, i: usize, c: GCell)
        requires
            i < old(self).cells@.len(),
        ensures
            *final(self) == (GraphGame { cells: final(self).cells, ..*old(self) }),
            final(self).cells@ == old(self).cells@.update(i as int, c),
    {
        self.cells.set(i, c);
    }
}

/// Counting mines only looks at which cells hold mines.
pub proof fn lemma_mines_among_same(a: Seq<GCell>, b: Seq<GCell>, l: Seq<usize>)
    requires
        a.len() == b.len(),
        forall|i: int| 0 <= i < a.len() ==> (#[trigger] a[i]).is_mine == b[i].is_mine,
        forall|j: int| 0 <= j < l.len() ==> (#[trigger] l[j]) < a.len(),
    ensures
        mines_among(a, l) == mines_among(b, l),
    decreases l.len(),
{
    if l.len() > 0 {
        lemma_mines_among_same(a, b, l.drop_last());
        assert(l.last() == l[l.len() - 1]);
    }
}

/// Counting states only looks at the cells' states.
pub proof fn lemma_state_among_same(a: Seq<GCell>, b: Seq<GCell>, l: Seq<usize>, s: CellState)
    requires
        a.len() == b.len(),
        forall|i: int| 0 <= i < a.len() ==> (#[trigger] a[i]).state == b[i].state,
        forall|j: int| 0 <= j < l.len() ==> (#[trigger] l[j]) < a.len(),
    ensures
        state_among(a, l, s) == state_among(b, l, s),
    decreases l.len(),
{
    if l.len() > 0 {
        lemma_state_among_same(a, b, l.drop_last(), s);
        assert(l.last() == l[l.len() - 1]);
    }
}

/// The neighbour lists are well formed in a game with the same lists and
/// as many cells.
pub proof fn lemma_wf_adj_same(a: GraphGame, b: GraphGame)
    requires
        a.wf_adj(),
        b.adj == a.adj,
        b.cells@.len() == a.cells@.len(),
    ensures
        b.wf_adj(),
{
    assert forall|i: int| 0 <= i < b.n() implies (#[trigger] b.nbrs(i)).len() <= 255 by {
        assert(b.nbrs(i) == a.nbrs(i));
    }
    assert forall|i: int, j: int| 0 <= i < b.n() && 0 <= j < b.nbrs(i).len() implies #[trigger] b.nbrs(i)[j] < b.n() by {
        assert(b.nbrs(i) == a.nbrs(i));
    }
}

impl GraphGame {
    /// Cell `i` is the first click `first` or one of its neighbours: the
    /// cells kept free of mines.
    pub open spec fn in_safe(self, first: int, i: int) -> bool {
        i == first || self.nbrs(first).contains(i as usize)
    }

    /// Whether cell `i` is kept free of mines for a first click on `first`.
    fn is_safe(&self, first: usize, i: usize) -> (r: bool)
        requires
            self.wf(),
            first < self.n(),
        ensures
            r == self.in_safe(first as int, i as int),
    {
        if i == first {
            return true;
        }
        let l = &self.adj[first];
        for k in 0..l.len()
            invariant
                l@ == self.nbrs(first as int),
                forall|j: int| 0 <= j < k ==> l@[j] != i,
        {
            if l[k] == i {
                assert(self.nbrs(first as int)[k as int] == i);
                return true;
            }
        }
        proof {
            if self.nbrs(first as int).contains(i) {
                let j = choose|j: int| 0 <= j < l@.len() && l@[j] == i;
            }
        }
        false
    }

    /// The cells that may receive a mine for a first click on `first`, in
    /// increasing order.
    fn mine_candidates(&self, first: usize) -> (v: Vec<usize>)
        requires
            self.wf(),
            first < self.n(),
        ensures
            v@.no_duplicates(),
            forall|i: usize| #[trigger] v@.contains(i) <==> i < self.n() && !self.in_safe(first as int, i as int),
    {
        let n = self.cells.len();
        let mut v: Vec<usize> = Vec::new();
        for i in 0..n
            invariant
                n == self.n(),
                self.wf(),
                first < n,
                v@.no_duplicates(),
                forall|k: int| 0 <= k < v@.len() ==> #[trigger] v@[k] < i,
                forall|j: usize| #[trigger] v@.contains(j) <==> j < i && !self.in_safe(first as int, j as int),
        {
            if !self.is_safe(first, i) {
                let ghost before = v@;
                v.push(i);
                proof {
                    assert forall|a: int, b: int| 0 <= a < b < v@.len() implies v@[a] != v@[b] by {
                        if b == v@.len() - 1 {
                            assert(before[a] < i);
                        }
                    }
                    assert forall|j: usize| #[trigger] v@.contains(j) <==> j < i + 1 && !self.in_safe(first as int, j as int) by {
                        if v@.contains(j) {
                            let k = choose|k: int| 0 <= k < v@.len() && v@[k] == j;
                            if k < before.len() {
                                assert(before.contains(j));
                            }
                        }
                        if j < i + 1 && !self.in_safe(first as int, j as int) {
                            if j < i {
                                assert(before.contains(j));
                                let k = choose|k: int| 0 <= k < before.len() && before[k] == j;
                                assert(v@[k] == j);
                            } else {
                                assert(v@[v@.len() - 1] == j);
                            }
                        }
                    }
                }
            } else {
                proof {
                    assert forall|j: usize| #[trigger] v@.contains(j) <==> j < i + 1 && !self.in_safe(first as int, j as int) by {
                        if v@.contains(j) {
                            let k = choose|k: int| 0 <= k < v@.len() && v@[k] == j;
                            assert(v@[k] < i);
                        }
                    }
                }
            }
        }
        v
    }

    /// The mines among the neighbours of cell `i`.
    fn count_mines(&self, i: usize) -> (r: u8)
        requires
            self.wf_adj(),
            i < self.n(),
        ensures
            r == mines_among(self.cells@, self.nbrs(i as int)),
    {
        let l = &self.adj[i];
        assert(self.nbrs(i as int).len() <= 255);
        let mut c: u8 = 0;
        for k in 0..l.len()
            invariant
                self.wf_adj(),
                i < self.n(),
                l@ == self.nbrs(i as int),
                l@.len() <= 255,
                c == mines_among(self.cells@, l@.take(k as int)),
                c <= k,
        {
            assert(l@.take(k + 1).drop_last() =~= l@.take(k as int));
            assert(l@[k as int] < self.n());
            if self.cells[l[k]].is_mine {
                c = c + 1;
            }
        }
        assert(l@.take(l@.len() as int) =~= l@);
        c
    }

    /// The entries of cell `i`'s neighbour list in state `s`.
    pub(crate) fn count_state(&self, i: usize, s: CellState) -> (r: u8)
        requires
            self.wf_adj(),
            i < self.n(),
        ensures
            r == state_among(self.cells@, self.nbrs(i as int), s),
    {
        let l = &self.adj[i];
        assert(self.nbrs(i as int).len() <= 255);
        let mut c: u8 = 0;
        for k in 0..l.len()
            invariant
                self.wf_adj(),
                i < self.n(),
                l@ == self.nbrs(i as int),
                l@.len() <= 255,
                c == state_among(self.cells@, l@.take(k as int), s),
                c <= k,
        {
            assert(l@.take(k + 1).drop_last() =~= l@.take(k as int));
            assert(l@[k as int] < self.n());
            if self.cells[l[k]].state == s {
                c = c + 1;
            }
        }
        assert(l@.take(l@.len() as int) =~= l@);
        c
    }

    /// What placing the mines for a first click on `first` did: the distinct
    /// cells `chosen`, none of them the click or a neighbour of it, as many
    /// as the mine total or every other cell; each becomes a mine, and every
    /// mine-free cell counts the mines among its neighbours.
    pub open spec fn placed_for(self, f: GraphGame, first: int, chosen: Seq<usize>) -> bool {
        &&& chosen.no_duplicates()
        &&& forall|k: int| 0 <= k < chosen.len() ==> (#[trigger] chosen[k]) < self.n() && !self.in_safe(first, chosen[k] as int)
        &&& chosen.len() == self.mines_total || forall|i: int| 0 <= i < self.n() && !self.in_safe(first, i) ==> chosen.contains(i as usize)
        &&& f == (GraphGame { cells: f.cells, ..self })
        &&& f.cells@.len() == self.cells@.len()
        &&& forall|i: int|
            0 <= i < self.n() ==> {
                let c = #[trigger] f.cells@[i];
                &&& c.state == self.cells@[i].state
                &&& c.is_mine == (self.cells@[i].is_mine || chosen.contains(i as usize))
                &&& !c.is_mine ==> c.adjacent == mines_among(f.cells@, self.nbrs(i))
                &&& c.is_mine ==> c.adjacent == self.cells@[i].adjacent
            }
    }

    /// Place the mines for a first click on `first` (random cells away from
    /// it and its neighbours), then count every mine-free cell's mines.
    pub(crate) fn place_mines(&mut self, first: usize)
        requires
            old(self).wf(),
            first < old(self).n(),
        ensures
            exists|chosen: Seq<usize>| #[trigger] old(self).placed_for(*final(self), first as int, chosen),
    {
        let ghost g0 = *self;
        let mut cands = self.mine_candidates(first);
        let ghost before = cands@;
        shuffle_indices(&mut cands);
        proof {
            broadcast use vstd::seq_lib::group_to_multiset_ensures;
            assert(cands@.to_multiset().len() == cands@.len());
            assert(before.to_multiset().len() == before.len());
            before.lemma_multiset_has_no_duplicates();
            assert forall|q: usize| cands@.to_multiset().contains(q) implies cands@.to_multiset().count(q) == 1 by {}
            cands@.lemma_multiset_has_no_duplicates_conv();
            assert forall|q: usize| #[trigger] cands@.contains(q) <==> before.contains(q) by {
                assert(cands@.contains(q) <==> cands@.to_multiset().count(q) > 0);
                assert(before.contains(q) <==> before.to_multiset().count(q) > 0);
            }
        }
        let k = if self.mines_total < cands.len() { self.mines_total } else { cands.len() };
        let mut t: usize = 0;
        while t < k
            invariant
                0 <= t <= k,
                k <= cands@.len(),
                cands@.no_duplicates(),
                forall|q: usize| #[trigger] cands@.contains(q) <==> q < g0.n() && !g0.in_safe(first as int, q as int),
                *self == (GraphGame { cells: self.cells, ..g0 }),
                self.cells@.len() == g0.cells@.len(),
                g0.n() <= MAX_CELLS,
                forall|i: int|
                    0 <= i < g0.n() ==> {
                        let c = #[trigger] self.cells@[i];
                        &&& c.state == g0.cells@[i].state
                        &&& c.adjacent == g0.cells@[i].adjacent
                        &&& c.is_mine == (g0.cells@[i].is_mine || cands@.take(t as int).contains(i as usize))
                    },
            decreases k - t,
        {
            let i = cands[t];
            assert(cands@.contains(i));
            let c = self.cells[i];
            self.put(i, GCell { is_mine: true, ..c });
            proof {
                assert forall|j: int| 0 <= j < g0.n() implies (#[trigger] cands@.take(t + 1).contains(j as usize)
                    <==> cands@.take(t as int).contains(j as usize) || j == i) by {
                    let s1 = cands@.take(t + 1);
                    let s0 = cands@.take(t as int);
                    if s1.contains(j as usize) {
                        let a = choose|a: int| 0 <= a < s1.len() && s1[a] == j as usize;
                        if a < t {
                            assert(s0[a] == j as usize);
                        }
                    }
                    if s0.contains(j as usize) {
                        let a = choose|a: int| 0 <= a < s0.len() && s0[a] == j as usize;
                        assert(s1[a] == j as usize);
                    }
                    if j == i {
                        assert(s1[t as int] == i);
                    }
                }
            }
            t = t + 1;
        }
        let ghost laid = *self;
        let n = self.cells.len();
        proof {
            lemma_wf_adj_same(g0, *self);
        }
        for i in 0..n
            invariant
                n == g0.n(),
                g0.wf_adj(),
                self.wf_adj(),
                *self == (GraphGame { cells: self.cells, ..g0 }),
                self.cells@.len() == n,
                laid.cells@.len() == n,
                forall|j: int|
                    0 <= j < n ==> {
                        let c = #[trigger] self.cells@[j];
                        &&& c.state == laid.cells@[j].state
                        &&& c.is_mine == laid.cells@[j].is_mine
                        &&& if j < i && !c.is_mine {
                            c.adjacent == mines_among(laid.cells@, self.nbrs(j))
                        } else {
                            c.adjacent == laid.cells@[j].adjacent
                        }
                    },
        {
            if !self.cells[i].is_mine {
                proof {
                    lemma_mines_among_same(self.cells@, laid.cells@, self.nbrs(i as int));
                }
                let a = self.count_mines(i);
                let c = self.cells[i];
                self.put(i, GCell { adjacent: a, ..c });
                proof {
                    lemma_wf_adj_same(g0, *self);
                }
            }
        }
        proof {
            let chosen = cands@.take(k as int);
            assert forall|j: int| 0 <= j < n implies mines_among(laid.cells@, self.nbrs(j)) == mines_among(self.cells@, self.nbrs(j)) by {
                lemma_mines_among_same(self.cells@, laid.cells@, self.nbrs(j));
            }
            assert forall|a: int| 0 <= a < chosen.len() implies (#[trigger] chosen[a]) < g0.n() && !g0.in_safe(first as int, chosen[a] as int) by {
                assert(cands@.contains(cands@[a]));
            }
            if k < g0.mines_total {
                assert(k == cands@.len());
                assert(chosen =~= cands@);
            }
            assert(g0.placed_for(*self, first as int, chosen));
        }
    }
}

/// The neighbour lists as sequences.
pub open spec fn adj_view(adj: Seq<Vec<usize>>) -> Seq<Seq<usize>> {
    adj.map_values(|l: Vec<usize>| l@)
}

/// `ps` is a path along which a flood from `s` travels over the board `c`:
/// every cell on it is hidden, and every cell but the last has no mine
/// around it and lists the next one as a neighbour.
pub open spec fn flood_path(c: Seq<GCell>, adj: Seq<Seq<usize>>, s: int, ps: Seq<int>) -> bool {
    &&& ps.len() >= 1
    &&& ps[0] == s
    &&& forall|i: int| 0 <= i < ps.len() ==> 0 <= #[trigger] ps[i] < c.len() && c[ps[i]].state == CellState::Hidden
    &&& forall|i: int|
        0 <= i < ps.len() - 1 ==> c[#[trigger] ps[i]].adjacent == 0 && adj[ps[i]].contains(ps[i + 1] as usize)
}

/// Cell `v` is reached by the flood from `s`.
pub open spec fn in_flood(c: Seq<GCell>, adj: Seq<Seq<usize>>, s: int, v: int) -> bool {
    exists|ps: Seq<int>| #[trigger] flood_path(c, adj, s, ps) && ps.last() == v
}

/// The board after a flood from `s`: every cell that it reaches is revealed.
pub open spec fn flooded(c: Seq<GCell>, adj: Seq<Seq<usize>>, s: int) -> Seq<GCell> {
    Seq::new(
        c.len(),
        |i: int|
            if in_flood(c, adj, s, i) {
                GCell { state: CellState::Revealed, ..c[i] }
            } else {
                c[i]
            },
    )
}

/// A flood path extends through a zero cell to a hidden neighbour.
pub proof fn lemma_flood_extend(c: Seq<GCell>, adj: Seq<Seq<usize>>, s: int, ps: Seq<int>, w: int)
    requires
        flood_path(c, adj, s, ps),
        c[ps.last()].adjacent == 0,
        adj[ps.last()].contains(w as usize),
        0 <= w < c.len(),
        c[w].state == CellState::Hidden,
    ensures
        flood_path(c, adj, s, ps.push(w)),
{
    let qs = ps.push(w);
    assert forall|i: int| 0 <= i < qs.len() implies 0 <= #[trigger] qs[i] < c.len() && c[qs[i]].state == CellState::Hidden by {
        if i < ps.len() {
            assert(qs[i] == ps[i]);
        }
    }
    assert forall|i: int| 0 <= i < qs.len() - 1 implies c[#[trigger] qs[i]].adjacent == 0 && adj[qs[i]].contains(qs[i + 1] as usize) by {
        if i < ps.len() - 1 {
            assert(qs[i] == ps[i]);
            assert(qs[i + 1] == ps[i + 1]);
        } else {
            assert(qs[i] == ps.last());
            assert(qs[i + 1] == w);
        }
    }
}

/// A board closed under spreading: the start is opened, and every opened
/// zero cell has no hidden neighbour.
pub open spec fn flood_closed(c0: Seq<GCell>, cur: Seq<GCell>, adj: Seq<Seq<usize>>, s: int) -> bool {
    &&& cur[s].state != CellState::Hidden
    &&& forall|u: int, j: int|
        0 <= u < c0.len() && c0[u].state == CellState::Hidden && cur[u].state != CellState::Hidden && c0[u].adjacent == 0
            && 0 <= j < adj[u].len() ==> #[trigger] cur[adj[u][j] as int].state != CellState::Hidden
}

/// On a closed board every cell that the flood reaches is opened.
pub proof fn lemma_flood_complete(c0: Seq<GCell>, cur: Seq<GCell>, adj: Seq<Seq<usize>>, s: int, ps: Seq<int>)
    requires
        c0.len() <= MAX_CELLS,
        flood_path(c0, adj, s, ps),
        flood_closed(c0, cur, adj, s),
    ensures
        cur[ps.last()].state != CellState::Hidden,
    decreases ps.len(),
{
    assert(ps.last() == ps[ps.len() - 1]);
    if ps.len() > 1 {
        let qs = ps.drop_last();
        assert forall|i: int| 0 <= i < qs.len() implies 0 <= #[trigger] qs[i] < c0.len() && c0[qs[i]].state == CellState::Hidden by {
            assert(qs[i] == ps[i]);
        }
        assert forall|i: int| 0 <= i < qs.len() - 1 implies c0[#[trigger] qs[i]].adjacent == 0 && adj[qs[i]].contains(qs[i + 1] as usize) by {
            assert(qs[i] == ps[i]);
            assert(qs[i + 1] == ps[i + 1]);
        }
        lemma_flood_complete(c0, cur, adj, s, qs);
        let u = qs.last();
        assert(u == ps[ps.len() - 2]);
        assert(c0[u].adjacent == 0 && adj[u].contains(ps.last() as usize));
        let j = choose|j: int| 0 <= j < adj[u].len() && adj[u][j] == ps.last() as usize;
        assert(0 <= ps.last() < c0.len());
        assert((ps.last() as usize) as int == ps.last());
        assert(cur[adj[u][j] as int].state != CellState::Hidden);
    }
}

impl GraphGame {
    /// Flood from the hidden cell `s`: reveal it and, through every revealed
    /// cell with no mine around it, its hidden neighbours; count every cell
    /// revealed.
    pub(crate) fn flood(&mut self, s: usize)
        requires
            old(self).wf_adj(),
            s < old(self).n(),
            old(self).cells@[s as int].state == CellState::Hidden,
            old(self).n() <= MAX_CELLS,
            old(self).cells_revealed <= g_total(old(self).cells@, |c: GCell| g_revealed(c)),
        ensures
            final(self).cells@ == flooded(old(self).cells@, adj_view(old(self).adj@), s as int),
            *final(self) == (GraphGame { cells: final(self).cells, cells_revealed: final(self).cells_revealed, ..*old(self) }),
            final(self).cells_revealed == old(self).cells_revealed + g_total(old(self).cells@, |c: GCell| g_hidden(c))
                - g_total(final(self).cells@, |c: GCell| g_hidden(c)),
            final(self).cells_revealed <= g_total(final(self).cells@, |c: GCell| g_revealed(c)),
            g_total(final(self).cells@, |c: GCell| g_flagged(c)) == g_total(old(self).cells@, |c: GCell| g_flagged(c)),
    {
        let ghost g0 = *self;
        let ghost c0 = self.cells@;
        let ghost adj = adj_view(self.adj@);
        let ghost si = s as int;
        let ghost fh = |c: GCell| g_hidden(c);
        let ghost fr = |c: GCell| g_revealed(c);
        let ghost ff = |c: GCell| g_flagged(c);
        let mut stack: Vec<usize> = Vec::new();
        stack.push(s);
        proof {
            assert(stack@[0] == s);
            assert(adj.len() == c0.len());
            assert forall|u: int, j: int| 0 <= u < c0.len() && 0 <= j < adj[u].len() implies #[trigger] adj[u][j] < c0.len() by {
                assert(adj[u] == g0.nbrs(u));
            }
            assert(flood_path(c0, adj, si, seq![si]));
            assert(in_flood(c0, adj, si, si));
            assert forall|c: GCell| 0 <= #[trigger] fh(c) <= 1 && 0 <= fr(c) <= 1 by {}
            lemma_g_bounds(c0, fh);
        }
        while stack.len() > 0
            invariant
                *self == (GraphGame { cells: self.cells, cells_revealed: self.cells_revealed, ..g0 }),
                g0.wf_adj(),
                g0.n() <= MAX_CELLS,
                c0 == g0.cells@,
                adj == adj_view(g0.adj@),
                adj.len() == c0.len(),
                forall|u: int, j: int| 0 <= u < c0.len() && 0 <= j < adj[u].len() ==> #[trigger] adj[u][j] < c0.len(),
                si == s as int,
                0 <= si < c0.len(),
                c0[si].state == CellState::Hidden,
                fh == (|c: GCell| g_hidden(c)),
                fr == (|c: GCell| g_revealed(c)),
                ff == (|c: GCell| g_flagged(c)),
                self.cells@.len() == c0.len(),
                forall|i: int|
                    0 <= i < c0.len() ==> #[trigger] self.cells@[i] == c0[i] || (c0[i].state == CellState::Hidden
                        && self.cells@[i] == GCell { state: CellState::Revealed, ..c0[i] } && in_flood(c0, adj, si, i)),
                forall|k: int| 0 <= k < stack@.len() ==> (#[trigger] stack@[k]) < c0.len() && in_flood(c0, adj, si, stack@[k] as int),
                self.cells@[si].state != CellState::Hidden || stack@.contains(s),
                forall|u: int, j: int|
                    0 <= u < c0.len() && c0[u].state == CellState::Hidden && self.cells@[u].state != CellState::Hidden
                        && c0[u].adjacent == 0 && 0 <= j < adj[u].len() ==> #[trigger] self.cells@[adj[u][j] as int].state
                        != CellState::Hidden || stack@.contains(adj[u][j]),
                self.cells_revealed == g0.cells_revealed + g_total(c0, fh) - g_total(self.cells@, fh),
                g_total(self.cells@, fr) == g_total(c0, fr) + g_total(c0, fh) - g_total(self.cells@, fh),
                g_total(self.cells@, ff) == g_total(c0, ff),
                g0.cells_revealed <= g_total(c0, fr),
                0 <= g_total(self.cells@, fh),
            decreases g_total(self.cells@, fh), stack@.len(),
        {
            let ghost before = self.cells@;
            let ghost st0 = stack@;
            let v = stack.pop().unwrap();
            proof {
                assert(st0 == stack@.push(v));
                assert(st0[st0.len() - 1] == v);
            }
            let c = self.cells[v];
            if matches!(c.state, CellState::Hidden) {
                proof {
                    lemma_g_set(self.cells@, v as int, GCell { state: CellState::Revealed, ..c }, fh);
                    lemma_g_set(self.cells@, v as int, GCell { state: CellState::Revealed, ..c }, fr);
                    lemma_g_set(self.cells@, v as int, GCell { state: CellState::Revealed, ..c }, ff);
                    assert forall|cc: GCell| 0 <= #[trigger] fh(cc) <= 1 && 0 <= fr(cc) <= 1 by {}
                    lemma_g_bounds(self.cells@.update(v as int, GCell { state: CellState::Revealed, ..c }), fr);
                    lemma_g_bounds(self.cells@.update(v as int, GCell { state: CellState::Revealed, ..c }), fh);
                    assert(self.cells@[v as int] == c0[v as int]);
                }
                self.put(v, GCell { state: CellState::Revealed, ..c });
                self.cells_revealed = self.cells_revealed + 1;
                let ghost mid = self.cells@;
                let ghost stack_mid = stack@;
                if c.adjacent == 0 {
                    let l = &self.adj[v];
                    assert(l@ == adj[v as int]);
                    assert forall|t: int| 0 <= t < l@.len() implies (#[trigger] l@[t]) < c0.len() by {
                        assert(adj[v as int][t] < c0.len());
                    }
                    for k in 0..l.len()
                        invariant
                            l@ == adj[v as int],
                            forall|t: int| 0 <= t < l@.len() ==> (#[trigger] l@[t]) < c0.len(),
                            self.cells@ == mid,
                            self.cells@.len() == c0.len(),
                            0 <= v < c0.len(),
                            c0 == g0.cells@,
                            in_flood(c0, adj, si, v as int),
                            c0[v as int].adjacent == 0,
                            c0[v as int].state == CellState::Hidden,
                            forall|i: int|
                                0 <= i < c0.len() ==> #[trigger] self.cells@[i] == c0[i] || (c0[i].state == CellState::Hidden
                                    && self.cells@[i] == GCell { state: CellState::Revealed, ..c0[i] }),
                            stack_mid.len() <= stack@.len() <= stack_mid.len() + k,
                            forall|t: int| 0 <= t < stack_mid.len() ==> #[trigger] stack@[t] == stack_mid[t],
                            forall|t: int| 0 <= t < stack@.len() ==> (#[trigger] stack@[t]) < c0.len() && in_flood(c0, adj, si, stack@[t] as int),
                            forall|t: int| 0 <= t < k ==> #[trigger] self.cells@[l@[t] as int].state != CellState::Hidden || stack@.contains(l@[t]),
                    {
                        let ni = l[k];
                        assert(ni < c0.len());
                        if matches!(self.cells[ni].state, CellState::Hidden) {
                            let ghost sb = stack@;
                            proof {
                                assert(c0[ni as int].state == CellState::Hidden);
                                let ps = choose|ps: Seq<int>| #[trigger] flood_path(c0, adj, si, ps) && ps.last() == v as int;
                                assert(adj[v as int].contains(ni)) by {
                                    assert(adj[v as int][k as int] == ni);
                                }
                                lemma_flood_extend(c0, adj, si, ps, ni as int);
                                assert(ps.push(ni as int).last() == ni as int);
                            }
                            stack.push(ni);
                            proof {
                                assert forall|t: int| 0 <= t < k + 1 implies #[trigger] self.cells@[l@[t] as int].state != CellState::Hidden || stack@.contains(l@[t]) by {
                                    if t == k {
                                        assert(stack@[stack@.len() - 1] == ni);
                                    } else if !(self.cells@[l@[t] as int].state != CellState::Hidden) {
                                        assert(sb.contains(l@[t]));
                                        let z = choose|z: int| 0 <= z < sb.len() && sb[z] == l@[t];
                                        assert(stack@[z] == l@[t]);
                                    }
                                }
                            }
                        }
                    }
                }
                proof {
                    assert(self.cells@[v as int].state != CellState::Hidden);
                    // the start cell
                    if before[si].state == CellState::Hidden && !stack@.contains(s) {
                        assert(st0.contains(s));
                        let z = choose|z: int| 0 <= z < st0.len() && st0[z] == s;
                        if z < st0.len() - 1 {
                            assert(stack_mid[z] == s);
                            assert(stack@[z] == s);
                        }
                    }
                    // closure of every opened zero cell
                    assert forall|u: int, j: int|
                        0 <= u < c0.len() && c0[u].state == CellState::Hidden && self.cells@[u].state != CellState::Hidden
                            && c0[u].adjacent == 0 && 0 <= j < adj[u].len() implies #[trigger] self.cells@[adj[u][j] as int].state
                            != CellState::Hidden || stack@.contains(adj[u][j]) by {
                        let w = adj[u][j];
                        if u == v as int {
                            assert(adj[v as int][j] == w);
                        } else {
                            assert(before[u].state != CellState::Hidden);
                            if before[w as int].state == CellState::Hidden && w != v {
                                assert(st0.contains(w));
                                let z = choose|z: int| 0 <= z < st0.len() && st0[z] == w;
                                if z == st0.len() - 1 {
                                    assert(st0[z] == v);
                                } else {
                                    assert(stack_mid[z] == w);
                                    assert(stack@[z] == w);
                                }
                            }
                        }
                    }
                    assert forall|i: int|
                        0 <= i < c0.len() implies #[trigger] self.cells@[i] == c0[i] || (c0[i].state == CellState::Hidden
                            && self.cells@[i] == GCell { state: CellState::Revealed, ..c0[i] } && in_flood(c0, adj, si, i)) by {
                        if i != v as int {
                            assert(self.cells@[i] == before[i]);
                        }
                    }
                }
            } else {
                proof {
                    assert forall|u: int, j: int|
                        0 <= u < c0.len() && c0[u].state == CellState::Hidden && self.cells@[u].state != CellState::Hidden
                            && c0[u].adjacent == 0 && 0 <= j < adj[u].len() implies #[trigger] self.cells@[adj[u][j] as int].state
                            != CellState::Hidden || stack@.contains(adj[u][j]) by {
                        let w = adj[u][j];
                        if self.cells@[w as int].state == CellState::Hidden {
                            assert(st0.contains(w));
                            let z = choose|z: int| 0 <= z < st0.len() && st0[z] == w;
                            if z == st0.len() - 1 {
                                assert(st0[z] == v);
                            } else {
                                assert(stack@[z] == w);
                            }
                        }
                    }
                    if self.cells@[si].state == CellState::Hidden {
                        assert(st0.contains(s));
                        let z = choose|z: int| 0 <= z < st0.len() && st0[z] == s;
                        if z == st0.len() - 1 {
                            assert(st0[z] == v);
                        } else {
                            assert(stack@[z] == s);
                        }
                    }
                }
            }
        }
        proof {
            assert(flood_closed(c0, self.cells@, adj, si));
            assert(self.cells@ =~= flooded(c0, adj, si)) by {
                assert forall|i: int| 0 <= i < c0.len() implies #[trigger] self.cells@[i] == flooded(c0, adj, si)[i] by {
                    if in_flood(c0, adj, si, i) {
                        let ps = choose|ps: Seq<int>| #[trigger] flood_path(c0, adj, si, ps) && ps.last() == i;
                        lemma_flood_complete(c0, self.cells@, adj, si, ps);
                    }
                }
            }
        }
    }
}

/// The board with every mine shown.
pub open spec fn mines_shown(c: Seq<GCell>) -> Seq<GCell> {
    Seq::new(
        c.len(),
        |i: int|
            if c[i].is_mine {
                GCell { state: CellState::Revealed, ..c[i] }
            } else {
                c[i]
            },
    )
}

/// A left click on cell `idx` of a graph board `c` whose mines are placed:
/// the new cells, game state and count of revealed cells. Nothing happens
/// unless the game is live and the cell hidden; a mine loses and shows every
/// mine; otherwise the flood from the cell opens the board, and the game is
/// won once as many cells are revealed as there are safe ones (`ts`).
pub open spec fn open_g(
    c: Seq<GCell>,
    adj: Seq<Seq<usize>>,
    st: GameState,
    cr: int,
    ts: int,
    idx: int,
) -> (Seq<GCell>, GameState, int) {
    if st != GameState::Playing || c[idx].state != CellState::Hidden {
        (c, st, cr)
    } else if c[idx].is_mine {
        (mines_shown(c), GameState::Lost, cr)
    } else {
        let c2 = flooded(c, adj, idx);
        let cr2 = cr + g_total(c, |c: GCell| g_hidden(c)) - g_total(c2, |c: GCell| g_hidden(c));
        (c2, if cr2 >= ts { GameState::Won } else { GameState::Playing }, cr2)
    }
}

/// Clicking the cells of `l` in turn.
pub open spec fn open_all_g(
    c: Seq<GCell>,
    adj: Seq<Seq<usize>>,
    st: GameState,
    cr: int,
    ts: int,
    l: Seq<usize>,
) -> (Seq<GCell>, GameState, int)
    decreases l.len(),
{
    if l.len() == 0 {
        (c, st, cr)
    } else {
        let r = open_all_g(c, adj, st, cr, ts, l.drop_last());
        open_g(r.0, adj, r.1, r.2, ts, l.last() as int)
    }
}

impl GraphGame {
    /// The triple that `open_g` speaks of.
    pub open spec fn triple(self) -> (Seq<GCell>, GameState, int) {
        (self.cells@, self.state, self.cells_revealed as int)
    }

    /// Reveal every mine; nothing else changes.
    fn show_mines(&mut self)
        requires
            old(self).n() <= MAX_CELLS,
        ensures
            final(self).cells@ == mines_shown(old(self).cells@),
            *final(self) == (GraphGame { cells: final(self).cells, ..*old(self) }),
            g_total(final(self).cells@, |c: GCell| g_flagged(c)) <= g_total(old(self).cells@, |c: GCell| g_flagged(c)),
            g_total(final(self).cells@, |c: GCell| g_revealed(c)) >= g_total(old(self).cells@, |c: GCell| g_revealed(c)),
    {
        let ghost g0 = *self;
        let n = self.cells.len();
        for i in 0..n
            invariant
                n == g0.cells@.len(),
                *self == (GraphGame { cells: self.cells, ..g0 }),
                self.cells@.len() == n,
                forall|k: int| 0 <= k < n ==> #[trigger] self.cells@[k] == if k < i { mines_shown(g0.cells@)[k] } else { g0.cells@[k] },
                g_total(self.cells@, |c: GCell| g_flagged(c)) <= g_total(g0.cells@, |c: GCell| g_flagged(c)),
                g_total(self.cells@, |c: GCell| g_revealed(c)) >= g_total(g0.cells@, |c: GCell| g_revealed(c)),
        {
            let c = self.cells[i];
            if c.is_mine {
                proof {
                    lemma_g_set(self.cells@, i as int, GCell { state: CellState::Revealed, ..c }, |c: GCell| g_flagged(c));
                    lemma_g_set(self.cells@, i as int, GCell { state: CellState::Revealed, ..c }, |c: GCell| g_revealed(c));
                }
                self.put(i, GCell { state: CellState::Revealed, ..c });
            }
        }
        assert(self.cells@ =~= mines_shown(g0.cells@));
    }

    /// A left click on cell `idx`. The first click places the mines away
    /// from it and its neighbours and starts play; then `open_g` says what
    /// happens.
    pub fn reveal_cell(&mut self, idx: usize)
        requires
            old(self).wf(),
            idx < old(self).n(),
        ensures
            final(self).wf(),
            *final(self) == (GraphGame {
                cells: final(self).cells,
                state: final(self).state,
                cells_revealed: final(self).cells_revealed,
                ..*old(self)
            }),
            old(self).state != GameState::Ready ==> final(self).triple() == open_g(
                old(self).cells@,
                adj_view(old(self).adj@),
                old(self).state,
                old(self).cells_revealed as int,
                old(self).total_safe as int,
                idx as int,
            ),
            old(self).state == GameState::Ready ==> exists|p: GraphGame, chosen: Seq<usize>|
                #[trigger] old(self).placed_for(p, idx as int, chosen) && final(self).triple() == open_g(
                    p.cells@,
                    adj_view(old(self).adj@),
                    GameState::Playing,
                    old(self).cells_revealed as int,
                    old(self).total_safe as int,
                    idx as int,
                ),
    {
        let ghost g0 = *self;
        let ghost mut placed = *self;
        if matches!(self.state, GameState::Ready) {
            self.place_mines(idx);
            proof {
                placed = *self;
            }
            self.state = GameState::Playing;
        }
        let ghost start = *self;
        proof {
            lemma_wf_adj_same(g0, *self);
            assert forall|i: int| 0 <= i < self.n() implies g_flagged(#[trigger] self.cells@[i]) == g_flagged(g0.cells@[i])
                && g_revealed(self.cells@[i]) == g_revealed(g0.cells@[i]) by {}
            assert(self.cells@.map_values(|c: GCell| g_flagged(c)) =~= g0.cells@.map_values(|c: GCell| g_flagged(c)));
            assert(self.cells@.map_values(|c: GCell| g_revealed(c)) =~= g0.cells@.map_values(|c: GCell| g_revealed(c)));
        }
        if !matches!(self.state, GameState::Playing) {
            return;
        }
        let c = self.cells[idx];
        if !matches!(c.state, CellState::Hidden) {
            return;
        }
        if c.is_mine {
            self.state = GameState::Lost;
            self.show_mines();
            proof {
                assert forall|cc: GCell| 0 <= #[trigger] g_revealed(cc) <= 1 && 0 <= g_flagged(cc) <= 1 by {}
                lemma_g_bounds(self.cells@, |c: GCell| g_revealed(c));
                lemma_g_bounds(start.cells@, |c: GCell| g_flagged(c));
                lemma_g_bounds(self.cells@, |c: GCell| g_flagged(c));
                lemma_wf_adj_same(g0, *self);
                if g0.state == GameState::Ready {
                    assert(exists|p: GraphGame, chosen: Seq<usize>| #[trigger] g0.placed_for(p, idx as int, chosen) && p.cells@ == placed.cells@);
                }
            }
            return;
        }
        self.flood(idx);
        if self.cells_revealed >= self.total_safe {
            self.state = GameState::Won;
        }
        proof {
            lemma_wf_adj_same(g0, *self);
            assert forall|cc: GCell| 0 <= #[trigger] g_revealed(cc) <= 1 && 0 <= g_flagged(cc) <= 1 by {}
            lemma_g_bounds(self.cells@, |c: GCell| g_flagged(c));
        }
    }
}

/// The state a right click moves a graph cell to.
pub open spec fn flag_next(s: CellState) -> CellState {
    if s == CellState::Hidden {
        CellState::Flagged
    } else if s == CellState::Flagged {
        CellState::Hidden
    } else {
        s
    }
}

impl GraphGame {
    /// A right click on cell `idx`: hidden to flagged to hidden; the flag
    /// counter follows (never below zero).
    pub fn toggle_flag(&mut self, idx: usize)
        requires
            old(self).wf(),
            idx < old(self).n(),
        ensures
            final(self).wf(),
            final(self).cells@ == old(self).cells@.update(
                idx as int,
                GCell { state: flag_next(old(self).cells@[idx as int].state), ..old(self).cells@[idx as int] },
            ),
            *final(self) == (GraphGame { cells: final(self).cells, flags_placed: final(self).flags_placed, ..*old(self) }),
            final(self).flags_placed == if old(self).cells@[idx as int].state == CellState::Hidden {
                old(self).flags_placed + 1
            } else if old(self).cells@[idx as int].state == CellState::Flagged && old(self).flags_placed > 0 {
                old(self).flags_placed - 1
            } else {
                old(self).flags_placed as int
            },
    {
        let ghost g0 = *self;
        let c = self.cells[idx];
        let t = match c.state {
            CellState::Hidden => CellState::Flagged,
            CellState::Flagged => CellState::Hidden,
            _ => c.state,
        };
        proof {
            lemma_g_set(self.cells@, idx as int, GCell { state: t, ..c }, |c: GCell| g_flagged(c));
            lemma_g_set(self.cells@, idx as int, GCell { state: t, ..c }, |c: GCell| g_revealed(c));
            assert forall|cc: GCell| 0 <= #[trigger] g_flagged(cc) <= 1 by {}
            lemma_g_bounds(self.cells@, |c: GCell| g_flagged(c));
        }
        self.put(idx, GCell { state: t, ..c });
        proof {
            lemma_g_bounds(self.cells@, |c: GCell| g_flagged(c));
        }
        if matches!(c.state, CellState::Hidden) {
            self.flags_placed = self.flags_placed + 1;
        } else if matches!(c.state, CellState::Flagged) {
            if self.flags_placed > 0 {
                self.flags_placed = self.flags_placed - 1;
            }
        }
        proof {
            lemma_wf_adj_same(g0, *self);
        }
    }

    /// The hidden neighbours of cell `idx`, in list order.
    fn hidden_neighbours(&self, idx: usize) -> (v: Vec<usize>)
        requires
            self.wf_adj(),
            idx < self.n(),
        ensures
            v@ == self.nbrs(idx as int).filter(|j: usize| self.cells@[j as int].state == CellState::Hidden),
    {
        let l = &self.adj[idx];
        let ghost pred = |j: usize| self.cells@[j as int].state == CellState::Hidden;
        let mut v: Vec<usize> = Vec::new();
        for k in 0..l.len()
            invariant
                self.wf_adj(),
                idx < self.n(),
                l@ == self.nbrs(idx as int),
                pred == (|j: usize| self.cells@[j as int].state == CellState::Hidden),
                v@ == l@.take(k as int).filter(pred),
        {
            assert(l@.take(k + 1).drop_last() =~= l@.take(k as int));
            assert(l@.take(k + 1).last() == l@[k as int]);
            assert(l@[k as int] < self.n());
            proof {
                reveal(Seq::filter);
            }
            assert(l@.take(k + 1).filter(pred) == if pred(l@[k as int]) {
                l@.take(k as int).filter(pred).push(l@[k as int])
            } else {
                l@.take(k as int).filter(pred)
            });
            if matches!(self.cells[l[k]].state, CellState::Hidden) {
                v.push(l[k]);
            }
        }
        assert(l@.take(l@.len() as int) =~= l@);
        v
    }

    /// Chord on cell `idx`: when it is revealed and as many of its
    /// neighbours are flagged as it counts mines, click each of its hidden
    /// neighbours in turn. Returns whether it fired.
    pub fn chord(&mut self, idx: usize) -> (r: bool)
        requires
            old(self).wf(),
            idx < old(self).n(),
        ensures
            final(self).wf(),
            r == (old(self).cells@[idx as int].state == CellState::Revealed && state_among(
                old(self).cells@,
                old(self).nbrs(idx as int),
                CellState::Flagged,
            ) == old(self).cells@[idx as int].adjacent),
            !r ==> *final(self) == *old(self),
            r ==> final(self).triple() == open_all_g(
                old(self).cells@,
                adj_view(old(self).adj@),
                old(self).state,
                old(self).cells_revealed as int,
                old(self).total_safe as int,
                old(self).nbrs(idx as int).filter(|j: usize| old(self).cells@[j as int].state == CellState::Hidden),
            ),
            *final(self) == (GraphGame {
                cells: final(self).cells,
                state: final(self).state,
                cells_revealed: final(self).cells_revealed,
                ..*old(self)
            }),
    {
        let ghost g0 = *self;
        if !matches!(self.cells[idx].state, CellState::Revealed) {
            return false;
        }
        let flags = self.count_state(idx, CellState::Flagged);
        if flags != self.cells[idx].adjacent {
            return false;
        }
        let to = self.hidden_neighbours(idx);
        assert(g0.state != GameState::Ready);
        proof {
            assert forall|k: int| 0 <= k < to@.len() implies (#[trigger] to@[k]) < g0.n() by {
                let pred = |j: usize| g0.cells@[j as int].state == CellState::Hidden;
                assert(to@.contains(to@[k]));
                g0.nbrs(idx as int).lemma_filter_contains_rev(pred, to@[k]);
                let t = choose|t: int| 0 <= t < g0.nbrs(idx as int).len() && g0.nbrs(idx as int)[t] == to@[k];
            }
        }
        for k in 0..to.len()
            invariant
                self.wf(),
                self.n() == g0.n(),
                self.adj == g0.adj,
                *self == (GraphGame {
                    cells: self.cells,
                    state: self.state,
                    cells_revealed: self.cells_revealed,
                    ..g0
                }),
                self.state != GameState::Ready,
                forall|t: int| 0 <= t < to@.len() ==> (#[trigger] to@[t]) < g0.n(),
                self.triple() == open_all_g(
                    g0.cells@,
                    adj_view(g0.adj@),
                    g0.state,
                    g0.cells_revealed as int,
                    g0.total_safe as int,
                    to@.take(k as int),
                ),
        {
            assert(to@.take(k + 1).drop_last() =~= to@.take(k as int));
            assert(to@.take(k + 1).last() == to@[k as int]);
            self.reveal_cell(to[k]);
        }
        assert(to@.take(to@.len() as int) =~= to@);
        true
    }
}

} // verus!

//! How the computer plays a duel: it reads constraints off the open numbers,
//! deduces safe cells and mines from them, and picks its move.

use vstd::prelude::*;
use crate::cascade::{inside, nb, neighbor_of};
use crate::display::{nb_partial, nb_sum};
use crate::pvai::{PvAiGame, DuelCell, AiLevel, PvAiState, Owner, openable_at, after_check, lemma_open_on_same};
use crate::random::random_below;
use crate::sums::{sum, grid_count, lemma_sum_push};

verus! {

/// Exactly `mines` of `cells` hold a mine.
pub struct Constraint {
    pub cells: Vec<(usize, usize)>,
    pub mines: usize,
}

/// What a constraint says, as values.
pub ghost struct Fact {
    pub cells: Seq<(usize, usize)>,
    pub mines: int,
}

impl Constraint {
    pub open spec fn fact(self) -> Fact {
        Fact { cells: self.cells@, mines: self.mines as int }
    }
}

/// The facts a list of constraints states.
pub open spec fn facts_of(cs: Seq<Constraint>) -> Seq<Fact> {
    cs.map_values(|c: Constraint| c.fact())
}

/// A grid of marks as values.
pub open spec fn marks(b: Seq<Vec<bool>>) -> Seq<Seq<bool>> {
    b.map_values(|r: Vec<bool>| r@)
}

/// `b` has `h` rows of `w` marks.
pub open spec fn shaped(b: Seq<Seq<bool>>, w: int, h: int) -> bool {
    &&& b.len() == h
    &&& forall|j: int| 0 <= j < h ==> (#[trigger] b[j]).len() == w
}

/// The one fact of `o`, if any, as a list.
pub open spec fn opt_fact(o: Option<Fact>) -> Seq<Fact> {
    match o {
        Some(f) => seq![f],
        None => seq![],
    }
}

impl PvAiGame {
    /// `q` is on the board and carries a flag of either side, or a mark of
    /// `virt` (a mine already deduced).
    pub open spec fn settled(self, virt: Seq<Seq<bool>>, q: (int, int)) -> bool {
        self.in_bounds(q.0, q.1) && (self.cell(q.0, q.1).player_flag || self.cell(q.0, q.1).ai_flag || virt[q.1][q.0])
    }

    /// 1 where `q` is settled.
    pub open spec fn settled_one(self, virt: Seq<Seq<bool>>, q: (int, int)) -> int {
        if self.settled(virt, q) {
            1
        } else {
            0
        }
    }

    /// `q` is on the board, closed and not settled.
    pub open spec fn unknown(self, virt: Seq<Seq<bool>>, q: (int, int)) -> bool {
        self.in_bounds(q.0, q.1) && !self.settled(virt, q) && !self.cell(q.0, q.1).revealed
    }

    /// The unknown cells among the first `k` neighbours of `p`, in scan order.
    pub open spec fn unknown_around(self, virt: Seq<Seq<bool>>, p: (int, int), k: nat) -> Seq<(usize, usize)>
        decreases k,
    {
        if k == 0 {
            seq![]
        } else {
            let s = self.unknown_around(virt, p, (k - 1) as nat);
            let q = nb(p, k - 1);
            if self.unknown(virt, q) {
                s.push((q.0 as usize, q.1 as usize))
            } else {
                s
            }
        }
    }

    /// The fact an open safe number at (`x`, `y`) gives: its unknown
    /// neighbours hold its number less the settled ones around it (never
    /// below zero); none where no neighbour is unknown.
    pub open spec fn fact_at(self, virt: Seq<Seq<bool>>, x: int, y: int) -> Option<Fact> {
        let c = self.cell(x, y);
        let cells = self.unknown_around(virt, (x, y), 8);
        let settled = nb_sum(|q: (int, int)| self.settled_one(virt, q), (x, y));
        if c.revealed && !c.is_mine && c.adj != 0 && cells.len() > 0 {
            Some(Fact { cells, mines: if c.adj >= settled { c.adj - settled } else { 0 } })
        } else {
            None
        }
    }

    /// The facts of the first `n` cells of row `y`.
    pub open spec fn facts_in_row(self, virt: Seq<Seq<bool>>, y: int, n: nat) -> Seq<Fact>
        decreases n,
    {
        if n == 0 {
            seq![]
        } else {
            self.facts_in_row(virt, y, (n - 1) as nat) + opt_fact(self.fact_at(virt, n - 1, y))
        }
    }

    /// The facts of the first `n` rows.
    pub open spec fn facts_upto(self, virt: Seq<Seq<bool>>, n: nat) -> Seq<Fact>
        decreases n,
    {
        if n == 0 {
            seq![]
        } else {
            self.facts_upto(virt, (n - 1) as nat) + self.facts_in_row(virt, n - 1, self.width as nat)
        }
    }

    /// The facts of the whole board, in scan order, with `virt` marking the
    /// mines deduced so far.
    pub open spec fn facts(self, virt: Seq<Seq<bool>>) -> Seq<Fact> {
        self.facts_upto(virt, self.height as nat)
    }

    /// The unknown neighbours of (`x`, `y`) and the number of settled ones.
    fn unknown_cells(&self, virt: &Vec<Vec<bool>>, x: usize, y: usize) -> (r: (Vec<(usize, usize)>, u8))
        requires
            self.wf_shape(),
            shaped(marks(virt@), self.width as int, self.height as int),
            x < self.width,
            y < self.height,
        ensures
            r.0@ == self.unknown_around(marks(virt@), (x as int, y as int), 8),
            r.1 == nb_sum(|q: (int, int)| self.settled_one(marks(virt@), q), (x as int, y as int)),
            r.1 <= 8,
    {
        let ghost v = marks(virt@);
        let ghost p = (x as int, y as int);
        let mut hidden: Vec<(usize, usize)> = Vec::new();
        let mut settled: u8 = 0;
        for k in 0..8usize
            invariant
                self.wf_shape(),
                shaped(v, self.width as int, self.height as int),
                v == marks(virt@),
                x < self.width,
                y < self.height,
                p == (x as int, y as int),
                hidden@ == self.unknown_around(v, p, k as nat),
                settled == nb_partial(|q: (int, int)| self.settled_one(v, q), p, k as nat),
                settled <= k,
        {
            match neighbor_of(self.width, self.height, x, y, k) {
                Some((nx, ny)) => {
                    assert(self.grid@[ny as int]@.len() == self.width);
                    assert(v[ny as int].len() == self.width);
                    assert(virt@[ny as int]@ == v[ny as int]);
                    let c = self.grid[ny][nx];
                    if c.player_flag || c.ai_flag || virt[ny][nx] {
                        settled = settled + 1;
                    } else if !c.revealed {
                        hidden.push((nx, ny));
                    }
                },
                None => {},
            }
        }
        (hidden, settled)
    }

    /// The constraints of the board, one per open safe number with an
    /// unknown neighbour, in scan order; `virt` marks mines deduced so far,
    /// which count as flags.
    pub fn build_constraints_with(&self, virt: &Vec<Vec<bool>>) -> (cs: Vec<Constraint>)
        requires
            self.wf_shape(),
            shaped(marks(virt@), self.width as int, self.height as int),
        ensures
            facts_of(cs@) == self.facts(marks(virt@)),
    {
        let ghost v = marks(virt@);
        let mut out: Vec<Constraint> = Vec::new();
        for y in 0..self.height
            invariant
                self.wf_shape(),
                shaped(v, self.width as int, self.height as int),
                v == marks(virt@),
                facts_of(out@) == self.facts_upto(v, y as nat),
        {
            assert(self.facts_in_row(v, y as int, 0) =~= seq![]);
            assert(facts_of(out@) =~= self.facts_upto(v, y as nat) + self.facts_in_row(v, y as int, 0));
            for x in 0..self.width
                invariant
                    self.wf_shape(),
                    shaped(v, self.width as int, self.height as int),
                    v == marks(virt@),
                    y < self.height,
                    facts_of(out@) == self.facts_upto(v, y as nat) + self.facts_in_row(v, y as int, x as nat),
            {
                let ghost before = facts_of(out@);
                assert(self.grid@[y as int]@.len() == self.width);
                let cell = self.grid[y][x];
                assert(cell == self.cell(x as int, y as int));
                let ghost f = self.fact_at(v, x as int, y as int);
                if cell.revealed && !cell.is_mine && cell.adj != 0 {
                    let (hidden, settled) = self.unknown_cells(virt, x, y);
                    if hidden.len() > 0 {
                        let mines: usize = if cell.adj >= settled {
                            (cell.adj - settled) as usize
                        } else {
                            0
                        };
                        let c = Constraint { cells: hidden, mines };
                        assert(c.fact() == f.unwrap());
                        out.push(c);
                        assert(facts_of(out@) =~= before + opt_fact(f));
                    } else {
                        assert(f is None);
                        assert(before + opt_fact(f) =~= before);
                    }
                } else {
                    assert(f is None);
                    assert(before + opt_fact(f) =~= before);
                }
                assert(self.facts_upto(v, y as nat) + self.facts_in_row(v, y as int, (x + 1) as nat) =~= before + opt_fact(f));
            }
            assert(self.facts_upto(v, (y + 1) as nat) == self.facts_upto(v, y as nat) + self.facts_in_row(v, y as int, self.width as nat));
        }
        out
    }
}

/// The cells of every fact of `fs` lie on grid `b`.
pub open spec fn within(fs: Seq<Fact>, b: Seq<Seq<bool>>) -> bool {
    forall|k: int, i: int|
        0 <= k < fs.len() && 0 <= i < fs[k].cells.len() ==> {
            let q = #[trigger] fs[k].cells[i];
            q.1 < b.len() && q.0 < b[q.1 as int].len()
        }
}

/// Whether fact `f` marks its cells: as safe when it has no mine, as mines
/// when every one of its cells is a mine.
pub open spec fn decides(f: Fact, mine: bool) -> bool {
    &&& f.cells.len() > 0
    &&& if mine {
        f.mines != 0 && f.mines == f.cells.len()
    } else {
        f.mines == 0
    }
}

/// Some fact of `fs` marks `q` (as a mine when `mine`, else as safe).
pub open spec fn marks_cell(fs: Seq<Fact>, q: (usize, usize), mine: bool) -> bool {
    exists|k: int| 0 <= k < fs.len() && decides(#[trigger] fs[k], mine) && fs[k].cells.contains(q)
}

/// Grid `b` with every cell that a fact of `fs` marks set.
pub open spec fn marked(b: Seq<Seq<bool>>, fs: Seq<Fact>, mine: bool) -> Seq<Seq<bool>> {
    Seq::new(
        b.len(),
        |j: int| Seq::new(b[j].len(), |i: int| b[j][i] || marks_cell(fs, (i as usize, j as usize), mine)),
    )
}

/// Marking twice with the same facts marks nothing more than marking once.
pub proof fn lemma_marked_twice(b: Seq<Seq<bool>>, fs: Seq<Fact>, mine: bool)
    ensures
        marked(marked(b, fs, mine), fs, mine) == marked(b, fs, mine),
{
    let m = marked(b, fs, mine);
    assert forall|j: int| 0 <= j < m.len() implies #[trigger] marked(m, fs, mine)[j] =~= m[j] by {}
    assert(marked(m, fs, mine) =~= m);
}

/// `b` only gains marks over `a`: same shape, every mark of `a` kept.
pub open spec fn grows(a: Seq<Seq<bool>>, b: Seq<Seq<bool>>) -> bool {
    &&& a.len() == b.len()
    &&& forall|j: int| 0 <= j < a.len() ==> (#[trigger] a[j]).len() == b[j].len()
    &&& forall|j: int, i: int| 0 <= j < a.len() && 0 <= i < a[j].len() && #[trigger] a[j][i] ==> b[j][i]
}

/// Marking never removes a mark.
pub proof fn lemma_marked_grows(b: Seq<Seq<bool>>, fs: Seq<Fact>, mine: bool)
    ensures
        grows(b, marked(b, fs, mine)),
{
}

/// Growing twice is growing.
pub proof fn lemma_grows_trans(b: Seq<Seq<bool>>, c: Seq<Seq<bool>>, d: Seq<Seq<bool>>)
    requires
        grows(b, c),
        grows(c, d),
    ensures
        grows(b, d),
{
}

/// When `b` grows to `c` and `c` to `d`, a change from `b` to `c` is still
/// a change in `d`.
pub proof fn lemma_grows_strict(b: Seq<Seq<bool>>, c: Seq<Seq<bool>>, d: Seq<Seq<bool>>)
    requires
        grows(b, c),
        grows(c, d),
        c != b,
    ensures
        d != b,
{
    if d == b {
        assert forall|j: int| 0 <= j < b.len() implies #[trigger] c[j] =~= b[j] by {
            assert forall|i: int| 0 <= i < b[j].len() implies c[j][i] == b[j][i] by {
                if c[j][i] {
                    assert(d[j][i]);
                }
            }
        }
        assert(c =~= b);
    }
}

/// Set one mark; returns whether it was unset before.
fn set_mark(b: &mut Vec<Vec<bool>>, x: usize, y: usize) -> (was_unset: bool)
    requires
        y < old(b)@.len(),
        x < old(b)@[y as int]@.len(),
    ensures
        marks(final(b)@) == marks(old(b)@).update(y as int, marks(old(b)@)[y as int].update(x as int, true)),
        was_unset == !marks(old(b)@)[y as int][x as int],
        grows(marks(old(b)@), marks(final(b)@)),
        !was_unset ==> marks(final(b)@) == marks(old(b)@),
{
    let ghost b0 = marks(b@);
    let mut row = b[y].clone();
    assert(row@ =~= b0[y as int]);
    let was = row[x];
    row.set(x, true);
    b.set(y, row);
    assert(marks(b@) =~= b0.update(y as int, b0[y as int].update(x as int, true)));
    if was {
        assert(b0[y as int].update(x as int, true) =~= b0[y as int]);
        assert(marks(b@) =~= b0);
    }
    !was
}

/// Marks as safe the cells of every constraint with no mine, and as mines
/// the cells of every constraint whose cells are all mines. Returns whether
/// any mark was added.
pub fn local_pass(cs: &Vec<Constraint>, safe: &mut Vec<Vec<bool>>, mines: &mut Vec<Vec<bool>>) -> (changed: bool)
    requires
        within(facts_of(cs@), marks(old(safe)@)),
        within(facts_of(cs@), marks(old(mines)@)),
    ensures
        marks(final(safe)@) == marked(marks(old(safe)@), facts_of(cs@), false),
        marks(final(mines)@) == marked(marks(old(mines)@), facts_of(cs@), true),
        changed == (marks(final(safe)@) != marks(old(safe)@) || marks(final(mines)@) != marks(old(mines)@)),
{
    let ghost fs = facts_of(cs@);
    let ghost s0 = marks(safe@);
    let ghost m0 = marks(mines@);
    let mut changed = false;
    proof {
        assert forall|j: int| 0 <= j < s0.len() implies #[trigger] marked(s0, fs.take(0), false)[j] =~= s0[j] by {}
        assert(marked(s0, fs.take(0), false) =~= s0);
        assert forall|j: int| 0 <= j < m0.len() implies #[trigger] marked(m0, fs.take(0), true)[j] =~= m0[j] by {}
        assert(marked(m0, fs.take(0), true) =~= m0);
    }
    for k in 0..cs.len()
        invariant
            fs == facts_of(cs@),
            within(fs, s0),
            within(fs, m0),
            marks(safe@) == marked(s0, fs.take(k as int), false),
            marks(mines@) == marked(m0, fs.take(k as int), true),
            changed == (marks(safe@) != s0 || marks(mines@) != m0),
            safe@.len() == s0.len(),
            mines@.len() == m0.len(),
    {
        let c = &cs[k];
        let ghost f = fs[k as int];
        assert(f == c.fact());
        let ghost sk = marks(safe@);
        let ghost mk = marks(mines@);
        proof {
            lemma_marked_grows(s0, fs.take(k as int), false);
            lemma_marked_grows(m0, fs.take(k as int), true);
        }
        let n = c.cells.len();
        let is_safe = n > 0 && c.mines == 0;
        let is_mine = n > 0 && c.mines != 0 && c.mines == n;
        assert(is_safe == decides(f, false));
        assert(is_mine == decides(f, true));
        if is_safe || is_mine {
            for t in 0..n
                invariant
                    fs == facts_of(cs@),
                    f == fs[k as int],
                    f == c.fact(),
                    n == f.cells.len(),
                    k < fs.len(),
                    within(fs, s0),
                    within(fs, m0),
                    is_safe == decides(f, false),
                    is_mine == decides(f, true),
                    is_safe || is_mine,
                    grows(s0, sk),
                    grows(m0, mk),
                    sk == marked(s0, fs.take(k as int), false),
                    mk == marked(m0, fs.take(k as int), true),
                    is_safe ==> marks(mines@) == mk,
                    is_mine ==> marks(safe@) == sk,
                    is_safe ==> grows(sk, marks(safe@)) && forall|j: int, i: int|
                        0 <= j < sk.len() && 0 <= i < sk[j].len() ==> #[trigger] marks(safe@)[j][i] == (sk[j][i]
                            || f.cells.take(t as int).contains((i as usize, j as usize))),
                    is_mine ==> grows(mk, marks(mines@)) && forall|j: int, i: int|
                        0 <= j < mk.len() && 0 <= i < mk[j].len() ==> #[trigger] marks(mines@)[j][i] == (mk[j][i]
                            || f.cells.take(t as int).contains((i as usize, j as usize))),
                    changed == (marks(safe@) != s0 || marks(mines@) != m0),
                    safe@.len() == s0.len(),
                    mines@.len() == m0.len(),
                    forall|j: int| 0 <= j < s0.len() ==> (#[trigger] marks(safe@)[j]).len() == s0[j].len(),
                    forall|j: int| 0 <= j < m0.len() ==> (#[trigger] marks(mines@)[j]).len() == m0[j].len(),
            {
                let q = c.cells[t];
                assert(q == f.cells[t as int]);
                let ghost sb = marks(safe@);
                let ghost mb = marks(mines@);
                if is_safe {
                    assert(q.1 < s0.len() && q.0 < s0[q.1 as int].len());
                    let fresh = set_mark(safe, q.0, q.1);
                    proof {
                        lemma_grows_trans(s0, sk, sb);
                        lemma_grows_trans(sk, sb, marks(safe@));
                        if sb != s0 {
                            lemma_grows_strict(s0, sb, marks(safe@));
                        }
                        if fresh {
                            assert(marks(safe@)[q.1 as int][q.0 as int] != s0[q.1 as int][q.0 as int]);
                        }
                        assert forall|j: int, i: int| 0 <= j < sk.len() && 0 <= i < sk[j].len() implies #[trigger] marks(safe@)[j][i] == (sk[j][i]
                            || f.cells.take(t + 1).contains((i as usize, j as usize))) by {
                            let pq = (i as usize, j as usize);
                            let tk = f.cells.take(t as int);
                            assert(f.cells.take(t + 1) =~= tk.push(q));
                            assert(safe@.len() == safe.len());
                            assert(safe@[j].len() == safe@[j]@.len());
                            assert(0 <= i < safe@[j]@.len());
                            if tk.push(q).contains(pq) {
                                let w = choose|w: int| 0 <= w < tk.push(q).len() && tk.push(q)[w] == pq;
                                if w < tk.len() {
                                    assert(tk[w] == pq);
                                }
                            }
                            if tk.contains(pq) {
                                let w = choose|w: int| 0 <= w < tk.len() && tk[w] == pq;
                                assert(tk.push(q)[w] == pq);
                            }
                            if pq == q {
                                assert(i == q.0 as int);
                                assert(j == q.1 as int);
                                assert(tk.push(q)[tk.len() as int] == pq);
                                assert(marks(safe@)[j][i]);
                            } else {
                                assert(marks(safe@)[j][i] == sb[j][i]);
                            }
                        }
                    }
                    changed = changed || fresh;
                } else {
                    assert(q.1 < m0.len() && q.0 < m0[q.1 as int].len());
                    let fresh = set_mark(mines, q.0, q.1);
                    proof {
                        lemma_grows_trans(m0, mk, mb);
                        lemma_grows_trans(mk, mb, marks(mines@));
                        if mb != m0 {
                            lemma_grows_strict(m0, mb, marks(mines@));
                        }
                        if fresh {
                            assert(marks(mines@)[q.1 as int][q.0 as int] != m0[q.1 as int][q.0 as int]);
                        }
                        assert forall|j: int, i: int| 0 <= j < mk.len() && 0 <= i < mk[j].len() implies #[trigger] marks(mines@)[j][i] == (mk[j][i]
                            || f.cells.take(t + 1).contains((i as usize, j as usize))) by {
                            let pq = (i as usize, j as usize);
                            let tk = f.cells.take(t as int);
                            assert(f.cells.take(t + 1) =~= tk.push(q));
                            assert(mines@.len() == mines.len());
                            assert(mines@[j].len() == mines@[j]@.len());
                            assert(0 <= i < mines@[j]@.len());
                            if tk.push(q).contains(pq) {
                                let w = choose|w: int| 0 <= w < tk.push(q).len() && tk.push(q)[w] == pq;
                                if w < tk.len() {
                                    assert(tk[w] == pq);
                                }
                            }
                            if tk.contains(pq) {
                                let w = choose|w: int| 0 <= w < tk.len() && tk[w] == pq;
                                assert(tk.push(q)[w] == pq);
                            }
                            if pq == q {
                                assert(i == q.0 as int);
                                assert(j == q.1 as int);
                                assert(tk.push(q)[tk.len() as int] == pq);
                                assert(marks(mines@)[j][i]);
                            } else {
                                assert(marks(mines@)[j][i] == mb[j][i]);
                            }
                        }
                    }
                    changed = changed || fresh;
                }
            }
            assert(f.cells.take(n as int) =~= f.cells);
        }
        proof {
            let fk1 = fs.take(k + 1);
            assert(fk1 =~= fs.take(k as int).push(f));
            assert forall|j: int, i: int| 0 <= j < s0.len() && 0 <= i < s0[j].len() implies
                #[trigger] marks_cell(fk1, (i as usize, j as usize), false) == (marks_cell(fs.take(k as int), (i as usize, j as usize), false)
                    || (decides(f, false) && f.cells.contains((i as usize, j as usize)))) by {
                let q = (i as usize, j as usize);
                if marks_cell(fk1, q, false) {
                    let kk = choose|kk: int| 0 <= kk < fk1.len() && decides(#[trigger] fk1[kk], false) && fk1[kk].cells.contains(q);
                    if kk < k {
                        assert(fs.take(k as int)[kk] == fk1[kk]);
                    }
                }
                if marks_cell(fs.take(k as int), q, false) {
                    let kk = choose|kk: int| 0 <= kk < k && decides(#[trigger] fs.take(k as int)[kk], false) && fs.take(k as int)[kk].cells.contains(q);
                    assert(fk1[kk] == fs.take(k as int)[kk]);
                }
                if decides(f, false) && f.cells.contains(q) {
                    assert(fk1[k as int] == f);
                }
            }
            assert forall|j: int, i: int| 0 <= j < m0.len() && 0 <= i < m0[j].len() implies
                #[trigger] marks_cell(fk1, (i as usize, j as usize), true) == (marks_cell(fs.take(k as int), (i as usize, j as usize), true)
                    || (decides(f, true) && f.cells.contains((i as usize, j as usize)))) by {
                let q = (i as usize, j as usize);
                if marks_cell(fk1, q, true) {
                    let kk = choose|kk: int| 0 <= kk < fk1.len() && decides(#[trigger] fk1[kk], true) && fk1[kk].cells.contains(q);
                    if kk < k {
                        assert(fs.take(k as int)[kk] == fk1[kk]);
                    }
                }
                if marks_cell(fs.take(k as int), q, true) {
                    let kk = choose|kk: int| 0 <= kk < k && decides(#[trigger] fs.take(k as int)[kk], true) && fs.take(k as int)[kk].cells.contains(q);
                    assert(fk1[kk] == fs.take(k as int)[kk]);
                }
                if decides(f, true) && f.cells.contains(q) {
                    assert(fk1[k as int] == f);
                }
            }
            assert(marks(safe@) =~= marked(s0, fk1, false)) by {
                assert forall|j: int| 0 <= j < s0.len() implies #[trigger] marks(safe@)[j] =~= marked(s0, fk1, false)[j] by {
                    assert(sk[j].len() == s0[j].len());
                    if !is_safe {
                        assert(!decides(f, false));
                    }
                }
            }
            assert(marks(mines@) =~= marked(m0, fk1, true)) by {
                assert forall|j: int| 0 <= j < m0.len() implies #[trigger] marks(mines@)[j] =~= marked(m0, fk1, true)[j] by {
                    assert(mk[j].len() == m0[j].len());
                    if !is_mine {
                        assert(!decides(f, true));
                    }
                }
            }
        }
    }
    assert(fs.take(cs.len() as int) =~= fs);
    changed
}

/// Every cell of `a` is in `b`.
pub open spec fn covers(a: Seq<(usize, usize)>, b: Seq<(usize, usize)>) -> bool {
    forall|i: int| 0 <= i < a.len() ==> b.contains(#[trigger] a[i])
}

/// The cells of `s` not in `r`, in order.
pub open spec fn without(s: Seq<(usize, usize)>, r: Seq<(usize, usize)>) -> Seq<(usize, usize)>
    decreases s.len(),
{
    if s.len() == 0 {
        s
    } else {
        let t = without(s.drop_last(), r);
        if r.contains(s.last()) {
            t
        } else {
            t.push(s.last())
        }
    }
}

/// What two facts give together: when the cells of one lie among those of
/// the other and it has no more mines, the remaining cells hold the
/// difference (none when no cell remains).
pub open spec fn derive_fact(c1: Fact, c2: Fact) -> Option<Fact> {
    if covers(c1.cells, c2.cells) && c1.mines <= c2.mines {
        let d = without(c2.cells, c1.cells);
        if d.len() > 0 {
            Some(Fact { cells: d, mines: c2.mines - c1.mines })
        } else {
            None
        }
    } else if covers(c2.cells, c1.cells) && c2.mines <= c1.mines {
        let d = without(c1.cells, c2.cells);
        if d.len() > 0 {
            Some(Fact { cells: d, mines: c1.mines - c2.mines })
        } else {
            None
        }
    } else {
        None
    }
}

/// The facts fact `i` gives with each later fact below `n`.
pub open spec fn derived_with(fs: Seq<Fact>, i: int, n: nat) -> Seq<Fact>
    decreases n,
{
    if n == 0 {
        seq![]
    } else if i < n - 1 {
        derived_with(fs, i, (n - 1) as nat) + opt_fact(derive_fact(fs[i], fs[n - 1]))
    } else {
        derived_with(fs, i, (n - 1) as nat)
    }
}

/// The facts the first `n` facts give with every later one.
pub open spec fn derived_upto(fs: Seq<Fact>, n: nat) -> Seq<Fact>
    decreases n,
{
    if n == 0 {
        seq![]
    } else {
        derived_upto(fs, (n - 1) as nat) + derived_with(fs, n - 1, fs.len())
    }
}

/// Every fact that two facts of `fs` give, pair by pair in order.
pub open spec fn derived(fs: Seq<Fact>) -> Seq<Fact> {
    derived_upto(fs, fs.len())
}

/// A fact has nothing to give with the facts up to itself.
pub proof fn lemma_derived_with_start(fs: Seq<Fact>, i: int, n: nat)
    requires
        n <= i + 1,
    ensures
        derived_with(fs, i, n) == Seq::<Fact>::empty(),
    decreases n,
{
    if n > 0 {
        lemma_derived_with_start(fs, i, (n - 1) as nat);
    }
}

/// Cells left after removing are cells of the first list.
pub proof fn lemma_without_sub(s: Seq<(usize, usize)>, r: Seq<(usize, usize)>)
    ensures
        forall|i: int| 0 <= i < without(s, r).len() ==> s.contains(#[trigger] without(s, r)[i]),
    decreases s.len(),
{
    if s.len() > 0 {
        lemma_without_sub(s.drop_last(), r);
        let t = without(s.drop_last(), r);
        assert forall|i: int| 0 <= i < without(s, r).len() implies s.contains(#[trigger] without(s, r)[i]) by {
            if i < t.len() {
                let w = choose|w: int| 0 <= w < s.drop_last().len() && s.drop_last()[w] == t[i];
                assert(s[w] == t[i]);
            } else {
                assert(s[s.len() - 1] == s.last());
            }
        }
    }
}

/// A derived fact's cells lie on every grid the facts lie on.
pub proof fn lemma_derive_within(fs: Seq<Fact>, b: Seq<Seq<bool>>, i: int, j: int)
    requires
        within(fs, b),
        0 <= i < fs.len(),
        0 <= j < fs.len(),
        derive_fact(fs[i], fs[j]) is Some,
    ensures
        within(seq![derive_fact(fs[i], fs[j]).unwrap()], b),
{
    lemma_without_sub(fs[j].cells, fs[i].cells);
    lemma_without_sub(fs[i].cells, fs[j].cells);
    let d = derive_fact(fs[i], fs[j]).unwrap();
    assert forall|k: int, t: int| 0 <= k < 1 && 0 <= t < seq![d][k].cells.len() implies {
        let q = #[trigger] seq![d][k].cells[t];
        q.1 < b.len() && q.0 < b[q.1 as int].len()
    } by {
        assert(seq![d][k] == d);
        if covers(fs[i].cells, fs[j].cells) && fs[i].mines <= fs[j].mines {
            let w = choose|w: int| 0 <= w < fs[j].cells.len() && fs[j].cells[w] == d.cells[t];
            assert(fs[j].cells[w] == d.cells[t]);
        } else {
            let w = choose|w: int| 0 <= w < fs[i].cells.len() && fs[i].cells[w] == d.cells[t];
            assert(fs[i].cells[w] == d.cells[t]);
        }
    }
}

/// Joining lists of facts that lie on a grid gives one that does.
pub proof fn lemma_within_add(a: Seq<Fact>, c: Seq<Fact>, b: Seq<Seq<bool>>)
    requires
        within(a, b),
        within(c, b),
    ensures
        within(a + c, b),
{
    assert forall|k: int, t: int| 0 <= k < (a + c).len() && 0 <= t < (a + c)[k].cells.len() implies {
        let q = #[trigger] (a + c)[k].cells[t];
        q.1 < b.len() && q.0 < b[q.1 as int].len()
    } by {
        if k < a.len() {
            assert((a + c)[k] == a[k]);
            assert(a[k].cells[t] == (a + c)[k].cells[t]);
        } else {
            assert((a + c)[k] == c[k - a.len()]);
            assert(c[k - a.len()].cells[t] == (a + c)[k].cells[t]);
        }
    }
}

/// The facts fact `i` gives lie on every grid the facts lie on.
pub proof fn lemma_derived_with_within(fs: Seq<Fact>, b: Seq<Seq<bool>>, i: int, n: nat)
    requires
        within(fs, b),
        0 <= i < fs.len(),
        n <= fs.len(),
    ensures
        within(derived_with(fs, i, n), b),
    decreases n,
{
    if n > 0 {
        lemma_derived_with_within(fs, b, i, (n - 1) as nat);
        if i < n - 1 {
            let o = derive_fact(fs[i], fs[n - 1]);
            if o is Some {
                lemma_derive_within(fs, b, i, n - 1);
                assert(opt_fact(o) == seq![o.unwrap()]);
            } else {
                assert(opt_fact(o) == Seq::<Fact>::empty());
            }
            lemma_within_add(derived_with(fs, i, (n - 1) as nat), opt_fact(o), b);
        }
    }
}

/// What facts give lies on every grid the facts lie on.
pub proof fn lemma_derived_within(fs: Seq<Fact>, b: Seq<Seq<bool>>, n: nat)
    requires
        within(fs, b),
        n <= fs.len(),
    ensures
        within(derived_upto(fs, n), b),
    decreases n,
{
    if n > 0 {
        lemma_derived_within(fs, b, (n - 1) as nat);
        lemma_derived_with_within(fs, b, n - 1, fs.len());
        lemma_within_add(derived_upto(fs, (n - 1) as nat), derived_with(fs, n - 1, fs.len()), b);
    }
}

/// Whether `v` holds `p`.
fn has_pos(v: &Vec<(usize, usize)>, p: (usize, usize)) -> (r: bool)
    ensures
        r == v@.contains(p),
{
    for k in 0..v.len()
        invariant
            !v@.take(k as int).contains(p),
    {
        let q = v[k];
        if q.0 == p.0 && q.1 == p.1 {
            assert(v@[k as int] == p);
            return true;
        }
        proof {
            assert forall|w: int| 0 <= w < k + 1 implies #[trigger] v@.take(k + 1)[w] != p by {
                if w < k {
                    assert(v@.take(k as int)[w] == v@.take(k + 1)[w]);
                }
            }
        }
    }
    assert(v@.take(v.len() as int) =~= v@);
    false
}

/// Whether every cell of `a` is in `b`.
fn covers_exec(a: &Vec<(usize, usize)>, b: &Vec<(usize, usize)>) -> (r: bool)
    ensures
        r == covers(a@, b@),
{
    for k in 0..a.len()
        invariant
            forall|i: int| 0 <= i < k ==> b@.contains(#[trigger] a@[i]),
    {
        if !has_pos(b, a[k]) {
            return false;
        }
    }
    true
}

/// The cells of `s` not in `r`, in order.
fn without_exec(s: &Vec<(usize, usize)>, r: &Vec<(usize, usize)>) -> (d: Vec<(usize, usize)>)
    ensures
        d@ == without(s@, r@),
{
    let mut d: Vec<(usize, usize)> = Vec::new();
    for k in 0..s.len()
        invariant
            d@ == without(s@.take(k as int), r@),
    {
        assert(s@.take(k + 1).drop_last() =~= s@.take(k as int));
        assert(s@.take(k + 1).last() == s@[k as int]);
        if !has_pos(r, s[k]) {
            d.push(s[k]);
        }
    }
    assert(s@.take(s.len() as int) =~= s@);
    d
}

/// What two constraints give together, as `derive_fact` says.
fn derive_pair(c1: &Constraint, c2: &Constraint) -> (r: Option<Constraint>)
    ensures
        match r {
            Some(c) => derive_fact(c1.fact(), c2.fact()) == Some(c.fact()),
            None => derive_fact(c1.fact(), c2.fact()) is None,
        },
{
    if covers_exec(&c1.cells, &c2.cells) && c1.mines <= c2.mines {
        let d = without_exec(&c2.cells, &c1.cells);
        if d.len() > 0 {
            Some(Constraint { cells: d, mines: c2.mines - c1.mines })
        } else {
            None
        }
    } else if covers_exec(&c2.cells, &c1.cells) && c2.mines <= c1.mines {
        let d = without_exec(&c1.cells, &c2.cells);
        if d.len() > 0 {
            Some(Constraint { cells: d, mines: c1.mines - c2.mines })
        } else {
            None
        }
    } else {
        None
    }
}

/// Compares every pair of constraints: where the cells of one lie among
/// those of the other, the remaining cells hold the difference of their
/// mines. The new constraints come pair by pair in order.
pub fn subset_pass(cs: &Vec<Constraint>) -> (d: Vec<Constraint>)
    ensures
        facts_of(d@) == derived(facts_of(cs@)),
{
    let ghost fs = facts_of(cs@);
    let mut out: Vec<Constraint> = Vec::new();
    let n = cs.len();
    for i in 0..n
        invariant
            n == cs.len(),
            fs == facts_of(cs@),
            facts_of(out@) == derived_upto(fs, i as nat),
    {
        proof {
            lemma_derived_with_start(fs, i as int, (i + 1) as nat);
            assert(facts_of(out@) =~= derived_upto(fs, i as nat) + derived_with(fs, i as int, (i + 1) as nat));
        }
        for j in i + 1..n
            invariant
                n == cs.len(),
                i < n,
                fs == facts_of(cs@),
                facts_of(out@) == derived_upto(fs, i as nat) + derived_with(fs, i as int, j as nat),
        {
            let ghost before = facts_of(out@);
            let r = derive_pair(&cs[i], &cs[j]);
            let ghost o = derive_fact(fs[i as int], fs[j as int]);
            match r {
                Some(c) => {
                    out.push(c);
                    assert(facts_of(out@) =~= before + opt_fact(o));
                },
                None => {
                    assert(before + opt_fact(o) =~= before);
                },
            }
            assert(derived_upto(fs, i as nat) + derived_with(fs, i as int, (j + 1) as nat) =~= before + opt_fact(o));
        }
    }
    out
}

/// Grids of the same shape hold the same facts.
pub proof fn lemma_within_shaped(fs: Seq<Fact>, b: Seq<Seq<bool>>, c: Seq<Seq<bool>>)
    requires
        within(fs, b),
        b.len() == c.len(),
        forall|j: int| 0 <= j < b.len() ==> (#[trigger] b[j]).len() == c[j].len(),
    ensures
        within(fs, c),
{
    assert forall|k: int, i: int| 0 <= k < fs.len() && 0 <= i < fs[k].cells.len() implies {
        let q = #[trigger] fs[k].cells[i];
        q.1 < c.len() && q.0 < c[q.1 as int].len()
    } by {
        let q = fs[k].cells[i];
        assert(q.1 < b.len() && q.0 < b[q.1 as int].len());
    }
}

/// A pair of grids (safe marks, mine marks) only gains marks.
pub open spec fn grows2(a: (Seq<Seq<bool>>, Seq<Seq<bool>>), b: (Seq<Seq<bool>>, Seq<Seq<bool>>)) -> bool {
    grows(a.0, b.0) && grows(a.1, b.1)
}

/// Along a chain of growing grids the end equals the start exactly when
/// neither step changed anything.
pub proof fn lemma_chain(a: Seq<Seq<bool>>, b: Seq<Seq<bool>>, c: Seq<Seq<bool>>)
    requires
        grows(a, b),
        grows(b, c),
    ensures
        grows(a, c),
        (c == a) == (b == a && c == b),
{
    if c == a {
        assert forall|j: int| 0 <= j < a.len() implies #[trigger] b[j] =~= a[j] by {
            assert forall|i: int| 0 <= i < a[j].len() implies b[j][i] == a[j][i] by {
                if b[j][i] {
                    assert(c[j][i]);
                }
            }
        }
        assert(b =~= a);
    }
}

/// `lemma_chain` for pairs of grids.
pub proof fn lemma_chain2(
    a: (Seq<Seq<bool>>, Seq<Seq<bool>>),
    b: (Seq<Seq<bool>>, Seq<Seq<bool>>),
    c: (Seq<Seq<bool>>, Seq<Seq<bool>>),
)
    requires
        grows2(a, b),
        grows2(b, c),
    ensures
        grows2(a, c),
        (c == a) == (b == a && c == b),
{
    lemma_chain(a.0, b.0, c.0);
    lemma_chain(a.1, b.1, c.1);
}

/// A grid of `w` by `h` with no marks.
pub open spec fn blank(w: int, h: int) -> Seq<Seq<bool>> {
    Seq::new(h as nat, |j: int| Seq::new(w as nat, |i: int| false))
}

/// Both grids marked by the facts `fs`.
pub open spec fn apply(fs: Seq<Fact>, sm: (Seq<Seq<bool>>, Seq<Seq<bool>>)) -> (Seq<Seq<bool>>, Seq<Seq<bool>>) {
    (marked(sm.0, fs, false), marked(sm.1, fs, true))
}

/// Up to `n` further passes over the facts and what they give, each adding
/// the new facts, until a pass marks nothing new.
pub open spec fn deeper(fs: Seq<Fact>, sm: (Seq<Seq<bool>>, Seq<Seq<bool>>), n: nat) -> (Seq<Seq<bool>>, Seq<Seq<bool>>)
    decreases n,
{
    if n == 0 {
        sm
    } else {
        let d = derived(fs);
        let r = apply(d, sm);
        if r == sm {
            r
        } else {
            deeper(fs + d, r, (n - 1) as nat)
        }
    }
}

impl PvAiGame {
    /// One round of deduction from marks `sm`: the board's facts (with the
    /// mines marked so far counted as flags) mark cells; from Medium up what
    /// pairs of facts give marks more; Hard goes on with up to three more
    /// passes.
    pub open spec fn round(self, sm: (Seq<Seq<bool>>, Seq<Seq<bool>>)) -> (Seq<Seq<bool>>, Seq<Seq<bool>>) {
        let fs = self.facts(sm.1);
        let r1 = apply(fs, sm);
        if self.level == AiLevel::Easy {
            r1
        } else {
            let d = derived(fs);
            let r2 = apply(d, r1);
            if self.level == AiLevel::Medium {
                r2
            } else {
                deeper(fs + d, r2, 3)
            }
        }
    }

    /// Up to `n` rounds, stopping after one that marks nothing new.
    pub open spec fn rounds(self, sm: (Seq<Seq<bool>>, Seq<Seq<bool>>), n: nat) -> (Seq<Seq<bool>>, Seq<Seq<bool>>)
        decreases n,
    {
        if n == 0 {
            sm
        } else {
            let r = self.round(sm);
            if r == sm {
                r
            } else {
                self.rounds(r, (n - 1) as nat)
            }
        }
    }

    /// What the computer deduces: after up to ten rounds from no marks, the
    /// cells marked safe that it could open, and the cells marked as mines
    /// that carry no flag.
    pub open spec fn deductions(self) -> (Seq<Seq<bool>>, Seq<Seq<bool>>) {
        let w = self.width as int;
        let h = self.height as int;
        let r = self.rounds((blank(w, h), blank(w, h)), 10);
        (
            Seq::new(h as nat, |j: int| Seq::new(w as nat, |i: int| r.0[j][i] && self.openable(i, j))),
            Seq::new(
                h as nat,
                |j: int| Seq::new(w as nat, |i: int| r.1[j][i] && !self.cell(i, j).ai_flag && !self.cell(i, j).player_flag),
            ),
        )
    }

    /// The unknown neighbours of a cell lie on the board.
    pub proof fn lemma_unknown_inside(self, v: Seq<Seq<bool>>, p: (int, int), k: nat, b: Seq<Seq<bool>>)
        requires
            shaped(b, self.width as int, self.height as int),
        ensures
            forall|t: int| 0 <= t < self.unknown_around(v, p, k).len() ==> {
                let q = #[trigger] self.unknown_around(v, p, k)[t];
                q.1 < b.len() && q.0 < b[q.1 as int].len()
            },
        decreases k,
    {
        if k > 0 {
            self.lemma_unknown_inside(v, p, (k - 1) as nat, b);
            let s = self.unknown_around(v, p, (k - 1) as nat);
            let q = nb(p, k - 1);
            if self.unknown(v, q) {
                let e = (q.0 as usize, q.1 as usize);
                assert(e.1 as int == q.1 && e.0 as int == q.0);
                assert(b[q.1].len() == self.width);
                assert forall|t: int| 0 <= t < self.unknown_around(v, p, k).len() implies {
                    let r = #[trigger] self.unknown_around(v, p, k)[t];
                    r.1 < b.len() && r.0 < b[r.1 as int].len()
                } by {
                    if t < s.len() {
                        assert(self.unknown_around(v, p, k)[t] == s[t]);
                    }
                }
            }
        }
    }

    /// The facts of the first `n` cells of row `y` lie on the board.
    pub proof fn lemma_row_within(self, v: Seq<Seq<bool>>, y: int, n: nat, b: Seq<Seq<bool>>)
        requires
            shaped(b, self.width as int, self.height as int),
        ensures
            within(self.facts_in_row(v, y, n), b),
        decreases n,
    {
        if n > 0 {
            self.lemma_row_within(v, y, (n - 1) as nat, b);
            let o = self.fact_at(v, n - 1, y);
            if o is Some {
                self.lemma_unknown_inside(v, (n - 1, y), 8, b);
                assert(opt_fact(o) == seq![o.unwrap()]);
                assert(within(opt_fact(o), b));
            } else {
                assert(opt_fact(o) == Seq::<Fact>::empty());
            }
            lemma_within_add(self.facts_in_row(v, y, (n - 1) as nat), opt_fact(o), b);
        }
    }

    /// The facts of the first `n` rows lie on the board.
    pub proof fn lemma_facts_within(self, v: Seq<Seq<bool>>, n: nat, b: Seq<Seq<bool>>)
        requires
            shaped(b, self.width as int, self.height as int),
        ensures
            within(self.facts_upto(v, n), b),
        decreases n,
    {
        if n > 0 {
            self.lemma_facts_within(v, (n - 1) as nat, b);
            self.lemma_row_within(v, n - 1, self.width as nat, b);
            lemma_within_add(self.facts_upto(v, (n - 1) as nat), self.facts_in_row(v, n - 1, self.width as nat), b);
        }
    }
}

/// A grid of `w` by `h` with no marks.
fn blank_grid(w: usize, h: usize) -> (b: Vec<Vec<bool>>)
    ensures
        marks(b@) == blank(w as int, h as int),
{
    let mut b: Vec<Vec<bool>> = Vec::new();
    for j in 0..h
        invariant
            marks(b@) == blank(w as int, j as int),
    {
        let mut row: Vec<bool> = Vec::new();
        for i in 0..w
            invariant
                row@ == Seq::new(i as nat, |t: int| false),
        {
            row.push(false);
            assert(row@ =~= Seq::new((i + 1) as nat, |t: int| false));
        }
        let ghost before = marks(b@);
        b.push(row);
        assert(marks(b@) =~= before.push(row@));
        assert forall|t: int| 0 <= t <= j implies #[trigger] before.push(row@)[t] =~= blank(w as int, (j + 1) as int)[t] by {
            if t < j {
                assert(before[t] == blank(w as int, j as int)[t]);
            }
        }
        assert(before.push(row@) =~= blank(w as int, (j + 1) as int));
    }
    b
}

/// Marking with facts that lie on the grids keeps their shape and grows them.
proof fn lemma_apply_facts(fs: Seq<Fact>, sm: (Seq<Seq<bool>>, Seq<Seq<bool>>), w: int, h: int)
    requires
        shaped(sm.0, w, h),
        shaped(sm.1, w, h),
    ensures
        shaped(apply(fs, sm).0, w, h),
        shaped(apply(fs, sm).1, w, h),
        grows2(sm, apply(fs, sm)),
{
    lemma_marked_grows(sm.0, fs, false);
    lemma_marked_grows(sm.1, fs, true);
}

/// Up to three further passes, as `deeper` says; returns whether any mark
/// was added.
fn deeper_passes(cs: &mut Vec<Constraint>, safe: &mut Vec<Vec<bool>>, mines: &mut Vec<Vec<bool>>, Ghost(w): Ghost<int>, Ghost(h): Ghost<int>) -> (changed: bool)
    requires
        shaped(marks(old(safe)@), w, h),
        shaped(marks(old(mines)@), w, h),
        within(facts_of(old(cs)@), marks(old(safe)@)),
    ensures
        (marks(final(safe)@), marks(final(mines)@)) == deeper(facts_of(old(cs)@), (marks(old(safe)@), marks(old(mines)@)), 3),
        shaped(marks(final(safe)@), w, h),
        shaped(marks(final(mines)@), w, h),
        grows2((marks(old(safe)@), marks(old(mines)@)), (marks(final(safe)@), marks(final(mines)@))),
        changed == ((marks(final(safe)@), marks(final(mines)@)) != (marks(old(safe)@), marks(old(mines)@))),
{
    let ghost start = (marks(safe@), marks(mines@));
    let ghost goal = deeper(facts_of(cs@), start, 3);
    let mut changed = false;
    let mut n: usize = 3;
    while n > 0
        invariant
            n <= 3,
            goal == deeper(facts_of(cs@), (marks(safe@), marks(mines@)), n as nat),
            shaped(marks(safe@), w, h),
            shaped(marks(mines@), w, h),
            within(facts_of(cs@), marks(safe@)),
            grows2(start, (marks(safe@), marks(mines@))),
            changed == ((marks(safe@), marks(mines@)) != start),
        ensures
            (marks(safe@), marks(mines@)) == goal,
            shaped(marks(safe@), w, h),
            shaped(marks(mines@), w, h),
            grows2(start, (marks(safe@), marks(mines@))),
            changed == ((marks(safe@), marks(mines@)) != start),
        decreases n,
    {
        let ghost fs = facts_of(cs@);
        let ghost cur = (marks(safe@), marks(mines@));
        let mut d = subset_pass(cs);
        proof {
            lemma_derived_within(fs, cur.0, fs.len());
            lemma_within_shaped(facts_of(d@), cur.0, cur.1);
            lemma_apply_facts(facts_of(d@), cur, w, h);
        }
        let ch = local_pass(&d, safe, mines);
        let ghost next = (marks(safe@), marks(mines@));
        proof {
            assert(next == apply(derived(fs), cur));
            lemma_chain2(start, cur, next);
        }
        changed = changed || ch;
        if !ch {
            assert(next == cur);
            break;
        }
        proof {
            lemma_within_shaped(facts_of(d@), cur.0, next.0);
            lemma_within_shaped(fs, cur.0, next.0);
            lemma_within_add(fs, facts_of(d@), next.0);
        }
        cs.append(&mut d);
        assert(facts_of(cs@) =~= fs + derived(fs));
        n = n - 1;
    }
    changed
}

impl PvAiGame {
    /// One round of deduction on the marks, as `round` says; returns
    /// whether any mark was added.
    fn one_round(&self, safe: &mut Vec<Vec<bool>>, mines: &mut Vec<Vec<bool>>) -> (changed: bool)
        requires
            self.wf_shape(),
            shaped(marks(old(safe)@), self.width as int, self.height as int),
            shaped(marks(old(mines)@), self.width as int, self.height as int),
        ensures
            (marks(final(safe)@), marks(final(mines)@)) == self.round((marks(old(safe)@), marks(old(mines)@))),
            shaped(marks(final(safe)@), self.width as int, self.height as int),
            shaped(marks(final(mines)@), self.width as int, self.height as int),
            changed == ((marks(final(safe)@), marks(final(mines)@)) != (marks(old(safe)@), marks(old(mines)@))),
    {
        let ghost w = self.width as int;
        let ghost h = self.height as int;
        let ghost s0 = (marks(safe@), marks(mines@));
        let mut cs = self.build_constraints_with(mines);
        let ghost fs = facts_of(cs@);
        proof {
            self.lemma_facts_within(s0.1, self.height as nat, s0.0);
            lemma_within_shaped(fs, s0.0, s0.1);
            lemma_apply_facts(fs, s0, w, h);
        }
        let c1 = local_pass(&cs, safe, mines);
        let ghost s1 = (marks(safe@), marks(mines@));
        if matches!(self.level, AiLevel::Easy) {
            return c1;
        }
        let mut d = subset_pass(&cs);
        proof {
            lemma_derived_within(fs, s0.0, fs.len());
            lemma_within_shaped(facts_of(d@), s0.0, s1.0);
            lemma_within_shaped(facts_of(d@), s0.0, s1.1);
            lemma_apply_facts(facts_of(d@), s1, w, h);
        }
        let c2 = local_pass(&d, safe, mines);
        let ghost s2 = (marks(safe@), marks(mines@));
        proof {
            lemma_chain2(s0, s1, s2);
        }
        if matches!(self.level, AiLevel::Medium) {
            return c1 || c2;
        }
        proof {
            lemma_within_shaped(fs, s0.0, s2.0);
            lemma_within_shaped(facts_of(d@), s0.0, s2.0);
            lemma_within_add(fs, facts_of(d@), s2.0);
        }
        cs.append(&mut d);
        assert(facts_of(cs@) =~= fs + derived(fs));
        let c3 = deeper_passes(&mut cs, safe, mines, Ghost(w), Ghost(h));
        proof {
            let s3 = (marks(safe@), marks(mines@));
            lemma_chain2(s0, s2, s3);
        }
        c1 || c2 || c3
    }

    /// What the computer deduces, as `deductions` says: the grid of cells it
    /// knows to be safe and may open, and the grid of unflagged cells it
    /// knows to hold mines.
    pub fn solve(&self) -> (r: (Vec<Vec<bool>>, Vec<Vec<bool>>))
        requires
            self.wf_shape(),
        ensures
            (marks(r.0@), marks(r.1@)) == self.deductions(),
    {
        let ghost w = self.width as int;
        let ghost h = self.height as int;
        let mut safe = blank_grid(self.width, self.height);
        let mut mines = blank_grid(self.width, self.height);
        let ghost goal = self.rounds((blank(w, h), blank(w, h)), 10);
        let mut n: usize = 10;
        while n > 0
            invariant
                self.wf_shape(),
                w == self.width,
                h == self.height,
                n <= 10,
                goal == self.rounds((marks(safe@), marks(mines@)), n as nat),
                shaped(marks(safe@), w, h),
                shaped(marks(mines@), w, h),
            ensures
                (marks(safe@), marks(mines@)) == goal,
                shaped(marks(safe@), w, h),
                shaped(marks(mines@), w, h),
            decreases n,
        {
            let ch = self.one_round(&mut safe, &mut mines);
            if !ch {
                break;
            }
            n = n - 1;
        }
        let mut safe_out: Vec<Vec<bool>> = Vec::new();
        let mut mine_out: Vec<Vec<bool>> = Vec::new();
        let ghost want = self.deductions();
        for y in 0..self.height
            invariant
                self.wf_shape(),
                w == self.width,
                h == self.height,
                (marks(safe@), marks(mines@)) == goal,
                want == self.deductions(),
                goal == self.rounds((blank(w, h), blank(w, h)), 10),
                shaped(marks(safe@), w, h),
                shaped(marks(mines@), w, h),
                marks(safe_out@) == want.0.take(y as int),
                marks(mine_out@) == want.1.take(y as int),
        {
            let mut srow: Vec<bool> = Vec::new();
            let mut mrow: Vec<bool> = Vec::new();
            assert(self.grid@[y as int]@.len() == self.width);
            assert(marks(safe@)[y as int].len() == w);
            assert(marks(mines@)[y as int].len() == w);
            for x in 0..self.width
                invariant
                    self.wf_shape(),
                    w == self.width,
                    h == self.height,
                    y < self.height,
                    (marks(safe@), marks(mines@)) == goal,
                    want == self.deductions(),
                    goal == self.rounds((blank(w, h), blank(w, h)), 10),
                    shaped(marks(safe@), w, h),
                    shaped(marks(mines@), w, h),
                    self.grid@[y as int]@.len() == self.width,
                    srow@ == want.0[y as int].take(x as int),
                    mrow@ == want.1[y as int].take(x as int),
            {
                let c = self.grid[y][x];
                assert(c == self.cell(x as int, y as int));
                assert(safe@[y as int]@ == marks(safe@)[y as int]);
                assert(mines@[y as int]@ == marks(mines@)[y as int]);
                srow.push(safe[y][x] && !c.revealed && !c.player_flag && !c.ai_flag);
                mrow.push(mines[y][x] && !c.ai_flag && !c.player_flag);
                assert(srow@ =~= want.0[y as int].take(x + 1));
                assert(mrow@ =~= want.1[y as int].take(x + 1));
            }
            assert(srow@ =~= want.0[y as int]);
            assert(mrow@ =~= want.1[y as int]);
            let ghost before_0 = marks(safe_out@);
            let ghost before_1 = marks(mine_out@);
            safe_out.push(srow);
            mine_out.push(mrow);
            assert(marks(safe_out@) =~= before_0.push(srow@));
            assert forall|t: int| 0 <= t <= y implies #[trigger] before_0.push(srow@)[t] =~= want.0.take(y + 1)[t] by {
                if t < y {
                    assert(before_0[t] == want.0.take(y as int)[t]);
                }
            }
            assert(marks(safe_out@) =~= want.0.take(y + 1));
            assert(marks(mine_out@) =~= before_1.push(mrow@));
            assert forall|t: int| 0 <= t <= y implies #[trigger] before_1.push(mrow@)[t] =~= want.1.take(y + 1)[t] by {
                if t < y {
                    assert(before_1[t] == want.1.take(y as int)[t]);
                }
            }
            assert(marks(mine_out@) =~= want.1.take(y + 1));
        }
        assert(want.0.take(h) =~= want.0);
        assert(want.1.take(h) =~= want.1);
        (safe_out, mine_out)
    }
}

/// The marked cells of the first `n` columns of row `y`, in order.
pub open spec fn listed_row(b: Seq<Seq<bool>>, y: int, n: nat) -> Seq<(usize, usize)>
    decreases n,
{
    if n == 0 {
        seq![]
    } else {
        let s = listed_row(b, y, (n - 1) as nat);
        if b[y][n - 1] {
            s.push(((n - 1) as usize, y as usize))
        } else {
            s
        }
    }
}

/// The marked cells of the first `n` rows of `w` cells, in scan order.
pub open spec fn listed(b: Seq<Seq<bool>>, w: nat, n: nat) -> Seq<(usize, usize)>
    decreases n,
{
    if n == 0 {
        seq![]
    } else {
        listed(b, w, (n - 1) as nat) + listed_row(b, n - 1, w)
    }
}

/// Marked cells of row `y` lie in the row's first `n` columns.
pub proof fn lemma_listed_row_inside(b: Seq<Seq<bool>>, y: int, n: nat)
    requires
        0 <= y <= usize::MAX,
        n <= usize::MAX + 1,
    ensures
        forall|t: int| 0 <= t < listed_row(b, y, n).len() ==> {
            let q = #[trigger] listed_row(b, y, n)[t];
            q.1 == y && q.0 < n && b[y][q.0 as int]
        },
    decreases n,
{
    if n > 0 {
        lemma_listed_row_inside(b, y, (n - 1) as nat);
        let s = listed_row(b, y, (n - 1) as nat);
        if b[y][n - 1] {
            let e = ((n - 1) as usize, y as usize);
            assert(e.0 as int == n - 1 && e.1 as int == y);
            assert forall|t: int| 0 <= t < listed_row(b, y, n).len() implies {
                let q = #[trigger] listed_row(b, y, n)[t];
                q.1 == y && q.0 < n && b[y][q.0 as int]
            } by {
                if t < s.len() {
                    assert(listed_row(b, y, n)[t] == s[t]);
                }
            }
        }
    }
}

/// Listed cells lie on the grid, and are marked.
pub proof fn lemma_listed_inside(b: Seq<Seq<bool>>, w: nat, n: nat)
    requires
        w <= usize::MAX + 1,
        n <= usize::MAX + 1,
    ensures
        forall|t: int| 0 <= t < listed(b, w, n).len() ==> {
            let q = #[trigger] listed(b, w, n)[t];
            q.1 < n && q.0 < w && b[q.1 as int][q.0 as int]
        },
    decreases n,
{
    if n > 0 {
        lemma_listed_inside(b, w, (n - 1) as nat);
        lemma_listed_row_inside(b, n - 1, w);
        let a = listed(b, w, (n - 1) as nat);
        let r = listed_row(b, n - 1, w);
        assert forall|t: int| 0 <= t < listed(b, w, n).len() implies {
            let q = #[trigger] listed(b, w, n)[t];
            q.1 < n && q.0 < w && b[q.1 as int][q.0 as int]
        } by {
            if t < a.len() {
                assert(listed(b, w, n)[t] == a[t]);
            } else {
                assert(listed(b, w, n)[t] == r[t - a.len()]);
            }
        }
    }
}

/// The marked cells of a `w` by `h` grid, in scan order.
pub fn list_marked(b: &Vec<Vec<bool>>, w: usize, h: usize) -> (l: Vec<(usize, usize)>)
    requires
        shaped(marks(b@), w as int, h as int),
    ensures
        l@ == listed(marks(b@), w as nat, h as nat),
{
    let ghost m = marks(b@);
    let mut l: Vec<(usize, usize)> = Vec::new();
    for y in 0..h
        invariant
            m == marks(b@),
            shaped(m, w as int, h as int),
            l@ == listed(m, w as nat, y as nat),
    {
        let ghost base = l@;
        assert(b@[y as int]@ == m[y as int]);
        for x in 0..w
            invariant
                m == marks(b@),
                shaped(m, w as int, h as int),
                y < h,
                b@[y as int]@ == m[y as int],
                l@ == base + listed_row(m, y as int, x as nat),
        {
            if b[y][x] {
                l.push((x, y));
            }
            assert(l@ =~= base + listed_row(m, y as int, (x + 1) as nat));
        }
    }
    l
}

impl PvAiGame {
    /// 1 where `q` is an open cell of the board.
    pub open spec fn open_one(self, q: (int, int)) -> int {
        if self.in_bounds(q.0, q.1) && self.cell(q.0, q.1).revealed {
            1
        } else {
            0
        }
    }

    /// 1 where `q` is a closed cell of the board.
    pub open spec fn closed_one(self, q: (int, int)) -> int {
        if self.in_bounds(q.0, q.1) && !self.cell(q.0, q.1).revealed {
            1
        } else {
            0
        }
    }

    /// How many open cells surround `q`.
    pub open spec fn open_key(self, q: (usize, usize)) -> int {
        nb_sum(|p: (int, int)| self.open_one(p), (q.0 as int, q.1 as int))
    }

    /// How many closed cells surround `q`.
    pub open spec fn closed_key(self, q: (usize, usize)) -> int {
        nb_sum(|p: (int, int)| self.closed_one(p), (q.0 as int, q.1 as int))
    }

    /// The open (or, with `closed`, the closed) cells around (`x`, `y`).
    pub fn around(&self, x: usize, y: usize, closed: bool) -> (r: u8)
        requires
            self.wf_shape(),
            x < self.width,
            y < self.height,
        ensures
            r == if closed {
                self.closed_key((x, y))
            } else {
                self.open_key((x, y))
            },
            r <= 8,
    {
        let ghost p = (x as int, y as int);
        let mut n: u8 = 0;
        for k in 0..8usize
            invariant
                self.wf_shape(),
                x < self.width,
                y < self.height,
                p == (x as int, y as int),
                closed ==> n == nb_partial(|q: (int, int)| self.closed_one(q), p, k as nat),
                !closed ==> n == nb_partial(|q: (int, int)| self.open_one(q), p, k as nat),
                n <= k,
        {
            match neighbor_of(self.width, self.height, x, y, k) {
                Some((nx, ny)) => {
                    assert(self.grid@[ny as int]@.len() == self.width);
                    if self.grid[ny][nx].revealed != closed {
                        n = n + 1;
                    }
                },
                None => {},
            }
        }
        n
    }
}

/// The index of the last entry of the first `k` of `l` with the greatest
/// `key` (0 for an empty prefix).
pub open spec fn last_best(l: Seq<(usize, usize)>, key: spec_fn((usize, usize)) -> int, k: nat) -> int
    decreases k,
{
    if k <= 1 {
        0
    } else {
        let b = last_best(l, key, (k - 1) as nat);
        if key(l[k - 1]) >= key(l[b]) {
            k - 1
        } else {
            b
        }
    }
}

/// The best index lies in the prefix.
pub proof fn lemma_last_best_range(l: Seq<(usize, usize)>, key: spec_fn((usize, usize)) -> int, k: nat)
    requires
        k >= 1,
    ensures
        0 <= last_best(l, key, k) < k,
    decreases k,
{
    if k > 1 {
        lemma_last_best_range(l, key, (k - 1) as nat);
    }
}

impl PvAiGame {
    /// The last cell of `l` with the most open (or, with `closed`, closed)
    /// cells around it.
    fn best_index(&self, l: &Vec<(usize, usize)>, closed: bool) -> (r: usize)
        requires
            self.wf_shape(),
            l@.len() > 0,
            forall|t: int| 0 <= t < l@.len() ==> (#[trigger] l@[t]).0 < self.width && l@[t].1 < self.height,
        ensures
            closed ==> r == last_best(l@, |q: (usize, usize)| self.closed_key(q), l@.len()),
            !closed ==> r == last_best(l@, |q: (usize, usize)| self.open_key(q), l@.len()),
            r < l@.len(),
    {
        let mut b: usize = 0;
        let mut bk = self.around(l[0].0, l[0].1, closed);
        for k in 1..l.len()
            invariant
                self.wf_shape(),
                l@.len() > 0,
                forall|t: int| 0 <= t < l@.len() ==> (#[trigger] l@[t]).0 < self.width && l@[t].1 < self.height,
                b < k,
                closed ==> b == last_best(l@, |q: (usize, usize)| self.closed_key(q), k as nat),
                !closed ==> b == last_best(l@, |q: (usize, usize)| self.open_key(q), k as nat),
                closed ==> bk == self.closed_key(l@[b as int]),
                !closed ==> bk == self.open_key(l@[b as int]),
        {
            let q = l[k];
            let v = self.around(q.0, q.1, closed);
            if v >= bk {
                b = k;
                bk = v;
            }
        }
        b
    }

    /// The safe cell the computer opens from marks `safe`: none when no
    /// cell is marked; on Easy any marked cell (chosen at random); on Medium
    /// the last, in scan order, of those with the most open neighbours; on
    /// Hard the last of those with the most closed neighbours.
    pub fn pick_safe(&self, safe: &Vec<Vec<bool>>) -> (r: Option<(usize, usize)>)
        requires
            self.wf_shape(),
            shaped(marks(safe@), self.width as int, self.height as int),
        ensures
            self.picked(listed(marks(safe@), self.width as nat, self.height as nat), r),
    {
        let l = list_marked(safe, self.width, self.height);
        proof {
            lemma_listed_inside(marks(safe@), self.width as nat, self.height as nat);
        }
        self.pick_from(&l)
    }

    /// Whether `r` is a choice from `l` by the level's rule: none exactly
    /// when `l` is empty; on Easy any entry; on Medium the last entry with
    /// the most open neighbours; on Hard the last with the most closed ones.
    pub open spec fn picked(self, l: Seq<(usize, usize)>, r: Option<(usize, usize)>) -> bool {
        match r {
            None => l.len() == 0,
            Some(q) => l.len() > 0 && l.contains(q) && match self.level {
                AiLevel::Easy => true,
                AiLevel::Medium => q == l[last_best(l, |p: (usize, usize)| self.open_key(p), l.len())],
                AiLevel::Hard => q == l[last_best(l, |p: (usize, usize)| self.closed_key(p), l.len())],
            },
        }
    }

    /// A choice from `l` as `picked` says.
    fn pick_from(&self, l: &Vec<(usize, usize)>) -> (r: Option<(usize, usize)>)
        requires
            self.wf_shape(),
            forall|t: int| 0 <= t < l@.len() ==> (#[trigger] l@[t]).0 < self.width && l@[t].1 < self.height,
        ensures
            self.picked(l@, r),
    {
        if l.len() == 0 {
            return None;
        }
        let i = match self.level {
            AiLevel::Easy => random_below(l.len()),
            AiLevel::Medium => self.best_index(l, false),
            AiLevel::Hard => self.best_index(l, true),
        };
        assert(l@[i as int] == l@[i as int]);
        Some(l[i])
    }
}

/// A fact is small: one to eight cells and at most eight mines.
pub open spec fn small(f: Fact) -> bool {
    1 <= f.cells.len() <= 8 && 0 <= f.mines <= 8
}

/// A fact's share of mine chance, in 840ths (840 is a multiple of every
/// size from one to eight).
pub open spec fn share(f: Fact) -> int {
    f.mines * (840int / (f.cells.len() as int))
}

/// The shares of the facts among the first `k` that mention `q`.
pub open spec fn share_sum(fs: Seq<Fact>, q: (usize, usize), k: nat) -> int
    decreases k,
{
    if k == 0 {
        0
    } else {
        share_sum(fs, q, (k - 1) as nat) + if fs[k - 1].cells.contains(q) {
            share(fs[k - 1])
        } else {
            0
        }
    }
}

/// How many of the first `k` facts mention `q`.
pub open spec fn share_count(fs: Seq<Fact>, q: (usize, usize), k: nat) -> int
    decreases k,
{
    if k == 0 {
        0
    } else {
        share_count(fs, q, (k - 1) as nat) + if fs[k - 1].cells.contains(q) {
            1int
        } else {
            0int
        }
    }
}

/// Fraction `a` (numerator, positive denominator) is below fraction `b`.
pub open spec fn less_likely(a: (int, int), b: (int, int)) -> bool {
    a.0 * b.1 < b.0 * a.1
}

/// The index of the first entry of the first `k` of `l` with the lowest
/// fraction `key`.
pub open spec fn first_best(l: Seq<(usize, usize)>, key: spec_fn((usize, usize)) -> (int, int), k: nat) -> int
    decreases k,
{
    if k <= 1 {
        0
    } else {
        let b = first_best(l, key, (k - 1) as nat);
        if less_likely(key(l[k - 1]), key(l[b])) {
            k - 1
        } else {
            b
        }
    }
}

/// Weight 1 for a computer flag (`which` 0), a player flag (1), or a
/// closed cell without the player's flag (2).
pub open spec fn weight(which: int, c: DuelCell) -> int {
    if which == 0 {
        if c.ai_flag {
            1
        } else {
            0
        }
    } else if which == 1 {
        if c.player_flag {
            1
        } else {
            0
        }
    } else if !c.revealed && !c.player_flag {
        1
    } else {
        0
    }
}

impl PvAiGame {
    /// The flags of both sides on the board.
    pub open spec fn flagged_total(self) -> int {
        grid_count(self.cells(), |c: DuelCell| weight(0, c)) + grid_count(self.cells(), |c: DuelCell| weight(1, c))
    }

    /// The closed cells without the player's flag.
    pub open spec fn hidden_total(self) -> int {
        grid_count(self.cells(), |c: DuelCell| weight(2, c))
    }

    /// The chance that `q` holds a mine, as a fraction: the average over
    /// the facts mentioning it of mines per cell; where none does, the
    /// unflagged mines left (never below zero) over the closed unflagged
    /// cells (at least one).
    pub open spec fn chance(self, fs: Seq<Fact>, q: (usize, usize)) -> (int, int) {
        let r = share_count(fs, q, fs.len());
        if r == 0 {
            let f = self.flagged_total();
            let h = self.hidden_total();
            (if self.mine_count >= f { self.mine_count - f } else { 0 }, if h > 1 { h } else { 1 })
        } else {
            (share_sum(fs, q, fs.len()), 840 * r)
        }
    }

    /// The cells the computer may open.
    pub open spec fn openable_marks(self) -> Seq<Seq<bool>> {
        Seq::new(self.height as nat, |j: int| Seq::new(self.width as nat, |i: int| self.openable(i, j)))
    }

    /// Whether `r` is a guess by the level's rule among the cells it may
    /// open, `l`: none exactly when there are none; on Easy any of them;
    /// on Medium the last with the most open neighbours; on Hard the first
    /// with the lowest chance of a mine.
    pub open spec fn guessed(self, l: Seq<(usize, usize)>, r: Option<(usize, usize)>) -> bool {
        match r {
            None => l.len() == 0,
            Some(q) => l.len() > 0 && l.contains(q) && match self.level {
                AiLevel::Easy => true,
                AiLevel::Medium => q == l[last_best(l, |p: (usize, usize)| self.open_key(p), l.len())],
                AiLevel::Hard => q == l[first_best(
                    l,
                    |p: (usize, usize)| self.chance(self.facts(blank(self.width as int, self.height as int)), p),
                    l.len(),
                )],
            },
        }
    }

    /// How many cells carry weight 1 under `which`.
    fn count_cells(&self, which: u8) -> (n: usize)
        requires
            self.wf_shape(),
        ensures
            n == grid_count(self.cells(), |c: DuelCell| weight(which as int, c)),
            n <= self.width * self.height,
    {
        let ghost g = self.cells();
        let ghost f = |c: DuelCell| weight(which as int, c);
        let ghost rf = |r: Seq<DuelCell>| sum(r.map_values(f));
        let w = self.width;
        let h = self.height;
        let mut n: usize = 0;
        let mut seen: usize = 0;
        for y in 0..h
            invariant
                self.wf_shape(),
                g == self.cells(),
                w == self.width,
                h == self.height,
                f == (|c: DuelCell| weight(which as int, c)),
                rf == (|r: Seq<DuelCell>| sum(r.map_values(f))),
                n == sum(g.take(y as int).map_values(rf)),
                n <= seen,
                seen == y * w,
        {
            let ghost base = n as int;
            assert(self.grid@[y as int]@.len() == w);
            assert(g[y as int] == self.grid@[y as int]@);
            for x in 0..w
                invariant
                    self.wf_shape(),
                    g == self.cells(),
                    w == self.width,
                    h == self.height,
                    y < h,
                    f == (|c: DuelCell| weight(which as int, c)),
                    g[y as int] == self.grid@[y as int]@,
                    g[y as int].len() == w,
                    n == base + sum(g[y as int].take(x as int).map_values(f)),
                    n <= seen,
                    seen == y * w + x,
            {
                assert(y * w + x + 1 <= h * w) by (nonlinear_arith)
                    requires
                        y < h,
                        x < w,
                ;
                let c = self.grid[y][x];
                assert(c == g[y as int][x as int]);
                let add = match which {
                    0 => c.ai_flag,
                    1 => c.player_flag,
                    _ => !c.revealed && !c.player_flag,
                };
                assert(g[y as int].take(x + 1).map_values(f) =~= g[y as int].take(x as int).map_values(f).push(f(c)));
                proof {
                    lemma_sum_push(g[y as int].take(x as int).map_values(f), f(c));
                }
                if add {
                    n = n + 1;
                }
                seen = seen + 1;
            }
            assert(g[y as int].take(w as int) =~= g[y as int]);
            assert(g.take(y + 1).map_values(rf) =~= g.take(y as int).map_values(rf).push(rf(g[y as int])));
            proof {
                lemma_sum_push(g.take(y as int).map_values(rf), rf(g[y as int]));
                assert(y * w + w == (y + 1) * w) by (nonlinear_arith);
            }
        }
        assert(g.take(h as int) =~= g);
        assert(h * w == w * h) by (nonlinear_arith);
        n
    }
}

/// Facts of `fs` are small.
pub open spec fn all_small(fs: Seq<Fact>) -> bool {
    forall|k: int| 0 <= k < fs.len() ==> small(#[trigger] fs[k])
}

/// Joining lists of small facts gives one.
pub proof fn lemma_small_add(a: Seq<Fact>, c: Seq<Fact>)
    requires
        all_small(a),
        all_small(c),
    ensures
        all_small(a + c),
{
    assert forall|k: int| 0 <= k < (a + c).len() implies small(#[trigger] (a + c)[k]) by {
        if k < a.len() {
            assert((a + c)[k] == a[k]);
        } else {
            assert((a + c)[k] == c[k - a.len()]);
        }
    }
}

impl PvAiGame {
    /// There are at most `k` unknown cells among `k` neighbours.
    pub proof fn lemma_unknown_len(self, v: Seq<Seq<bool>>, p: (int, int), k: nat)
        ensures
            self.unknown_around(v, p, k).len() <= k,
        decreases k,
    {
        if k > 0 {
            self.lemma_unknown_len(v, p, (k - 1) as nat);
        }
    }

    /// The facts of the first `n` cells of row `y` are small and at most `n`.
    pub proof fn lemma_row_small(self, v: Seq<Seq<bool>>, y: int, n: nat)
        requires
            self.wf_shape(),
            0 <= y < self.height,
            n <= self.width,
        ensures
            all_small(self.facts_in_row(v, y, n)),
            self.facts_in_row(v, y, n).len() <= n,
        decreases n,
    {
        if n > 0 {
            self.lemma_row_small(v, y, (n - 1) as nat);
            let o = self.fact_at(v, n - 1, y);
            if o is Some {
                self.lemma_unknown_len(v, (n - 1, y), 8);
                assert(self.cell(n - 1, y).adj <= 8);
                assert(nb_sum(|q: (int, int)| self.settled_one(v, q), (n - 1, y)) >= 0) by {
                    self.lemma_settled_nonneg(v, (n - 1, y), 8);
                }
                assert(opt_fact(o) == seq![o.unwrap()]);
                assert(all_small(opt_fact(o)));
            } else {
                assert(opt_fact(o) == Seq::<Fact>::empty());
            }
            lemma_small_add(self.facts_in_row(v, y, (n - 1) as nat), opt_fact(o));
        }
    }

    /// A partial count of settled neighbours is never negative.
    pub proof fn lemma_settled_nonneg(self, v: Seq<Seq<bool>>, p: (int, int), k: nat)
        ensures
            nb_partial(|q: (int, int)| self.settled_one(v, q), p, k) >= 0,
        decreases k,
    {
        if k > 0 {
            self.lemma_settled_nonneg(v, p, (k - 1) as nat);
        }
    }

    /// The facts of the first `n` rows are small and at most `n` rows' worth.
    pub proof fn lemma_facts_small(self, v: Seq<Seq<bool>>, n: nat)
        requires
            self.wf_shape(),
            n <= self.height,
        ensures
            all_small(self.facts_upto(v, n)),
            self.facts_upto(v, n).len() <= n * self.width,
        decreases n,
    {
        if n > 0 {
            self.lemma_facts_small(v, (n - 1) as nat);
            self.lemma_row_small(v, n - 1, self.width as nat);
            lemma_small_add(self.facts_upto(v, (n - 1) as nat), self.facts_in_row(v, n - 1, self.width as nat));
            assert((n - 1) * self.width + self.width == n * self.width) by (nonlinear_arith);
        }
    }
}

/// Bounds of the shares of small facts.
pub proof fn lemma_share_bounds(fs: Seq<Fact>, q: (usize, usize), k: nat)
    requires
        all_small(fs),
        k <= fs.len(),
    ensures
        0 <= share_sum(fs, q, k) <= 6720 * k,
        0 <= share_count(fs, q, k) <= k,
    decreases k,
{
    if k > 0 {
        lemma_share_bounds(fs, q, (k - 1) as nat);
        let f = fs[k - 1];
        assert(small(f));
        let n = f.cells.len() as int;
        assert(0 <= 840int / n <= 840) by (nonlinear_arith)
            requires
                1 <= n <= 8,
        ;
        assert(0 <= f.mines * (840int / n) <= 6720) by (nonlinear_arith)
            requires
                0 <= f.mines <= 8,
                0 <= 840int / n <= 840,
        ;
    }
}

impl PvAiGame {
    /// The chance of `q` for the board's facts `cs`, given the flag and
    /// closed-cell totals.
    fn chance_of(&self, cs: &Vec<Constraint>, q: (usize, usize), flagged: usize, hidden: usize) -> (r: (u128, u128))
        requires
            self.wf_shape(),
            all_small(facts_of(cs@)),
            cs@.len() <= self.width * self.height,
            flagged == self.flagged_total(),
            hidden == self.hidden_total(),
            hidden <= self.width * self.height,
        ensures
            (r.0 as int, r.1 as int) == self.chance(facts_of(cs@), q),
            r.0 < 0x1_0000_0000_0000_0000,
            0 < r.1 <= 840 * 0x0fff_ffff,
    {
        let ghost fs = facts_of(cs@);
        let mut num: u128 = 0;
        let mut cnt: u128 = 0;
        for k in 0..cs.len()
            invariant
                fs == facts_of(cs@),
                all_small(fs),
                cs@.len() <= self.width * self.height,
                self.wf_shape(),
                num == share_sum(fs, q, k as nat),
                cnt == share_count(fs, q, k as nat),
        {
            proof {
                lemma_share_bounds(fs, q, (k + 1) as nat);
                assert(k + 1 <= 0x0fff_ffff);
            }
            let c = &cs[k];
            assert(c.fact() == fs[k as int]);
            if has_pos(&c.cells, q) {
                let n = c.cells.len();
                assert(small(fs[k as int]));
                let part = (c.mines as u128) * (840 / (n as u128));
                assert(part == share(fs[k as int]));
                num = num + part;
                cnt = cnt + 1;
            }
        }
        proof {
            lemma_share_bounds(fs, q, fs.len());
        }
        if cnt == 0 {
            let left: u128 = if self.mine_count >= flagged {
                (self.mine_count - flagged) as u128
            } else {
                0
            };
            let den: u128 = if hidden > 1 {
                hidden as u128
            } else {
                1
            };
            (left, den)
        } else {
            (num, 840 * cnt)
        }
    }

    /// The first cell of `l` with the lowest chance under facts `cs`.
    fn least_likely(&self, l: &Vec<(usize, usize)>, cs: &Vec<Constraint>, flagged: usize, hidden: usize) -> (r: usize)
        requires
            self.wf_shape(),
            l@.len() > 0,
            all_small(facts_of(cs@)),
            cs@.len() <= self.width * self.height,
            flagged == self.flagged_total(),
            hidden == self.hidden_total(),
            hidden <= self.width * self.height,
        ensures
            r == first_best(l@, |p: (usize, usize)| self.chance(facts_of(cs@), p), l@.len()),
            r < l@.len(),
    {
        let ghost key = |p: (usize, usize)| self.chance(facts_of(cs@), p);
        let mut b: usize = 0;
        let mut bk = self.chance_of(cs, l[0], flagged, hidden);
        for k in 1..l.len()
            invariant
                self.wf_shape(),
                l@.len() > 0,
                all_small(facts_of(cs@)),
                cs@.len() <= self.width * self.height,
                flagged == self.flagged_total(),
                hidden == self.hidden_total(),
                hidden <= self.width * self.height,
                key == (|p: (usize, usize)| self.chance(facts_of(cs@), p)),
                b < k,
                b == first_best(l@, key, k as nat),
                (bk.0 as int, bk.1 as int) == key(l@[b as int]),
                bk.0 < 0x1_0000_0000_0000_0000,
                0 < bk.1 <= 840 * 0x0fff_ffff,
        {
            let v = self.chance_of(cs, l[k], flagged, hidden);
            assert(v.0 * bk.1 < 0x1_0000_0000_0000_0000 * (840 * 0x0fff_ffff)) by (nonlinear_arith)
                requires
                    v.0 < 0x1_0000_0000_0000_0000,
                    bk.1 <= 840 * 0x0fff_ffff,
            ;
            assert(bk.0 * v.1 < 0x1_0000_0000_0000_0000 * (840 * 0x0fff_ffff)) by (nonlinear_arith)
                requires
                    bk.0 < 0x1_0000_0000_0000_0000,
                    v.1 <= 840 * 0x0fff_ffff,
            ;
            if v.0 * bk.1 < bk.0 * v.1 {
                b = k;
                bk = v;
            }
        }
        b
    }

    /// The cells the computer may open, as a grid.
    fn openable_grid(&self) -> (b: Vec<Vec<bool>>)
        requires
            self.wf_shape(),
        ensures
            marks(b@) == self.openable_marks(),
    {
        let ghost want = self.openable_marks();
        let mut b: Vec<Vec<bool>> = Vec::new();
        for y in 0..self.height
            invariant
                self.wf_shape(),
                want == self.openable_marks(),
                marks(b@) == want.take(y as int),
        {
            let mut row: Vec<bool> = Vec::new();
            assert(self.grid@[y as int]@.len() == self.width);
            for x in 0..self.width
                invariant
                    self.wf_shape(),
                    want == self.openable_marks(),
                    y < self.height,
                    self.grid@[y as int]@.len() == self.width,
                    row@ == want[y as int].take(x as int),
            {
                let c = self.grid[y][x];
                assert(c == self.cell(x as int, y as int));
                row.push(!c.revealed && !c.player_flag && !c.ai_flag);
                assert(row@ =~= want[y as int].take(x + 1));
            }
            assert(row@ =~= want[y as int]);
            let ghost before = marks(b@);
            b.push(row);
            assert(marks(b@) =~= before.push(row@));
            assert(before.push(row@) =~= want.take(y + 1));
        }
        assert(want.take(self.height as int) =~= want);
        b
    }

    /// The computer's guess when it knows no safe cell, as `guessed` says
    /// of the cells it may open in scan order.
    pub fn pick_guess(&self) -> (r: Option<(usize, usize)>)
        requires
            self.wf_shape(),
        ensures
            self.guessed(listed(self.openable_marks(), self.width as nat, self.height as nat), r),
    {
        let grid = self.openable_grid();
        let l = list_marked(&grid, self.width, self.height);
        proof {
            lemma_listed_inside(marks(grid@), self.width as nat, self.height as nat);
        }
        if l.len() == 0 {
            return None;
        }
        match self.level {
            AiLevel::Easy => {
                let i = random_below(l.len());
                assert(l@[i as int] == l@[i as int]);
                Some(l[i])
            },
            AiLevel::Medium => {
                let i = self.best_index(&l, false);
                assert(l@[i as int] == l@[i as int]);
                Some(l[i])
            },
            AiLevel::Hard => {
                let virt = blank_grid(self.width, self.height);
                let cs = self.build_constraints_with(&virt);
                proof {
                    self.lemma_facts_small(marks(virt@), self.height as nat);
                    assert(self.height * self.width == self.width * self.height) by (nonlinear_arith);
                }
                let flagged = self.count_cells(0) + self.count_cells(1);
                let hidden = self.count_cells(2);
                let i = self.least_likely(&l, &cs, flagged, hidden);
                assert(l@[i as int] == l@[i as int]);
                Some(l[i])
            },
        }
    }
}

impl PvAiGame {
    /// 1 where `q` is on the board and carries the computer's flag or is
    /// marked in `d` as a mine.
    pub open spec fn covered_one(self, d: Seq<Seq<bool>>, q: (int, int)) -> int {
        if self.in_bounds(q.0, q.1) && (self.cell(q.0, q.1).ai_flag || d[q.1][q.0]) {
            1
        } else {
            0
        }
    }

    /// 1 where `q` is on the board, closed, flagged by neither side and not
    /// marked in `d`.
    pub open spec fn free_one(self, d: Seq<Seq<bool>>, q: (int, int)) -> int {
        if self.in_bounds(q.0, q.1) && self.openable(q.0, q.1) && !d[q.1][q.0] {
            1
        } else {
            0
        }
    }

    /// The computer can chord on (`x`, `y`) with the mines `d` it knows: an
    /// open safe number whose mines are all flagged by it or known, with a
    /// free neighbour left.
    pub open spec fn ai_chord_at(self, d: Seq<Seq<bool>>, x: int, y: int) -> bool {
        let c = self.cell(x, y);
        &&& c.revealed
        &&& !c.is_mine
        &&& c.adj != 0
        &&& nb_sum(|q: (int, int)| self.covered_one(d, q), (x, y)) == c.adj
        &&& nb_sum(|q: (int, int)| self.free_one(d, q), (x, y)) > 0
    }

    /// (`x`, `y`) is the first cell in scan order the computer can chord on.
    pub open spec fn first_ai_chord(self, d: Seq<Seq<bool>>, x: int, y: int) -> bool {
        &&& self.in_bounds(x, y)
        &&& self.ai_chord_at(d, x, y)
        &&& forall|i: int, j: int|
            self.in_bounds(i, j) && (j < y || (j == y && i < x)) ==> !#[trigger] self.ai_chord_at(d, i, j)
    }

    /// No cell lets the computer chord.
    pub open spec fn no_ai_chord(self, d: Seq<Seq<bool>>) -> bool {
        forall|i: int, j: int| self.in_bounds(i, j) ==> !#[trigger] self.ai_chord_at(d, i, j)
    }

    /// The computer's flags and known mines, and the free cells, around
    /// (`x`, `y`).
    fn chord_counts(&self, d: &Vec<Vec<bool>>, x: usize, y: usize) -> (r: (u8, u8))
        requires
            self.wf_shape(),
            shaped(marks(d@), self.width as int, self.height as int),
            x < self.width,
            y < self.height,
        ensures
            r.0 == nb_sum(|q: (int, int)| self.covered_one(marks(d@), q), (x as int, y as int)),
            r.1 == nb_sum(|q: (int, int)| self.free_one(marks(d@), q), (x as int, y as int)),
    {
        let ghost v = marks(d@);
        let ghost p = (x as int, y as int);
        let mut cov: u8 = 0;
        let mut free: u8 = 0;
        for k in 0..8usize
            invariant
                self.wf_shape(),
                shaped(v, self.width as int, self.height as int),
                v == marks(d@),
                x < self.width,
                y < self.height,
                p == (x as int, y as int),
                cov == nb_partial(|q: (int, int)| self.covered_one(v, q), p, k as nat),
                free == nb_partial(|q: (int, int)| self.free_one(v, q), p, k as nat),
                cov <= k,
                free <= k,
        {
            match neighbor_of(self.width, self.height, x, y, k) {
                Some((nx, ny)) => {
                    assert(self.grid@[ny as int]@.len() == self.width);
                    assert(v[ny as int].len() == self.width);
                    assert(d@[ny as int]@ == v[ny as int]);
                    let c = self.grid[ny][nx];
                    let known = d[ny][nx];
                    if c.ai_flag || known {
                        cov = cov + 1;
                    }
                    if !c.revealed && !c.player_flag && !c.ai_flag && !known {
                        free = free + 1;
                    }
                },
                None => {},
            }
        }
        (cov, free)
    }

    /// The first cell in scan order the computer can chord on, if any.
    pub fn find_chord(&self, d: &Vec<Vec<bool>>) -> (r: Option<(usize, usize)>)
        requires
            self.wf_shape(),
            shaped(marks(d@), self.width as int, self.height as int),
        ensures
            match r {
                Some(p) => self.first_ai_chord(marks(d@), p.0 as int, p.1 as int),
                None => self.no_ai_chord(marks(d@)),
            },
    {
        let ghost v = marks(d@);
        for y in 0..self.height
            invariant
                self.wf_shape(),
                shaped(v, self.width as int, self.height as int),
                v == marks(d@),
                forall|i: int, j: int| self.in_bounds(i, j) && j < y ==> !#[trigger] self.ai_chord_at(v, i, j),
        {
            assert(self.grid@[y as int]@.len() == self.width);
            for x in 0..self.width
                invariant
                    self.wf_shape(),
                    shaped(v, self.width as int, self.height as int),
                    v == marks(d@),
                    y < self.height,
                    self.grid@[y as int]@.len() == self.width,
                    forall|i: int, j: int|
                        self.in_bounds(i, j) && (j < y || (j == y && i < x)) ==> !#[trigger] self.ai_chord_at(v, i, j),
            {
                let c = self.grid[y][x];
                assert(c == self.cell(x as int, y as int));
                if c.revealed && !c.is_mine && c.adj != 0 {
                    let (cov, free) = self.chord_counts(d, x, y);
                    if cov == c.adj && free > 0 {
                        return Some((x, y));
                    }
                }
            }
        }
        None
    }

    /// The computer opening the first `k` neighbours of `p` of board `c` in
    /// turn, each one only if it is still openable and not known to be a
    /// mine, stopping once the game is over.
    pub open spec fn ai_run(self, c: Seq<Seq<DuelCell>>, st: PvAiState, p: (int, int), k: int, d: Seq<Seq<bool>>) -> (Seq<Seq<DuelCell>>, PvAiState)
        decreases k,
    {
        if k <= 0 {
            (c, st)
        } else {
            let r = self.ai_run(c, st, p, k - 1, d);
            let q = nb(p, k - 1);
            if r.1 == PvAiState::Playing && inside(self.width as int, self.height as int, q) && openable_at(r.0, q)
                && !d[q.1][q.0] {
                (self.open_on(r.0, q, Owner::Ai), if r.0[q.1][q.0].is_mine { PvAiState::PlayerWon } else { PvAiState::Playing })
            } else {
                r
            }
        }
    }
}

/// Once the computer's chord has ended the game, the remaining neighbours
/// change nothing.
pub proof fn lemma_ai_run_stays(g: PvAiGame, c: Seq<Seq<DuelCell>>, p: (int, int), k: int, kk: int, d: Seq<Seq<bool>>)
    requires
        0 <= k <= kk,
        g.ai_run(c, PvAiState::Playing, p, k, d).1 != PvAiState::Playing,
    ensures
        g.ai_run(c, PvAiState::Playing, p, kk, d) == g.ai_run(c, PvAiState::Playing, p, k, d),
    decreases kk - k,
{
    if kk > k {
        lemma_ai_run_stays(g, c, p, k, kk - 1, d);
    }
}

/// Games of the same size chord alike.
pub proof fn lemma_ai_run_same(a: PvAiGame, b: PvAiGame, c: Seq<Seq<DuelCell>>, st: PvAiState, p: (int, int), k: int, d: Seq<Seq<bool>>)
    requires
        a.width == b.width,
        a.height == b.height,
    ensures
        a.ai_run(c, st, p, k, d) == b.ai_run(c, st, p, k, d),
    decreases k,
{
    if k > 0 {
        lemma_ai_run_same(a, b, c, st, p, k - 1, d);
        let r = a.ai_run(c, st, p, k - 1, d);
        lemma_open_on_same(a, b, r.0, nb(p, k - 1), Owner::Ai);
    }
}

impl PvAiGame {
    /// The computer's chord on (`x`, `y`) with known mines `d`: the
    /// neighbours are opened in scan order as `ai_run` says.
    pub fn do_chord(&mut self, x: usize, y: usize, d: &Vec<Vec<bool>>)
        requires
            old(self).wf(),
            old(self).state == PvAiState::Playing,
            shaped(marks(d@), old(self).width as int, old(self).height as int),
            x < old(self).width,
            y < old(self).height,
        ensures
            final(self).wf(),
            (final(self).cells(), final(self).state) == old(self).ai_run(
                old(self).cells(),
                PvAiState::Playing,
                (x as int, y as int),
                8,
                marks(d@),
            ),
            *final(self) == (PvAiGame {
                grid: final(self).grid,
                state: final(self).state,
                player_score: final(self).player_score,
                ai_score: final(self).ai_score,
                ..*old(self)
            }),
            old(self).flags_kept(*final(self)),
    {
        let ghost g0 = *self;
        let ghost p = (x as int, y as int);
        let ghost v = marks(d@);
        for k in 0..8usize
            invariant
                self.wf(),
                *self == (PvAiGame {
                    grid: self.grid,
                    state: self.state,
                    player_score: self.player_score,
                    ai_score: self.ai_score,
                    ..g0
                }),
                x < g0.width,
                y < g0.height,
                p == (x as int, y as int),
                v == marks(d@),
                shaped(v, g0.width as int, g0.height as int),
                g0.state == PvAiState::Playing,
                g0 == *old(self),
                self.state == PvAiState::Playing,
                (self.cells(), self.state) == g0.ai_run(g0.cells(), PvAiState::Playing, p, k as int, v),
                g0.flags_kept(*self),
        {
            match neighbor_of(self.width, self.height, x, y, k) {
                Some((nx, ny)) => {
                    assert(self.grid@[ny as int]@.len() == self.width);
                    assert(v[ny as int].len() == self.width);
                    assert(d@[ny as int]@ == v[ny as int]);
                    let nc = self.grid[ny][nx];
                    assert(nc == self.cells()[ny as int][nx as int]);
                    if !nc.revealed && !nc.player_flag && !nc.ai_flag && !d[ny][nx] {
                        let ghost before = *self;
                        self.reveal_cell(nx, ny, Owner::Ai);
                        proof {
                            lemma_open_on_same(before, g0, before.cells(), nb(p, k as int), Owner::Ai);
                        }
                        if !matches!(self.state, PvAiState::Playing) {
                            proof {
                                assert forall|kk: int| k + 1 <= kk <= 8 implies #[trigger] g0.ai_run(
                                    g0.cells(),
                                    PvAiState::Playing,
                                    p,
                                    kk,
                                    v,
                                ) == g0.ai_run(g0.cells(), PvAiState::Playing, p, k + 1, v) by {
                                    lemma_ai_run_stays(g0, g0.cells(), p, k + 1, kk, v);
                                }
                            }
                            return;
                        }
                    }
                },
                None => {},
            }
        }
    }
}

/// A move of the computer.
#[derive(Clone, Copy, Debug, PartialEq, Eq, Structural)]
pub enum AiMove {
    /// Chord on an open number, opening its free neighbours.
    Chord(usize, usize),
    /// Open one cell.
    Open(usize, usize),
}

impl PvAiGame {
    /// Whether `m` is the computer's move by its rules: a chord on the
    /// first cell that allows one with the mines it deduces; else opening a
    /// safe cell it deduces, chosen as `picked` says; else a guess as
    /// `guessed` says; no move when there is nothing to open.
    pub open spec fn ai_picks(self, m: Option<AiMove>) -> bool {
        let dd = self.deductions();
        let safe = listed(dd.0, self.width as nat, self.height as nat);
        let cands = listed(self.openable_marks(), self.width as nat, self.height as nat);
        match m {
            Some(AiMove::Chord(x, y)) => self.first_ai_chord(dd.1, x as int, y as int),
            Some(AiMove::Open(x, y)) => self.no_ai_chord(dd.1) && if safe.len() > 0 {
                self.picked(safe, Some((x, y)))
            } else {
                self.guessed(cands, Some((x, y)))
            },
            None => self.no_ai_chord(dd.1) && safe.len() == 0 && cands.len() == 0,
        }
    }

    /// What move `m` makes of this game, given the game `f` after it: a
    /// chord runs as `ai_run` says and, unless that ended the game, the win
    /// is checked; opening a cell opens it for the computer, a mine handing
    /// the player the win, and the win is checked; no move changes nothing.
    pub open spec fn moved(self, m: Option<AiMove>, f: PvAiGame) -> bool {
        match m {
            None => f == self,
            Some(AiMove::Chord(x, y)) => {
                let r = self.ai_run(self.cells(), PvAiState::Playing, (x as int, y as int), 8, self.deductions().1);
                &&& f.cells() == r.0
                &&& f.state == if r.1 == PvAiState::Playing {
                    after_check(r.1, r.0, f.player_score as int, f.ai_score as int)
                } else {
                    r.1
                }
            },
            Some(AiMove::Open(x, y)) => {
                &&& f.cells() == self.opened_by((x as int, y as int), Owner::Ai)
                &&& f.state == after_check(
                    if self.cell(x as int, y as int).is_mine {
                        PvAiState::PlayerWon
                    } else {
                        PvAiState::Playing
                    },
                    f.cells(),
                    f.player_score as int,
                    f.ai_score as int,
                )
            },
        }
    }

    /// The computer's move and the mines it deduces.
    fn plan(&self) -> (r: (Option<AiMove>, Vec<Vec<bool>>))
        requires
            self.wf_shape(),
        ensures
            self.ai_picks(r.0),
            marks(r.1@) == self.deductions().1,
            match r.0 {
                Some(AiMove::Chord(x, y)) => x < self.width && y < self.height,
                Some(AiMove::Open(x, y)) => x < self.width && y < self.height && self.openable(x as int, y as int),
                None => true,
            },
    {
        let (safe, mines) = self.solve();
        let ghost dd = self.deductions();
        assert(shaped(dd.1, self.width as int, self.height as int));
        assert(shaped(dd.0, self.width as int, self.height as int));
        match self.find_chord(&mines) {
            Some((x, y)) => {
                return (Some(AiMove::Chord(x, y)), mines);
            },
            None => {},
        }
        let ghost sl = listed(dd.0, self.width as nat, self.height as nat);
        proof {
            lemma_listed_inside(dd.0, self.width as nat, self.height as nat);
            lemma_listed_inside(self.openable_marks(), self.width as nat, self.height as nat);
        }
        match self.pick_safe(&safe) {
            Some((x, y)) => {
                proof {
                    let t = choose|t: int| 0 <= t < sl.len() && sl[t] == (x, y);
                    assert(sl[t] == (x, y));
                }
                return (Some(AiMove::Open(x, y)), mines);
            },
            None => {},
        }
        match self.pick_guess() {
            Some((x, y)) => {
                proof {
                    let cl = listed(self.openable_marks(), self.width as nat, self.height as nat);
                    let t = choose|t: int| 0 <= t < cl.len() && cl[t] == (x, y);
                    assert(cl[t] == (x, y));
                }
                (Some(AiMove::Open(x, y)), mines)
            },
            None => (None, mines),
        }
    }

    /// The computer's move by its rules, as `ai_picks` says.
    pub fn ai_move(&self) -> (m: Option<AiMove>)
        requires
            self.wf_shape(),
        ensures
            self.ai_picks(m),
    {
        self.plan().0
    }

    /// The computer's turn while play is on: it makes its move, as
    /// `ai_picks` and `moved` say.
    pub fn ai_turn(&mut self)
        requires
            old(self).wf(),
        ensures
            final(self).wf(),
            old(self).state != PvAiState::Playing ==> *final(self) == *old(self),
            old(self).state == PvAiState::Playing ==> exists|m: Option<AiMove>|
                old(self).ai_picks(m) && #[trigger] old(self).moved(m, *final(self)),
            old(self).flags_kept(*final(self)),
            *final(self) == (PvAiGame {
                grid: final(self).grid,
                state: final(self).state,
                player_score: final(self).player_score,
                ai_score: final(self).ai_score,
                ..*old(self)
            }),
    {
        let ghost g0 = *self;
        if !matches!(self.state, PvAiState::Playing) {
            return;
        }
        let (m, mines) = self.plan();
        match m {
            Some(AiMove::Chord(x, y)) => {
                self.do_chord(x, y, &mines);
                let ghost s1 = *self;
                self.check_win();
                proof {
                    assert forall|i: int, j: int| g0.in_bounds(i, j) implies (#[trigger] self.cell(i, j)).player_flag
                        == g0.cell(i, j).player_flag && self.cell(i, j).ai_flag == g0.cell(i, j).ai_flag by {
                        assert(self.cell(i, j) == s1.cell(i, j));
                    }
                }
                assert(g0.moved(m, *self));
            },
            Some(AiMove::Open(x, y)) => {
                self.reveal_cell(x, y, Owner::Ai);
                let ghost s1 = *self;
                self.check_win();
                proof {
                    assert forall|i: int, j: int| g0.in_bounds(i, j) implies (#[trigger] self.cell(i, j)).player_flag
                        == g0.cell(i, j).player_flag && self.cell(i, j).ai_flag == g0.cell(i, j).ai_flag by {
                        assert(self.cell(i, j) == s1.cell(i, j));
                    }
                }
                assert(g0.moved(m, *self));
            },
            None => {
                assert(g0.moved(m, *self));
            },
        }
    }
}

} // verus!

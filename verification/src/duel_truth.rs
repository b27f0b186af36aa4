//! Why the computer's deductions can be trusted: when every flag on the
//! duel board lies on a mine, no open cell holds one and every open number
//! counts the mines around it, each cell it marks safe holds no mine and
//! each cell it marks as a mine holds one.

use vstd::prelude::*;
use crate::cascade::nb;
use crate::display::{nb_partial, nb_sum};
use crate::duel_ai::{
    Fact, covers, without, derive_fact, shaped, decides, marks_cell, marked, apply, opt_fact, derived_with,
    derived_upto, derived, deeper, blank,
};
use crate::pvai::PvAiGame;

verus! {

broadcast use {vstd::set::group_set_axioms, vstd::seq_lib::seq_to_set_is_finite};

impl PvAiGame {
    /// 1 where the listed position is on the board and holds a mine.
    pub open spec fn mine_at_pos(self, q: (usize, usize)) -> int {
        self.mine_here((q.0 as int, q.1 as int))
    }

    /// The listed positions that hold a mine, as a test.
    pub open spec fn mine_test(self) -> spec_fn((usize, usize)) -> bool {
        |q: (usize, usize)| self.mine_at_pos(q) == 1
    }

    /// The mines among the listed cells, each listing counted.
    pub open spec fn mines_in(self, s: Seq<(usize, usize)>) -> int
        decreases s.len(),
    {
        if s.len() == 0 {
            0
        } else {
            self.mines_in(s.drop_last()) + self.mine_at_pos(s.last())
        }
    }

    /// Fact `f` is true of the board: its cells are listed once each and
    /// hold exactly its number of mines.
    pub open spec fn holds(self, f: Fact) -> bool {
        f.cells.no_duplicates() && self.mines_in(f.cells) == f.mines
    }

    /// Every fact of `fs` is true of the board.
    pub open spec fn all_hold(self, fs: Seq<Fact>) -> bool {
        forall|k: int| 0 <= k < fs.len() ==> self.holds(#[trigger] fs[k])
    }

    /// Both grids have the board's shape; every cell marked in the first
    /// holds no mine and every cell marked in the second holds one.
    pub open spec fn marks_true(self, sm: (Seq<Seq<bool>>, Seq<Seq<bool>>)) -> bool {
        &&& shaped(sm.0, self.width as int, self.height as int)
        &&& shaped(sm.1, self.width as int, self.height as int)
        &&& forall|i: int, j: int| self.in_bounds(i, j) && #[trigger] sm.0[j][i] ==> !self.cell(i, j).is_mine
        &&& forall|i: int, j: int| self.in_bounds(i, j) && #[trigger] sm.1[j][i] ==> self.cell(i, j).is_mine
    }

    /// What the computer sees is true: every flag of either side lies on a
    /// mine, no open cell holds a mine, and every open cell's number counts
    /// the mines around it.
    pub open spec fn board_honest(self) -> bool {
        &&& forall|i: int, j: int|
            self.in_bounds(i, j) && ((#[trigger] self.cell(i, j)).player_flag || self.cell(i, j).ai_flag) ==> self.cell(
                i,
                j,
            ).is_mine
        &&& forall|i: int, j: int| self.in_bounds(i, j) && (#[trigger] self.cell(i, j)).revealed ==> !self.cell(i, j).is_mine
        &&& forall|i: int, j: int|
            self.in_bounds(i, j) && (#[trigger] self.cell(i, j)).revealed ==> self.cell(i, j).adj == nb_sum(
                |q: (int, int)| self.mine_here(q),
                (i, j),
            )
    }
}

/// Facts that all hold, put together, all hold.
pub proof fn lemma_all_hold_add(g: PvAiGame, a: Seq<Fact>, c: Seq<Fact>)
    requires
        g.all_hold(a),
        g.all_hold(c),
    ensures
        g.all_hold(a + c),
{
    assert forall|k: int| 0 <= k < (a + c).len() implies g.holds(#[trigger] (a + c)[k]) by {
        if k < a.len() {
            assert((a + c)[k] == a[k]);
        } else {
            assert((a + c)[k] == c[k - a.len()]);
        }
    }
}

/// Marking with true facts keeps the marks true.
pub proof fn lemma_apply_true(g: PvAiGame, fs: Seq<Fact>, sm: (Seq<Seq<bool>>, Seq<Seq<bool>>))
    requires
        g.marks_true(sm),
        g.all_hold(fs),
    ensures
        g.marks_true(apply(fs, sm)),
{
    let r = apply(fs, sm);
    assert forall|i: int, j: int| g.in_bounds(i, j) && #[trigger] r.0[j][i] implies !g.cell(i, j).is_mine by {
        if !sm.0[j][i] {
            let q = (i as usize, j as usize);
            assert(marks_cell(fs, q, false));
            let k = choose|k: int| 0 <= k < fs.len() && decides(#[trigger] fs[k], false) && fs[k].cells.contains(q);
            assert(g.holds(fs[k]));
            lemma_mines_in_ends(g, fs[k].cells);
            let t = choose|t: int| 0 <= t < fs[k].cells.len() && fs[k].cells[t] == q;
            assert(g.mine_at_pos(fs[k].cells[t]) == 0);
        }
    }
    assert forall|i: int, j: int| g.in_bounds(i, j) && #[trigger] r.1[j][i] implies g.cell(i, j).is_mine by {
        if !sm.1[j][i] {
            let q = (i as usize, j as usize);
            assert(marks_cell(fs, q, true));
            let k = choose|k: int| 0 <= k < fs.len() && decides(#[trigger] fs[k], true) && fs[k].cells.contains(q);
            assert(g.holds(fs[k]));
            lemma_mines_in_ends(g, fs[k].cells);
            let t = choose|t: int| 0 <= t < fs[k].cells.len() && fs[k].cells[t] == q;
            assert(g.mine_at_pos(fs[k].cells[t]) == 1);
        }
    }
}

/// What fact `i` gives with later facts below `n` is true when all facts are.
pub proof fn lemma_derived_with_hold(g: PvAiGame, fs: Seq<Fact>, i: int, n: nat)
    requires
        g.all_hold(fs),
        0 <= i < fs.len(),
        n <= fs.len(),
    ensures
        g.all_hold(derived_with(fs, i, n)),
    decreases n,
{
    if n > 0 {
        lemma_derived_with_hold(g, fs, i, (n - 1) as nat);
        if i < n - 1 {
            let o = derive_fact(fs[i], fs[n - 1]);
            if o is Some {
                assert(g.holds(fs[i]) && g.holds(fs[n - 1]));
                lemma_derive_holds(g, fs[i], fs[n - 1]);
                assert(opt_fact(o) == seq![o.unwrap()]);
            } else {
                assert(opt_fact(o) =~= Seq::<Fact>::empty());
            }
            assert(g.all_hold(opt_fact(o)));
            lemma_all_hold_add(g, derived_with(fs, i, (n - 1) as nat), opt_fact(o));
        }
    }
}

/// What pairs of true facts give is true.
pub proof fn lemma_derived_upto_hold(g: PvAiGame, fs: Seq<Fact>, n: nat)
    requires
        g.all_hold(fs),
        n <= fs.len(),
    ensures
        g.all_hold(derived_upto(fs, n)),
    decreases n,
{
    if n > 0 {
        lemma_derived_upto_hold(g, fs, (n - 1) as nat);
        lemma_derived_with_hold(g, fs, n - 1, fs.len());
        lemma_all_hold_add(g, derived_upto(fs, (n - 1) as nat), derived_with(fs, n - 1, fs.len()));
    }
}

/// Further passes with true facts keep the marks true.
pub proof fn lemma_deeper_true(g: PvAiGame, fs: Seq<Fact>, sm: (Seq<Seq<bool>>, Seq<Seq<bool>>), n: nat)
    requires
        g.marks_true(sm),
        g.all_hold(fs),
    ensures
        g.marks_true(deeper(fs, sm, n)),
    decreases n,
{
    if n > 0 {
        let d = derived(fs);
        lemma_derived_upto_hold(g, fs, fs.len());
        lemma_apply_true(g, d, sm);
        lemma_all_hold_add(g, fs, d);
        lemma_deeper_true(g, fs + d, apply(d, sm), (n - 1) as nat);
    }
}

/// A count of listed mines lies between none and all, and at either end
/// says what each listed cell holds.
pub proof fn lemma_mines_in_ends(g: PvAiGame, s: Seq<(usize, usize)>)
    ensures
        0 <= g.mines_in(s) <= s.len(),
        g.mines_in(s) == 0 ==> forall|i: int| 0 <= i < s.len() ==> g.mine_at_pos(#[trigger] s[i]) == 0,
        g.mines_in(s) == s.len() ==> forall|i: int| 0 <= i < s.len() ==> g.mine_at_pos(#[trigger] s[i]) == 1,
    decreases s.len(),
{
    if s.len() > 0 {
        lemma_mines_in_ends(g, s.drop_last());
        assert forall|i: int| 0 <= i < s.len() - 1 implies #[trigger] s[i] == s.drop_last()[i] by {}
    }
}

/// For cells listed once each, the count is the number of mined cells in
/// the set of them.
pub proof fn lemma_mines_in_set(g: PvAiGame, s: Seq<(usize, usize)>)
    requires
        s.no_duplicates(),
    ensures
        g.mines_in(s) == s.to_set().filter(g.mine_test()).len(),
    decreases s.len(),
{
    if s.len() == 0 {
        assert(s.to_set().filter(g.mine_test()) =~= Set::empty());
    } else {
        let t = s.drop_last();
        let x = s.last();
        assert(t.no_duplicates()) by {
            assert forall|i: int, j: int| 0 <= i < t.len() && 0 <= j < t.len() && i != j implies t[i] != t[j] by {
                assert(t[i] == s[i] && t[j] == s[j]);
            }
        }
        lemma_mines_in_set(g, t);
        assert(!t.to_set().contains(x)) by {
            if t.contains(x) {
                let i = choose|i: int| 0 <= i < t.len() && t[i] == x;
                assert(s[i] == s[s.len() - 1]);
            }
        }
        assert(s.to_set() =~= t.to_set().insert(x)) by {
            assert forall|q: (usize, usize)| s.contains(q) implies t.contains(q) || q == x by {
                let i = choose|i: int| 0 <= i < s.len() && s[i] == q;
                if i < s.len() - 1 {
                    assert(t[i] == q);
                }
            }
            assert forall|q: (usize, usize)| t.contains(q) implies s.contains(q) by {
                let i = choose|i: int| 0 <= i < t.len() && t[i] == q;
                assert(s[i] == q);
            }
            assert(s[s.len() - 1] == x);
        }
        let ft = t.to_set().filter(g.mine_test());
        if g.mine_at_pos(x) == 1 {
            assert(s.to_set().filter(g.mine_test()) =~= ft.insert(x));
        } else {
            assert(s.to_set().filter(g.mine_test()) =~= ft);
        }
    }
}

/// The cells left after removing are those of the first list not in the
/// second, each once if the first list has no repeats.
pub proof fn lemma_without_cells(s: Seq<(usize, usize)>, r: Seq<(usize, usize)>)
    ensures
        forall|q: (usize, usize)| #[trigger] without(s, r).contains(q) <==> s.contains(q) && !r.contains(q),
        s.no_duplicates() ==> without(s, r).no_duplicates(),
    decreases s.len(),
{
    if s.len() > 0 {
        let t0 = s.drop_last();
        lemma_without_cells(t0, r);
        let t = without(t0, r);
        assert forall|q: (usize, usize)| s.contains(q) <==> t0.contains(q) || q == s.last() by {
            if s.contains(q) {
                let i = choose|i: int| 0 <= i < s.len() && s[i] == q;
                if i < s.len() - 1 {
                    assert(t0[i] == q);
                }
            }
            if t0.contains(q) {
                let i = choose|i: int| 0 <= i < t0.len() && t0[i] == q;
                assert(s[i] == q);
            }
            assert(s[s.len() - 1] == s.last());
        }
        if !r.contains(s.last()) {
            assert forall|q: (usize, usize)| #[trigger] t.push(s.last()).contains(q) <==> t.contains(q) || q == s.last() by {
                if t.push(s.last()).contains(q) {
                    let i = choose|i: int| 0 <= i < t.len() + 1 && t.push(s.last())[i] == q;
                    if i < t.len() {
                        assert(t[i] == q);
                    }
                }
                if t.contains(q) {
                    let i = choose|i: int| 0 <= i < t.len() && t[i] == q;
                    assert(t.push(s.last())[i] == q);
                }
                assert(t.push(s.last())[t.len() as int] == s.last());
            }
        }
        if s.no_duplicates() {
            assert(t0.no_duplicates()) by {
                assert forall|i: int, j: int| 0 <= i < t0.len() && 0 <= j < t0.len() && i != j implies t0[i] != t0[j] by {
                    assert(t0[i] == s[i] && t0[j] == s[j]);
                }
            }
            if !r.contains(s.last()) {
                assert(!t0.contains(s.last())) by {
                    if t0.contains(s.last()) {
                        let i = choose|i: int| 0 <= i < t0.len() && t0[i] == s.last();
                        assert(s[i] == s[s.len() - 1]);
                    }
                }
                let u = t.push(s.last());
                assert forall|i: int, j: int| 0 <= i < u.len() && 0 <= j < u.len() && i != j implies u[i] != u[j] by {
                    if i < t.len() && j < t.len() {
                        assert(u[i] == t[i] && u[j] == t[j]);
                    } else if i < t.len() {
                        assert(u[i] == t[i]);
                        assert(t.contains(t[i]));
                    } else if j < t.len() {
                        assert(u[j] == t[j]);
                        assert(t.contains(t[j]));
                    }
                }
            }
        }
    }
}

/// A fact that two true facts give is true.
pub proof fn lemma_derive_holds(g: PvAiGame, c1: Fact, c2: Fact)
    requires
        g.holds(c1),
        g.holds(c2),
        derive_fact(c1, c2) is Some,
    ensures
        g.holds(derive_fact(c1, c2).unwrap()),
{
    if covers(c1.cells, c2.cells) && c1.mines <= c2.mines {
        lemma_split_count(g, c1.cells, c2.cells);
    } else {
        lemma_split_count(g, c2.cells, c1.cells);
    }
}

/// When the cells of `a` lie among those of `b` (each listed once), the
/// mines of `b` are those of `a` and those of the rest.
pub proof fn lemma_split_count(g: PvAiGame, a: Seq<(usize, usize)>, b: Seq<(usize, usize)>)
    requires
        a.no_duplicates(),
        b.no_duplicates(),
        covers(a, b),
    ensures
        without(b, a).no_duplicates(),
        g.mines_in(b) == g.mines_in(a) + g.mines_in(without(b, a)),
{
    let d = without(b, a);
    lemma_without_cells(b, a);
    lemma_mines_in_set(g, a);
    lemma_mines_in_set(g, b);
    lemma_mines_in_set(g, d);
    let fa = a.to_set().filter(g.mine_test());
    let fd = d.to_set().filter(g.mine_test());
    assert(b.to_set().filter(g.mine_test()) =~= fa + fd) by {
        assert forall|q: (usize, usize)| a.contains(q) implies b.contains(q) by {
            let i = choose|i: int| 0 <= i < a.len() && a[i] == q;
            assert(b.contains(a[i]));
        }
    }
    assert(fa.disjoint(fd));
    vstd::set_lib::lemma_set_disjoint_lens(fa, fd);
}

/// Different neighbour numbers give different neighbours.
pub proof fn lemma_nb_distinct(p: (int, int), u: int, t: int)
    requires
        0 <= u < 8,
        0 <= t < 8,
        u != t,
    ensures
        nb(p, u) != nb(p, t),
{
}

/// Around `p`, the mines among the first `k` neighbours are the settled
/// ones and those among the listed unknown ones; the unknown ones are
/// listed once each, each one of the first `k` neighbours, on the board.
pub proof fn lemma_unknown_count(g: PvAiGame, v: Seq<Seq<bool>>, p: (int, int), k: nat)
    requires
        k <= 8,
        g.board_honest(),
        shaped(v, g.width as int, g.height as int),
        forall|i: int, j: int| g.in_bounds(i, j) && #[trigger] v[j][i] ==> g.cell(i, j).is_mine,
    ensures
        g.mines_in(g.unknown_around(v, p, k)) + nb_partial(|q: (int, int)| g.settled_one(v, q), p, k) == nb_partial(
            |q: (int, int)| g.mine_here(q),
            p,
            k,
        ),
        g.unknown_around(v, p, k).no_duplicates(),
        forall|t: int|
            0 <= t < g.unknown_around(v, p, k).len() ==> {
                let e = #[trigger] g.unknown_around(v, p, k)[t];
                &&& g.in_bounds(e.0 as int, e.1 as int)
                &&& exists|u: int| 0 <= u < k && nb(p, u) == (e.0 as int, e.1 as int)
            },
    decreases k,
{
    if k > 0 {
        let s0 = g.unknown_around(v, p, (k - 1) as nat);
        let s = g.unknown_around(v, p, k);
        let q = nb(p, k - 1);
        lemma_unknown_count(g, v, p, (k - 1) as nat);
        if g.unknown(v, q) {
            let e = (q.0 as usize, q.1 as usize);
            assert(s == s0.push(e));
            assert(s.drop_last() =~= s0);
            assert(g.mine_at_pos(e) == g.mine_here(q));
            assert forall|t: int| 0 <= t < s.len() implies {
                let f = #[trigger] s[t];
                &&& g.in_bounds(f.0 as int, f.1 as int)
                &&& exists|u: int| 0 <= u < k && nb(p, u) == (f.0 as int, f.1 as int)
            } by {
                if t < s0.len() {
                    assert(s[t] == s0[t]);
                    let u = choose|u: int| 0 <= u < k - 1 && nb(p, u) == (s0[t].0 as int, s0[t].1 as int);
                    assert(0 <= u < k && nb(p, u) == (s[t].0 as int, s[t].1 as int));
                } else {
                    assert(s[t] == e);
                    assert(nb(p, k - 1) == (e.0 as int, e.1 as int));
                }
            }
            assert forall|a: int, b: int| 0 <= a < s.len() && 0 <= b < s.len() && a != b implies s[a] != s[b] by {
                if a < s0.len() && b < s0.len() {
                    assert(s[a] == s0[a] && s[b] == s0[b]);
                } else if a < s0.len() {
                    assert(s[a] == s0[a]);
                    let u = choose|u: int| 0 <= u < k - 1 && nb(p, u) == (s0[a].0 as int, s0[a].1 as int);
                    lemma_nb_distinct(p, u, k - 1);
                    assert(s[b] == e);
                } else if b < s0.len() {
                    assert(s[b] == s0[b]);
                    let u = choose|u: int| 0 <= u < k - 1 && nb(p, u) == (s0[b].0 as int, s0[b].1 as int);
                    lemma_nb_distinct(p, u, k - 1);
                    assert(s[a] == e);
                }
            }
        } else {
            assert(s == s0);
            if g.in_bounds(q.0, q.1) {
                if g.settled(v, q) {
                    assert(g.cell(q.0, q.1).is_mine);
                } else {
                    assert(g.cell(q.0, q.1).revealed);
                    assert(!g.cell(q.0, q.1).is_mine);
                }
            }
            assert(g.settled_one(v, q) == g.mine_here(q));
            assert forall|t: int| 0 <= t < s.len() implies {
                let f = #[trigger] s[t];
                &&& g.in_bounds(f.0 as int, f.1 as int)
                &&& exists|u: int| 0 <= u < k && nb(p, u) == (f.0 as int, f.1 as int)
            } by {
                let u = choose|u: int| 0 <= u < k - 1 && nb(p, u) == (s0[t].0 as int, s0[t].1 as int);
                assert(0 <= u < k);
            }
        }
    }
}

/// The fact an open number gives is true.
pub proof fn lemma_fact_at_holds(g: PvAiGame, v: Seq<Seq<bool>>, x: int, y: int)
    requires
        g.board_honest(),
        shaped(v, g.width as int, g.height as int),
        forall|i: int, j: int| g.in_bounds(i, j) && #[trigger] v[j][i] ==> g.cell(i, j).is_mine,
        g.in_bounds(x, y),
        g.fact_at(v, x, y) is Some,
    ensures
        g.holds(g.fact_at(v, x, y).unwrap()),
{
    lemma_unknown_count(g, v, (x, y), 8);
    lemma_mines_in_ends(g, g.unknown_around(v, (x, y), 8));
    assert(g.cell(x, y).revealed);
}

/// The facts of the first `n` cells of a row are true.
pub proof fn lemma_row_facts_hold(g: PvAiGame, v: Seq<Seq<bool>>, y: int, n: nat)
    requires
        g.board_honest(),
        shaped(v, g.width as int, g.height as int),
        forall|i: int, j: int| g.in_bounds(i, j) && #[trigger] v[j][i] ==> g.cell(i, j).is_mine,
        0 <= y < g.height,
        n <= g.width,
    ensures
        g.all_hold(g.facts_in_row(v, y, n)),
    decreases n,
{
    if n > 0 {
        lemma_row_facts_hold(g, v, y, (n - 1) as nat);
        let o = g.fact_at(v, n - 1, y);
        if o is Some {
            lemma_fact_at_holds(g, v, n - 1, y);
            assert(opt_fact(o) == seq![o.unwrap()]);
        } else {
            assert(opt_fact(o) =~= Seq::<Fact>::empty());
        }
        assert(g.all_hold(opt_fact(o)));
        lemma_all_hold_add(g, g.facts_in_row(v, y, (n - 1) as nat), opt_fact(o));
    }
}

/// The facts of the first `n` rows are true.
pub proof fn lemma_facts_upto_hold(g: PvAiGame, v: Seq<Seq<bool>>, n: nat)
    requires
        g.board_honest(),
        shaped(v, g.width as int, g.height as int),
        forall|i: int, j: int| g.in_bounds(i, j) && #[trigger] v[j][i] ==> g.cell(i, j).is_mine,
        n <= g.height,
    ensures
        g.all_hold(g.facts_upto(v, n)),
    decreases n,
{
    if n > 0 {
        lemma_facts_upto_hold(g, v, (n - 1) as nat);
        lemma_row_facts_hold(g, v, n - 1, g.width as nat);
        lemma_all_hold_add(g, g.facts_upto(v, (n - 1) as nat), g.facts_in_row(v, n - 1, g.width as nat));
    }
}

/// One round of deduction from true marks gives true marks.
pub proof fn lemma_round_true(g: PvAiGame, sm: (Seq<Seq<bool>>, Seq<Seq<bool>>))
    requires
        g.board_honest(),
        g.marks_true(sm),
    ensures
        g.marks_true(g.round(sm)),
{
    let fs = g.facts(sm.1);
    lemma_facts_upto_hold(g, sm.1, g.height as nat);
    lemma_apply_true(g, fs, sm);
    let r1 = apply(fs, sm);
    let d = derived(fs);
    lemma_derived_upto_hold(g, fs, fs.len());
    lemma_apply_true(g, d, r1);
    lemma_all_hold_add(g, fs, d);
    lemma_deeper_true(g, fs + d, apply(d, r1), 3);
}

/// Rounds of deduction from true marks give true marks.
pub proof fn lemma_rounds_true(g: PvAiGame, sm: (Seq<Seq<bool>>, Seq<Seq<bool>>), n: nat)
    requires
        g.board_honest(),
        g.marks_true(sm),
    ensures
        g.marks_true(g.rounds(sm, n)),
    decreases n,
{
    if n > 0 {
        lemma_round_true(g, sm);
        lemma_rounds_true(g, g.round(sm), (n - 1) as nat);
    }
}

/// When every flag on the duel board lies on a mine, no open cell holds a
/// mine and every open number counts the mines around it, the computer's
/// deductions are right: every cell it finds safe holds no mine, and every
/// cell it finds to be a mine holds one.
pub proof fn lemma_deductions_sound(g: PvAiGame)
    requires
        g.board_honest(),
    ensures
        g.marks_true(g.deductions()),
{
    let w = g.width as int;
    let h = g.height as int;
    let b = blank(w, h);
    assert(g.marks_true((b, b)));
    lemma_rounds_true(g, (b, b), 10);
}

} // verus!

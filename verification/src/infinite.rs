//! An endless board: mines come from a hash of the coordinates, the cells
//! that have been touched are kept in a map, and a flag scores one point on
//! a mine and loses one elsewhere.

use std::collections::{HashMap, HashSet};
use vstd::prelude::*;
use crate::cascade::{nb, offset_of};
use crate::display::{nb_partial, nb_sum};
use crate::random::random_seed;

verus! {

broadcast use vstd::std_specs::hash::group_hash_axioms;

/// A cascade stops after opening this many cells.
pub const CASCADE_BARRIER: usize = 8000;

/// Coordinates stay within this distance of the origin.
pub const COORD_LIMIT: i64 = 0x1000_0000_0000_0000;

/// What a cell of the endless board shows.
#[derive(Clone, Copy, Debug, PartialEq, Eq, Structural)]
pub enum IState {
    Hidden,
    Revealed,
    Flagged,
}

/// The hash of cell (`x`, `y`) under `seed`.
#[verifier::opaque]
pub open spec fn hash_of(seed: u64, x: i64, y: i64) -> u64 {
    let h0 = seed.wrapping_add((x as u64).wrapping_mul(0x9e3779b97f4a7c15)).wrapping_add(
        (y as u64).wrapping_mul(0x6c62272e07bb0142),
    );
    let h1 = h0 ^ (h0 >> 30u64);
    let h2 = h1.wrapping_mul(0xbf58476d1ce4e5b9);
    let h3 = h2 ^ (h2 >> 27u64);
    let h4 = h3.wrapping_mul(0x94d049bb133111eb);
    h4 ^ (h4 >> 31u64)
}

/// The hash of cell (`x`, `y`) under `seed`: its top 53 bits, read as a
/// fraction of one, decide whether it holds a mine.
pub fn cell_hash(seed: u64, x: i64, y: i64) -> (h: u64)
    ensures
        h == hash_of(seed, x, y),
{
    proof {
        reveal(hash_of);
    }
    let mut h = seed.wrapping_add((x as u64).wrapping_mul(0x9e3779b97f4a7c15)).wrapping_add(
        (y as u64).wrapping_mul(0x6c62272e07bb0142),
    );
    h = h ^ (h >> 30u64);
    h = h.wrapping_mul(0xbf58476d1ce4e5b9);
    h = h ^ (h >> 27u64);
    h = h.wrapping_mul(0x94d049bb133111eb);
    h ^ (h >> 31u64)
}

/// The map key of cell (`x`, `y`).
pub open spec fn key_of(x: int, y: int) -> i128 {
    (x * 0x1_0000_0000_0000_0000 + y) as i128
}

/// The map key of cell (`x`, `y`).
fn key(x: i64, y: i64) -> (k: i128)
    requires
        in_range(x as int, y as int),
    ensures
        k == key_of(x as int, y as int),
{
    (x as i128) * 0x1_0000_0000_0000_0000 + (y as i128)
}

/// Cells on the board.
pub open spec fn on_board(x: int, y: int) -> bool {
    -COORD_LIMIT <= x <= COORD_LIMIT && -COORD_LIMIT <= y <= COORD_LIMIT
}

/// Cells next to the board or on it.
pub open spec fn near_board(x: int, y: int) -> bool {
    -COORD_LIMIT - 1 <= x <= COORD_LIMIT + 1 && -COORD_LIMIT - 1 <= y <= COORD_LIMIT + 1
}

/// Cells a cascade from the board can reach.
pub open spec fn reach(x: int, y: int) -> bool {
    -2 * COORD_LIMIT <= x <= 2 * COORD_LIMIT && -2 * COORD_LIMIT <= y <= 2 * COORD_LIMIT
}

/// Cells the board can look at: those a cascade reaches and their
/// neighbours, with a margin.
pub open spec fn in_range(x: int, y: int) -> bool {
    -4 * COORD_LIMIT <= x <= 4 * COORD_LIMIT && -4 * COORD_LIMIT <= y <= 4 * COORD_LIMIT
}

/// Different cells have different keys.
pub proof fn lemma_key_unique(a: int, b: int, c: int, d: int)
    requires
        in_range(a, b),
        in_range(c, d),
    ensures
        (key_of(a, b) == key_of(c, d)) == (a == c && b == d),
{
    assert(-0x8000_0000_0000_0000_0000_0000_0000_0000 <= a * 0x1_0000_0000_0000_0000 + b < 0x8000_0000_0000_0000_0000_0000_0000_0000);
    assert(-0x8000_0000_0000_0000_0000_0000_0000_0000 <= c * 0x1_0000_0000_0000_0000 + d < 0x8000_0000_0000_0000_0000_0000_0000_0000);
}

/// The endless board.
pub struct InfGame {
    pub seed: u64,
    /// A cell holds a mine when the top 53 bits of its hash are below this.
    pub threshold: u64,
    pub states: HashMap<i128, IState>,
    /// Cells kept free of mines: the block around the first click.
    pub safe_set: HashSet<i128>,
    /// Cells made mines to stop a cascade.
    pub barrier_mines: HashSet<i128>,
    pub score: i64,
    pub started: bool,
    pub game_over: bool,
}

impl InfGame {
    /// Whether (`x`, `y`) holds a mine: never in the safe block, always on a
    /// barrier, elsewhere as its hash says.
    pub open spec fn mine_at(self, x: int, y: int) -> bool {
        if self.safe_set@.contains(key_of(x, y)) {
            false
        } else if self.barrier_mines@.contains(key_of(x, y)) {
            true
        } else {
            (hash_of(self.seed, x as i64, y as i64) >> 11u64) < self.threshold
        }
    }

    /// 1 where (`q`) holds a mine.
    pub open spec fn mine_one(self, q: (int, int)) -> int {
        if self.mine_at(q.0, q.1) {
            1
        } else {
            0
        }
    }

    /// The mines around (`x`, `y`).
    pub open spec fn adj_of(self, x: int, y: int) -> int {
        nb_sum(|q: (int, int)| self.mine_one(q), (x, y))
    }

    /// What (`x`, `y`) shows: hidden unless the map says otherwise.
    pub open spec fn st(self, x: int, y: int) -> IState {
        if self.states@.contains_key(key_of(x, y)) {
            self.states@[key_of(x, y)]
        } else {
            IState::Hidden
        }
    }

    /// 1 where `q` shows a flag.
    pub open spec fn flag_one(self, q: (int, int)) -> int {
        if self.st(q.0, q.1) == IState::Flagged {
            1
        } else {
            0
        }
    }

    /// A new endless board with a random seed; `threshold` sets the mine
    /// density (out of 2^53).
    pub fn new(threshold: u64) -> (g: InfGame)
        ensures
            g.threshold == threshold,
            g.states@ == Map::<i128, IState>::empty(),
            g.safe_set@ == Set::<i128>::empty(),
            g.barrier_mines@ == Set::<i128>::empty(),
            g.score == 0,
            !g.started,
            !g.game_over,
    {
        InfGame {
            seed: random_seed(),
            threshold,
            states: HashMap::new(),
            safe_set: HashSet::new(),
            barrier_mines: HashSet::new(),
            score: 0,
            started: false,
            game_over: false,
        }
    }

    /// Whether (`x`, `y`) holds a mine.
    pub fn is_mine(&self, x: i64, y: i64) -> (r: bool)
        requires
            in_range(x as int, y as int),
        ensures
            r == self.mine_at(x as int, y as int),
    {
        let k = key(x, y);
        if self.safe_set.contains(&k) {
            return false;
        }
        if self.barrier_mines.contains(&k) {
            return true;
        }
        (cell_hash(self.seed, x, y) >> 11u64) < self.threshold
    }

    /// The mines around (`x`, `y`).
    pub fn adj_mines(&self, x: i64, y: i64) -> (r: u8)
        requires
            reach(x as int, y as int),
        ensures
            r == self.adj_of(x as int, y as int),
            r <= 8,
    {
        let ghost p = (x as int, y as int);
        let mut n: u8 = 0;
        for k in 0..8usize
            invariant
                reach(x as int, y as int),
                p == (x as int, y as int),
                n == nb_partial(|q: (int, int)| self.mine_one(q), p, k as nat),
                n <= k,
        {
            let (dx, dy) = offset_of(k);
            let nx = x + dx as i64 - 1;
            let ny = y + dy as i64 - 1;
            assert((nx as int, ny as int) == nb(p, k as int));
            if self.is_mine(nx, ny) {
                n = n + 1;
            }
        }
        n
    }

    /// What (`x`, `y`) shows.
    pub fn state_of(&self, x: i64, y: i64) -> (s: IState)
        requires
            in_range(x as int, y as int),
        ensures
            s == self.st(x as int, y as int),
    {
        match self.states.get(&key(x, y)) {
            Some(s) => *s,
            None => IState::Hidden,
        }
    }

    /// The flags around (`x`, `y`).
    pub fn flags_around(&self, x: i64, y: i64) -> (r: u8)
        requires
            reach(x as int, y as int),
        ensures
            r == nb_sum(|q: (int, int)| self.flag_one(q), (x as int, y as int)),
            r <= 8,
    {
        let ghost p = (x as int, y as int);
        let mut n: u8 = 0;
        for k in 0..8usize
            invariant
                reach(x as int, y as int),
                p == (x as int, y as int),
                n == nb_partial(|q: (int, int)| self.flag_one(q), p, k as nat),
                n <= k,
        {
            let (dx, dy) = offset_of(k);
            let nx = x + dx as i64 - 1;
            let ny = y + dy as i64 - 1;
            assert((nx as int, ny as int) == nb(p, k as int));
            if matches!(self.state_of(nx, ny), IState::Flagged) {
                n = n + 1;
            }
        }
        n
    }

    /// Flag or unflag (`x`, `y`) while the game is on: a flag on a mine
    /// scores a point and a flag elsewhere loses one; taking it off undoes
    /// that. Open cells stay as they are.
    pub fn toggle_flag(&mut self, x: i64, y: i64)
        requires
            on_board(x as int, y as int),
            i64::MIN < old(self).score < i64::MAX,
        ensures
            old(self).game_over || old(self).st(x as int, y as int) == IState::Revealed ==> *final(self) == *old(self),
            !old(self).game_over && old(self).st(x as int, y as int) == IState::Hidden ==> {
                &&& final(self).states@ == old(self).states@.insert(key_of(x as int, y as int), IState::Flagged)
                &&& final(self).score == old(self).score + if old(self).mine_at(x as int, y as int) { 1int } else { -1int }
                &&& *final(self) == (InfGame { states: final(self).states, score: final(self).score, ..*old(self) })
            },
            !old(self).game_over && old(self).st(x as int, y as int) == IState::Flagged ==> {
                &&& final(self).states@ == old(self).states@.remove(key_of(x as int, y as int))
                &&& final(self).score == old(self).score - if old(self).mine_at(x as int, y as int) { 1int } else { -1int }
                &&& *final(self) == (InfGame { states: final(self).states, score: final(self).score, ..*old(self) })
            },
    {
        if self.game_over {
            return;
        }
        let k = key(x, y);
        match self.state_of(x, y) {
            IState::Hidden => {
                let m = self.is_mine(x, y);
                self.states.insert(k, IState::Flagged);
                self.score = if m {
                    self.score + 1
                } else {
                    self.score - 1
                };
            },
            IState::Flagged => {
                let m = self.is_mine(x, y);
                self.states.remove(&k);
                self.score = if m {
                    self.score - 1
                } else {
                    self.score + 1
                };
            },
            IState::Revealed => {},
        }
    }
}

/// A sum of non-negative neighbour terms is zero only when every term is.
pub proof fn lemma_nb_zero(f: spec_fn((int, int)) -> int, p: (int, int), k: nat)
    requires
        forall|q: (int, int)| #[trigger] f(q) >= 0,
        nb_partial(f, p, k) == 0,
    ensures
        forall|t: int| 0 <= t < k ==> #[trigger] f(nb(p, t)) == 0,
    decreases k,
{
    if k > 0 {
        lemma_nb_nonneg(f, p, (k - 1) as nat);
        lemma_nb_zero(f, p, (k - 1) as nat);
    }
}

/// A sum of non-negative neighbour terms is non-negative.
pub proof fn lemma_nb_nonneg(f: spec_fn((int, int)) -> int, p: (int, int), k: nat)
    requires
        forall|q: (int, int)| #[trigger] f(q) >= 0,
    ensures
        nb_partial(f, p, k) >= 0,
    decreases k,
{
    if k > 0 {
        lemma_nb_nonneg(f, p, (k - 1) as nat);
    }
}

/// Cell `t` (0 to 8) of the 3x3 block around (`x`, `y`), in scan order.
pub open spec fn block_cell(x: int, y: int, t: int) -> (int, int) {
    (x + t % 3 - 1, y + t / 3 - 1)
}

/// The keys of the first `n` cells of the block around (`x`, `y`).
pub open spec fn block_keys(x: int, y: int, n: nat) -> Set<i128>
    decreases n,
{
    if n == 0 {
        Set::empty()
    } else {
        block_keys(x, y, (n - 1) as nat).insert(key_of(block_cell(x, y, n - 1).0, block_cell(x, y, n - 1).1))
    }
}

/// `p` lies within `d` steps of (`x`, `y`) in each direction.
pub open spec fn within_steps(p: (i64, i64), x: int, y: int, d: int) -> bool {
    x - d <= p.0 <= x + d && y - d <= p.1 <= y + d
}

/// `p` waits in `q` at or after `head`.
pub open spec fn waiting(q: Seq<(i64, i64)>, head: int, p: (int, int)) -> bool {
    exists|i: int| head <= i < q.len() && (#[trigger] q[i]).0 == p.0 && q[i].1 == p.1
}

impl InfGame {
    /// Every neighbour of `c` shows (open or flagged) or waits in `q` from
    /// `head` on.
    pub open spec fn around_done(self, q: Seq<(i64, i64)>, head: int, c: (int, int)) -> bool {
        forall|t: int| 0 <= t < 8 ==> self.st((#[trigger] nb(c, t)).0, nb(c, t).1) != IState::Hidden || waiting(q, head, nb(c, t))
    }

    /// Every cell opened since `g1` with no mine around it has its
    /// neighbours shown or waiting in `q` from `head` on.
    pub open spec fn spread_closed(self, g1: InfGame, q: Seq<(i64, i64)>, head: int) -> bool {
        forall|a: int, b: int|
            reach(a, b) && #[trigger] self.st(a, b) != g1.st(a, b) && g1.adj_of(a, b) == 0 ==> self.around_done(q, head, (a, b))
    }

    /// Every cell opened since `g1` with no mine around it (as `g1` lays the
    /// mines) has every neighbour shown: the opening spread as far as it
    /// could.
    pub open spec fn spread_complete(self, g1: InfGame) -> bool {
        forall|a: int, b: int|
            reach(a, b) && #[trigger] self.st(a, b) != g1.st(a, b) && g1.adj_of(a, b) == 0 ==> forall|t: int|
                0 <= t < 8 ==> self.st((#[trigger] nb((a, b), t)).0, nb((a, b), t).1) != IState::Hidden
    }

    /// At most as many cells as the barrier allows changed since `g1`: all
    /// of them lie in a list of that length.
    pub open spec fn opened_at_most(self, g1: InfGame) -> bool {
        exists|s: Seq<(int, int)>|
            s.len() <= CASCADE_BARRIER && forall|a: int, b: int|
                in_range(a, b) && #[trigger] self.st(a, b) != g1.st(a, b) ==> s.contains((a, b))
    }

    /// At least as many cells as the barrier allows were opened since `g1`.
    pub open spec fn opened_many(self, g1: InfGame) -> bool {
        exists|s: Seq<(int, int)>|
            s.len() == CASCADE_BARRIER && s.no_duplicates() && forall|i: int|
                0 <= i < s.len() ==> reach((#[trigger] s[i]).0, s[i].1) && self.st(s[i].0, s[i].1) != g1.st(s[i].0, s[i].1)
    }
}

/// Taking a cell off the queue that already shows keeps the spread closed.
pub proof fn lemma_closed_skip(s: InfGame, g1: InfGame, q: Seq<(i64, i64)>, head: int)
    requires
        s.spread_closed(g1, q, head),
        0 <= head < q.len(),
        in_range(q[head].0 as int, q[head].1 as int),
        s.st(q[head].0 as int, q[head].1 as int) != IState::Hidden,
    ensures
        s.spread_closed(g1, q, head + 1),
{
    assert forall|a: int, b: int| reach(a, b) && #[trigger] s.st(a, b) != g1.st(a, b) && g1.adj_of(a, b) == 0 implies s.around_done(
        q,
        head + 1,
        (a, b),
    ) by {
        assert forall|t: int| 0 <= t < 8 implies s.st((#[trigger] nb((a, b), t)).0, nb((a, b), t).1) != IState::Hidden || waiting(
            q,
            head + 1,
            nb((a, b), t),
        ) by {
            let n = nb((a, b), t);
            if s.st(n.0, n.1) == IState::Hidden {
                assert(waiting(q, head, n));
                let i = choose|i: int| head <= i < q.len() && (#[trigger] q[i]).0 == n.0 && q[i].1 == n.1;
                if i == head {
                    assert(false);
                }
                assert(waiting(q, head + 1, n));
            }
        }
    }
}

/// Opening the cell at the head of the queue, and queueing its hidden
/// neighbours when no mine surrounds it, keeps the spread closed.
pub proof fn lemma_closed_open(
    pre: InfGame,
    post: InfGame,
    g1: InfGame,
    qb: Seq<(i64, i64)>,
    qa: Seq<(i64, i64)>,
    head: int,
)
    requires
        pre.spread_closed(g1, qb, head),
        0 <= head < qb.len(),
        qb.len() <= qa.len(),
        qa.subrange(0, qb.len() as int) == qb,
        reach(qb[head].0 as int, qb[head].1 as int),
        pre.st(qb[head].0 as int, qb[head].1 as int) == IState::Hidden,
        post.st(qb[head].0 as int, qb[head].1 as int) == IState::Revealed,
        forall|a: int, b: int|
            in_range(a, b) && !(a == qb[head].0 && b == qb[head].1) ==> #[trigger] post.st(a, b) == pre.st(a, b),
        forall|a: int, b: int| in_range(a, b) && #[trigger] pre.st(a, b) != g1.st(a, b) ==> pre.st(a, b) == IState::Revealed,
        g1.adj_of(qb[head].0 as int, qb[head].1 as int) == 0 ==> post.around_done(qa, qb.len() as int, (qb[head].0 as int, qb[head].1 as int)),
    ensures
        post.spread_closed(g1, qa, head + 1),
{
    let c0 = (qb[head].0 as int, qb[head].1 as int);
    assert forall|a: int, b: int| reach(a, b) && #[trigger] post.st(a, b) != g1.st(a, b) && g1.adj_of(a, b) == 0 implies post.around_done(
        qa,
        head + 1,
        (a, b),
    ) by {
        if a == c0.0 && b == c0.1 {
            assert forall|t: int| 0 <= t < 8 implies post.st((#[trigger] nb((a, b), t)).0, nb((a, b), t).1) != IState::Hidden
                || waiting(qa, head + 1, nb((a, b), t)) by {
                let n = nb((a, b), t);
                if post.st(n.0, n.1) == IState::Hidden {
                    assert(waiting(qa, qb.len() as int, n));
                    let i = choose|i: int| qb.len() <= i < qa.len() && (#[trigger] qa[i]).0 == n.0 && qa[i].1 == n.1;
                    assert(head + 1 <= i);
                }
            }
        } else {
            assert(post.st(a, b) == pre.st(a, b));
            assert(pre.around_done(qb, head, (a, b)));
            assert forall|t: int| 0 <= t < 8 implies post.st((#[trigger] nb((a, b), t)).0, nb((a, b), t).1) != IState::Hidden
                || waiting(qa, head + 1, nb((a, b), t)) by {
                let n = nb((a, b), t);
                if post.st(n.0, n.1) == IState::Hidden {
                    if n.0 == c0.0 && n.1 == c0.1 {
                    } else {
                        assert(post.st(n.0, n.1) == pre.st(n.0, n.1));
                        assert(waiting(qb, head, n));
                        let i = choose|i: int| head <= i < qb.len() && (#[trigger] qb[i]).0 == n.0 && qb[i].1 == n.1;
                        if i == head {
                            assert(false);
                        }
                        assert(qa[i] == qa.subrange(0, qb.len() as int)[i]);
                        assert(qa[i] == qb[i]);
                        assert(waiting(qa, head + 1, n));
                    }
                }
            }
        }
    }
}

/// Games that lay the same mines count the same mines around each cell.
pub proof fn lemma_adj_same(a: InfGame, b: InfGame, x: int, y: int)
    requires
        a.seed == b.seed,
        a.threshold == b.threshold,
        a.safe_set@ == b.safe_set@,
        a.barrier_mines@ == b.barrier_mines@,
    ensures
        a.adj_of(x, y) == b.adj_of(x, y),
{
    assert((|q: (int, int)| a.mine_one(q)) =~= (|q: (int, int)| b.mine_one(q)));
}

impl InfGame {
    /// No cell is open before the first click.
    pub open spec fn wf(self) -> bool {
        !self.started ==> forall|k: i128| #[trigger] self.states@.contains_key(k) ==> self.states@[k] != IState::Revealed
    }

    /// `f` comes from this game by opening cells and placing barrier
    /// mines: the seed, density, score, start and safe block stay; cells
    /// change only from hidden to open; barrier mines are only added, and
    /// only on cells that are still hidden and whose coordinates sum to a
    /// multiple of three.
    pub open spec fn opens_to(self, f: InfGame) -> bool {
        &&& f.seed == self.seed
        &&& f.threshold == self.threshold
        &&& f.score == self.score
        &&& f.started == self.started
        &&& f.safe_set@ == self.safe_set@
        &&& self.barrier_mines@.subset_of(f.barrier_mines@)
        &&& forall|a: int, b: int|
            in_range(a, b) && #[trigger] f.st(a, b) != self.st(a, b) ==> self.st(a, b) == IState::Hidden && f.st(a, b)
                == IState::Revealed
        &&& forall|a: int, b: int|
            in_range(a, b) && #[trigger] f.barrier_mines@.contains(key_of(a, b)) && !self.barrier_mines@.contains(key_of(a, b))
                ==> f.st(a, b) == IState::Hidden && (a + b) % 3 == 0
        &&& forall|k: i128|
            #[trigger] f.states@.contains_key(k) ==> self.states@.contains_key(k) || f.states@[k] == IState::Revealed
    }

    /// The state of a breadth-first opening from (`x`, `y`) that started
    /// from game `g1`: only the cell views changed; every queued cell lies
    /// within `d` steps and holds no mine; cells changed only from hidden
    /// to open, and only mine-free ones.
    pub open spec fn spread_ok(self, g1: InfGame, x: int, y: int, q: Seq<(i64, i64)>, d: int) -> bool {
        &&& self == (InfGame { states: self.states, ..g1 })
        &&& forall|i: int| 0 <= i < q.len() ==> within_steps(#[trigger] q[i], x, y, d)
        &&& forall|i: int| 0 <= i < q.len() ==> !g1.mine_at((#[trigger] q[i]).0 as int, q[i].1 as int)
        &&& forall|a: int, b: int|
            in_range(a, b) && #[trigger] self.st(a, b) != g1.st(a, b) ==> g1.st(a, b) == IState::Hidden && self.st(a, b)
                == IState::Revealed && !g1.mine_at(a, b)
        &&& forall|k: i128| #[trigger] self.states@.contains_key(k) ==> g1.states@.contains_key(k) || self.states@[k] == IState::Revealed
    }

    /// A cell with no mine around it has no mine on any neighbour.
    pub proof fn lemma_no_mine_around(self, p: (int, int))
        requires
            self.adj_of(p.0, p.1) == 0,
        ensures
            forall|t: int| 0 <= t < 8 ==> #[trigger] self.mine_one(nb(p, t)) == 0,
    {
        let f = |q: (int, int)| self.mine_one(q);
        lemma_nb_zero(f, p, 8);
        assert forall|t: int| 0 <= t < 8 implies #[trigger] self.mine_one(nb(p, t)) == 0 by {
            assert(f(nb(p, t)) == 0);
        }
    }

    /// Keep the 3x3 block around (`x`, `y`) free of mines.
    fn keep_block_safe(&mut self, x: i64, y: i64)
        requires
            near_board(x as int, y as int),
        ensures
            final(self).safe_set@ == old(self).safe_set@.union(block_keys(x as int, y as int, 9)),
            *final(self) == (InfGame { safe_set: final(self).safe_set, ..*old(self) }),
    {
        for t in 0..9usize
            invariant
                near_board(x as int, y as int),
                self.safe_set@ == old(self).safe_set@.union(block_keys(x as int, y as int, t as nat)),
                *self == (InfGame { safe_set: self.safe_set, ..*old(self) }),
        {
            let dx = (t % 3) as i64;
            let dy = (t / 3) as i64;
            let k = key(x + dx - 1, y + dy - 1);
            assert(k == key_of(block_cell(x as int, y as int, t as int).0, block_cell(x as int, y as int, t as int).1));
            self.safe_set.insert(k);
            assert(self.safe_set@ =~= old(self).safe_set@.union(block_keys(x as int, y as int, (t + 1) as nat)));
        }
    }

    /// Open the hidden cell (`cx`, `cy`) during a spread and, when no mine
    /// surrounds it, queue its hidden neighbours.
    fn open_and_queue(&mut self, cx: i64, cy: i64, q: &mut Vec<(i64, i64)>, Ghost(g1): Ghost<InfGame>, Ghost(x): Ghost<int>, Ghost(y): Ghost<int>, Ghost(d): Ghost<int>)
        requires
            near_board(x, y),
            0 <= d <= CASCADE_BARRIER,
            old(self).spread_ok(g1, x, y, old(q)@, d + 1),
            within_steps((cx, cy), x, y, d + 1),
            !g1.mine_at(cx as int, cy as int),
            old(self).st(cx as int, cy as int) == IState::Hidden,
        ensures
            final(self).spread_ok(g1, x, y, final(q)@, d + 2),
            old(q)@.len() <= final(q)@.len() <= old(q)@.len() + 8,
            final(q)@.subrange(0, old(q)@.len() as int) == old(q)@,
            final(self).st(cx as int, cy as int) == IState::Revealed,
            forall|a: int, b: int| in_range(a, b) && !(a == cx && b == cy) ==> #[trigger] final(self).st(a, b) == old(self).st(a, b),
            g1.adj_of(cx as int, cy as int) == 0 ==> final(self).around_done(final(q)@, old(q)@.len() as int, (cx as int, cy as int)),
    {
        let ghost before = *self;
        let ghost q0 = q@;
        assert(q@.subrange(0, q0.len() as int) =~= q0);
        let kc = key(cx, cy);
        self.states.insert(kc, IState::Revealed);
        proof {
            assert forall|a: int, b: int| in_range(a, b) && #[trigger] self.st(a, b) != g1.st(a, b) implies g1.st(a, b)
                == IState::Hidden && self.st(a, b) == IState::Revealed && !g1.mine_at(a, b) by {
                lemma_key_unique(a, b, cx as int, cy as int);
                if a != cx || b != cy {
                    assert(self.st(a, b) == before.st(a, b));
                }
            }
            assert forall|a: int, b: int| in_range(a, b) && !(a == cx && b == cy) implies #[trigger] self.st(a, b) == before.st(a, b) by {
                lemma_key_unique(a, b, cx as int, cy as int);
            }
            assert forall|i: int| 0 <= i < q@.len() implies within_steps(#[trigger] q@[i], x, y, d + 2) by {
                assert(within_steps(q@[i], x, y, d + 1));
            }
        }
        proof {
            lemma_adj_same(*self, g1, cx as int, cy as int);
        }
        if self.adj_mines(cx, cy) == 0 {
            proof {
                self.lemma_no_mine_around((cx as int, cy as int));
            }
            for k in 0..8usize
                invariant
                    near_board(x, y),
                    0 <= d <= CASCADE_BARRIER,
                    self.spread_ok(g1, x, y, q@, d + 2),
                    within_steps((cx, cy), x, y, d + 1),
                    forall|t: int| 0 <= t < 8 ==> #[trigger] self.mine_one(nb((cx as int, cy as int), t)) == 0,
                    q0.len() <= q@.len() <= q0.len() + k,
                    q@.subrange(0, q0.len() as int) == q0,
                    self.st(cx as int, cy as int) == IState::Revealed,
                    forall|a: int, b: int| in_range(a, b) && !(a == cx && b == cy) ==> #[trigger] self.st(a, b) == before.st(a, b),
                    forall|t: int|
                        0 <= t < k ==> self.st((#[trigger] nb((cx as int, cy as int), t)).0, nb((cx as int, cy as int), t).1)
                            != IState::Hidden || waiting(q@, q0.len() as int, nb((cx as int, cy as int), t)),
            {
                let (dx, dy) = offset_of(k);
                let nx = cx + dx as i64 - 1;
                let ny = cy + dy as i64 - 1;
                assert((nx as int, ny as int) == nb((cx as int, cy as int), k as int));
                assert(self.mine_one(nb((cx as int, cy as int), k as int)) == 0);
                let ghost qb = q@;
                if matches!(self.state_of(nx, ny), IState::Hidden) {
                    q.push((nx, ny));
                    assert(q@.subrange(0, q0.len() as int) =~= qb.subrange(0, q0.len() as int));
                    assert(q@[qb.len() as int] == (nx, ny));
                }
                proof {
                    assert forall|t: int| 0 <= t < k + 1 implies self.st((#[trigger] nb((cx as int, cy as int), t)).0, nb((cx as int, cy as int), t).1)
                        != IState::Hidden || waiting(q@, q0.len() as int, nb((cx as int, cy as int), t)) by {
                        let n = nb((cx as int, cy as int), t);
                        if t < k && self.st(n.0, n.1) == IState::Hidden {
                            assert(waiting(qb, q0.len() as int, n));
                            let i = choose|i: int| q0.len() <= i < qb.len() && (#[trigger] qb[i]).0 == n.0 && qb[i].1 == n.1;
                            assert(q@[i] == qb[i]);
                            assert(waiting(q@, q0.len() as int, n));
                        }
                        if t == k && self.st(n.0, n.1) == IState::Hidden {
                            assert(q@[qb.len() as int] == (nx, ny));
                            assert(waiting(q@, q0.len() as int, n));
                        }
                    }
                }
            }
        }
    }

    /// The keys of the cells of `q` at `from..to` that are hidden here and
    /// whose coordinates sum to a multiple of three.
    pub open spec fn barrier_keys(self, q: Seq<(i64, i64)>, from: int, to: int) -> Set<i128> {
        Set::new(
            |kk: i128|
                exists|j: int|
                    #![trigger q[j]]
                    from <= j < to && kk == key_of(q[j].0 as int, q[j].1 as int) && self.st(q[j].0 as int, q[j].1 as int)
                        == IState::Hidden && (q[j].0 + q[j].1) % 3 == 0,
        )
    }

    /// Make barrier mines of the hidden cells of `q` from `from` on whose
    /// coordinates sum to a multiple of three.
    fn place_barrier(&mut self, q: &Vec<(i64, i64)>, from: usize, Ghost(x): Ghost<int>, Ghost(y): Ghost<int>)
        requires
            near_board(x, y),
            from <= q@.len(),
            forall|j: int| 0 <= j < q@.len() ==> within_steps(#[trigger] q@[j], x, y, CASCADE_BARRIER + 1),
        ensures
            *final(self) == (InfGame { barrier_mines: final(self).barrier_mines, ..*old(self) }),
            final(self).barrier_mines@ == old(self).barrier_mines@.union(
                old(self).barrier_keys(q@, from as int, q@.len() as int),
            ),
            old(self).barrier_mines@.subset_of(final(self).barrier_mines@),
            forall|a: int, b: int|
                in_range(a, b) && #[trigger] final(self).barrier_mines@.contains(key_of(a, b)) && !old(self).barrier_mines@.contains(
                    key_of(a, b),
                ) ==> final(self).st(a, b) == IState::Hidden && (a + b) % 3 == 0,
    {
        proof {
            assert(old(self).barrier_keys(q@, from as int, from as int) =~= Set::empty());
            assert(self.barrier_mines@ =~= old(self).barrier_mines@.union(old(self).barrier_keys(q@, from as int, from as int)));
        }
        for i in from..q.len()
            invariant
                self.barrier_mines@ == old(self).barrier_mines@.union(old(self).barrier_keys(q@, from as int, i as int)),
                near_board(x, y),
                forall|j: int| 0 <= j < q@.len() ==> within_steps(#[trigger] q@[j], x, y, CASCADE_BARRIER + 1),
                *self == (InfGame { barrier_mines: self.barrier_mines, ..*old(self) }),
                old(self).barrier_mines@.subset_of(self.barrier_mines@),
                forall|a: int, b: int|
                    in_range(a, b) && #[trigger] self.barrier_mines@.contains(key_of(a, b)) && !old(self).barrier_mines@.contains(
                        key_of(a, b),
                    ) ==> self.st(a, b) == IState::Hidden && (a + b) % 3 == 0,
        {
            let (bx, by) = q[i];
            assert(within_steps(q@[i as int], x, y, CASCADE_BARRIER + 1));
            let ghost ki = old(self).barrier_keys(q@, from as int, i as int);
            let ghost ki1 = old(self).barrier_keys(q@, from as int, i + 1);
            let ghost hit = old(self).st(bx as int, by as int) == IState::Hidden && (bx + by) % 3 == 0;
            proof {
                assert(self.st(bx as int, by as int) == old(self).st(bx as int, by as int));
                assert forall|kk: i128| ki1.contains(kk) <==> ki.contains(kk) || (hit && kk == key_of(bx as int, by as int)) by {
                    if ki1.contains(kk) {
                        let j = choose|j: int|
                            #![trigger q@[j]]
                            from <= j < i + 1 && kk == key_of(q@[j].0 as int, q@[j].1 as int) && old(self).st(
                                q@[j].0 as int,
                                q@[j].1 as int,
                            ) == IState::Hidden && (q@[j].0 + q@[j].1) % 3 == 0;
                        if j < i {
                            assert(ki.contains(kk));
                        }
                    }
                    if ki.contains(kk) {
                        let j = choose|j: int|
                            #![trigger q@[j]]
                            from <= j < i && kk == key_of(q@[j].0 as int, q@[j].1 as int) && old(self).st(
                                q@[j].0 as int,
                                q@[j].1 as int,
                            ) == IState::Hidden && (q@[j].0 + q@[j].1) % 3 == 0;
                        assert(ki1.contains(kk));
                    }
                    if hit && kk == key_of(bx as int, by as int) {
                        assert(q@[i as int] == (bx, by));
                        assert(ki1.contains(kk));
                    }
                }
            }
            if matches!(self.state_of(bx, by), IState::Hidden) && (bx + by) % 3 == 0 {
                let kb = key(bx, by);
                self.barrier_mines.insert(kb);
                proof {
                    assert forall|a: int, b: int| in_range(a, b) && #[trigger] self.barrier_mines@.contains(key_of(a, b))
                        && !old(self).barrier_mines@.contains(key_of(a, b)) implies self.st(a, b) == IState::Hidden && (a + b) % 3
                        == 0 by {
                        lemma_key_unique(a, b, bx as int, by as int);
                    }
                    assert(self.barrier_mines@ =~= old(self).barrier_mines@.union(ki1));
                }
            } else {
                assert(self.barrier_mines@ =~= old(self).barrier_mines@.union(ki1));
            }
        }
    }

    /// Open cells breadth first from (`x`, `y`), as `reveal_cell` says,
    /// up to the barrier. Returns the queue, where the cells left waiting
    /// start, and whether the barrier was reached.
    #[verifier::rlimit(100)]
    fn spread_from(&mut self, x: i64, y: i64) -> (r: (Vec<(i64, i64)>, usize, bool))
        requires
            near_board(x as int, y as int),
            !old(self).mine_at(x as int, y as int),
            old(self).started,
            !old(self).game_over,
        ensures
            final(self).spread_ok(*old(self), x as int, y as int, r.0@, CASCADE_BARRIER + 1),
            r.1 <= r.0@.len(),
            old(self).st(x as int, y as int) == IState::Hidden ==> final(self).st(x as int, y as int) == IState::Revealed,
            !r.2 ==> final(self).spread_complete(*old(self)),
            r.2 ==> final(self).opened_many(*old(self)),
            final(self).opened_at_most(*old(self)),
    {
        let ghost g1 = *self;
        let mut q: Vec<(i64, i64)> = Vec::new();
        q.push((x, y));
        let mut head: usize = 0;
        let mut count: usize = 0;
        let mut hit = false;
        let mut stop_at: usize = 0;
        let ghost mut ops: Seq<(int, int)> = seq![];
        while head < q.len() && !hit
            invariant
                near_board(x as int, y as int),
                !g1.mine_at(x as int, y as int),
                g1.started,
                !g1.game_over,
                self.spread_ok(g1, x as int, y as int, q@, count + 1),
                1 <= q@.len(),
                q@[0] == (x, y),
                head <= q@.len(),
                count <= CASCADE_BARRIER,
                hit ==> stop_at < head && count == CASCADE_BARRIER,
                head == 0 ==> count == 0 && !hit,
                stop_at <= q@.len(),
                head >= 1 && g1.st(x as int, y as int) == IState::Hidden ==> self.st(x as int, y as int) == IState::Revealed,
                ops.len() == count,
                ops.no_duplicates(),
                forall|i: int| 0 <= i < ops.len() ==> reach((#[trigger] ops[i]).0, ops[i].1) && self.st(ops[i].0, ops[i].1) != g1.st(ops[i].0, ops[i].1),
                forall|a: int, b: int| in_range(a, b) && #[trigger] self.st(a, b) != g1.st(a, b) ==> ops.contains((a, b)),
                !hit ==> self.spread_closed(g1, q@, head as int),
            decreases (CASCADE_BARRIER - count) * 9 + q@.len() - head + if hit { 0int } else { 1int },
        {
            let (cx, cy) = q[head];
            assert(within_steps(q@[head as int], x as int, y as int, count + 1));
            assert(!g1.mine_at(q@[head as int].0 as int, q@[head as int].1 as int));
            assert(head == 0 ==> cx == x && cy == y);
            assert(in_range(x as int, y as int));
            proof {
                if head == 0 && g1.st(x as int, y as int) == IState::Hidden && self.st(x as int, y as int) != IState::Hidden {
                    assert(self.st(x as int, y as int) != g1.st(x as int, y as int));
                }
            }
            let ghost was_first = head == 0;
            let ghost h0 = head as int;
            head = head + 1;
            assert(reach(cx as int, cy as int));
            if !matches!(self.state_of(cx, cy), IState::Hidden) {
                proof {
                    lemma_closed_skip(*self, g1, q@, h0);
                }
                continue;
            }
            if count >= CASCADE_BARRIER {
                hit = true;
                stop_at = head - 1;
                continue;
            }
            let ghost pre = *self;
            let ghost qb = q@;
            self.open_and_queue(cx, cy, &mut q, Ghost(g1), Ghost(x as int), Ghost(y as int), Ghost(count as int));
            proof {
                assert(qb[h0] == (cx, cy));
                lemma_closed_open(pre, *self, g1, qb, q@, h0);
                let c0 = (cx as int, cy as int);
                assert(!ops.contains(c0)) by {
                    if ops.contains(c0) {
                        let i = choose|i: int| 0 <= i < ops.len() && ops[i] == c0;
                        assert(pre.st(ops[i].0, ops[i].1) != g1.st(ops[i].0, ops[i].1));
                    }
                }
                let ops0 = ops;
                ops = ops.push(c0);
                assert forall|a: int, b: int| in_range(a, b) && #[trigger] self.st(a, b) != g1.st(a, b) implies ops.contains((a, b)) by {
                    if (a, b) == c0 {
                        assert(ops[ops.len() - 1] == c0);
                    } else {
                        assert(self.st(a, b) == pre.st(a, b));
                        assert(ops0.contains((a, b)));
                        let i = choose|i: int| 0 <= i < ops0.len() && ops0[i] == (a, b);
                        assert(ops[i] == (a, b));
                    }
                }
                assert forall|i: int| 0 <= i < ops.len() implies reach((#[trigger] ops[i]).0, ops[i].1) && self.st(ops[i].0, ops[i].1)
                    != g1.st(ops[i].0, ops[i].1) by {
                    if i < ops0.len() {
                        assert(ops[i] == ops0[i]);
                        if ops0[i].0 == cx && ops0[i].1 == cy {
                        } else {
                            assert(self.st(ops0[i].0, ops0[i].1) == pre.st(ops0[i].0, ops0[i].1));
                        }
                    }
                }
                assert(q@.subrange(0, qb.len() as int)[0] == qb[0]);
                assert(q@[0] == q@.subrange(0, qb.len() as int)[0]);
                if !was_first && g1.st(x as int, y as int) == IState::Hidden {
                    assert(pre.st(x as int, y as int) == IState::Revealed);
                    if x == cx && y == cy {
                    } else {
                        assert(self.st(x as int, y as int) == pre.st(x as int, y as int));
                    }
                }
            }
            count = count + 1;
        }
        proof {
            assert forall|j: int| 0 <= j < q@.len() implies within_steps(#[trigger] q@[j], x as int, y as int, CASCADE_BARRIER + 1) by {
                assert(within_steps(q@[j], x as int, y as int, count + 1));
            }
            if !hit {
                assert forall|a: int, b: int| reach(a, b) && #[trigger] self.st(a, b) != g1.st(a, b) && g1.adj_of(a, b) == 0 implies forall|t: int|
                    0 <= t < 8 ==> self.st((#[trigger] nb((a, b), t)).0, nb((a, b), t).1) != IState::Hidden by {
                    assert(self.around_done(q@, head as int, (a, b)));
                    assert forall|t: int| 0 <= t < 8 implies self.st((#[trigger] nb((a, b), t)).0, nb((a, b), t).1) != IState::Hidden by {
                        if waiting(q@, head as int, nb((a, b), t)) {
                            let i = choose|i: int| head <= i < q@.len() && (#[trigger] q@[i]).0 == nb((a, b), t).0 && q@[i].1 == nb((a, b), t).1;
                        }
                    }
                }
            } else {
                assert(ops.len() == CASCADE_BARRIER);
            }
            assert(ops.len() <= CASCADE_BARRIER);
        }
        (q, stop_at, hit)
    }

    /// Open (`x`, `y`) while the game is on. The first click keeps its 3x3
    /// block free of mines. A mine opens and ends the game. Otherwise the
    /// cell opens and, from cells with no mine around them, the opening
    /// spreads to their hidden neighbours, breadth first; once 8000 cells
    /// have opened, every third hidden cell (by the sum of its coordinates)
    /// still waiting becomes a barrier mine, which ends the spread. Every
    /// cell this opens is free of mines; the clicked cell opens unless it
    /// was flagged; and, unless 8000 cells opened, every opened cell with no
    /// mine around it has all its neighbours shown.
    #[verifier::rlimit(40)]
    pub fn reveal_cell(&mut self, x: i64, y: i64)
        requires
            near_board(x as int, y as int),
            old(self).wf(),
        ensures
            final(self).wf(),
            old(self).game_over ==> *final(self) == *old(self),
            !old(self).game_over ==> {
                let g1 = InfGame { safe_set: final(self).safe_set, started: true, ..*old(self) };
                &&& final(self).started
                &&& final(self).safe_set@ == if old(self).started {
                    old(self).safe_set@
                } else {
                    old(self).safe_set@.union(block_keys(x as int, y as int, 9))
                }
                &&& g1.mine_at(x as int, y as int) ==> {
                    &&& final(self).states@ == old(self).states@.insert(key_of(x as int, y as int), IState::Revealed)
                    &&& *final(self) == (InfGame { states: final(self).states, game_over: true, ..g1 })
                }
                &&& !g1.mine_at(x as int, y as int) ==> {
                    &&& !final(self).game_over
                    &&& g1.opens_to(*final(self))
                    &&& old(self).st(x as int, y as int) == IState::Hidden ==> final(self).st(x as int, y as int) == IState::Revealed
                    &&& forall|a: int, b: int|
                        in_range(a, b) && #[trigger] final(self).st(a, b) != old(self).st(a, b) ==> !final(self).mine_at(a, b)
                    &&& final(self).spread_complete(g1) || final(self).opened_many(g1)
                }
                &&& final(self).opened_at_most(*old(self))
            },
    {
        if self.game_over {
            return;
        }
        if !self.started {
            self.keep_block_safe(x, y);
            self.started = true;
        }
        let ghost g1 = *self;
        if self.is_mine(x, y) {
            self.states.insert(key(x, y), IState::Revealed);
            self.game_over = true;
            proof {
                let one = seq![(x as int, y as int)];
                assert forall|a: int, b: int| in_range(a, b) && #[trigger] self.st(a, b) != old(self).st(a, b) implies one.contains((a, b)) by {
                    lemma_key_unique(a, b, x as int, y as int);
                    assert(one[0] == (x as int, y as int));
                }
                assert(self.opened_at_most(*old(self)));
            }
            return;
        }
        let (q, stop_at, hit) = self.spread_from(x, y);
        proof {
            let ops = choose|ops: Seq<(int, int)>|
                ops.len() <= CASCADE_BARRIER && forall|a: int, b: int|
                    in_range(a, b) && #[trigger] self.st(a, b) != g1.st(a, b) ==> ops.contains((a, b));
            assert forall|a: int, b: int| in_range(a, b) && #[trigger] self.st(a, b) != old(self).st(a, b) implies ops.contains((a, b)) by {
                assert(g1.st(a, b) == old(self).st(a, b));
            }
            assert(self.opened_at_most(*old(self)));
        }
        let ghost s2 = *self;
        if hit {
            self.place_barrier(&q, stop_at, Ghost(x as int), Ghost(y as int));
        }
        proof {
            assert(self.states == s2.states);
            let ops = choose|ops: Seq<(int, int)>|
                ops.len() <= CASCADE_BARRIER && forall|a: int, b: int|
                    in_range(a, b) && #[trigger] s2.st(a, b) != old(self).st(a, b) ==> ops.contains((a, b));
            assert forall|a: int, b: int| in_range(a, b) && #[trigger] self.st(a, b) != old(self).st(a, b) implies ops.contains((a, b)) by {
                assert(s2.st(a, b) == self.st(a, b));
            }
            assert(self.opened_at_most(*old(self)));
            let gg = InfGame { safe_set: self.safe_set, started: true, ..*old(self) };
            assert(gg == g1);
            if hit {
                let ops = choose|ops: Seq<(int, int)>| ops.len() == CASCADE_BARRIER && ops.no_duplicates() && forall|i: int|
                    0 <= i < ops.len() ==> reach((#[trigger] ops[i]).0, ops[i].1) && s2.st(ops[i].0, ops[i].1) != g1.st(ops[i].0, ops[i].1);
                assert forall|i: int| 0 <= i < ops.len() implies reach((#[trigger] ops[i]).0, ops[i].1) && self.st(ops[i].0, ops[i].1)
                    != g1.st(ops[i].0, ops[i].1) by {
                    assert(s2.st(ops[i].0, ops[i].1) == self.st(ops[i].0, ops[i].1));
                }
                assert(self.opened_many(g1));
            }
            assert forall|a: int, b: int| in_range(a, b) && #[trigger] self.st(a, b) != g1.st(a, b) implies g1.st(a, b)
                == IState::Hidden && self.st(a, b) == IState::Revealed by {
                assert(s2.st(a, b) == self.st(a, b));
            }
            assert forall|a: int, b: int| in_range(a, b) && #[trigger] self.st(a, b) != old(self).st(a, b) implies !self.mine_at(a, b) by {
                assert(g1.st(a, b) == old(self).st(a, b));
                assert(s2.st(a, b) == self.st(a, b));
                assert(s2.st(a, b) != g1.st(a, b));
                assert(!g1.mine_at(a, b));
                if self.barrier_mines@.contains(key_of(a, b)) && !g1.barrier_mines@.contains(key_of(a, b)) {
                    assert(self.st(a, b) == IState::Hidden);
                }
            }
        }
    }
}

impl InfGame {
    /// `f` comes from this game by opening hidden cells (and placing
    /// barrier mines on hidden ones): seed, density, score, start and safe
    /// block stay; a game that was over stays over; while it is not over,
    /// every cell opened holds no mine.
    pub open spec fn advances(self, f: InfGame) -> bool {
        &&& f.seed == self.seed
        &&& f.threshold == self.threshold
        &&& f.score == self.score
        &&& f.started == self.started
        &&& f.safe_set@ == self.safe_set@
        &&& self.barrier_mines@.subset_of(f.barrier_mines@)
        &&& self.game_over ==> f.game_over
        &&& forall|a: int, b: int|
            in_range(a, b) && #[trigger] f.st(a, b) != self.st(a, b) ==> self.st(a, b) == IState::Hidden && f.st(a, b)
                == IState::Revealed
        &&& forall|a: int, b: int|
            in_range(a, b) && #[trigger] f.barrier_mines@.contains(key_of(a, b)) && !self.barrier_mines@.contains(key_of(a, b))
                ==> f.st(a, b) == IState::Hidden || f.safe_set@.contains(key_of(a, b)) || f.game_over
        &&& !f.game_over ==> forall|a: int, b: int|
            in_range(a, b) && #[trigger] f.st(a, b) != self.st(a, b) ==> !f.mine_at(a, b)
    }

    /// Whether a chord on (`x`, `y`) fires: the game is on, the cell is
    /// open with mines around it, and as many flags surround it.
    pub open spec fn chord_fires(self, x: int, y: int) -> bool {
        &&& !self.game_over
        &&& self.st(x, y) == IState::Revealed
        &&& self.adj_of(x, y) != 0
        &&& nb_sum(|q: (int, int)| self.flag_one(q), (x, y)) == self.adj_of(x, y)
    }
}

/// Advancing twice is advancing.
pub proof fn lemma_advances_trans(a: InfGame, b: InfGame, c: InfGame)
    requires
        a.advances(b),
        b.advances(c),
    ensures
        a.advances(c),
{
    assert forall|x: int, y: int| in_range(x, y) && #[trigger] c.st(x, y) != a.st(x, y) implies a.st(x, y) == IState::Hidden
        && c.st(x, y) == IState::Revealed by {
        if b.st(x, y) != a.st(x, y) {
            if c.st(x, y) != b.st(x, y) {
            }
        }
    }
    assert forall|x: int, y: int| in_range(x, y) && #[trigger] c.barrier_mines@.contains(key_of(x, y)) && !a.barrier_mines@.contains(
        key_of(x, y),
    ) implies c.st(x, y) == IState::Hidden || c.safe_set@.contains(key_of(x, y)) || c.game_over by {
        if b.barrier_mines@.contains(key_of(x, y)) && !c.game_over && !c.safe_set@.contains(key_of(x, y)) {
            assert(!b.game_over);
            assert(b.st(x, y) == IState::Hidden);
            if c.st(x, y) != b.st(x, y) {
                assert(!c.mine_at(x, y));
            }
        }
    }
    if !c.game_over {
        assert forall|x: int, y: int| in_range(x, y) && #[trigger] c.st(x, y) != a.st(x, y) implies !c.mine_at(x, y) by {
            if c.st(x, y) != b.st(x, y) {
            } else {
                assert(!b.game_over);
                assert(b.st(x, y) != a.st(x, y));
                assert(!b.mine_at(x, y));
                if c.barrier_mines@.contains(key_of(x, y)) && !b.barrier_mines@.contains(key_of(x, y)) {
                    assert(c.st(x, y) == IState::Hidden || c.safe_set@.contains(key_of(x, y)));
                }
            }
        }
    }
}

/// A mine stays a mine as the game advances.
pub proof fn lemma_advances_keeps_mines(a: InfGame, b: InfGame, x: int, y: int)
    requires
        a.advances(b),
        a.mine_at(x, y),
    ensures
        b.mine_at(x, y),
{
    if a.barrier_mines@.contains(key_of(x, y)) {
        assert(b.barrier_mines@.contains(key_of(x, y)));
    }
}

impl InfGame {
    /// Chord on (`x`, `y`): when it fires, every hidden neighbour is
    /// opened in scan order as `reveal_cell` says. The result only opens
    /// hidden cells. The game ends exactly when a neighbour that was hidden
    /// holds a mine: then such a neighbour is open and holds a mine;
    /// otherwise every neighbour that was hidden is open and no cell it
    /// opened holds a mine.
    #[verifier::spinoff_prover]
    #[verifier::rlimit(50)]
    pub fn chord(&mut self, x: i64, y: i64)
        requires
            on_board(x as int, y as int),
            old(self).wf(),
        ensures
            final(self).wf(),
            !old(self).chord_fires(x as int, y as int) ==> *final(self) == *old(self),
            old(self).chord_fires(x as int, y as int) ==> {
                &&& old(self).advances(*final(self))
                &&& !final(self).game_over ==> forall|t: int|
                    0 <= t < 8 && old(self).st(nb((x as int, y as int), t).0, nb((x as int, y as int), t).1) == IState::Hidden
                        ==> #[trigger] final(self).st(nb((x as int, y as int), t).0, nb((x as int, y as int), t).1)
                        == IState::Revealed
                &&& forall|t: int|
                    0 <= t < 8 && old(self).st(nb((x as int, y as int), t).0, nb((x as int, y as int), t).1) == IState::Hidden
                        && #[trigger] old(self).mine_at(nb((x as int, y as int), t).0, nb((x as int, y as int), t).1)
                        ==> final(self).game_over
                &&& final(self).game_over ==> exists|t: int|
                    0 <= t < 8 && old(self).st(nb((x as int, y as int), t).0, nb((x as int, y as int), t).1) == IState::Hidden
                        && #[trigger] final(self).mine_at(nb((x as int, y as int), t).0, nb((x as int, y as int), t).1)
                        && final(self).st(nb((x as int, y as int), t).0, nb((x as int, y as int), t).1) == IState::Revealed
            },
    {
        if self.game_over {
            return;
        }
        if !matches!(self.state_of(x, y), IState::Revealed) {
            return;
        }
        let adj = self.adj_mines(x, y);
        if adj == 0 {
            return;
        }
        if self.flags_around(x, y) != adj {
            return;
        }
        let ghost g0 = *self;
        let ghost p = (x as int, y as int);
        proof {
            assert(self.states@.contains_key(key_of(x as int, y as int)));
            assert(self.started);
        }
        for k in 0..8usize
            invariant
                on_board(x as int, y as int),
                p == (x as int, y as int),
                g0 == *old(self),
                g0.started,
                self.wf(),
                g0.advances(*self),
                forall|t: int|
                    0 <= t < k && g0.st(nb(p, t).0, nb(p, t).1) == IState::Hidden ==> self.game_over || #[trigger] self.st(
                        nb(p, t).0,
                        nb(p, t).1,
                    ) == IState::Revealed,
                !g0.game_over,
                forall|t: int|
                    0 <= t < k && g0.st(nb(p, t).0, nb(p, t).1) == IState::Hidden && #[trigger] g0.mine_at(nb(p, t).0, nb(p, t).1)
                        ==> self.game_over,
                self.game_over ==> exists|t: int|
                    0 <= t < 8 && g0.st(nb(p, t).0, nb(p, t).1) == IState::Hidden && #[trigger] self.mine_at(nb(p, t).0, nb(p, t).1)
                        && self.st(nb(p, t).0, nb(p, t).1) == IState::Revealed,
        {
            let (dx, dy) = offset_of(k);
            let nx = x + dx as i64 - 1;
            let ny = y + dy as i64 - 1;
            assert((nx as int, ny as int) == nb(p, k as int));
            if matches!(self.state_of(nx, ny), IState::Hidden) {
                let ghost before = *self;
                self.reveal_cell(nx, ny);
                proof {
                    if !before.game_over {
                        assert(before.advances(*self)) by {
                            if before.mine_at(nx as int, ny as int) {
                                assert forall|a: int, b: int| in_range(a, b) && #[trigger] self.st(a, b) != before.st(a, b) implies before.st(a, b)
                                    == IState::Hidden && self.st(a, b) == IState::Revealed by {
                                    lemma_key_unique(a, b, nx as int, ny as int);
                                }
                            }
                        }
                    }
                    lemma_advances_trans(g0, before, *self);
                    let n = nb(p, k as int);
                    if before.game_over {
                        assert(*self == before);
                    } else {
                        assert(before.st(n.0, n.1) == IState::Hidden);
                        assert(g0.st(n.0, n.1) == IState::Hidden);
                        if before.mine_at(n.0, n.1) {
                            assert(self.game_over);
                            assert(self.st(n.0, n.1) == IState::Revealed);
                            assert(self.mine_at(n.0, n.1));
                        } else {
                            assert(!self.game_over);
                        }
                    }
                    assert forall|t: int|
                        0 <= t < k + 1 && g0.st(nb(p, t).0, nb(p, t).1) == IState::Hidden && #[trigger] g0.mine_at(nb(p, t).0, nb(p, t).1)
                            implies self.game_over by {
                        if t == k && !before.game_over {
                            lemma_advances_keeps_mines(g0, before, n.0, n.1);
                        }
                    }
                    assert forall|t: int|
                        0 <= t < k + 1 && g0.st(nb(p, t).0, nb(p, t).1) == IState::Hidden implies self.game_over || #[trigger] self.st(
                            nb(p, t).0,
                            nb(p, t).1,
                        ) == IState::Revealed by {
                        if t < k && !self.game_over {
                            assert(!before.game_over);
                            if before.st(nb(p, t).0, nb(p, t).1) == IState::Revealed {
                                if self.st(nb(p, t).0, nb(p, t).1) != before.st(nb(p, t).0, nb(p, t).1) {
                                }
                            }
                        }
                    }
                }
            } else {
                proof {
                    if !self.game_over && g0.st(nx as int, ny as int) == IState::Hidden {
                        assert(self.st(nx as int, ny as int) != g0.st(nx as int, ny as int));
                        if g0.mine_at(nx as int, ny as int) {
                            lemma_advances_keeps_mines(g0, *self, nx as int, ny as int);
                        }
                    }
                }
            }
        }
    }
}

/// The safe cells per mine of an endless board built from a board size:
/// a width given with the marker height 9997 is taken as it is; otherwise
/// the ratio of safe cells to mines, from 1 to 20 (5 with no mines).
pub fn safe_per_mine(width: usize, height: usize, mine_count: usize) -> (r: u32)
    requires
        width * height <= usize::MAX,
    ensures
        height == 9997 ==> r == width as u32,
        height != 9997 && mine_count == 0 ==> r == 5,
        height != 9997 && mine_count != 0 ==> {
            let safe = if width * height >= mine_count { width * height - mine_count } else { 0 };
            let ratio = safe / (mine_count as int);
            r == if ratio < 1 { 1 } else if ratio > 20 { 20 } else { ratio }
        },
{
    if height == 9997 {
        return width as u32;
    }
    let total = width * height;
    let safe = if total >= mine_count { total - mine_count } else { 0 };
    if mine_count == 0 {
        5
    } else {
        let ratio = safe / mine_count;
        if ratio < 1 {
            1
        } else if ratio > 20 {
            20
        } else {
            ratio as u32
        }
    }
}

/// Flagging a hidden cell and taking the flag off again gives back what
/// every cell shows and the score: the two changes that `toggle_flag`
/// makes undo each other.
pub proof fn lemma_flag_round_trip(g0: InfGame, g1: InfGame, g2: InfGame, x: int, y: int)
    requires
        in_range(x, y),
        g0.st(x, y) == IState::Hidden,
        g1.states@ == g0.states@.insert(key_of(x, y), IState::Flagged),
        g1.score == g0.score + if g0.mine_at(x, y) { 1int } else { -1int },
        g1 == (InfGame { states: g1.states, score: g1.score, ..g0 }),
        g2.states@ == g1.states@.remove(key_of(x, y)),
        g2.score == g1.score - if g1.mine_at(x, y) { 1int } else { -1int },
        g2 == (InfGame { states: g2.states, score: g2.score, ..g1 }),
    ensures
        forall|a: int, b: int| in_range(a, b) ==> #[trigger] g2.st(a, b) == g0.st(a, b),
        g2.score == g0.score,
        g2 == (InfGame { states: g2.states, ..g0 }),
{
    assert(g1.mine_at(x, y) == g0.mine_at(x, y));
    assert forall|a: int, b: int| in_range(a, b) implies #[trigger] g2.st(a, b) == g0.st(a, b) by {
        lemma_key_unique(a, b, x, y);
    }
}

} // verus!

use vstd::prelude::*;
use crate::cascade::{inside, nb, neighbor_of};
use crate::game::{Game, CellState, GameState, MAX_CELLS};
use crate::graph::{
    GCell, GraphGame, g_total, g_flagged, g_revealed, g_hidden, lemma_g_set, lemma_g_bounds, lemma_wf_adj_same,
    adj_view, flooded, state_among,
};
use crate::random::random_chance;

verus! {

/// A group of Merge: a 1x1, 2x1, 1x2 or 2x2 block of cells that plays as a
/// single cell.
pub struct MergeGroup {
    /// Top-left cell (column, row).
    pub origin: (usize, usize),
    pub span_w: usize,
    pub span_h: usize,
    /// The cells of the block, row by row.
    pub cells: Vec<(usize, usize)>,
}

/// The cells of the block at `o` of the given spans, row by row.
pub open spec fn rect_cells(o: (usize, usize), sw: usize, sh: usize) -> Seq<(usize, usize)> {
    let (x, y) = o;
    if sw == 2 && sh == 2 {
        seq![(x, y), ((x + 1) as usize, y), (x, (y + 1) as usize), ((x + 1) as usize, (y + 1) as usize)]
    } else if sw == 2 {
        seq![(x, y), ((x + 1) as usize, y)]
    } else if sh == 2 {
        seq![(x, y), (x, (y + 1) as usize)]
    } else {
        seq![(x, y)]
    }
}

/// Cell `c` lies in the block of `gr`.
pub open spec fn in_group(gr: MergeGroup, c: (int, int)) -> bool {
    &&& gr.origin.0 <= c.0 < gr.origin.0 + gr.span_w
    &&& gr.origin.1 <= c.1 < gr.origin.1 + gr.span_h
}

/// A block of one of the four shapes inside a `w` by `h` board, listing its cells.
pub open spec fn group_ok(gr: MergeGroup, w: int, h: int) -> bool {
    &&& gr.span_w == 1 || gr.span_w == 2
    &&& gr.span_h == 1 || gr.span_h == 2
    &&& gr.origin.0 + gr.span_w <= w
    &&& gr.origin.1 + gr.span_h <= h
    &&& gr.cells@ == rect_cells(gr.origin, gr.span_w, gr.span_h)
}

/// The group index that `map` gives cell `c`.
pub open spec fn map_at(map: Seq<Vec<usize>>, c: (int, int)) -> int {
    map[c.1]@[c.0] as int
}

/// The map has `h` rows of `w` entries.
pub open spec fn map_shaped(map: Seq<Vec<usize>>, w: int, h: int) -> bool {
    &&& map.len() == h
    &&& forall|j: int| 0 <= j < h ==> (#[trigger] map[j])@.len() == w
}

/// The groups cut the `w` by `h` board into blocks, and `map` names for
/// each cell the group whose block holds it.
pub open spec fn partition(w: int, h: int, map: Seq<Vec<usize>>, groups: Seq<MergeGroup>) -> bool {
    &&& map_shaped(map, w, h)
    &&& forall|g: int| 0 <= g < groups.len() ==> group_ok(#[trigger] groups[g], w, h)
    &&& forall|i: int, j: int|
        inside(w, h, (i, j)) ==> #[trigger] map_at(map, (i, j)) < groups.len() && in_group(groups[map_at(map, (i, j))], (i, j))
    &&& forall|g: int, i: int, j: int|
        0 <= g < groups.len() && inside(w, h, (i, j)) && #[trigger] in_group(groups[g], (i, j)) ==> map_at(map, (i, j)) == g
}

/// Set one entry of a group map.
fn set_map(map: &mut Vec<Vec<usize>>, x: usize, y: usize, v: usize)
    requires
        y < old(map)@.len(),
        x < old(map)@[y as int]@.len(),
    ensures
        final(map)@.len() == old(map)@.len(),
        forall|j: int| 0 <= j < final(map)@.len() ==> (#[trigger] final(map)@[j])@.len() == old(map)@[j]@.len(),
        forall|i: int, j: int|
            0 <= j < final(map)@.len() && 0 <= i < final(map)@[j]@.len() ==> #[trigger] map_at(final(map)@, (i, j)) == if i == x
                && j == y {
                v as int
            } else {
                map_at(old(map)@, (i, j))
            },
{
    map[y].set(x, v);
}

/// Cut a `w` by `h` board into groups, scanning in row-major order: each
/// cell not yet taken starts a group, which is 2x2 with chance 3 in 100 when
/// that block is free, else 2x1 with chance 5 in 100 when the cell to the
/// right is free, else 1x2 with chance 5 in 100 when the cell below is free,
/// else 1x1.
pub fn build_layout(w: usize, h: usize) -> (r: (Vec<Vec<usize>>, Vec<MergeGroup>))
    requires
        1 <= w,
        1 <= h,
        w * h <= MAX_CELLS,
    ensures
        partition(w as int, h as int, r.0@, r.1@),
        1 <= r.1@.len() <= w * h,
{
    let free = usize::MAX;
    let mut map: Vec<Vec<usize>> = Vec::new();
    for y in 0..h
        invariant
            free == usize::MAX,
            map@.len() == y,
            forall|j: int| 0 <= j < y ==> (#[trigger] map@[j])@.len() == w,
            forall|i: int, j: int| 0 <= j < y && 0 <= i < w ==> #[trigger] map_at(map@, (i, j)) == usize::MAX,
    {
        let mut row: Vec<usize> = Vec::new();
        for x in 0..w
            invariant
                free == usize::MAX,
                row@.len() == x,
                forall|i: int| 0 <= i < x ==> #[trigger] row@[i] == usize::MAX,
        {
            row.push(free);
        }
        let ghost before = map@;
        map.push(row);
        proof {
            assert forall|i: int, j: int| 0 <= j < y + 1 && 0 <= i < w implies #[trigger] map_at(map@, (i, j)) == usize::MAX by {
                if j < y {
                    assert(map@[j] == before[j]);
                    assert(map_at(before, (i, j)) == usize::MAX);
                }
            }
        }
    }
    let mut groups: Vec<MergeGroup> = Vec::new();
    for y in 0..h
        invariant
            1 <= w,
            1 <= h,
            w * h <= MAX_CELLS,
            free == usize::MAX,
            map_shaped(map@, w as int, h as int),
            groups@.len() <= y * w,
            forall|g: int| 0 <= g < groups@.len() ==> group_ok(#[trigger] groups@[g], w as int, h as int),
            forall|g: int, i: int, j: int|
                0 <= g < groups@.len() && inside(w as int, h as int, (i, j)) && #[trigger] in_group(groups@[g], (i, j))
                    ==> map_at(map@, (i, j)) == g,
            forall|i: int, j: int|
                inside(w as int, h as int, (i, j)) && #[trigger] map_at(map@, (i, j)) != usize::MAX ==> map_at(map@, (i, j))
                    < groups@.len() && in_group(groups@[map_at(map@, (i, j))], (i, j)),
            forall|i: int, j: int|
                inside(w as int, h as int, (i, j)) && j < y ==> #[trigger] map_at(map@, (i, j)) != usize::MAX,
    {
        for x in 0..w
            invariant
                1 <= w,
                1 <= h,
                w * h <= MAX_CELLS,
                y < h,
                free == usize::MAX,
                map_shaped(map@, w as int, h as int),
                groups@.len() <= y * w + x,
                forall|g: int| 0 <= g < groups@.len() ==> group_ok(#[trigger] groups@[g], w as int, h as int),
                forall|g: int, i: int, j: int|
                    0 <= g < groups@.len() && inside(w as int, h as int, (i, j)) && #[trigger] in_group(groups@[g], (i, j))
                        ==> map_at(map@, (i, j)) == g,
                forall|i: int, j: int|
                    inside(w as int, h as int, (i, j)) && #[trigger] map_at(map@, (i, j)) != usize::MAX ==> map_at(
                        map@,
                        (i, j),
                    ) < groups@.len() && in_group(groups@[map_at(map@, (i, j))], (i, j)),
                forall|i: int, j: int|
                    inside(w as int, h as int, (i, j)) && (j < y || (j == y && i < x)) ==> #[trigger] map_at(map@, (i, j))
                        != usize::MAX,
        {
            proof {
                assert(y * w + x < w * h) by (nonlinear_arith)
                    requires
                        y < h,
                        x < w,
                ;
                assert(map@[y as int]@.len() == w);
            }
            if map[y][x] == free {
                let can_r = x + 1 < w && map[y][x + 1] == free;
                let can_d = y + 1 < h && {
                    assert(map@[y + 1]@.len() == w);
                    map[y + 1][x] == free
                };
                let can_2x2 = can_r && can_d && {
                    assert(map@[y + 1]@.len() == w);
                    map[y + 1][x + 1] == free
                };
                let (sw, sh) = if can_2x2 && random_chance(3, 100) {
                    (2usize, 2usize)
                } else if can_r && random_chance(5, 100) {
                    (2usize, 1usize)
                } else if can_d && random_chance(5, 100) {
                    (1usize, 2usize)
                } else {
                    (1usize, 1usize)
                };
                let gid = groups.len();
                let ghost m0 = map@;
                let mut cells: Vec<(usize, usize)> = Vec::new();
                cells.push((x, y));
                set_map(&mut map, x, y, gid);
                if sw == 2 {
                    cells.push((x + 1, y));
                    set_map(&mut map, x + 1, y, gid);
                }
                if sh == 2 {
                    cells.push((x, y + 1));
                    set_map(&mut map, x, y + 1, gid);
                    if sw == 2 {
                        cells.push((x + 1, y + 1));
                        set_map(&mut map, x + 1, y + 1, gid);
                    }
                }
                let ghost old_groups = groups@;
                groups.push(MergeGroup { origin: (x, y), span_w: sw, span_h: sh, cells });
                proof {
                    let ng = groups@[gid as int];
                    assert(ng.cells@ =~= rect_cells(ng.origin, sw, sh));
                    assert(group_ok(ng, w as int, h as int));
                    assert forall|i: int, j: int| inside(w as int, h as int, (i, j)) implies #[trigger] map_at(map@, (i, j))
                        == if in_group(ng, (i, j)) {
                        gid as int
                    } else {
                        map_at(m0, (i, j))
                    } by {}
                    assert forall|g: int| 0 <= g < groups@.len() implies group_ok(#[trigger] groups@[g], w as int, h as int) by {
                        if g < gid {
                            assert(groups@[g] == old_groups[g]);
                        }
                    }
                    assert forall|g: int, i: int, j: int|
                        0 <= g < groups@.len() && inside(w as int, h as int, (i, j)) && #[trigger] in_group(groups@[g], (i, j))
                            implies map_at(map@, (i, j)) == g by {
                        if g < gid {
                            assert(groups@[g] == old_groups[g]);
                            assert(map_at(m0, (i, j)) == g);
                            if in_group(ng, (i, j)) {
                                assert(map_at(m0, (i, j)) == usize::MAX);
                            }
                        }
                    }
                    assert forall|i: int, j: int|
                        inside(w as int, h as int, (i, j)) && #[trigger] map_at(map@, (i, j)) != usize::MAX implies map_at(
                            map@,
                            (i, j),
                        ) < groups@.len() && in_group(groups@[map_at(map@, (i, j))], (i, j)) by {
                        if !in_group(ng, (i, j)) {
                            let g = map_at(m0, (i, j));
                            assert(groups@[g] == old_groups[g]);
                        }
                    }
                    assert(y * w + x + 1 <= y * w + w);
                }
            }
        }
        proof {
            assert(y * w + w == (y + 1) * w) by (nonlinear_arith);
        }
    }
    proof {
        assert(h * w == w * h) by (nonlinear_arith);
        assert(map_at(map@, (0, 0)) != usize::MAX);
    }
    (map, groups)
}

/// The `ci`-th cell of a group as a pair of integers.
pub open spec fn cpos(gr: MergeGroup, ci: int) -> (int, int) {
    (gr.cells@[ci].0 as int, gr.cells@[ci].1 as int)
}

/// Some cell of the group `gr` has, among its eight neighbours on the
/// board, a cell of group `g`; only the cells before the `k`-th neighbour of
/// its `ci`-th cell are looked at.
pub open spec fn touches_upto(w: int, h: int, map: Seq<Vec<usize>>, gr: MergeGroup, g: int, ci: int, k: int) -> bool {
    exists|a: int, b: int|
        0 <= a && 0 <= b < 8 && (a < ci || (a == ci && b < k)) && a < gr.cells@.len() && inside(w, h, nb(cpos(gr, a), b))
            && #[trigger] map_at(map, nb(cpos(gr, a), b)) == g
}

/// Some cell of group `gr` lies beside a cell of group `g`.
pub open spec fn touches(w: int, h: int, map: Seq<Vec<usize>>, gr: MergeGroup, g: int) -> bool {
    touches_upto(w, h, map, gr, g, gr.cells@.len() as int, 0)
}

/// The neighbour list of group `gid`: the other groups that touch it, each
/// once.
pub open spec fn nbr_list_ok(w: int, h: int, map: Seq<Vec<usize>>, groups: Seq<MergeGroup>, gid: int, l: Seq<usize>) -> bool {
    &&& l.no_duplicates()
    &&& l.len() <= 32
    &&& forall|t: int|
        0 <= t < l.len() ==> #[trigger] l[t] != gid && l[t] < groups.len() && touches(w, h, map, groups[gid], l[t] as int)
    &&& forall|g: int| 0 <= g < groups.len() && g != gid && touches(w, h, map, groups[gid], g) ==> #[trigger] l.contains(g as usize)
}

/// The cells of a well-formed group lie on the board and in its block.
pub proof fn lemma_group_cells(gr: MergeGroup, w: int, h: int)
    requires
        group_ok(gr, w, h),
        w <= usize::MAX,
        h <= usize::MAX,
    ensures
        1 <= gr.cells@.len() <= 4,
        forall|ci: int| 0 <= ci < gr.cells@.len() ==> inside(w, h, #[trigger] cpos(gr, ci)) && in_group(gr, cpos(gr, ci)),
{
    let (x, y) = gr.origin;
    assert forall|ci: int| 0 <= ci < gr.cells@.len() implies inside(w, h, #[trigger] cpos(gr, ci)) && in_group(gr, cpos(gr, ci)) by {
        if gr.span_w == 2 && gr.span_h == 2 {
            assert(gr.cells@ == seq![(x, y), ((x + 1) as usize, y), (x, (y + 1) as usize), ((x + 1) as usize, (y + 1) as usize)]);
        } else if gr.span_w == 2 {
            assert(gr.cells@ == seq![(x, y), ((x + 1) as usize, y)]);
        } else if gr.span_h == 2 {
            assert(gr.cells@ == seq![(x, y), (x, (y + 1) as usize)]);
        } else {
            assert(gr.cells@ == seq![(x, y)]);
        }
    }
}

/// The groups that touch group `gid`, each once, in the order in which its
/// cells and their neighbours are scanned.
pub fn group_neighbors(w: usize, h: usize, map: &Vec<Vec<usize>>, groups: &Vec<MergeGroup>, gid: usize) -> (v: Vec<usize>)
    requires
        partition(w as int, h as int, map@, groups@),
        gid < groups@.len(),
    ensures
        nbr_list_ok(w as int, h as int, map@, groups@, gid as int, v@),
{
    let ghost gr = groups@[gid as int];
    let ghost wi = w as int;
    let ghost hi = h as int;
    proof {
        lemma_group_cells(gr, wi, hi);
    }
    let n = groups.len();
    let mut seen: Vec<bool> = Vec::new();
    for i in 0..n
        invariant
            seen@.len() == i,
            forall|g: int| 0 <= g < i ==> !#[trigger] seen@[g],
    {
        seen.push(false);
    }
    let cells = &groups[gid].cells;
    let mut v: Vec<usize> = Vec::new();
    for ci in 0..cells.len()
        invariant
            partition(wi, hi, map@, groups@),
            wi == w,
            hi == h,
            n == groups@.len(),
            gid < n,
            gr == groups@[gid as int],
            cells@ == gr.cells@,
            1 <= cells@.len() <= 4,
            forall|c: int| 0 <= c < gr.cells@.len() ==> inside(wi, hi, #[trigger] cpos(gr, c)),
            seen@.len() == n,
            forall|g: int| 0 <= g < n ==> (#[trigger] seen@[g] <==> v@.contains(g as usize)),
            v@.no_duplicates(),
            v@.len() <= 8 * ci,
            forall|t: int| 0 <= t < v@.len() ==> #[trigger] v@[t] != gid && v@[t] < n && touches(wi, hi, map@, gr, v@[t] as int),
            forall|g: int| 0 <= g < n && g != gid && touches_upto(wi, hi, map@, gr, g, ci as int, 0) ==> #[trigger] v@.contains(g as usize),
    {
        let (cx, cy) = cells[ci];
        assert(inside(wi, hi, cpos(gr, ci as int)));
        for k in 0..8usize
            invariant
                partition(wi, hi, map@, groups@),
                wi == w,
                hi == h,
                n == groups@.len(),
                gid < n,
                gr == groups@[gid as int],
                ci < gr.cells@.len(),
                1 <= cells@.len() <= 4,
                cpos(gr, ci as int) == (cx as int, cy as int),
                cx < w,
                cy < h,
                seen@.len() == n,
                forall|g: int| 0 <= g < n ==> (#[trigger] seen@[g] <==> v@.contains(g as usize)),
                v@.no_duplicates(),
                v@.len() <= 8 * ci + k,
                forall|t: int| 0 <= t < v@.len() ==> #[trigger] v@[t] != gid && v@[t] < n && touches(wi, hi, map@, gr, v@[t] as int),
                forall|g: int|
                    0 <= g < n && g != gid && touches_upto(wi, hi, map@, gr, g, ci as int, k as int) ==> #[trigger] v@.contains(
                        g as usize,
                    ),
        {
            let ghost p = nb(cpos(gr, ci as int), k as int);
            let ghost v0 = v@;
            let ghost seen0 = seen@;
            match neighbor_of(w, h, cx, cy, k) {
                Some((nx, ny)) => {
                    assert(map@[ny as int]@.len() == w);
                    let ng = map[ny][nx];
                    proof {
                        assert(map_at(map@, p) == ng);
                        assert(ng < n);
                        assert(touches_upto(wi, hi, map@, gr, ng as int, ci as int, k + 1));
                        assert(touches(wi, hi, map@, gr, ng as int));
                    }
                    if ng != gid && !seen[ng] {
                        let ghost before = v@;
                        seen.set(ng, true);
                        v.push(ng);
                        proof {
                            assert(v@[v@.len() - 1] == ng);
                            assert forall|g: int| 0 <= g < n implies (#[trigger] seen@[g] <==> v@.contains(g as usize)) by {
                                if v@.contains(g as usize) && g != ng {
                                    let t = choose|t: int| 0 <= t < v@.len() && v@[t] == g as usize;
                                    assert(before[t] == g as usize);
                                }
                                if before.contains(g as usize) {
                                    let t = choose|t: int| 0 <= t < before.len() && before[t] == g as usize;
                                    assert(v@[t] == g as usize);
                                }
                            }
                            assert(!before.contains(ng));
                            assert forall|a: int, b: int| 0 <= a < b < v@.len() implies v@[a] != v@[b] by {
                                if b == v@.len() - 1 {
                                    assert(before.contains(v@[a]));
                                } else {
                                    assert(v@[a] == before[a] && v@[b] == before[b]);
                                }
                            }
                            assert forall|t: int| 0 <= t < v@.len() implies #[trigger] v@[t] != gid && v@[t] < n && touches(
                                wi,
                                hi,
                                map@,
                                gr,
                                v@[t] as int,
                            ) by {
                                if t < before.len() {
                                    assert(v@[t] == before[t]);
                                }
                            }
                        }
                    }
                    proof {
                        assert forall|g: int|
                            0 <= g < n && g != gid && touches_upto(wi, hi, map@, gr, g, ci as int, k + 1) implies #[trigger] v@.contains(
                            g as usize,
                        ) by {
                            if !touches_upto(wi, hi, map@, gr, g, ci as int, k as int) {
                                let (a, b) = choose|a: int, b: int|
                                    0 <= a && 0 <= b < 8 && (a < ci || (a == ci && b < k + 1)) && a < gr.cells@.len() && inside(
                                        wi,
                                        hi,
                                        nb(cpos(gr, a), b),
                                    ) && #[trigger] map_at(map@, nb(cpos(gr, a), b)) == g;
                                assert(a == ci && b == k);
                                assert(g == ng);
                                assert(seen@[g]);
                            } else {
                                assert(v0.contains(g as usize));
                                assert(seen0[g]);
                                assert(seen@[g]);
                            }
                        }
                    }
                },
                None => {
                    proof {
                        assert forall|g: int|
                            0 <= g < n && g != gid && touches_upto(wi, hi, map@, gr, g, ci as int, k + 1) implies #[trigger] v@.contains(
                            g as usize,
                        ) by {
                            if !touches_upto(wi, hi, map@, gr, g, ci as int, k as int) {
                                let (a, b) = choose|a: int, b: int|
                                    0 <= a && 0 <= b < 8 && (a < ci || (a == ci && b < k + 1)) && a < gr.cells@.len() && inside(
                                        wi,
                                        hi,
                                        nb(cpos(gr, a), b),
                                    ) && #[trigger] map_at(map@, nb(cpos(gr, a), b)) == g;
                                assert(a == ci && b == k);
                            }
                        }
                    }
                },
            }
        }
        proof {
            assert forall|g: int|
                0 <= g < n && g != gid && touches_upto(wi, hi, map@, gr, g, ci + 1, 0) implies #[trigger] v@.contains(g as usize) by {
                let (a, b) = choose|a: int, b: int|
                    0 <= a && 0 <= b < 8 && (a < ci + 1 || (a == ci + 1 && b < 0)) && a < gr.cells@.len() && inside(
                        wi,
                        hi,
                        nb(cpos(gr, a), b),
                    ) && #[trigger] map_at(map@, nb(cpos(gr, a), b)) == g;
                assert(touches_upto(wi, hi, map@, gr, g, ci as int, 8));
            }
        }
    }
    v
}

/// Merge: a board whose cells are merged into groups that play as one
/// cell. The layout is fixed when the game is made; the groups play as the
/// cells of a graph whose neighbour lists are the touching groups.
pub struct MergeGame {
    pub width: usize,
    pub height: usize,
    /// For each cell (row, then column), the group holding it.
    pub group_map: Vec<Vec<usize>>,
    pub groups: Vec<MergeGroup>,
    /// The groups as the cells of a graph game.
    pub board: GraphGame,
}

/// Every mine still hidden is shown; flagged mines keep their flags.
pub open spec fn hidden_mines_shown(c: Seq<GCell>) -> Seq<GCell> {
    Seq::new(
        c.len(),
        |i: int|
            if c[i].is_mine && c[i].state == CellState::Hidden {
                GCell { state: CellState::Revealed, ..c[i] }
            } else {
                c[i]
            },
    )
}

/// Every group is a mine or revealed.
pub open spec fn all_clear(c: Seq<GCell>) -> bool {
    forall|i: int| 0 <= i < c.len() ==> (#[trigger] c[i]).is_mine || c[i].state == CellState::Revealed
}

/// A click on group `idx` once the mines are placed: the groups, the game
/// state and whether anything happened. Nothing happens unless the game is
/// live and the group hidden; a mine loses and shows every hidden mine;
/// otherwise the group is opened, a group with no mine around it spreads
/// the opening, and the game is won once every group is a mine or open.
pub open spec fn merge_open(c: Seq<GCell>, adj: Seq<Seq<usize>>, st: GameState, idx: int) -> (Seq<GCell>, GameState, bool) {
    if st != GameState::Playing || c[idx].state != CellState::Hidden {
        (c, st, false)
    } else if c[idx].is_mine {
        (hidden_mines_shown(c), GameState::Lost, true)
    } else {
        let c2 = flooded(c, adj, idx);
        (c2, if all_clear(c2) { GameState::Won } else { GameState::Playing }, true)
    }
}

/// Opening the groups of `l` in turn, each one only if it is still hidden
/// when its turn comes; the flag says whether any was.
pub open spec fn chord_run(c: Seq<GCell>, adj: Seq<Seq<usize>>, st: GameState, l: Seq<usize>) -> (Seq<GCell>, GameState, bool)
    decreases l.len(),
{
    if l.len() == 0 {
        (c, st, false)
    } else {
        let r = chord_run(c, adj, st, l.drop_last());
        if r.0[l.last() as int].state == CellState::Hidden {
            let o = merge_open(r.0, adj, r.1, l.last() as int);
            (o.0, o.1, true)
        } else {
            r
        }
    }
}

/// Two boards whose cells are in the same states have the same totals.
pub proof fn lemma_same_states(a: Seq<GCell>, b: Seq<GCell>)
    requires
        a.len() == b.len(),
        forall|i: int| 0 <= i < a.len() ==> (#[trigger] a[i]).state == b[i].state,
    ensures
        g_total(a, |c: GCell| g_flagged(c)) == g_total(b, |c: GCell| g_flagged(c)),
        g_total(a, |c: GCell| g_revealed(c)) == g_total(b, |c: GCell| g_revealed(c)),
        g_total(a, |c: GCell| g_hidden(c)) == g_total(b, |c: GCell| g_hidden(c)),
{
    assert(a.map_values(|c: GCell| g_flagged(c)) =~= b.map_values(|c: GCell| g_flagged(c)));
    assert(a.map_values(|c: GCell| g_revealed(c)) =~= b.map_values(|c: GCell| g_revealed(c)));
    assert(a.map_values(|c: GCell| g_hidden(c)) =~= b.map_values(|c: GCell| g_hidden(c)));
}

impl MergeGame {
    /// The layout partitions the board, the groups play as a well-formed
    /// graph game, and each group's neighbour list is the groups touching it.
    pub open spec fn wf(self) -> bool {
        &&& 1 <= self.width
        &&& 1 <= self.height
        &&& self.width * self.height <= MAX_CELLS
        &&& partition(self.width as int, self.height as int, self.group_map@, self.groups@)
        &&& self.board.wf()
        &&& self.board.n() == self.groups@.len()
        &&& forall|g: int|
            0 <= g < self.board.n() ==> nbr_list_ok(
                self.width as int,
                self.height as int,
                self.group_map@,
                self.groups@,
                g,
                #[trigger] self.board.nbrs(g),
            )
    }

    /// The same layout as `other`.
    pub open spec fn same_layout(self, other: MergeGame) -> bool {
        &&& self.width == other.width
        &&& self.height == other.height
        &&& self.group_map == other.group_map
        &&& self.groups == other.groups
    }

    /// A new game: the board cut into random groups, with the mine count
    /// capped at the number of groups less nine; no mine is placed before
    /// the first click.
    pub fn new(width: usize, height: usize, mine_count: usize) -> (m: MergeGame)
        requires
            1 <= width,
            1 <= height,
            width * height <= MAX_CELLS,
        ensures
            m.wf(),
            m.width == width,
            m.height == height,
            m.board.state == GameState::Ready,
            m.board.mines_total == if m.groups@.len() > 9 {
                if mine_count < m.groups@.len() - 9 { mine_count as int } else { m.groups@.len() - 9 }
            } else {
                0
            },
            m.board.flags_placed == 0,
    {
        let (map, groups) = build_layout(width, height);
        let n = groups.len();
        let cap = if n > 9 { n - 9 } else { 0 };
        let mc = if mine_count < cap { mine_count } else { cap };
        let mut adj: Vec<Vec<usize>> = Vec::new();
        for g in 0..n
            invariant
                n == groups@.len(),
                partition(width as int, height as int, map@, groups@),
                adj@.len() == g,
                forall|k: int| 0 <= k < g ==> nbr_list_ok(width as int, height as int, map@, groups@, k, #[trigger] adj@[k]@),
        {
            let l = group_neighbors(width, height, &map, &groups, g);
            adj.push(l);
        }
        proof {
            assert forall|i: int| 0 <= i < adj@.len() implies (#[trigger] adj@[i])@.len() <= 255 by {
                assert(nbr_list_ok(width as int, height as int, map@, groups@, i, adj@[i]@));
            }
            assert forall|i: int, j: int| 0 <= i < adj@.len() && 0 <= j < adj@[i]@.len() implies #[trigger] adj@[i]@[j]
                < adj@.len() by {
                assert(nbr_list_ok(width as int, height as int, map@, groups@, i, adj@[i]@));
            }
        }
        let board = GraphGame::new(adj, mc);
        let m = MergeGame { width, height, group_map: map, groups, board };
        proof {
            assert forall|g: int| 0 <= g < m.board.n() implies nbr_list_ok(
                m.width as int,
                m.height as int,
                m.group_map@,
                m.groups@,
                g,
                #[trigger] m.board.nbrs(g),
            ) by {
                assert(m.board.nbrs(g) == adj@[g]@);
            }
        }
        m
    }

    /// The groups that touch group `gid`, each once.
    pub fn neighbors(&self, gid: usize) -> (v: Vec<usize>)
        requires
            self.wf(),
            gid < self.groups@.len(),
        ensures
            nbr_list_ok(self.width as int, self.height as int, self.group_map@, self.groups@, gid as int, v@),
    {
        group_neighbors(self.width, self.height, &self.group_map, &self.groups, gid)
    }

    /// Show every mine still hidden.
    fn show_hidden_mines(&mut self)
        requires
            old(self).board.n() <= MAX_CELLS,
        ensures
            final(self).board.cells@ == hidden_mines_shown(old(self).board.cells@),
            final(self).board == (GraphGame { cells: final(self).board.cells, ..old(self).board }),
            final(self).same_layout(*old(self)),
            g_total(final(self).board.cells@, |c: GCell| g_flagged(c)) == g_total(old(self).board.cells@, |c: GCell| g_flagged(c)),
            g_total(final(self).board.cells@, |c: GCell| g_revealed(c)) >= g_total(old(self).board.cells@, |c: GCell| g_revealed(c)),
    {
        let ghost m0 = *self;
        let ghost c0 = self.board.cells@;
        let n = self.board.cells.len();
        for i in 0..n
            invariant
                n == c0.len(),
                self.same_layout(m0),
                self.board == (GraphGame { cells: self.board.cells, ..m0.board }),
                self.board.cells@.len() == n,
                forall|k: int| 0 <= k < n ==> #[trigger] self.board.cells@[k] == if k < i { hidden_mines_shown(c0)[k] } else { c0[k] },
                g_total(self.board.cells@, |c: GCell| g_flagged(c)) == g_total(c0, |c: GCell| g_flagged(c)),
                g_total(self.board.cells@, |c: GCell| g_revealed(c)) >= g_total(c0, |c: GCell| g_revealed(c)),
        {
            let c = self.board.cells[i];
            if c.is_mine && matches!(c.state, CellState::Hidden) {
                let nc = GCell { state: CellState::Revealed, ..c };
                proof {
                    lemma_g_set(self.board.cells@, i as int, nc, |c: GCell| g_flagged(c));
                    lemma_g_set(self.board.cells@, i as int, nc, |c: GCell| g_revealed(c));
                }
                self.board.put(i, nc);
            }
        }
        assert(self.board.cells@ =~= hidden_mines_shown(c0));
    }

    /// Whether every group is a mine or revealed.
    fn clear(&self) -> (r: bool)
        ensures
            r == all_clear(self.board.cells@),
    {
        let n = self.board.cells.len();
        for i in 0..n
            invariant
                n == self.board.cells@.len(),
                forall|k: int| 0 <= k < i ==> (#[trigger] self.board.cells@[k]).is_mine || self.board.cells@[k].state == CellState::Revealed,
        {
            let c = self.board.cells[i];
            if !c.is_mine && !matches!(c.state, CellState::Revealed) {
                assert(!(self.board.cells@[i as int].is_mine || self.board.cells@[i as int].state == CellState::Revealed));
                return false;
            }
        }
        true
    }

    /// A click on group `gid`. The first click places the mines away from
    /// it and the groups it touches and starts play; then `merge_open` says
    /// what happens. Returns whether anything happened.
    pub fn reveal_cell(&mut self, gid: usize) -> (r: bool)
        requires
            old(self).wf(),
            gid < old(self).groups@.len(),
        ensures
            final(self).wf(),
            final(self).same_layout(*old(self)),
            final(self).board == (GraphGame {
                cells: final(self).board.cells,
                state: final(self).board.state,
                cells_revealed: final(self).board.cells_revealed,
                ..old(self).board
            }),
            old(self).board.state != GameState::Ready ==> (final(self).board.cells@, final(self).board.state, r) == merge_open(
                old(self).board.cells@,
                adj_view(old(self).board.adj@),
                old(self).board.state,
                gid as int,
            ),
            old(self).board.state == GameState::Ready ==> exists|p: GraphGame, chosen: Seq<usize>|
                #[trigger] old(self).board.placed_for(p, gid as int, chosen) && (
                final(self).board.cells@,
                final(self).board.state,
                r,
            ) == merge_open(p.cells@, adj_view(old(self).board.adj@), GameState::Playing, gid as int),
            old(self).board.state == GameState::Ready ==> final(self).board.state != GameState::Lost,
    {
        let ghost m0 = *self;
        let ghost mut placed = self.board;
        if matches!(self.board.state, GameState::Ready) {
            self.board.place_mines(gid);
            proof {
                placed = self.board;
                lemma_same_states(placed.cells@, m0.board.cells@);
            }
            self.board.state = GameState::Playing;
        }
        let ghost start = self.board;
        proof {
            lemma_wf_adj_same(m0.board, self.board);
            assert(self.board.wf());
            lemma_wf_keep(m0, *self);
        }
        if !matches!(self.board.state, GameState::Playing) {
            return false;
        }
        let c = self.board.cells[gid];
        if !matches!(c.state, CellState::Hidden) {
            return false;
        }
        if c.is_mine {
            proof {
                if m0.board.state == GameState::Ready {
                    let chosen = choose|chosen: Seq<usize>| #[trigger] m0.board.placed_for(placed, gid as int, chosen);
                    if chosen.contains(gid) {
                        let k = choose|k: int| 0 <= k < chosen.len() && chosen[k] == gid;
                        assert(!m0.board.in_safe(gid as int, chosen[k] as int));
                    }
                    assert(!m0.board.cells@[gid as int].is_mine);
                    assert(false);
                }
            }
            self.board.state = GameState::Lost;
            self.show_hidden_mines();
            proof {
                lemma_wf_adj_same(m0.board, self.board);
                assert forall|cc: GCell| 0 <= #[trigger] g_revealed(cc) <= 1 && 0 <= g_flagged(cc) <= 1 by {}
                lemma_g_bounds(self.board.cells@, |c: GCell| g_flagged(c));
                lemma_wf_keep(m0, *self);
                if m0.board.state == GameState::Ready {
                    assert(exists|p: GraphGame, chosen: Seq<usize>| #[trigger] m0.board.placed_for(p, gid as int, chosen) && p.cells@
                        == placed.cells@);
                }
            }
            return true;
        }
        self.board.flood(gid);
        if self.clear() {
            self.board.state = GameState::Won;
        }
        proof {
            lemma_wf_adj_same(m0.board, self.board);
            assert forall|cc: GCell| 0 <= #[trigger] g_revealed(cc) <= 1 && 0 <= g_flagged(cc) <= 1 by {}
            lemma_g_bounds(self.board.cells@, |c: GCell| g_flagged(c));
            lemma_wf_keep(m0, *self);
            if m0.board.state == GameState::Ready {
                assert(exists|p: GraphGame, chosen: Seq<usize>| #[trigger] m0.board.placed_for(p, gid as int, chosen) && p.cells@
                    == placed.cells@);
            }
        }
        true
    }
}

/// A game keeps its well-formedness when the layout and the neighbour
/// lists stay and the graph game stays well formed.
pub proof fn lemma_wf_keep(m0: MergeGame, m: MergeGame)
    requires
        m0.wf(),
        m.same_layout(m0),
        m.board.adj == m0.board.adj,
        m.board.n() == m0.board.n(),
        m.board.wf(),
    ensures
        m.wf(),
{
    assert forall|g: int| 0 <= g < m.board.n() implies nbr_list_ok(
        m.width as int,
        m.height as int,
        m.group_map@,
        m.groups@,
        g,
        #[trigger] m.board.nbrs(g),
    ) by {
        assert(m.board.nbrs(g) == m0.board.nbrs(g));
    }
}

/// Whether a chord on group `gid` fires: the game is live, the group is
/// open with mines around it, as many of its neighbours are flagged as it
/// counts, and every flagged neighbour is a mine.
pub open spec fn chord_fires(c: Seq<GCell>, st: GameState, l: Seq<usize>, gid: int) -> bool {
    &&& st == GameState::Playing
    &&& c[gid].state == CellState::Revealed
    &&& c[gid].adjacent != 0
    &&& state_among(c, l, CellState::Flagged) == c[gid].adjacent
    &&& forall|j: int| 0 <= j < l.len() && c[#[trigger] l[j] as int].state == CellState::Flagged ==> c[l[j] as int].is_mine
}

impl MergeGame {
    /// A right click on group `gid` while the game is on: hidden to flagged
    /// or back, with the flag counter following. Returns whether it changed.
    pub fn toggle_flag(&mut self, gid: usize) -> (r: bool)
        requires
            old(self).wf(),
            gid < old(self).groups@.len(),
        ensures
            final(self).wf(),
            final(self).same_layout(*old(self)),
            r == (old(self).board.state == GameState::Playing && (old(self).board.cells@[gid as int].state == CellState::Hidden
                || old(self).board.cells@[gid as int].state == CellState::Flagged)),
            !r ==> *final(self) == *old(self),
            r ==> final(self).board == (GraphGame {
                cells: final(self).board.cells,
                flags_placed: final(self).board.flags_placed,
                ..old(self).board
            }) && final(self).board.cells@ == old(self).board.cells@.update(
                gid as int,
                GCell {
                    state: if old(self).board.cells@[gid as int].state == CellState::Hidden {
                        CellState::Flagged
                    } else {
                        CellState::Hidden
                    },
                    ..old(self).board.cells@[gid as int]
                },
            ),
            r ==> final(self).board.flags_placed == if old(self).board.cells@[gid as int].state == CellState::Hidden {
                old(self).board.flags_placed + 1
            } else {
                old(self).board.flags_placed - 1
            },
    {
        let ghost m0 = *self;
        if !matches!(self.board.state, GameState::Playing) {
            return false;
        }
        let c = self.board.cells[gid];
        let hidden = matches!(c.state, CellState::Hidden);
        if !hidden && !matches!(c.state, CellState::Flagged) {
            return false;
        }
        let t = if hidden {
            CellState::Flagged
        } else {
            CellState::Hidden
        };
        let nc = GCell { state: t, ..c };
        proof {
            lemma_g_set(self.board.cells@, gid as int, nc, |c: GCell| g_flagged(c));
            lemma_g_set(self.board.cells@, gid as int, nc, |c: GCell| g_revealed(c));
            assert forall|cc: GCell| 0 <= #[trigger] g_flagged(cc) <= 1 by {}
            lemma_g_bounds(self.board.cells@, |c: GCell| g_flagged(c));
            lemma_g_bounds(self.board.cells@.update(gid as int, nc), |c: GCell| g_flagged(c));
        }
        self.board.put(gid, nc);
        if hidden {
            self.board.flags_placed = self.board.flags_placed + 1;
        } else {
            self.board.flags_placed = self.board.flags_placed - 1;
        }
        proof {
            lemma_wf_adj_same(m0.board, self.board);
            lemma_wf_keep(m0, *self);
        }
        true
    }

    /// A copy of group `gid`'s neighbour list.
    fn nbr_copy(&self, gid: usize) -> (v: Vec<usize>)
        requires
            self.wf(),
            gid < self.groups@.len(),
        ensures
            v@ == self.board.nbrs(gid as int),
    {
        let l = &self.board.adj[gid];
        let mut v: Vec<usize> = Vec::new();
        for k in 0..l.len()
            invariant
                v@ == l@.take(k as int),
        {
            v.push(l[k]);
            assert(v@ =~= l@.take(k + 1));
        }
        assert(l@.take(l@.len() as int) =~= l@);
        v
    }

    /// Chord on group `gid`: when `chord_fires`, open each neighbour that
    /// is still hidden when its turn comes, in list order. Returns whether
    /// any was opened.
    pub fn chord(&mut self, gid: usize) -> (r: bool)
        requires
            old(self).wf(),
            gid < old(self).groups@.len(),
        ensures
            final(self).wf(),
            final(self).same_layout(*old(self)),
            !chord_fires(old(self).board.cells@, old(self).board.state, old(self).board.nbrs(gid as int), gid as int) ==> !r
                && *final(self) == *old(self),
            chord_fires(old(self).board.cells@, old(self).board.state, old(self).board.nbrs(gid as int), gid as int) ==> (
            final(self).board.cells@,
            final(self).board.state,
            r,
            ) == chord_run(
                old(self).board.cells@,
                adj_view(old(self).board.adj@),
                old(self).board.state,
                old(self).board.nbrs(gid as int),
            ),
            final(self).board == (GraphGame {
                cells: final(self).board.cells,
                state: final(self).board.state,
                cells_revealed: final(self).board.cells_revealed,
                ..old(self).board
            }),
    {
        let ghost m0 = *self;
        if !matches!(self.board.state, GameState::Playing) {
            return false;
        }
        if !matches!(self.board.cells[gid].state, CellState::Revealed) {
            return false;
        }
        if self.board.cells[gid].adjacent == 0 {
            return false;
        }
        let flags = self.board.count_state(gid, CellState::Flagged);
        if flags != self.board.cells[gid].adjacent {
            return false;
        }
        let nbrs = self.nbr_copy(gid);
        let ghost l = nbrs@;
        for k in 0..nbrs.len()
            invariant
                *self == m0,
                m0.wf(),
                gid < m0.groups@.len(),
                l == nbrs@,
                l == m0.board.nbrs(gid as int),
                forall|j: int| 0 <= j < k && m0.board.cells@[#[trigger] l[j] as int].state == CellState::Flagged ==> m0.board.cells@[l[j] as int].is_mine,
        {
            assert(l[k as int] < m0.board.n());
            let ng = nbrs[k];
            if matches!(self.board.cells[ng].state, CellState::Flagged) && !self.board.cells[ng].is_mine {
                return false;
            }
        }
        let mut changed = false;
        proof {
            assert forall|t: int| 0 <= t < l.len() implies (#[trigger] l[t]) < m0.board.n() by {}
        }
        for k in 0..nbrs.len()
            invariant
                self.wf(),
                self.same_layout(m0),
                gid < m0.groups@.len(),
                l == nbrs@,
                l == m0.board.nbrs(gid as int),
                forall|t: int| 0 <= t < l.len() ==> (#[trigger] l[t]) < m0.board.n(),
                self.board.n() == m0.board.n(),
                self.board.adj == m0.board.adj,
                self.board == (GraphGame {
                    cells: self.board.cells,
                    state: self.board.state,
                    cells_revealed: self.board.cells_revealed,
                    ..m0.board
                }),
                self.board.state != GameState::Ready,
                (self.board.cells@, self.board.state, changed) == chord_run(
                    m0.board.cells@,
                    adj_view(m0.board.adj@),
                    m0.board.state,
                    l.take(k as int),
                ),
        {
            assert(l.take(k + 1).drop_last() =~= l.take(k as int));
            assert(l.take(k + 1).last() == l[k as int]);
            let ng = nbrs[k];
            if matches!(self.board.cells[ng].state, CellState::Hidden) {
                self.reveal_cell(ng);
                changed = true;
            }
        }
        assert(l.take(l.len() as int) =~= l);
        changed
    }

    /// Show this game's state and counters on the common game record.
    pub fn sync_to(&self, game: &mut Game)
        requires
            self.wf(),
        ensures
            *final(game) == (Game {
                state: self.board.state,
                mine_count: self.board.mines_total,
                flags_placed: self.board.flags_placed,
                ..*old(game)
            }),
    {
        game.state = self.board.state;
        game.mine_count = self.board.mines_total;
        game.flags_placed = self.board.flags_placed;
    }
}

} // verus!

use vstd::prelude::*;

verus! {

/// Sum of a sequence of integers.
pub open spec fn sum(s: Seq<int>) -> int
    decreases s.len(),
{
    if s.len() == 0 {
        0
    } else {
        sum(s.drop_last()) + s.last()
    }
}

/// Appending an element adds it to the sum.
pub proof fn lemma_sum_push(s: Seq<int>, v: int)
    ensures
        sum(s.push(v)) == sum(s) + v,
{
    assert(s.push(v).drop_last() =~= s);
}

/// Replacing one element changes the sum by the difference.
pub proof fn lemma_sum_update(s: Seq<int>, i: int, v: int)
    requires
        0 <= i < s.len(),
    ensures
        sum(s.update(i, v)) == sum(s) - s[i] + v,
    decreases s.len(),
{
    if i == s.len() - 1 {
        assert(s.update(i, v).drop_last() =~= s.drop_last());
    } else {
        lemma_sum_update(s.drop_last(), i, v);
        assert(s.update(i, v).drop_last() =~= s.drop_last().update(i, v));
    }
}

/// A sum of elements in `[lo, hi]` lies in `[len * lo, len * hi]`.
pub proof fn lemma_sum_bounds(s: Seq<int>, lo: int, hi: int)
    requires
        forall|i: int| 0 <= i < s.len() ==> lo <= #[trigger] s[i] <= hi,
    ensures
        s.len() * lo <= sum(s) <= s.len() * hi,
    decreases s.len(),
{
    if s.len() > 0 {
        lemma_sum_bounds(s.drop_last(), lo, hi);
        assert((s.len() - 1) * lo + lo == s.len() * lo) by (nonlinear_arith);
        assert((s.len() - 1) * hi + hi == s.len() * hi) by (nonlinear_arith);
    }
}

/// A sum of non-negative elements is at least each element.
pub proof fn lemma_sum_ge_elem(s: Seq<int>, i: int)
    requires
        0 <= i < s.len(),
        forall|j: int| 0 <= j < s.len() ==> 0 <= #[trigger] s[j],
    ensures
        s[i] <= sum(s),
    decreases s.len(),
{
    lemma_sum_nonneg(s.drop_last());
    if i < s.len() - 1 {
        lemma_sum_ge_elem(s.drop_last(), i);
    }
}

/// A sum of non-negative elements is non-negative.
pub proof fn lemma_sum_nonneg(s: Seq<int>)
    requires
        forall|j: int| 0 <= j < s.len() ==> 0 <= #[trigger] s[j],
    ensures
        0 <= sum(s),
    decreases s.len(),
{
    if s.len() > 0 {
        lemma_sum_nonneg(s.drop_last());
    }
}

/// A sequence no larger than another, element by element, has no larger
/// sum; equal elements give equal sums.
pub proof fn lemma_sum_le(a: Seq<int>, b: Seq<int>)
    requires
        a.len() == b.len(),
        forall|i: int| 0 <= i < a.len() ==> #[trigger] a[i] <= b[i],
    ensures
        sum(a) <= sum(b),
        (forall|i: int| 0 <= i < a.len() ==> #[trigger] a[i] == b[i]) ==> sum(a) == sum(b),
    decreases a.len(),
{
    if a.len() > 0 {
        lemma_sum_le(a.drop_last(), b.drop_last());
        assert forall|i: int| 0 <= i < a.len() - 1 implies #[trigger] a.drop_last()[i] <= b.drop_last()[i] by {
            assert(a.drop_last()[i] == a[i]);
        }
        if forall|i: int| 0 <= i < a.len() ==> #[trigger] a[i] == b[i] {
            assert(a =~= b);
        }
    }
}

/// Putting an element in front adds it to the sum.
pub proof fn lemma_sum_prepend(v: int, s: Seq<int>)
    ensures
        sum(seq![v] + s) == v + sum(s),
    decreases s.len(),
{
    if s.len() > 0 {
        lemma_sum_prepend(v, s.drop_last());
        assert((seq![v] + s).drop_last() =~= seq![v] + s.drop_last());
        assert((seq![v] + s).last() == s.last());
    } else {
        assert(seq![v] + s =~= seq![v]);
        assert(seq![v].drop_last() =~= Seq::<int>::empty());
        assert(sum(seq![v]) == sum(seq![v].drop_last()) + seq![v].last());
    }
}

/// Sum of `f(0)`, ..., `f(n - 1)`.
pub open spec fn sum_to(f: spec_fn(int) -> int, n: int) -> int
    decreases n,
{
    if n <= 0 {
        0
    } else {
        sum_to(f, n - 1) + f(n - 1)
    }
}

/// Functions that agree on `0..n` have the same sum there.
pub proof fn lemma_sum_to_ext(f: spec_fn(int) -> int, g: spec_fn(int) -> int, n: int)
    requires
        forall|i: int| 0 <= i < n ==> #[trigger] f(i) == g(i),
    ensures
        sum_to(f, n) == sum_to(g, n),
    decreases n,
{
    if n > 0 {
        lemma_sum_to_ext(f, g, n - 1);
    }
}

/// A sum of zeros is zero.
pub proof fn lemma_sum_to_zero(f: spec_fn(int) -> int, n: int)
    requires
        forall|i: int| 0 <= i < n ==> #[trigger] f(i) == 0,
    ensures
        sum_to(f, n) == 0,
    decreases n,
{
    if n > 0 {
        lemma_sum_to_zero(f, n - 1);
    }
}

/// The sum of a sequence, term by term.
pub proof fn lemma_sum_as_sum_to(s: Seq<int>)
    ensures
        sum(s) == sum_to(|i: int| s[i], s.len() as int),
    decreases s.len(),
{
    if s.len() > 0 {
        let t = s.drop_last();
        lemma_sum_as_sum_to(t);
        lemma_sum_to_ext(|i: int| t[i], |i: int| s[i], t.len() as int);
    }
}

/// The sum of pointwise sums is the sum of the two sums.
pub proof fn lemma_sum_to_add(f: spec_fn(int) -> int, g: spec_fn(int) -> int, n: int)
    ensures
        sum_to(|i: int| f(i) + g(i), n) == sum_to(f, n) + sum_to(g, n),
    decreases n,
{
    if n > 0 {
        lemma_sum_to_add(f, g, n - 1);
    }
}

/// Taking the first term out of a sum.
pub proof fn lemma_sum_to_peel(f: spec_fn(int) -> int, n: int)
    requires
        n >= 1,
    ensures
        sum_to(f, n) == f(0) + sum_to(|i: int| f(i + 1), n - 1),
    decreases n,
{
    let g = |i: int| f(i + 1);
    if n > 1 {
        lemma_sum_to_peel(f, n - 1);
        assert(sum_to(g, n - 1) == sum_to(g, n - 2) + g(n - 2));
    } else {
        assert(sum_to(f, 1) == sum_to(f, 0) + f(0));
        assert(sum_to(g, 0) == 0);
    }
}

/// Summing in reverse order gives the same sum.
pub proof fn lemma_sum_to_reverse(f: spec_fn(int) -> int, n: int)
    ensures
        sum_to(|i: int| f(n - 1 - i), n) == sum_to(f, n),
    decreases n,
{
    if n > 0 {
        let g = |k: int| f(k + 1);
        lemma_sum_to_reverse(g, n - 1);
        lemma_sum_to_ext(|i: int| f(n - 1 - i), |i: int| g(n - 1 - 1 - i), n - 1);
        lemma_sum_to_peel(f, n);
    }
}

/// A double sum can be taken in either order.
pub proof fn lemma_sum_to_swap(f: spec_fn(int, int) -> int, rows: int, cols: int)
    ensures
        sum_to(|j: int| sum_to(|i: int| f(i, j), cols), rows) == sum_to(
            |i: int| sum_to(|j: int| f(i, j), rows),
            cols,
        ),
    decreases rows,
{
    if rows > 0 {
        lemma_sum_to_swap(f, rows - 1, cols);
        let a = |i: int| sum_to(|j: int| f(i, j), rows - 1);
        let b = |i: int| f(i, rows - 1);
        lemma_sum_to_add(a, b, cols);
        let full = |i: int| sum_to(|j: int| f(i, j), rows);
        let split = |i: int| a(i) + b(i);
        assert forall|i: int| 0 <= i < cols implies #[trigger] full(i) == split(i) by {
            assert(sum_to(|j: int| f(i, j), rows) == sum_to(|j: int| f(i, j), rows - 1) + f(i, rows - 1));
        }
        lemma_sum_to_ext(full, split, cols);
        let lhs = |j: int| sum_to(|i: int| f(i, j), cols);
        assert(sum_to(lhs, rows) == sum_to(lhs, rows - 1) + lhs(rows - 1));
        assert(sum_to(lhs, rows - 1) == sum_to(a, cols));
        assert(lhs(rows - 1) == sum_to(b, cols));
        assert(sum_to(full, cols) == sum_to(a, cols) + sum_to(b, cols));
    } else {
        let full = |i: int| sum_to(|j: int| f(i, j), rows);
        assert forall|i: int| 0 <= i < cols implies #[trigger] full(i) == 0 by {}
        lemma_sum_to_zero(full, cols);
    }
}

/// The total of `f` over the cells of a grid, row by row.
pub open spec fn grid_count<T>(g: Seq<Seq<T>>, f: spec_fn(T) -> int) -> int {
    sum(g.map_values(|r: Seq<T>| sum(r.map_values(f))))
}

/// Replacing one cell changes a grid total by the difference.
pub proof fn lemma_grid_count_set<T>(g: Seq<Seq<T>>, x: int, y: int, c: T, f: spec_fn(T) -> int)
    requires
        0 <= y < g.len(),
        0 <= x < g[y].len(),
    ensures
        grid_count(g.update(y, g[y].update(x, c)), f) == grid_count(g, f) - f(g[y][x]) + f(c),
{
    let r = g[y];
    lemma_sum_update(r.map_values(f), x, f(c));
    assert(r.update(x, c).map_values(f) =~= r.map_values(f).update(x, f(c)));
    let rf = |r: Seq<T>| sum(r.map_values(f));
    lemma_sum_update(g.map_values(rf), y, rf(r.update(x, c)));
    assert(g.update(y, g[y].update(x, c)).map_values(rf) =~= g.map_values(rf).update(y, rf(r.update(x, c))));
}

/// A total of values in [0, 1] over rows of `w` cells lies in [0, rows * w].
pub proof fn lemma_grid_count_bounds<T>(g: Seq<Seq<T>>, f: spec_fn(T) -> int, w: int)
    requires
        forall|c: T| 0 <= #[trigger] f(c) <= 1,
        forall|j: int| 0 <= j < g.len() ==> (#[trigger] g[j]).len() == w,
        0 <= w,
    ensures
        0 <= grid_count(g, f) <= g.len() * w,
{
    let rf = |r: Seq<T>| sum(r.map_values(f));
    assert forall|j: int| 0 <= j < g.len() implies 0 <= #[trigger] g.map_values(rf)[j] <= w by {
        lemma_sum_bounds(g[j].map_values(f), 0, 1);
    }
    lemma_sum_bounds(g.map_values(rf), 0, w);
}

/// Grids of the same shape whose cells agree under `f` have the same total.
pub proof fn lemma_grid_count_same<T>(a: Seq<Seq<T>>, b: Seq<Seq<T>>, f: spec_fn(T) -> int)
    requires
        a.len() == b.len(),
        forall|j: int| 0 <= j < a.len() ==> (#[trigger] a[j]).len() == b[j].len(),
        forall|j: int, i: int| 0 <= j < a.len() && 0 <= i < a[j].len() ==> f(#[trigger] a[j][i]) == f(b[j][i]),
    ensures
        grid_count(a, f) == grid_count(b, f),
{
    let rf = |r: Seq<T>| sum(r.map_values(f));
    assert forall|j: int| 0 <= j < a.len() implies #[trigger] a.map_values(rf)[j] == b.map_values(rf)[j] by {
        assert(a[j].map_values(f) =~= b[j].map_values(f));
    }
    assert(a.map_values(rf) =~= b.map_values(rf));
}

/// A grid total that is zero on every cell is zero.
pub proof fn lemma_grid_count_zero<T>(g: Seq<Seq<T>>, f: spec_fn(T) -> int)
    requires
        forall|j: int, i: int| 0 <= j < g.len() && 0 <= i < g[j].len() ==> f(#[trigger] g[j][i]) == 0,
    ensures
        grid_count(g, f) == 0,
{
    let rf = |r: Seq<T>| sum(r.map_values(f));
    assert forall|j: int| 0 <= j < g.len() implies #[trigger] g.map_values(rf)[j] == 0 by {
        lemma_sum_bounds(g[j].map_values(f), 0, 0);
    }
    lemma_sum_bounds(g.map_values(rf), 0, 0);
}

} // verus!

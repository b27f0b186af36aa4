use vstd::prelude::*;
use crate::game::{Game, GameState, CellState, MAX_CELLS};
use crate::cascade::{inside, sweep};
use crate::random::random_below;
use crate::sums::sum_to;

verus! {

/// The puzzle behind an Encrypted equation, with its numbers.
#[derive(Clone, Copy, Debug, PartialEq, Eq, Structural)]
pub enum EqForm {
    /// a + b
    Sum(i64, i64),
    /// max(a, b) - min(a, b)
    Diff(i64, i64),
    /// x × y
    Product(i64, i64),
    /// a + b × c
    SumProduct(i64, i64, i64),
    /// (a + b) × c
    ProductOfSum(i64, i64, i64),
    /// a × b - c
    ProductMinus(i64, i64, i64),
    /// n² + a
    SquarePlus(i64, i64),
    /// a·x + b = c, solve for x: (a, b, x)
    Linear(i64, i64, i64),
    /// (x - r1)(x - r2) = 0, the larger root
    Quadratic(i64, i64),
    /// 1 + 2 + … + n
    Triangular(i64),
    /// 1² + 2² + … + n²
    SquareSum(i64),
    /// a + 2a + 4a + … (n terms)
    Geometric(i64, i64),
    /// a^b mod p
    ModExp(i64, i64, i64),
    /// d/dx (a·x^n + b·x) at x = k: (a, n, b, k)
    Derivative(i64, i64, i64, i64),
    /// ∫₀ⁿ (a·x + b) dx: (n, a, b)
    Integral(i64, i64, i64),
}

/// An equation and its answer.
#[derive(Clone, Copy, Debug, PartialEq, Eq, Structural)]
pub struct Equation {
    pub form: EqForm,
    pub answer: i64,
}

/// `a^b mod p`, multiplying and reducing one factor at a time.
pub open spec fn pow_mod(a: int, b: nat, p: int) -> int
    decreases b,
{
    if b == 0 {
        1
    } else {
        (pow_mod(a, (b - 1) as nat, p) * a) % p
    }
}

/// `k^e`.
pub open spec fn ipow(k: int, e: nat) -> int
    decreases e,
{
    if e == 0 {
        1
    } else {
        ipow(k, (e - 1) as nat) * k
    }
}

/// The answer of an equation.
pub open spec fn spec_answer(f: EqForm) -> int {
    match f {
        EqForm::Sum(a, b) => a + b,
        EqForm::Diff(a, b) => if a >= b { a - b } else { b - a },
        EqForm::Product(x, y) => x * y,
        EqForm::SumProduct(a, b, c) => a + b * c,
        EqForm::ProductOfSum(a, b, c) => (a + b) * c,
        EqForm::ProductMinus(a, b, c) => a * b - c,
        EqForm::SquarePlus(n, a) => n * n + a,
        EqForm::Linear(a, b, x) => x as int,
        EqForm::Quadratic(r1, r2) => if r1 >= r2 { r1 as int } else { r2 as int },
        EqForm::Triangular(n) => n * (n + 1) / 2,
        EqForm::SquareSum(n) => n * (n + 1) * (2 * n + 1) / 6,
        EqForm::Geometric(a, n) => a * (ipow(2, n as nat) - 1),
        EqForm::ModExp(a, b, p) => pow_mod(a as int, b as nat, p as int),
        EqForm::Derivative(a, n, b, k) => a * n * ipow(k as int, (n - 1) as nat) + b,
        EqForm::Integral(n, a, b) => a * n * n / 2 + b * n,
    }
}

/// The equations of a difficulty level, with their numbers in the ranges
/// that level draws from.
pub open spec fn form_ok(level: u8, f: EqForm) -> bool {
    if level == 1 {
        match f {
            EqForm::Sum(a, b) => 2 <= a <= 50 && 2 <= b <= 50,
            EqForm::Diff(a, b) => 2 <= a <= 50 && 2 <= b <= 50,
            EqForm::Product(x, y) => 2 <= x <= 12 && 2 <= y <= 12,
            _ => false,
        }
    } else if level == 2 {
        match f {
            EqForm::SumProduct(a, b, c) => 1 <= a <= 8 && 2 <= b <= 6 && 2 <= c <= 6,
            EqForm::ProductOfSum(a, b, c) => 1 <= a <= 6 && 1 <= b <= 6 && 2 <= c <= 4,
            EqForm::ProductMinus(a, b, c) => 3 <= a <= 7 && 3 <= b <= 7 && 1 <= c <= if a * b / 3 > 1 { a * b / 3 } else { 1 },
            EqForm::SquarePlus(n, a) => 2 <= n <= 6 && 1 <= a <= 8,
            _ => false,
        }
    } else if level == 3 {
        match f {
            EqForm::Linear(a, b, x) => 2 <= a <= 9 && -20 <= b <= 20 && -12 <= x <= 12,
            _ => false,
        }
    } else if level == 4 {
        match f {
            EqForm::Quadratic(r1, r2) => -8 <= r1 <= 8 && -8 <= r2 <= 8,
            _ => false,
        }
    } else if level == 5 {
        match f {
            EqForm::Triangular(n) => 5 <= n <= 30,
            EqForm::SquareSum(n) => 3 <= n <= 15,
            EqForm::Geometric(a, n) => 1 <= a <= 4 && 3 <= n <= 6,
            _ => false,
        }
    } else if level == 6 {
        match f {
            EqForm::ModExp(a, b, p) => (p == 7 || p == 11 || p == 13 || p == 17 || p == 19 || p == 23) && 2 <= a < p && 2 <= b
                <= 6,
            _ => false,
        }
    } else if level == 7 {
        match f {
            EqForm::Derivative(a, n, b, k) => 1 <= a <= 5 && 2 <= n <= 3 && 1 <= b <= 8 && 1 <= k <= 4,
            _ => false,
        }
    } else {
        match f {
            EqForm::Integral(n, a, b) => 2 <= n <= 10 && 2 <= a <= 12 && a % 2 == 0 && 1 <= b <= 10,
            _ => false,
        }
    }
}

/// A number drawn uniformly from `lo..=hi`.
fn draw(lo: i64, hi: i64) -> (r: i64)
    requires
        lo <= hi,
        hi - lo < 1000,
    ensures
        lo <= r <= hi,
{
    let span = (hi - lo + 1) as usize;
    let k = random_below(span);
    lo + k as i64
}

/// What an answer `r` to the equation `f` must be, read off the equation
/// as it is shown: the value of the expression, the `x` that solves a
/// linear equation, the larger root of a quadratic, the sum of the series
/// term by term, the remainder of the power, the slope of `a·x^n + b·x` at
/// `k`, the area under `a·x + b` from 0 to `n`.
pub open spec fn answer_means(f: EqForm, r: int) -> bool {
    match f {
        EqForm::Sum(a, b) => r == a + b,
        EqForm::Diff(a, b) => r >= 0 && (r == a - b || r == b - a),
        EqForm::Product(x, y) => r == x * y,
        EqForm::SumProduct(a, b, c) => r == a + b * c,
        EqForm::ProductOfSum(a, b, c) => r == (a + b) * c,
        EqForm::ProductMinus(a, b, c) => r == a * b - c,
        EqForm::SquarePlus(n, a) => r == n * n + a,
        EqForm::Linear(a, b, x) => a * r + b == a * x + b,
        EqForm::Quadratic(r1, r2) => (r - r1) * (r - r2) == 0 && r >= r1 && r >= r2,
        EqForm::Triangular(n) => r == sum_to(|i: int| i + 1, n as int),
        EqForm::SquareSum(n) => r == sum_to(|i: int| (i + 1) * (i + 1), n as int),
        EqForm::Geometric(a, n) => r == sum_to(|i: int| a * ipow(2, i as nat), n as int),
        EqForm::ModExp(a, b, p) => 0 <= r < p && r == ipow(a as int, b as nat) % (p as int),
        EqForm::Derivative(a, n, b, k) => if n == 2 {
            r == 2 * a * k + b
        } else if n == 3 {
            r == 3 * a * k * k + b
        } else {
            r == a * n * ipow(k as int, (n - 1) as nat) + b
        },
        EqForm::Integral(n, a, b) => 2 * r == a * n * n + 2 * b * n,
    }
}

/// 1 + 2 + ... + n, doubled, is n(n + 1).
pub proof fn lemma_triangular(n: int)
    requires
        0 <= n,
    ensures
        2 * sum_to(|i: int| i + 1, n) == n * (n + 1),
    decreases n,
{
    let f = |i: int| i + 1;
    if n > 0 {
        lemma_triangular(n - 1);
        assert(sum_to(f, n) == sum_to(f, n - 1) + n);
        assert((n - 1) * n + 2 * n == n * (n + 1)) by (nonlinear_arith);
    } else {
        assert(sum_to(f, 0) == 0);
    }
}

/// 1² + 2² + ... + n², six times over, is n(n + 1)(2n + 1).
pub proof fn lemma_square_sum(n: int)
    requires
        0 <= n,
    ensures
        6 * sum_to(|i: int| (i + 1) * (i + 1), n) == n * (n + 1) * (2 * n + 1),
    decreases n,
{
    let f = |i: int| (i + 1) * (i + 1);
    if n > 0 {
        lemma_square_sum(n - 1);
        assert(sum_to(f, n) == sum_to(f, n - 1) + n * n);
        assert((n - 1) * n * (2 * n - 1) + 6 * (n * n) == n * (n + 1) * (2 * n + 1)) by (nonlinear_arith);
    } else {
        assert(sum_to(f, 0) == 0);
    }
}

/// a + 2a + 4a + ... (n terms) is a(2^n - 1).
pub proof fn lemma_geometric(a: int, n: int)
    requires
        0 <= n,
    ensures
        sum_to(|i: int| a * ipow(2, i as nat), n) == a * (ipow(2, n as nat) - 1),
    decreases n,
{
    let f = |i: int| a * ipow(2, i as nat);
    if n > 0 {
        lemma_geometric(a, n - 1);
        let q = ipow(2, (n - 1) as nat);
        assert(ipow(2, n as nat) == q * 2);
        assert(sum_to(f, n) == sum_to(f, n - 1) + a * q);
        assert(a * (q - 1) + a * q == a * (q * 2 - 1)) by (nonlinear_arith);
    } else {
        assert(sum_to(f, 0) == 0);
        assert(ipow(2, 0) == 1);
        assert(a * (1 - 1) == 0) by (nonlinear_arith);
    }
}

/// Reducing after each factor gives the remainder of the whole power.
pub proof fn lemma_pow_mod(a: int, b: nat, p: int)
    requires
        0 < p,
        1 <= b,
    ensures
        pow_mod(a, b, p) == ipow(a, b) % p,
    decreases b,
{
    if b > 1 {
        lemma_pow_mod(a, (b - 1) as nat, p);
        vstd::arithmetic::div_mod::lemma_mul_mod_noop_left(ipow(a, (b - 1) as nat), a, p);
    } else {
        assert(ipow(a, 0) == 1);
        assert(pow_mod(a, 0, p) == 1);
    }
}

/// Every answer is what its equation shows: the answer of each form is
/// the value the form's expression denotes, as `answer_means` reads it.
pub proof fn law_answer_is_the_value(level: u8, f: EqForm)
    requires
        form_ok(level, f),
    ensures
        answer_means(f, spec_answer(f)),
{
    match f {
        EqForm::Quadratic(r1, r2) => {
            let r = spec_answer(f);
            assert((r - r1) * (r - r2) == 0) by (nonlinear_arith)
                requires
                    r == r1 || r == r2,
            ;
        },
        EqForm::Triangular(n) => {
            lemma_triangular(n as int);
        },
        EqForm::SquareSum(n) => {
            lemma_square_sum(n as int);
        },
        EqForm::Geometric(a, n) => {
            lemma_geometric(a as int, n as int);
        },
        EqForm::ModExp(a, b, p) => {
            lemma_pow_mod(a as int, b as nat, p as int);
        },
        EqForm::Derivative(a, n, b, k) => {
            reveal_with_fuel(ipow, 3);
            assert(ipow(k as int, 1) == k);
            assert(ipow(k as int, 2) == k * k);
            assert(a * 2 * k == 2 * a * k) by (nonlinear_arith);
            assert(a * 3 * (k * k) == 3 * a * k * k) by (nonlinear_arith);
        },
        EqForm::Integral(n, a, b) => {
            let m = a / 2;
            assert(a == 2 * m);
            let y = m * n * n;
            assert(a * n * n == 2 * y) by (nonlinear_arith)
                requires
                    a == 2 * m,
                    y == m * n * n,
            ;
            assert((2 * y) / 2 == y);
            assert(2 * b * n == 2 * (b * n)) by (nonlinear_arith);
            assert(spec_answer(f) == y + b * n);
        },
        _ => {},
    }
}

/// The answer of an equation drawn by `generate`.
pub fn answer_of(f: EqForm, level: u8) -> (r: i64)
    requires
        form_ok(level, f),
    ensures
        r == spec_answer(f),
        answer_means(f, r as int),
{
    proof {
        law_answer_is_the_value(level, f);
    }
    match f {
        EqForm::Sum(a, b) => a + b,
        EqForm::Diff(a, b) => if a >= b {
            a - b
        } else {
            b - a
        },
        EqForm::Product(x, y) => {
            assert(x * y <= 144) by (nonlinear_arith)
                requires
                    2 <= x <= 12,
                    2 <= y <= 12,
            ;
            x * y
        },
        EqForm::SumProduct(a, b, c) => {
            assert(b * c <= 36) by (nonlinear_arith)
                requires
                    2 <= b <= 6,
                    2 <= c <= 6,
            ;
            a + b * c
        },
        EqForm::ProductOfSum(a, b, c) => {
            assert((a + b) * c <= 48) by (nonlinear_arith)
                requires
                    2 <= a + b <= 12,
                    2 <= c <= 4,
            ;
            (a + b) * c
        },
        EqForm::ProductMinus(a, b, c) => {
            assert(a * b <= 49) by (nonlinear_arith)
                requires
                    3 <= a <= 7,
                    3 <= b <= 7,
            ;
            a * b - c
        },
        EqForm::SquarePlus(n, a) => {
            assert(n * n <= 36) by (nonlinear_arith)
                requires
                    2 <= n <= 6,
            ;
            n * n + a
        },
        EqForm::Linear(a, b, x) => x,
        EqForm::Quadratic(r1, r2) => if r1 >= r2 {
            r1
        } else {
            r2
        },
        EqForm::Triangular(n) => {
            assert(n * (n + 1) <= 930) by (nonlinear_arith)
                requires
                    5 <= n <= 30,
            ;
            n * (n + 1) / 2
        },
        EqForm::SquareSum(n) => {
            assert(n * (n + 1) <= 240) by (nonlinear_arith)
                requires
                    3 <= n <= 15,
            ;
            assert(n * (n + 1) * (2 * n + 1) <= 7440) by (nonlinear_arith)
                requires
                    3 <= n <= 15,
                    n * (n + 1) <= 240,
            ;
            n * (n + 1) * (2 * n + 1) / 6
        },
        EqForm::Geometric(a, n) => {
            let mut pw: i64 = 1;
            let mut i: i64 = 0;
            while i < n
                invariant
                    3 <= n <= 6,
                    0 <= i <= n,
                    pw == ipow(2, i as nat),
                    1 <= pw <= 64,
                    i <= 6,
                    pw <= ipow(2, i as nat),
                decreases n - i,
            {
                assert(pw * 2 <= 128) by {
                    lemma_pow2_bound(i as nat);
                }
                pw = pw * 2;
                i = i + 1;
                proof {
                    lemma_pow2_bound(i as nat);
                }
            }
            assert(a * (pw - 1) <= 4 * 63) by (nonlinear_arith)
                requires
                    1 <= a <= 4,
                    1 <= pw <= 64,
            ;
            a * (pw - 1)
        },
        EqForm::ModExp(a, b, p) => {
            let mut acc: i64 = 1;
            let mut i: i64 = 0;
            while i < b
                invariant
                    2 <= b <= 6,
                    2 <= a < p,
                    p <= 23,
                    0 <= i <= b,
                    acc == pow_mod(a as int, i as nat, p as int),
                    0 <= acc < p || i == 0,
                    acc <= 23,
                    0 <= acc,
                decreases b - i,
            {
                assert(acc * a <= 23 * 23) by (nonlinear_arith)
                    requires
                        0 <= acc <= 23,
                        2 <= a <= 23,
                ;
                acc = (acc * a) % p;
                i = i + 1;
            }
            acc
        },
        EqForm::Derivative(a, n, b, k) => {
            let mut pw: i64 = 1;
            let mut i: i64 = 0;
            while i < n - 1
                invariant
                    2 <= n <= 3,
                    1 <= k <= 4,
                    0 <= i <= n - 1,
                    pw == ipow(k as int, i as nat),
                    1 <= pw <= 16,
                    i <= 2,
                    i == 0 ==> pw == 1,
                    i == 1 ==> pw == k,
                decreases n - 1 - i,
            {
                if i == 0 {
                    assert(pw * k == k);
                } else {
                    assert(pw * k == k * k);
                    assert(1 <= k * k <= 16) by (nonlinear_arith)
                        requires
                            1 <= k <= 4,
                    ;
                }
                pw = pw * k;
                i = i + 1;
            }
            assert(1 <= a * n <= 15) by (nonlinear_arith)
                requires
                    1 <= a <= 5,
                    2 <= n <= 3,
            ;
            assert(a * n * pw <= 240) by (nonlinear_arith)
                requires
                    1 <= a * n <= 15,
                    1 <= pw <= 16,
            ;
            a * n * pw + b
        },
        EqForm::Integral(n, a, b) => {
            assert(a * n <= 120) by (nonlinear_arith)
                requires
                    2 <= n <= 10,
                    2 <= a <= 12,
            ;
            assert(a * n * n <= 1200) by (nonlinear_arith)
                requires
                    2 <= n <= 10,
                    a * n <= 120,
                    0 <= a * n,
            ;
            assert(b * n <= 100) by (nonlinear_arith)
                requires
                    2 <= n <= 10,
                    1 <= b <= 10,
            ;
            a * n * n / 2 + b * n
        },
    }
}

/// Powers of two up to 2^6.
pub proof fn lemma_pow2_bound(i: nat)
    requires
        i <= 6,
    ensures
        1 <= ipow(2, i) <= 64,
        i < 6 ==> ipow(2, i) <= 32,
{
    reveal_with_fuel(ipow, 7);
    assert(ipow(2, 0) == 1);
    assert(ipow(2, 1) == 2);
    assert(ipow(2, 2) == 4);
    assert(ipow(2, 3) == 8);
    assert(ipow(2, 4) == 16);
    assert(ipow(2, 5) == 32);
    assert(ipow(2, 6) == 64);
}

/// A random equation of a difficulty level (1 arithmetic, 2 chained
/// arithmetic, 3 linear, 4 quadratic, 5 series, 6 modular powers,
/// 7 derivatives, 8 and above integrals), with its answer.
pub fn generate(level: u8) -> (e: Equation)
    ensures
        form_ok(level, e.form),
        e.answer == spec_answer(e.form),
        answer_means(e.form, e.answer as int),
{
    let f = if level == 1 {
        let a = draw(2, 50);
        let b = draw(2, 50);
        let pick = random_below(3);
        if pick == 0 {
            EqForm::Sum(a, b)
        } else if pick == 1 {
            EqForm::Diff(a, b)
        } else {
            EqForm::Product(draw(2, 12), draw(2, 12))
        }
    } else if level == 2 {
        let pick = random_below(4);
        if pick == 0 {
            let a = draw(1, 8);
            let b = draw(2, 6);
            let c = draw(2, 6);
            EqForm::SumProduct(a, b, c)
        } else if pick == 1 {
            let a = draw(1, 6);
            let b = draw(1, 6);
            let c = draw(2, 4);
            EqForm::ProductOfSum(a, b, c)
        } else if pick == 2 {
            let a = draw(3, 7);
            let b = draw(3, 7);
            assert(a * b <= 49) by (nonlinear_arith)
                requires
                    3 <= a <= 7,
                    3 <= b <= 7,
            ;
            let third = a * b / 3;
            let top = if third > 1 {
                third
            } else {
                1
            };
            let c = draw(1, top);
            EqForm::ProductMinus(a, b, c)
        } else {
            let n = draw(2, 6);
            let a = draw(1, 8);
            EqForm::SquarePlus(n, a)
        }
    } else if level == 3 {
        let x = draw(-12, 12);
        let a = draw(2, 9);
        let b = draw(-20, 20);
        EqForm::Linear(a, b, x)
    } else if level == 4 {
        let r1 = draw(-8, 8);
        let r2 = draw(-8, 8);
        EqForm::Quadratic(r1, r2)
    } else if level == 5 {
        let pick = random_below(3);
        if pick == 0 {
            EqForm::Triangular(draw(5, 30))
        } else if pick == 1 {
            EqForm::SquareSum(draw(3, 15))
        } else {
            let a = draw(1, 4);
            let n = draw(3, 6);
            EqForm::Geometric(a, n)
        }
    } else if level == 6 {
        let k = random_below(6);
        let p: i64 = if k == 0 {
            7
        } else if k == 1 {
            11
        } else if k == 2 {
            13
        } else if k == 3 {
            17
        } else if k == 4 {
            19
        } else {
            23
        };
        let a = draw(2, p - 1);
        let b = draw(2, 6);
        EqForm::ModExp(a, b, p)
    } else if level == 7 {
        let a = draw(1, 5);
        let n = draw(2, 3);
        let b = draw(1, 8);
        let k = draw(1, 4);
        EqForm::Derivative(a, n, b, k)
    } else {
        let n = draw(2, 10);
        let a = draw(1, 6) * 2;
        let b = draw(1, 10);
        EqForm::Integral(n, a, b)
    };
    let answer = answer_of(f, level);
    Equation { form: f, answer }
}

/// What a click on an open cell of Encrypted did.
#[derive(Clone, Copy, Debug, PartialEq, Eq, Structural)]
pub enum EncClick {
    /// A peek token was spent: the cell shows its true value.
    Peeked,
    /// The cell is locked against chording; nothing happened.
    Locked,
    /// The chord did nothing; the miss was counted.
    ChordFailed,
    /// The chord opened cells.
    Chorded,
}

/// The side state of Encrypted: the equation level, the peek token won by
/// a right answer, the peeked cell, and the chord misses and locks per cell.
pub struct EncState {
    pub level: u8,
    pub peek_token: bool,
    pub peeked: Option<(usize, usize)>,
    pub chord_fails: Vec<Vec<u8>>,
    pub locked: Vec<Vec<bool>>,
}

impl EncState {
    /// The per-cell tables have `h` rows of `w` entries.
    pub open spec fn wf(self, w: int, h: int) -> bool {
        &&& self.chord_fails@.len() == h
        &&& self.locked@.len() == h
        &&& forall|j: int| 0 <= j < h ==> (#[trigger] self.chord_fails@[j])@.len() == w
        &&& forall|j: int| 0 <= j < h ==> (#[trigger] self.locked@[j])@.len() == w
    }

    pub open spec fn is_locked(self, x: int, y: int) -> bool {
        self.locked@[y]@[x]
    }

    pub open spec fn fails(self, x: int, y: int) -> int {
        self.chord_fails@[y]@[x] as int
    }

    /// A fresh state: no token, no peek, no misses, nothing locked.
    pub fn new(level: u8, w: usize, h: usize) -> (s: EncState)
        ensures
            s.wf(w as int, h as int),
            s.level == level,
            !s.peek_token,
            s.peeked is None,
            forall|x: int, y: int| 0 <= x < w && 0 <= y < h ==> #[trigger] s.fails(x, y) == 0 && !s.is_locked(x, y),
    {
        let mut fails: Vec<Vec<u8>> = Vec::new();
        let mut locked: Vec<Vec<bool>> = Vec::new();
        for y in 0..h
            invariant
                fails@.len() == y,
                locked@.len() == y,
                forall|j: int| 0 <= j < y ==> (#[trigger] fails@[j])@.len() == w,
                forall|j: int| 0 <= j < y ==> (#[trigger] locked@[j])@.len() == w,
                forall|i: int, j: int| 0 <= j < y && 0 <= i < w ==> #[trigger] fails@[j]@[i] == 0,
                forall|i: int, j: int| 0 <= j < y && 0 <= i < w ==> !#[trigger] locked@[j]@[i],
        {
            let mut fr: Vec<u8> = Vec::new();
            let mut lr: Vec<bool> = Vec::new();
            for x in 0..w
                invariant
                    fr@.len() == x,
                    lr@.len() == x,
                    forall|i: int| 0 <= i < x ==> #[trigger] fr@[i] == 0,
                    forall|i: int| 0 <= i < x ==> !#[trigger] lr@[i],
            {
                fr.push(0);
                lr.push(false);
            }
            fails.push(fr);
            locked.push(lr);
        }
        EncState { level, peek_token: false, peeked: None, chord_fails: fails, locked }
    }

    /// Any move clears the peeked cell.
    pub fn on_move(&mut self)
        ensures
            *final(self) == (EncState { peeked: None, ..*old(self) }),
    {
        self.peeked = None;
    }

    /// Lock (`x`, `y`) and the cells around it on a `w` by `h` board against chording.
    pub fn lock_area(&mut self, x: usize, y: usize, w: usize, h: usize)
        requires
            old(self).wf(w as int, h as int),
            x < w,
            y < h,
        ensures
            final(self).wf(w as int, h as int),
            *final(self) == (EncState { locked: final(self).locked, ..*old(self) }),
            forall|i: int, j: int|
                0 <= i < w && 0 <= j < h ==> #[trigger] final(self).is_locked(i, j) == (old(self).is_locked(i, j) || (x - 1 <= i
                    <= x + 1 && y - 1 <= j <= y + 1)),
    {
        let ghost s0 = *self;
        let y0 = if y > 0 {
            y - 1
        } else {
            0
        };
        let y1 = if y + 1 < h {
            y + 1
        } else {
            y
        };
        let x0 = if x > 0 {
            x - 1
        } else {
            0
        };
        let x1 = if x + 1 < w {
            x + 1
        } else {
            x
        };
        let mut j = y0;
        while j <= y1
            invariant
                s0.wf(w as int, h as int),
                self.wf(w as int, h as int),
                *self == (EncState { locked: self.locked, ..s0 }),
                y0 <= j <= y1 + 1,
                y1 < h,
                x1 < w,
                x0 <= x1,
                y0 == if y > 0 { y - 1 } else { 0 },
                y1 == if y + 1 < h { y + 1 } else { y as int },
                x0 == if x > 0 { x - 1 } else { 0 },
                x1 == if x + 1 < w { x + 1 } else { x as int },
                forall|i: int, jj: int|
                    0 <= i < w && 0 <= jj < h ==> #[trigger] self.is_locked(i, jj) == (s0.is_locked(i, jj) || (x0 <= i <= x1 && y0 <= jj
                        < j)),
            decreases y1 + 1 - j,
        {
            let mut i = x0;
            while i <= x1
                invariant
                    s0.wf(w as int, h as int),
                    self.wf(w as int, h as int),
                    *self == (EncState { locked: self.locked, ..s0 }),
                    y0 <= j <= y1,
                    y1 < h,
                    x1 < w,
                    x0 <= i <= x1 + 1,
                    forall|ii: int, jj: int|
                        0 <= ii < w && 0 <= jj < h ==> #[trigger] self.is_locked(ii, jj) == (s0.is_locked(ii, jj) || (x0 <= ii <= x1
                            && y0 <= jj < j) || (jj == j && x0 <= ii < i)),
                decreases x1 + 1 - i,
            {
                let ghost before = *self;
                let mut row = self.locked[j].clone();
                assert(row@ =~= before.locked@[j as int]@);
                row.set(i, true);
                self.locked.set(j, row);
                proof {
                    assert forall|jj: int| 0 <= jj < h implies (#[trigger] self.locked@[jj])@.len() == w by {
                        assert(before.locked@[jj]@.len() == w);
                    }
                    assert forall|ii: int, jj: int| 0 <= ii < w && 0 <= jj < h implies #[trigger] self.is_locked(ii, jj) == (
                    before.is_locked(ii, jj) || (ii == i && jj == j)) by {
                        if jj != j {
                            assert(self.locked@[jj] == before.locked@[jj]);
                        }
                    }
                }
                i = i + 1;
            }
            j = j + 1;
        }
    }

    /// The answer `given` to the equation `eq`: a right answer wins the peek
    /// token and a new equation of the same level; a wrong one changes
    /// nothing here (the clock takes the penalty). Returns whether it was right.
    pub fn submit_answer(&mut self, given: i64, eq: &mut Equation) -> (r: bool)
        ensures
            r == (given == old(eq).answer),
            r ==> *final(self) == (EncState { peek_token: true, ..*old(self) }) && form_ok(old(self).level, final(eq).form)
                && final(eq).answer == spec_answer(final(eq).form),
            !r ==> *final(self) == *old(self) && *final(eq) == *old(eq),
    {
        if given == eq.answer {
            self.peek_token = true;
            *eq = generate(self.level);
            true
        } else {
            false
        }
    }

    /// A left click on the open cell (`x`, `y`): a peek token is spent on
    /// it first (showing its true value and unlocking it); else a locked
    /// cell does nothing; else the chord is tried, and a miss is counted,
    /// the second miss on a cell locking the area around it.
    pub fn click_open(&mut self, game: &mut Game, x: usize, y: usize) -> (r: EncClick)
        requires
            old(game).wf_shape(),
            old(self).wf(old(game).width as int, old(game).height as int),
            x < old(game).width,
            y < old(game).height,
            old(self).fails(x as int, y as int) < 255,
        ensures
            final(game).wf_shape(),
            final(self).wf(old(game).width as int, old(game).height as int),
            final(self).level == old(self).level,
            old(self).peek_token ==> r == EncClick::Peeked && *final(game) == *old(game) && !final(self).peek_token
                && final(self).peeked == Some((x, y)) && !final(self).is_locked(x as int, y as int),
            !old(self).peek_token && old(self).is_locked(x as int, y as int) ==> r == EncClick::Locked && *final(game) == *old(game)
                && *final(self) == *old(self),
            !old(self).peek_token && !old(self).is_locked(x as int, y as int) ==> {
                &&& old(game).chord_fires(x as int, y as int) ==> (
                    final(game).cells(),
                    final(game).state,
                    r == EncClick::Chorded,
                ) == sweep(
                    old(game).cells(),
                    old(game).width as int,
                    old(game).height as int,
                    old(game).state,
                    old(game).endless,
                    (x as int, y as int),
                    0,
                )
                &&& !old(game).chord_fires(x as int, y as int) ==> r == EncClick::ChordFailed && *final(game) == *old(game)
                &&& r == EncClick::Chorded || r == EncClick::ChordFailed
                &&& r == EncClick::Chorded ==> *final(self) == (EncState { peeked: None, ..*old(self) })
                &&& r == EncClick::ChordFailed ==> final(self).fails(x as int, y as int) == old(self).fails(x as int, y as int) + 1
                    && final(self).peek_token == old(self).peek_token && final(self).peeked == old(self).peeked
                    && forall|i: int, j: int|
                    0 <= i < old(game).width && 0 <= j < old(game).height ==> #[trigger] final(self).is_locked(i, j) == (old(
                        self,
                    ).is_locked(i, j) || (final(self).fails(x as int, y as int) >= 2 && x - 1 <= i <= x + 1 && y - 1 <= j <= y + 1))
            },
    {
        let w = game.width;
        let h = game.height;
        if self.peek_token {
            self.peek_token = false;
            self.peeked = Some((x, y));
            let ghost before = *self;
            let mut row = self.locked[y].clone();
            assert(row@ =~= before.locked@[y as int]@);
            row.set(x, false);
            self.locked.set(y, row);
            proof {
                assert forall|jj: int| 0 <= jj < h implies (#[trigger] self.locked@[jj])@.len() == w by {
                    assert(before.locked@[jj]@.len() == w);
                }
            }
            return EncClick::Peeked;
        }
        if self.locked[y][x] {
            return EncClick::Locked;
        }
        if !game.chord(x, y) {
            let ghost before = *self;
            let n = self.chord_fails[y][x];
            let mut row = self.chord_fails[y].clone();
            assert(row@ =~= before.chord_fails@[y as int]@);
            row.set(x, n + 1);
            self.chord_fails.set(y, row);
            proof {
                assert forall|jj: int| 0 <= jj < h implies (#[trigger] self.chord_fails@[jj])@.len() == w by {
                    assert(before.chord_fails@[jj]@.len() == w);
                }
                assert forall|i: int, j: int| 0 <= i < w && 0 <= j < h implies #[trigger] self.is_locked(i, j) == before.is_locked(i, j) by {}
            }
            if n + 1 >= 2 {
                self.lock_area(x, y, w, h);
            }
            return EncClick::ChordFailed;
        }
        self.on_move();
        EncClick::Chorded
    }
}

} // verus!

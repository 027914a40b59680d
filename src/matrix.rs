use vstd::prelude::*;

verus! {

/// The rows of a matrix held as a vector of rows.
pub open spec fn rows(m: Seq<Vec<i64>>) -> Seq<Seq<i64>> {
    m.map_values(|row: Vec<i64>| row@)
}

pub open spec fn is_square(m: Seq<Seq<i64>>) -> bool {
    forall|r: int| 0 <= r < m.len() ==> #[trigger] m[r].len() == m.len()
}

/// Every entry lies in `[-b, b]`.
pub open spec fn entries_within(m: Seq<Seq<i64>>, b: int) -> bool {
    forall|r: int, c: int|
        0 <= r < m.len() && 0 <= c < m[r].len() ==> -b <= #[trigger] m[r][c] <= b
}

/// The matrix without its first row and without column `col`.
pub open spec fn minor(m: Seq<Seq<i64>>, col: int) -> Seq<Seq<i64>> {
    Seq::new(
        (m.len() - 1) as nat,
        |r: int|
            Seq::new(
                (m[r + 1].len() - 1) as nat,
                |c: int|
                    if c < col {
                        m[r + 1][c]
                    } else {
                        m[r + 1][c + 1]
                    },
            ),
    )
}

pub open spec fn sign(j: int) -> int {
    if j % 2 == 0 {
        1
    } else {
        -1
    }
}

/// The determinant, by Laplace expansion along the first row.
pub open spec fn det(m: Seq<Seq<i64>>) -> int
    decreases m.len(), m.len() + 1,
{
    if m.len() == 0 {
        1
    } else {
        expansion(m, m.len() as int)
    }
}

/// The sum of the first `j` terms of the Laplace expansion along the first row.
pub open spec fn expansion(m: Seq<Seq<i64>>, j: int) -> int
    decreases m.len(), j,
{
    if j <= 0 || j > m.len() {
        0
    } else {
        expansion(m, j - 1) + sign(j - 1) * m[0][j - 1] * det(minor(m, j - 1))
    }
}

/// `b` to the power `e`.
pub open spec fn pow(b: int, e: nat) -> int
    decreases e,
{
    if e == 0 {
        1
    } else {
        b * pow(b, (e - 1) as nat)
    }
}

pub open spec fn fact(n: nat) -> nat
    decreases n,
{
    if n == 0 {
        1
    } else {
        n * fact((n - 1) as nat)
    }
}

/// The bound `n! * b^n` on the determinant of an `n`-square matrix whose
/// entries lie in `[-b, b]` stays within `i128`.
pub open spec fn det_fits(n: nat, b: int) -> bool {
    1 <= b && fact(n) * pow(b, n) <= i128::MAX
}

pub(crate) proof fn lemma_fact_positive(n: nat)
    ensures
        fact(n) >= 1,
    decreases n,
{
    if n > 0 {
        lemma_fact_positive((n - 1) as nat);
        assert(n * fact((n - 1) as nat) >= 1) by (nonlinear_arith)
            requires
                n >= 1,
                fact((n - 1) as nat) >= 1,
        ;
    }
}

pub(crate) proof fn lemma_pow_nonneg(b: int, e: nat)
    requires
        b >= 0,
    ensures
        pow(b, e) >= 0,
    decreases e,
{
    if e > 0 {
        lemma_pow_nonneg(b, (e - 1) as nat);
        assert(b * pow(b, (e - 1) as nat) >= 0) by (nonlinear_arith)
            requires
                b >= 0,
                pow(b, (e - 1) as nat) >= 0,
        ;
    }
}

pub(crate) proof fn lemma_pow_at_least_one(b: int, e: nat)
    requires
        b >= 1,
    ensures
        pow(b, e) >= 1,
    decreases e,
{
    if e > 0 {
        lemma_pow_at_least_one(b, (e - 1) as nat);
        assert(b * pow(b, (e - 1) as nat) >= 1) by (nonlinear_arith)
            requires
                b >= 1,
                pow(b, (e - 1) as nat) >= 1,
        ;
    }
}

proof fn lemma_minor_shape(m: Seq<Seq<i64>>, col: int, b: int)
    requires
        m.len() >= 1,
        is_square(m),
        entries_within(m, b),
        0 <= col < m.len(),
    ensures
        minor(m, col).len() == m.len() - 1,
        is_square(minor(m, col)),
        entries_within(minor(m, col), b),
{
    let s = minor(m, col);
    assert forall|r: int| 0 <= r < s.len() implies #[trigger] s[r].len() == s.len() by {
        assert(m[r + 1].len() == m.len());
    }
    assert forall|r: int, c: int| 0 <= r < s.len() && 0 <= c < s[r].len() implies -b <= #[trigger] s[
        r
    ][c] <= b by {
        assert(m[r + 1].len() == m.len());
        if c < col {
            assert(-b <= m[r + 1][c] <= b);
        } else {
            assert(-b <= m[r + 1][c + 1] <= b);
        }
    }
}

proof fn lemma_product_within(x: int, y: int, bx: int, by_: int)
    requires
        -bx <= x <= bx,
        -by_ <= y <= by_,
    ensures
        -(bx * by_) <= x * y <= bx * by_,
{
    assert(-(bx * by_) <= x * y <= bx * by_) by (nonlinear_arith)
        requires
            -bx <= x <= bx,
            -by_ <= y <= by_,
    ;
}

/// `|det m| <= n! * b^n` for an `n`-square matrix with entries in `[-b, b]`.
pub proof fn lemma_det_bound(m: Seq<Seq<i64>>, b: int)
    requires
        b >= 1,
        is_square(m),
        entries_within(m, b),
    ensures
        -(fact(m.len()) * pow(b, m.len())) <= det(m) <= fact(m.len()) * pow(b, m.len()),
    decreases m.len(), m.len() + 1,
{
    if m.len() > 0 {
        lemma_expansion_bound(m, b, m.len() as int);
        let n = m.len();
        let f = fact((n - 1) as nat) * pow(b, (n - 1) as nat);
        assert(fact(n) * pow(b, n) == n * (b * f)) by (nonlinear_arith)
            requires
                fact(n) == n * fact((n - 1) as nat),
                pow(b, n) == b * pow(b, (n - 1) as nat),
                f == fact((n - 1) as nat) * pow(b, (n - 1) as nat),
        ;
    }
}

/// `|expansion(m, j)| <= j * b * (n-1)! * b^(n-1)`.
pub proof fn lemma_expansion_bound(m: Seq<Seq<i64>>, b: int, j: int)
    requires
        b >= 1,
        m.len() >= 1,
        is_square(m),
        entries_within(m, b),
        0 <= j <= m.len(),
    ensures
        ({
            let f = fact((m.len() - 1) as nat) * pow(b, (m.len() - 1) as nat);
            -(j * (b * f)) <= expansion(m, j) <= j * (b * f)
        }),
    decreases m.len(), j,
{
    let f = fact((m.len() - 1) as nat) * pow(b, (m.len() - 1) as nat);
    if j > 0 {
        lemma_expansion_bound(m, b, j - 1);
        lemma_minor_shape(m, j - 1, b);
        lemma_det_bound(minor(m, j - 1), b);
        assert(m[0].len() == m.len());
        let x = m[0][j - 1] as int;
        let d = det(minor(m, j - 1));
        lemma_product_within(x, d, b, f);
        let t = sign(j - 1) * x * d;
        assert(expansion(m, j) == expansion(m, j - 1) + t);
        assert(minor(m, j - 1).len() == m.len() - 1);
        if (j - 1) % 2 == 0 {
            assert(t == x * d);
        } else {
            assert(t == -(x * d)) by (nonlinear_arith)
                requires
                    t == sign(j - 1) * x * d,
                    sign(j - 1) == -1,
            ;
        }
        let bf = b * f;
        assert((j - 1) * bf + bf == j * bf) by (nonlinear_arith);
        assert(-((j - 1) * bf) <= expansion(m, j - 1) <= (j - 1) * bf);
    } else {
        assert(j * (b * f) == 0) by (nonlinear_arith)
            requires
                j == 0,
        ;
    }
}

/// The rows `1..` of `m`, each without column `col`.
fn minor_of(m: &Vec<Vec<i64>>, col: usize) -> (r: Vec<Vec<i64>>)
    requires
        m.len() >= 1,
        is_square(rows(m@)),
        col < m.len(),
    ensures
        rows(r@) == minor(rows(m@), col as int),
{
    let n = m.len();
    let ghost mm = rows(m@);
    let mut out: Vec<Vec<i64>> = Vec::new();
    let mut i: usize = 1;
    while i < n
        invariant
            1 <= i <= n,
            n == m.len(),
            mm == rows(m@),
            is_square(mm),
            col < n,
            out.len() == i - 1,
            forall|r: int| 0 <= r < i - 1 ==> #[trigger] rows(out@)[r] == minor(mm, col as int)[r],
        decreases n - i,
    {
        assert(mm[i as int].len() == n);
        let row = &m[i];
        let mut new_row: Vec<i64> = Vec::new();
        let mut c: usize = 0;
        while c < n
            invariant
                0 <= c <= n,
                n == m.len(),
                row@ == mm[i as int],
                mm[i as int].len() == n,
                col < n,
                new_row.len() == if c <= col { c as int } else { c - 1 },
                forall|k: int|
                    0 <= k < new_row.len() ==> #[trigger] new_row@[k] == if k < col {
                        mm[i as int][k]
                    } else {
                        mm[i as int][k + 1]
                    },
            decreases n - c,
        {
            if c != col {
                new_row.push(row[c]);
            }
            c = c + 1;
        }
        proof {
            assert(new_row@ =~= minor(mm, col as int)[i - 1]);
        }
        let ghost prev = out@;
        out.push(new_row);
        proof {
            assert forall|r: int| 0 <= r < i implies #[trigger] rows(out@)[r] == minor(
                mm,
                col as int,
            )[r] by {
                assert(rows(out@)[r] == out@[r]@);
                if r < i - 1 {
                    assert(out@[r] == prev[r]);
                    assert(rows(prev)[r] == prev[r]@);
                }
            }
        }
        i = i + 1;
    }
    proof {
        assert(rows(out@) =~= minor(mm, col as int));
    }
    out
}

/// The determinant of a square matrix, computed exactly.
pub fn determinant(m: &Vec<Vec<i64>>, Ghost(b): Ghost<int>) -> (r: i128)
    requires
        is_square(rows(m@)),
        entries_within(rows(m@), b),
        det_fits(m.len() as nat, b),
    ensures
        r == det(rows(m@)),
    decreases m.len(),
{
    let n = m.len();
    let ghost mm = rows(m@);
    if n == 0 {
        return 1;
    }
    let ghost f = fact((n - 1) as nat) * pow(b, (n - 1) as nat);
    proof {
        lemma_fact_positive((n - 1) as nat);
        lemma_pow_at_least_one(b, (n - 1) as nat);
        assert(fact(n as nat) * pow(b, n as nat) == n * (b * f)) by (nonlinear_arith)
            requires
                fact(n as nat) == n * fact((n - 1) as nat),
                pow(b, n as nat) == b * pow(b, (n - 1) as nat),
                f == fact((n - 1) as nat) * pow(b, (n - 1) as nat),
        ;
        assert(f <= fact(n as nat) * pow(b, n as nat)) by (nonlinear_arith)
            requires
                fact(n as nat) * pow(b, n as nat) == n * (b * f),
                n >= 1,
                b >= 1,
                fact((n - 1) as nat) >= 1,
                pow(b, (n - 1) as nat) >= 1,
                f == fact((n - 1) as nat) * pow(b, (n - 1) as nat),
        ;
    }
    let mut acc: i128 = 0;
    let mut j: usize = 0;
    while j < n
        invariant
            0 <= j <= n,
            n == m.len(),
            n >= 1,
            mm == rows(m@),
            is_square(mm),
            entries_within(mm, b),
            det_fits(n as nat, b),
            f == fact((n - 1) as nat) * pow(b, (n - 1) as nat),
            f <= fact(n as nat) * pow(b, n as nat),
            fact(n as nat) * pow(b, n as nat) == n * (b * f),
            acc == expansion(mm, j as int),
        decreases n - j,
    {
        proof {
            lemma_minor_shape(mm, j as int, b);
            lemma_det_bound(minor(mm, j as int), b);
            lemma_expansion_bound(mm, b, j as int + 1);
            assert(mm[0].len() == n);
        }
        let sub = minor_of(m, j);
        let d = determinant(&sub, Ghost(b));
        let x = m[0][j];
        proof {
            lemma_product_within(x as int, d as int, b, f);
            assert((j + 1) * (b * f) <= n * (b * f)) by (nonlinear_arith)
                requires
                    j + 1 <= n,
                    b * f >= 0,
            ;
            assert(b * f <= n * (b * f)) by (nonlinear_arith)
                requires
                    1 <= n,
                    b * f >= 0,
            ;
        }
        proof {
            assert(mm[0] == m@[0]@);
            assert(x == mm[0][j as int]);
            assert(expansion(mm, j + 1) == expansion(mm, j as int) + sign(j as int) * x * d);
            if j % 2 == 0 {
                assert(sign(j as int) * x * d == x * d);
            } else {
                assert(sign(j as int) == -1);
                assert(sign(j as int) * x * d == -(x * d)) by (nonlinear_arith)
                    requires
                        sign(j as int) == -1,
                ;
            }
        }
        let term: i128 = (x as i128) * d;
        if j % 2 == 0 {
            acc = acc + term;
        } else {
            acc = acc - term;
        }
        j = j + 1;
    }
    acc
}

/// Whether `n! * b^n` stays within `i128`, with `b >= 1`.
pub fn det_fits_check(n: usize, b: u64) -> (r: bool)
    ensures
        r == det_fits(n as nat, b as int),
{
    if b == 0 {
        return false;
    }
    let bb: u128 = b as u128;
    let mut acc: u128 = 1;
    let mut t: usize = 0;
    while t < n
        invariant
            0 <= t <= n,
            bb == b,
            b >= 1,
            acc == fact(t as nat) * pow(bb as int, t as nat),
            acc <= i128::MAX,
        decreases n - t,
    {
        proof {
            assert(t as u128 + 1 <= 0x1_0000_0000_0000_0000u128);
            assert((t as u128 + 1) * bb <= u128::MAX) by (nonlinear_arith)
                requires
                    t as u128 + 1 <= 0x1_0000_0000_0000_0000u128,
                    bb <= u64::MAX,
            ;
        }
        let f: u128 = (t as u128 + 1) * bb;
        proof {
            assert(fact((t + 1) as nat) * pow(bb as int, (t + 1) as nat) == acc * f) by (nonlinear_arith)
                requires
                    fact((t + 1) as nat) == (t + 1) * fact(t as nat),
                    pow(bb as int, (t + 1) as nat) == bb * pow(bb as int, t as nat),
                    acc == fact(t as nat) * pow(bb as int, t as nat),
                    f == (t + 1) * bb,
            ;
        }
        match acc.checked_mul(f) {
            Some(next) => {
                if next > i128::MAX as u128 {
                    proof {
                        lemma_fits_fails_later((t + 1) as nat, n as nat, bb as int);
                    }
                    return false;
                }
                acc = next;
            },
            None => {
                proof {
                    lemma_fits_fails_later((t + 1) as nat, n as nat, bb as int);
                }
                return false;
            },
        }
        t = t + 1;
    }
    true
}

proof fn lemma_fits_fails_later(t: nat, k: nat, b: int)
    requires
        t <= k,
        b >= 1,
        fact(t) * pow(b, t) > i128::MAX,
    ensures
        fact(k) * pow(b, k) > i128::MAX,
    decreases k - t,
{
    if t < k {
        lemma_fits_fails_later(t, (k - 1) as nat, b);
        let k1 = (k - 1) as nat;
        let x = fact(k1) * pow(b, k1);
        assert(fact(k) * pow(b, k) == k * b * x) by (nonlinear_arith)
            requires
                fact(k) == k * fact(k1),
                pow(b, k) == b * pow(b, k1),
                x == fact(k1) * pow(b, k1),
        ;
        assert(k * b * x >= x) by (nonlinear_arith)
            requires
                k >= 1,
                b >= 1,
                x >= 0,
        ;
    }
}

} // verus!

verus! {

/// The determinant of a 2-square matrix.
pub proof fn lemma_det2(m: Seq<Seq<i64>>)
    requires
        m.len() == 2,
        m[0].len() == 2,
        m[1].len() == 2,
    ensures
        det(m) == m[0][0] * m[1][1] - m[0][1] * m[1][0],
{
    let a = minor(m, 0);
    let b = minor(m, 1);
    assert(a =~~= seq![seq![m[1][1]]]);
    assert(b =~~= seq![seq![m[1][0]]]);
    let a0 = minor(a, 0);
    let b0 = minor(b, 0);
    assert(a0.len() == 0 && b0.len() == 0);
    assert(det(a0) == 1 && det(b0) == 1);
    assert(expansion(a, 0) == 0 && expansion(b, 0) == 0);
    assert(expansion(a, 1) == m[1][1]);
    assert(expansion(b, 1) == m[1][0]);
    assert(det(a) == m[1][1] && det(b) == m[1][0]);
    assert(expansion(m, 0) == 0);
    assert(expansion(m, 1) == m[0][0] * m[1][1]);
    assert(expansion(m, 2) == m[0][0] * m[1][1] - m[0][1] * m[1][0]) by (nonlinear_arith)
        requires
            expansion(m, 2) == expansion(m, 1) + sign(1) * m[0][1] * det(b),
            sign(1) == -1,
            expansion(m, 1) == m[0][0] * m[1][1],
            det(b) == m[1][0],
    ;
}

/// The determinant of a 3-square matrix.
pub proof fn lemma_det3(m: Seq<Seq<i64>>)
    requires
        m.len() == 3,
        m[0].len() == 3,
        m[1].len() == 3,
        m[2].len() == 3,
    ensures
        det(m) == m[0][0] * (m[1][1] * m[2][2] - m[1][2] * m[2][1]) - m[0][1] * (m[1][0] * m[2][2]
            - m[1][2] * m[2][0]) + m[0][2] * (m[1][0] * m[2][1] - m[1][1] * m[2][0]),
{
    let a = minor(m, 0);
    let b = minor(m, 1);
    let c = minor(m, 2);
    assert(a =~~= seq![seq![m[1][1], m[1][2]], seq![m[2][1], m[2][2]]]);
    assert(b =~~= seq![seq![m[1][0], m[1][2]], seq![m[2][0], m[2][2]]]);
    assert(c =~~= seq![seq![m[1][0], m[1][1]], seq![m[2][0], m[2][1]]]);
    lemma_det2(a);
    lemma_det2(b);
    lemma_det2(c);
    assert(expansion(m, 0) == 0);
    assert(expansion(m, 3) == expansion(m, 2) + m[0][2] * det(c));
    assert(expansion(m, 2) == expansion(m, 1) - m[0][1] * det(b)) by (nonlinear_arith)
        requires
            expansion(m, 2) == expansion(m, 1) + sign(1) * m[0][1] * det(b),
            sign(1) == -1,
    ;
    assert(expansion(m, 1) == m[0][0] * det(a));
}

} // verus!

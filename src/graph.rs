use vstd::prelude::*;
use core::marker::PhantomData;
use crate::graph_type::{GraphType, Erased};
use crate::matrix::{rows, det, det_fits, entries_within, is_square, determinant, fact, pow, minor, expansion};

verus! {

/// The sum of `-row[c]` over the columns `c < k` other than `i`: the degree
/// that the off-diagonal entries of row `i` account for.
pub open spec fn offsum(row: Seq<i64>, i: int, k: int) -> int
    decreases k,
{
    if k <= 0 {
        0
    } else {
        offsum(row, i, k - 1) + if k - 1 == i {
            0
        } else {
            -row[k - 1]
        }
    }
}

/// A Laplacian matrix: square, symmetric, off-diagonal entries non-positive
/// (and at least -1 where edges may not repeat), each diagonal entry equal to
/// the sum of the negated off-diagonal entries of its row.
pub open spec fn laplacian_wf(l: Seq<Seq<i64>>, multi: bool) -> bool {
    &&& forall|r: int| 0 <= r < l.len() ==> #[trigger] l[r].len() == l.len()
    &&& forall|r: int, c: int| 0 <= r < l.len() && 0 <= c < l.len() ==> #[trigger] l[r][c] == l[c][r]
    &&& forall|r: int, c: int|
        0 <= r < l.len() && 0 <= c < l.len() && r != c ==> #[trigger] l[r][c] <= 0
    &&& !multi ==> forall|r: int, c: int|
        0 <= r < l.len() && 0 <= c < l.len() && r != c ==> #[trigger] l[r][c] >= -1
    &&& forall|r: int| 0 <= r < l.len() ==> #[trigger] l[r][r] == offsum(l[r], r, l.len() as int)
}

/// The change that one edge between `i` and `j` makes at entry `(r, c)`.
pub open spec fn edge_delta(i: int, j: int, r: int, c: int) -> int {
    if (r == i && c == j) || (r == j && c == i) {
        -1
    } else if r == c && (r == i || r == j) {
        1
    } else {
        0
    }
}

/// `l` with `s` copies of the edge between `i` and `j` added (or removed, for
/// negative `s`).
pub open spec fn shifted(l: Seq<Seq<i64>>, i: int, j: int, s: int) -> Seq<Seq<i64>> {
    Seq::new(
        l.len(),
        |r: int| Seq::new(l[r].len(), |c: int| (l[r][c] + s * edge_delta(i, j, r, c)) as i64),
    )
}

/// What adding the edge between `i` and `j` makes of `l`: where edges may not
/// repeat and the edge is there already, nothing changes.
pub open spec fn added(l: Seq<Seq<i64>>, i: int, j: int, multi: bool) -> Seq<Seq<i64>> {
    if multi || l[i][j] == 0 {
        shifted(l, i, j, 1)
    } else {
        l
    }
}

/// What removing the edge between `i` and `j` makes of `l`: where there is no
/// such edge, nothing changes.
pub open spec fn removed(l: Seq<Seq<i64>>, i: int, j: int) -> Seq<Seq<i64>> {
    if l[i][j] != 0 {
        shifted(l, i, j, -1)
    } else {
        l
    }
}

/// The Laplacian of the graph on `n` vertices without edges.
pub open spec fn empty_laplacian(n: nat) -> Seq<Seq<i64>> {
    Seq::new(n, |r: int| Seq::new(n, |c: int| 0i64))
}

/// The Laplacian of the complete graph on `n` vertices.
pub open spec fn complete_laplacian(n: nat) -> Seq<Seq<i64>> {
    Seq::new(
        n,
        |r: int|
            Seq::new(
                n,
                |c: int|
                    if r == c {
                        (n - 1) as i64
                    } else {
                        -1i64
                    },
            ),
    )
}

pub open spec fn valid_pair(l: Seq<Seq<i64>>, i: int, j: int) -> bool {
    0 <= i < l.len() && 0 <= j < l.len() && i != j
}


/// The vertices `v < k` of non-zero degree, in increasing order.
pub open spec fn nonisolated_upto(l: Seq<Seq<i64>>, k: int) -> Seq<int>
    decreases k,
{
    if k <= 0 {
        Seq::empty()
    } else {
        let p = nonisolated_upto(l, k - 1);
        if l[k - 1][k - 1] != 0 {
            p.push(k - 1)
        } else {
            p
        }
    }
}

/// The vertices of non-zero degree, in increasing order.
pub open spec fn nonisolated(l: Seq<Seq<i64>>) -> Seq<int> {
    nonisolated_upto(l, l.len() as int)
}

/// The Laplacian restricted to the vertices of non-zero degree, without the
/// row and column of the last of them.
pub open spec fn reduced(l: Seq<Seq<i64>>) -> Seq<Seq<i64>> {
    let s = nonisolated(l);
    let d = (s.len() - 1) as nat;
    Seq::new(d, |r: int| Seq::new(d, |c: int| l[s[r]][s[c]]))
}

/// The number of spanning trees of the graph formed by the vertices of
/// non-zero degree, by the Matrix-Tree theorem: a cofactor of its Laplacian.
/// It is 0 when that graph is disconnected or has no vertex.
pub open spec fn tree_count(l: Seq<Seq<i64>>) -> int {
    if nonisolated(l).len() == 0 {
        0
    } else {
        det(reduced(l))
    }
}

/// The largest degree among the vertices `v < k`, and at least 1.
pub open spec fn degree_cap_upto(l: Seq<Seq<i64>>, k: int) -> int
    decreases k,
{
    if k <= 0 {
        1
    } else {
        let p = degree_cap_upto(l, k - 1);
        if l[k - 1][k - 1] > p {
            l[k - 1][k - 1] as int
        } else {
            p
        }
    }
}

/// The largest degree, and at least 1.
pub open spec fn degree_cap(l: Seq<Seq<i64>>) -> int {
    degree_cap_upto(l, l.len() as int)
}

/// The spanning-tree count of the graph, and every intermediate value of its
/// computation on the reduced Laplacian, fit in an `i128`.
pub open spec fn count_fits(l: Seq<Seq<i64>>) -> bool {
    nonisolated(l).len() == 0 || det_fits((nonisolated(l).len() - 1) as nat, degree_cap(l))
}

/// A bound over all vertices gives the bound over the reduced Laplacian.
pub proof fn lemma_count_fits_of_size(l: Seq<Seq<i64>>)
    requires
        det_fits(l.len(), degree_cap(l)),
    ensures
        count_fits(l),
{
    lemma_nonisolated_range(l, l.len() as int);
    lemma_degree_cap(l, l.len() as int);
    if nonisolated(l).len() > 0 {
        lemma_det_fits_monotone((nonisolated(l).len() - 1) as nat, l.len(), degree_cap(l), degree_cap(l));
    }
}

/// All vertices of non-zero degree have the same degree.
pub open spec fn is_regular(l: Seq<Seq<i64>>) -> bool {
    forall|u: int, v: int|
        0 <= u < l.len() && 0 <= v < l.len() && l[u][u] != 0 && l[v][v] != 0 ==> #[trigger] l[u][u]
            == #[trigger] l[v][v]
}

/// Every vertex lies in one connected graph: a single vertex, or vertices that
/// all have an edge and a spanning tree.
pub open spec fn is_fully_connected(l: Seq<Seq<i64>>) -> bool {
    l.len() == 1 || (l.len() >= 2 && nonisolated(l).len() == l.len() && tree_count(l) > 0)
}

proof fn lemma_nonisolated_range(l: Seq<Seq<i64>>, k: int)
    requires
        0 <= k <= l.len(),
    ensures
        nonisolated_upto(l, k).len() <= k,
        forall|t: int|
            0 <= t < nonisolated_upto(l, k).len() ==> 0 <= #[trigger] nonisolated_upto(l, k)[t] < k
                && l[nonisolated_upto(l, k)[t]][nonisolated_upto(l, k)[t]] != 0,
    decreases k,
{
    if k > 0 {
        lemma_nonisolated_range(l, k - 1);
    }
}

pub(crate) proof fn lemma_degree_cap(l: Seq<Seq<i64>>, k: int)
    requires
        0 <= k <= l.len(),
    ensures
        degree_cap_upto(l, k) >= 1,
        forall|v: int| 0 <= v < k ==> l[v][v] <= #[trigger] degree_cap_upto(l, k),
    decreases k,
{
    if k > 0 {
        lemma_degree_cap(l, k - 1);
    }
}

proof fn lemma_fact_pow_monotone(n1: nat, n2: nat, b1: int, b2: int)
    requires
        n1 <= n2,
        1 <= b1 <= b2,
    ensures
        fact(n1) * pow(b1, n1) <= fact(n2) * pow(b2, n2),
    decreases n2,
{
    if n2 > 0 {
        if n1 == n2 {
            lemma_pow_monotone_base(b1, b2, n1);
            crate::matrix::lemma_fact_positive(n1);
            let f = fact(n1);
            let p1 = pow(b1, n1);
            let p2 = pow(b2, n2);
            assert(f * p1 <= f * p2) by (nonlinear_arith)
                requires
                    f >= 1,
                    p1 <= p2,
            ;
        } else {
            lemma_fact_pow_monotone(n1, (n2 - 1) as nat, b1, b2);
            crate::matrix::lemma_fact_positive((n2 - 1) as nat);
            crate::matrix::lemma_pow_at_least_one(b2, (n2 - 1) as nat);
            let f = fact((n2 - 1) as nat);
            let p = pow(b2, (n2 - 1) as nat);
            assert(f * p <= n2 * f * (b2 * p)) by (nonlinear_arith)
                requires
                    f >= 1,
                    p >= 1,
                    n2 >= 1,
                    b2 >= 1,
            ;
            assert(fact(n2) * pow(b2, n2) == n2 * f * (b2 * p)) by (nonlinear_arith)
                requires
                    fact(n2) == n2 * f,
                    pow(b2, n2) == b2 * p,
            ;
        }
    }
}

proof fn lemma_pow_monotone_base(b1: int, b2: int, e: nat)
    requires
        1 <= b1 <= b2,
    ensures
        1 <= pow(b1, e) <= pow(b2, e),
    decreases e,
{
    if e > 0 {
        lemma_pow_monotone_base(b1, b2, (e - 1) as nat);
        let p1 = pow(b1, (e - 1) as nat);
        let p2 = pow(b2, (e - 1) as nat);
        assert(1 <= b1 * p1 <= b2 * p2) by (nonlinear_arith)
            requires
                1 <= b1 <= b2,
                1 <= p1 <= p2,
        ;
    }
}

/// `det_fits` holds of smaller matrices and smaller bounds.
pub proof fn lemma_det_fits_monotone(n1: nat, n2: nat, b1: int, b2: int)
    requires
        n1 <= n2,
        1 <= b1 <= b2,
        det_fits(n2, b2),
    ensures
        det_fits(n1, b1),
{
    lemma_fact_pow_monotone(n1, n2, b1, b2);
}

proof fn lemma_reduced_fits(l: Seq<Seq<i64>>, multi: bool)
    requires
        laplacian_wf(l, multi),
        count_fits(l),
        nonisolated(l).len() >= 1,
    ensures
        is_square(reduced(l)),
        entries_within(reduced(l), degree_cap(l)),
        det_fits(reduced(l).len(), degree_cap(l)),
{
    let s = nonisolated(l);
    let m = reduced(l);
    let b = degree_cap(l);
    lemma_nonisolated_range(l, l.len() as int);
    lemma_degree_cap(l, l.len() as int);
    assert forall|r: int, c: int| 0 <= r < m.len() && 0 <= c < m[r].len() implies -b <= #[trigger] m[
        r
    ][c] <= b by {
        let x = s[r];
        let y = s[c];
        lemma_offdiag_at_most_degree(l, multi, x, y);
        assert(l[x][x] <= b);
    }
}

/// The number of edges between `p.0` and `p.1` when `p.0 < p.1`, else 0.
pub open spec fn pair_multiplicity(l: Seq<Seq<i64>>, p: (usize, usize)) -> int {
    if p.0 < p.1 && p.1 < l.len() {
        -l[p.0 as int][p.1 as int]
    } else {
        0
    }
}

/// `p` comes before `q` in lexicographic order, or is `q`.
pub open spec fn pair_le(p: (usize, usize), q: (usize, usize)) -> bool {
    p.0 < q.0 || (p.0 == q.0 && p.1 <= q.1)
}

/// The pairs are in increasing lexicographic order.
pub open spec fn pairs_sorted(s: Seq<(usize, usize)>) -> bool {
    forall|i: int, j: int| 0 <= i < j < s.len() ==> pair_le(#[trigger] s[i], #[trigger] s[j])
}

/// `p` comes before `(a, b)` in lexicographic order.
pub open spec fn pair_before(p: (usize, usize), a: int, b: int) -> bool {
    p.0 < a || (p.0 == a && p.1 < b)
}

proof fn lemma_offsum_update(row: Seq<i64>, i: int, k: int, c: int, v: i64)
    requires
        0 <= c < row.len(),
        0 <= k <= row.len(),
    ensures
        offsum(row.update(c, v), i, k) == offsum(row, i, k) - (if c < k && c != i {
            v - row[c]
        } else {
            0
        }),
    decreases k,
{
    if k > 0 {
        lemma_offsum_update(row, i, k - 1, c, v);
    }
}

proof fn lemma_offsum_unchanged(a: Seq<i64>, b: Seq<i64>, i: int, k: int)
    requires
        0 <= k <= a.len(),
        a.len() == b.len(),
        forall|c: int| 0 <= c < k && c != i ==> a[c] == b[c],
    ensures
        offsum(a, i, k) == offsum(b, i, k),
    decreases k,
{
    if k > 0 {
        lemma_offsum_unchanged(a, b, i, k - 1);
    }
}

/// Adding or removing an edge keeps a Laplacian well formed.
pub(crate) proof fn lemma_shifted_wf(l: Seq<Seq<i64>>, i: int, j: int, s: int, multi: bool)
    requires
        laplacian_wf(l, multi),
        valid_pair(l, i, j),
        s == 1 || s == -1,
        s == 1 ==> l[i][i] < i64::MAX && l[j][j] < i64::MAX && l[i][j] > i64::MIN,
        s == 1 && !multi ==> l[i][j] == 0,
        s == -1 ==> l[i][j] < 0,
    ensures
        laplacian_wf(shifted(l, i, j, s), multi),
{
    let n = l.len() as int;
    let t = shifted(l, i, j, s);
    assert(l[i].len() == n && l[j].len() == n);
    assert(l[i][j] == l[j][i]);
    if s == -1 {
        lemma_offdiag_at_most_degree(l, multi, i, j);
        lemma_offdiag_at_most_degree(l, multi, j, i);
    }
    assert forall|r: int| 0 <= r < n implies #[trigger] t[r][r] == offsum(t[r], r, n) by {
        assert(l[r].len() == n);
        if r == i || r == j {
            let o = if r == i {
                j
            } else {
                i
            };
            let row1 = l[r].update(o, (l[r][o] - s) as i64);
            let row2 = row1.update(r, (l[r][r] + s) as i64);
            lemma_offsum_update(l[r], r, n, o, (l[r][o] - s) as i64);
            lemma_offsum_update(row1, r, n, r, (l[r][r] + s) as i64);
            assert(t[r] =~= row2);
        } else {
            assert(t[r] =~= l[r]);
        }
    }
}

/// An off-diagonal entry never exceeds its row's degree in size.
pub(crate) proof fn lemma_offdiag_at_most_degree(l: Seq<Seq<i64>>, multi: bool, r: int, c: int)
    requires
        laplacian_wf(l, multi),
        0 <= r < l.len(),
        0 <= c < l.len(),
    ensures
        r != c ==> -l[r][c] <= l[r][r],
        l[r][r] >= 0,
{
    lemma_offsum_bounds(l, multi, r, c, l.len() as int);
}

proof fn lemma_offsum_bounds(l: Seq<Seq<i64>>, multi: bool, r: int, c: int, k: int)
    requires
        laplacian_wf(l, multi),
        0 <= r < l.len(),
        0 <= c < l.len(),
        0 <= k <= l.len(),
    ensures
        offsum(l[r], r, k) >= 0,
        c < k && r != c ==> -l[r][c] <= offsum(l[r], r, k),
    decreases k,
{
    if k > 0 {
        lemma_offsum_bounds(l, multi, r, c, k - 1);
        assert(l[r].len() == l.len());
        if k - 1 != r {
            assert(l[r][k - 1] <= 0);
        }
    }
}

/// A graph held as its Laplacian matrix; `T` says whether edges may repeat.
pub struct LapGraph<T: GraphType> {
    laplacian: Vec<Vec<i64>>,
    _p: PhantomData<T>,
}

impl<T: GraphType> View for LapGraph<T> {
    type V = Seq<Seq<i64>>;

    closed spec fn view(&self) -> Seq<Seq<i64>> {
        rows(self.laplacian@)
    }
}

impl<T: GraphType> LapGraph<T> {
    pub open spec fn wf(&self) -> bool {
        laplacian_wf(self@, T::allows_multi_edges())
    }

    /// The graph on `vertex_count` vertices without edges.
    pub fn empty(vertex_count: usize) -> (r: Self)
        ensures
            r@ == empty_laplacian(vertex_count as nat),
            r.wf(),
    {
        let mut laplacian: Vec<Vec<i64>> = Vec::new();
        let mut i: usize = 0;
        while i < vertex_count
            invariant
                0 <= i <= vertex_count,
                laplacian.len() == i,
                forall|r: int| 0 <= r < i ==> #[trigger] laplacian@[r]@ == empty_laplacian(vertex_count as nat)[r],
            decreases vertex_count - i,
        {
            let row: Vec<i64> = vec![0i64; vertex_count];
            proof {
                assert(row@ =~= empty_laplacian(vertex_count as nat)[i as int]);
            }
            laplacian.push(row);
            i = i + 1;
        }
        let r = LapGraph { laplacian, _p: PhantomData };
        proof {
            assert(r@ =~= empty_laplacian(vertex_count as nat));
            let l = r@;
            assert forall|v: int| 0 <= v < l.len() implies #[trigger] l[v][v] == offsum(l[v], v, l.len() as int) by {
                lemma_offsum_zero_row(l[v], v, l.len() as int);
            }
        }
        r
    }


    /// The complete graph on `vertex_count` vertices.
    pub fn complete(vertex_count: usize) -> (r: Self)
        requires
            vertex_count <= i64::MAX,
        ensures
            r@ == complete_laplacian(vertex_count as nat),
            r.wf(),
    {
        let n = vertex_count;
        let ghost target = complete_laplacian(n as nat);
        let mut laplacian: Vec<Vec<i64>> = Vec::new();
        let mut i: usize = 0;
        while i < n
            invariant
                0 <= i <= n,
                n <= i64::MAX,
                target == complete_laplacian(n as nat),
                laplacian.len() == i,
                forall|r: int| 0 <= r < i ==> #[trigger] laplacian@[r]@ == target[r],
            decreases n - i,
        {
            let mut row: Vec<i64> = vec![-1i64; n];
            row.set(i, (n as i64) - 1);
            proof {
                assert(row@ =~= target[i as int]);
            }
            let ghost prev = laplacian@;
            laplacian.push(row);
            proof {
                assert forall|r: int| 0 <= r < i + 1 implies #[trigger] laplacian@[r]@ == target[r] by {
                    if r < i {
                        assert(laplacian@[r] == prev[r]);
                    }
                }
            }
            i = i + 1;
        }
        let r = LapGraph { laplacian, _p: PhantomData };
        proof {
            assert(r@ =~= target);
            assert forall|v: int| 0 <= v < target.len() implies #[trigger] target[v][v] == offsum(
                target[v],
                v,
                target.len() as int,
            ) by {
                lemma_offsum_complete_row(target[v], v, n as int);
            }
        }
        r
    }

    /// Makes `other` a copy of this graph.
    pub fn transfer(&self, other: &mut Self)
        ensures
            final(other)@ == self@,
    {
        let n = self.laplacian.len();
        let mut copy: Vec<Vec<i64>> = Vec::new();
        let mut i: usize = 0;
        while i < n
            invariant
                0 <= i <= n,
                n == self.laplacian.len(),
                copy.len() == i,
                forall|r: int| 0 <= r < i ==> #[trigger] copy@[r]@ == self.laplacian@[r]@,
            decreases n - i,
        {
            let src = &self.laplacian[i];
            let mut row: Vec<i64> = Vec::new();
            let mut c: usize = 0;
            while c < src.len()
                invariant
                    0 <= c <= src.len(),
                    row@ == src@.subrange(0, c as int),
                decreases src.len() - c,
            {
                row.push(src[c]);
                proof {
                    assert(src@.subrange(0, c + 1) =~= src@.subrange(0, c as int).push(src@[c as int]));
                }
                c = c + 1;
            }
            proof {
                assert(src@.subrange(0, src.len() as int) =~= src@);
            }
            let ghost prev = copy@;
            copy.push(row);
            proof {
                assert forall|r: int| 0 <= r < i + 1 implies #[trigger] copy@[r]@ == self.laplacian@[r]@ by {
                    if r < i {
                        assert(copy@[r] == prev[r]);
                    }
                }
            }
            i = i + 1;
        }
        other.laplacian = copy;
        proof {
            assert(other@ =~= self@);
        }
    }

    /// The same graph under the descriptor `R`.
    pub fn convert_type<R: GraphType>(self) -> (r: LapGraph<R>)
        requires
            self.wf(),
            R::allows_multi_edges() || laplacian_wf(self@, false),
        ensures
            r@ == self@,
            r.wf(),
    {
        LapGraph { laplacian: self.laplacian, _p: PhantomData }
    }

    /// The same graph under the most permissive descriptor.
    pub fn erase_type(self) -> (r: LapGraph<Erased>)
        requires
            self.wf(),
        ensures
            r@ == self@,
            r.wf(),
    {
        self.convert_type()
    }


    /// The edges, each pair `(a, b)` with `a < b` listed once per edge between
    /// them, in increasing order of pairs.
    pub fn edge_list(&self) -> (r: Vec<(usize, usize)>)
        requires
            self.wf(),
        ensures
            forall|p: (usize, usize)| #[trigger] r@.to_multiset().count(p) == pair_multiplicity(self@, p),
            pairs_sorted(r@),
    {
        broadcast use vstd::seq_lib::group_to_multiset_ensures;

        let ghost l = self@;
        let n = self.laplacian.len();
        let mut out: Vec<(usize, usize)> = Vec::new();
        let mut a: usize = 0;
        while a < n
            invariant
                0 <= a <= n,
                n == l.len(),
                l == self@,
                self.wf(),
                forall|p: (usize, usize)| #[trigger] out@.to_multiset().count(p) == if pair_before(p, a as int, 0) {
                    pair_multiplicity(l, p)
                } else {
                    0
                },
                pairs_sorted(out@),
                forall|t: int| 0 <= t < out@.len() ==> pair_before(#[trigger] out@[t], a as int, 0),
            decreases n - a,
        {
            let mut b: usize = a + 1;
            proof {
                assert forall|p: (usize, usize)| #[trigger] out@.to_multiset().count(p) == if pair_before(p, a as int, b as int) {
                    pair_multiplicity(l, p)
                } else {
                    0
                } by {
                    if pair_before(p, a as int, b as int) && !pair_before(p, a as int, 0) {
                        assert(pair_multiplicity(l, p) == 0);
                    }
                }
            }
            while b < n
                invariant
                    0 <= a < n,
                    a + 1 <= b <= n,
                    n == l.len(),
                    l == self@,
                    self.wf(),
                    forall|p: (usize, usize)| #[trigger] out@.to_multiset().count(p) == if pair_before(p, a as int, b as int) {
                        pair_multiplicity(l, p)
                    } else {
                        0
                    },
                    pairs_sorted(out@),
                    forall|t: int| 0 <= t < out@.len() ==> pair_before(#[trigger] out@[t], a as int, b as int),
                decreases n - b,
            {
                proof {
                    assert(l[a as int].len() == n);
                    assert(l[a as int] == self.laplacian@[a as int]@);
                    lemma_offdiag_at_most_degree(l, T::allows_multi_edges(), a as int, b as int);
                }
                let mult = self.laplacian[a][b];
                let copies: u64 = (-mult) as u64;
                let mut c: u64 = 0;
                while c < copies
                    invariant
                        0 <= a < b < n,
                        n == l.len(),
                        copies == -l[a as int][b as int],
                        0 <= c <= copies,
                        forall|p: (usize, usize)| #[trigger] out@.to_multiset().count(p) == if pair_before(p, a as int, b as int) {
                            pair_multiplicity(l, p)
                        } else if p == (a, b) {
                            c as int
                        } else {
                            0
                        },
                        pairs_sorted(out@),
                        forall|t: int| 0 <= t < out@.len() ==> pair_before(#[trigger] out@[t], a as int, b as int) || out@[t] == (a, b),
                    decreases copies - c,
                {
                    let ghost prev = out@;
                    out.push((a, b));
                    proof {
                        assert(out@ == prev.push((a, b)));
                        assert forall|x: int, y: int| 0 <= x < y < out@.len() implies pair_le(#[trigger] out@[x], #[trigger] out@[y]) by {
                            if y < prev.len() {
                                assert(out@[x] == prev[x] && out@[y] == prev[y]);
                            } else {
                                assert(out@[x] == prev[x]);
                            }
                        }
                        assert forall|t: int| 0 <= t < out@.len() implies pair_before(#[trigger] out@[t], a as int, b as int) || out@[t] == (a, b) by {
                            if t < prev.len() {
                                assert(out@[t] == prev[t]);
                            }
                        }
                        prev.to_multiset_ensures();
                        assert(prev.push((a, b)).to_multiset() =~= prev.to_multiset().insert((a, b)));
                        assert forall|p: (usize, usize)| #[trigger] out@.to_multiset().count(p) == prev.to_multiset().count(p) + if p == (a, b) {
                            1int
                        } else {
                            0
                        } by {
                            vstd::multiset::lemma_insert_increases_count_by_1(prev.to_multiset(), (a, b));
                            vstd::multiset::lemma_insert_other_elements_unchanged(prev.to_multiset(), (a, b), p);
                        }
                    }
                    c = c + 1;
                }
                proof {
                    assert forall|p: (usize, usize)| #[trigger] out@.to_multiset().count(p) == if pair_before(p, a as int, b + 1) {
                        pair_multiplicity(l, p)
                    } else {
                        0
                    } by {
                        if p == (a, b) {
                            assert(pair_multiplicity(l, p) == -l[a as int][b as int]);
                        }
                    }
                }
                b = b + 1;
            }
            proof {
                assert forall|p: (usize, usize)| #[trigger] out@.to_multiset().count(p) == if pair_before(p, a + 1, 0) {
                    pair_multiplicity(l, p)
                } else {
                    0
                } by {
                    if pair_before(p, a + 1, 0) && !pair_before(p, a as int, b as int) {
                        assert(pair_multiplicity(l, p) == 0);
                    }
                }
            }
            a = a + 1;
        }
        proof {
            assert forall|p: (usize, usize)| #[trigger] out@.to_multiset().count(p) == pair_multiplicity(l, p) by {
                if !pair_before(p, n as int, 0) {
                    assert(pair_multiplicity(l, p) == 0);
                }
            }
        }
        out
    }

    /// Whether the spanning trees of this graph can be counted in an `i128`:
    /// the condition that `count_spanning_trees` needs.
    pub fn count_fits_check(&self) -> (r: bool)
        requires
            self.wf(),
        ensures
            r == count_fits(self@),
    {
        let ghost l = self@;
        let n = self.laplacian.len();
        let mut cap: i64 = 1;
        let mut count: usize = 0;
        let mut v: usize = 0;
        while v < n
            invariant
                0 <= v <= n,
                n == l.len(),
                l == self@,
                self.wf(),
                cap == degree_cap_upto(l, v as int),
                cap >= 1,
                count == nonisolated_upto(l, v as int).len(),
                count <= v,
            decreases n - v,
        {
            assert(l[v as int].len() == n);
            assert(l[v as int] == self.laplacian@[v as int]@);
            let d = self.laplacian[v][v];
            if d > cap {
                cap = d;
            }
            if d != 0 {
                count = count + 1;
            }
            v = v + 1;
        }
        if count == 0 {
            return true;
        }
        crate::matrix::det_fits_check(count - 1, cap as u64)
    }

    /// The number of vertices.
    pub fn vertex_count(&self) -> (r: usize)
        ensures
            r == self@.len(),
    {
        self.laplacian.len()
    }

    /// The entry `(i, j)` of the Laplacian.
    pub fn laplacian_entry(&self, i: usize, j: usize) -> (r: i64)
        requires
            self.wf(),
            i < self@.len(),
            j < self@.len(),
        ensures
            r == self@[i as int][j as int],
    {
        assert(self@[i as int].len() == self@.len());
        self.laplacian[i][j]
    }


    /// The number of spanning trees of the graph formed by the vertices of
    /// non-zero degree; 0 when that graph is disconnected or empty.
    pub fn count_spanning_trees(&self) -> (r: i128)
        requires
            self.wf(),
            count_fits(self@),
        ensures
            r == tree_count(self@),
    {
        let ghost l = self@;
        let n = self.laplacian.len();
        let mut idx: Vec<usize> = Vec::new();
        let mut v: usize = 0;
        while v < n
            invariant
                0 <= v <= n,
                n == l.len(),
                l == self@,
                self.wf(),
                idx@.len() == nonisolated_upto(l, v as int).len(),
                forall|t: int| 0 <= t < idx@.len() ==> #[trigger] idx@[t] as int == nonisolated_upto(l, v as int)[t],
            decreases n - v,
        {
            assert(l[v as int].len() == n);
            if self.laplacian[v][v] != 0 {
                idx.push(v);
            }
            v = v + 1;
        }
        if idx.len() == 0 {
            return 0;
        }
        let ghost s = nonisolated(l);
        proof {
            lemma_nonisolated_range(l, n as int);
        }
        let d = idx.len() - 1;
        let mut red: Vec<Vec<i64>> = Vec::new();
        let mut r: usize = 0;
        while r < d
            invariant
                0 <= r <= d,
                d == s.len() - 1,
                s == nonisolated(l),
                n == l.len(),
                l == self@,
                self.wf(),
                idx@.len() == s.len(),
                forall|t: int| 0 <= t < idx@.len() ==> #[trigger] idx@[t] as int == s[t],
                forall|t: int| 0 <= t < s.len() ==> 0 <= #[trigger] s[t] < n,
                red.len() == r,
                forall|q: int| 0 <= q < r ==> #[trigger] red@[q]@ == reduced(l)[q],
            decreases d - r,
        {
            let a = idx[r];
            assert(l[a as int].len() == n);
            assert(l[a as int] == self.laplacian@[a as int]@);
            let mut row: Vec<i64> = Vec::new();
            let mut c: usize = 0;
            while c < d
                invariant
                    0 <= c <= d,
                    d == s.len() - 1,
                    s == nonisolated(l),
                    n == l.len(),
                    l == self@,
                    r < d,
                    a as int == s[r as int],
                    l[a as int].len() == n,
                    l == rows(self.laplacian@),
                    idx@.len() == s.len(),
                    forall|t: int| 0 <= t < idx@.len() ==> #[trigger] idx@[t] as int == s[t],
                    forall|t: int| 0 <= t < s.len() ==> 0 <= #[trigger] s[t] < n,
                    row.len() == c,
                    forall|q: int| 0 <= q < c ==> #[trigger] row@[q] == l[s[r as int]][s[q]],
                decreases d - c,
            {
                let b = idx[c];
                assert(l[a as int] == self.laplacian@[a as int]@);
                row.push(self.laplacian[a][b]);
                c = c + 1;
            }
            proof {
                let red_row = reduced(l)[r as int];
                assert(reduced(l).len() == d);
                assert(red_row.len() == d);
                assert forall|q: int| 0 <= q < d implies row@[q] == red_row[q] by {
                    assert(row@[q] == l[s[r as int]][s[q]]);
                }
                assert(row@ =~= red_row);
            }
            let ghost prev = red@;
            red.push(row);
            proof {
                assert forall|q: int| 0 <= q < r + 1 implies #[trigger] red@[q]@ == reduced(l)[q] by {
                    if q < r {
                        assert(red@[q] == prev[q]);
                    }
                }
            }
            r = r + 1;
        }
        proof {
            assert(rows(red@) =~= reduced(l));
            lemma_reduced_fits(l, T::allows_multi_edges());
        }
        determinant(&red, Ghost(degree_cap(l)))
    }

    /// Whether the vertices of non-zero degree form one connected graph; false
    /// for a graph without edges.
    pub fn connected(&self) -> (r: bool)
        requires
            self.wf(),
            count_fits(self@),
        ensures
            r == (tree_count(self@) > 0),
    {
        self.count_spanning_trees() > 0
    }

    /// Whether all vertices, isolated ones included, form one connected graph.
    pub fn fully_connected(&self) -> (r: bool)
        requires
            self.wf(),
            count_fits(self@),
        ensures
            r == is_fully_connected(self@),
    {
        let n = self.laplacian.len();
        if n == 1 {
            return true;
        }
        if n == 0 {
            return false;
        }
        let mut v: usize = 0;
        while v < n
            invariant
                0 <= v <= n,
                n == self@.len(),
                n >= 2,
                self.wf(),
                nonisolated_upto(self@, v as int).len() == v,
            decreases n - v,
        {
            assert(self@[v as int].len() == n);
            assert(self@[v as int] == self.laplacian@[v as int]@);
            if self.laplacian[v][v] == 0 {
                proof {
                    lemma_nonisolated_range(self@, n as int);
                    lemma_nonisolated_short(self@, v as int + 1, n as int);
                }
                return false;
            }
            v = v + 1;
        }
        self.count_spanning_trees() > 0
    }

    /// Whether all vertices of non-zero degree have the same degree.
    pub fn regular(&self) -> (r: bool)
        requires
            self.wf(),
        ensures
            r == is_regular(self@),
    {
        let ghost l = self@;
        let n = self.laplacian.len();
        assert forall|u: int| 0 <= u < n implies #[trigger] self.laplacian@[u]@.len() == n by {
            assert(l[u] == self.laplacian@[u]@);
        }
        let mut p: usize = 0;
        while p < n && self.laplacian[p][p] == 0
            invariant
                0 <= p <= n,
                n == l.len(),
                l == self@,
                self.wf(),
                forall|u: int| 0 <= u < p ==> #[trigger] l[u][u] == 0,
                forall|u: int| 0 <= u < n ==> #[trigger] self.laplacian@[u]@.len() == n,
            decreases n - p,
        {
            assert(l[p as int].len() == n);
            p = p + 1;
        }
        if p == n {
            return true;
        }
        assert(l[p as int].len() == n);
        let d = self.laplacian[p][p];
        let mut i: usize = 0;
        while i < n
            invariant
                0 <= i <= n,
                p < n,
                n == l.len(),
                l == self@,
                self.wf(),
                d == l[p as int][p as int],
                d != 0,
                forall|u: int| 0 <= u < i ==> #[trigger] l[u][u] == 0 || l[u][u] == d,
            decreases n - i,
        {
            assert(l[i as int].len() == n);
            let x = self.laplacian[i][i];
            if x != 0 && x != d {
                proof {
                    assert(l[i as int][i as int] != l[p as int][p as int]);
                }
                return false;
            }
            i = i + 1;
        }
        true
    }

    /// The degree of `v`.
    pub fn degree(&self, v: usize) -> (r: usize)
        requires
            self.wf(),
            v < self@.len(),
            self@[v as int][v as int] <= usize::MAX,
        ensures
            r == self@[v as int][v as int],
    {
        proof {
            lemma_offdiag_at_most_degree(self@, T::allows_multi_edges(), v as int, v as int);
        }
        assert(self@[v as int].len() == self@.len());
        self.laplacian[v][v] as usize
    }

    /// Whether `v` has no edge.
    pub fn isolated(&self, v: usize) -> (r: bool)
        requires
            self.wf(),
            v < self@.len(),
        ensures
            r == (self@[v as int][v as int] == 0),
    {
        assert(self@[v as int].len() == self@.len());
        assert(self@[v as int] == self.laplacian@[v as int]@);
        self.laplacian[v][v] == 0
    }

    /// Whether `a` or `b` has an edge: an edge between them would touch the
    /// part of the graph that has edges.
    pub fn is_adjacent(&self, a: usize, b: usize) -> (r: bool)
        requires
            self.wf(),
            a < self@.len(),
            b < self@.len(),
        ensures
            r == (self@[a as int][a as int] != 0 || self@[b as int][b as int] != 0),
    {
        assert(self@[a as int].len() == self@.len());
        assert(self@[b as int].len() == self@.len());
        self.laplacian[a][a] != 0 || self.laplacian[b][b] != 0
    }

    /// Adds an edge between `i` and `j`. Where edges may not repeat and this one
    /// is there already, nothing changes and the result is false.
    pub fn add_edge(&mut self, i: usize, j: usize) -> (r: bool)
        requires
            old(self).wf(),
            valid_pair(old(self)@, i as int, j as int),
            old(self)@[i as int][i as int] < i64::MAX,
            old(self)@[j as int][j as int] < i64::MAX,
        ensures
            r == (T::allows_multi_edges() || old(self)@[i as int][j as int] == 0),
            final(self)@ == added(old(self)@, i as int, j as int, T::allows_multi_edges()),
            final(self).wf(),
    {
        let ghost l = self@;
        proof {
            assert(l[i as int].len() == l.len() && l[j as int].len() == l.len());
            lemma_offdiag_at_most_degree(l, T::allows_multi_edges(), i as int, j as int);
        }
        if T::multi_edges() || self.laplacian[i][j] == 0 {
            let x = self.laplacian[i][j];
            self.laplacian[i][j] = x - 1;
            let y = self.laplacian[j][i];
            self.laplacian[j][i] = y - 1;
            let d = self.laplacian[i][i];
            self.laplacian[i][i] = d + 1;
            let e = self.laplacian[j][j];
            self.laplacian[j][j] = e + 1;
            proof {
                assert(self@ =~~= shifted(l, i as int, j as int, 1));
                lemma_shifted_wf(l, i as int, j as int, 1, T::allows_multi_edges());
            }
            true
        } else {
            false
        }
    }

    /// Removes one edge between `i` and `j`; where there is none, nothing
    /// changes and the result is false.
    pub fn remove_edge(&mut self, i: usize, j: usize) -> (r: bool)
        requires
            old(self).wf(),
            valid_pair(old(self)@, i as int, j as int),
        ensures
            r == (old(self)@[i as int][j as int] != 0),
            final(self)@ == removed(old(self)@, i as int, j as int),
            final(self).wf(),
    {
        let ghost l = self@;
        proof {
            assert(l[i as int].len() == l.len() && l[j as int].len() == l.len());
            lemma_offdiag_at_most_degree(l, T::allows_multi_edges(), i as int, j as int);
            lemma_offdiag_at_most_degree(l, T::allows_multi_edges(), j as int, i as int);
        }
        if self.laplacian[i][j] != 0 {
            let x = self.laplacian[i][j];
            self.laplacian[i][j] = x + 1;
            let y = self.laplacian[j][i];
            self.laplacian[j][i] = y + 1;
            let d = self.laplacian[i][i];
            self.laplacian[i][i] = d - 1;
            let e = self.laplacian[j][j];
            self.laplacian[j][j] = e - 1;
            proof {
                assert(self@ =~~= shifted(l, i as int, j as int, -1));
                lemma_shifted_wf(l, i as int, j as int, -1, T::allows_multi_edges());
            }
            true
        } else {
            false
        }
    }
}

proof fn lemma_offsum_complete_row(row: Seq<i64>, i: int, k: int)
    requires
        0 <= k <= row.len(),
        forall|c: int| 0 <= c < row.len() && c != i ==> row[c] == -1,
    ensures
        offsum(row, i, k) == k - (if 0 <= i < k {
            1int
        } else {
            0
        }),
    decreases k,
{
    if k > 0 {
        lemma_offsum_complete_row(row, i, k - 1);
    }
}

/// Adding an edge and then removing it gives back the Laplacian: always where
/// edges may repeat, and where they may not, when the edge was absent before.
pub proof fn lemma_add_then_remove(l: Seq<Seq<i64>>, i: int, j: int, multi: bool)
    requires
        laplacian_wf(l, multi),
        valid_pair(l, i, j),
        l[i][i] < i64::MAX,
        l[j][j] < i64::MAX,
        multi || l[i][j] == 0,
    ensures
        removed(added(l, i, j, multi), i, j) == l,
{
    lemma_offdiag_at_most_degree(l, multi, i, j);
    let a = added(l, i, j, multi);
    assert(a == shifted(l, i, j, 1));
    assert(l[i].len() == l.len());
    assert(a[i][j] == l[i][j] - 1);
    assert(shifted(a, i, j, -1) =~~= l);
}

/// Where edges may repeat, adding an edge twice and removing it once leaves
/// the graph with that edge added once: one more copy of it than before.
pub proof fn lemma_add_twice_remove_once(l: Seq<Seq<i64>>, i: int, j: int)
    requires
        laplacian_wf(l, true),
        valid_pair(l, i, j),
        l[i][i] < i64::MAX - 1,
        l[j][j] < i64::MAX - 1,
    ensures
        removed(added(added(l, i, j, true), i, j, true), i, j) == added(l, i, j, true),
        added(l, i, j, true)[i][j] == l[i][j] - 1,
{
    lemma_offdiag_at_most_degree(l, true, i, j);
    let a = added(l, i, j, true);
    assert(l[i].len() == l.len() && l[j].len() == l.len());
    lemma_shifted_wf(l, i, j, 1, true);
    assert(a[i][i] == l[i][i] + 1 && a[j][j] == l[j][j] + 1);
    lemma_add_then_remove(a, i, j, true);
}

proof fn lemma_single_edge_nonisolated(n: nat, lo: int, hi: int, multi: bool, k: int)
    requires
        0 <= lo < hi < n,
        0 <= k <= n,
    ensures
        ({
            let l = added(empty_laplacian(n), lo, hi, multi);
            nonisolated_upto(l, k) == if k <= lo {
                Seq::<int>::empty()
            } else if k <= hi {
                seq![lo]
            } else {
                seq![lo, hi]
            }
        }),
    decreases k,
{
    let l = added(empty_laplacian(n), lo, hi, multi);
    assert(empty_laplacian(n)[lo][hi] == 0);
    if k > 0 {
        lemma_single_edge_nonisolated(n, lo, hi, multi, k - 1);
        assert(l[k - 1][k - 1] == edge_delta(lo, hi, k - 1, k - 1));
        if k - 1 == lo {
            assert(seq![lo] =~= Seq::<int>::empty().push(lo));
        } else if k - 1 == hi {
            assert(seq![lo, hi] =~= seq![lo].push(hi));
        }
    }
}

/// A graph whose only edge joins two vertices has exactly one spanning tree,
/// whatever the number of other, isolated, vertices.
pub proof fn lemma_single_edge_tree_count(n: nat, a: int, b: int, multi: bool)
    requires
        0 <= a < n,
        0 <= b < n,
        a != b,
    ensures
        tree_count(added(empty_laplacian(n), a, b, multi)) == 1,
{
    let lo = if a < b {
        a
    } else {
        b
    };
    let hi = if a < b {
        b
    } else {
        a
    };
    let l = added(empty_laplacian(n), a, b, multi);
    assert(empty_laplacian(n)[a][b] == 0);
    assert(empty_laplacian(n)[lo][hi] == 0);
    assert(l =~~= added(empty_laplacian(n), lo, hi, multi));
    lemma_single_edge_nonisolated(n, lo, hi, multi, n as int);
    let m = reduced(l);
    assert(m.len() == 1);
    assert(m[0][0] == 1);
    assert(minor(m, 0).len() == 0);
    assert(det(minor(m, 0)) == 1);
    assert(expansion(m, 0) == 0);
    assert(expansion(m, 1) == 1);
}

/// Adding an edge raises the largest degree by at most one.
pub(crate) proof fn lemma_added_cap(l: Seq<Seq<i64>>, i: int, j: int, multi: bool, k: int)
    requires
        laplacian_wf(l, multi),
        valid_pair(l, i, j),
        l[i][i] < i64::MAX,
        l[j][j] < i64::MAX,
        0 <= k <= l.len(),
    ensures
        degree_cap_upto(added(l, i, j, multi), k) <= degree_cap_upto(l, k) + 1,
    decreases k,
{
    if k > 0 {
        lemma_added_cap(l, i, j, multi, k - 1);
        lemma_degree_cap(l, k);
        assert(l[k - 1].len() == l.len());
    }
}

/// The graph without edges has degree cap 1.
pub(crate) proof fn lemma_empty_cap(n: nat, k: int)
    requires
        0 <= k <= n,
    ensures
        degree_cap_upto(empty_laplacian(n), k) == 1,
    decreases k,
{
    if k > 0 {
        lemma_empty_cap(n, k - 1);
    }
}

proof fn lemma_offsum_zero_row(row: Seq<i64>, i: int, k: int)
    requires
        0 <= k <= row.len(),
        forall|c: int| 0 <= c < row.len() ==> row[c] == 0,
    ensures
        offsum(row, i, k) == 0,
    decreases k,
{
    if k > 0 {
        lemma_offsum_zero_row(row, i, k - 1);
    }
}

} // verus!

verus! {

proof fn lemma_nonisolated_short(l: Seq<Seq<i64>>, k: int, n: int)
    requires
        1 <= k <= n <= l.len(),
        l[k - 1][k - 1] == 0,
        nonisolated_upto(l, k - 1).len() == k - 1,
    ensures
        nonisolated_upto(l, n).len() < n,
    decreases n,
{
    if n > k {
        lemma_nonisolated_short(l, k, n - 1);
        lemma_nonisolated_range(l, n - 1);
    }
}

} // verus!

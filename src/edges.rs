use vstd::prelude::*;
use crate::brute::{all_pairs, pairs_upto, extends, valid_choices};
use crate::graph::{
    laplacian_wf, added, shifted, edge_delta, degree_cap, empty_laplacian, nonisolated_upto,
    tree_count, lemma_degree_cap, lemma_shifted_wf, lemma_offdiag_at_most_degree, lemma_added_cap,
};

verus! {

/// The sum of the degrees of the vertices `v < k`.
pub open spec fn degree_sum_upto(l: Seq<Seq<i64>>, k: int) -> int
    decreases k,
{
    if k <= 0 {
        0
    } else {
        degree_sum_upto(l, k - 1) + l[k - 1][k - 1]
    }
}

/// The sum of the degrees: twice the number of edges.
pub open spec fn degree_sum(l: Seq<Seq<i64>>) -> int {
    degree_sum_upto(l, l.len() as int)
}

/// `p` comes strictly before `q` in lexicographic order.
pub open spec fn pair_lt(p: (usize, usize), q: (usize, usize)) -> bool {
    p.0 < q.0 || (p.0 == q.0 && p.1 < q.1)
}

/// The pairs are in strictly increasing lexicographic order.
pub open spec fn pairs_increasing(cs: Seq<(usize, usize)>) -> bool {
    forall|i: int, j: int| 0 <= i < j < cs.len() ==> pair_lt(#[trigger] cs[i], #[trigger] cs[j])
}

pub(crate) proof fn lemma_shift_degree_sum(l: Seq<Seq<i64>>, i: int, j: int, k: int, multi: bool)
    requires
        laplacian_wf(l, multi),
        0 <= i < l.len(),
        0 <= j < l.len(),
        i != j,
        l[i][i] < i64::MAX,
        l[j][j] < i64::MAX,
        0 <= k <= l.len(),
    ensures
        degree_sum_upto(shifted(l, i, j, 1), k) == degree_sum_upto(l, k) + (if i < k {
            1int
        } else {
            0
        }) + (if j < k {
            1int
        } else {
            0
        }),
    decreases k,
{
    if k > 0 {
        lemma_shift_degree_sum(l, i, j, k - 1, multi);
        lemma_offdiag_at_most_degree(l, multi, k - 1, k - 1);
        assert(l[k - 1].len() == l.len());
        assert(shifted(l, i, j, 1)[k - 1][k - 1] == l[k - 1][k - 1] + edge_delta(i, j, k - 1, k - 1));
    }
}

proof fn lemma_empty_degree_sum(n: nat, k: int)
    requires
        0 <= k <= n,
    ensures
        degree_sum_upto(empty_laplacian(n), k) == 0,
        nonisolated_upto(empty_laplacian(n), k).len() == 0,
    decreases k,
{
    if k > 0 {
        lemma_empty_degree_sum(n, k - 1);
    }
}

/// The graph without edges has no spanning tree.
pub proof fn lemma_empty_tree_count(n: nat)
    ensures
        tree_count(empty_laplacian(n)) == 0,
        degree_sum(empty_laplacian(n)) == 0,
{
    lemma_empty_degree_sum(n, n as int);
}

/// Adding `m` pairs adds `m` edges: always where edges may repeat, and where
/// they may not, when the pairs are distinct and none is an edge already.
pub proof fn lemma_extends_degree_sum(
    l: Seq<Seq<i64>>,
    g: Seq<Seq<i64>>,
    cs: Seq<(usize, usize)>,
    from: int,
    m: nat,
    multi: bool,
)
    requires
        laplacian_wf(l, multi),
        valid_choices(cs, l.len() as int),
        0 <= from,
        degree_cap(l) + m < i64::MAX,
        !multi ==> pairs_increasing(cs),
        !multi ==> forall|t: int|
            from <= t < cs.len() ==> l[#[trigger] cs[t].0 as int][cs[t].1 as int] == 0,
        extends(l, g, cs, from, m, multi),
    ensures
        degree_sum(g) == degree_sum(l) + 2 * m,
    decreases m,
{
    if m > 0 {
        let t = choose|t: int|
            from <= t < cs.len() && extends(
                added(l, #[trigger] cs[t].0 as int, cs[t].1 as int, multi),
                g,
                cs,
                if multi {
                    from
                } else {
                    t + 1
                },
                (m - 1) as nat,
                multi,
            );
        let a = cs[t].0 as int;
        let b = cs[t].1 as int;
        let n = l.len() as int;
        lemma_degree_cap(l, n);
        lemma_offdiag_at_most_degree(l, multi, a, b);
        assert(l[a][a] < i64::MAX && l[b][b] < i64::MAX);
        let l2 = added(l, a, b, multi);
        assert(l2 == shifted(l, a, b, 1));
        lemma_shifted_wf(l, a, b, 1, multi);
        lemma_added_cap(l, a, b, multi, n);
        lemma_shift_degree_sum(l, a, b, n, multi);
        assert(l[a].len() == n);
        if !multi {
            assert forall|u: int| t + 1 <= u < cs.len() implies l2[#[trigger] cs[u].0 as int][cs[u].1 as int] == 0 by {
                assert(pair_lt(cs[t], cs[u]));
                assert(l[cs[u].0 as int].len() == n);
            }
        }
        lemma_extends_degree_sum(l2, g, cs, if multi {
            from
        } else {
            t + 1
        }, (m - 1) as nat, multi);
    }
}

proof fn lemma_pairs_upto(n: int, i: int)
    requires
        0 <= i <= n <= usize::MAX,
    ensures
        pairs_increasing(pairs_upto(n, i)),
        valid_choices(pairs_upto(n, i), n),
        forall|t: int| 0 <= t < pairs_upto(n, i).len() ==> #[trigger] pairs_upto(n, i)[t].0 < i,
    decreases i,
{
    if i > 0 {
        lemma_pairs_upto(n, i - 1);
        let p = pairs_upto(n, i - 1);
        let s = pairs_upto(n, i);
        assert forall|x: int, y: int| 0 <= x < y < s.len() implies pair_lt(#[trigger] s[x], #[trigger] s[y]) by {
            if y < p.len() {
                assert(s[x] == p[x] && s[y] == p[y]);
            } else if x < p.len() {
                assert(s[x] == p[x]);
            }
        }
        assert forall|t: int| 0 <= t < s.len() implies #[trigger] s[t].0 < s[t].1 && s[t].1 < n && s[t].0 < i by {
            if t < p.len() {
                assert(s[t] == p[t]);
            }
        }
    }
}

/// The candidate pairs are distinct, each `(a, b)` with `a < b < n`, in
/// strictly increasing order.
pub proof fn lemma_all_pairs(n: int)
    requires
        0 <= n <= usize::MAX,
    ensures
        pairs_increasing(all_pairs(n)),
        valid_choices(all_pairs(n), n),
{
    lemma_pairs_upto(n, n);
}

} // verus!

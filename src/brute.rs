use vstd::prelude::*;
use crate::graph::{
    LapGraph, laplacian_wf, added, degree_cap, count_fits, tree_count, empty_laplacian, valid_pair,
    lemma_det_fits_monotone, lemma_add_then_remove, lemma_degree_cap, lemma_added_cap,
    lemma_empty_cap,
};
use crate::graph_type::{GraphType, Simple, Multigraph, Erased};
use crate::matrix::{det_fits, det_fits_check, pow};
use crate::edges::{
    degree_sum, pair_lt, lemma_empty_tree_count, lemma_shift_degree_sum, lemma_all_pairs,
    lemma_extends_degree_sum,
};

verus! {

/// Every pair `(a, b)` of the list has `a < b < n`.
pub open spec fn valid_choices(choices: Seq<(usize, usize)>, n: int) -> bool {
    forall|t: int| 0 <= t < choices.len() ==> #[trigger] choices[t].0 < choices[t].1 && choices[t].1 < n
}

/// One row of `n` markers for each of at least `m` depths, those of the depths
/// below `m` all clear.
pub open spec fn markers_ready(markers: Seq<Vec<bool>>, n: int, m: int) -> bool {
    &&& markers.len() >= m
    &&& forall|r: int| 0 <= r < markers.len() ==> #[trigger] markers[r]@.len() == n
    &&& forall|r: int, v: int| 0 <= r < m && 0 <= v < n ==> !#[trigger] markers[r]@[v]
}

/// `g` is `l` with `m` pairs of `cs[from..]` added one after another. Where
/// edges may not repeat, each pair comes after the one before it in the list;
/// otherwise every pair is drawn from all of `cs[from..]`.
pub open spec fn extends(
    l: Seq<Seq<i64>>,
    g: Seq<Seq<i64>>,
    cs: Seq<(usize, usize)>,
    from: int,
    m: nat,
    multi: bool,
) -> bool
    decreases m,
{
    if m == 0 {
        g == l
    } else {
        exists|t: int|
            from <= t < cs.len() && extends(
                added(l, #[trigger] cs[t].0 as int, cs[t].1 as int, multi),
                g,
                cs,
                if multi {
                    from
                } else {
                    t + 1
                },
                (m - 1) as nat,
                multi,
            )
    }
}

/// A bound on the graphs that a search over `len` pairs evaluates at depth
/// `m`: the `m`-subsets of the pairs, or the sequences of `m` pairs where
/// they may repeat.
pub open spec fn leaf_bound(len: int, m: nat, multi: bool) -> int {
    if multi {
        pow(len, m)
    } else {
        binom(len as nat, m) as int
    }
}

/// Vertex `v` has no edge.
pub open spec fn isolated_in(l: Seq<Seq<i64>>, v: int) -> bool {
    l[v][v] == 0
}

/// Both ends of `p` are isolated.
pub open spec fn both_isolated(l: Seq<Seq<i64>>, p: (usize, usize)) -> bool {
    isolated_in(l, p.0 as int) && isolated_in(l, p.1 as int)
}

/// `p` joins an isolated vertex to `v`, which has an edge.
pub open spec fn attaches_to(l: Seq<Seq<i64>>, p: (usize, usize), v: int) -> bool {
    (isolated_in(l, p.0 as int) && !isolated_in(l, p.1 as int) && v == p.1) || (!isolated_in(
        l,
        p.0 as int,
    ) && isolated_in(l, p.1 as int) && v == p.0)
}

/// The pruning rule: at one depth of the search, on graph `l`, the branch
/// that adds `cs[t]` is explored unless an earlier pair of `cs[from..t]`
/// gives an isomorphic graph. That is the case when both ends of `cs[t]` are
/// isolated and so were both ends of an earlier pair, or when `cs[t]` joins
/// an isolated vertex to `v` and an earlier pair did the same to `v`.
pub open spec fn kept(l: Seq<Seq<i64>>, cs: Seq<(usize, usize)>, from: int, t: int) -> bool {
    let p = cs[t];
    if both_isolated(l, p) {
        !exists|j: int| from <= j < t && both_isolated(l, #[trigger] cs[j])
    } else if isolated_in(l, p.0 as int) {
        !exists|j: int| from <= j < t && attaches_to(l, #[trigger] cs[j], p.1 as int)
    } else if isolated_in(l, p.1 as int) {
        !exists|j: int| from <= j < t && attaches_to(l, #[trigger] cs[j], p.0 as int)
    } else {
        true
    }
}

/// `g` is a graph at the end of a branch that the search explores: `l` with
/// `m` pairs of `cs[from..]` added, each one kept by the pruning rule at its
/// depth. Where edges may not repeat, each pair comes after the one before
/// it in the list; otherwise every pair is drawn from all of `cs[from..]`.
pub open spec fn reachable(
    l: Seq<Seq<i64>>,
    g: Seq<Seq<i64>>,
    cs: Seq<(usize, usize)>,
    from: int,
    m: nat,
    multi: bool,
) -> bool
    decreases m,
{
    if m == 0 {
        g == l
    } else {
        exists|t: int|
            from <= t < cs.len() && kept(l, cs, from, t) && reachable(
                added(l, #[trigger] cs[t].0 as int, cs[t].1 as int, multi),
                g,
                cs,
                if multi {
                    from
                } else {
                    t + 1
                },
                (m - 1) as nat,
                multi,
            )
    }
}

/// `g` is reachable through one of the branches `cs[from..i]`.
pub open spec fn reachable_before(
    l: Seq<Seq<i64>>,
    g: Seq<Seq<i64>>,
    cs: Seq<(usize, usize)>,
    from: int,
    i: int,
    m: nat,
    multi: bool,
) -> bool {
    exists|t: int|
        from <= t < i && kept(l, cs, from, t) && reachable(
            added(l, #[trigger] cs[t].0 as int, cs[t].1 as int, multi),
            g,
            cs,
            if multi {
                from
            } else {
                t + 1
            },
            (m - 1) as nat,
            multi,
        )
}

/// The graph that the search reaches first: `l` with the first pair of
/// `cs[from..]` added, then the first pair of what remains, `m` times;
/// nothing where the pairs run out first.
pub open spec fn first_path(
    l: Seq<Seq<i64>>,
    cs: Seq<(usize, usize)>,
    from: int,
    m: nat,
    multi: bool,
) -> Option<Seq<Seq<i64>>>
    decreases m,
{
    if m == 0 {
        Some(l)
    } else if 0 <= from < cs.len() {
        first_path(
            added(l, cs[from].0 as int, cs[from].1 as int, multi),
            cs,
            if multi {
                from
            } else {
                from + 1
            },
            (m - 1) as nat,
            multi,
        )
    } else {
        None
    }
}

/// `m` more edges can be added to `l` and the spanning trees of the result
/// still be counted in an `i128`.
pub open spec fn search_fits(l: Seq<Seq<i64>>, m: int) -> bool {
    degree_cap(l) + m < i64::MAX && det_fits(l.len(), degree_cap(l) + m)
}

pub(crate) proof fn lemma_search_fits_step(l: Seq<Seq<i64>>, i: int, j: int, multi: bool, m: int)
    requires
        laplacian_wf(l, multi),
        valid_pair(l, i, j),
        m >= 1,
        search_fits(l, m),
    ensures
        l[i][i] < i64::MAX,
        l[j][j] < i64::MAX,
        search_fits(added(l, i, j, multi), m - 1),
{
    lemma_degree_cap(l, l.len() as int);
    lemma_added_cap(l, i, j, multi, l.len() as int);
    let a = added(l, i, j, multi);
    lemma_degree_cap(a, a.len() as int);
    lemma_det_fits_monotone(l.len(), l.len(), degree_cap(a) + m - 1, degree_cap(l) + m);
}

/// The recursive step of the search: adds `m` more edges to `working_graph`
/// in every way that the pruning rule (`kept`) keeps, drawing them from
/// `choices[from..]` (where edges may not repeat, each only after the ones
/// before it). `current_best` ends as the larger of its old value and the
/// largest spanning-tree count among the graphs so reached; when it rises,
/// `target` holds the first graph that reached it. `working_graph` comes back
/// as it was; the markers of the depths below `m` come back clear and the
/// others unchanged; `num_comps` counts the graphs evaluated.
pub fn partial_brute_max_recursive<T: GraphType>(
    working_graph: &mut LapGraph<T>,
    target: &mut LapGraph<T>,
    current_best: &mut i128,
    num_comps: &mut usize,
    m: usize,
    choices: &Vec<(usize, usize)>,
    from: usize,
    search_markers: &mut Vec<Vec<bool>>,
)
    requires
        old(working_graph).wf(),
        old(target).wf(),
        old(target)@.len() == old(working_graph)@.len(),
        count_fits(old(target)@),
        valid_choices(choices@, old(working_graph)@.len() as int),
        from <= choices.len(),
        markers_ready(old(search_markers)@, old(working_graph)@.len() as int, m as int),
        search_fits(old(working_graph)@, m as int),
    ensures
        final(working_graph)@ == old(working_graph)@,
        final(target).wf(),
        final(target)@.len() == old(working_graph)@.len(),
        count_fits(final(target)@),
        *final(current_best) >= *old(current_best),
        *final(current_best) == *old(current_best) ==> final(target)@ == old(target)@,
        *final(current_best) > *old(current_best) ==> tree_count(final(target)@)
            == *final(current_best),
        m == 0 ==> (if tree_count(old(working_graph)@) > *old(current_best) {
            *final(current_best) == tree_count(old(working_graph)@) && final(target)@ == old(
                working_graph,
            )@
        } else {
            *final(current_best) == *old(current_best)
        }),
        *final(current_best) > *old(current_best) ==> extends(
            old(working_graph)@,
            final(target)@,
            choices@,
            from as int,
            m as nat,
            T::allows_multi_edges(),
        ),
        first_path(old(working_graph)@, choices@, from as int, m as nat, T::allows_multi_edges())
            is Some ==> *final(current_best) >= tree_count(
            first_path(
                old(working_graph)@,
                choices@,
                from as int,
                m as nat,
                T::allows_multi_edges(),
            )->0,
        ),
        forall|g: Seq<Seq<i64>>|
            reachable(old(working_graph)@, g, choices@, from as int, m as nat, T::allows_multi_edges())
                ==> *final(current_best) >= tree_count(g),
        *final(current_best) > *old(current_best) ==> reachable(
            old(working_graph)@,
            final(target)@,
            choices@,
            from as int,
            m as nat,
            T::allows_multi_edges(),
        ),
        markers_ready(final(search_markers)@, old(working_graph)@.len() as int, m as int),
        final(search_markers)@.len() == old(search_markers)@.len(),
        forall|r: int|
            m <= r < old(search_markers)@.len() ==> #[trigger] final(search_markers)@[r] == old(
                search_markers,
            )@[r],
        m == 0 ==> final(search_markers)@ == old(search_markers)@,
        *final(num_comps) >= *old(num_comps),
        m == 0 && *old(num_comps) < usize::MAX ==> *final(num_comps) == *old(num_comps) + 1,
        *final(num_comps) <= *old(num_comps) + leaf_bound(
            choices.len() - from,
            m as nat,
            T::allows_multi_edges(),
        ),
    decreases m,
{
    let ghost n = working_graph@.len() as int;
    if m == 0 {
        if *num_comps < usize::MAX {
            *num_comps = *num_comps + 1;
        }
        proof {
            crate::graph::lemma_count_fits_of_size(working_graph@);
        }
        let val = working_graph.count_spanning_trees();
        if val > *current_best {
            *current_best = val;
            working_graph.transfer(target);
        }
        return;
    }
    let ghost w0 = working_graph@;
    let ghost best0 = *current_best;
    let ghost target0 = target@;
    let ghost comps0 = *num_comps;
    let ghost rows0 = search_markers@.len();
    let ghost markers0 = search_markers@;
    proof {
        crate::matrix::lemma_pow_nonneg(choices.len() - from, (m - 1) as nat);
    }
    let mut flag = false;
    let mut i: usize = from;
    while i < choices.len()
        invariant
            from <= i <= choices.len(),
            m >= 1,
            n == w0.len(),
            working_graph@ == w0,
            working_graph.wf(),
            target.wf(),
            target@.len() == n,
            count_fits(target@),
            valid_choices(choices@, n),
            search_fits(w0, m as int),
            markers_ready(search_markers@, n, m - 1),
            search_markers@.len() == rows0,
            rows0 >= m,
            *current_best >= best0,
            *current_best == best0 ==> target@ == target0,
            *current_best > best0 ==> tree_count(target@) == *current_best,
            *current_best > best0 ==> extends(
                w0,
                target@,
                choices@,
                from as int,
                m as nat,
                T::allows_multi_edges(),
            ),
            forall|r: int| m <= r < rows0 ==> #[trigger] search_markers@[r] == markers0[r],
            *num_comps >= comps0,
            i == from ==> !flag,
            i == from ==> forall|v: int| 0 <= v < n ==> !#[trigger] search_markers@[m - 1]@[v],
            i > from && first_path(w0, choices@, from as int, m as nat, T::allows_multi_edges()) is Some
                ==> *current_best >= tree_count(
                first_path(w0, choices@, from as int, m as nat, T::allows_multi_edges())->0,
            ),
            flag == exists|j: int| from <= j < i && both_isolated(w0, #[trigger] choices@[j]),
            T::allows_multi_edges() ==> *num_comps - comps0 <= (i - from) * pow(
                choices.len() - from,
                (m - 1) as nat,
            ),
            !T::allows_multi_edges() ==> *num_comps - comps0 <= binom(
                (choices.len() - from) as nat,
                m as nat,
            ) - binom((choices.len() - i) as nat, m as nat),
            pow(choices.len() - from, (m - 1) as nat) >= 0,
            forall|v: int|
                0 <= v < n ==> (#[trigger] search_markers@[m - 1]@[v] == exists|j: int|
                    from <= j < i && attaches_to(w0, #[trigger] choices@[j], v)),
            forall|g: Seq<Seq<i64>>|
                reachable_before(w0, g, choices@, from as int, i as int, m as nat, T::allows_multi_edges())
                    ==> *current_best >= tree_count(g),
            *current_best > best0 ==> reachable(
                w0,
                target@,
                choices@,
                from as int,
                m as nat,
                T::allows_multi_edges(),
            ),
        decreases choices.len() - i,
    {
        let ghost best_start = *current_best;
        let ghost comps_start = *num_comps;
        let ghost flag_start = flag;
        let ghost row_start = search_markers@[m - 1]@;
        let (a, b) = choices[i];
        let ia = working_graph.isolated(a);
        let ib = working_graph.isolated(b);
        let mut explore = true;
        if ia && ib {
            if flag {
                explore = false;
            } else {
                flag = true;
            }
        } else if ia {
            if search_markers[m - 1][b] {
                explore = false;
            } else {
                search_markers[m - 1][b] = true;
            }
        } else if ib {
            if search_markers[m - 1][a] {
                explore = false;
            } else {
                search_markers[m - 1][a] = true;
            }
        }
        proof {
            let cs = choices@;
            let ii = i as int;
            assert(cs[ii] == (a, b));
            assert(ia == isolated_in(w0, a as int) && ib == isolated_in(w0, b as int));
            assert(explore == kept(w0, cs, from as int, ii));
            assert(flag == exists|j: int| from <= j < i + 1 && both_isolated(w0, #[trigger] cs[j])) by {
                if both_isolated(w0, cs[ii]) {
                    assert(from <= ii < i + 1 && both_isolated(w0, cs[ii]));
                }
                if exists|j: int| from <= j < i + 1 && both_isolated(w0, #[trigger] cs[j]) {
                    let j = choose|j: int| from <= j < i + 1 && both_isolated(w0, #[trigger] cs[j]);
                    if j < ii {
                        assert(flag_start);
                    }
                }
            }
            assert forall|v: int| 0 <= v < n implies (#[trigger] search_markers@[m - 1]@[v] == exists|j: int|
                from <= j < i + 1 && attaches_to(w0, #[trigger] cs[j], v)) by {
                if attaches_to(w0, cs[ii], v) {
                    assert(from <= ii < i + 1 && attaches_to(w0, cs[ii], v));
                }
                if exists|j: int| from <= j < i + 1 && attaches_to(w0, #[trigger] cs[j], v) {
                    let j = choose|j: int| from <= j < i + 1 && attaches_to(w0, #[trigger] cs[j], v);
                    if j < ii {
                        assert(row_start[v]);
                    }
                }
                if !attaches_to(w0, cs[ii], v) {
                    assert(search_markers@[m - 1]@[v] == row_start[v]);
                }
            }
        }
        if explore {
            proof {
                lemma_search_fits_step(w0, a as int, b as int, T::allows_multi_edges(), m as int);
            }
            let was_added = working_graph.add_edge(a, b);
            let next = if T::multi_edges() {
                from
            } else {
                i + 1
            };
            let ghost best_before = *current_best;
            let ghost target_before = target@;
            partial_brute_max_recursive(
                working_graph,
                target,
                current_best,
                num_comps,
                m - 1,
                choices,
                next,
                search_markers,
            );
            if was_added {
                working_graph.remove_edge(a, b);
                proof {
                    lemma_add_then_remove(w0, a as int, b as int, T::allows_multi_edges());
                }
            }
            proof {
                if i == from {
                    assert(choices@[i as int] == (a, b));
                    assert(first_path(w0, choices@, from as int, m as nat, T::allows_multi_edges()) == first_path(
                        added(w0, a as int, b as int, T::allows_multi_edges()),
                        choices@,
                        next as int,
                        (m - 1) as nat,
                        T::allows_multi_edges(),
                    ));
                }
                if *current_best > best_before {
                    assert(choices@[i as int] == (a, b));
                    assert(from <= i < choices@.len());
                    assert(extends(w0, target@, choices@, from as int, m as nat, T::allows_multi_edges()));
                    assert(reachable(w0, target@, choices@, from as int, m as nat, T::allows_multi_edges()));
                } else {
                    assert(target@ == target_before);
                }
            }
        }
        proof {
            let len = choices.len() as int;
            let pw = pow(len - from, (m - 1) as nat);
            assert((i - from) * pw + pw == (i + 1 - from) * pw) by (nonlinear_arith);
            assert((i - from) * pw <= (i + 1 - from) * pw) by (nonlinear_arith)
                requires
                    pw >= 0,
            ;
            let c1 = binom((len - i) as nat, m as nat);
            assert(c1 == binom((len - i - 1) as nat, (m - 1) as nat) + binom((len - i - 1) as nat, m as nat));
        }
        proof {
            let cs = choices@;
            let multi = T::allows_multi_edges();
            assert forall|g: Seq<Seq<i64>>|
                reachable_before(w0, g, cs, from as int, i + 1, m as nat, multi) implies *current_best
                >= tree_count(g) by {
                let t = choose|t: int|
                    from <= t < i + 1 && kept(w0, cs, from as int, t) && reachable(
                        added(w0, #[trigger] cs[t].0 as int, cs[t].1 as int, multi),
                        g,
                        cs,
                        if multi {
                            from as int
                        } else {
                            t + 1
                        },
                        (m - 1) as nat,
                        multi,
                    );
                if t < i {
                    assert(reachable_before(w0, g, cs, from as int, i as int, m as nat, multi));
                } else {
                    assert(cs[t] == (a, b));
                }
            }
        }
        i = i + 1;
    }
    proof {
        let len = choices.len() as int;
        assert((len - from) * pow(len - from, (m - 1) as nat) == pow(len - from, m as nat));
        assert(binom(0, m as nat) == 0);
    }
    proof {
        let cs = choices@;
        let multi = T::allows_multi_edges();
        assert forall|g: Seq<Seq<i64>>| reachable(w0, g, cs, from as int, m as nat, multi) implies *current_best
            >= tree_count(g) by {
            let t = choose|t: int|
                from <= t < cs.len() && kept(w0, cs, from as int, t) && reachable(
                    added(w0, #[trigger] cs[t].0 as int, cs[t].1 as int, multi),
                    g,
                    cs,
                    if multi {
                        from as int
                    } else {
                        t + 1
                    },
                    (m - 1) as nat,
                    multi,
                );
            assert(reachable_before(w0, g, cs, from as int, cs.len() as int, m as nat, multi));
        }
    }
    let mut v: usize = 0;
    while v < search_markers[m - 1].len()
        invariant
            0 <= v <= n,
            m >= 1,
            search_markers@.len() == rows0,
            rows0 >= m,
            forall|r: int| 0 <= r < rows0 ==> #[trigger] search_markers@[r]@.len() == n,
            forall|r: int, u: int| 0 <= r < m - 1 && 0 <= u < n ==> !#[trigger] search_markers@[r]@[u],
            forall|u: int| 0 <= u < v ==> !#[trigger] search_markers@[m - 1]@[u],
            forall|r: int| m <= r < rows0 ==> #[trigger] search_markers@[r] == markers0[r],
        decreases n - v,
    {
        search_markers[m - 1][v] = false;
        v = v + 1;
    }
}

/// The binomial coefficient, by Pascal's rule.
pub open spec fn binom(n: nat, k: nat) -> nat
    decreases n,
{
    if k == 0 {
        1
    } else if n == 0 {
        0
    } else {
        binom((n - 1) as nat, (k - 1) as nat) + binom((n - 1) as nat, k)
    }
}

/// Relies on num::integer::binomial: the exact binomial coefficient, which its
/// documentation says never overflows a 32-bit or wider unsigned type for
/// `n <= 34`.
#[verifier::external_body]
fn binomial(n: usize, k: usize) -> (r: usize)
    requires
        n <= 34,
    ensures
        r == binom(n as nat, k as nat),
{
    num::integer::binomial(n, k)
}

/// The pairs `(a, b)` with `a < b < n` and `a < i`, in increasing order.
pub open spec fn pairs_upto(n: int, i: int) -> Seq<(usize, usize)>
    decreases i,
{
    if i <= 0 {
        Seq::empty()
    } else {
        pairs_upto(n, i - 1) + Seq::new(
            if n > i {
                (n - i) as nat
            } else {
                0
            },
            |t: int| ((i - 1) as usize, (i + t) as usize),
        )
    }
}

/// All pairs `(a, b)` with `a < b < n`, in increasing order.
pub open spec fn all_pairs(n: int) -> Seq<(usize, usize)> {
    pairs_upto(n, n)
}

/// The vertex pairs that a search on `k` vertices chooses its edges from.
pub fn candidate_pairs(k: usize) -> (r: Vec<(usize, usize)>)
    ensures
        r@ == all_pairs(k as int),
        valid_choices(r@, k as int),
{
    let mut out: Vec<(usize, usize)> = Vec::new();
    let mut i: usize = 0;
    while i < k
        invariant
            0 <= i <= k,
            out@ == pairs_upto(k as int, i as int),
            valid_choices(out@, k as int),
        decreases k - i,
    {
        let ghost base = out@;
        let mut j: usize = i + 1;
        while j < k
            invariant
                i < k,
                i + 1 <= j <= k,
                base == pairs_upto(k as int, i as int),
                out@ == base + Seq::new((j - i - 1) as nat, |t: int| (i as usize, (i + 1 + t) as usize)),
                valid_choices(out@, k as int),
            decreases k - j,
        {
            let ghost prev = out@;
            out.push((i, j));
            proof {
                assert forall|t: int| 0 <= t < out@.len() implies #[trigger] out@[t].0 < out@[t].1 && out@[t].1 < k by {
                    if t < prev.len() {
                        assert(out@[t] == prev[t]);
                    }
                }
                assert(out@ =~= base + Seq::new((j + 1 - i - 1) as nat, |t: int| (i as usize, (i + 1 + t) as usize)));
            }
            j = j + 1;
        }
        proof {
            assert(out@ =~= pairs_upto(k as int, i + 1));
        }
        i = i + 1;
    }
    out
}

/// A search that adds `m` edges on `k` vertices can count spanning trees in an
/// `i128` all along.
pub open spec fn search_fits_for(k: nat, m: nat) -> bool {
    m + 1 < i64::MAX && det_fits(k, (m + 1) as int)
}

proof fn lemma_search_fits_empty(k: nat, m: nat)
    requires
        search_fits_for(k, m),
    ensures
        search_fits(empty_laplacian(k), m as int),
        count_fits(empty_laplacian(k)),
{
    lemma_empty_cap(k, k as int);
    lemma_det_fits_monotone(k, k, 1, (m + 1) as int);
    crate::graph::lemma_count_fits_of_size(empty_laplacian(k));
}

/// Whether a search that adds `m` edges on `k` vertices can count spanning
/// trees in an `i128` all along.
pub fn search_size_fits(k: usize, m: usize) -> (r: bool)
    ensures
        r == search_fits_for(k as nat, m as nat),
{
    if m as u128 + 1 >= i64::MAX as u128 {
        return false;
    }
    det_fits_check(k, m as u64 + 1)
}

/// Clear markers for `depths` depths of a search on `k` vertices.
pub fn new_search_markers(depths: usize, k: usize) -> (r: Vec<Vec<bool>>)
    ensures
        r@.len() == depths,
        markers_ready(r@, k as int, depths as int),
{
    let mut search_markers: Vec<Vec<bool>> = Vec::new();
    let mut d: usize = 0;
    while d < depths
        invariant
            0 <= d <= depths,
            search_markers@.len() == d,
            forall|r: int| 0 <= r < d ==> #[trigger] search_markers@[r]@.len() == k,
            forall|r: int, v: int| 0 <= r < d && 0 <= v < k ==> !#[trigger] search_markers@[r]@[v],
        decreases depths - d,
    {
        let row: Vec<bool> = vec![false; k];
        search_markers.push(row);
        d = d + 1;
    }
    search_markers
}

/// What a search that adds `m` edges on `k` vertices may return: the graph
/// without edges, or a graph with spanning trees made from it by adding the
/// last candidate pair and then `m - 1` further pairs, drawn in list order
/// from the pairs before it where edges may not repeat, and from all pairs
/// otherwise.
pub open spec fn search_outcome(k: nat, m: nat, multi: bool, g: Seq<Seq<i64>>) -> bool {
    let all = all_pairs(k as int);
    g == empty_laplacian(k) || (tree_count(g) > 0 && all.len() > 0 && extends(
        added(empty_laplacian(k), all.last().0 as int, all.last().1 as int, multi),
        g,
        if multi {
            all
        } else {
            all.drop_last()
        },
        0,
        (m - 1) as nat,
        multi,
    ))
}

/// `g` is a graph at the end of a branch that a search adding `m` edges on
/// `k` vertices explores: the last candidate pair, then `m - 1` pairs kept by
/// the pruning rule.
pub open spec fn search_reaches(k: nat, m: nat, multi: bool, g: Seq<Seq<i64>>) -> bool {
    let all = all_pairs(k as int);
    all.len() > 0 && reachable(
        added(empty_laplacian(k), all.last().0 as int, all.last().1 as int, multi),
        g,
        if multi {
            all
        } else {
            all.drop_last()
        },
        0,
        (m - 1) as nat,
        multi,
    )
}

/// The graph that a search adding `m` edges on `k` vertices reaches first:
/// the last candidate pair, then the first pair of the rest at each depth.
pub open spec fn search_first(k: nat, m: nat, multi: bool) -> Option<Seq<Seq<i64>>> {
    let all = all_pairs(k as int);
    if all.len() > 0 {
        first_path(
            added(empty_laplacian(k), all.last().0 as int, all.last().1 as int, multi),
            if multi {
                all
            } else {
                all.drop_last()
            },
            0,
            (m - 1) as nat,
            multi,
        )
    } else {
        None
    }
}

/// The search that needs no edge list: the best graph found by adding `m`
/// edges on `k` vertices, the first edge being the last candidate pair. It is
/// the graph without edges when no branch beats zero spanning trees.
pub fn partial_brute_max<T: GraphType>(m: usize, k: usize) -> (r: LapGraph<T>)
    requires
        1 <= m,
        search_fits_for(k as nat, m as nat),
    ensures
        r.wf(),
        r@.len() == k,
        count_fits(r@),
        search_outcome(k as nat, m as nat, T::allows_multi_edges(), r@),
        tree_count(r@) > 0 ==> degree_sum(r@) == 2 * m,
        search_first(k as nat, m as nat, T::allows_multi_edges()) is Some ==> tree_count(r@)
            >= tree_count(search_first(k as nat, m as nat, T::allows_multi_edges())->0),
        forall|g: Seq<Seq<i64>>|
            search_reaches(k as nat, m as nat, T::allows_multi_edges(), g) ==> tree_count(r@)
                >= tree_count(g),
        tree_count(r@) > 0 ==> search_reaches(k as nat, m as nat, T::allows_multi_edges(), r@),
{
    let mut working_graph: LapGraph<T> = LapGraph::empty(k);
    let mut target: LapGraph<T> = LapGraph::empty(k);
    let mut search_markers = new_search_markers(m - 1, k);
    let mut best: i128 = 0;
    let mut choices = candidate_pairs(k);
    let mut comp: usize = 0;
    proof {
        lemma_search_fits_empty(k as nat, m as nat);
    }
    let ghost all = choices@;
    let len = choices.len();
    if len > 0 {
        let (a, b) = choices[len - 1];
        if !T::multi_edges() {
            choices.pop();
        }
        proof {
            assert(all[all.len() - 1] == (a, b));
            lemma_search_fits_step(empty_laplacian(k as nat), a as int, b as int, T::allows_multi_edges(), m as int);
            assert(valid_choices(choices@, k as int)) by {
                assert forall|t: int| 0 <= t < choices@.len() implies #[trigger] choices@[t].0 < choices@[t].1 && choices@[t].1 < k by {
                    assert(choices@[t] == all[t]);
                }
            }
            if T::allows_multi_edges() {
                assert(choices@ == all);
            } else {
                assert(choices@ =~= all.drop_last());
            }
        }
        let ghost e = working_graph@;
        working_graph.add_edge(a, b);
        let ghost l1 = working_graph@;
        partial_brute_max_recursive(
            &mut working_graph,
            &mut target,
            &mut best,
            &mut comp,
            m - 1,
            &choices,
            0,
            &mut search_markers,
        );
        proof {
            lemma_empty_tree_count(k as nat);
            if best > 0 {
                let multi = T::allows_multi_edges();
                lemma_shift_degree_sum(e, a as int, b as int, k as int, multi);
                lemma_all_pairs(k as int);
                if !multi {
                    assert forall|t: int| 0 <= t < choices@.len() implies l1[#[trigger] choices@[t].0 as int][choices@[t].1 as int] == 0 by {
                        assert(choices@[t] == all[t]);
                        assert(pair_lt(all[t], all[all.len() - 1]));
                    }
                    assert forall|x: int, y: int| 0 <= x < y < choices@.len() implies pair_lt(#[trigger] choices@[x], #[trigger] choices@[y]) by {
                        assert(choices@[x] == all[x] && choices@[y] == all[y]);
                    }
                }
                lemma_extends_degree_sum(l1, target@, choices@, 0, (m - 1) as nat, multi);
            }
        }
    } else {
        proof {
            lemma_empty_tree_count(k as nat);
            reveal_with_fuel(pairs_upto, 1);
            assert(all.len() == 0);
        }
    }
    target
}

/// The first vertex count the estimator searches on.
pub open spec fn heuristic_size(m: nat) -> nat {
    if m < 7 {
        ((m + 4) / 2) as nat
    } else {
        ((m + 2) / 2) as nat
    }
}

/// From `n` on, the first vertex count at which `C(m, n)` falls below
/// `lower_bound` or `n` reaches `m`.
pub open spec fn grown_size(m: nat, lower_bound: int, n: nat) -> nat
    decreases m - n,
{
    if n < m && binom(m, n) >= lower_bound {
        grown_size(m, lower_bound, n + 1)
    } else {
        n
    }
}

proof fn lemma_grown_size_range(m: nat, lower_bound: int, n: nat)
    ensures
        n <= grown_size(m, lower_bound, n),
        grown_size(m, lower_bound, n) <= if n < m {
            m
        } else {
            n
        },
    decreases m - n,
{
    if n < m && binom(m, n) >= lower_bound {
        lemma_grown_size_range(m, lower_bound, n + 1);
    }
}

/// The first vertex count for an edge budget of `m`.
pub fn heuristic_vertex_count(m: usize) -> (r: usize)
    ensures
        r == heuristic_size(m as nat),
{
    if m < 7 {
        m / 2 + 2
    } else {
        m / 2 + 1
    }
}

/// The vertex count for the final search: starting from the heuristic one,
/// grown while `C(m, n)` is at least the spanning-tree count `lower_bound`
/// reached there and `n < m`.
pub fn search_vertex_count(m: usize, lower_bound: i128) -> (r: usize)
    requires
        m <= 34,
    ensures
        r == grown_size(m as nat, lower_bound as int, heuristic_size(m as nat)),
{
    let h = heuristic_vertex_count(m);
    let mut n = h;
    while n < m && binomial(m, n) as i128 >= lower_bound
        invariant
            m <= 34,
            h <= n,
            grown_size(m as nat, lower_bound as int, n as nat) == grown_size(
                m as nat,
                lower_bound as int,
                heuristic_size(m as nat),
            ),
        decreases m - n,
    {
        n = n + 1;
    }
    n
}

/// The graph with `m` edges and the most spanning trees that a search finds
/// on a vertex count large enough, chosen from a first search on fewer
/// vertices. Repeated edges are allowed when `multigraphs` holds.
pub fn brute_max_spanning_trees(m: usize, multigraphs: bool) -> (r: LapGraph<Erased>)
    requires
        1 <= m <= 34,
        search_fits_for((m + 2) as nat, m as nat),
    ensures
        r.wf(),
        count_fits(r@),
        search_outcome(r@.len(), m as nat, multigraphs, r@),
        !multigraphs ==> laplacian_wf(r@, false),
        tree_count(r@) > 0 ==> degree_sum(r@) == 2 * m,
        search_first(r@.len(), m as nat, multigraphs) is Some ==> tree_count(r@) >= tree_count(
            search_first(r@.len(), m as nat, multigraphs)->0,
        ),
        forall|g: Seq<Seq<i64>>|
            search_reaches(r@.len(), m as nat, multigraphs, g) ==> tree_count(r@) >= tree_count(g),
        tree_count(r@) > 0 ==> search_reaches(r@.len(), m as nat, multigraphs, r@),
        exists|estimate: Seq<Seq<i64>>|
            estimate.len() == heuristic_size(m as nat) && search_outcome(
                heuristic_size(m as nat),
                m as nat,
                multigraphs,
                estimate,
            ) && (forall|g: Seq<Seq<i64>>|
                search_reaches(heuristic_size(m as nat), m as nat, multigraphs, g) ==> tree_count(
                    estimate,
                ) >= tree_count(g)) && (search_first(heuristic_size(m as nat), m as nat, multigraphs)
                is Some ==> tree_count(estimate) >= tree_count(
                search_first(heuristic_size(m as nat), m as nat, multigraphs)->0,
            )) && r@.len() == grown_size(
                m as nat,
                tree_count(estimate),
                heuristic_size(m as nat),
            ),
{
    let h = heuristic_vertex_count(m);
    proof {
        lemma_det_fits_monotone(h as nat, (m + 2) as nat, m + 1, m + 1);
    }
    let estimate: LapGraph<Erased> = if multigraphs {
        partial_brute_max::<Multigraph>(m, h).erase_type()
    } else {
        partial_brute_max::<Simple>(m, h).erase_type()
    };
    let lower_bound = estimate.count_spanning_trees();
    let n = search_vertex_count(m, lower_bound);
    proof {
        lemma_grown_size_range(m as nat, lower_bound as int, h as nat);
        lemma_det_fits_monotone(n as nat, (m + 2) as nat, m + 1, m + 1);
    }
    let r: LapGraph<Erased> = if multigraphs {
        partial_brute_max::<Multigraph>(m, n).erase_type()
    } else {
        partial_brute_max::<Simple>(m, n).erase_type()
    };
    assert(r@.len() == grown_size(m as nat, tree_count(estimate@), heuristic_size(m as nat)));
    r
}

} // verus!

verus! {

/// On 3 vertices with 3 edges and no repeated edge, every graph that meets
/// the search's contract (an outcome of the search, at least as good as the
/// graph it reaches first) is the triangle, with 3 spanning trees.
pub proof fn lemma_search_three_edges_on_three_vertices(g: Seq<Seq<i64>>)
    requires
        search_outcome(3, 3, false, g),
        search_first(3, 3, false) is Some ==> tree_count(g) >= tree_count(
            search_first(3, 3, false)->0,
        ),
    ensures
        g == crate::graph::complete_laplacian(3),
        tree_count(g) == 3,
{
    reveal_with_fuel(pairs_upto, 4);
    let all = all_pairs(3);
    assert(all =~= seq![(0usize, 1usize), (0usize, 2usize), (1usize, 2usize)]);
    let cs = all.drop_last();
    assert(cs =~= seq![(0usize, 1usize), (0usize, 2usize)]);
    let e = empty_laplacian(3);
    let l1 = added(e, 1, 2, false);
    let l2 = added(l1, 0, 1, false);
    let l3 = added(l2, 0, 2, false);
    let tri = crate::graph::complete_laplacian(3);
    assert(e[1][2] == 0);
    assert(l1[0][1] == 0);
    assert(l2[0][2] == 0);
    assert(l3 =~~= tri);
    reveal_with_fuel(first_path, 3);
    assert(search_first(3, 3, false) == Some(l3));
    lemma_triangle_count();
    lemma_empty_tree_count(3);
    assert(g != e);
    // The only way to add two pairs of `cs` in list order is both of them.
    let t = choose|t: int|
        0 <= t < cs.len() && extends(
            added(l1, #[trigger] cs[t].0 as int, cs[t].1 as int, false),
            g,
            cs,
            t + 1,
            1,
            false,
        );
    assert(t == 0);
    let u = choose|u: int|
        1 <= u < cs.len() && extends(
            added(l2, #[trigger] cs[u].0 as int, cs[u].1 as int, false),
            g,
            cs,
            u + 1,
            0,
            false,
        );
    assert(u == 1);
    assert(g == l3);
}

proof fn lemma_triangle_count()
    ensures
        tree_count(crate::graph::complete_laplacian(3)) == 3,
{
    let tri = crate::graph::complete_laplacian(3);
    reveal_with_fuel(crate::graph::nonisolated_upto, 4);
    assert(crate::graph::nonisolated(tri) =~= seq![0int, 1int, 2int]);
    let m = crate::graph::reduced(tri);
    assert(m =~~= seq![seq![2i64, -1i64], seq![-1i64, 2i64]]);
    let m0 = crate::matrix::minor(m, 0);
    let m1 = crate::matrix::minor(m, 1);
    assert(m0 =~~= seq![seq![2i64]]);
    assert(m1 =~~= seq![seq![-1i64]]);
    let z0 = crate::matrix::minor(m0, 0);
    let z1 = crate::matrix::minor(m1, 0);
    assert(z0.len() == 0 && z1.len() == 0);
    assert(crate::matrix::det(z0) == 1);
    assert(crate::matrix::det(z1) == 1);
    assert(crate::matrix::expansion(m0, 0) == 0);
    assert(crate::matrix::expansion(m0, 1) == 2);
    assert(crate::matrix::det(m0) == 2);
    assert(crate::matrix::expansion(m1, 0) == 0);
    assert(crate::matrix::expansion(m1, 1) == -1);
    assert(crate::matrix::det(m1) == -1);
    assert(crate::matrix::expansion(m, 0) == 0);
    assert(crate::matrix::expansion(m, 1) == 4);
    assert(crate::matrix::expansion(m, 2) == 3);
    assert(crate::matrix::det(m) == 3);
}

} // verus!

verus! {

/// For 5 edges and no repeated edge, the estimator's contract fixes the
/// vertex count at 4 and a spanning-tree count of at least 8: that of the
/// complete graph on 4 vertices less one edge, which the search reaches first
/// both in the estimate and in the final search.
pub proof fn lemma_estimate_five_edges(r: Seq<Seq<i64>>)
    requires
        search_first(r.len(), 5, false) is Some ==> tree_count(r) >= tree_count(
            search_first(r.len(), 5, false)->0,
        ),
        exists|estimate: Seq<Seq<i64>>|
            estimate.len() == heuristic_size(5) && (search_first(heuristic_size(5), 5, false) is Some
                ==> tree_count(estimate) >= tree_count(search_first(heuristic_size(5), 5, false)->0))
                && r.len() == grown_size(5, tree_count(estimate), heuristic_size(5)),
    ensures
        r.len() == 4,
        tree_count(r) >= 8,
{
    assert(heuristic_size(5) == 4);
    reveal_with_fuel(pairs_upto, 5);
    let all = all_pairs(4);
    assert(all =~= seq![
        (0usize, 1usize),
        (0usize, 2usize),
        (0usize, 3usize),
        (1usize, 2usize),
        (1usize, 3usize),
        (2usize, 3usize),
    ]);
    let cs = all.drop_last();
    let e = empty_laplacian(4);
    let l1 = added(e, 2, 3, false);
    assert(e[2][3] == 0);
    let l2 = added(l1, 0, 1, false);
    assert(l1[0][1] == 0);
    let l3 = added(l2, 0, 2, false);
    assert(l2[0][2] == 0);
    let l4 = added(l3, 0, 3, false);
    assert(l3[0][3] == 0);
    let l5 = added(l4, 1, 2, false);
    assert(l4[1][2] == 0);
    let g = seq![
        seq![3i64, -1i64, -1i64, -1i64],
        seq![-1i64, 2i64, -1i64, 0i64],
        seq![-1i64, -1i64, 3i64, -1i64],
        seq![-1i64, 0i64, -1i64, 2i64],
    ];
    assert(l5 =~~= g);
    reveal_with_fuel(first_path, 5);
    assert(cs[0] == (0usize, 1usize) && cs[1] == (0usize, 2usize) && cs[2] == (0usize, 3usize) && cs[3]
        == (1usize, 2usize));
    assert(search_first(4, 5, false) == Some(g));
    reveal_with_fuel(crate::graph::nonisolated_upto, 5);
    assert(crate::graph::nonisolated(g) =~= seq![0int, 1int, 2int, 3int]);
    let red = crate::graph::reduced(g);
    assert(red =~~= seq![
        seq![3i64, -1i64, -1i64],
        seq![-1i64, 2i64, -1i64],
        seq![-1i64, -1i64, 3i64],
    ]);
    crate::matrix::lemma_det3(red);
    assert(red[0][0] == 3 && red[0][1] == -1 && red[0][2] == -1);
    assert(red[1][0] == -1 && red[1][1] == 2 && red[1][2] == -1);
    assert(red[2][0] == -1 && red[2][1] == -1 && red[2][2] == 3);
    let (x00, x01, x02) = (red[0][0] as int, red[0][1] as int, red[0][2] as int);
    let (x10, x11, x12) = (red[1][0] as int, red[1][1] as int, red[1][2] as int);
    let (x20, x21, x22) = (red[2][0] as int, red[2][1] as int, red[2][2] as int);
    assert(x00 * (x11 * x22 - x12 * x21) - x01 * (x10 * x22 - x12 * x20) + x02 * (x10 * x21 - x11
        * x20) == 8) by (nonlinear_arith)
        requires
            x00 == 3,
            x01 == -1,
            x02 == -1,
            x10 == -1,
            x11 == 2,
            x12 == -1,
            x20 == -1,
            x21 == -1,
            x22 == 3,
    ;
    assert(crate::matrix::det(red) == 8);
    assert(crate::graph::nonisolated(g).len() == 4);
    assert(tree_count(g) == 8);
    let est = choose|estimate: Seq<Seq<i64>>|
        estimate.len() == heuristic_size(5) && (search_first(heuristic_size(5), 5, false) is Some
            ==> tree_count(estimate) >= tree_count(search_first(heuristic_size(5), 5, false)->0))
            && r.len() == grown_size(5, tree_count(estimate), heuristic_size(5));
    reveal_with_fuel(binom, 6);
    assert(binom(5, 4) == 5);
    assert(grown_size(5, tree_count(est), 4) == 4);
}

} // verus!

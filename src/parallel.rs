use vstd::prelude::*;
use crate::brute::{
    partial_brute_max_recursive, valid_choices, extends, first_path, reachable, markers_ready, search_fits, lemma_search_fits_step,
};
use crate::graph::{LapGraph, added, count_fits, tree_count, empty_laplacian, lemma_add_then_remove};
use crate::graph_type::GraphType;

verus! {

/// Claims the next top-level choice: the index under the cursor, which then
/// moves on, or nothing once the cursor has passed the last of `len` choices.
pub fn claim_choice(cursor: &mut usize, len: usize) -> (r: Option<usize>)
    ensures
        *old(cursor) < len ==> r == Some(*old(cursor)) && *final(cursor) == *old(cursor) + 1,
        *old(cursor) >= len ==> r is None && *final(cursor) == *old(cursor),
{
    if *cursor >= len {
        None
    } else {
        let index = *cursor;
        *cursor = index + 1;
        Some(index)
    }
}

/// Where the search below a top-level choice at `index` draws its pairs
/// from: the choices after it, or from it on where edges may repeat.
pub open spec fn branch_start(index: int, multi: bool) -> int {
    if multi {
        index
    } else {
        index + 1
    }
}

/// One top-level branch of the search: adds `choices[index]` to
/// `working_graph`, searches `m - 1` more edges among the choices after it
/// (from it on, where edges may repeat), and removes it again.
pub fn search_from_choice<T: GraphType>(
    working_graph: &mut LapGraph<T>,
    target: &mut LapGraph<T>,
    current_best: &mut i128,
    num_comps: &mut usize,
    m: usize,
    choices: &Vec<(usize, usize)>,
    index: usize,
    search_markers: &mut Vec<Vec<bool>>,
)
    requires
        1 <= m,
        index < choices.len(),
        old(working_graph).wf(),
        old(target).wf(),
        old(target)@.len() == old(working_graph)@.len(),
        count_fits(old(target)@),
        valid_choices(choices@, old(working_graph)@.len() as int),
        markers_ready(old(search_markers)@, old(working_graph)@.len() as int, m - 1),
        search_fits(old(working_graph)@, m as int),
    ensures
        final(working_graph)@ == old(working_graph)@,
        final(target).wf(),
        final(target)@.len() == old(working_graph)@.len(),
        count_fits(final(target)@),
        *final(current_best) >= *old(current_best),
        *final(current_best) == *old(current_best) ==> final(target)@ == old(target)@,
        *final(current_best) > *old(current_best) ==> tree_count(final(target)@)
            == *final(current_best),
        *final(current_best) > *old(current_best) ==> extends(
            added(
                old(working_graph)@,
                choices@[index as int].0 as int,
                choices@[index as int].1 as int,
                T::allows_multi_edges(),
            ),
            final(target)@,
            choices@,
            branch_start(index as int, T::allows_multi_edges()),
            (m - 1) as nat,
            T::allows_multi_edges(),
        ),
        forall|g: Seq<Seq<i64>>|
            reachable(
                added(
                    old(working_graph)@,
                    choices@[index as int].0 as int,
                    choices@[index as int].1 as int,
                    T::allows_multi_edges(),
                ),
                g,
                choices@,
                branch_start(index as int, T::allows_multi_edges()),
                (m - 1) as nat,
                T::allows_multi_edges(),
            ) ==> *final(current_best) >= tree_count(g),
        ({
            let start = added(
                old(working_graph)@,
                choices@[index as int].0 as int,
                choices@[index as int].1 as int,
                T::allows_multi_edges(),
            );
            first_path(start, choices@, branch_start(index as int, T::allows_multi_edges()), (m - 1) as nat, T::allows_multi_edges()) is Some
                ==> *final(current_best) >= tree_count(
                first_path(start, choices@, branch_start(index as int, T::allows_multi_edges()), (m - 1) as nat, T::allows_multi_edges())->0,
            )
        }),
        markers_ready(final(search_markers)@, old(working_graph)@.len() as int, m - 1),
        *final(num_comps) >= *old(num_comps),
{
    let ghost w0 = working_graph@;
    let (a, b) = choices[index];
    proof {
        lemma_search_fits_step(w0, a as int, b as int, T::allows_multi_edges(), m as int);
    }
    let was_added = working_graph.add_edge(a, b);
    let next = if T::multi_edges() {
        index
    } else {
        index + 1
    };
    partial_brute_max_recursive(
        working_graph,
        target,
        current_best,
        num_comps,
        m - 1,
        choices,
        next,
        search_markers,
    );
    if was_added {
        working_graph.remove_edge(a, b);
        proof {
            lemma_add_then_remove(w0, a as int, b as int, T::allows_multi_edges());
        }
    }
}

/// Every result holds a well-formed graph on `k` vertices.
pub open spec fn results_wf<T: GraphType>(results: Seq<(i128, LapGraph<T>)>, k: int) -> bool {
    forall|t: int| 0 <= t < results.len() ==> (#[trigger] results[t]).1.wf() && results[t].1@.len() == k
}

/// The index of the first result whose value is the largest of all and
/// positive.
pub open spec fn is_winner<T: GraphType>(results: Seq<(i128, LapGraph<T>)>, w: int) -> bool {
    &&& 0 <= w < results.len()
    &&& results[w].0 > 0
    &&& forall|t: int| 0 <= t < results.len() ==> #[trigger] results[t].0 <= results[w].0
    &&& forall|t: int| 0 <= t < w ==> #[trigger] results[t].0 < results[w].0
}

/// Reduces the workers' `(best, graph)` results by strict comparison: a copy
/// of the graph of the first result with the largest positive value, or the
/// graph on `k` vertices without edges when no value is positive.
pub fn reduce_results<T: GraphType>(results: &Vec<(i128, LapGraph<T>)>, k: usize) -> (r: LapGraph<T>)
    requires
        results_wf(results@, k as int),
    ensures
        r.wf(),
        r@.len() == k,
        (forall|t: int| 0 <= t < results@.len() ==> #[trigger] results@[t].0 <= 0) ==> r@
            == empty_laplacian(k as nat),
        (exists|t: int| 0 <= t < results@.len() && #[trigger] results@[t].0 > 0) ==> exists|w: int|
            is_winner(results@, w) && r@ == results@[w].1@,
{
    let mut res: LapGraph<T> = LapGraph::empty(k);
    let mut best: i128 = 0;
    let mut i: usize = 0;
    let ghost mut w: int = -1;
    while i < results.len()
        invariant
            0 <= i <= results.len(),
            results_wf(results@, k as int),
            res.wf(),
            res@.len() == k,
            w == -1 ==> best == 0 && res@ == empty_laplacian(k as nat) && forall|t: int|
                0 <= t < i ==> #[trigger] results@[t].0 <= 0,
            w != -1 ==> 0 <= w < i && best == results@[w].0 && best > 0 && res@ == results@[w].1@
                && (forall|t: int| 0 <= t < i ==> #[trigger] results@[t].0 <= best) && (forall|
                t: int,
            | 0 <= t < w ==> #[trigger] results@[t].0 < best),
        decreases results.len() - i,
    {
        let b = results[i].0;
        proof {
            assert(results@[i as int].1.wf() && results@[i as int].1@.len() == k);
        }
        if b > best {
            best = b;
            results[i].1.transfer(&mut res);
            proof {
                w = i as int;
            }
        }
        i = i + 1;
    }
    proof {
        if exists|t: int| 0 <= t < results@.len() && #[trigger] results@[t].0 > 0 {
            assert(w != -1);
            assert(is_winner(results@, w));
        }
    }
    res
}

} // verus!

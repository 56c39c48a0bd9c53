use crate::engine::{
    degree, degrees_within, final_state, halted, halts_within, initial_state, lemma_final_state,
    lemma_initial, lemma_relax_one, lemma_run_succ, lemma_step, no_lower, relax_one, results_of,
    run, run_inv, scores_ok, frontier_ok, RunState,
};
use crate::graph::{Graph, SCALE};
use vstd::prelude::*;

verus! {

/// Before any relaxation the source holds trust 1 and distrust 0, and in any
/// state the results name every node but the source.
pub proof fn lemma_source_start_and_absence(g: Graph, src: int, st: RunState)
    requires
        g.wf(),
        0 <= src < g.names@.len(),
    ensures
        initial_state(g, src).p[src] == SCALE,
        initial_state(g, src).n[src] == 0,
        forall|k: int|
            0 <= k < results_of(g, src, st, g.names@.len()).len() ==> (#[trigger] results_of(
                g,
                src,
                st,
                g.names@.len(),
            )[k]).0 != g.names@[src]@,
{
    lemma_results_skip_source(g, src, st, g.names@.len());
}

proof fn lemma_results_skip_source(g: Graph, src: int, st: RunState, i: nat)
    requires
        g.wf(),
        0 <= src < g.names@.len(),
        i <= g.names@.len(),
    ensures
        forall|k: int|
            0 <= k < results_of(g, src, st, i).len() ==> (#[trigger] results_of(g, src, st, i)[k]).0
                != g.names@[src]@,
    decreases i,
{
    if i > 0 {
        lemma_results_skip_source(g, src, st, (i - 1) as nat);
        let c = i - 1;
        let prev = results_of(g, src, st, (i - 1) as nat);
        if c != src {
            assert(g.node_names()[c] == g.names@[c]@);
            assert(g.node_names()[src] == g.names@[src]@);
            assert(g.node_names()[c] != g.node_names()[src]);
            let cur = results_of(g, src, st, i);
            assert(cur == prev.push((g.names@[c]@, st.p[c], st.n[c])));
            assert forall|k: int| 0 <= k < cur.len() implies (#[trigger] cur[k]).0 != g.names@[src]@ by {
                if k < prev.len() {
                    assert(cur[k] == prev[k]);
                }
            }
        }
    }
}

/// Two runs of the computation from one source on one graph that both stop
/// end in the same state, so they give the same scores.
pub proof fn lemma_runs_agree(g: Graph, src: int, k1: nat, k2: nat)
    requires
        halts_within(g, src, k1),
        halts_within(g, src, k2),
    ensures
        run(g, initial_state(g, src), k1) == run(g, initial_state(g, src), k2),
        results_of(g, src, run(g, initial_state(g, src), k1), g.names@.len()) == results_of(
            g,
            src,
            final_state(g, src),
            g.names@.len(),
        ),
{
    lemma_final_state(g, src, k1);
    lemma_final_state(g, src, k2);
}

proof fn lemma_run_inv(g: Graph, src: int, k: nat, d: int)
    requires
        g.wf(),
        g.names@.len() <= usize::MAX,
        0 <= src < g.names@.len(),
        0 <= d <= usize::MAX,
        degrees_within(g, d),
    ensures
        run_inv(g, run(g, initial_state(g, src), k), d),
    decreases k,
{
    if k == 0 {
        lemma_initial(g, src, d);
    } else {
        lemma_run_inv(g, src, (k - 1) as nat, d);
        lemma_run_succ(g, initial_state(g, src), (k - 1) as nat);
        lemma_step(g, run(g, initial_state(g, src), (k - 1) as nat), d);
    }
}

/// Scores never go down: after more steps every node's trust and distrust
/// are at least what they were after fewer.
pub proof fn lemma_scores_never_decrease(g: Graph, src: int, k1: nat, k2: nat, d: int)
    requires
        g.wf(),
        g.names@.len() <= usize::MAX,
        0 <= src < g.names@.len(),
        0 <= d <= usize::MAX,
        degrees_within(g, d),
        k1 <= k2,
    ensures
        no_lower(run(g, initial_state(g, src), k1), run(g, initial_state(g, src), k2)),
    decreases k2 - k1,
{
    if k1 < k2 {
        let s = initial_state(g, src);
        lemma_scores_never_decrease(g, src, k1, (k2 - 1) as nat, d);
        lemma_run_inv(g, src, (k2 - 1) as nat, d);
        lemma_run_succ(g, s, (k2 - 1) as nat);
        lemma_step(g, run(g, s, (k2 - 1) as nat), d);
    } else {
        lemma_run_inv(g, src, k1, d);
    }
}

/// Pops never outnumber pushes, and pushes are at most one per node plus at
/// most `d` per visited node, where `d` bounds every out-degree; once the run
/// stops, every push has been popped.
pub proof fn lemma_work_bound(g: Graph, src: int, k: nat, d: int)
    requires
        g.wf(),
        g.names@.len() <= usize::MAX,
        0 <= src < g.names@.len(),
        0 <= d <= usize::MAX,
        degrees_within(g, d),
    ensures
        run(g, initial_state(g, src), k).pops <= run(g, initial_state(g, src), k).pushes,
        run(g, initial_state(g, src), k).pushes <= g.names@.len() + g.names@.len() * d,
        halts_within(g, src, k) ==> run(g, initial_state(g, src), k).pops == run(
            g,
            initial_state(g, src),
            k,
        ).pushes,
{
    lemma_run_inv(g, src, k, d);
    let st = run(g, initial_state(g, src), k);
    let v = g.names@.len() as int;
    let c = v - crate::engine::count_unvisited(st.visited);
    assert(c * d <= v * d) by (nonlinear_arith)
        requires
            0 <= c <= v,
            0 <= d,
    ;
    if halted(st) {
        assert(st.frontier.dom().len() == 0);
    }
}

/// An edge whose trust weight is 0 leaves its target's trust as it was, and
/// one whose distrust weight is 0 leaves its distrust, whatever the score
/// relaxed from.
pub proof fn lemma_zero_weight_edge(g: Graph, st: RunState, u: int, j: int, score: int)
    requires
        g.wf(),
        0 <= u < g.nodes@.len(),
        0 <= j < degree(g, u),
        0 <= score <= SCALE,
        scores_ok(g, st),
        frontier_ok(g, st),
        st.pushes < u128::MAX,
    ensures
        g.nodes@[u].edges@[j].positive == 0 ==> relax_one(g, st, u, j, score).p == st.p,
        g.nodes@[u].edges@[j].negative == 0 ==> relax_one(g, st, u, j, score).n == st.n,
{
    lemma_relax_one(g, st, u, j, score);
}

} // verus!

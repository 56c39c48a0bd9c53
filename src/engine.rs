use crate::frontier::{is_top, priority_le, queue_entries, queue_new, queue_pop, queue_push};
use crate::graph::{Graph, TrustError, SCALE};
use vstd::prelude::*;

verus! {

/// A node's final scores.
pub struct Result {
    pub node: String,
    pub p_score: u64,
    pub n_score: u64,
}

/// One tenth of `SCALE`: the width of a priority band.
pub const PRIORITY_STEP: i64 = 100_000;

/// The frontier priority of a net score: `floor(net × 10)` in units of 1.
pub open spec fn priority_key(net: int) -> int {
    net / (PRIORITY_STEP as int)
}

/// Tie-break among equal keys: the entry pushed first leaves first.
pub open spec fn tie_break(push_no: u128) -> u128 {
    (u128::MAX - push_no) as u128
}

pub open spec fn clamp_at_zero(x: int) -> int {
    if x > 0 {
        x
    } else {
        0
    }
}

/// `cur` moved towards `target` by the fraction `w / SCALE` of the gap
/// (rounded down), where `target` lies above `cur`; else `cur`.
pub open spec fn pulled(cur: u64, target: int, w: u64) -> u64 {
    if target > cur {
        (cur + (target - cur) * w / (SCALE as int)) as u64
    } else {
        cur
    }
}

/// The state of one computation: both score channels, the visited marks,
/// the frontier's entries, and how many pushes and pops were made.
pub struct RunState {
    pub p: Seq<u64>,
    pub n: Seq<u64>,
    pub visited: Seq<bool>,
    pub frontier: Map<(usize, u128), (i64, u128)>,
    pub pushes: nat,
    pub pops: nat,
}

pub open spec fn degree(g: Graph, u: int) -> int {
    g.nodes@[u].edges@.len() as int
}

/// The index of the target of `u`'s `j`-th edge.
pub open spec fn target_index(g: Graph, u: int, j: int) -> int {
    g.index_of(g.nodes@[u].edges@[j].target@)
}

pub open spec fn initial_frontier(src: int, i: nat) -> Map<(usize, u128), (i64, u128)>
    decreases i,
{
    if i == 0 {
        Map::empty()
    } else {
        let k = i - 1;
        let p: int = if k == src {
            SCALE as int
        } else {
            0
        };
        initial_frontier(src, (i - 1) as nat).insert(
            (k as usize, k as u128),
            (priority_key(p) as i64, tie_break(k as u128)),
        )
    }
}

/// Before any pop: the source holds trust 1, every other score is 0, and
/// every node is queued once, in order.
pub open spec fn initial_state(g: Graph, src: int) -> RunState {
    let v = g.names@.len();
    RunState {
        p: Seq::new(v, |i: int| if i == src { SCALE } else { 0u64 }),
        n: Seq::new(v, |i: int| 0u64),
        visited: Seq::new(v, |i: int| false),
        frontier: initial_frontier(src, v),
        pushes: v,
        pops: 0,
    }
}

/// Relaxes the target of `u`'s `j`-th edge from a node of score `score`.
pub open spec fn relax_one(g: Graph, st: RunState, u: int, j: int, score: int) -> RunState {
    let v = target_index(g, u, j);
    let e = g.nodes@[u].edges@[j];
    if st.visited[v] || st.p[v] - st.n[v] > score {
        st
    } else {
        let p2 = pulled(st.p[v], score, e.positive);
        let n2 = pulled(st.n[v], score, e.negative);
        RunState {
            p: st.p.update(v, p2),
            n: st.n.update(v, n2),
            frontier: st.frontier.insert(
                (v as usize, st.pushes as u128),
                (priority_key(p2 - n2) as i64, tie_break(st.pushes as u128)),
            ),
            pushes: st.pushes + 1,
            ..st
        }
    }
}

/// Relaxes the targets of `u`'s first `j` edges, in order.
pub open spec fn relax_all(g: Graph, st: RunState, u: int, score: int, j: nat) -> RunState
    decreases j,
{
    if j == 0 {
        st
    } else {
        relax_one(g, relax_all(g, st, u, score, (j - 1) as nat), u, j - 1, score)
    }
}

pub open spec fn halted(st: RunState) -> bool {
    st.frontier.dom() == Set::<(usize, u128)>::empty()
}

/// The entry of greatest priority.
pub open spec fn top(st: RunState) -> (usize, u128) {
    choose|e: (usize, u128)| is_top(st.frontier, e)
}

/// One pop: a stale entry is discarded; otherwise its node is marked
/// visited and relaxes each of its targets with its clamped net score.
pub open spec fn step(g: Graph, st: RunState) -> RunState {
    if halted(st) {
        st
    } else {
        let e = top(st);
        let u = e.0 as int;
        let st1 = RunState { frontier: st.frontier.remove(e), pops: st.pops + 1, ..st };
        if st.visited[u] {
            st1
        } else {
            let st2 = RunState { visited: st.visited.update(u, true), ..st1 };
            relax_all(g, st2, u, clamp_at_zero(st.p[u] - st.n[u]), degree(g, u) as nat)
        }
    }
}

pub open spec fn run(g: Graph, st: RunState, k: nat) -> RunState
    decreases k,
{
    if k == 0 {
        st
    } else {
        run(g, step(g, st), (k - 1) as nat)
    }
}

pub open spec fn halts_within(g: Graph, src: int, k: nat) -> bool {
    halted(run(g, initial_state(g, src), k))
}

/// The state in which the computation from `src` stops.
pub open spec fn final_state(g: Graph, src: int) -> RunState {
    run(g, initial_state(g, src), choose|k: nat| halts_within(g, src, k))
}

/// One result per node other than `src`, among the first `i`, in node order.
pub open spec fn results_of(g: Graph, src: int, st: RunState, i: nat) -> Seq<(Seq<char>, u64, u64)>
    decreases i,
{
    if i == 0 {
        Seq::empty()
    } else {
        let k = i - 1;
        let prev = results_of(g, src, st, (i - 1) as nat);
        if k == src {
            prev
        } else {
            prev.push((g.names@[k]@, st.p[k], st.n[k]))
        }
    }
}

pub open spec fn count_unvisited(vs: Seq<bool>) -> nat
    decreases vs.len(),
{
    if vs.len() == 0 {
        0
    } else {
        count_unvisited(vs.drop_last()) + if vs.last() {
            0nat
        } else {
            1nat
        }
    }
}

pub open spec fn scores_ok(g: Graph, st: RunState) -> bool {
    let v = g.names@.len();
    &&& st.p.len() == v
    &&& st.n.len() == v
    &&& st.visited.len() == v
    &&& forall|i: int| 0 <= i < v ==> #[trigger] st.p[i] <= SCALE && st.n[i] <= SCALE
}

pub open spec fn frontier_ok(g: Graph, st: RunState) -> bool {
    &&& st.frontier.dom().finite()
    &&& st.frontier.dom().len() + st.pops == st.pushes
    &&& forall|e: (usize, u128)| #[trigger]
        st.frontier.contains_key(e) ==> e.0 < g.names@.len() && e.1 < st.pushes
            && st.frontier[e].1 == tie_break(e.1)
    &&& forall|a: (usize, u128), b: (usize, u128)|
        st.frontier.contains_key(a) && st.frontier.contains_key(b) && a.1 == b.1 ==> a == b
}

/// Every edge list of `g` has at most `d` entries.
pub open spec fn degrees_within(g: Graph, d: int) -> bool {
    forall|u: int| 0 <= u < g.nodes@.len() ==> degree(g, u) <= d
}

/// What holds of every state that a run reaches.
pub open spec fn run_inv(g: Graph, st: RunState, d: int) -> bool {
    let v = g.names@.len();
    &&& scores_ok(g, st)
    &&& frontier_ok(g, st)
    &&& count_unvisited(st.visited) <= v
    &&& st.pushes <= v + (v - count_unvisited(st.visited)) * d
}

/// No score of `b` lies below the same score of `a`.
pub open spec fn no_lower(a: RunState, b: RunState) -> bool {
    &&& a.p.len() == b.p.len()
    &&& a.n.len() == b.n.len()
    &&& forall|i: int| 0 <= i < a.p.len() ==> a.p[i] <= #[trigger] b.p[i]
    &&& forall|i: int| 0 <= i < a.n.len() ==> a.n[i] <= #[trigger] b.n[i]
}

pub proof fn lemma_pulled(cur: u64, target: int, w: u64)
    requires
        cur <= SCALE,
        0 <= target <= SCALE,
        w <= SCALE,
    ensures
        cur <= pulled(cur, target, w) <= SCALE,
        target > cur ==> pulled(cur, target, w) <= target,
        w == 0 ==> pulled(cur, target, w) == cur,
{
    if target > cur {
        let gap = target - cur;
        assert(gap * w <= gap * (SCALE as int)) by (nonlinear_arith)
            requires
                0 <= gap,
                w <= SCALE,
        ;
        assert(gap * w / (SCALE as int) <= gap) by (nonlinear_arith)
            requires
                0 <= gap * w <= gap * (SCALE as int),
                SCALE > 0,
        ;
        assert(0 <= gap * w / (SCALE as int)) by (nonlinear_arith)
            requires
                0 <= gap * w,
                SCALE > 0,
        ;
        if w == 0 {
            assert(gap * w == 0);
        }
    }
}

pub proof fn lemma_count_update(vs: Seq<bool>, i: int)
    requires
        0 <= i < vs.len(),
        !vs[i],
    ensures
        count_unvisited(vs.update(i, true)) + 1 == count_unvisited(vs),
    decreases vs.len(),
{
    let ws = vs.update(i, true);
    if i == vs.len() - 1 {
        assert(ws.drop_last() =~= vs.drop_last());
    } else {
        assert(ws.drop_last() =~= vs.drop_last().update(i, true));
        lemma_count_update(vs.drop_last(), i);
    }
}

pub proof fn lemma_count_bound(vs: Seq<bool>)
    ensures
        count_unvisited(vs) <= vs.len(),
    decreases vs.len(),
{
    if vs.len() > 0 {
        lemma_count_bound(vs.drop_last());
    }
}

pub proof fn lemma_relax_one(g: Graph, st: RunState, u: int, j: int, score: int)
    requires
        g.wf(),
        0 <= u < g.nodes@.len(),
        0 <= j < degree(g, u),
        0 <= score <= SCALE,
        scores_ok(g, st),
        frontier_ok(g, st),
        st.pushes < u128::MAX,
    ensures
        scores_ok(g, relax_one(g, st, u, j, score)),
        frontier_ok(g, relax_one(g, st, u, j, score)),
        no_lower(st, relax_one(g, st, u, j, score)),
        relax_one(g, st, u, j, score).pushes <= st.pushes + 1,
        relax_one(g, st, u, j, score).pops == st.pops,
        relax_one(g, st, u, j, score).visited == st.visited,
        g.nodes@[u].edges@[j].positive == 0 ==> relax_one(g, st, u, j, score).p == st.p,
        g.nodes@[u].edges@[j].negative == 0 ==> relax_one(g, st, u, j, score).n == st.n,
{
    let v = target_index(g, u, j);
    let e = g.nodes@[u].edges@[j];
    assert(g.node_names().contains(e.target@));
    let k = choose|k: int| 0 <= k < g.node_names().len() && g.node_names()[k] == e.target@;
    g.lemma_index_of(k);
    assert(0 <= v < g.names@.len());
    assert(g.nodes@[u].wf());
    let r = relax_one(g, st, u, j, score);
    if !(st.visited[v] || st.p[v] - st.n[v] > score) {
        lemma_pulled(st.p[v], score, e.positive);
        lemma_pulled(st.n[v], score, e.negative);
        let key = (v as usize, st.pushes as u128);
        assert(!st.frontier.contains_key(key));
        assert(r.frontier.dom() =~= st.frontier.dom().insert(key));
        if e.positive == 0 {
            assert(r.p =~= st.p);
        }
        if e.negative == 0 {
            assert(r.n =~= st.n);
        }
    }
}

pub proof fn lemma_relax_all(g: Graph, st: RunState, u: int, score: int, j: nat)
    requires
        g.wf(),
        0 <= u < g.nodes@.len(),
        j <= degree(g, u),
        0 <= score <= SCALE,
        scores_ok(g, st),
        frontier_ok(g, st),
        st.pushes + j < u128::MAX,
    ensures
        scores_ok(g, relax_all(g, st, u, score, j)),
        frontier_ok(g, relax_all(g, st, u, score, j)),
        no_lower(st, relax_all(g, st, u, score, j)),
        relax_all(g, st, u, score, j).pushes <= st.pushes + j,
        relax_all(g, st, u, score, j).pops == st.pops,
        relax_all(g, st, u, score, j).visited == st.visited,
    decreases j,
{
    if j > 0 {
        let prev = relax_all(g, st, u, score, (j - 1) as nat);
        lemma_relax_all(g, st, u, score, (j - 1) as nat);
        lemma_relax_one(g, prev, u, j - 1, score);
    }
}

pub proof fn lemma_top_unique(st: RunState, a: (usize, u128), b: (usize, u128))
    requires
        is_top(st.frontier, a),
        is_top(st.frontier, b),
        forall|e: (usize, u128)| #[trigger]
            st.frontier.contains_key(e) ==> st.frontier[e].1 == tie_break(e.1),
        forall|x: (usize, u128), y: (usize, u128)|
            st.frontier.contains_key(x) && st.frontier.contains_key(y) && x.1 == y.1 ==> x == y,
    ensures
        a == b,
{
    assert(priority_le(st.frontier[a], st.frontier[b]));
    assert(priority_le(st.frontier[b], st.frontier[a]));
}

pub proof fn lemma_capacity(v: int, d: int, c: int)
    requires
        0 <= v <= usize::MAX,
        0 <= d <= usize::MAX,
        0 <= c < v,
    ensures
        v + c * d + d < u128::MAX,
{
    assert(c * d + d <= v * d) by (nonlinear_arith)
        requires
            0 <= c < v,
            0 <= d,
    ;
    let k: int = 0xffff_ffff_ffff_ffff;
    assert(usize::MAX <= k);
    assert(v * d <= k * k) by (nonlinear_arith)
        requires
            0 <= v <= k,
            0 <= d <= k,
    ;
    assert(k * k + k < u128::MAX);
}

/// Each step keeps the run's invariant and lowers no score.
pub proof fn lemma_step(g: Graph, st: RunState, d: int)
    requires
        g.wf(),
        g.names@.len() <= usize::MAX,
        0 <= d <= usize::MAX,
        degrees_within(g, d),
        run_inv(g, st, d),
    ensures
        run_inv(g, step(g, st), d),
        no_lower(st, step(g, st)),
{
    let v = g.names@.len() as int;
    let c = v - count_unvisited(st.visited);
    if !halted(st) {
        lemma_top_exists(st.frontier);
        let e = top(st);
        let u = e.0 as int;
        let st1 = RunState { frontier: st.frontier.remove(e), pops: st.pops + 1, ..st };
        assert(st1.frontier.dom() =~= st.frontier.dom().remove(e));
        if !st.visited[u] {
            let st2 = RunState { visited: st.visited.update(u, true), ..st1 };
            lemma_count_update(st.visited, u);
            lemma_count_bound(st2.visited);
            lemma_capacity(v, d, c);
            let score = clamp_at_zero(st.p[u] - st.n[u]);
            assert(degree(g, u) <= d);
            assert((c + 1) * d == c * d + d) by (nonlinear_arith);
            lemma_relax_all(g, st2, u, score, degree(g, u) as nat);
        }
    }
}

/// A finite, non-empty frontier has an entry of greatest priority.
pub proof fn lemma_top_exists(m: Map<(usize, u128), (i64, u128)>)
    requires
        m.dom().finite(),
        m.dom() != Set::<(usize, u128)>::empty(),
    ensures
        exists|e: (usize, u128)| is_top(m, e),
    decreases m.dom().len(),
{
    let a = m.dom().choose();
    assert(m.dom().contains(a)) by {
        if !m.dom().contains(a) {
            assert(m.dom() =~= Set::<(usize, u128)>::empty());
        }
    }
    let rest = m.remove(a);
    assert(rest.dom() =~= m.dom().remove(a));
    if rest.dom() == Set::<(usize, u128)>::empty() {
        assert forall|f: (usize, u128)| #[trigger] m.contains_key(f) implies priority_le(m[f], m[a]) by {
            if f != a {
                assert(rest.dom().contains(f));
            }
        }
        assert(is_top(m, a));
    } else {
        lemma_top_exists(rest);
        let b = choose|e: (usize, u128)| is_top(rest, e);
        if priority_le(m[a], m[b]) {
            assert(is_top(m, b));
        } else {
            assert forall|f: (usize, u128)| #[trigger] m.contains_key(f) implies priority_le(
                m[f],
                m[a],
            ) by {
                if f != a {
                    assert(rest.contains_key(f));
                    assert(priority_le(rest[f], rest[b]));
                }
            }
            assert(is_top(m, a));
        }
    }
}

pub proof fn lemma_initial_frontier(src: int, i: nat)
    requires
        i <= usize::MAX,
    ensures
        initial_frontier(src, i).dom().finite(),
        initial_frontier(src, i).dom().len() == i,
        forall|e: (usize, u128)| #[trigger]
            initial_frontier(src, i).contains_key(e) ==> e.0 < i && e.1 == e.0 as u128
                && initial_frontier(src, i)[e].1 == tie_break(e.1),
    decreases i,
{
    if i > 0 {
        let k = i - 1;
        lemma_initial_frontier(src, (i - 1) as nat);
        let prev = initial_frontier(src, (i - 1) as nat);
        assert(!prev.contains_key((k as usize, k as u128)));
        assert(initial_frontier(src, i).dom() =~= prev.dom().insert((k as usize, k as u128)));
    }
}

pub proof fn lemma_count_all_unvisited(v: nat)
    ensures
        count_unvisited(Seq::new(v, |i: int| false)) == v,
    decreases v,
{
    if v > 0 {
        assert(Seq::new(v, |i: int| false).drop_last() =~= Seq::new((v - 1) as nat, |i: int| false));
        lemma_count_all_unvisited((v - 1) as nat);
    }
}

pub proof fn lemma_initial(g: Graph, src: int, d: int)
    requires
        g.wf(),
        g.names@.len() <= usize::MAX,
        0 <= src < g.names@.len(),
        0 <= d,
    ensures
        run_inv(g, initial_state(g, src), d),
{
    let v = g.names@.len();
    lemma_initial_frontier(src, v);
    lemma_count_all_unvisited(v);
    let st = initial_state(g, src);
    assert(st.visited =~= Seq::new(v, |i: int| false));
}

pub proof fn lemma_run_succ(g: Graph, st: RunState, k: nat)
    ensures
        run(g, st, k + 1) == step(g, run(g, st, k)),
    decreases k,
{
    if k > 0 {
        lemma_run_succ(g, step(g, st), (k - 1) as nat);
    } else {
        assert(run(g, step(g, st), 0) == step(g, st));
    }
}

pub proof fn lemma_halted_stable(g: Graph, st: RunState, k: nat, m: nat)
    requires
        halted(run(g, st, k)),
        k <= m,
    ensures
        run(g, st, m) == run(g, st, k),
    decreases m - k,
{
    if k < m {
        lemma_halted_stable(g, st, k, (m - 1) as nat);
        lemma_run_succ(g, st, (m - 1) as nat);
    }
}

/// Every run that stops, stops in the same state.
pub proof fn lemma_final_state(g: Graph, src: int, k: nat)
    requires
        halts_within(g, src, k),
    ensures
        final_state(g, src) == run(g, initial_state(g, src), k),
{
    let c = choose|c: nat| halts_within(g, src, c);
    let st = initial_state(g, src);
    if c <= k {
        lemma_halted_stable(g, st, c, k);
    } else {
        lemma_halted_stable(g, st, k, c);
    }
}

fn priority_of(p: u64, n: u64) -> (r: i64)
    requires
        p <= SCALE,
        n <= SCALE,
    ensures
        r == priority_key(p - n),
{
    let net: i64 = p as i64 - n as i64;
    if net >= 0 {
        let q = (net as u64) / (PRIORITY_STEP as u64);
        q as i64
    } else {
        let m: u64 = (PRIORITY_STEP - 1 - net) as u64;
        let q = m / (PRIORITY_STEP as u64);
        proof {
            let s = PRIORITY_STEP as int;
            vstd::arithmetic::div_mod::lemma_fundamental_div_mod(m as int, s);
            let rm = (m as int) % s;
            vstd::arithmetic::div_mod::lemma_fundamental_div_mod_converse(
                net as int,
                s,
                -(q as int),
                s - 1 - rm,
            );
        }
        -(q as i64)
    }
}

fn pull(cur: u64, target: u64, w: u64) -> (r: u64)
    requires
        cur <= SCALE,
        target <= SCALE,
        w <= SCALE,
    ensures
        r == pulled(cur, target as int, w),
        r <= SCALE,
{
    proof {
        lemma_pulled(cur, target as int, w);
    }
    if target > cur {
        let gap = target - cur;
        assert(gap * w <= SCALE * SCALE) by (nonlinear_arith)
            requires
                gap <= SCALE,
                w <= SCALE,
        ;
        cur + gap * w / SCALE
    } else {
        cur
    }
}

fn max_degree(graph: &Graph) -> (d: usize)
    requires
        graph.wf(),
    ensures
        degrees_within(*graph, d as int),
{
    let mut d: usize = 0;
    let mut u: usize = 0;
    while u < graph.nodes.len()
        invariant
            u <= graph.nodes@.len(),
            forall|k: int| 0 <= k < u ==> degree(*graph, k) <= d,
        decreases graph.nodes@.len() - u,
    {
        if graph.nodes[u].edges.len() > d {
            d = graph.nodes[u].edges.len();
        }
        u = u + 1;
    }
    d
}

impl View for Result {
    type V = (Seq<char>, u64, u64);

    open spec fn view(&self) -> (Seq<char>, u64, u64) {
        (self.node@, self.p_score, self.n_score)
    }
}

impl Result {
    pub fn new(node: String, p_score: u64, n_score: u64) -> (r: Result)
        ensures
            r@ == (node@, p_score, n_score),
    {
        Result { node, p_score, n_score }
    }

    /// Trust minus distrust.
    pub fn net_score(&self) -> (r: i128)
        ensures
            r == self.p_score - self.n_score,
    {
        self.p_score as i128 - self.n_score as i128
    }
}

/// Propagates trust and distrust from `source` through `graph` and returns
/// the final scores of every other node, in node order. Fails with
/// `NodeNotFound` where `source` is not a node of `graph`.
pub fn compute_scores(graph: Graph, source: String) -> (r: core::result::Result<Vec<Result>, TrustError>)
    requires
        graph.wf(),
    ensures
        r is Err <==> !graph.has_node(source@),
        r is Err ==> r == Err::<Vec<Result>, TrustError>(TrustError::NodeNotFound(source)),
        r is Ok ==> r.unwrap()@.map_values(|x: Result| x@) == results_of(
            graph,
            graph.index_of(source@),
            final_state(graph, graph.index_of(source@)),
            graph.names@.len(),
        ),
{
    let src = match graph.find_node(&source) {
        Some(i) => i,
        None => {
            return Err(TrustError::NodeNotFound(source));
        },
    };
    let vcount = graph.names.len();
    let d = max_degree(&graph);
    let mut p: Vec<u64> = Vec::new();
    let mut n: Vec<u64> = Vec::new();
    let mut visited: Vec<bool> = Vec::new();
    let mut queue = queue_new();
    let mut i: usize = 0;
    while i < vcount
        invariant
            src < vcount,
            vcount == graph.names@.len(),
            i <= vcount,
            p@ == Seq::new(i as nat, |k: int| if k == src { SCALE } else { 0u64 }),
            n@ == Seq::new(i as nat, |k: int| 0u64),
            visited@ == Seq::new(i as nat, |k: int| false),
            queue_entries(queue) == initial_frontier(src as int, i as nat),
        decreases vcount - i,
    {
        let ps: u64 = if i == src {
            SCALE
        } else {
            0
        };
        p.push(ps);
        n.push(0);
        visited.push(false);
        let key = priority_of(ps, 0);
        proof {
            lemma_initial_frontier(src as int, i as nat);
        }
        queue_push(&mut queue, (i, i as u128), (key, u128::MAX - i as u128));
        i = i + 1;
        assert(p@ =~= Seq::new(i as nat, |k: int| if k == src { SCALE } else { 0u64 }));
        assert(n@ =~= Seq::new(i as nat, |k: int| 0u64));
        assert(visited@ =~= Seq::new(i as nat, |k: int| false));
    }
    let ghost init = initial_state(graph, src as int);
    let mut pushes: u128 = vcount as u128;
    let ghost mut pops: nat = 0;
    let ghost mut steps: nat = 0;
    let mut remaining: usize = vcount;
    proof {
        lemma_initial(graph, src as int, d as int);
        lemma_count_all_unvisited(vcount as nat);
        assert(visited@ =~= init.visited);
        assert(p@ =~= init.p);
        assert(n@ =~= init.n);
    }
    loop
        invariant
            graph.wf(),
            src < vcount,
            vcount == graph.names@.len(),
            degrees_within(graph, d as int),
            (RunState {
                p: p@,
                n: n@,
                visited: visited@,
                frontier: queue_entries(queue),
                pushes: pushes as nat,
                pops,
            }) == run(graph, init, steps),
            run_inv(graph, run(graph, init, steps), d as int),
            remaining == count_unvisited(visited@),
        ensures
            halted(run(graph, init, steps)),
            (RunState {
                p: p@,
                n: n@,
                visited: visited@,
                frontier: queue_entries(queue),
                pushes: pushes as nat,
                pops,
            }) == run(graph, init, steps),
        decreases queue_entries(queue).dom().len() + remaining * (d + 1),
    {
        let ghost st = run(graph, init, steps);
        let ghost rem0 = remaining;
        proof {
            lemma_run_succ(graph, init, steps);
            lemma_step(graph, st, d as int);
        }
        match queue_pop(&mut queue) {
            None => {
                break;
            },
            Some((e, _priority)) => {
                proof {
                    lemma_top_exists(st.frontier);
                    lemma_top_unique(st, e, top(st));
                }
                let u = e.0;
                proof {
                    pops = pops + 1;
                }
                if !visited[u] {
                    proof {
                        lemma_count_update(visited@, u as int);
                    }
                    visited.set(u, true);
                    remaining = remaining - 1;
                    let score: u64 = if p[u] > n[u] {
                        p[u] - n[u]
                    } else {
                        0
                    };
                    let ghost st2 = RunState {
                        p: p@,
                        n: n@,
                        visited: visited@,
                        frontier: queue_entries(queue),
                        pushes: pushes as nat,
                        pops,
                    };
                    assert(st2.frontier.dom() =~= st.frontier.dom().remove(e));
                    proof {
                        lemma_capacity(vcount as int, d as int, vcount - count_unvisited(st.visited));
                    }
                    let node = &graph.nodes[u];
                    let mut j: usize = 0;
                    while j < node.edges.len()
                        invariant
                            graph.wf(),
                            u < vcount,
                            vcount == graph.names@.len(),
                            *node == graph.nodes@[u as int],
                            j <= node.edges@.len(),
                            score <= SCALE,
                            scores_ok(graph, st2),
                            frontier_ok(graph, st2),
                            st2.pushes + node.edges@.len() < u128::MAX,
                            (RunState {
                                p: p@,
                                n: n@,
                                visited: visited@,
                                frontier: queue_entries(queue),
                                pushes: pushes as nat,
                                pops,
                            }) == relax_all(graph, st2, u as int, score as int, j as nat),
                        decreases node.edges@.len() - j,
                    {
                        proof {
                            lemma_relax_all(graph, st2, u as int, score as int, j as nat);
                        }
                        let edge = &node.edges[j];
                        proof {
                            assert(graph.node_names().contains(edge.target@));
                        }
                        let v = match graph.find_node(&edge.target) {
                            Some(v) => v,
                            None => 0,
                        };
                        assert(node.wf());
                        let net_v: i64 = p[v] as i64 - n[v] as i64;
                        if !visited[v] && net_v <= score as i64 {
                            let p2 = pull(p[v], score, edge.positive);
                            let n2 = pull(n[v], score, edge.negative);
                            p.set(v, p2);
                            n.set(v, n2);
                            let key = priority_of(p2, n2);
                            queue_push(&mut queue, (v, pushes), (key, u128::MAX - pushes));
                            pushes = pushes + 1;
                        }
                        j = j + 1;
                    }
                    proof {
                        lemma_relax_all(graph, st2, u as int, score as int, degree(graph, u as int) as nat);
                    }
                }
                proof {
                    let nxt = step(graph, st);
                    assert(nxt.frontier.dom().len() + nxt.pops == nxt.pushes);
                    assert(st.frontier.dom().len() + st.pops == st.pushes);
                    if remaining < rem0 {
                        assert(nxt.pushes <= st.pushes + d);
                        assert(rem0 * (d + 1) == remaining * (d + 1) + d + 1) by (nonlinear_arith)
                            requires
                                remaining + 1 == rem0,
                        ;
                    }
                    steps = steps + 1;
                }
            },
        }
    }
    let ghost fin = run(graph, init, steps);
    proof {
        lemma_final_state(graph, src as int, steps);
        graph.lemma_index_of(src as int);
    }
    let mut results: Vec<Result> = Vec::new();
    let mut i: usize = 0;
    while i < vcount
        invariant
            src < vcount,
            vcount == graph.names@.len(),
            i <= vcount,
            p@ == fin.p,
            n@ == fin.n,
            scores_ok(graph, fin),
            results@.map_values(|x: Result| x@) == results_of(graph, src as int, fin, i as nat),
        decreases vcount - i,
    {
        if i != src {
            let ghost prev = results@;
            results.push(Result { node: graph.names[i].clone(), p_score: p[i], n_score: n[i] });
            assert(results@.map_values(|x: Result| x@) =~= prev.map_values(|x: Result| x@).push(
                (graph.names@[i as int]@, fin.p[i as int], fin.n[i as int]),
            ));
        }
        i = i + 1;
    }
    Ok(results)
}

} // verus!

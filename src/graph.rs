use vstd::prelude::*;

verus! {

/// The fixed-point unit: a weight or a score of `SCALE` stands for 1.
pub const SCALE: u64 = 1_000_000;

/// Errors of graph queries and of edge insertion.
#[derive(Debug, Clone, PartialEq, Eq)]
pub enum TrustError {
    /// The named node was never inserted into the graph.
    NodeNotFound(String),
    /// An edge weight above `SCALE` (a fraction above 1).
    InvalidWeight,
}

/// One outgoing edge: its target and the weight on each channel.
/// A channel that was never set has weight 0.
pub struct Edge {
    pub target: String,
    pub positive: u64,
    pub negative: u64,
}

/// A node's outgoing edges, at most one per target.
pub struct Node {
    pub edges: Vec<Edge>,
}

pub open spec fn edge_targets_unique(es: Seq<Edge>) -> bool {
    forall|i: int, j: int|
        0 <= i < es.len() && 0 <= j < es.len() && es[i].target@ == es[j].target@ ==> i == j
}

/// Index of the edge towards `t`, where there is one.
pub open spec fn edge_position(es: Seq<Edge>, t: Seq<char>) -> int {
    choose|j: int| 0 <= j < es.len() && es[j].target@ == t
}

pub open spec fn has_edge_to(es: Seq<Edge>, t: Seq<char>) -> bool {
    exists|j: int| 0 <= j < es.len() && es[j].target@ == t
}

pub proof fn lemma_edge_position(es: Seq<Edge>, j: int, t: Seq<char>)
    requires
        edge_targets_unique(es),
        0 <= j < es.len(),
        es[j].target@ == t,
    ensures
        has_edge_to(es, t),
        edge_position(es, t) == j,
{
    assert(has_edge_to(es, t));
    let k = edge_position(es, t);
    assert(es[k].target@ == t);
}

impl Node {
    pub open spec fn wf(&self) -> bool {
        &&& edge_targets_unique(self.edges@)
        &&& forall|j: int|
            0 <= j < self.edges@.len() ==> self.edges@[j].positive <= SCALE
                && self.edges@[j].negative <= SCALE
    }

    /// Whether some edge (on either channel) leads to `t`.
    pub open spec fn has_target(&self, t: Seq<char>) -> bool {
        has_edge_to(self.edges@, t)
    }

    pub open spec fn positive_of(&self, t: Seq<char>) -> u64 {
        if self.has_target(t) {
            self.edges@[edge_position(self.edges@, t)].positive
        } else {
            0
        }
    }

    pub open spec fn negative_of(&self, t: Seq<char>) -> u64 {
        if self.has_target(t) {
            self.edges@[edge_position(self.edges@, t)].negative
        } else {
            0
        }
    }

    /// The targets of the outgoing edges, in the order they were first added.
    pub open spec fn targets(&self) -> Seq<Seq<char>> {
        self.edges@.map_values(|e: Edge| e.target@)
    }

    pub fn new() -> (r: Node)
        ensures
            r.wf(),
            r.edges@.len() == 0,
            forall|t: Seq<char>| !r.has_target(t),
    {
        Node { edges: Vec::new() }
    }

    /// Position of the edge towards `target`, if any.
    fn find_edge(&self, target: &String) -> (r: Option<usize>)
        requires
            self.wf(),
        ensures
            r.is_some() <==> self.has_target(target@),
            r.is_some() ==> r.unwrap() == edge_position(self.edges@, target@) && r.unwrap()
                < self.edges@.len(),
    {
        let mut j: usize = 0;
        while j < self.edges.len()
            invariant
                self.wf(),
                j <= self.edges@.len(),
                forall|k: int| 0 <= k < j ==> self.edges@[k].target@ != target@,
            decreases self.edges@.len() - j,
        {
            if self.edges[j].target == *target {
                proof {
                    lemma_edge_position(self.edges@, j as int, target@);
                }
                return Some(j);
            }
            j = j + 1;
        }
        None
    }

    /// Sets the weight of one channel of the edge towards `target`, creating
    /// the edge (with weight 0 on the other channel) where there is none.
    fn set_weight(&mut self, target: String, weight: u64, positive: bool)
        requires
            old(self).wf(),
            weight <= SCALE,
        ensures
            final(self).wf(),
            forall|t: Seq<char>| #[trigger]
                final(self).has_target(t) <==> old(self).has_target(t) || t == target@,
            final(self).positive_of(target@) == if positive {
                weight
            } else {
                old(self).positive_of(target@)
            },
            final(self).negative_of(target@) == if positive {
                old(self).negative_of(target@)
            } else {
                weight
            },
            forall|t: Seq<char>|
                t != target@ ==> #[trigger] final(self).positive_of(t) == old(self).positive_of(t)
                    && final(self).negative_of(t) == old(self).negative_of(t),
            final(self).targets() == if old(self).has_target(target@) {
                old(self).targets()
            } else {
                old(self).targets().push(target@)
            },
    {
        let ghost old_es = self.edges@;
        match self.find_edge(&target) {
            Some(j) => {
                let e = &mut self.edges[j];
                if positive {
                    e.positive = weight;
                } else {
                    e.negative = weight;
                }
                let ghost es = self.edges@;
                assert(forall|k: int| 0 <= k < es.len() ==> es[k].target@ == old_es[k].target@);
                assert forall|t: Seq<char>|
                    self.has_target(t) <==> #[trigger] has_edge_to(old_es, t) || t == target@ by {
                    if has_edge_to(old_es, t) {
                        let k = edge_position(old_es, t);
                        assert(es[k].target@ == t);
                    }
                    if has_edge_to(es, t) {
                        let k = edge_position(es, t);
                        assert(old_es[k].target@ == t);
                    }
                }
                proof {
                    lemma_edge_position(es, j as int, target@);
                }
                assert forall|t: Seq<char>| t != target@ implies #[trigger] self.positive_of(t)
                    == old(self).positive_of(t) && self.negative_of(t) == old(self).negative_of(
                    t,
                ) by {
                    if has_edge_to(old_es, t) {
                        let k = edge_position(old_es, t);
                        lemma_edge_position(old_es, k, t);
                        lemma_edge_position(es, k, t);
                    }
                }
                assert(self.targets() =~= old(self).targets());
            },
            None => {
                let ghost tv = target@;
                let e = if positive {
                    Edge { target, positive: weight, negative: 0 }
                } else {
                    Edge { target, positive: 0, negative: weight }
                };
                self.edges.push(e);
                let ghost es = self.edges@;
                let ghost n = old_es.len() as int;
                assert(forall|k: int| 0 <= k < n ==> es[k] == old_es[k]);
                assert forall|t: Seq<char>|
                    self.has_target(t) <==> #[trigger] has_edge_to(old_es, t) || t == target@ by {
                    if has_edge_to(old_es, t) {
                        let k = edge_position(old_es, t);
                        assert(es[k].target@ == t);
                    }
                    if t == tv {
                        assert(es[n].target@ == tv);
                    }
                    if has_edge_to(es, t) && t != tv {
                        let k = edge_position(es, t);
                        assert(es[n].target@ == tv);
                        assert(k != n);
                        assert(old_es[k].target@ == t);
                    }
                }
                proof {
                    lemma_edge_position(es, n, target@);
                }
                assert forall|t: Seq<char>| t != target@ implies #[trigger] self.positive_of(t)
                    == old(self).positive_of(t) && self.negative_of(t) == old(self).negative_of(
                    t,
                ) by {
                    if has_edge_to(old_es, t) {
                        let k = edge_position(old_es, t);
                        lemma_edge_position(old_es, k, t);
                        lemma_edge_position(es, k, t);
                    }
                }
                assert(self.targets() =~= old(self).targets().push(target@));
            },
        }
    }
    /// Records `weight` as the trust weight towards `target`, replacing any
    /// earlier one. A weight above `SCALE` is refused.
    pub fn add_positive_edge(&mut self, target: String, weight: u64) -> (r: Result<(), TrustError>)
        requires
            old(self).wf(),
        ensures
            final(self).wf(),
            r is Err <==> weight > SCALE,
            r is Err ==> r == Err::<(), TrustError>(TrustError::InvalidWeight) && *final(self) == *old(self),
            r is Ok ==> {
                &&& forall|t: Seq<char>| #[trigger]
                    final(self).has_target(t) <==> old(self).has_target(t) || t == target@
                &&& final(self).positive_of(target@) == weight
                &&& final(self).negative_of(target@) == old(self).negative_of(target@)
                &&& forall|t: Seq<char>|
                    t != target@ ==> #[trigger] final(self).positive_of(t) == old(self).positive_of(t)
                        && final(self).negative_of(t) == old(self).negative_of(t)
            },
    {
        if weight > SCALE {
            return Err(TrustError::InvalidWeight);
        }
        self.set_weight(target, weight, true);
        Ok(())
    }

    /// Records `weight` as the distrust weight towards `target`, replacing any
    /// earlier one. A weight above `SCALE` is refused.
    pub fn add_negative_edge(&mut self, target: String, weight: u64) -> (r: Result<(), TrustError>)
        requires
            old(self).wf(),
        ensures
            final(self).wf(),
            r is Err <==> weight > SCALE,
            r is Err ==> r == Err::<(), TrustError>(TrustError::InvalidWeight) && *final(self) == *old(self),
            r is Ok ==> {
                &&& forall|t: Seq<char>| #[trigger]
                    final(self).has_target(t) <==> old(self).has_target(t) || t == target@
                &&& final(self).negative_of(target@) == weight
                &&& final(self).positive_of(target@) == old(self).positive_of(target@)
                &&& forall|t: Seq<char>|
                    t != target@ ==> #[trigger] final(self).positive_of(t) == old(self).positive_of(t)
                        && final(self).negative_of(t) == old(self).negative_of(t)
            },
    {
        if weight > SCALE {
            return Err(TrustError::InvalidWeight);
        }
        self.set_weight(target, weight, false);
        Ok(())
    }

    /// The trust weight towards `target`; 0 where none was recorded.
    pub fn get_positive_weight(&self, target: String) -> (r: u64)
        requires
            self.wf(),
        ensures
            r == self.positive_of(target@),
    {
        match self.find_edge(&target) {
            Some(j) => self.edges[j].positive,
            None => 0,
        }
    }

    /// The distrust weight towards `target`; 0 where none was recorded.
    pub fn get_negative_weight(&self, target: String) -> (r: u64)
        requires
            self.wf(),
        ensures
            r == self.negative_of(target@),
    {
        match self.find_edge(&target) {
            Some(j) => self.edges[j].negative,
            None => 0,
        }
    }

    /// The targets of the outgoing edges on either channel, each once.
    pub fn out_neighbours(&self) -> (r: Vec<String>)
        requires
            self.wf(),
        ensures
            r@.map_values(|s: String| s@) == self.targets(),
            forall|t: Seq<char>| self.has_target(t) <==> #[trigger] self.targets().contains(t),
    {
        let mut r: Vec<String> = Vec::new();
        let mut j: usize = 0;
        while j < self.edges.len()
            invariant
                j <= self.edges@.len(),
                r@.len() == j,
                forall|k: int| 0 <= k < j ==> #[trigger] r@[k]@ == self.edges@[k].target@,
            decreases self.edges@.len() - j,
        {
            let name = self.edges[j].target.clone();
            r.push(name);
            j = j + 1;
        }
        assert(r@.map_values(|s: String| s@) =~= self.targets());
        assert forall|t: Seq<char>| self.has_target(t) <==> #[trigger] self.targets().contains(t) by {
            if self.has_target(t) {
                let k = edge_position(self.edges@, t);
                assert(self.targets()[k] == t);
            }
            if self.targets().contains(t) {
                let k = choose|k: int| 0 <= k < self.targets().len() && self.targets()[k] == t;
                assert(self.edges@[k].target@ == t);
            }
        }
        r
    }
}

/// Nodes in order of first insertion: `names[i]` names `nodes[i]`.
pub struct Graph {
    pub names: Vec<String>,
    pub nodes: Vec<Node>,
}

pub open spec fn names_unique(ns: Seq<Seq<char>>) -> bool {
    forall|i: int, j: int| 0 <= i < ns.len() && 0 <= j < ns.len() && ns[i] == ns[j] ==> i == j
}

/// The node list after inserting an edge from `s` to `t`: each endpoint not
/// yet present is appended, `s` first.
pub open spec fn with_endpoints(ns: Seq<Seq<char>>, s: Seq<char>, t: Seq<char>) -> Seq<Seq<char>> {
    let a = if ns.contains(s) {
        ns
    } else {
        ns.push(s)
    };
    if a.contains(t) {
        a
    } else {
        a.push(t)
    }
}

impl Graph {
    pub open spec fn node_names(&self) -> Seq<Seq<char>> {
        self.names@.map_values(|s: String| s@)
    }

    pub open spec fn wf(&self) -> bool {
        &&& self.names@.len() == self.nodes@.len()
        &&& names_unique(self.node_names())
        &&& forall|i: int| 0 <= i < self.nodes@.len() ==> (#[trigger] self.nodes@[i]).wf()
        &&& forall|i: int, j: int|
            0 <= i < self.nodes@.len() && 0 <= j < self.nodes@[i].edges@.len()
                ==> self.node_names().contains(#[trigger] self.nodes@[i].edges@[j].target@)
    }

    pub open spec fn has_node(&self, n: Seq<char>) -> bool {
        self.node_names().contains(n)
    }

    /// Position of the node named `n`, where there is one.
    pub open spec fn index_of(&self, n: Seq<char>) -> int {
        choose|i: int| 0 <= i < self.node_names().len() && self.node_names()[i] == n
    }

    pub open spec fn node(&self, n: Seq<char>) -> Node {
        self.nodes@[self.index_of(n)]
    }

    pub open spec fn has_edge(&self, s: Seq<char>, t: Seq<char>) -> bool {
        self.has_node(s) && self.node(s).has_target(t)
    }

    pub open spec fn positive_weight(&self, s: Seq<char>, t: Seq<char>) -> u64 {
        if self.has_node(s) {
            self.node(s).positive_of(t)
        } else {
            0
        }
    }

    pub open spec fn negative_weight(&self, s: Seq<char>, t: Seq<char>) -> u64 {
        if self.has_node(s) {
            self.node(s).negative_of(t)
        } else {
            0
        }
    }

    pub proof fn lemma_index_of(&self, i: int)
        requires
            self.wf(),
            0 <= i < self.names@.len(),
        ensures
            self.has_node(self.names@[i]@),
            self.index_of(self.names@[i]@) == i,
    {
        let n = self.names@[i]@;
        assert(self.node_names()[i] == n);
        let k = self.index_of(n);
        assert(self.node_names()[k] == n);
    }

    pub fn new() -> (r: Graph)
        ensures
            r.wf(),
            r.node_names().len() == 0,
    {
        let r = Graph { names: Vec::new(), nodes: Vec::new() };
        assert(r.node_names() =~= Seq::<Seq<char>>::empty());
        r
    }

    /// Position of the node named `name`, if any.
    pub(crate) fn find_node(&self, name: &String) -> (r: Option<usize>)
        requires
            self.wf(),
        ensures
            r.is_some() <==> self.has_node(name@),
            r.is_some() ==> r.unwrap() < self.names@.len() && r.unwrap() == self.index_of(name@)
                && self.names@[r.unwrap() as int]@ == name@,
    {
        let mut i: usize = 0;
        while i < self.names.len()
            invariant
                self.wf(),
                i <= self.names@.len(),
                forall|k: int| 0 <= k < i ==> self.names@[k]@ != name@,
            decreases self.names@.len() - i,
        {
            if self.names[i] == *name {
                proof {
                    self.lemma_index_of(i as int);
                }
                return Some(i);
            }
            i = i + 1;
        }
        proof {
            if self.has_node(name@) {
                let k = choose|k: int| 0 <= k < self.node_names().len() && self.node_names()[k] == name@;
                assert(self.names@[k]@ == name@);
            }
        }
        None
    }

    /// Position of the node named `name`, appending an empty node if absent.
    fn ensure_node(&mut self, name: String) -> (r: usize)
        requires
            old(self).wf(),
        ensures
            final(self).wf(),
            final(self).node_names() == if old(self).has_node(name@) {
                old(self).node_names()
            } else {
                old(self).node_names().push(name@)
            },
            r < final(self).names@.len(),
            r == final(self).index_of(name@),
            final(self).has_node(name@),
            forall|i: int| 0 <= i < old(self).nodes@.len() ==> final(self).nodes@[i] == old(self).nodes@[i],
            !old(self).has_node(name@) ==> final(self).nodes@[r as int].edges@.len() == 0,
    {
        match self.find_node(&name) {
            Some(i) => i,
            None => {
                let ghost old_names = self.node_names();
                let ghost nv = name@;
                let i = self.names.len();
                self.names.push(name);
                self.nodes.push(Node::new());
                assert(self.node_names() =~= old_names.push(nv));
                assert forall|a: int, b: int|
                    0 <= a < self.nodes@.len() && 0 <= b < self.nodes@[a].edges@.len()
                        implies self.node_names().contains(#[trigger] self.nodes@[a].edges@[b].target@) by {
                    let tt = self.nodes@[a].edges@[b].target@;
                    assert(old_names.contains(tt));
                    let k = choose|k: int| 0 <= k < old_names.len() && old_names[k] == tt;
                    assert(self.node_names()[k] == tt);
                }
                assert(names_unique(self.node_names())) by {
                    assert forall|a: int, b: int|
                        0 <= a < self.node_names().len() && 0 <= b < self.node_names().len()
                            && self.node_names()[a] == self.node_names()[b] implies a == b by {
                        if a == i as int && b != i as int {
                            assert(old_names[b] == nv);
                        }
                        if b == i as int && a != i as int {
                            assert(old_names[a] == nv);
                        }
                    }
                }
                proof {
                    self.lemma_index_of(i as int);
                }
                i
            },
        }
    }
    /// Inserts both endpoints where absent, then sets one channel's weight on
    /// the edge from `source` to `target`.
    fn add_edge(&mut self, source: String, target: String, weight: u64, positive: bool)
        requires
            old(self).wf(),
            weight <= SCALE,
        ensures
            final(self).wf(),
            final(self).node_names() == with_endpoints(old(self).node_names(), source@, target@),
            final(self).positive_weight(source@, target@) == if positive {
                weight
            } else {
                old(self).positive_weight(source@, target@)
            },
            final(self).negative_weight(source@, target@) == if positive {
                old(self).negative_weight(source@, target@)
            } else {
                weight
            },
            forall|a: Seq<char>, b: Seq<char>|
                #[trigger] final(self).has_edge(a, b) <==> old(self).has_edge(a, b) || (a == source@
                    && b == target@),
            forall|a: Seq<char>, b: Seq<char>|
                !(a == source@ && b == target@) ==> #[trigger] final(self).positive_weight(a, b)
                    == old(self).positive_weight(a, b) && final(self).negative_weight(a, b)
                    == old(self).negative_weight(a, b),
    {
        let ghost g0 = *self;
        let si = self.ensure_node(source.clone());
        let ghost g1 = *self;
        let _ti = self.ensure_node(target.clone());
        let ghost g2 = *self;
        proof {
            assert(g2.nodes@[si as int] == g1.nodes@[si as int]);
            g1.lemma_index_of(si as int);
            g2.lemma_index_of(si as int);
        }
        let ghost tv = target@;
        self.nodes[si].set_weight(target, weight, positive);
        proof {
            let g3 = *self;
            assert(g3.node_names() == g2.node_names());
            assert(g3.names@ == g2.names@);
            assert(g3.node_names().contains(tv)) by {
                g2.lemma_index_of(g2.index_of(tv));
            }
            assert forall|a: int, b: int|
                0 <= a < g3.nodes@.len() && 0 <= b < g3.nodes@[a].edges@.len()
                    implies g3.node_names().contains(#[trigger] g3.nodes@[a].edges@[b].target@) by {
                if a != si as int {
                    assert(g3.nodes@[a] == g2.nodes@[a]);
                } else {
                    let tt = g3.nodes@[a].edges@[b].target@;
                    assert(g3.nodes@[a].has_target(tt));
                    if tt != tv {
                        assert(g2.nodes@[a].has_target(tt));
                        let c = edge_position(g2.nodes@[a].edges@, tt);
                        assert(g2.nodes@[a].edges@[c].target@ == tt);
                    }
                }
            }
            assert(forall|i: int| 0 <= i < g3.nodes@.len() ==> (#[trigger] g3.nodes@[i]).wf());
            assert(g3.wf());
            g3.lemma_index_of(si as int);
            assert(forall|k: int| 0 <= k < g0.names@.len() ==> g3.node_names()[k] == g0.node_names()[k]);
            assert(forall|k: int| 0 <= k < g1.names@.len() ==> g3.node_names()[k] == g1.node_names()[k]);
            assert forall|a: Seq<char>| #[trigger] g0.has_node(a) implies g3.index_of(a) == g0.index_of(a)
                && g3.nodes@[g0.index_of(a)] == if a == source@ { g3.nodes@[si as int] } else { g0.nodes@[g0.index_of(a)] } by {
                let k = g0.index_of(a);
                g0.lemma_index_of(k);
                assert(g3.node_names()[k] == g0.node_names()[k]);
                g3.lemma_index_of(k);
                if a == source@ {
                    assert(k == si as int);
                }
            }
            assert forall|a: Seq<char>| #[trigger] g3.has_node(a) && !g0.has_node(a) implies
                g3.node(a).edges@.len() == 0 || a == source@ by {
                let k = g3.index_of(a);
                g3.lemma_index_of(k);
                if k < g0.nodes@.len() {
                    assert(g0.node_names()[k] == g3.node_names()[k]);
                    g0.lemma_index_of(k);
                } else if a != source@ {
                    if k < g1.nodes@.len() {
                        assert(g1.node_names()[k] == a);
                        g1.lemma_index_of(k);
                    }
                }
            }
            assert forall|a: Seq<char>| #[trigger] g3.has_node(a) <==> g0.has_node(a) || a == source@ || a == tv by {
                if g0.has_node(a) {
                    let k = g0.index_of(a);
                    g0.lemma_index_of(k);
                    assert(g3.node_names()[k] == g0.node_names()[k]);
                    g3.lemma_index_of(k);
                }
                if g3.has_node(a) {
                    let k = g3.index_of(a);
                    g3.lemma_index_of(k);
                }
            }
        }
    }

    /// Inserts both endpoints where absent, then records `weight` as the trust
    /// weight from `source` to `target`, replacing any earlier one. A weight
    /// above `SCALE` is refused and leaves the graph unchanged.
    pub fn add_positive_edge(&mut self, source: String, target: String, weight: u64) -> (r: Result<(), TrustError>)
        requires
            old(self).wf(),
        ensures
            final(self).wf(),
            r is Err <==> weight > SCALE,
            r is Err ==> r == Err::<(), TrustError>(TrustError::InvalidWeight) && *final(self) == *old(self),
            r is Ok ==> {
                &&& final(self).node_names() == with_endpoints(old(self).node_names(), source@, target@)
                &&& final(self).positive_weight(source@, target@) == weight
                &&& final(self).negative_weight(source@, target@) == old(self).negative_weight(source@, target@)
                &&& forall|a: Seq<char>, b: Seq<char>|
                    #[trigger] final(self).has_edge(a, b) <==> old(self).has_edge(a, b) || (a == source@
                        && b == target@)
                &&& forall|a: Seq<char>, b: Seq<char>|
                    !(a == source@ && b == target@) ==> #[trigger] final(self).positive_weight(a, b)
                        == old(self).positive_weight(a, b) && final(self).negative_weight(a, b)
                        == old(self).negative_weight(a, b)
            },
    {
        if weight > SCALE {
            return Err(TrustError::InvalidWeight);
        }
        self.add_edge(source, target, weight, true);
        Ok(())
    }

    /// Inserts both endpoints where absent, then records `weight` as the
    /// distrust weight from `source` to `target`, replacing any earlier one. A
    /// weight above `SCALE` is refused and leaves the graph unchanged.
    pub fn add_negative_edge(&mut self, source: String, target: String, weight: u64) -> (r: Result<(), TrustError>)
        requires
            old(self).wf(),
        ensures
            final(self).wf(),
            r is Err <==> weight > SCALE,
            r is Err ==> r == Err::<(), TrustError>(TrustError::InvalidWeight) && *final(self) == *old(self),
            r is Ok ==> {
                &&& final(self).node_names() == with_endpoints(old(self).node_names(), source@, target@)
                &&& final(self).negative_weight(source@, target@) == weight
                &&& final(self).positive_weight(source@, target@) == old(self).positive_weight(source@, target@)
                &&& forall|a: Seq<char>, b: Seq<char>|
                    #[trigger] final(self).has_edge(a, b) <==> old(self).has_edge(a, b) || (a == source@
                        && b == target@)
                &&& forall|a: Seq<char>, b: Seq<char>|
                    !(a == source@ && b == target@) ==> #[trigger] final(self).positive_weight(a, b)
                        == old(self).positive_weight(a, b) && final(self).negative_weight(a, b)
                        == old(self).negative_weight(a, b)
            },
    {
        if weight > SCALE {
            return Err(TrustError::InvalidWeight);
        }
        self.add_edge(source, target, weight, false);
        Ok(())
    }
    /// The trust weight from `source` to `target` (0 where none was recorded).
    pub fn get_positive_weight(&self, source: String, target: String) -> (r: Result<u64, TrustError>)
        requires
            self.wf(),
        ensures
            r is Err <==> !self.has_node(source@),
            r is Err ==> r == Err::<u64, TrustError>(TrustError::NodeNotFound(source)),
            r is Ok ==> r == Ok::<u64, TrustError>(self.positive_weight(source@, target@)),
    {
        match self.find_node(&source) {
            Some(i) => Ok(self.nodes[i].get_positive_weight(target)),
            None => Err(TrustError::NodeNotFound(source)),
        }
    }

    /// The distrust weight from `source` to `target` (0 where none was recorded).
    pub fn get_negative_weight(&self, source: String, target: String) -> (r: Result<u64, TrustError>)
        requires
            self.wf(),
        ensures
            r is Err <==> !self.has_node(source@),
            r is Err ==> r == Err::<u64, TrustError>(TrustError::NodeNotFound(source)),
            r is Ok ==> r == Ok::<u64, TrustError>(self.negative_weight(source@, target@)),
    {
        match self.find_node(&source) {
            Some(i) => Ok(self.nodes[i].get_negative_weight(target)),
            None => Err(TrustError::NodeNotFound(source)),
        }
    }

    /// Every node's name, in order of first insertion.
    pub fn for_each_node(&self) -> (r: Vec<String>)
        requires
            self.wf(),
        ensures
            r@.map_values(|s: String| s@) == self.node_names(),
    {
        let mut r: Vec<String> = Vec::new();
        let mut i: usize = 0;
        while i < self.names.len()
            invariant
                i <= self.names@.len(),
                r@.len() == i,
                forall|k: int| 0 <= k < i ==> #[trigger] r@[k]@ == self.names@[k]@,
            decreases self.names@.len() - i,
        {
            let name = self.names[i].clone();
            r.push(name);
            i = i + 1;
        }
        assert(r@.map_values(|s: String| s@) =~= self.node_names());
        r
    }

    /// The targets of `node`'s outgoing edges on either channel, each once.
    pub fn for_each_neighbour(&self, node: String) -> (r: Result<Vec<String>, TrustError>)
        requires
            self.wf(),
        ensures
            r is Err <==> !self.has_node(node@),
            r is Err ==> r == Err::<Vec<String>, TrustError>(TrustError::NodeNotFound(node)),
            r is Ok ==> r.unwrap()@.map_values(|s: String| s@) == self.node(node@).targets(),
    {
        match self.find_node(&node) {
            Some(i) => Ok(self.nodes[i].out_neighbours()),
            None => Err(TrustError::NodeNotFound(node)),
        }
    }
}

} // verus!

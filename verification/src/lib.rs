//! A directed acyclic graph of named nodes, with cycle prevention and
//! topological ordering, and (in `blockchain`) a DAG-based ledger ordered
//! by the GHOSTDAG rule.
use vstd::prelude::*;

pub mod graph;
pub mod text;
pub mod blockchain;
pub mod ledger;
pub mod ghostdag;

use crate::graph::{
    acyclic, adj_edge, adj_ok, lists, in_count, lemma_in_count_le, lemma_in_count_mark,
    lemma_in_count_pos, lemma_in_count_zero, lemma_min_rank, lemma_ranked_acyclic,
    lemma_adj_push_empty, lemma_adj_add_edge, lemma_rank_after_edge, lemma_reaches_trans, lemma_edge_reaches, count_true,
    lemma_count_true_le, lemma_count_true_set, all_false, zeros, lemma_count_true_lt, lemma_count_true_none, ranked, reachable_from, reaches,
    reaches_or_eq, is_path, no_dups, list_contains, set_insert,
};
use crate::text::{join3, join5};

verus! {

/// A node of the graph: an identifier and the data it carries.
#[derive(Debug, Clone, PartialEq, Eq, Hash)]
pub struct Node {
    pub id: String,
    pub data: String,
}

impl Node {
    /// Makes a node from its identifier and data.
    pub fn new(id: &str, data: &str) -> (node: Node)
        ensures
            node.id@ == id@,
            node.data@ == data@,
    {
        Node { id: id.to_string(), data: data.to_string() }
    }
}

/// A directed acyclic graph. Nodes are kept in the order they were added;
/// `children[i]` lists, without repetition and in the order they were
/// added, the positions of the targets of the edges out of node `i`.
pub struct Dag {
    nodes: Vec<Node>,
    children: Vec<Vec<usize>>,
    /// A rank that grows along every edge: the witness that there is no cycle.
    rank: Ghost<Seq<int>>,
}

/// The lengths of the lists in `ls` added up.
pub open spec fn total_len(ls: Seq<Seq<usize>>) -> int
    decreases ls.len(),
{
    if ls.len() == 0 {
        0
    } else {
        total_len(ls.drop_last()) + ls.last().len()
    }
}

/// The total over a prefix is at most the total over a longer prefix.
pub proof fn lemma_total_len_mono(ls: Seq<Seq<usize>>, i: int, k: int)
    requires
        0 <= i <= k <= ls.len(),
    ensures
        total_len(ls.take(i)) <= total_len(ls.take(k)),
    decreases k - i,
{
    if i < k {
        assert(ls.take(k).drop_last() =~= ls.take(k - 1));
        lemma_total_len_mono(ls, i, k - 1);
    }
}

pub open spec fn msg_duplicate_node(id: Seq<char>) -> Seq<char> {
    "Node with id '"@ + id + "' already exists"@
}

pub open spec fn msg_missing_source(id: Seq<char>) -> Seq<char> {
    "Source node '"@ + id + "' does not exist"@
}

pub open spec fn msg_missing_target(id: Seq<char>) -> Seq<char> {
    "Target node '"@ + id + "' does not exist"@
}

pub open spec fn msg_cycle(from: Seq<char>, to: Seq<char>) -> Seq<char> {
    "Adding edge from '"@ + from + "' to '"@ + to + "' would create a cycle"@
}

impl Dag {
    /// The nodes, in the order they were added.
    pub closed spec fn node_list(&self) -> Seq<Node> {
        self.nodes@
    }

    /// For each node, the positions of its children.
    pub closed spec fn child_lists(&self) -> Seq<Seq<usize>> {
        lists(self.children@)
    }

    /// The edge relation between node positions.
    pub open spec fn edges(&self) -> spec_fn(int, int) -> bool {
        adj_edge(self.child_lists())
    }

    /// There is an edge from the node at position `a` to the node at `b`.
    pub open spec fn has_edge(&self, a: int, b: int) -> bool {
        (self.edges())(a, b)
    }

    pub open spec fn id_at(&self, i: int) -> Seq<char> {
        self.node_list()[i].id@
    }

    /// Some node has the identifier `id`.
    pub open spec fn has_id(&self, id: Seq<char>) -> bool {
        exists|i: int| 0 <= i < self.node_list().len() && self.id_at(i) == id
    }

    /// The position of the node with identifier `id`.
    pub open spec fn index_of(&self, id: Seq<char>) -> int {
        choose|i: int| 0 <= i < self.node_list().len() && self.id_at(i) == id
    }

    /// Adding an edge from `from` to `to` would close a cycle: `to` is
    /// `from` or already reaches it.
    pub open spec fn would_cycle(&self, from: Seq<char>, to: Seq<char>) -> bool {
        reaches_or_eq(self.edges(), self.index_of(to), self.index_of(from))
    }

    /// The number of edges: the lengths of the children lists added up.
    pub open spec fn edge_total(&self) -> int {
        total_len(self.child_lists())
    }

    /// `perm` lists every node position once, and every edge goes forward in it.
    pub open spec fn is_topological_order(&self, perm: Seq<int>) -> bool {
        &&& perm.len() == self.node_list().len()
        &&& forall|i: int| 0 <= i < perm.len() ==> 0 <= #[trigger] perm[i] < self.node_list().len()
        &&& forall|i: int, j: int| 0 <= i < j < perm.len() ==> perm[i] != perm[j]
        &&& forall|i: int, j: int|
            0 <= i < perm.len() && 0 <= j < perm.len() && self.has_edge(perm[i], perm[j]) ==> i < j
    }

    /// The internal invariant: node identifiers are distinct, children lists
    /// name existing nodes without repetition, and a rank grows along edges.
    pub closed spec fn wf(&self) -> bool {
        let n = self.nodes@.len();
        &&& self.children@.len() == n
        &&& self.rank@.len() == n
        &&& adj_ok(self.child_lists())
        &&& forall|i: int| 0 <= i < n ==> no_dups(#[trigger] self.child_lists()[i])
        &&& forall|i: int, j: int| 0 <= i < j < n ==> self.nodes@[i].id@ != self.nodes@[j].id@
        &&& ranked(self.edges(), self.rank@)
    }

    /// An empty graph.
    pub fn new() -> (dag: Dag)
        ensures
            dag.wf(),
            dag.node_list() == Seq::<Node>::empty(),
            dag.child_lists() == Seq::<Seq<usize>>::empty(),
    {
        let dag = Dag { nodes: Vec::new(), children: Vec::new(), rank: Ghost(Seq::empty()) };
        assert(dag.child_lists() =~= Seq::<Seq<usize>>::empty());
        dag
    }

    /// The position of the node with identifier `id`, if there is one.
    fn find(&self, id: &String) -> (r: Option<usize>)
        requires
            self.wf(),
        ensures
            match r {
                Some(i) => i < self.node_list().len() && self.id_at(i as int) == id@
                    && self.index_of(id@) == i,
                None => !self.has_id(id@),
            },
    {
        let mut i: usize = 0;
        while i < self.nodes.len()
            invariant
                self.wf(),
                i <= self.nodes@.len(),
                forall|j: int| 0 <= j < i ==> self.id_at(j) != id@,
            decreases self.nodes@.len() - i,
        {
            if self.nodes[i].id == *id {
                assert(self.id_at(i as int) == id@);
                return Some(i);
            }
            i = i + 1;
        }
        None
    }

    /// Whether `end` is `start` or can be reached from it along edges.
    fn has_path(&self, start: usize, end: usize) -> (r: bool)
        requires
            self.wf(),
            start < self.node_list().len(),
            end < self.node_list().len(),
        ensures
            r == reaches_or_eq(self.edges(), start as int, end as int),
    {
        if start == end {
            return true;
        }
        let seen = reachable_from(&self.children, start);
        seen[end]
    }

    /// Whether an edge from `from` to `to` would close a cycle.
    fn would_create_cycle(&self, from: usize, to: usize) -> (r: bool)
        requires
            self.wf(),
            from < self.node_list().len(),
            to < self.node_list().len(),
        ensures
            r == reaches_or_eq(self.edges(), to as int, from as int),
    {
        self.has_path(to, from)
    }

    /// Adds an edge from the node `from` to the node `to`. Refused when
    /// either node is missing, or when the edge would close a cycle.
    pub fn add_edge(&mut self, from: &str, to: &str) -> (r: Result<(), String>)
        requires
            old(self).wf(),
        ensures
            final(self).wf(),
            !old(self).has_id(from@) ==> (r matches Err(m) && m@ == msg_missing_source(from@)
                && *final(self) == *old(self)),
            old(self).has_id(from@) && !old(self).has_id(to@) ==> (r matches Err(m)
                && m@ == msg_missing_target(to@) && *final(self) == *old(self)),
            old(self).has_id(from@) && old(self).has_id(to@) && old(self).would_cycle(from@, to@) ==> (
            r matches Err(m) && m@ == msg_cycle(from@, to@) && *final(self) == *old(self)),
            old(self).has_id(from@) && old(self).has_id(to@) && !old(self).would_cycle(from@, to@) ==> {
                let f = old(self).index_of(from@);
                let t = old(self).index_of(to@);
                &&& r is Ok
                &&& final(self).node_list() == old(self).node_list()
                &&& final(self).child_lists() == old(self).child_lists().update(
                    f,
                    set_insert(old(self).child_lists()[f], t as usize),
                )
                &&& forall|a: int, b: int|
                    #[trigger] final(self).has_edge(a, b) <==> (old(self).has_edge(a, b) || (a == f && b
                        == t))
            },
    {
        let f = from.to_string();
        let t = to.to_string();
        let fi = match self.find(&f) {
            None => {
                return Err(join3("Source node '", from, "' does not exist"));
            },
            Some(i) => i,
        };
        let ti = match self.find(&t) {
            None => {
                return Err(join3("Target node '", to, "' does not exist"));
            },
            Some(i) => i,
        };
        if self.would_create_cycle(fi, ti) {
            return Err(join5("Adding edge from '", from, "' to '", to, "' would create a cycle"));
        }
        let ghost old_g = self.child_lists();
        let ghost old_e = self.edges();
        assert(old_g[fi as int] == self.children@[fi as int]@);
        if !list_contains(&self.children[fi], ti) {
            self.children[fi].push(ti);
            proof {
                lemma_adj_add_edge(old_g, fi as int, ti);
                assert(self.child_lists() =~= old_g.update(fi as int, old_g[fi as int].push(ti)));
                let rank2 = lemma_rank_after_edge(old_e, self.edges(), self.rank@, fi as int, ti as int);
                self.rank = Ghost(rank2);
                let g = self.child_lists();
                assert forall|i: int| 0 <= i < g.len() implies no_dups(#[trigger] g[i]) by {
                    assert(no_dups(old_g[i]));
                }
            }
        } else {
            proof {
                assert(old_g[fi as int].contains(ti));
                assert forall|a: int, b: int| #[trigger] self.has_edge(a, b) <==> (old_e(a, b) || (a == fi
                    && b == ti)) by {}
            }
        }
        Ok(())
    }

    /// Orders all nodes so that every edge goes from an earlier node to a
    /// later one (Kahn's algorithm). The graph never has a cycle, so this
    /// always succeeds.
    pub fn topological_sort(&self) -> (r: Result<Vec<Node>, String>)
        requires
            self.wf(),
        ensures
            match r {
                Ok(v) => exists|perm: Seq<int>|
                    #[trigger] self.is_topological_order(perm) && v@ == perm.map_values(
                        |i: int| self.node_list()[i],
                    ),
                Err(_) => false,
            },
    {
        let n = self.nodes.len();
        let ghost g = self.child_lists();
        let ghost none = Seq::new(n as nat, |i: int| false);
        // in-degree of every node
        let mut indeg = zeros(n);
        let mut y: usize = 0;
        while y < n
            invariant
                self.wf(),
                n == self.nodes@.len(),
                g == self.child_lists(),
                none.len() == n,
                forall|i: int| 0 <= i < n ==> !#[trigger] none[i],
                y <= n,
                indeg@.len() == n,
                forall|x: int| 0 <= x < n ==> #[trigger] indeg@[x] == in_count(g, none, x, y as int),
            decreases n - y,
        {
            let ch = &self.children[y];
            assert(ch@ == g[y as int]);
            let mut j: usize = 0;
            while j < ch.len()
                invariant
                    self.wf(),
                    n == self.nodes@.len(),
                    g == self.child_lists(),
                    none.len() == n,
                    forall|i: int| 0 <= i < n ==> !#[trigger] none[i],
                    y < n,
                    ch@ == g[y as int],
                    j <= ch@.len(),
                    indeg@.len() == n,
                    forall|x: int|
                        0 <= x < n ==> #[trigger] indeg@[x] == in_count(g, none, x, y as int) + if ch@.subrange(
                            0,
                            j as int,
                        ).contains(x as usize) {
                            1nat
                        } else {
                            0nat
                        },
                decreases ch@.len() - j,
            {
                let c = ch[j];
                assert(c < n) by {
                    assert(g[y as int][j as int] < g.len());
                }
                assert(!ch@.subrange(0, j as int).contains(c)) by {
                    assert(no_dups(g[y as int]));
                    if ch@.subrange(0, j as int).contains(c) {
                        let k = choose|k: int| 0 <= k < j && ch@.subrange(0, j as int)[k] == c;
                        assert(ch@[k] == ch@[j as int]);
                    }
                }
                proof {
                    lemma_in_count_le(g, none, c as int, y as int);
                }
                indeg.set(c, indeg[c] + 1);
                proof {
                    let pre = ch@.subrange(0, j as int);
                    let pre2 = ch@.subrange(0, j + 1);
                    assert forall|x: usize| #[trigger] pre2.contains(x)
                        <==> (pre.contains(x) || x == c) by {
                        if pre2.contains(x) {
                            let k = choose|k: int| 0 <= k < pre2.len() && pre2[k] == x;
                            if k < j {
                                assert(pre[k] == x);
                            }
                        }
                        if pre.contains(x) {
                            let k = choose|k: int| 0 <= k < pre.len() && pre[k] == x;
                            assert(pre2[k] == x);
                        }
                        if x == c {
                            assert(pre2[j as int] == c);
                        }
                    }
                }
                j = j + 1;
            }
            assert(ch@.subrange(0, ch@.len() as int) =~= g[y as int]);
            y = y + 1;
        }
        // the nodes nothing points to
        let mut queue: Vec<usize> = Vec::new();
        let ghost mut inq: Seq<bool> = none;
        proof {
            lemma_count_true_none(none);
        }
        let mut x: usize = 0;
        while x < n
            invariant
                self.wf(),
                n == self.nodes@.len(),
                g == self.child_lists(),
                none.len() == n,
                forall|i: int| 0 <= i < n ==> !#[trigger] none[i],
                x <= n,
                indeg@.len() == n,
                forall|z: int| 0 <= z < n ==> #[trigger] indeg@[z] == in_count(g, none, z, n as int),
                inq.len() == n,
                queue@.len() == count_true(inq),
                forall|i: int| 0 <= i < queue@.len() ==> #[trigger] queue@[i] < x,
                forall|i: int, k: int| 0 <= i < k < queue@.len() ==> queue@[i] != queue@[k],
                forall|i: int| 0 <= i < queue@.len() ==> inq[#[trigger] queue@[i] as int],
                forall|z: int| 0 <= z < n && inq[z] ==> exists|i: int| 0 <= i < queue@.len() && queue@[i] == z,
                forall|z: int| 0 <= z < n ==> (inq[z] <==> z < x && in_count(g, none, z, n as int) == 0),
            decreases n - x,
        {
            if indeg[x] == 0 {
                let ghost old_q = queue@;
                proof {
                    lemma_count_true_set(inq, x as int);
                }
                queue.push(x);
                proof {
                    inq = inq.update(x as int, true);
                    assert forall|z: int| 0 <= z < n && inq[z] implies exists|i: int|
                        0 <= i < queue@.len() && queue@[i] == z by {
                        if z == x {
                            assert(queue@[old_q.len() as int] == z);
                        } else {
                            let i = choose|i: int| 0 <= i < old_q.len() && old_q[i] == z;
                            assert(queue@[i] == z);
                        }
                    }
                }
            }
            x = x + 1;
        }
        // repeatedly take a node whose parents have all been taken
        let ghost mut done: Seq<bool> = none;
        let mut head: usize = 0;
        let mut result: Vec<Node> = Vec::new();
        proof {
            lemma_count_true_le(inq);
            assert(none =~= done);
            assert forall|i: int, k: int|
                0 <= i < k < queue@.len() implies !self.has_edge(#[trigger] queue@[k] as int, #[trigger] queue@[i] as int) by {
                let q = queue@[i];
                let p = queue@[k];
                assert(inq[q as int]);
                if self.has_edge(p as int, q as int) {
                    let kk = choose|kk: int| 0 <= kk < g[p as int].len() && g[p as int][kk] == q as int;
                    assert(g[p as int].contains(q));
                    lemma_in_count_zero(g, none, q as int, n as int, p as int);
                }
            }
        }
        while head < queue.len()
            invariant
                self.wf(),
                n == self.nodes@.len(),
                g == self.child_lists(),
                indeg@.len() == n,
                forall|z: int| 0 <= z < n ==> #[trigger] indeg@[z] == in_count(g, done, z, n as int),
                inq.len() == n,
                done.len() == n,
                queue@.len() == count_true(inq),
                queue@.len() <= n,
                head <= queue@.len(),
                forall|i: int| 0 <= i < queue@.len() ==> #[trigger] queue@[i] < n,
                forall|i: int, k: int| 0 <= i < k < queue@.len() ==> queue@[i] != queue@[k],
                forall|i: int| 0 <= i < queue@.len() ==> inq[#[trigger] queue@[i] as int],
                forall|z: int| 0 <= z < n && inq[z] ==> exists|i: int| 0 <= i < queue@.len() && queue@[i] == z,
                forall|z: int| 0 <= z < n ==> (inq[z] <==> in_count(g, done, z, n as int) == 0),
                forall|z: int|
                    0 <= z < n ==> (done[z] <==> exists|i: int| 0 <= i < head && queue@[i] == z),
                result@ == queue@.subrange(0, head as int).map_values(|i: usize| self.node_list()[i as int]),
                forall|i: int, k: int|
                    0 <= i < k < queue@.len() ==> !self.has_edge(#[trigger] queue@[k] as int, #[trigger] queue@[i] as int),
            decreases n - head,
        {
            let yy = queue[head];
            assert(!done[yy as int]) by {
                if done[yy as int] {
                    let i = choose|i: int| 0 <= i < head && queue@[i] == yy;
                }
            }
            let ghost old_done = done;
            proof {
                done = done.update(yy as int, true);
                assert forall|z: int| 0 <= z < n implies in_count(g, done, z, n as int) + (if g[yy as int].contains(z as usize) {
                    1nat
                } else {
                    0nat
                }) == in_count(g, old_done, z, n as int) by {
                    lemma_in_count_mark(g, old_done, yy as int, z, n as int);
                }
            }
            let node = Node { id: self.nodes[yy].id.clone(), data: self.nodes[yy].data.clone() };
            result.push(node);
            head = head + 1;
            proof {
                assert(result@ =~= queue@.subrange(0, head as int).map_values(|i: usize| self.node_list()[i as int]));
                assert forall|z: int| 0 <= z < n implies (done[z] <==> exists|i: int| 0 <= i < head && queue@[i] == z) by {
                    if z != yy && old_done[z] {
                        let i = choose|i: int| 0 <= i < head - 1 && queue@[i] == z;
                    }
                    if exists|i: int| 0 <= i < head && queue@[i] == z {
                        let i = choose|i: int| 0 <= i < head && queue@[i] == z;
                        if i < head - 1 {
                            assert(old_done[z]);
                        }
                    }
                }
            }
            let ch = &self.children[yy];
            assert(ch@ == g[yy as int]);
            assert(ch@.subrange(0, ch@.len() as int) =~= ch@);
            let mut j: usize = 0;
            while j < ch.len()
                invariant
                    self.wf(),
                    n == self.nodes@.len(),
                    g == self.child_lists(),
                    yy < n,
                    done.len() == n,
                    done[yy as int],
                    ch@ == g[yy as int],
                    j <= ch@.len(),
                    indeg@.len() == n,
                    forall|z: int|
                        0 <= z < n ==> #[trigger] indeg@[z] == in_count(g, done, z, n as int) + if ch@.subrange(
                            j as int,
                            ch@.len() as int,
                        ).contains(z as usize) {
                            1nat
                        } else {
                            0nat
                        },
                    inq.len() == n,
                    queue@.len() == count_true(inq),
                    queue@.len() <= n,
                    head <= queue@.len(),
                    forall|i: int| 0 <= i < queue@.len() ==> #[trigger] queue@[i] < n,
                    forall|i: int, k: int| 0 <= i < k < queue@.len() ==> queue@[i] != queue@[k],
                    forall|i: int| 0 <= i < queue@.len() ==> inq[#[trigger] queue@[i] as int],
                    forall|z: int| 0 <= z < n && inq[z] ==> exists|i: int| 0 <= i < queue@.len() && queue@[i] == z,
                    forall|z: int|
                        0 <= z < n ==> (inq[z] <==> (in_count(g, done, z, n as int) == 0 && !ch@.subrange(
                            j as int,
                            ch@.len() as int,
                        ).contains(z as usize))),
                    forall|z: int|
                        0 <= z < n ==> (done[z] <==> exists|i: int| 0 <= i < head && queue@[i] == z),
                    result@ == queue@.subrange(0, head as int).map_values(|i: usize| self.node_list()[i as int]),
                    forall|i: int, k: int|
                        0 <= i < k < queue@.len() ==> !self.has_edge(#[trigger] queue@[k] as int, #[trigger] queue@[i] as int),
                decreases ch@.len() - j,
            {
                let c = ch[j];
                assert(c < n) by {
                    assert(g[yy as int][j as int] < g.len());
                }
                let ghost rest = ch@.subrange(j as int, ch@.len() as int);
                let ghost rest2 = ch@.subrange(j + 1, ch@.len() as int);
                proof {
                    assert(rest[0] == c);
                    assert forall|z: usize| #[trigger] rest.contains(z) <==> (rest2.contains(z) || z == c) by {
                        if rest.contains(z) {
                            let k = choose|k: int| 0 <= k < rest.len() && rest[k] == z;
                            if k > 0 {
                                assert(rest2[k - 1] == z);
                            }
                        }
                        if rest2.contains(z) {
                            let k = choose|k: int| 0 <= k < rest2.len() && rest2[k] == z;
                            assert(rest[k + 1] == z);
                        }
                    }
                    assert(!rest2.contains(c)) by {
                        assert(no_dups(g[yy as int]));
                        if rest2.contains(c) {
                            let k = choose|k: int| 0 <= k < rest2.len() && rest2[k] == c;
                            assert(ch@[j + 1 + k] == ch@[j as int]);
                        }
                    }
                }
                indeg.set(c, indeg[c] - 1);
                if indeg[c] == 0 {
                    let ghost old_q = queue@;
                    proof {
                        assert(!inq[c as int]);
                        lemma_count_true_set(inq, c as int);
                        lemma_count_true_le(inq.update(c as int, true));
                        // nothing already queued is a child of `c`
                        assert forall|i: int| 0 <= i < old_q.len() implies !self.has_edge(c as int, #[trigger] old_q[i] as int) by {
                            let q = old_q[i];
                            assert(inq[q as int]);
                            if self.has_edge(c as int, q as int) {
                                let k = choose|k: int| 0 <= k < g[c as int].len() && g[c as int][k] == q as int;
                                assert(g[c as int].contains(q));
                                if q == c {
                                    assert(rest.contains(q));
                                } else {
                                    assert(!rest.contains(q));
                                    lemma_in_count_zero(g, done, q as int, n as int, c as int);
                                    let i2 = choose|i2: int| 0 <= i2 < head && queue@[i2] == c;
                                }
                            }
                        }
                    }
                    queue.push(c);
                    proof {
                        inq = inq.update(c as int, true);
                        assert forall|z: int| 0 <= z < n && inq[z] implies exists|i: int|
                            0 <= i < queue@.len() && queue@[i] == z by {
                            if z == c {
                                assert(queue@[old_q.len() as int] == z);
                            } else {
                                let i = choose|i: int| 0 <= i < old_q.len() && old_q[i] == z;
                                assert(queue@[i] == z);
                            }
                        }
                        assert(queue@.subrange(0, head as int) =~= old_q.subrange(0, head as int));
                        assert forall|z: int| 0 <= z < n implies (done[z] <==> exists|i: int| 0 <= i < head && queue@[i] == z) by {
                            if exists|i: int| 0 <= i < head && queue@[i] == z {
                                let i = choose|i: int| 0 <= i < head && queue@[i] == z;
                                assert(old_q[i] == z);
                            }
                            if done[z] {
                                let i = choose|i: int| 0 <= i < head && old_q[i] == z;
                                assert(queue@[i] == z);
                            }
                        }
                    }
                }
                j = j + 1;
            }
            proof {
                assert(ch@.subrange(ch@.len() as int, ch@.len() as int).len() == 0);
            }
        }
        // every node has been taken: otherwise the one of least rank among
        // those left would have a parent left, of smaller rank
        proof {
            if queue@.len() < n {
                let z0 = lemma_count_true_lt(inq);
                let pred = |z: int| !inq[z];
                assert(pred(z0));
                let x = lemma_min_rank(self.rank@, pred, n as int);
                let z = lemma_in_count_pos(g, done, x, n as int);
                assert(g[z].contains(x as usize));
                let k = choose|k: int| 0 <= k < g[z].len() && g[z][k] == x as usize;
                assert(self.has_edge(z, x));
                if inq[z] {
                    let i = choose|i: int| 0 <= i < queue@.len() && queue@[i] == z;
                    assert(done[z]);
                }
                assert(pred(z));
            }
        }
        if result.len() != n {
            return Err("DAG contains a cycle".to_string());
        }
        proof {
            let perm = queue@.map_values(|i: usize| i as int);
            assert(queue@.subrange(0, head as int) =~= queue@);
            assert(result@ =~= perm.map_values(|i: int| self.node_list()[i]));
            assert forall|i: int, k: int|
                0 <= i < perm.len() && 0 <= k < perm.len() && self.has_edge(perm[i], perm[k]) implies i < k by {
                if i == k {
                    lemma_ranked_acyclic(self.edges(), self.rank@);
                    assert(self.rank@[perm[i]] < self.rank@[perm[k]]);
                }
                if k < i {
                    assert(!self.has_edge(queue@[i] as int, queue@[k] as int));
                }
            }
            assert(self.is_topological_order(perm));
        }
        Ok(result)
    }

    /// References to all nodes, in the order they were added.
    pub fn get_nodes(&self) -> (r: Vec<&Node>)
        requires
            self.wf(),
        ensures
            r@.len() == self.node_list().len(),
            forall|i: int| 0 <= i < r@.len() ==> *r@[i] == self.node_list()[i],
    {
        let mut r: Vec<&Node> = Vec::new();
        let mut i: usize = 0;
        while i < self.nodes.len()
            invariant
                i <= self.nodes@.len(),
                r@.len() == i,
                forall|j: int| 0 <= j < i ==> *r@[j] == self.nodes@[j],
            decreases self.nodes@.len() - i,
        {
            r.push(&self.nodes[i]);
            i = i + 1;
        }
        r
    }

    /// The children of the node `node_id`, in the order their edges were
    /// added; `None` when there is no such node.
    pub fn get_children(&self, node_id: &str) -> (r: Option<Vec<&Node>>)
        requires
            self.wf(),
        ensures
            !self.has_id(node_id@) ==> r is None,
            self.has_id(node_id@) ==> (r matches Some(v) && {
                let ch = self.child_lists()[self.index_of(node_id@)];
                &&& v@.len() == ch.len()
                &&& forall|j: int| 0 <= j < v@.len() ==> *v@[j] == self.node_list()[ch[j] as int]
                &&& forall|j: int, k: int|
                    0 <= j < k < v@.len() ==> ch[j] != ch[k] && (*v@[j]).id@ != (*v@[k]).id@
                &&& forall|j: int| 0 <= j < ch.len() ==> #[trigger] ch[j] < self.node_list().len()
                &&& forall|c: int|
                    0 <= c < self.node_list().len() ==> (#[trigger] self.has_edge(self.index_of(node_id@), c)
                        <==> ch.contains(c as usize))
            }),
    {
        let id = node_id.to_string();
        match self.find(&id) {
            None => None,
            Some(i) => {
                let ch = &self.children[i];
                assert(ch@ == self.child_lists()[i as int]);
                let mut v: Vec<&Node> = Vec::new();
                let mut j: usize = 0;
                while j < ch.len()
                    invariant
                        self.wf(),
                        i < self.nodes@.len(),
                        ch@ == self.child_lists()[i as int],
                        j <= ch@.len(),
                        v@.len() == j,
                        forall|k: int| 0 <= k < j ==> *v@[k] == self.nodes@[ch@[k] as int],
                    decreases ch@.len() - j,
                {
                    let c = ch[j];
                    assert(c < self.nodes@.len()) by {
                        assert(self.child_lists()[i as int][j as int] < self.child_lists().len());
                    }
                    v.push(&self.nodes[c]);
                    j = j + 1;
                }
                proof {
                    assert(self.nodes@.len() == self.nodes.len());
                    assert forall|c: int| 0 <= c < self.nodes@.len() implies (#[trigger] self.has_edge(i as int, c)
                        <==> ch@.contains(c as usize)) by {
                        if ch@.contains(c as usize) {
                            let q = choose|q: int| 0 <= q < ch@.len() && ch@[q] == c as usize;
                            assert(self.child_lists()[i as int][q] == c);
                        }
                        if self.has_edge(i as int, c) {
                            let q = choose|q: int| 0 <= q < self.child_lists()[i as int].len() && self.child_lists()[i as int][q] == c;
                            assert(ch@[q] == c as usize);
                        }
                    }
                    assert forall|q: int| 0 <= q < ch@.len() implies #[trigger] ch@[q] < self.nodes@.len() by {
                        assert(self.child_lists()[i as int][q] < self.child_lists().len());
                    }
                    assert(no_dups(ch@));
                    assert forall|a: int, b: int| 0 <= a < b < v@.len() implies ch@[a] != ch@[b] && (*v@[a]).id@
                        != (*v@[b]).id@ by {
                        let x = ch@[a] as int;
                        let y = ch@[b] as int;
                        assert(ch@[a] < self.child_lists().len());
                        assert(ch@[b] < self.child_lists().len());
                        if x < y {
                            assert(self.nodes@[x].id@ != self.nodes@[y].id@);
                        } else {
                            assert(self.nodes@[y].id@ != self.nodes@[x].id@);
                        }
                    }
                }
                Some(v)
            },
        }
    }

    /// The number of nodes.
    pub fn node_count(&self) -> (r: usize)
        requires
            self.wf(),
        ensures
            r == self.node_list().len(),
    {
        self.nodes.len()
    }

    /// The number of edges.
    pub fn edge_count(&self) -> (r: usize)
        requires
            self.wf(),
            self.edge_total() <= usize::MAX,
        ensures
            r == self.edge_total(),
    {
        let mut total: usize = 0;
        let mut i: usize = 0;
        proof {
            lemma_total_len_mono(self.child_lists(), 0, self.children@.len() as int);
        }
        while i < self.children.len()
            invariant
                self.wf(),
                i <= self.children@.len(),
                total == total_len(self.child_lists().take(i as int)),
                self.edge_total() <= usize::MAX,
            decreases self.children@.len() - i,
        {
            proof {
                let ls = self.child_lists();
                assert(ls.take(i + 1).drop_last() =~= ls.take(i as int));
                lemma_total_len_mono(ls, i + 1, ls.len() as int);
                assert(ls.take(ls.len() as int) =~= ls);
            }
            total = total + self.children[i].len();
            i = i + 1;
        }
        assert(self.child_lists().take(i as int) =~= self.child_lists());
        total
    }

    /// Adds a node; refused when a node with the same identifier exists.
    pub fn add_node(&mut self, node: Node) -> (r: Result<(), String>)
        requires
            old(self).wf(),
        ensures
            final(self).wf(),
            old(self).has_id(node.id@) ==> (r matches Err(m) && m@ == msg_duplicate_node(node.id@)
                && *final(self) == *old(self)),
            !old(self).has_id(node.id@) ==> r is Ok
                && final(self).node_list() == old(self).node_list().push(node)
                && final(self).child_lists() == old(self).child_lists().push(Seq::<usize>::empty()),
    {
        let found = self.find(&node.id);
        if found.is_some() {
            return Err(join3("Node with id '", node.id.as_str(), "' already exists"));
        }
        let ghost old_g = self.child_lists();
        self.nodes.push(node);
        self.children.push(Vec::new());
        self.rank = Ghost(self.rank@.push(0));
        proof {
            let g = self.child_lists();
            assert(g =~= old_g.push(Seq::<usize>::empty()));
            lemma_adj_push_empty(old_g);
            assert forall|i: int| 0 <= i < g.len() implies no_dups(#[trigger] g[i]) by {
                if i < old_g.len() {
                    assert(no_dups(old_g[i]));
                }
            }
            assert(ranked(self.edges(), self.rank@));
            let n = self.nodes@.len();
            assert forall|i: int, j: int| 0 <= i < j < n implies self.nodes@[i].id@ != self.nodes@[j].id@ by {
                if j == n - 1 {
                    assert(old(self).id_at(i) == self.nodes@[i].id@);
                }
            }
            assert(self.children@.len() == n);
            assert(self.rank@.len() == n);
            assert(adj_ok(self.child_lists()));
        }
        Ok(())
    }
}

/// The graph never has a cycle: no node can reach itself by following
/// edges, whatever sequence of successful or refused operations built it.
pub proof fn lemma_dag_is_acyclic(dag: &Dag)
    requires
        dag.wf(),
    ensures
        acyclic(dag.edges()),
{
    lemma_ranked_acyclic(dag.edges(), dag.rank@);
}

impl Default for Dag {
    /// An empty graph.
    fn default() -> (dag: Dag)
        ensures
            dag.wf(),
            dag.node_list() == Seq::<Node>::empty(),
            dag.child_lists() == Seq::<Seq<usize>>::empty(),
    {
        Dag::new()
    }
}

} // verus!

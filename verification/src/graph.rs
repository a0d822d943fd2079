//! Directed graphs on the vertices `0..n`, given as adjacency lists:
//! walks, reachability, and a breadth-first search that computes every
//! vertex reachable from a start vertex in one step or more.
use vstd::prelude::*;

verus! {

/// The adjacency lists held in a vector of vectors.
pub open spec fn lists(adj: Seq<Vec<usize>>) -> Seq<Seq<usize>> {
    adj.map_values(|v: Vec<usize>| v@)
}

/// `s` has no element twice.
pub open spec fn no_dups(s: Seq<usize>) -> bool {
    forall|i: int, j: int| 0 <= i < j < s.len() ==> s[i] != s[j]
}

/// `s` with `x` added at the end unless it is there already.
pub open spec fn set_insert(s: Seq<usize>, x: usize) -> Seq<usize> {
    if s.contains(x) {
        s
    } else {
        s.push(x)
    }
}

/// Whether `x` is in `v`.
pub fn list_contains(v: &Vec<usize>, x: usize) -> (r: bool)
    ensures
        r == v@.contains(x),
{
    let mut i: usize = 0;
    while i < v.len()
        invariant
            i <= v@.len(),
            forall|j: int| 0 <= j < i ==> v@[j] != x,
        decreases v@.len() - i,
    {
        if v[i] == x {
            assert(v@[i as int] == x);
            return true;
        }
        i = i + 1;
    }
    false
}

/// Every entry of every adjacency list names a vertex of the graph.
pub open spec fn adj_ok(adj: Seq<Seq<usize>>) -> bool {
    forall|i: int, j: int|
        0 <= i < adj.len() && 0 <= j < adj[i].len() ==> (#[trigger] adj[i][j]) < adj.len()
}

/// The edge relation that the adjacency lists `adj` describe.
pub open spec fn adj_edge(adj: Seq<Seq<usize>>) -> spec_fn(int, int) -> bool {
    |a: int, b: int|
        0 <= a < adj.len() && 0 <= b < adj.len() && exists|j: int| 0 <= j < adj[a].len() && adj[a][j] == b
}

/// Adding a vertex with no edges adds no edge and keeps the lists well formed.
pub proof fn lemma_adj_push_empty(g: Seq<Seq<usize>>)
    requires
        adj_ok(g),
    ensures
        adj_ok(g.push(Seq::<usize>::empty())),
        forall|a: int, b: int| #[trigger] adj_edge(g.push(Seq::<usize>::empty()))(a, b) <==> adj_edge(g)(a, b),
{
    let h = g.push(Seq::<usize>::empty());
    assert forall|a: int, b: int| #[trigger] adj_edge(h)(a, b) <==> adj_edge(g)(a, b) by {
        if 0 <= a < g.len() {
            assert(h[a] == g[a]);
            if adj_edge(h)(a, b) {
                let j = choose|j: int| 0 <= j < h[a].len() && h[a][j] == b;
                assert(g[a][j] < g.len());
            }
        }
    }
    assert forall|i: int, j: int| 0 <= i < h.len() && 0 <= j < h[i].len() implies (#[trigger] h[i][j]) < h.len() by {
        if i < g.len() {
            assert(h[i] == g[i]);
            assert(g[i][j] < g.len());
        }
    }
}

/// Adding the edge `(f, t)` to lists that lack it.
pub proof fn lemma_adj_add_edge(g: Seq<Seq<usize>>, f: int, t: usize)
    requires
        adj_ok(g),
        0 <= f < g.len(),
        0 <= t < g.len(),
    ensures
        adj_ok(g.update(f, g[f].push(t))),
        forall|a: int, b: int| #[trigger] adj_edge(g.update(f, g[f].push(t)))(a, b)
            <==> (adj_edge(g)(a, b) || (a == f && b == t)),
{
    let h = g.update(f, g[f].push(t));
    assert forall|a: int, b: int| #[trigger] adj_edge(h)(a, b) <==> (adj_edge(g)(a, b) || (a == f && b == t)) by {
        if a == f {
            if adj_edge(h)(a, b) && b != t {
                let j = choose|j: int| 0 <= j < h[a].len() && h[a][j] == b;
                if j == g[a].len() {
                    assert(h[a][j] == t);
                }
                assert(g[a][j] == b);
            }
            if adj_edge(g)(a, b) {
                let j = choose|j: int| 0 <= j < g[a].len() && g[a][j] == b;
                assert(h[a][j] == b);
            }
            if b == t {
                assert(h[a][g[a].len() as int] == t);
            }
        } else if 0 <= a < g.len() {
            assert(h[a] == g[a]);
        }
    }
    assert forall|i: int, j: int| 0 <= i < h.len() && 0 <= j < h[i].len() implies (#[trigger] h[i][j]) < h.len() by {
        if i == f {
            if j < g[f].len() {
                assert(g[i][j] < g.len());
            }
        } else {
            assert(g[i][j] < g.len());
        }
    }
}

/// A rank for a graph with one more edge `(f, t)`, where `t` does not
/// reach `f`: vertices that `t` reaches are lifted above `f`.
pub proof fn lemma_rank_after_edge(
    e: spec_fn(int, int) -> bool,
    e2: spec_fn(int, int) -> bool,
    rank: Seq<int>,
    f: int,
    t: int,
) -> (rank2: Seq<int>)
    requires
        ranked(e, rank),
        forall|a: int, b: int| #[trigger] e2(a, b) <==> (e(a, b) || (a == f && b == t)),
        !reaches_or_eq(e, t, f),
        0 <= f < rank.len(),
        0 <= t < rank.len(),
    ensures
        ranked(e2, rank2),
        rank2.len() == rank.len(),
{
    let c: int = if rank[f] >= rank[t] { rank[f] - rank[t] + 1 } else { 0 };
    let rank2 = Seq::new(rank.len(), |x: int| if reaches_or_eq(e, t, x) { rank[x] + c } else { rank[x] });
    assert forall|a: int, b: int| #[trigger] e2(a, b) implies 0 <= a < rank2.len() && 0 <= b < rank2.len()
        && rank2[a] < rank2[b] by {
        if e(a, b) {
            if reaches_or_eq(e, t, a) {
                lemma_edge_reaches(e, a, b);
                lemma_reaches_trans(e, t, a, b);
            }
        }
    }
    rank2
}

/// `p` is a walk along edges of `e`: it has at least one vertex and each
/// vertex is joined to the next by an edge.
pub open spec fn is_walk(e: spec_fn(int, int) -> bool, p: Seq<int>) -> bool
    decreases p.len(),
{
    p.len() >= 1 && (p.len() == 1 || (e(p[0], p[1]) && is_walk(e, p.drop_first())))
}

/// `p` is a walk from `a` to `b` of at least one edge.
pub open spec fn is_path(e: spec_fn(int, int) -> bool, p: Seq<int>, a: int, b: int) -> bool {
    is_walk(e, p) && p.len() >= 2 && p[0] == a && p.last() == b
}

/// `b` can be reached from `a` by following one edge of `e` or more.
pub open spec fn reaches(e: spec_fn(int, int) -> bool, a: int, b: int) -> bool {
    exists|p: Seq<int>| #[trigger] is_path(e, p, a, b)
}

/// `b` is `a`, or can be reached from `a` along edges of `e`.
pub open spec fn reaches_or_eq(e: spec_fn(int, int) -> bool, a: int, b: int) -> bool {
    a == b || reaches(e, a, b)
}

/// Two walks, the second starting where the first ends, make one walk.
pub proof fn lemma_walk_concat(e: spec_fn(int, int) -> bool, p: Seq<int>, q: Seq<int>)
    requires
        is_walk(e, p),
        is_walk(e, q),
        p.last() == q[0],
    ensures
        is_walk(e, p + q.drop_first()),
        (p + q.drop_first()).len() == p.len() + q.len() - 1,
        (p + q.drop_first())[0] == p[0],
        (p + q.drop_first()).last() == q.last(),
    decreases p.len(),
{
    if p.len() == 1 {
        assert(p + q.drop_first() =~= q);
    } else {
        lemma_walk_concat(e, p.drop_first(), q);
        assert((p + q.drop_first()).drop_first() =~= p.drop_first() + q.drop_first());
    }
}

/// Reachability is transitive.
pub proof fn lemma_reaches_trans(e: spec_fn(int, int) -> bool, a: int, b: int, c: int)
    requires
        reaches_or_eq(e, a, b),
        reaches_or_eq(e, b, c),
    ensures
        reaches_or_eq(e, a, c),
        reaches(e, a, b) || reaches(e, b, c) ==> reaches(e, a, c),
{
    if a != b && b != c {
        let p = choose|p: Seq<int>| #[trigger] is_path(e, p, a, b);
        let q = choose|q: Seq<int>| #[trigger] is_path(e, q, b, c);
        lemma_walk_concat(e, p, q);
        assert(is_path(e, p + q.drop_first(), a, c));
    }
}

/// One edge is a walk.
pub proof fn lemma_edge_reaches(e: spec_fn(int, int) -> bool, a: int, b: int)
    requires
        e(a, b),
    ensures
        reaches(e, a, b),
{
    let p = seq![a, b];
    assert(p.drop_first() =~= seq![b]);
    assert(is_walk(e, seq![b]));
    assert(is_path(e, p, a, b));
}

/// A set of vertices closed under the edges holds every vertex of a walk
/// that starts in it.
pub proof fn lemma_closed_walk(e: spec_fn(int, int) -> bool, s: spec_fn(int) -> bool, p: Seq<int>)
    requires
        s(p[0]),
        forall|x: int, y: int| s(x) && #[trigger] e(x, y) ==> s(y),
        is_walk(e, p),
    ensures
        s(p.last()),
    decreases p.len(),
{
    if p.len() > 1 {
        lemma_closed_walk(e, s, p.drop_first());
    }
}

/// A set that holds the successors of `a` and is closed under the edges
/// holds every vertex that `a` reaches.
pub proof fn lemma_closed_reaches(e: spec_fn(int, int) -> bool, s: spec_fn(int) -> bool, a: int, b: int)
    requires
        forall|y: int| #[trigger] e(a, y) ==> s(y),
        forall|x: int, y: int| s(x) && #[trigger] e(x, y) ==> s(y),
        reaches(e, a, b),
    ensures
        s(b),
{
    let p = choose|p: Seq<int>| #[trigger] is_path(e, p, a, b);
    assert(e(p[0], p[1]));
    lemma_closed_walk(e, s, p.drop_first());
}

/// A walk of `e` read backwards is a walk of the reversed edges `f`.
pub proof fn lemma_walk_reverse(e: spec_fn(int, int) -> bool, f: spec_fn(int, int) -> bool, p: Seq<int>)
    requires
        forall|x: int, y: int| #[trigger] e(x, y) ==> f(y, x),
        is_walk(e, p),
    ensures
        is_walk(f, p.reverse()),
    decreases p.len(),
{
    if p.len() == 1 {
        assert(p.reverse() =~= p);
        assert(is_walk(f, p.reverse()));
    } else {
        let r = p.drop_first();
        lemma_walk_reverse(e, f, r);
        let w = r.reverse();
        let q = seq![p[1], p[0]];
        assert(e(p[0], p[1]));
        assert(q.drop_first() =~= seq![p[0]]);
        assert(is_walk(f, seq![p[0]]));
        assert(is_walk(f, q));
        assert(w.last() == r[0]);
        lemma_walk_concat(f, w, q);
        assert(w + q.drop_first() =~= p.reverse());
    }
}

/// Reversing every edge reverses reachability.
pub proof fn lemma_reaches_reverse(e: spec_fn(int, int) -> bool, f: spec_fn(int, int) -> bool, a: int, b: int)
    requires
        forall|x: int, y: int| #[trigger] e(x, y) ==> f(y, x),
        reaches(e, a, b),
    ensures
        reaches(f, b, a),
{
    let p = choose|p: Seq<int>| #[trigger] is_path(e, p, a, b);
    lemma_walk_reverse(e, f, p);
    assert(is_path(f, p.reverse(), b, a));
}

/// `rank` grows strictly along every edge of `e`.
pub open spec fn ranked(e: spec_fn(int, int) -> bool, rank: Seq<int>) -> bool {
    forall|a: int, b: int| #[trigger] e(a, b) ==> 0 <= a < rank.len() && 0 <= b < rank.len() && rank[a] < rank[b]
}

/// No vertex reaches itself.
pub open spec fn acyclic(e: spec_fn(int, int) -> bool) -> bool {
    forall|x: int| !#[trigger] reaches(e, x, x)
}

/// Rank grows strictly along a walk.
pub proof fn lemma_walk_rank(e: spec_fn(int, int) -> bool, rank: Seq<int>, p: Seq<int>)
    requires
        ranked(e, rank),
        is_walk(e, p),
        p.len() >= 2,
    ensures
        rank[p[0]] < rank[p.last()],
    decreases p.len(),
{
    assert(e(p[0], p[1]));
    if p.len() > 2 {
        lemma_walk_rank(e, rank, p.drop_first());
    }
}

/// A graph with a rank that grows along its edges has no cycle.
pub proof fn lemma_ranked_acyclic(e: spec_fn(int, int) -> bool, rank: Seq<int>)
    requires
        ranked(e, rank),
    ensures
        acyclic(e),
{
    assert forall|x: int| !#[trigger] reaches(e, x, x) by {
        if reaches(e, x, x) {
            let p = choose|p: Seq<int>| #[trigger] is_path(e, p, x, x);
            lemma_walk_rank(e, rank, p);
        }
    }
}

/// Among the vertices below `n` that satisfy `pred`, if there is one, one
/// has the least rank.
pub proof fn lemma_min_rank(rank: Seq<int>, pred: spec_fn(int) -> bool, n: int) -> (x: int)
    requires
        0 <= n <= rank.len(),
        exists|y: int| 0 <= y < n && #[trigger] pred(y),
    ensures
        0 <= x < n,
        pred(x),
        forall|y: int| 0 <= y < n && #[trigger] pred(y) ==> rank[x] <= rank[y],
    decreases n,
{
    if exists|y: int| 0 <= y < n - 1 && #[trigger] pred(y) {
        let z = lemma_min_rank(rank, pred, n - 1);
        if pred(n - 1) && rank[n - 1] < rank[z] {
            n - 1
        } else {
            z
        }
    } else {
        n - 1
    }
}

/// How many of the vertices below `m` that are not `done` have an edge to `x`.
pub open spec fn in_count(g: Seq<Seq<usize>>, done: Seq<bool>, x: int, m: int) -> nat
    decreases m,
{
    if m <= 0 {
        0
    } else {
        in_count(g, done, x, m - 1) + if !done[m - 1] && g[m - 1].contains(x as usize) {
            1nat
        } else {
            0nat
        }
    }
}

pub proof fn lemma_in_count_le(g: Seq<Seq<usize>>, done: Seq<bool>, x: int, m: int)
    requires
        m >= 0,
    ensures
        in_count(g, done, x, m) <= m,
    decreases m,
{
    if m > 0 {
        lemma_in_count_le(g, done, x, m - 1);
    }
}

/// Marking one more vertex `y` as done removes its edge to `x` from the count.
pub proof fn lemma_in_count_mark(g: Seq<Seq<usize>>, done: Seq<bool>, y: int, x: int, m: int)
    requires
        0 <= y < done.len(),
        !done[y],
        0 <= m <= done.len(),
    ensures
        in_count(g, done.update(y, true), x, m) + (if y < m && g[y].contains(x as usize) {
            1nat
        } else {
            0nat
        }) == in_count(g, done, x, m),
    decreases m,
{
    if m > 0 {
        lemma_in_count_mark(g, done, y, x, m - 1);
    }
}

/// With no count left, every vertex below `m` with an edge to `x` is done.
pub proof fn lemma_in_count_zero(g: Seq<Seq<usize>>, done: Seq<bool>, x: int, m: int, z: int)
    requires
        in_count(g, done, x, m) == 0,
        0 <= z < m,
        g[z].contains(x as usize),
    ensures
        done[z],
    decreases m,
{
    if z < m - 1 {
        lemma_in_count_zero(g, done, x, m - 1, z);
    }
}

/// A count above zero has a vertex behind it.
pub proof fn lemma_in_count_pos(g: Seq<Seq<usize>>, done: Seq<bool>, x: int, m: int) -> (z: int)
    requires
        in_count(g, done, x, m) > 0,
    ensures
        0 <= z < m,
        !done[z],
        g[z].contains(x as usize),
    decreases m,
{
    if !done[m - 1] && g[m - 1].contains(x as usize) {
        m - 1
    } else {
        lemma_in_count_pos(g, done, x, m - 1)
    }
}

/// How many of the integers `0..n` satisfy `f`.
pub open spec fn count_where(n: int, f: spec_fn(int) -> bool) -> nat
    decreases n,
{
    if n <= 0 {
        0
    } else {
        count_where(n - 1, f) + if f(n - 1) {
            1nat
        } else {
            0nat
        }
    }
}

pub proof fn lemma_count_where_le(n: int, f: spec_fn(int) -> bool)
    requires
        n >= 0,
    ensures
        count_where(n, f) <= n,
    decreases n,
{
    if n > 0 {
        lemma_count_where_le(n - 1, f);
    }
}

/// Counts agree when the predicates agree below `n`.
pub proof fn lemma_count_where_ext(n: int, f: spec_fn(int) -> bool, h: spec_fn(int) -> bool)
    requires
        forall|i: int| 0 <= i < n ==> #[trigger] f(i) == h(i),
    ensures
        count_where(n, f) == count_where(n, h),
    decreases n,
{
    if n > 0 {
        lemma_count_where_ext(n - 1, f, h);
    }
}

/// Two predicates that differ only at `c`, where the first holds.
pub proof fn lemma_count_where_flip(n: int, f: spec_fn(int) -> bool, h: spec_fn(int) -> bool, c: int)
    requires
        0 <= c < n,
        f(c),
        !h(c),
        forall|i: int| 0 <= i < n && i != c ==> #[trigger] f(i) == h(i),
    ensures
        count_where(n, f) == count_where(n, h) + 1,
    decreases n,
{
    if n - 1 == c {
        lemma_count_where_ext(n - 1, f, h);
    } else {
        lemma_count_where_flip(n - 1, f, h, c);
    }
}

/// The number of entries of `s` above zero.
pub open spec fn positives(s: Seq<usize>) -> nat {
    count_where(s.len() as int, |i: int| s[i] > 0)
}

/// Removing entry `pos` of a list without repetition by moving the last
/// entry into its place.
pub proof fn lemma_swap_remove(s: Seq<usize>, pos: int)
    requires
        no_dups(s),
        0 <= pos < s.len(),
    ensures
        no_dups(s.update(pos, s.last()).drop_last()),
        s.update(pos, s.last()).drop_last().len() == s.len() - 1,
        forall|x: usize| #[trigger] s.update(pos, s.last()).drop_last().contains(x) <==> (s.contains(x) && x != s[pos]),
{
    let t = s.update(pos, s.last()).drop_last();
    assert forall|i: int, j: int| 0 <= i < j < t.len() implies t[i] != t[j] by {
        if i == pos {
            assert(t[i] == s[s.len() - 1]);
            assert(t[j] == s[j]);
        } else if j == pos {
            assert(t[j] == s[s.len() - 1]);
            assert(t[i] == s[i]);
        } else {
            assert(t[i] == s[i]);
            assert(t[j] == s[j]);
        }
    }
    assert forall|x: usize| #[trigger] t.contains(x) <==> (s.contains(x) && x != s[pos]) by {
        if t.contains(x) {
            let i = choose|i: int| 0 <= i < t.len() && t[i] == x;
            if i == pos {
                assert(s[s.len() - 1] == x);
                assert(s.len() - 1 != pos);
            } else {
                assert(s[i] == x);
            }
        }
        if s.contains(x) && x != s[pos] {
            let i = choose|i: int| 0 <= i < s.len() && s[i] == x;
            if i == s.len() - 1 {
                assert(t[pos] == x);
            } else {
                assert(t[i] == x);
            }
        }
    }
}

/// A predicate that implies another, and fails somewhere the other holds,
/// counts fewer.
pub proof fn lemma_count_where_fewer(n: int, f: spec_fn(int) -> bool, h: spec_fn(int) -> bool, c: int)
    requires
        forall|i: int| 0 <= i < n && #[trigger] f(i) ==> h(i),
        0 <= c < n,
        h(c),
        !f(c),
    ensures
        count_where(n, f) < count_where(n, h),
    decreases n,
{
    if n - 1 == c {
        lemma_count_where_mono(n - 1, f, h);
    } else {
        lemma_count_where_fewer(n - 1, f, h, c);
    }
}

/// Nothing is counted where the predicate never holds.
pub proof fn lemma_count_where_none(n: int, f: spec_fn(int) -> bool)
    requires
        forall|i: int| 0 <= i < n ==> !#[trigger] f(i),
    ensures
        count_where(n, f) == 0,
    decreases n,
{
    if n > 0 {
        lemma_count_where_none(n - 1, f);
    }
}

pub proof fn lemma_count_where_mono(n: int, f: spec_fn(int) -> bool, h: spec_fn(int) -> bool)
    requires
        forall|i: int| 0 <= i < n && #[trigger] f(i) ==> h(i),
    ensures
        count_where(n, f) <= count_where(n, h),
    decreases n,
{
    if n > 0 {
        lemma_count_where_mono(n - 1, f, h);
    }
}

/// The number of `true` entries of `s`.
pub open spec fn count_true(s: Seq<bool>) -> nat
    decreases s.len(),
{
    if s.len() == 0 {
        0
    } else {
        count_true(s.drop_last()) + if s.last() {
            1nat
        } else {
            0nat
        }
    }
}

pub proof fn lemma_count_true_le(s: Seq<bool>)
    ensures
        count_true(s) <= s.len(),
    decreases s.len(),
{
    if s.len() > 0 {
        lemma_count_true_le(s.drop_last());
    }
}

pub proof fn lemma_count_true_set(s: Seq<bool>, i: int)
    requires
        0 <= i < s.len(),
        !s[i],
    ensures
        count_true(s.update(i, true)) == count_true(s) + 1,
    decreases s.len(),
{
    let t = s.update(i, true);
    if i == s.len() - 1 {
        assert(t.drop_last() =~= s.drop_last());
    } else {
        assert(t.drop_last() =~= s.drop_last().update(i, true));
        lemma_count_true_set(s.drop_last(), i);
    }
}

/// No `true` entry: the count is zero.
pub proof fn lemma_count_true_none(s: Seq<bool>)
    requires
        forall|i: int| 0 <= i < s.len() ==> !#[trigger] s[i],
    ensures
        count_true(s) == 0,
    decreases s.len(),
{
    if s.len() > 0 {
        lemma_count_true_none(s.drop_last());
    }
}

/// Fewer `true` entries than entries: some entry is `false`.
pub proof fn lemma_count_true_lt(s: Seq<bool>) -> (i: int)
    requires
        count_true(s) < s.len(),
    ensures
        0 <= i < s.len(),
        !s[i],
    decreases s.len(),
{
    if !s.last() {
        s.len() - 1
    } else {
        let i = lemma_count_true_lt(s.drop_last());
        i
    }
}

/// A vector of `n` zeros.
pub fn zeros(n: usize) -> (v: Vec<usize>)
    ensures
        v@.len() == n,
        forall|i: int| 0 <= i < n ==> v@[i] == 0,
{
    let mut v: Vec<usize> = Vec::new();
    let mut i: usize = 0;
    while i < n
        invariant
            i <= n,
            v@.len() == i,
            forall|j: int| 0 <= j < i ==> v@[j] == 0,
        decreases n - i,
    {
        v.push(0);
        i = i + 1;
    }
    v
}

/// A vector of `n` copies of `false`.
pub fn all_false(n: usize) -> (v: Vec<bool>)
    ensures
        v@.len() == n,
        forall|i: int| 0 <= i < n ==> !v@[i],
        count_true(v@) == 0,
{
    let mut v: Vec<bool> = Vec::new();
    let mut i: usize = 0;
    while i < n
        invariant
            i <= n,
            v@.len() == i,
            forall|j: int| 0 <= j < i ==> !v@[j],
            count_true(v@) == 0,
        decreases n - i,
    {
        let ghost before = v@;
        v.push(false);
        assert(v@.drop_last() =~= before);
        i = i + 1;
    }
    v
}

/// Breadth-first search: which vertices can be reached from `start` by
/// following one edge of `adj` or more.
pub fn reachable_from(adj: &Vec<Vec<usize>>, start: usize) -> (seen: Vec<bool>)
    requires
        adj_ok(lists(adj@)),
        start < adj.len(),
    ensures
        seen@.len() == adj.len(),
        forall|y: int|
            0 <= y < adj.len() ==> (seen@[y] <==> reaches(adj_edge(lists(adj@)), start as int, y)),
{
    let ghost g = lists(adj@);
    let ghost e = adj_edge(g);
    let n = adj.len();
    let mut seen = all_false(n);
    let mut queue: Vec<usize> = Vec::new();
    let mut head: usize = 0;
    let mut first = true;
    let mut cur: usize = start;
    loop
        invariant
            g == lists(adj@),
            e == adj_edge(g),
            adj_ok(g),
            n == adj.len(),
            start < n,
            seen@.len() == n,
            head <= queue.len(),
            queue.len() == count_true(seen@),
            queue.len() <= n,
            first ==> head == 0 && queue.len() == 0 && cur == start,
            !first ==> head >= 1 && cur == queue@[head - 1],
            cur < n,
            forall|i: int| 0 <= i < queue.len() ==> (#[trigger] queue@[i]) < n && seen@[queue@[i] as int],
            forall|y: int| 0 <= y < n && seen@[y] ==> exists|i: int| 0 <= i < queue.len() && queue@[i] == y,
            forall|y: int| 0 <= y < n && seen@[y] ==> reaches(e, start as int, y),
            !first ==> forall|y: int| #[trigger] e(start as int, y) ==> seen@[y],
            forall|i: int, y: int| 0 <= i < head - 1 && #[trigger] e(queue@[i] as int, y) ==> seen@[y],
            !first ==> reaches_or_eq(e, start as int, cur as int),
        decreases n - head,
    {
        // visit the successors of `cur`
        let succ = &adj[cur];
        assert(succ@ == g[cur as int]);
        let mut j: usize = 0;
        while j < succ.len()
            invariant
                g == lists(adj@),
                e == adj_edge(g),
                adj_ok(g),
                n == adj.len(),
                start < n,
                cur < n,
                succ@ == g[cur as int],
                j <= succ.len(),
                seen@.len() == n,
                head <= queue.len(),
                queue.len() == count_true(seen@),
                first ==> head == 0 && cur == start,
                !first ==> head >= 1 && cur == queue@[head - 1],
                forall|i: int| 0 <= i < queue.len() ==> (#[trigger] queue@[i]) < n && seen@[queue@[i] as int],
                forall|y: int| 0 <= y < n && seen@[y] ==> exists|i: int| 0 <= i < queue.len() && queue@[i] == y,
                forall|y: int| 0 <= y < n && seen@[y] ==> reaches(e, start as int, y),
                !first ==> forall|y: int| #[trigger] e(start as int, y) ==> seen@[y],
                forall|i: int, y: int| 0 <= i < head - 1 && #[trigger] e(queue@[i] as int, y) ==> seen@[y],
                forall|jj: int| 0 <= jj < j ==> seen@[succ@[jj] as int],
                first || reaches_or_eq(e, start as int, cur as int),
            decreases succ.len() - j,
        {
            let c = succ[j];
            assert(c < n);
            assert(e(cur as int, c as int)) by {
                assert(g[cur as int][j as int] == c);
            }
            if !seen[c] {
                proof {
                    lemma_count_true_set(seen@, c as int);
                    lemma_count_true_le(seen@.update(c as int, true));
                    if first {
                        lemma_edge_reaches(e, start as int, c as int);
                    } else {
                        if cur == start {
                            lemma_edge_reaches(e, start as int, c as int);
                        } else {
                            lemma_edge_reaches(e, cur as int, c as int);
                            lemma_reaches_trans(e, start as int, cur as int, c as int);
                        }
                    }
                }
                let ghost old_queue = queue@;
                let ghost old_seen = seen@;
                seen.set(c, true);
                queue.push(c);
                proof {
                    assert forall|y: int| 0 <= y < n && seen@[y] implies exists|i: int|
                        0 <= i < queue.len() && queue@[i] == y by {
                        if y == c {
                            assert(queue@[queue.len() - 1] == c);
                        } else {
                            assert(old_seen[y]);
                            let i = choose|i: int| 0 <= i < old_queue.len() && old_queue[i] == y;
                            assert(queue@[i] == y);
                        }
                    }
                }
            }
            j = j + 1;
        }
        proof {
            assert forall|y: int| #[trigger] e(cur as int, y) implies seen@[y] by {
                let jj = choose|jj: int| 0 <= jj < succ@.len() && succ@[jj] == y;
            }
        }
        if head < queue.len() {
            cur = queue[head];
            head = head + 1;
            first = false;
            proof {
                lemma_count_true_le(seen@);
            }
        } else {
            proof {
                let s = |y: int| 0 <= y < n && seen@[y];
                assert forall|x: int, y: int| s(x) && #[trigger] e(x, y) implies s(y) by {
                    let i = choose|i: int| 0 <= i < queue.len() && queue@[i] == x;
                    assert(e(queue@[i] as int, y));
                }
                assert forall|y: int| #[trigger] e(start as int, y) implies s(y) by {}
                assert forall|y: int| 0 <= y < n && reaches(e, start as int, y) implies seen@[y] by {
                    lemma_closed_reaches(e, s, start as int, y);
                }
            }
            return seen;
        }
    }
}

} // verus!

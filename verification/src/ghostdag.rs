//! The GHOSTDAG ordering, stated over the shape of a block DAG.
//!
//! Blocks are taken one at a time, starting from genesis, each time the
//! one of highest priority among those ready: more parents first, then the
//! earlier timestamp, then the greater hash. A block becomes ready when as
//! many of the blocks that list it as a child have been taken as it has
//! parents. When taken, a block is blue if it is genesis, or if at most `k`
//! of the blue blocks taken before it are neither its ancestors nor its
//! descendants (its blue anticone); otherwise red. Blue blocks are weighted
//! by their place among the blue ones.
use vstd::prelude::*;

use crate::blockchain::{genesis_hash, BlockColor, BlockView};
use crate::graph::{
    adj_edge, adj_ok, count_where, lemma_count_where_ext, lemma_count_where_fewer, lemma_count_where_flip,
    lemma_count_where_none, lemma_min_rank, lemma_reaches_reverse, is_path, is_walk, no_dups,
    ranked, reaches,
};
use crate::text::{lemma_text_lt_asymmetric, lemma_text_lt_total, lemma_text_lt_transitive, text_lt};

verus! {

/// The position of the text `h` in `s` (the last one, if several), or -1.
pub open spec fn find_text(s: Seq<Seq<char>>, h: Seq<char>) -> int
    decreases s.len(),
{
    if s.len() == 0 {
        -1
    } else if s.last() == h {
        s.len() - 1
    } else {
        find_text(s.drop_last(), h)
    }
}

pub proof fn lemma_find_text(s: Seq<Seq<char>>, h: Seq<char>)
    ensures
        -1 <= find_text(s, h) < s.len(),
        find_text(s, h) >= 0 ==> s[find_text(s, h)] == h,
        find_text(s, h) < 0 ==> forall|i: int| 0 <= i < s.len() ==> s[i] != h,
    decreases s.len(),
{
    if s.len() > 0 {
        lemma_find_text(s.drop_last(), h);
        if s.last() != h {
            assert forall|i: int| 0 <= i < s.len() - 1 implies s[i] == s.drop_last()[i] by {}
        }
    }
}

/// No text occurs twice.
pub open spec fn distinct_texts(s: Seq<Seq<char>>) -> bool {
    forall|i: int, j: int| 0 <= i < j < s.len() ==> s[i] != s[j]
}

/// With distinct texts, the position found is the position of the text.
pub proof fn lemma_find_text_unique(s: Seq<Seq<char>>, h: Seq<char>, i: int)
    requires
        distinct_texts(s),
        0 <= i < s.len(),
        s[i] == h,
    ensures
        find_text(s, h) == i,
{
    lemma_find_text(s, h);
    let f = find_text(s, h);
    if f != i {
        if f < i {
            assert(s[f] != s[i]);
        } else {
            assert(s[i] != s[f]);
        }
    }
}

/// The part of a block DAG that GHOSTDAG reads: hashes, parent hashes and
/// timestamps of the blocks, the child links between them, and `k`.
pub struct Shape {
    pub hashes: Seq<Seq<char>>,
    pub parents: Seq<Seq<Seq<char>>>,
    pub timestamps: Seq<u64>,
    pub links: Seq<Seq<usize>>,
    pub k: int,
}

/// The blocks taken in the order `p`, keeping those marked blue in `b`.
pub open spec fn blue_order(p: Seq<int>, b: Seq<bool>) -> Seq<int>
    decreases p.len(),
{
    if p.len() == 0 || b.len() == 0 {
        Seq::empty()
    } else if b[p.len() - 1] {
        blue_order(p.drop_last(), b.drop_last()).push(p.last())
    } else {
        blue_order(p.drop_last(), b.drop_last())
    }
}

/// The last position of `x` in `s`, or -1.
pub open spec fn last_pos(s: Seq<int>, x: int) -> int
    decreases s.len(),
{
    if s.len() == 0 {
        -1
    } else if s.last() == x {
        s.len() - 1
    } else {
        last_pos(s.drop_last(), x)
    }
}

/// The colours and weights of `blocks` are those that the run `(p, b)`
/// gives: blue for the blocks of its blue order, with weight one more than
/// their (last) place in it; red with weight 0 for the others.
pub open spec fn colors_match(blocks: Seq<BlockView>, p: Seq<int>, b: Seq<bool>) -> bool {
    forall|x: int|
        0 <= x < blocks.len() ==> {
            let pos = last_pos(blue_order(p, b), x);
            &&& (#[trigger] blocks[x]).color == (if pos >= 0 {
                BlockColor::Blue
            } else {
                BlockColor::Red
            })
            &&& blocks[x].weight == pos + 1
        }
}

impl Shape {
    pub open spec fn n(self) -> int {
        self.hashes.len() as int
    }

    /// The shape is well formed: lengths agree, hashes are distinct, every
    /// parent hash names a block, links name blocks without repetition, and
    /// genesis is present.
    pub open spec fn wf(self) -> bool {
        &&& self.parents.len() == self.n()
        &&& self.timestamps.len() == self.n()
        &&& self.links.len() == self.n()
        &&& distinct_texts(self.hashes)
        &&& forall|i: int, j: int|
            0 <= i < self.n() && 0 <= j < self.parents[i].len() ==> find_text(
                self.hashes,
                #[trigger] self.parents[i][j],
            ) >= 0
        &&& adj_ok(self.links)
        &&& forall|i: int| 0 <= i < self.n() ==> no_dups(#[trigger] self.links[i])
        &&& find_text(self.hashes, genesis_hash()) >= 0
    }

    /// The position of the genesis block.
    pub open spec fn genesis(self) -> int {
        find_text(self.hashes, genesis_hash())
    }

    /// `b` is listed as a child of `a`.
    pub open spec fn link(self, a: int, b: int) -> bool {
        adj_edge(self.links)(a, b)
    }

    /// For each block, the positions of its parents.
    pub open spec fn parent_lists(self) -> Seq<Seq<usize>> {
        Seq::new(
            self.n() as nat,
            |i: int| Seq::new(self.parents[i].len(), |j: int| find_text(self.hashes, self.parents[i][j]) as usize),
        )
    }

    /// `y` is an ancestor of `x`: reached from `x` through parents.
    pub open spec fn is_ancestor(self, x: int, y: int) -> bool {
        reaches(adj_edge(self.parent_lists()), x, y)
    }

    /// `y` is a descendant of `x`: reached from `x` through child links.
    pub open spec fn is_descendant(self, x: int, y: int) -> bool {
        reaches(adj_edge(self.links), x, y)
    }

    /// The number of parents of `x`.
    pub open spec fn plen(self, x: int) -> int {
        self.parents[x].len() as int
    }

    /// `x` has lower priority than `y`: fewer parents; or as many and a
    /// later timestamp; or both equal and a smaller hash.
    pub open spec fn prio_lt(self, x: int, y: int) -> bool {
        ||| self.plen(x) < self.plen(y)
        ||| self.plen(x) == self.plen(y) && self.timestamps[x] > self.timestamps[y]
        ||| self.plen(x) == self.plen(y) && self.timestamps[x] == self.timestamps[y] && text_lt(
            self.hashes[x],
            self.hashes[y],
        )
    }

    /// How many times `x` occurs in `pp`.
    pub open spec fn pops(self, pp: Seq<int>, x: int) -> int
        decreases pp.len(),
    {
        if pp.len() == 0 {
            0
        } else {
            self.pops(pp.drop_last(), x) + if pp.last() == x {
                1int
            } else {
                0int
            }
        }
    }

    /// How many of the blocks taken in `pp` list `x` as a child.
    pub open spec fn linked(self, pp: Seq<int>, x: int) -> int
        decreases pp.len(),
    {
        if pp.len() == 0 {
            0
        } else {
            self.linked(pp.drop_last(), x) + if self.link(pp.last(), x) {
                1int
            } else {
                0int
            }
        }
    }

    /// How many times `x` has been made ready once `pp` is taken: genesis at
    /// the start, and any block with parents once as many blocks listing it
    /// as a child have been taken.
    pub open spec fn pushes(self, pp: Seq<int>, x: int) -> int {
        (if x == self.genesis() {
            1int
        } else {
            0int
        }) + (if 0 < self.plen(x) <= self.linked(pp, x) {
            1int
        } else {
            0int
        })
    }

    /// `pushes`, with `extra` more blocks listing `x` as a child taken.
    pub open spec fn pushes_with(self, pp: Seq<int>, x: int, extra: int) -> int {
        (if x == self.genesis() {
            1int
        } else {
            0int
        }) + (if 0 < self.plen(x) <= self.linked(pp, x) + extra {
            1int
        } else {
            0int
        })
    }

    /// The number of parents of `x` not yet matched by taken blocks that
    /// list `x` as a child (never below zero).
    pub open spec fn pending(self, pp: Seq<int>, x: int, extra: int) -> int {
        if self.linked(pp, x) + extra >= self.plen(x) {
            0
        } else {
            self.plen(x) - self.linked(pp, x) - extra
        }
    }

    /// `x` is ready, and not yet taken, once `pp` is taken.
    pub open spec fn in_heap(self, pp: Seq<int>, x: int) -> bool {
        self.pushes(pp, x) > self.pops(pp, x)
    }

    /// `y` was taken and made blue in `(pp, bb)`.
    pub open spec fn blue_before(self, pp: Seq<int>, bb: Seq<bool>, y: int) -> bool {
        exists|i: int| 0 <= i < pp.len() && pp[i] == y && #[trigger] bb[i]
    }

    /// `y` is a blue block of `(pp, bb)` in the anticone of `x`.
    pub open spec fn in_anticone(self, pp: Seq<int>, bb: Seq<bool>, x: int, y: int) -> bool {
        &&& self.blue_before(pp, bb, y)
        &&& y != x
        &&& !self.is_ancestor(x, y)
        &&& !self.is_descendant(x, y)
    }

    /// The blocks flagged in `blue` that lie in the anticone of `x`.
    pub open spec fn anticone_of(self, blue: Seq<bool>, x: int) -> spec_fn(int) -> bool {
        |y: int| blue[y] && y != x && !self.is_ancestor(x, y) && !self.is_descendant(x, y)
    }

    /// The size of the blue anticone of `x` after `(pp, bb)`.
    pub open spec fn anticone_blues(self, pp: Seq<int>, bb: Seq<bool>, x: int) -> nat {
        count_where(self.n(), |y: int| self.in_anticone(pp, bb, x, y))
    }

    /// Whether `x`, taken after `(pp, bb)`, is blue.
    pub open spec fn blue_rule(self, pp: Seq<int>, bb: Seq<bool>, x: int) -> bool {
        self.hashes[x] == genesis_hash() || self.anticone_blues(pp, bb, x) <= self.k
    }

    /// After `(pp, bb)`, the next block taken is `x`, with colour `bx`: `x`
    /// is ready and of the highest priority among the ready blocks.
    pub open spec fn next_ok(self, pp: Seq<int>, bb: Seq<bool>, x: int, bx: bool) -> bool {
        &&& 0 <= x < self.n()
        &&& self.in_heap(pp, x)
        &&& forall|y: int| 0 <= y < self.n() && #[trigger] self.in_heap(pp, y) && y != x ==> self.prio_lt(y, x)
        &&& bx == self.blue_rule(pp, bb, x)
    }

    /// `p` is the order in which GHOSTDAG takes the blocks, and `b` their
    /// colours: each step takes the next block, until none is ready.
    pub open spec fn is_run(self, p: Seq<int>, b: Seq<bool>) -> bool {
        &&& p.len() == b.len()
        &&& forall|j: int| 0 <= j < p.len() ==> #[trigger] self.next_ok(p.take(j), b.take(j), p[j], b[j])
        &&& forall|x: int| 0 <= x < self.n() ==> !#[trigger] self.in_heap(p, x)
    }

    /// The colours and weights of `blocks` are those of the GHOSTDAG run.
    pub open spec fn colored_by_ghostdag(self, blocks: Seq<BlockView>) -> bool {
        exists|p: Seq<int>, b: Seq<bool>| #[trigger] self.is_run(p, b) && colors_match(blocks, p, b)
    }
}


/// The shape of a block DAG made of `blocks`, child `links` and `k`.
pub open spec fn shape_of(blocks: Seq<BlockView>, links: Seq<Seq<usize>>, k: int) -> Shape {
    Shape {
        hashes: blocks.map_values(|b: BlockView| b.hash),
        parents: blocks.map_values(|b: BlockView| b.parents),
        timestamps: blocks.map_values(|b: BlockView| b.timestamp),
        links,
        k,
    }
}

impl Shape {
    pub proof fn lemma_pops_push(self, pp: Seq<int>, c: int, x: int)
        ensures
            self.pops(pp.push(c), x) == self.pops(pp, x) + if c == x {
                1int
            } else {
                0int
            },
            self.linked(pp.push(c), x) == self.linked(pp, x) + if self.link(c, x) {
                1int
            } else {
                0int
            },
    {
        assert(pp.push(c).drop_last() =~= pp);
    }

    /// The first block of `pp` occurs in it.
    pub proof fn lemma_pops_first(self, pp: Seq<int>, x: int)
        requires
            pp.len() > 0,
            pp[0] == x,
        ensures
            self.pops(pp, x) >= 1,
        decreases pp.len(),
    {
        if pp.len() > 1 {
            self.lemma_pops_first(pp.drop_last(), x);
        }
        self.lemma_pops_range(pp.drop_last(), x);
    }

    pub proof fn lemma_pops_range(self, pp: Seq<int>, x: int)
        ensures
            0 <= self.pops(pp, x) <= pp.len(),
            0 <= self.linked(pp, x) <= pp.len(),
        decreases pp.len(),
    {
        if pp.len() > 0 {
            self.lemma_pops_range(pp.drop_last(), x);
        }
    }

    /// Priority is a strict order.
    pub proof fn lemma_prio_asymmetric(self, x: int, y: int)
        requires
            self.prio_lt(x, y),
        ensures
            !self.prio_lt(y, x),
    {
        if self.plen(x) == self.plen(y) && self.timestamps[x] == self.timestamps[y] {
            lemma_text_lt_asymmetric(self.hashes[x], self.hashes[y]);
        }
    }

    pub proof fn lemma_prio_transitive(self, x: int, y: int, z: int)
        requires
            self.prio_lt(x, y),
            self.prio_lt(y, z),
        ensures
            self.prio_lt(x, z),
    {
        if self.plen(x) == self.plen(y) && self.plen(y) == self.plen(z) && self.timestamps[x]
            == self.timestamps[y] && self.timestamps[y] == self.timestamps[z] {
            lemma_text_lt_transitive(self.hashes[x], self.hashes[y], self.hashes[z]);
        }
    }

    /// Distinct blocks are ordered one way or the other: their hashes differ.
    pub proof fn lemma_prio_total(self, x: int, y: int)
        requires
            self.wf(),
            0 <= x < self.n(),
            0 <= y < self.n(),
            x != y,
        ensures
            self.prio_lt(x, y) || self.prio_lt(y, x),
    {
        if x < y {
            assert(self.hashes[x] != self.hashes[y]);
        } else {
            assert(self.hashes[y] != self.hashes[x]);
        }
        lemma_text_lt_total(self.hashes[x], self.hashes[y]);
    }
}


/// The blue order lists blocks of the order taken.
pub proof fn lemma_blue_order_range(p: Seq<int>, b: Seq<bool>, n: int)
    requires
        p.len() == b.len(),
        forall|i: int| 0 <= i < p.len() ==> 0 <= #[trigger] p[i] < n,
    ensures
        forall|i: int| 0 <= i < blue_order(p, b).len() ==> 0 <= #[trigger] blue_order(p, b)[i] < n,
        blue_order(p, b).len() <= p.len(),
    decreases p.len(),
{
    if p.len() > 0 {
        lemma_blue_order_range(p.drop_last(), b.drop_last(), n);
    }
}

/// The last position of `x` among the first `t + 1` entries.
pub proof fn lemma_last_pos_take(s: Seq<int>, t: int, x: int)
    requires
        0 <= t < s.len(),
    ensures
        last_pos(s.take(t + 1), x) == if s[t] == x {
            t
        } else {
            last_pos(s.take(t), x)
        },
{
    assert(s.take(t + 1).drop_last() =~= s.take(t));
}


/// Block `a` comes before block `b` in weight order: a lower weight, or
/// the same weight and an earlier position.
pub open spec fn weight_before(blocks: Seq<BlockView>, a: int, b: int) -> bool {
    blocks[a].weight < blocks[b].weight || (blocks[a].weight == blocks[b].weight && a < b)
}

/// `s` lists every blue block of `blocks` once, in weight order.
pub open spec fn is_blue_listing(blocks: Seq<BlockView>, s: Seq<int>) -> bool {
    &&& forall|i: int| 0 <= i < s.len() ==> 0 <= #[trigger] s[i] < blocks.len() && blocks[s[i]].color == BlockColor::Blue
    &&& forall|x: int| 0 <= x < blocks.len() && (#[trigger] blocks[x]).color == BlockColor::Blue ==> s.contains(x)
    &&& forall|i: int, j: int| 0 <= i < j < s.len() ==> weight_before(blocks, #[trigger] s[i], #[trigger] s[j])
}

/// The blue blocks in weight order.
pub open spec fn blue_listing(blocks: Seq<BlockView>) -> Seq<int> {
    choose|s: Seq<int>| is_blue_listing(blocks, s)
}

/// There is only one listing of the blue blocks in weight order.
pub proof fn lemma_blue_listing_unique(blocks: Seq<BlockView>, s1: Seq<int>, s2: Seq<int>)
    requires
        is_blue_listing(blocks, s1),
        is_blue_listing(blocks, s2),
    ensures
        s1 == s2,
{
    assert forall|i: int| 0 <= i < s1.len() && 0 <= i < s2.len() implies s1[i] == s2[i] by {
        lemma_listing_agree(blocks, s1, s2, i);
    }
    if s1.len() > s2.len() {
        let x = s1[s2.len() as int];
        assert(blocks[x].color == BlockColor::Blue);
        assert(s2.contains(x));
        let j = choose|j: int| 0 <= j < s2.len() && s2[j] == x;
        lemma_listing_agree(blocks, s1, s2, j);
        assert(weight_before(blocks, s1[j], s1[s2.len() as int]));
    }
    if s2.len() > s1.len() {
        let x = s2[s1.len() as int];
        assert(blocks[x].color == BlockColor::Blue);
        assert(s1.contains(x));
        let j = choose|j: int| 0 <= j < s1.len() && s1[j] == x;
        lemma_listing_agree(blocks, s1, s2, j);
        assert(weight_before(blocks, s2[j], s2[s1.len() as int]));
    }
    assert(s1 =~= s2);
}

proof fn lemma_listing_agree(blocks: Seq<BlockView>, s1: Seq<int>, s2: Seq<int>, i: int)
    requires
        is_blue_listing(blocks, s1),
        is_blue_listing(blocks, s2),
        0 <= i < s1.len(),
        0 <= i < s2.len(),
    ensures
        s1[i] == s2[i],
    decreases i,
{
    if i > 0 {
        lemma_listing_agree(blocks, s1, s2, i - 1);
    }
    // earlier entries agree
    assert forall|q: int| 0 <= q < i implies s1[q] == s2[q] by {
        lemma_listing_agree(blocks, s1, s2, q);
    }
    let x = s1[i];
    let y = s2[i];
    assert(blocks[x].color == BlockColor::Blue);
    assert(blocks[y].color == BlockColor::Blue);
    assert(s2.contains(x));
    assert(s1.contains(y));
    let j = choose|j: int| 0 <= j < s2.len() && s2[j] == x;
    let j1 = choose|j1: int| 0 <= j1 < s1.len() && s1[j1] == y;
    if j < i {
        assert(s1[j] == x);
        assert(weight_before(blocks, s1[j], s1[i]));
    }
    if j1 < i {
        assert(s2[j1] == y);
        assert(weight_before(blocks, s2[j1], s2[i]));
    }
    if x != y {
        if j > i {
            assert(weight_before(blocks, s2[i], s2[j]));
        }
        if j1 > i {
            assert(weight_before(blocks, s1[i], s1[j1]));
        }
    }
}


impl Shape {
    /// A block that occurs in `pp` has been taken at least once.
    pub proof fn lemma_pops_pos(self, pp: Seq<int>, x: int, i: int)
        requires
            0 <= i < pp.len(),
            pp[i] == x,
        ensures
            self.pops(pp, x) >= 1,
        decreases pp.len(),
    {
        self.lemma_pops_range(pp.drop_last(), x);
        if i < pp.len() - 1 {
            self.lemma_pops_pos(pp.drop_last(), x, i);
        }
    }

    /// A block no taken block lists as a child has no linked count.
    pub proof fn lemma_linked_zero(self, pp: Seq<int>, x: int)
        requires
            forall|i: int| 0 <= i < pp.len() ==> !self.link(#[trigger] pp[i], x),
        ensures
            self.linked(pp, x) == 0,
        decreases pp.len(),
    {
        if pp.len() > 0 {
            self.lemma_linked_zero(pp.drop_last(), x);
        }
    }

    /// A positive linked count has a taken block behind it.
    pub proof fn lemma_linked_pos(self, pp: Seq<int>, x: int) -> (i: int)
        requires
            self.linked(pp, x) > 0,
        ensures
            0 <= i < pp.len(),
            self.link(pp[i], x),
        decreases pp.len(),
    {
        if self.link(pp.last(), x) {
            (pp.len() - 1) as int
        } else {
            let i = self.lemma_linked_pos(pp.drop_last(), x);
            i
        }
    }

    /// Two steps of the same prefix take the same block with the same colour.
    pub proof fn lemma_next_unique(self, pp: Seq<int>, bb: Seq<bool>, x: int, bx: bool, y: int, by_: bool)
        requires
            self.next_ok(pp, bb, x, bx),
            self.next_ok(pp, bb, y, by_),
        ensures
            x == y,
            bx == by_,
    {
        if x != y {
            assert(self.in_heap(pp, y));
            assert(self.prio_lt(y, x));
            assert(self.in_heap(pp, x));
            assert(self.prio_lt(x, y));
            self.lemma_prio_asymmetric(x, y);
        }
    }

    /// The GHOSTDAG order and colours are determined by the shape: two runs
    /// are the same run.
    pub proof fn lemma_run_unique(self, p1: Seq<int>, b1: Seq<bool>, p2: Seq<int>, b2: Seq<bool>)
        requires
            self.is_run(p1, b1),
            self.is_run(p2, b2),
        ensures
            p1 == p2,
            b1 == b2,
    {
        let m: int = if p1.len() < p2.len() { p1.len() as int } else { p2.len() as int };
        assert forall|j: int| 0 <= j <= m implies p1.take(j) == p2.take(j) && b1.take(j) == b2.take(j) by {
            self.lemma_runs_agree(p1, b1, p2, b2, j);
        }
        if p1.len() < p2.len() {
            let j = p1.len() as int;
            assert(p1.take(j) =~= p1);
            assert(b1.take(j) =~= b1);
            assert(self.next_ok(p2.take(j), b2.take(j), p2[j], b2[j]));
            assert(!self.in_heap(p1, p2[j]));
        }
        if p2.len() < p1.len() {
            let j = p2.len() as int;
            assert(p2.take(j) =~= p2);
            assert(b2.take(j) =~= b2);
            assert(self.next_ok(p1.take(j), b1.take(j), p1[j], b1[j]));
            assert(!self.in_heap(p2, p1[j]));
        }
        assert(p1.take(m) == p2.take(m));
        assert(p1.take(m) =~= p1);
        assert(p2.take(m) =~= p2);
        assert(b1.take(m) =~= b1);
        assert(b2.take(m) =~= b2);
    }

    proof fn lemma_runs_agree(self, p1: Seq<int>, b1: Seq<bool>, p2: Seq<int>, b2: Seq<bool>, j: int)
        requires
            self.is_run(p1, b1),
            self.is_run(p2, b2),
            0 <= j <= p1.len(),
            j <= p2.len(),
        ensures
            p1.take(j) == p2.take(j),
            b1.take(j) == b2.take(j),
        decreases j,
    {
        if j > 0 {
            self.lemma_runs_agree(p1, b1, p2, b2, j - 1);
            assert(self.next_ok(p1.take(j - 1), b1.take(j - 1), p1[j - 1], b1[j - 1]));
            assert(self.next_ok(p2.take(j - 1), b2.take(j - 1), p2[j - 1], b2[j - 1]));
            self.lemma_next_unique(p1.take(j - 1), b1.take(j - 1), p1[j - 1], b1[j - 1], p2[j - 1], b2[j - 1]);
            assert(p1.take(j) =~= p1.take(j - 1).push(p1[j - 1]));
            assert(p2.take(j) =~= p2.take(j - 1).push(p2[j - 1]));
            assert(b1.take(j) =~= b1.take(j - 1).push(b1[j - 1]));
            assert(b2.take(j) =~= b2.take(j - 1).push(b2[j - 1]));
        } else {
            assert(p1.take(0) =~= p2.take(0));
            assert(b1.take(0) =~= b2.take(0));
        }
    }

    /// With a rank that grows along the links, genesis is taken first, and
    /// every block taken later has a rank above that of genesis.
    pub proof fn lemma_run_rank(self, rank: Seq<int>, p: Seq<int>, b: Seq<bool>, j: int)
        requires
            self.wf(),
            ranked(adj_edge(self.links), rank),
            self.is_run(p, b),
            0 <= j < p.len(),
        ensures
            j == 0 ==> p[j] == self.genesis(),
            j > 0 ==> rank[p[j]] > rank[self.genesis()],
        decreases j,
    {
        let g = self.genesis();
        let pp = p.take(j);
        assert(self.next_ok(pp, b.take(j), p[j], b[j]));
        assert forall|i: int| 0 <= i < j implies (i == 0 ==> p[i] == g) && (i > 0 ==> rank[p[i]] > rank[g]) by {
            self.lemma_run_rank(rank, p, b, i);
        }
        if j == 0 {
            assert(pp =~= Seq::<int>::empty());
            assert(self.linked(pp, p[j]) == 0);
            assert(self.pops(pp, p[j]) == 0);
        } else {
            let x = p[j];
            self.lemma_pops_range(pp, x);
            if x == g {
                assert(pp[0] == g);
                self.lemma_pops_pos(pp, g, 0);
                assert forall|i: int| 0 <= i < pp.len() implies !self.link(#[trigger] pp[i], g) by {
                    if self.link(pp[i], g) {
                        assert(adj_edge(self.links)(pp[i], g));
                        assert(rank[pp[i]] < rank[g]);
                    }
                }
                self.lemma_linked_zero(pp, g);
                assert(false);
            } else {
                assert(self.linked(pp, x) > 0);
                let i = self.lemma_linked_pos(pp, x);
                assert(adj_edge(self.links)(pp[i], x));
                assert(pp[i] == p[i]);
            }
        }
    }

    /// With a rank that grows along the links, no block is taken twice.
    pub proof fn lemma_run_no_dups(self, rank: Seq<int>, p: Seq<int>, b: Seq<bool>)
        requires
            self.wf(),
            ranked(adj_edge(self.links), rank),
            self.is_run(p, b),
        ensures
            forall|i: int, j: int| 0 <= i < j < p.len() ==> p[i] != p[j],
    {
        assert forall|i: int, j: int| 0 <= i < j < p.len() implies p[i] != p[j] by {
            if p[i] == p[j] {
                let x = p[j];
                self.lemma_run_rank(rank, p, b, j);
                let pp = p.take(j);
                assert(self.next_ok(pp, b.take(j), p[j], b[j]));
                assert(pp[i] == x);
                self.lemma_pops_pos(pp, x, i);
                assert(x != self.genesis());
            }
        }
    }
}

/// The blue order with every block of `p` blue or not: its blocks come
/// from `p`, in the same order.
pub proof fn lemma_blue_order_sub(p: Seq<int>, b: Seq<bool>)
    requires
        p.len() == b.len(),
        forall|i: int, j: int| 0 <= i < j < p.len() ==> p[i] != p[j],
    ensures
        forall|i: int, j: int| 0 <= i < j < blue_order(p, b).len() ==> blue_order(p, b)[i] != blue_order(p, b)[j],
        forall|i: int| 0 <= i < blue_order(p, b).len() ==> p.contains(#[trigger] blue_order(p, b)[i]),
        forall|x: int| #[trigger] blue_order(p, b).contains(x) <==> exists|i: int| 0 <= i < p.len() && p[i] == x && b[i],
    decreases p.len(),
{
    if p.len() > 0 {
        let p0 = p.drop_last();
        let b0 = b.drop_last();
        lemma_blue_order_sub(p0, b0);
        let s0 = blue_order(p0, b0);
        let s = blue_order(p, b);
        assert forall|i: int| 0 <= i < s.len() implies p.contains(#[trigger] s[i]) by {
            if i < s0.len() {
                assert(p0.contains(s0[i]));
                let q = choose|q: int| 0 <= q < p0.len() && p0[q] == s0[i];
                assert(p[q] == s[i]);
            } else {
                assert(p[p.len() - 1] == s[i]);
            }
        }
        assert forall|x: int| #[trigger] s.contains(x) <==> exists|i: int| 0 <= i < p.len() && p[i] == x && b[i] by {
            if s.contains(x) {
                let q = choose|q: int| 0 <= q < s.len() && s[q] == x;
                if q < s0.len() {
                    assert(s0.contains(x));
                    let i = choose|i: int| 0 <= i < p0.len() && p0[i] == x && b0[i];
                    assert(p[i] == x && b[i]);
                } else {
                    assert(p[p.len() - 1] == x && b[p.len() - 1]);
                }
            }
            if exists|i: int| 0 <= i < p.len() && p[i] == x && b[i] {
                let i = choose|i: int| 0 <= i < p.len() && p[i] == x && b[i];
                if i < p.len() - 1 {
                    assert(p0[i] == x && b0[i]);
                    assert(s0.contains(x));
                    let q = choose|q: int| 0 <= q < s0.len() && s0[q] == x;
                    assert(s[q] == x);
                } else {
                    assert(s[s.len() - 1] == x);
                }
            }
        }
        if b[p.len() - 1] {
            assert forall|i: int, j: int| 0 <= i < j < s.len() implies s[i] != s[j] by {
                if j == s.len() - 1 {
                    assert(p0.contains(s0[i]));
                    let q = choose|q: int| 0 <= q < p0.len() && p0[q] == s0[i];
                    assert(p[q] != p[p.len() - 1]);
                }
            }
        }
    } else {
        assert(blue_order(p, b) =~= Seq::<int>::empty());
    }
}

/// In a list without repetition, the last position of an entry is its position.
pub proof fn lemma_last_pos_unique(s: Seq<int>, i: int)
    requires
        0 <= i < s.len(),
        forall|a: int, c: int| 0 <= a < c < s.len() ==> s[a] != s[c],
    ensures
        last_pos(s, s[i]) == i,
    decreases s.len(),
{
    if i < s.len() - 1 {
        assert(s.last() != s[i]);
        lemma_last_pos_unique(s.drop_last(), i);
    }
}

/// A last position at or above zero holds the entry.
pub proof fn lemma_last_pos_found(s: Seq<int>, x: int)
    ensures
        last_pos(s, x) >= 0 ==> s[last_pos(s, x)] == x,
        last_pos(s, x) < 0 ==> !s.contains(x),
        last_pos(s, x) < s.len(),
    decreases s.len(),
{
    if s.len() > 0 {
        lemma_last_pos_found(s.drop_last(), x);
        if s.last() != x && s.contains(x) {
            let q = choose|q: int| 0 <= q < s.len() && s[q] == x;
            assert(s.drop_last()[q] == x);
        }
    }
}


/// When the first block taken is blue, it comes first in the blue order.
pub proof fn lemma_blue_order_first(p: Seq<int>, b: Seq<bool>)
    requires
        p.len() == b.len(),
        p.len() > 0,
        b[0],
    ensures
        blue_order(p, b).len() > 0,
        blue_order(p, b)[0] == p[0],
    decreases p.len(),
{
    if p.len() > 1 {
        lemma_blue_order_first(p.drop_last(), b.drop_last());
    } else {
        assert(blue_order(p.drop_last(), b.drop_last()) =~= Seq::<int>::empty());
    }
}

/// The blocks whose hash is among the texts `s` are no more than `s` is long.
pub proof fn lemma_count_named(hashes: Seq<Seq<char>>, s: Seq<Seq<char>>)
    requires
        distinct_texts(hashes),
    ensures
        count_where(hashes.len() as int, |v: int| s.contains(hashes[v])) <= s.len(),
    decreases s.len(),
{
    let n = hashes.len() as int;
    let fs = |v: int| s.contains(hashes[v]);
    if s.len() == 0 {
        lemma_count_where_none(n, fs);
    } else {
        let t = s.drop_last();
        let h = s.last();
        let ft = |v: int| t.contains(hashes[v]);
        lemma_count_named(hashes, t);
        assert forall|a: Seq<char>| #[trigger] s.contains(a) <==> (t.contains(a) || a == h) by {
            if s.contains(a) {
                let q = choose|q: int| 0 <= q < s.len() && s[q] == a;
                if q < t.len() {
                    assert(t[q] == a);
                }
            }
            if t.contains(a) {
                let q = choose|q: int| 0 <= q < t.len() && t[q] == a;
                assert(s[q] == a);
            }
            if a == h {
                assert(s[s.len() - 1] == a);
            }
        }
        lemma_find_text(hashes, h);
        let v0 = find_text(hashes, h);
        if v0 >= 0 && !t.contains(h) {
            assert forall|i: int| 0 <= i < n && i != v0 implies #[trigger] fs(i) == ft(i) by {
                if i < v0 {
                    assert(hashes[i] != hashes[v0]);
                } else {
                    assert(hashes[v0] != hashes[i]);
                }
            }
            lemma_count_where_flip(n, fs, ft, v0);
        } else {
            assert forall|i: int| 0 <= i < n implies #[trigger] fs(i) == ft(i) by {
                if hashes[i] == h {
                    assert(v0 >= 0);
                }
            }
            lemma_count_where_ext(n, fs, ft);
        }
    }
}

/// In the blue order, of two blue blocks the one taken first comes first.
pub proof fn lemma_blue_order_before(p: Seq<int>, b: Seq<bool>, i: int, j: int)
    requires
        p.len() == b.len(),
        forall|a: int, c: int| 0 <= a < c < p.len() ==> p[a] != p[c],
        0 <= i < j < p.len(),
        b[i],
        b[j],
    ensures
        0 <= last_pos(blue_order(p, b), p[i]) < last_pos(blue_order(p, b), p[j]),
    decreases p.len(),
{
    let p0 = p.drop_last();
    let b0 = b.drop_last();
    let s0 = blue_order(p0, b0);
    if j == p.len() - 1 {
        lemma_blue_order_sub(p0, b0);
        assert(p0[i] == p[i] && b0[i]);
        assert(s0.contains(p[i]));
        lemma_last_pos_found(s0, p[i]);
        assert(p[i] != p[j]);
        let s = blue_order(p, b);
        assert(s == s0.push(p[j]));
        assert(s.drop_last() =~= s0);
        assert(last_pos(s, p[i]) == last_pos(s0, p[i]));
    } else {
        lemma_blue_order_before(p0, b0, i, j);
        assert(p.last() != p[i]);
        assert(p.last() != p[j]);
        let s = blue_order(p, b);
        if b[p.len() - 1] {
            assert(s == s0.push(p.last()));
            assert(s.drop_last() =~= s0);
            assert(last_pos(s, p[i]) == last_pos(s0, p[i]));
            assert(last_pos(s, p[j]) == last_pos(s0, p[j]));
        } else {
            assert(s == s0);
        }
    }
}

impl Shape {
    /// Every block is listed as a child by exactly the blocks named among
    /// its parents, and genesis has no parents.
    pub open spec fn links_match(self) -> bool {
        &&& forall|x: int, y: int|
            0 <= x < self.n() && 0 <= y < self.n() ==> (#[trigger] self.link(y, x) <==> self.parents[x].contains(
                self.hashes[y],
            ))
        &&& self.plen(self.genesis()) == 0
    }

    /// With no block taken twice, the linked count of `x` is the number of
    /// taken blocks that list it as a child.
    pub proof fn lemma_linked_count(self, pp: Seq<int>, x: int)
        requires
            forall|i: int, k: int| 0 <= i < k < pp.len() ==> pp[i] != pp[k],
            forall|i: int| 0 <= i < pp.len() ==> 0 <= #[trigger] pp[i] < self.n(),
        ensures
            self.linked(pp, x) == count_where(self.n(), |v: int| pp.contains(v) && self.link(v, x)),
        decreases pp.len(),
    {
        let n = self.n();
        let fp = |v: int| pp.contains(v) && self.link(v, x);
        if pp.len() == 0 {
            lemma_count_where_none(n, fp);
        } else {
            let q = pp.drop_last();
            let a = pp.last();
            let fq = |v: int| q.contains(v) && self.link(v, x);
            self.lemma_linked_count(q, x);
            assert forall|v: int| #[trigger] pp.contains(v) <==> (q.contains(v) || v == a) by {
                if pp.contains(v) {
                    let k = choose|k: int| 0 <= k < pp.len() && pp[k] == v;
                    if k < q.len() {
                        assert(q[k] == v);
                    }
                }
                if q.contains(v) {
                    let k = choose|k: int| 0 <= k < q.len() && q[k] == v;
                    assert(pp[k] == v);
                }
                if v == a {
                    assert(pp[pp.len() - 1] == v);
                }
            }
            assert(!q.contains(a)) by {
                if q.contains(a) {
                    let k = choose|k: int| 0 <= k < q.len() && q[k] == a;
                    assert(pp[k] != pp[pp.len() - 1]);
                }
            }
            assert(0 <= a < n);
            if self.link(a, x) {
                lemma_count_where_flip(n, fp, fq, a);
            } else {
                lemma_count_where_ext(n, fp, fq);
            }
        }
    }

    /// When the links match the parents, every block of a run is taken
    /// after each of its parents.
    pub proof fn lemma_run_after_parents(self, rank: Seq<int>, p: Seq<int>, b: Seq<bool>, j: int, y: int)
        requires
            self.wf(),
            self.links_match(),
            ranked(adj_edge(self.links), rank),
            self.is_run(p, b),
            0 <= j < p.len(),
            0 <= y < self.n(),
            self.parents[p[j]].contains(self.hashes[y]),
        ensures
            exists|i: int| 0 <= i < j && p[i] == y,
    {
        let x = p[j];
        let pp = p.take(j);
        let n = self.n();
        assert(self.next_ok(pp, b.take(j), x, b[j]));
        self.lemma_pops_range(pp, x);
        self.lemma_run_no_dups(rank, p, b);
        assert forall|i: int| 0 <= i < pp.len() implies 0 <= #[trigger] pp[i] < n by {
            assert(self.next_ok(p.take(i), b.take(i), p[i], b[i]));
        }
        if !(exists|i: int| 0 <= i < j && p[i] == y) {
            assert(x != self.genesis());
            assert(self.plen(x) <= self.linked(pp, x));
            self.lemma_linked_count(pp, x);
            let f = |v: int| pp.contains(v) && self.link(v, x);
            let h = |v: int| self.link(v, x);
            assert(!pp.contains(y)) by {
                if pp.contains(y) {
                    let k = choose|k: int| 0 <= k < pp.len() && pp[k] == y;
                    assert(p[k] == y);
                }
            }
            assert(self.link(y, x));
            lemma_count_where_fewer(n, f, h, y);
            let g = |v: int| self.parents[x].contains(self.hashes[v]);
            assert forall|v: int| 0 <= v < n implies #[trigger] h(v) == g(v) by {
                assert(self.link(v, x) <==> self.parents[x].contains(self.hashes[v]));
            }
            lemma_count_where_ext(n, h, g);
            lemma_count_named(self.hashes, self.parents[x]);
            assert(false);
        }
    }
}

impl Shape {
    /// An edge of the parent lists leads to a block named among the parents.
    pub proof fn lemma_parent_edge(self, a: int, c: int)
        requires
            self.wf(),
            self.n() <= usize::MAX,
            adj_edge(self.parent_lists())(a, c),
        ensures
            self.parents[a].contains(self.hashes[c]),
    {
        let pl = self.parent_lists();
        let j = choose|j: int| 0 <= j < pl[a].len() && pl[a][j] == c;
        let h = self.parents[a][j];
        lemma_find_text(self.hashes, h);
        assert(find_text(self.hashes, h) >= 0);
        assert(pl[a][j] == find_text(self.hashes, h) as usize);
        assert(self.hashes[c] == h);
    }

    /// A block named among the parents is joined by an edge of the parent lists.
    pub proof fn lemma_edge_of_parent(self, a: int, c: int)
        requires
            self.wf(),
            self.n() <= usize::MAX,
            0 <= a < self.n(),
            0 <= c < self.n(),
            self.parents[a].contains(self.hashes[c]),
        ensures
            adj_edge(self.parent_lists())(a, c),
    {
        let pl = self.parent_lists();
        let j = choose|j: int| 0 <= j < self.parents[a].len() && self.parents[a][j] == self.hashes[c];
        lemma_find_text_unique(self.hashes, self.hashes[c], c);
        assert(pl[a][j] == c);
    }

    /// When the links match the parents, `y` is a descendant of `x` exactly
    /// when `x` is an ancestor of `y`.
    pub proof fn lemma_descendant_iff_ancestor(self, x: int, y: int)
        requires
            self.wf(),
            self.links_match(),
            self.n() <= usize::MAX,
        ensures
            self.is_descendant(x, y) <==> self.is_ancestor(y, x),
    {
        let ce = adj_edge(self.links);
        let pe = adj_edge(self.parent_lists());
        assert forall|u: int, v: int| #[trigger] ce(u, v) implies pe(v, u) by {
            assert(self.link(u, v));
            self.lemma_edge_of_parent(v, u);
        }
        assert forall|u: int, v: int| #[trigger] pe(u, v) implies ce(v, u) by {
            self.lemma_parent_edge(u, v);
            assert(self.link(v, u));
        }
        if self.is_descendant(x, y) {
            lemma_reaches_reverse(ce, pe, x, y);
        }
        if self.is_ancestor(y, x) {
            lemma_reaches_reverse(pe, ce, y, x);
        }
    }

    /// A walk through parents that starts at a block of a run ends at a
    /// block taken before it.
    proof fn lemma_walk_taken_before(self, rank: Seq<int>, p: Seq<int>, b: Seq<bool>, j: int, q: Seq<int>)
        requires
            self.wf(),
            self.links_match(),
            self.n() <= usize::MAX,
            ranked(adj_edge(self.links), rank),
            self.is_run(p, b),
            0 <= j < p.len(),
            is_walk(adj_edge(self.parent_lists()), q),
            q.len() >= 2,
            q[0] == p[j],
        ensures
            exists|i: int| 0 <= i < j && p[i] == q.last(),
        decreases q.len(),
    {
        let pe = adj_edge(self.parent_lists());
        assert(pe(q[0], q[1]));
        self.lemma_parent_edge(q[0], q[1]);
        self.lemma_run_after_parents(rank, p, b, j, q[1]);
        let i1 = choose|i: int| 0 <= i < j && p[i] == q[1];
        if q.len() > 2 {
            let r = q.drop_first();
            self.lemma_walk_taken_before(rank, p, b, i1, r);
            let i = choose|i: int| 0 <= i < i1 && p[i] == r.last();
            assert(p[i] == q.last());
        }
    }

    /// When the links match the parents, every block of a run is taken
    /// after each of its ancestors.
    pub proof fn lemma_run_after_ancestors(self, rank: Seq<int>, p: Seq<int>, b: Seq<bool>, j: int, y: int)
        requires
            self.wf(),
            self.links_match(),
            self.n() <= usize::MAX,
            ranked(adj_edge(self.links), rank),
            self.is_run(p, b),
            0 <= j < p.len(),
            self.is_ancestor(p[j], y),
        ensures
            exists|i: int| 0 <= i < j && p[i] == y,
    {
        let q = choose|q: Seq<int>| #[trigger] is_path(adj_edge(self.parent_lists()), q, p[j], y);
        self.lemma_walk_taken_before(rank, p, b, j, q);
    }
}

/// When every text of `s` names a block and none is repeated, the blocks
/// named in `s` are exactly as many as `s` is long.
pub proof fn lemma_count_named_exact(hashes: Seq<Seq<char>>, s: Seq<Seq<char>>)
    requires
        distinct_texts(hashes),
        distinct_texts(s),
        forall|q: int| 0 <= q < s.len() ==> find_text(hashes, #[trigger] s[q]) >= 0,
    ensures
        count_where(hashes.len() as int, |v: int| s.contains(hashes[v])) == s.len(),
    decreases s.len(),
{
    let n = hashes.len() as int;
    let fs = |v: int| s.contains(hashes[v]);
    if s.len() == 0 {
        lemma_count_where_none(n, fs);
    } else {
        let t = s.drop_last();
        let h = s.last();
        let ft = |v: int| t.contains(hashes[v]);
        assert forall|q: int| 0 <= q < t.len() implies find_text(hashes, #[trigger] t[q]) >= 0 by {
            assert(t[q] == s[q]);
        }
        lemma_count_named_exact(hashes, t);
        assert forall|a: Seq<char>| #[trigger] s.contains(a) <==> (t.contains(a) || a == h) by {
            if s.contains(a) {
                let q = choose|q: int| 0 <= q < s.len() && s[q] == a;
                if q < t.len() {
                    assert(t[q] == a);
                }
            }
            if t.contains(a) {
                let q = choose|q: int| 0 <= q < t.len() && t[q] == a;
                assert(s[q] == a);
            }
            if a == h {
                assert(s[s.len() - 1] == a);
            }
        }
        assert(!t.contains(h)) by {
            if t.contains(h) {
                let q = choose|q: int| 0 <= q < t.len() && t[q] == h;
                assert(s[q] != s[s.len() - 1]);
            }
        }
        assert(find_text(hashes, s[s.len() - 1]) >= 0);
        lemma_find_text(hashes, h);
        let v0 = find_text(hashes, h);
        assert forall|i: int| 0 <= i < n && i != v0 implies #[trigger] fs(i) == ft(i) by {
            if i < v0 {
                assert(hashes[i] != hashes[v0]);
            } else {
                assert(hashes[v0] != hashes[i]);
            }
        }
        lemma_count_where_flip(n, fs, ft, v0);
    }
}

impl Shape {
    /// Every block other than genesis has parents, none named twice.
    pub open spec fn parents_proper(self) -> bool {
        forall|x: int|
            0 <= x < self.n() && x != self.genesis() ==> self.plen(x) > 0 && distinct_texts(#[trigger] self.parents[x])
    }

    /// A block that does not occur in `pp` has not been taken.
    pub proof fn lemma_pops_zero(self, pp: Seq<int>, x: int)
        requires
            !pp.contains(x),
        ensures
            self.pops(pp, x) == 0,
        decreases pp.len(),
    {
        if pp.len() > 0 {
            assert(pp.last() == pp[pp.len() - 1]);
            assert(!pp.drop_last().contains(x)) by {
                if pp.drop_last().contains(x) {
                    let q = choose|q: int| 0 <= q < pp.drop_last().len() && pp.drop_last()[q] == x;
                    assert(pp[q] == x);
                }
            }
            self.lemma_pops_zero(pp.drop_last(), x);
        }
    }

    /// When the links match the parents and every block other than genesis
    /// has parents, none named twice, a run takes every block.
    pub proof fn lemma_run_complete(self, rank: Seq<int>, p: Seq<int>, b: Seq<bool>, z: int)
        requires
            self.wf(),
            self.links_match(),
            self.parents_proper(),
            rank.len() == self.n(),
            ranked(adj_edge(self.links), rank),
            self.is_run(p, b),
            0 <= z < self.n(),
        ensures
            p.contains(z),
    {
        let n = self.n();
        if !p.contains(z) {
            let pred = |v: int| !p.contains(v);
            assert(pred(z));
            let m = lemma_min_rank(rank, pred, n);
            self.lemma_pops_zero(p, m);
            if m != self.genesis() {
                self.lemma_run_no_dups(rank, p, b);
                assert forall|i: int| 0 <= i < p.len() implies 0 <= #[trigger] p[i] < n by {
                    assert(self.next_ok(p.take(i), b.take(i), p[i], b[i]));
                }
                self.lemma_linked_count(p, m);
                let f = |v: int| p.contains(v) && self.link(v, m);
                let h = |v: int| self.link(v, m);
                let g = |v: int| self.parents[m].contains(self.hashes[v]);
                assert forall|v: int| 0 <= v < n implies #[trigger] f(v) == h(v) by {
                    if self.link(v, m) {
                        assert(adj_edge(self.links)(v, m));
                        assert(rank[v] < rank[m]);
                        if !p.contains(v) {
                            assert(pred(v));
                        }
                    }
                }
                lemma_count_where_ext(n, f, h);
                assert forall|v: int| 0 <= v < n implies #[trigger] h(v) == g(v) by {
                    assert(self.link(v, m) <==> self.parents[m].contains(self.hashes[v]));
                }
                lemma_count_where_ext(n, h, g);
                assert(distinct_texts(self.parents[m]));
                assert forall|q: int| 0 <= q < self.parents[m].len() implies find_text(
                    self.hashes,
                    #[trigger] self.parents[m][q],
                ) >= 0 by {}
                lemma_count_named_exact(self.hashes, self.parents[m]);
            }
            assert(self.in_heap(p, m));
            assert(false);
        }
    }
}

impl Shape {
    /// What the blue order of a run holds: no block twice, only blocks,
    /// genesis first; and, when the links match the parents, every blue
    /// ancestor of a blue block before it.
    pub proof fn lemma_blue_order_facts(self, rank: Seq<int>, p: Seq<int>, b: Seq<bool>)
        requires
            self.wf(),
            ranked(adj_edge(self.links), rank),
            self.is_run(p, b),
        ensures
            forall|i: int, j: int| 0 <= i < j < blue_order(p, b).len() ==> blue_order(p, b)[i] != blue_order(p, b)[j],
            forall|i: int| 0 <= i < blue_order(p, b).len() ==> 0 <= #[trigger] blue_order(p, b)[i] < self.n(),
            blue_order(p, b).len() > 0,
            blue_order(p, b)[0] == self.genesis(),
            self.links_match() && self.n() <= usize::MAX ==> forall|i: int, j: int|
                0 <= i < blue_order(p, b).len() && 0 <= j < blue_order(p, b).len() && self.is_ancestor(
                    #[trigger] blue_order(p, b)[j],
                    #[trigger] blue_order(p, b)[i],
                ) ==> i < j,
    {
        let n = self.n();
        let g = self.genesis();
        let s = blue_order(p, b);
        self.lemma_run_no_dups(rank, p, b);
        lemma_blue_order_sub(p, b);
        assert forall|q: int| 0 <= q < p.len() implies 0 <= #[trigger] p[q] < n by {
            assert(self.next_ok(p.take(q), b.take(q), p[q], b[q]));
        }
        lemma_blue_order_range(p, b, n);
        lemma_find_text(self.hashes, genesis_hash());
        if p.len() == 0 {
            self.lemma_pops_zero(p, g);
            assert(self.in_heap(p, g));
            assert(false);
        }
        self.lemma_run_rank(rank, p, b, 0);
        assert(p.take(0) =~= Seq::<int>::empty());
        assert(self.next_ok(p.take(0), b.take(0), p[0], b[0]));
        assert(b[0]);
        lemma_blue_order_first(p, b);
        if self.links_match() && n <= usize::MAX {
            assert forall|i: int, j: int|
                0 <= i < s.len() && 0 <= j < s.len() && self.is_ancestor(#[trigger] s[j], #[trigger] s[i]) implies i < j by {
                assert(s.contains(s[j]));
                assert(s.contains(s[i]));
                let jj = choose|k: int| 0 <= k < p.len() && p[k] == s[j] && b[k];
                let i2 = choose|k: int| 0 <= k < p.len() && p[k] == s[i] && b[k];
                self.lemma_run_after_ancestors(rank, p, b, jj, s[i]);
                let ii = choose|k: int| 0 <= k < jj && p[k] == s[i];
                assert(ii == i2);
                lemma_blue_order_before(p, b, ii, jj);
                lemma_last_pos_unique(s, i);
                lemma_last_pos_unique(s, j);
            }
        }
    }
}

impl Shape {
    /// At each step a run takes, among the ready blocks, one with the most
    /// parents; among those with as many, one with the earliest timestamp;
    /// among those, the one with the greatest hash.
    pub proof fn lemma_run_takes_highest_priority(self, p: Seq<int>, b: Seq<bool>, j: int, y: int)
        requires
            self.is_run(p, b),
            0 <= j < p.len(),
            0 <= y < self.n(),
            self.in_heap(p.take(j), y),
            y != p[j],
        ensures
            self.plen(y) <= self.plen(p[j]),
            self.plen(y) == self.plen(p[j]) ==> self.timestamps[y] >= self.timestamps[p[j]],
            self.plen(y) == self.plen(p[j]) && self.timestamps[y] == self.timestamps[p[j]] ==> text_lt(
                self.hashes[y],
                self.hashes[p[j]],
            ),
    {
        assert(self.next_ok(p.take(j), b.take(j), p[j], b[j]));
    }
}

} // verus!

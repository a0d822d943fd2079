//! A DAG-based ledger. Blocks may have several parents; the GHOSTDAG rule
//! colours them blue (on the main ordering) or red and gives every blue
//! block a weight, its place in the canonical order. Transactions move
//! balances between accounts and are executed in that order.
use vstd::prelude::*;

use crate::ghostdag::{
    lemma_blue_order_first, lemma_blue_order_sub, lemma_last_pos_found, lemma_last_pos_unique, blue_listing, is_blue_listing, lemma_blue_listing_unique, weight_before, blue_order, colors_match, distinct_texts, find_text, last_pos, lemma_blue_order_range,
    lemma_find_text, lemma_find_text_unique, lemma_last_pos_take, shape_of, lemma_blue_order_before,
    Shape,
};
use crate::graph::{
    adj_edge, adj_ok, all_false, ranked, list_contains, set_insert, count_where, lemma_count_where_flip, lemma_count_where_le,
    lemma_count_where_ext, lemma_count_where_fewer, lemma_count_where_mono, lemma_swap_remove, lists, no_dups, positives, reachable_from,
};
use crate::text::{join3, push_decimal, string_lt};
use vstd::string::StringExecFns;
use crate::ledger::{
    debited, distinct_addresses, exec_tx, exec_tx_overflows, failed_text, find_account,
    lemma_find_account, lemma_find_account_unique, msg_missing_sender, msg_not_executed,
    reason_balance, reason_nonce, revert_from, revert_from_overflows, revert_tx, revert_tx_overflows,
    with_funds, with_status, exec_chain, exec_chain_overflows, exec_txs, exec_txs_overflows,
    lemma_exec_chain_overflows_prefix, lemma_exec_chain_step, lemma_exec_txs_overflows_prefix,
    lemma_exec_txs_step, lemma_exec_chain_len, keeps_addresses, same_but_statuses, lemma_exec_chain_frame,
};

verus! {

/// The state of a transaction.
#[derive(Debug, Clone, PartialEq, Eq)]
pub enum TxStatus {
    Pending,
    Executed,
    Failed(String),
    Reverted,
}

/// The state of a transaction, as a value of the model.
pub enum TxState {
    Pending,
    Executed,
    Failed(Seq<char>),
    Reverted,
}

impl View for TxStatus {
    type V = TxState;

    open spec fn view(&self) -> TxState {
        match self {
            TxStatus::Pending => TxState::Pending,
            TxStatus::Executed => TxState::Executed,
            TxStatus::Failed(reason) => TxState::Failed(reason@),
            TxStatus::Reverted => TxState::Reverted,
        }
    }
}

/// A transfer of `amount` from the account `from` to the account `to`.
#[derive(Debug, Clone, PartialEq, Eq)]
pub struct Transaction {
    pub id: String,
    pub from: String,
    pub to: String,
    pub amount: u64,
    pub nonce: u64,
    pub status: TxStatus,
}

/// A transaction, as a value of the model.
pub struct TxView {
    pub id: Seq<char>,
    pub from: Seq<char>,
    pub to: Seq<char>,
    pub amount: u64,
    pub nonce: u64,
    pub status: TxState,
}

impl View for Transaction {
    type V = TxView;

    open spec fn view(&self) -> TxView {
        TxView {
            id: self.id@,
            from: self.from@,
            to: self.to@,
            amount: self.amount,
            nonce: self.nonce,
            status: self.status@,
        }
    }
}

impl Transaction {
    /// A pending transaction.
    pub fn new(id: String, from: String, to: String, amount: u64, nonce: u64) -> (tx: Transaction)
        ensures
            tx@ == (TxView { id: id@, from: from@, to: to@, amount, nonce, status: TxState::Pending }),
    {
        Transaction { id, from, to, amount, nonce, status: TxStatus::Pending }
    }
}

/// The colour GHOSTDAG gives a block.
#[derive(Debug, Clone, Copy, PartialEq, Eq, Structural)]
pub enum BlockColor {
    /// On the main ordering.
    Blue,
    /// Off the main ordering.
    Red,
}

/// A block: its hash, the hashes of its parents, its transactions, and the
/// colour and weight that GHOSTDAG gave it.
#[derive(Debug, Clone)]
pub struct Block {
    pub hash: String,
    pub parent_hashes: Vec<String>,
    pub transactions: Vec<Transaction>,
    pub timestamp: u64,
    pub height: u64,
    pub color: BlockColor,
    pub weight: u64,
}

/// The texts of a list of strings.
pub open spec fn texts(v: Seq<String>) -> Seq<Seq<char>> {
    v.map_values(|s: String| s@)
}

/// The models of a list of transactions.
pub open spec fn tx_views(v: Seq<Transaction>) -> Seq<TxView> {
    v.map_values(|t: Transaction| t@)
}

/// A block, as a value of the model.
pub struct BlockView {
    pub hash: Seq<char>,
    pub parents: Seq<Seq<char>>,
    pub txs: Seq<TxView>,
    pub timestamp: u64,
    pub height: u64,
    pub color: BlockColor,
    pub weight: u64,
}

impl View for Block {
    type V = BlockView;

    open spec fn view(&self) -> BlockView {
        BlockView {
            hash: self.hash@,
            parents: texts(self.parent_hashes@),
            txs: tx_views(self.transactions@),
            timestamp: self.timestamp,
            height: self.height,
            color: self.color,
            weight: self.weight,
        }
    }
}

/// The hash of the genesis block.
pub open spec fn genesis_hash() -> Seq<char> {
    "genesis"@
}

/// The genesis block: hash `genesis`, no parents, no transactions,
/// timestamp 0, blue, weight 1.
pub open spec fn genesis_view() -> BlockView {
    BlockView {
        hash: genesis_hash(),
        parents: Seq::empty(),
        txs: Seq::empty(),
        timestamp: 0,
        height: 0,
        color: BlockColor::Blue,
        weight: 1,
    }
}

impl Block {
    /// A blue block of height and weight zero.
    pub fn new(hash: String, parent_hashes: Vec<String>, transactions: Vec<Transaction>, timestamp: u64) -> (b: Block)
        ensures
            b.hash == hash,
            b.parent_hashes == parent_hashes,
            b.transactions == transactions,
            b.timestamp == timestamp,
            b.height == 0,
            b.color == BlockColor::Blue,
            b.weight == 0,
    {
        Block { hash, parent_hashes, transactions, timestamp, height: 0, color: BlockColor::Blue, weight: 0 }
    }

    /// The genesis block: hash `genesis`, no parents, no transactions,
    /// timestamp 0, blue, weight 1.
    pub fn genesis() -> (b: Block)
        ensures
            b@ == genesis_view(),
    {
        let b = Block {
            hash: "genesis".to_string(),
            parent_hashes: Vec::new(),
            transactions: Vec::new(),
            timestamp: 0,
            height: 0,
            color: BlockColor::Blue,
            weight: 1,
        };
        assert(texts(b.parent_hashes@) =~= Seq::empty());
        assert(tx_views(b.transactions@) =~= Seq::empty());
        b
    }
}

/// An account: its address, balance and the number of transactions it has sent.
#[derive(Debug, Clone)]
pub struct Account {
    pub address: String,
    pub balance: u64,
    pub nonce: u64,
}

/// An account, as a value of the model.
pub struct AccountView {
    pub address: Seq<char>,
    pub balance: u64,
    pub nonce: u64,
}

impl View for Account {
    type V = AccountView;

    open spec fn view(&self) -> AccountView {
        AccountView { address: self.address@, balance: self.balance, nonce: self.nonce }
    }
}

impl Account {
    /// An account with the given balance and nonce 0.
    pub fn new(address: String, balance: u64) -> (a: Account)
        ensures
            a@ == (AccountView { address: address@, balance, nonce: 0 }),
    {
        Account { address, balance, nonce: 0 }
    }
}


/// `y` is one of the first `j` entries of `s`.
pub open spec fn among_first(s: Seq<usize>, j: int, y: int) -> bool {
    exists|q: int| 0 <= q < j && s[q] == y
}

/// The position of the first of `ps` that is not among `hashes`, or -1.
pub open spec fn first_missing(hashes: Seq<Seq<char>>, ps: Seq<Seq<char>>) -> int
    decreases ps.len(),
{
    if ps.len() == 0 {
        -1
    } else if first_missing(hashes, ps.drop_last()) >= 0 {
        first_missing(hashes, ps.drop_last())
    } else if find_text(hashes, ps.last()) < 0 {
        ps.len() - 1
    } else {
        -1
    }
}

pub proof fn lemma_first_missing(hashes: Seq<Seq<char>>, ps: Seq<Seq<char>>)
    ensures
        -1 <= first_missing(hashes, ps) < ps.len(),
        first_missing(hashes, ps) >= 0 ==> find_text(hashes, ps[first_missing(hashes, ps)]) < 0,
        first_missing(hashes, ps) < 0 ==> forall|q: int| 0 <= q < ps.len() ==> find_text(hashes, #[trigger] ps[q]) >= 0,
    decreases ps.len(),
{
    if ps.len() > 0 {
        lemma_first_missing(hashes, ps.drop_last());
        if first_missing(hashes, ps) < 0 {
            assert forall|q: int| 0 <= q < ps.len() implies find_text(hashes, #[trigger] ps[q]) >= 0 by {
                if q < ps.len() - 1 {
                    assert(ps[q] == ps.drop_last()[q]);
                }
            }
        }
    }
}

/// The first missing hash of a prefix that has one is the first missing of the list.
pub proof fn lemma_first_missing_prefix(hashes: Seq<Seq<char>>, ps: Seq<Seq<char>>, j: int)
    requires
        0 <= j <= ps.len(),
        first_missing(hashes, ps.take(j)) >= 0,
    ensures
        first_missing(hashes, ps) == first_missing(hashes, ps.take(j)),
    decreases ps.len() - j,
{
    if j < ps.len() {
        assert(ps.take(j + 1).drop_last() =~= ps.take(j));
        lemma_first_missing_prefix(hashes, ps, j + 1);
    } else {
        assert(ps.take(j) =~= ps);
    }
}

pub open spec fn msg_missing_parent(h: Seq<char>) -> Seq<char> {
    "Parent block '"@ + h + "' does not exist"@
}

/// `b` with other transactions.
pub open spec fn with_txs(b: BlockView, txs: Seq<TxView>) -> BlockView {
    BlockView {
        hash: b.hash,
        parents: b.parents,
        txs,
        timestamp: b.timestamp,
        height: b.height,
        color: b.color,
        weight: b.weight,
    }
}

/// Every transaction of `txs`, marked reverted.
pub open spec fn all_reverted(txs: Seq<TxView>) -> Seq<TxView> {
    txs.map_values(|t: TxView| with_status(t, TxState::Reverted))
}

pub open spec fn msg_missing_block(h: Seq<char>) -> Seq<char> {
    "Block '"@ + h + "' does not exist"@
}

/// `a` and `b` agree on everything but colour and weight.
pub open spec fn same_content(a: BlockView, b: BlockView) -> bool {
    &&& a.hash == b.hash
    &&& a.parents == b.parents
    &&& a.txs == b.txs
    &&& a.timestamp == b.timestamp
    &&& a.height == b.height
}

/// 1 when `x` is among the first `j` entries of `s`, else 0.
pub open spec fn in_prefix(s: Seq<usize>, j: int, x: int) -> int {
    if s.take(j).contains(x as usize) {
        1
    } else {
        0
    }
}

/// A DAG-based ledger: blocks (genesis first), the child links between
/// them, accounts, and the GHOSTDAG parameter `k`.
pub struct BlockDAG {
    blocks: Vec<Block>,
    /// `children[i]`: the positions of the blocks that listed block `i` as
    /// a parent, without repetition.
    children: Vec<Vec<usize>>,
    accounts: Vec<Account>,
    k: usize,
    /// A rank that grows along child links.
    rank: Ghost<Seq<int>>,
    /// Above every rank given so far.
    next_rank: Ghost<int>,
}

impl BlockDAG {
    /// The blocks, in the order they were first added.
    pub closed spec fn block_list(&self) -> Seq<BlockView> {
        self.blocks@.map_values(|b: Block| b@)
    }

    /// For each block, the positions of the blocks listed as its children.
    pub closed spec fn child_links(&self) -> Seq<Seq<usize>> {
        lists(self.children@)
    }

    /// The accounts, in the order they were first added.
    pub closed spec fn account_list(&self) -> Seq<AccountView> {
        self.accounts@.map_values(|a: Account| a@)
    }

    /// The GHOSTDAG parameter `k`.
    pub closed spec fn k_param(&self) -> int {
        self.k as int
    }

    /// What GHOSTDAG reads of this DAG.
    pub open spec fn shape(&self) -> Shape {
        shape_of(self.block_list(), self.child_links(), self.k_param())
    }

    /// The position of the block with hash `h`, or -1.
    pub open spec fn block_index(&self, h: Seq<char>) -> int {
        find_text(self.shape().hashes, h)
    }

    /// The internal invariant: the shape is well formed, the colours and
    /// weights are those of the GHOSTDAG run, account addresses are
    /// distinct, and a rank grows along child links.
    pub closed spec fn wf(&self) -> bool {
        &&& self.children@.len() == self.blocks@.len()
        &&& self.shape().wf()
        &&& self.shape().colored_by_ghostdag(self.block_list())
        &&& distinct_addresses(self.account_list())
        &&& self.rank@.len() == self.blocks@.len()
        &&& ranked(adj_edge(self.child_links()), self.rank@)
        &&& forall|i: int| 0 <= i < self.rank@.len() ==> self.rank@[i] < self.next_rank@
    }

    /// A DAG holding only the genesis block, no accounts, and parameter `k`.
    pub fn new(k: usize) -> (dag: BlockDAG)
        ensures
            dag.wf(),
            dag.block_list() == seq![genesis_view()],
            dag.child_links() == seq![Seq::<usize>::empty()],
            dag.account_list() == Seq::<AccountView>::empty(),
            dag.k_param() == k,
            dag.shape().links_match(),
            dag.shape().parents_proper(),
    {
        let mut blocks: Vec<Block> = Vec::new();
        blocks.push(Block::genesis());
        let mut children: Vec<Vec<usize>> = Vec::new();
        children.push(Vec::new());
        let ghost r0: Seq<int> = seq![0int];
        let dag = BlockDAG {
            blocks,
            children,
            accounts: Vec::new(),
            k,
            rank: Ghost(r0),
            next_rank: Ghost(1int),
        };
        proof {
            let sh = dag.shape();
            assert(dag.block_list() =~= seq![genesis_view()]);
            assert(dag.child_links() =~= seq![Seq::<usize>::empty()]);
            assert(dag.account_list() =~= Seq::<AccountView>::empty());
            assert(sh.hashes =~= seq![genesis_hash()]);
            assert(sh.hashes.drop_last() =~= Seq::<Seq<char>>::empty());
            assert(sh.genesis() == 0);
            assert(sh.parents[0].len() == 0);
            assert forall|a: int, b: int| !#[trigger] adj_edge(sh.links)(a, b) by {
                if 0 <= a < 1 {
                    assert(sh.links[a].len() == 0);
                }
            }
            assert(no_dups(sh.links[0]));
            assert(sh.wf());
            let p = seq![0int];
            let b = seq![true];
            assert(p.take(0) =~= Seq::<int>::empty());
            assert(b.take(0) =~= Seq::<bool>::empty());
            assert(sh.pops(Seq::<int>::empty(), 0) == 0);
            assert(sh.in_heap(Seq::<int>::empty(), 0));
            assert(sh.next_ok(p.take(0), b.take(0), p[0], b[0]));
            assert(p.drop_last() =~= Seq::<int>::empty());
            assert(sh.pops(p, 0) == 1);
            assert(!sh.link(0, 0));
            assert(sh.linked(Seq::<int>::empty(), 0) == 0);
            assert(sh.linked(p, 0) == 0);
            assert(sh.is_run(p, b));
            assert(b.drop_last() =~= Seq::<bool>::empty());
            assert(blue_order(Seq::<int>::empty(), Seq::<bool>::empty()) == Seq::<int>::empty());
            assert(blue_order(p, b) =~= seq![0int]);
            assert(colors_match(dag.block_list(), p, b));
        }
        dag
    }
}


impl BlockDAG {
    /// The shape is well formed and there is a children list per block.
    pub closed spec fn shape_ok(&self) -> bool {
        &&& self.children@.len() == self.blocks@.len()
        &&& self.shape().wf()
    }

    /// The position of the block with hash `h`, if there is one.
    fn find_block(&self, h: &String) -> (r: Option<usize>)
        requires
            self.shape_ok(),
        ensures
            match r {
                Some(i) => i < self.blocks@.len() && self.block_index(h@) == i,
                None => self.block_index(h@) < 0,
            },
    {
        let ghost hashes = self.shape().hashes;
        let mut i: usize = 0;
        while i < self.blocks.len()
            invariant
                self.shape_ok(),
                hashes == self.shape().hashes,
                i <= self.blocks@.len(),
                forall|j: int| 0 <= j < i ==> hashes[j] != h@,
            decreases self.blocks@.len() - i,
        {
            if self.blocks[i].hash == *h {
                proof {
                    lemma_find_text_unique(hashes, h@, i as int);
                }
                return Some(i);
            }
            i = i + 1;
        }
        proof {
            lemma_find_text(hashes, h@);
        }
        None
    }

    /// For each block, the positions of its parents.
    fn parent_index_lists(&self) -> (r: Vec<Vec<usize>>)
        requires
            self.shape_ok(),
        ensures
            lists(r@) == self.shape().parent_lists(),
            adj_ok(lists(r@)),
            r@.len() == self.blocks@.len(),
    {
        let ghost sh = self.shape();
        let n = self.blocks.len();
        let mut r: Vec<Vec<usize>> = Vec::new();
        let mut i: usize = 0;
        while i < n
            invariant
                self.shape_ok(),
                sh == self.shape(),
                n == self.blocks@.len(),
                i <= n,
                r@.len() == i,
                forall|a: int| 0 <= a < i ==> (#[trigger] r@[a])@ == sh.parent_lists()[a],
            decreases n - i,
        {
            let ps = &self.blocks[i].parent_hashes;
            let mut v: Vec<usize> = Vec::new();
            let mut j: usize = 0;
            while j < ps.len()
                invariant
                    self.shape_ok(),
                    sh == self.shape(),
                    n == self.blocks@.len(),
                    i < n,
                    ps@ == self.blocks@[i as int].parent_hashes@,
                    j <= ps@.len(),
                    v@.len() == j,
                    forall|c: int| 0 <= c < j ==> v@[c] == find_text(sh.hashes, sh.parents[i as int][c]) as usize,
                decreases ps@.len() - j,
            {
                assert(sh.parents[i as int][j as int] == ps@[j as int]@);
                let idx = self.find_block(&ps[j]);
                match idx {
                    Some(x) => {
                        v.push(x);
                    },
                    None => {
                        assert(find_text(sh.hashes, sh.parents[i as int][j as int]) >= 0);
                        assert(false);
                        v.push(0);
                    },
                }
                j = j + 1;
            }
            assert(v@ =~= sh.parent_lists()[i as int]);
            r.push(v);
            i = i + 1;
        }
        proof {
            assert(lists(r@) =~= sh.parent_lists());
            assert forall|a: int, c: int|
                0 <= a < lists(r@).len() && 0 <= c < lists(r@)[a].len() implies (#[trigger] lists(r@)[a][c]) < lists(r@).len() by {
                let h = sh.parents[a][c];
                assert(find_text(sh.hashes, h) >= 0);
                lemma_find_text(sh.hashes, h);
            }
        }
        r
    }

    /// Which blocks are ancestors of block `x`.
    fn get_ancestors(&self, x: usize, parent_idx: &Vec<Vec<usize>>) -> (r: Vec<bool>)
        requires
            self.shape_ok(),
            x < self.blocks@.len(),
            lists(parent_idx@) == self.shape().parent_lists(),
            adj_ok(lists(parent_idx@)),
        ensures
            r@.len() == self.blocks@.len(),
            forall|y: int| 0 <= y < self.blocks@.len() ==> r@[y] == self.shape().is_ancestor(x as int, y),
    {
        assert(lists(parent_idx@).len() == parent_idx@.len());
        reachable_from(parent_idx, x)
    }

    /// Which blocks are descendants of block `x`.
    fn get_descendants(&self, x: usize) -> (r: Vec<bool>)
        requires
            self.shape_ok(),
            x < self.blocks@.len(),
        ensures
            r@.len() == self.blocks@.len(),
            forall|y: int| 0 <= y < self.blocks@.len() ==> r@[y] == self.shape().is_descendant(x as int, y),
            self.shape().links_match() ==> forall|y: int|
                0 <= y < self.blocks@.len() ==> r@[y] == #[trigger] self.shape().is_ancestor(y, x as int),
    {
        let r = reachable_from(&self.children, x);
        proof {
            assert(self.blocks@.len() == self.blocks.len());
            if self.shape().links_match() {
                assert forall|y: int| 0 <= y < self.blocks@.len() implies r@[y] == #[trigger] self.shape().is_ancestor(
                    y,
                    x as int,
                ) by {
                    self.shape().lemma_descendant_iff_ancestor(x as int, y);
                }
            }
        }
        r
    }

    /// The blocks of `reference` that are neither `x`, nor its ancestors,
    /// nor its descendants.
    fn get_anticone(&self, x: usize, reference: &Vec<bool>, parent_idx: &Vec<Vec<usize>>) -> (r: Vec<bool>)
        requires
            self.shape_ok(),
            x < self.blocks@.len(),
            reference@.len() == self.blocks@.len(),
            lists(parent_idx@) == self.shape().parent_lists(),
            adj_ok(lists(parent_idx@)),
        ensures
            r@.len() == self.blocks@.len(),
            forall|y: int|
                0 <= y < self.blocks@.len() ==> r@[y] == (reference@[y] && y != x && !self.shape().is_ancestor(
                    x as int,
                    y,
                ) && !self.shape().is_descendant(x as int, y)),
    {
        let n = self.blocks.len();
        let ancestors = self.get_ancestors(x, parent_idx);
        let descendants = self.get_descendants(x);
        let mut r: Vec<bool> = Vec::new();
        let mut y: usize = 0;
        while y < n
            invariant
                n == self.blocks@.len(),
                reference@.len() == n,
                ancestors@.len() == n,
                descendants@.len() == n,
                y <= n,
                r@.len() == y,
                forall|z: int|
                    0 <= z < y ==> r@[z] == (reference@[z] && z != x && !ancestors@[z] && !descendants@[z]),
            decreases n - y,
        {
            r.push(reference[y] && y != x && !ancestors[y] && !descendants[y]);
            y = y + 1;
        }
        r
    }

    /// Whether block `x` may be blue: at most `k` blocks of `blue` lie in
    /// its anticone.
    fn is_blue_candidate(&self, x: usize, blue: &Vec<bool>, parent_idx: &Vec<Vec<usize>>) -> (r: bool)
        requires
            self.shape_ok(),
            x < self.blocks@.len(),
            blue@.len() == self.blocks@.len(),
            lists(parent_idx@) == self.shape().parent_lists(),
            adj_ok(lists(parent_idx@)),
        ensures
            r == (count_where(self.blocks@.len() as int, self.shape().anticone_of(blue@, x as int))
                <= self.k),
    {
        let n = self.blocks.len();
        let anticone = self.get_anticone(x, blue, parent_idx);
        let ghost f = self.shape().anticone_of(blue@, x as int);
        let mut count: usize = 0;
        let mut y: usize = 0;
        while y < n
            invariant
                f == self.shape().anticone_of(blue@, x as int),
                n == self.blocks@.len(),
                anticone@.len() == n,
                blue@.len() == n,
                forall|z: int| 0 <= z < n ==> anticone@[z] == f(z),
                y <= n,
                count == count_where(y as int, f),
            decreases n - y,
        {
            proof {
                lemma_count_where_le(y as int, f);
            }
            assert(count_where(y + 1, f) == count_where(y as int, f) + if f(y as int) {
                1nat
            } else {
                0nat
            });
            if anticone[y] && blue[y] {
                count = count + 1;
            }
            y = y + 1;
        }
        count <= self.k
    }

    /// Whether block `a` has lower GHOSTDAG priority than block `b`.
    fn prio_less(&self, a: usize, b: usize) -> (r: bool)
        requires
            self.shape_ok(),
            a < self.blocks@.len(),
            b < self.blocks@.len(),
        ensures
            r == self.shape().prio_lt(a as int, b as int),
    {
        let ba = &self.blocks[a];
        let bb = &self.blocks[b];
        let la = ba.parent_hashes.len();
        let lb = bb.parent_hashes.len();
        if la != lb {
            return la < lb;
        }
        if ba.timestamp != bb.timestamp {
            return ba.timestamp > bb.timestamp;
        }
        string_lt(&ba.hash, &bb.hash)
    }

    /// The position in `heap` of its block of highest priority.
    fn pick_max(&self, heap: &Vec<usize>) -> (pos: usize)
        requires
            self.shape_ok(),
            heap@.len() > 0,
            forall|i: int| 0 <= i < heap@.len() ==> #[trigger] heap@[i] < self.blocks@.len(),
            no_dups(heap@),
        ensures
            pos < heap@.len(),
            forall|i: int|
                0 <= i < heap@.len() && i != pos ==> self.shape().prio_lt(heap@[i] as int, heap@[pos as int] as int),
    {
        let ghost sh = self.shape();
        let mut best: usize = 0;
        let mut i: usize = 1;
        while i < heap.len()
            invariant
                self.shape_ok(),
                sh == self.shape(),
                heap@.len() > 0,
                forall|j: int| 0 <= j < heap@.len() ==> #[trigger] heap@[j] < self.blocks@.len(),
                no_dups(heap@),
                1 <= i <= heap@.len(),
                best < i,
                forall|j: int| 0 <= j < i && j != best ==> sh.prio_lt(heap@[j] as int, heap@[best as int] as int),
            decreases heap@.len() - i,
        {
            if self.prio_less(heap[best], heap[i]) {
                proof {
                    assert forall|j: int| 0 <= j < i + 1 && j != i implies sh.prio_lt(
                        heap@[j] as int,
                        heap@[i as int] as int,
                    ) by {
                        if j != best {
                            sh.lemma_prio_transitive(heap@[j] as int, heap@[best as int] as int, heap@[i as int] as int);
                        }
                    }
                }
                best = i;
            } else {
                proof {
                    if best < i {
                        assert(heap@[best as int] != heap@[i as int]);
                    }
                    sh.lemma_prio_total(heap@[best as int] as int, heap@[i as int] as int);
                }
            }
            i = i + 1;
        }
        best
    }
}


impl BlockDAG {
    /// GHOSTDAG: takes the blocks in priority order from genesis and
    /// colours each one; returns the blue blocks in the order taken, with
    /// the run (order taken and colours) that produced them.
    ///
    /// A block's count of parents still to be taken stops at zero: a block
    /// listed as a child more often than it has parents (a hash added again
    /// with other parents) is made ready once, when the count first reaches
    /// zero, and never again.
    fn ghostdag_sort(&self) -> (r: (Vec<usize>, Ghost<Seq<int>>, Ghost<Seq<bool>>))
        requires
            self.shape_ok(),
        ensures
            self.shape().is_run(r.1@, r.2@),
            r.0@.len() == blue_order(r.1@, r.2@).len(),
            forall|i: int| 0 <= i < r.0@.len() ==> r.0@[i] == blue_order(r.1@, r.2@)[i],
            forall|i: int| 0 <= i < r.0@.len() ==> #[trigger] r.0@[i] < self.block_list().len(),
            ranked(adj_edge(self.child_links()), self.rank@) ==> {
                &&& forall|i: int, j: int| 0 <= i < j < r.0@.len() ==> r.0@[i] != r.0@[j]
                &&& r.0@.len() > 0
                &&& r.0@[0] == self.block_index(genesis_hash())
                &&& self.shape().links_match() ==> forall|i: int, j: int|
                    0 <= i < r.0@.len() && 0 <= j < r.0@.len() && self.shape().is_ancestor(
                        #[trigger] r.0@[j] as int,
                        #[trigger] r.0@[i] as int,
                    ) ==> i < j
            },
    {
        let ghost sh = self.shape();
        let n = self.blocks.len();
        let parent_idx = self.parent_index_lists();
        // the number of parents of each block
        let mut in_deg: Vec<usize> = Vec::new();
        let mut i: usize = 0;
        while i < n
            invariant
                self.shape_ok(),
                sh == self.shape(),
                n == self.blocks@.len(),
                i <= n,
                in_deg@.len() == i,
                forall|x: int| 0 <= x < i ==> in_deg@[x] == sh.plen(x),
            decreases n - i,
        {
            in_deg.push(self.blocks[i].parent_hashes.len());
            i = i + 1;
        }
        let gstr = "genesis".to_string();
        let gi = match self.find_block(&gstr) {
            Some(x) => x,
            None => {
                assert(false);
                0
            },
        };
        let mut heap: Vec<usize> = Vec::new();
        heap.push(gi);
        let mut blue = all_false(n);
        let mut ordered: Vec<usize> = Vec::new();
        let ghost mut p: Seq<int> = Seq::empty();
        let ghost mut b: Seq<bool> = Seq::empty();
        proof {
            assert forall|x: int| 0 <= x < n implies (#[trigger] sh.in_heap(p, x) <==> heap@.contains(x as usize)) by {
                if x == gi {
                    assert(heap@[0] == gi);
                }
            }
            assert(blue_order(p, b) =~= Seq::<int>::empty());
        }
        while heap.len() > 0
            invariant
                self.shape_ok(),
                sh == self.shape(),
                n == self.blocks@.len(),
                lists(parent_idx@) == sh.parent_lists(),
                adj_ok(lists(parent_idx@)),
                gi == sh.genesis(),
                gi < n,
                gstr@ == genesis_hash(),
                in_deg@.len() == n,
                forall|x: int| 0 <= x < n ==> #[trigger] in_deg@[x] == sh.pending(p, x, 0),
                forall|i: int| 0 <= i < heap@.len() ==> #[trigger] heap@[i] < n,
                no_dups(heap@),
                forall|x: int| 0 <= x < n ==> (#[trigger] sh.in_heap(p, x) <==> heap@.contains(x as usize)),
                forall|x: int| 0 <= x < n ==> sh.pops(p, x) <= #[trigger] sh.pushes(p, x) <= sh.pops(p, x) + 1,
                p.len() > 0 ==> p[0] == gi,
                p.len() == b.len(),
                forall|i: int| 0 <= i < p.len() ==> 0 <= #[trigger] p[i] < n,
                forall|j: int| 0 <= j < p.len() ==> #[trigger] sh.next_ok(p.take(j), b.take(j), p[j], b[j]),
                blue@.len() == n,
                forall|y: int| 0 <= y < n ==> blue@[y] == sh.blue_before(p, b, y),
                ordered@.len() == blue_order(p, b).len(),
                forall|i: int| 0 <= i < ordered@.len() ==> ordered@[i] == blue_order(p, b)[i],
            decreases heap@.len() + positives(in_deg@),
        {
            let ghost measure = heap@.len() + positives(in_deg@);
            let pos = self.pick_max(&heap);
            let cur = heap[pos];
            assert(heap@.contains(cur));
            assert(sh.in_heap(p, cur as int));
            let is_blue = if self.blocks[cur].hash == gstr {
                true
            } else {
                let c = self.is_blue_candidate(cur, &blue, &parent_idx);
                proof {
                    lemma_count_where_ext(
                        n as int,
                        sh.anticone_of(blue@, cur as int),
                        |y: int| sh.in_anticone(p, b, cur as int, y),
                    );
                }
                c
            };
            proof {
                assert(is_blue == sh.blue_rule(p, b, cur as int));
                assert forall|y: int| 0 <= y < n && #[trigger] sh.in_heap(p, y) && y != cur implies sh.prio_lt(
                    y,
                    cur as int,
                ) by {
                    assert(heap@.contains(y as usize));
                    let i = choose|i: int| 0 <= i < heap@.len() && heap@[i] == y as usize;
                    if i == pos {
                        assert(false);
                    }
                }
                assert(sh.next_ok(p, b, cur as int, is_blue));
                lemma_swap_remove(heap@, pos as int);
            }
            let ghost old_heap_view = heap@;
            heap.swap_remove(pos);
            if is_blue {
                blue.set(cur, true);
                ordered.push(cur);
            }
            let ghost prev = p;
            let ghost prevb = b;
            proof {
                p = p.push(cur as int);
                b = b.push(is_blue);
                assert forall|j: int| 0 <= j < p.len() implies #[trigger] sh.next_ok(p.take(j), b.take(j), p[j], b[j]) by {
                    if j < prev.len() {
                        assert(p.take(j) =~= prev.take(j));
                        assert(b.take(j) =~= prevb.take(j));
                    } else {
                        assert(p.take(j) =~= prev);
                        assert(b.take(j) =~= prevb);
                    }
                }
                if prev.len() == 0 {
                    assert(sh.linked(prev, cur as int) == 0);
                    assert(cur == gi);
                }
                assert forall|y: int| 0 <= y < n implies blue@[y] == sh.blue_before(p, b, y) by {
                    if sh.blue_before(prev, prevb, y) {
                        let i = choose|i: int| 0 <= i < prev.len() && prev[i] == y && #[trigger] prevb[i];
                        assert(p[i] == y && b[i]);
                    }
                    if sh.blue_before(p, b, y) {
                        let i = choose|i: int| 0 <= i < p.len() && p[i] == y && #[trigger] b[i];
                        if i < prev.len() {
                            assert(prev[i] == y && prevb[i]);
                        }
                    }
                    if y == cur && is_blue {
                        assert(p[prev.len() as int] == y && b[prev.len() as int]);
                    }
                }
                assert(p.drop_last() =~= prev);
                assert(b.drop_last() =~= prevb);
                assert(ordered@.len() == blue_order(p, b).len());
                assert forall|x: int| 0 <= x < n implies sh.pops(p, x) == sh.pops(prev, x) + (if cur == x {
                    1int
                } else {
                    0int
                }) && sh.linked(p, x) == sh.linked(prev, x) + (if sh.link(cur as int, x) {
                    1int
                } else {
                    0int
                }) by {
                    sh.lemma_pops_push(prev, cur as int, x);
                }
            }
            let ch = &self.children[cur];
            assert(ch@ == sh.links[cur as int]);
            proof {
                assert(ch@.take(0) =~= Seq::<usize>::empty());
                assert forall|x: int| 0 <= x < n implies (heap@.contains(x as usize) <==> #[trigger] sh.pushes_with(
                    prev,
                    x,
                    in_prefix(ch@, 0, x),
                ) > sh.pops(p, x)) by {
                    assert(in_prefix(ch@, 0, x) == 0);
                    assert(sh.pushes_with(prev, x, 0) == sh.pushes(prev, x));
                    assert(sh.in_heap(prev, x) <==> old_heap_view.contains(x as usize));
                }
                assert forall|x: int| 0 <= x < n implies sh.pops(p, x) <= #[trigger] sh.pushes_with(
                    prev,
                    x,
                    in_prefix(ch@, 0, x),
                ) <= sh.pops(p, x) + 1 by {
                    assert(in_prefix(ch@, 0, x) == 0);
                    assert(sh.pushes_with(prev, x, 0) == sh.pushes(prev, x));
                    assert(sh.pops(prev, x) <= sh.pushes(prev, x) <= sh.pops(prev, x) + 1);
                }
            }
            let mut j: usize = 0;
            #[verifier::loop_isolation(false)]
            while j < ch.len()
                invariant
                    j <= ch@.len(),
                    in_deg@.len() == n,
                    forall|x: int|
                        0 <= x < n ==> #[trigger] in_deg@[x] == sh.pending(prev, x, in_prefix(ch@, j as int, x)),
                    forall|i: int| 0 <= i < heap@.len() ==> #[trigger] heap@[i] < n,
                    no_dups(heap@),
                    forall|x: int|
                        0 <= x < n ==> (heap@.contains(x as usize) <==> #[trigger] sh.pushes_with(prev, x, in_prefix(ch@, j as int, x)) > sh.pops(p, x)),
                    forall|x: int|
                        0 <= x < n ==> sh.pops(p, x) <= #[trigger] sh.pushes_with(prev, x, in_prefix(ch@, j as int, x)) <= sh.pops(p, x) + 1,
                    heap@.len() + positives(in_deg@) + 1 == measure,
                decreases ch@.len() - j,
            {
                let c = ch[j];
                assert(c < n) by {
                    assert(sh.links[cur as int][j as int] < sh.links.len());
                }
                let ghost t0 = ch@.take(j as int);
                let ghost t1 = ch@.take(j + 1);
                proof {
                    assert(!t0.contains(c)) by {
                        assert(no_dups(sh.links[cur as int]));
                        if t0.contains(c) {
                            let q = choose|q: int| 0 <= q < t0.len() && t0[q] == c;
                            assert(ch@[q] == ch@[j as int]);
                        }
                    }
                    assert(t1[j as int] == c);
                    assert forall|x: usize| #[trigger] t1.contains(x) <==> (t0.contains(x) || x == c) by {
                        if t1.contains(x) {
                            let q = choose|q: int| 0 <= q < t1.len() && t1[q] == x;
                            if q < j {
                                assert(t0[q] == x);
                            }
                        }
                        if t0.contains(x) {
                            let q = choose|q: int| 0 <= q < t0.len() && t0[q] == x;
                            assert(t1[q] == x);
                        }
                    }
                }
                let ghost deg_before = in_deg@;
                let ghost heap_before = heap@;
                proof {
                    assert forall|x: int| 0 <= x < n implies #[trigger] in_prefix(ch@, j + 1, x) == in_prefix(ch@, j as int, x) + (if x == c {
                        1int
                    } else {
                        0int
                    }) by {
                        assert(t0.contains(x as usize) ==> x != c);
                    }
                    assert(in_prefix(ch@, j as int, c as int) == 0);
                }
                if in_deg[c] > 0 {
                    in_deg.set(c, in_deg[c] - 1);
                    if in_deg[c] == 0 {
                        proof {
                            lemma_count_where_flip(
                                n as int,
                                |i: int| deg_before[i] > 0,
                                |i: int| in_deg@[i] > 0,
                                c as int,
                            );
                            if c == gi {
                                assert(p[0] == gi);
                                assert(sh.pops(p, gi as int) >= 1) by {
                                    sh.lemma_pops_first(p, gi as int);
                                }
                            }
                            sh.lemma_pops_range(p, c as int);
                            assert(deg_before[c as int] == sh.pending(prev, c as int, 0));
                            assert(sh.linked(prev, c as int) < sh.plen(c as int));
                            assert(sh.pushes_with(prev, c as int, 0) <= sh.pops(p, c as int));
                            assert(!heap@.contains(c));
                        }
                        let ghost old_heap = heap@;
                        heap.push(c);
                        proof {
                            assert forall|i: int, k: int| 0 <= i < k < heap@.len() implies heap@[i] != heap@[k] by {
                                if k == old_heap.len() {
                                    assert(old_heap.contains(heap@[i]) ==> true);
                                    assert(heap@[i] == old_heap[i]);
                                }
                            }
                            assert forall|x: usize| #[trigger] heap@.contains(x) <==> (old_heap.contains(x) || x == c) by {
                                if heap@.contains(x) {
                                    let q = choose|q: int| 0 <= q < heap@.len() && heap@[q] == x;
                                    if q < old_heap.len() {
                                        assert(old_heap[q] == x);
                                    }
                                }
                                if old_heap.contains(x) {
                                    let q = choose|q: int| 0 <= q < old_heap.len() && old_heap[q] == x;
                                    assert(heap@[q] == x);
                                }
                                if x == c {
                                    assert(heap@[old_heap.len() as int] == c);
                                }
                            }
                        }
                    } else {
                        proof {
                            lemma_count_where_ext(n as int, |i: int| deg_before[i] > 0, |i: int| in_deg@[i] > 0);
                        }
                    }
                }
                proof {
                    assert(in_prefix(ch@, j + 1, c as int) == 1);
                    assert forall|x: int| 0 <= x < n implies (heap@.contains(x as usize) <==> #[trigger] sh.pushes_with(
                        prev,
                        x,
                        in_prefix(ch@, j + 1, x),
                    ) > sh.pops(p, x)) && sh.pops(p, x) <= sh.pushes_with(prev, x, in_prefix(ch@, j + 1, x))
                        <= sh.pops(p, x) + 1 by {
                        if x != c {
                            assert(in_prefix(ch@, j + 1, x) == in_prefix(ch@, j as int, x));
                            assert(heap@.contains(x as usize) == heap_before.contains(x as usize));
                            assert(heap_before.contains(x as usize) <==> sh.pushes_with(prev, x, in_prefix(ch@, j as int, x)) > sh.pops(p, x));
                        } else {
                            let tj = in_prefix(ch@, j as int, c as int);
                            assert(tj == 0);
                            assert(sh.pops(p, c as int) <= sh.pushes_with(prev, c as int, tj) <= sh.pops(p, c as int) + 1);
                            assert(heap_before.contains(c) <==> sh.pushes_with(prev, c as int, tj) > sh.pops(p, c as int));
                            assert(deg_before[c as int] == sh.pending(prev, c as int, tj));
                            sh.lemma_pops_range(p, c as int);
                            sh.lemma_pops_range(prev, c as int);
                            if c == gi {
                                sh.lemma_pops_first(p, gi as int);
                            }
                        }
                    }
                }
                j = j + 1;
            }
            proof {
                assert(ch@.take(ch@.len() as int) =~= ch@);
                assert forall|x: int| 0 <= x < n implies (ch@.contains(x as usize) <==> sh.link(cur as int, x)) by {
                    if ch@.contains(x as usize) {
                        let q = choose|q: int| 0 <= q < ch@.len() && ch@[q] == x as usize;
                        assert(sh.links[cur as int][q] == x);
                    }
                    if sh.link(cur as int, x) {
                        let q = choose|q: int| 0 <= q < sh.links[cur as int].len() && sh.links[cur as int][q] == x;
                        assert(ch@[q] == x as usize);
                    }
                }
                assert forall|x: int| 0 <= x < n implies sh.pushes(p, x) == #[trigger] sh.pushes_with(
                    prev,
                    x,
                    in_prefix(ch@, ch@.len() as int, x),
                ) && sh.pending(p, x, 0) == sh.pending(prev, x, in_prefix(ch@, ch@.len() as int, x)) by {
                    assert(ch@.take(ch@.len() as int) =~= ch@);
                }
                assert forall|x: int| 0 <= x < n implies (#[trigger] sh.in_heap(p, x) <==> heap@.contains(x as usize)) by {
                    assert(sh.pushes(p, x) == sh.pushes_with(prev, x, in_prefix(ch@, ch@.len() as int, x)));
                }
                assert forall|x: int| 0 <= x < n implies sh.pops(p, x) <= #[trigger] sh.pushes(p, x) <= sh.pops(p, x) + 1 by {
                    assert(sh.pushes(p, x) == sh.pushes_with(prev, x, in_prefix(ch@, ch@.len() as int, x)));
                }
            }
        }
        proof {
            assert forall|x: int| 0 <= x < n implies !#[trigger] sh.in_heap(p, x) by {
                if sh.in_heap(p, x) {
                    assert(heap@.contains(x as usize));
                    let q = choose|q: int| 0 <= q < heap@.len() && heap@[q] == x as usize;
                }
            }
        }
        proof {
            assert(self.blocks@.len() == self.blocks.len());
            lemma_blue_order_range(p, b, n as int);
            if ranked(adj_edge(self.child_links()), self.rank@) {
                sh.lemma_blue_order_facts(self.rank@, p, b);
                let s = blue_order(p, b);
                assert forall|i: int, j: int|
                    0 <= i < ordered@.len() && 0 <= j < ordered@.len() && sh.links_match() && sh.is_ancestor(
                        #[trigger] ordered@[j] as int,
                        #[trigger] ordered@[i] as int,
                    ) implies i < j by {
                    assert(sh.is_ancestor(s[j], s[i]));
                }
            }
        }
        (ordered, Ghost(p), Ghost(b))
    }
}


impl BlockDAG {
    /// Recolours every block by the GHOSTDAG run: red with weight 0, then
    /// blue with weights 1, 2, ... in blue order.
    fn update_ghostdag_ordering(&mut self)
        requires
            old(self).shape_ok(),
        ensures
            final(self).shape_ok(),
            final(self).shape() == old(self).shape(),
            final(self).shape().colored_by_ghostdag(final(self).block_list()),
            final(self).block_list().len() == old(self).block_list().len(),
            forall|i: int|
                0 <= i < final(self).block_list().len() ==> same_content(
                    #[trigger] final(self).block_list()[i],
                    old(self).block_list()[i],
                ),
            final(self).children == old(self).children,
            final(self).accounts == old(self).accounts,
            final(self).k == old(self).k,
            final(self).rank == old(self).rank,
            final(self).next_rank == old(self).next_rank,
    {
        let ghost sh = self.shape();
        let ghost old_list = self.block_list();
        let (ordered, Ghost(p), Ghost(b)) = self.ghostdag_sort();
        let n = self.blocks.len();
        proof {
            assert forall|q: int| 0 <= q < p.len() implies 0 <= #[trigger] p[q] < n by {
                assert(sh.next_ok(p.take(q), b.take(q), p[q], b[q]));
            }
            lemma_blue_order_range(p, b, n as int);
        }
        let mut i: usize = 0;
        while i < n
            invariant
                self.children == old(self).children,
                self.accounts == old(self).accounts,
                self.k == old(self).k,
                self.rank == old(self).rank,
                self.next_rank == old(self).next_rank,
                n == self.blocks@.len(),
                i <= n,
                self.block_list().len() == n,
                forall|x: int| 0 <= x < n ==> same_content(#[trigger] self.block_list()[x], old_list[x]),
                forall|x: int| 0 <= x < i ==> self.block_list()[x].color == BlockColor::Red && self.block_list()[x].weight == 0,
            decreases n - i,
        {
            let ghost before = self.blocks@;
            let ghost before_list = self.block_list();
            self.blocks[i].color = BlockColor::Red;
            self.blocks[i].weight = 0;
            proof {
                assert forall|x: int| 0 <= x < n implies (x != i ==> #[trigger] self.block_list()[x] == before_list[x])
                    && same_content(self.block_list()[x], before_list[x]) by {
                    assert(self.block_list()[x] == self.blocks@[x]@);
                    assert(before_list[x] == before[x]@);
                    if x != i {
                        assert(self.blocks@[x] == before[x]);
                    }
                }
            }
            i = i + 1;
        }
        let ghost s = blue_order(p, b);
        let mut t: usize = 0;
        while t < ordered.len()
            invariant
                self.children == old(self).children,
                self.accounts == old(self).accounts,
                self.k == old(self).k,
                self.rank == old(self).rank,
                self.next_rank == old(self).next_rank,
                n == self.blocks@.len(),
                self.block_list().len() == n,
                s == blue_order(p, b),
                ordered@.len() == s.len(),
                forall|q: int| 0 <= q < ordered@.len() ==> ordered@[q] == s[q],
                forall|q: int| 0 <= q < s.len() ==> 0 <= #[trigger] s[q] < n,
                t <= ordered@.len(),
                forall|x: int| 0 <= x < n ==> same_content(#[trigger] self.block_list()[x], old_list[x]),
                forall|x: int|
                    0 <= x < n ==> {
                        let pos = last_pos(s.take(t as int), x);
                        &&& (#[trigger] self.block_list()[x]).color == (if pos >= 0 {
                            BlockColor::Blue
                        } else {
                            BlockColor::Red
                        })
                        &&& self.block_list()[x].weight == pos + 1
                    },
            decreases ordered@.len() - t,
        {
            let x = ordered[t];
            assert(ordered@[t as int] == s[t as int]);
            assert(x < n);
            let ghost before = self.blocks@;
            let ghost before_list = self.block_list();
            self.blocks[x].color = BlockColor::Blue;
            self.blocks[x].weight = (t + 1) as u64;
            proof {
                assert forall|y: int| 0 <= y < n implies (y != x ==> #[trigger] self.block_list()[y] == before_list[y])
                    && same_content(self.block_list()[y], before_list[y]) by {
                    assert(self.block_list()[y] == self.blocks@[y]@);
                    assert(before_list[y] == before[y]@);
                    if y != x {
                        assert(self.blocks@[y] == before[y]);
                    }
                }
                assert forall|y: int| 0 <= y < n implies last_pos(s.take(t + 1), y) == if s[t as int] == y {
                    t as int
                } else {
                    last_pos(s.take(t as int), y)
                } by {
                    lemma_last_pos_take(s, t as int, y);
                }
            }
            t = t + 1;
        }
        proof {
            assert(s.take(s.len() as int) =~= s);
            assert(self.block_list().map_values(|bv: BlockView| bv.hash) =~= old_list.map_values(|bv: BlockView| bv.hash));
            assert(self.block_list().map_values(|bv: BlockView| bv.parents) =~= old_list.map_values(|bv: BlockView| bv.parents));
            assert(self.block_list().map_values(|bv: BlockView| bv.timestamp) =~= old_list.map_values(|bv: BlockView| bv.timestamp));
            assert(self.shape() == sh);
            assert(colors_match(self.block_list(), p, b));
        }
    }
}


impl BlockDAG {
    /// The positions of the blocks named by `parents`, or the position in
    /// `parents` of the first hash that names no block.
    fn parent_positions(&self, parents: &Vec<String>) -> (r: Result<Vec<usize>, usize>)
        requires
            self.shape_ok(),
        ensures
            match r {
                Ok(v) => first_missing(self.shape().hashes, texts(parents@)) < 0 && v@.len() == parents@.len()
                    && forall|q: int| 0 <= q < v@.len() ==> v@[q] == find_text(self.shape().hashes, parents@[q]@),
                Err(j) => j == first_missing(self.shape().hashes, texts(parents@)),
            },
    {
        let ghost hashes = self.shape().hashes;
        let mut v: Vec<usize> = Vec::new();
        let mut j: usize = 0;
        while j < parents.len()
            invariant
                self.shape_ok(),
                hashes == self.shape().hashes,
                j <= parents@.len(),
                v@.len() == j,
                first_missing(hashes, texts(parents@).take(j as int)) < 0,
                forall|q: int| 0 <= q < j ==> v@[q] == find_text(hashes, parents@[q]@),
            decreases parents@.len() - j,
        {
            let ghost ps = texts(parents@);
            assert(ps.take(j + 1).drop_last() =~= ps.take(j as int));
            match self.find_block(&parents[j]) {
                None => {
                    assert(first_missing(hashes, ps.take(j + 1)) == j);
                    proof {
                        // the first missing hash of the whole list is the first missing of a prefix
                        lemma_first_missing_prefix(hashes, ps, j + 1);
                    }
                    return Err(j);
                },
                Some(i) => {
                    v.push(i);
                },
            }
            j = j + 1;
        }
        assert(texts(parents@).take(parents@.len() as int) =~= texts(parents@));
        Ok(v)
    }

    /// Adds a block. Refused, with nothing changed, when one of its
    /// parents is not a block; the error names the first such parent.
    /// Otherwise the block is stored (in place of the block with the same
    /// hash, if any), each parent lists it as a child, it has no children,
    /// and every block is recoloured by GHOSTDAG.
    pub fn add_block(&mut self, block: Block) -> (r: Result<(), String>)
        requires
            old(self).wf(),
        ensures
            final(self).wf(),
            ({
                let hashes = old(self).shape().hashes;
                let miss = first_missing(hashes, block@.parents);
                &&& miss >= 0 ==> (r matches Err(m) && m@ == msg_missing_parent(block@.parents[miss])
                    && *final(self) == *old(self))
                &&& miss < 0 ==> r is Ok
            }),
            first_missing(old(self).shape().hashes, block@.parents) < 0 ==> ({
                let old_n = old(self).block_list().len();
                let e = old(self).block_index(block@.hash);
                let idx = if e >= 0 {
                    e
                } else {
                    old_n as int
                };
                &&& final(self).block_list().len() == (if e >= 0 {
                    old_n
                } else {
                    old_n + 1
                })
                &&& forall|i: int|
                    0 <= i < final(self).block_list().len() ==> same_content(
                        #[trigger] final(self).block_list()[i],
                        if i == idx {
                            block@
                        } else {
                            old(self).block_list()[i]
                        },
                    )
                &&& forall|y: int|
                    0 <= y < final(self).block_list().len() ==> #[trigger] final(self).child_links()[y] == (if y == idx {
                        Seq::<usize>::empty()
                    } else if block@.parents.contains(old(self).block_list()[y].hash) {
                        set_insert(old(self).child_links()[y], idx as usize)
                    } else {
                        old(self).child_links()[y]
                    })
                &&& final(self).account_list() == old(self).account_list()
                &&& final(self).k_param() == old(self).k_param()
                &&& final(self).shape().colored_by_ghostdag(final(self).block_list())
            }),
            first_missing(old(self).shape().hashes, block@.parents) < 0 && old(self).block_index(block@.hash) < 0
                && old(self).shape().links_match() ==> final(self).shape().links_match(),
            first_missing(old(self).shape().hashes, block@.parents) < 0 && old(self).block_index(block@.hash) < 0
                && old(self).shape().parents_proper() && block@.parents.len() > 0 && distinct_texts(block@.parents)
                ==> final(self).shape().parents_proper(),
    {
        let ghost sh0 = self.shape();
        let ghost bv = block@;
        let pidx = match self.parent_positions(&block.parent_hashes) {
            Err(j) => {
                proof {
                    lemma_first_missing(sh0.hashes, bv.parents);
                }
                return Err(join3("Parent block '", block.parent_hashes[j].as_str(), "' does not exist"));
            },
            Ok(v) => v,
        };
        proof {
            lemma_first_missing(sh0.hashes, bv.parents);
        }
        let n = self.blocks.len();
        let existing = self.find_block(&block.hash);
        let idx: usize = match existing {
            Some(i) => i,
            None => n,
        };
        let ghost old_links = self.child_links();
        // each parent lists the block as a child
        let mut j: usize = 0;
        while j < pidx.len()
            invariant
                self.blocks == old(self).blocks,
                self.accounts == old(self).accounts,
                self.k == old(self).k,
                self.rank == old(self).rank,
                self.next_rank == old(self).next_rank,
                sh0 == old(self).shape(),
                old_links == old(self).child_links(),
                n == self.blocks@.len(),
                self.children@.len() == n,
                j <= pidx@.len(),
                pidx@.len() == bv.parents.len(),
                forall|q: int| 0 <= q < pidx@.len() ==> #[trigger] pidx@[q] == find_text(sh0.hashes, bv.parents[q]),
                forall|q: int| 0 <= q < pidx@.len() ==> 0 <= find_text(sh0.hashes, #[trigger] bv.parents[q]),
                forall|y: int|
                    0 <= y < n ==> #[trigger] self.child_links()[y] == (if among_first(pidx@, j as int, y) {
                        set_insert(old_links[y], idx)
                    } else {
                        old_links[y]
                    }),
            decreases pidx@.len() - j,
        {
            let pi = pidx[j];
            proof {
                lemma_find_text(sh0.hashes, bv.parents[j as int]);
            }
            assert(pi < n);
            let ghost before = self.child_links();
            let ghost before_c = self.children@;
            assert(self.children@[pi as int]@ == before[pi as int]);
            let ghost had = among_first(pidx@, j as int, pi as int);
            proof {
                if had {
                    let q = choose|q: int| 0 <= q < j && pidx@[q] == pi as int;
                    let l = old_links[pi as int];
                    if !l.contains(idx) {
                        assert(l.push(idx)[l.len() as int] == idx);
                    }
                    assert(set_insert(l, idx).contains(idx));
                }
            }
            let present = list_contains(&self.children[pi], idx);
            if !present {
                self.children[pi].push(idx);
                proof {
                    assert(self.children@[pi as int]@ == before[pi as int].push(idx));
                    assert(!had);
                }
            }
            proof {
                assert forall|y: int| 0 <= y < n implies #[trigger] self.child_links()[y] == (if among_first(
                    pidx@,
                    j + 1,
                    y,
                ) {
                    set_insert(old_links[y], idx)
                } else {
                    old_links[y]
                }) by {
                    assert(self.child_links()[y] == self.children@[y]@);
                    assert(before[y] == before_c[y]@);
                    if y == pi {
                        assert(pidx@[j as int] == y);
                        assert(among_first(pidx@, j + 1, y));
                        let target = set_insert(old_links[y], idx);
                        if had {
                            assert(before[y] == target);
                            assert(before[y].contains(idx));
                            assert(present);
                            assert(self.children@[y] == before_c[y]);
                        } else {
                            assert(before[y] == old_links[y]);
                            if present {
                                assert(self.children@[y] == before_c[y]);
                                assert(target == old_links[y]);
                            } else {
                                assert(self.child_links()[y] == before[y].push(idx));
                                assert(target == old_links[y].push(idx));
                            }
                        }
                    } else {
                        assert(self.children@[y] == before_c[y]);
                        assert(among_first(pidx@, j + 1, y) == among_first(pidx@, j as int, y)) by {
                            if among_first(pidx@, j + 1, y) {
                                let q = choose|q: int| 0 <= q < j + 1 && pidx@[q] == y;
                                assert(q < j);
                            }
                        }
                    }
                }
            }
            j = j + 1;
        }
        let ghost links1 = self.child_links();
        let ghost old_children_after_link = self.children@;
        let ghost list0 = self.block_list();
        let ghost rank0 = self.rank@;
        proof {
            lemma_find_text(sh0.hashes, bv.hash);
        }
        match existing {
            Some(i) => {
                self.blocks.set(i, block);
                self.children.set(i, Vec::new());
                proof {
                    self.rank = Ghost(self.rank@.update(i as int, self.next_rank@));
                }
            },
            None => {
                self.blocks.push(block);
                self.children.push(Vec::new());
                proof {
                    self.rank = Ghost(self.rank@.push(self.next_rank@));
                }
            },
        }
        proof {
            self.next_rank = Ghost(self.next_rank@ + 1);
            let n2 = self.blocks@.len() as int;
            let sh = self.shape();
            let e = existing is Some;
            assert(n2 == if e { n as int } else { n + 1 });
            assert(idx < n2);
            // the blocks
            assert forall|i: int| 0 <= i < n2 implies #[trigger] self.block_list()[i] == (if i == idx {
                bv
            } else {
                list0[i]
            }) by {
                assert(self.block_list()[i] == self.blocks@[i]@);
                if i != idx {
                    assert(self.blocks@[i] == old(self).blocks@[i]);
                }
            }
            // the hashes
            assert forall|i: int| 0 <= i < n2 implies #[trigger] sh.hashes[i] == (if i < n {
                sh0.hashes[i]
            } else {
                bv.hash
            }) by {
                if i == idx && e {
                    assert(sh0.hashes[i] == bv.hash);
                }
            }
            assert(distinct_texts(sh.hashes)) by {
                assert forall|a: int, c: int| 0 <= a < c < n2 implies sh.hashes[a] != sh.hashes[c] by {
                    if c >= n {
                        assert(sh0.hashes[a] != bv.hash);
                    }
                }
            }
            // a hash found before is found now
            assert forall|h: Seq<char>| find_text(sh0.hashes, h) >= 0 implies #[trigger] find_text(sh.hashes, h) >= 0 by {
                lemma_find_text(sh0.hashes, h);
                let w = find_text(sh0.hashes, h);
                lemma_find_text_unique(sh.hashes, h, w);
            }
            assert forall|i: int, q: int|
                0 <= i < sh.n() && 0 <= q < sh.parents[i].len() implies find_text(
                    sh.hashes,
                    #[trigger] sh.parents[i][q],
                ) >= 0 by {
                if i == idx {
                    assert(sh.parents[i] == bv.parents);
                    assert(find_text(sh0.hashes, bv.parents[q]) >= 0);
                } else {
                    assert(sh.parents[i] == sh0.parents[i]);
                    assert(find_text(sh0.hashes, sh0.parents[i][q]) >= 0);
                }
            }
            assert(find_text(sh0.hashes, genesis_hash()) >= 0);
            assert(find_text(sh.hashes, genesis_hash()) >= 0);
            // the links
            assert forall|y: int| 0 <= y < n2 implies #[trigger] sh.links[y] == (if y == idx {
                Seq::<usize>::empty()
            } else {
                links1[y]
            }) by {
                assert(sh.links[y] == self.children@[y]@);
                if y != idx {
                    assert(self.children@[y] == old_children_after_link[y]);
                }
            }
            assert forall|y: int, q: int| 0 <= y < n2 && 0 <= q < sh.links[y].len() implies (#[trigger] sh.links[y][q])
                < n2 by {
                if y != idx {
                    if among_first(pidx@, pidx@.len() as int, y) {
                        if q < old_links[y].len() {
                            assert(old_links[y][q] < n);
                        }
                    } else {
                        assert(old_links[y][q] < n);
                    }
                }
            }
            assert forall|y: int| 0 <= y < n2 implies no_dups(#[trigger] sh.links[y]) by {
                if y != idx {
                    assert(no_dups(old_links[y]));
                    if among_first(pidx@, pidx@.len() as int, y) {
                        if !old_links[y].contains(idx) {
                            let l = old_links[y].push(idx);
                            assert forall|a: int, c: int| 0 <= a < c < l.len() implies l[a] != l[c] by {
                                if c == l.len() - 1 {
                                    assert(old_links[y][a] != idx);
                                }
                            }
                        }
                    }
                }
            }
            assert(sh.wf());
            // the rank grows along the links
            assert forall|a: int, c: int| #[trigger] adj_edge(self.child_links())(a, c) implies 0 <= a < self.rank@.len()
                && 0 <= c < self.rank@.len() && self.rank@[a] < self.rank@[c] by {
                assert(a != idx);
                let q = choose|q: int| 0 <= q < sh.links[a].len() && sh.links[a][q] == c;
                if c == idx {
                    assert(rank0[a] < old(self).next_rank@);
                } else {
                    if among_first(pidx@, pidx@.len() as int, a) {
                        if q < old_links[a].len() {
                            assert(adj_edge(old_links)(a, c));
                        } else {
                            assert(sh.links[a][q] == idx);
                        }
                    } else {
                        assert(adj_edge(old_links)(a, c));
                    }
                    assert(rank0[a] < rank0[c]);
                }
            }
        }
        self.update_ghostdag_ordering();
        let n_after = self.blocks.len();
        proof {
            let sh = self.shape();
            assert forall|y: int| 0 <= y < n implies among_first(pidx@, pidx@.len() as int, y) == bv.parents.contains(
                sh0.hashes[y],
            ) by {
                if among_first(pidx@, pidx@.len() as int, y) {
                    let q = choose|q: int| 0 <= q < pidx@.len() && pidx@[q] == y;
                    lemma_find_text(sh0.hashes, bv.parents[q]);
                }
                if bv.parents.contains(sh0.hashes[y]) {
                    let q = choose|q: int| 0 <= q < bv.parents.len() && bv.parents[q] == sh0.hashes[y];
                    lemma_find_text_unique(sh0.hashes, sh0.hashes[y], y);
                    assert(pidx@[q] == y);
                }
            }
            if existing is None {
                let bl = self.block_list();
                let ol = old(self).block_list();
                assert(bl.len() == n_after);
                assert forall|i: int| 0 <= i < bl.len() implies same_content(
                    #[trigger] bl[i],
                    if i == ol.len() {
                        bv
                    } else {
                        ol[i]
                    },
                ) by {}
                assert forall|y: int| 0 <= y < bl.len() implies #[trigger] self.child_links()[y] == (if y == ol.len() {
                    Seq::<usize>::empty()
                } else if bv.parents.contains(ol[y].hash) {
                    set_insert(old(self).child_links()[y], ol.len() as usize)
                } else {
                    old(self).child_links()[y]
                }) by {}
                if sh0.links_match() {
                    lemma_links_match_added(ol, old(self).child_links(), bl, self.child_links(), bv, self.k as int);
                }
                if sh0.parents_proper() && bv.parents.len() > 0 && distinct_texts(bv.parents) {
                    lemma_parents_proper_added(ol, old(self).child_links(), bl, self.child_links(), bv, self.k as int);
                }
            }
        }
        Ok(())
    }
}


impl TxStatus {
    /// The status as text: `Pending`, `Executed`, `Failed: ` and the
    /// reason, or `Reverted`.
    pub fn to_string(&self) -> (s: String)
        ensures
            s@ == match self@ {
                TxState::Pending => "Pending"@,
                TxState::Executed => "Executed"@,
                TxState::Failed(reason) => failed_text(reason),
                TxState::Reverted => "Reverted"@,
            },
    {
        match self {
            TxStatus::Pending => "Pending".to_string(),
            TxStatus::Executed => "Executed".to_string(),
            TxStatus::Failed(reason) => {
                let mut s = "Failed: ".to_string();
                s.append(reason.as_str());
                s
            },
            TxStatus::Reverted => "Reverted".to_string(),
        }
    }
}

impl BlockDAG {
    /// The position of the account with address `addr`, if there is one.
    fn find_account(&self, addr: &String) -> (r: Option<usize>)
        requires
            distinct_addresses(self.account_list()),
        ensures
            match r {
                Some(i) => i < self.accounts@.len() && find_account(self.account_list(), addr@) == i,
                None => find_account(self.account_list(), addr@) < 0,
            },
    {
        let ghost accts = self.account_list();
        let mut i: usize = 0;
        while i < self.accounts.len()
            invariant
                accts == self.account_list(),
                distinct_addresses(accts),
                i <= self.accounts@.len(),
                forall|j: int| 0 <= j < i ==> accts[j].address != addr@,
            decreases self.accounts@.len() - i,
        {
            if self.accounts[i].address == *addr {
                proof {
                    assert(accts[i as int] == self.accounts@[i as int]@);
                    lemma_find_account_unique(accts, addr@, i as int);
                }
                return Some(i);
            }
            assert(accts[i as int] == self.accounts@[i as int]@);
            i = i + 1;
        }
        proof {
            lemma_find_account(accts, addr@);
        }
        None
    }

    /// Executes `tx`: see `exec_tx` for what it does to the accounts and to
    /// the transaction, and for the error it reports.
    fn execute_transaction(&mut self, tx: &mut Transaction) -> (r: Result<(), String>)
        requires
            old(self).wf(),
            !exec_tx_overflows(old(self).account_list(), old(tx)@),
        ensures
            final(self).wf(),
            ({
                let out = exec_tx(old(self).account_list(), old(tx)@);
                &&& final(self).account_list() == out.0
                &&& final(tx)@ == out.1
                &&& match out.2 {
                    Some(m) => r matches Err(e) && e@ == m,
                    None => r is Ok,
                }
            }),
            final(self).blocks == old(self).blocks,
            final(self).children == old(self).children,
            final(self).k == old(self).k,
            final(self).rank == old(self).rank,
            final(self).next_rank == old(self).next_rank,
    {
        let ghost accts = self.account_list();
        let ghost t = tx@;
        let s = match self.find_account(&tx.from) {
            None => {
                return Err(join3("Sender account '", tx.from.as_str(), "' does not exist"));
            },
            Some(i) => i,
        };
        assert(accts[s as int] == self.accounts@[s as int]@);
        if tx.nonce != self.accounts[s].nonce {
            let mut reason = "Invalid nonce: expected ".to_string();
            push_decimal(&mut reason, self.accounts[s].nonce);
            reason.append(", got ");
            push_decimal(&mut reason, tx.nonce);
            tx.status = TxStatus::Failed(reason);
            let msg = tx.status.to_string();
            proof {
                assert(tx@ == with_status(t, TxState::Failed(reason_nonce(accts[s as int].nonce, t.nonce))));
            }
            return Err(msg);
        }
        if self.accounts[s].balance < tx.amount {
            let mut reason = "Insufficient balance: has ".to_string();
            push_decimal(&mut reason, self.accounts[s].balance);
            reason.append(", needs ");
            push_decimal(&mut reason, tx.amount);
            tx.status = TxStatus::Failed(reason);
            let msg = tx.status.to_string();
            proof {
                assert(tx@ == with_status(t, TxState::Failed(reason_balance(accts[s as int].balance, t.amount))));
            }
            return Err(msg);
        }
        let ghost a1 = debited(accts, t);
        let bal = self.accounts[s].balance - tx.amount;
        let non = self.accounts[s].nonce + 1;
        self.accounts[s].balance = bal;
        self.accounts[s].nonce = non;
        proof {
            assert(self.account_list() =~= a1);
            assert forall|i: int, j: int| 0 <= i < j < a1.len() implies a1[i].address != a1[j].address by {
                assert(accts[i].address != accts[j].address);
            }
        }
        match self.find_account(&tx.to) {
            Some(i) => {
                assert(a1[i as int] == self.accounts@[i as int]@);
                let nb = self.accounts[i].balance + tx.amount;
                self.accounts[i].balance = nb;
                proof {
                    assert(self.account_list() =~= a1.update(i as int, with_funds(a1[i as int], a1[i as int].balance + t.amount, a1[i as int].nonce as int)));
                }
            },
            None => {
                self.accounts.push(Account::new(tx.to.clone(), tx.amount));
                proof {
                    lemma_find_account(a1, t.to);
                    assert(self.account_list() =~= a1.push(AccountView { address: t.to, balance: t.amount, nonce: 0 }));
                }
            },
        }
        tx.status = TxStatus::Executed;
        proof {
            let a2 = self.account_list();
            assert forall|i: int, j: int| 0 <= i < j < a2.len() implies a2[i].address != a2[j].address by {
                assert(a1[i].address == a2[i].address || j == a1.len());
                if j == a1.len() {
                    lemma_find_account(a1, t.to);
                } else {
                    assert(a1[i].address != a1[j].address);
                }
            }
        }
        Ok(())
    }
}


impl BlockDAG {
    /// Undoes the executed transaction `tx` (see `revert_tx`) and marks it
    /// reverted; refused, with nothing changed, when `tx` is not executed.
    fn revert_transaction(&mut self, tx: &mut Transaction) -> (r: Result<(), String>)
        requires
            old(self).wf(),
            old(tx)@.status is Executed ==> !revert_tx_overflows(old(self).account_list(), old(tx)@),
        ensures
            final(self).wf(),
            !(old(tx)@.status is Executed) ==> (r matches Err(e) && e@ == msg_not_executed()
                && final(self).account_list() == old(self).account_list() && *final(tx) == *old(tx)),
            old(tx)@.status is Executed ==> (r is Ok && final(self).account_list() == revert_tx(
                old(self).account_list(),
                old(tx)@,
            ) && final(tx)@ == with_status(old(tx)@, TxState::Reverted)),
            final(self).blocks == old(self).blocks,
            final(self).children == old(self).children,
            final(self).k == old(self).k,
            final(self).rank == old(self).rank,
            final(self).next_rank == old(self).next_rank,
    {
        match tx.status {
            TxStatus::Executed => {},
            _ => {
                return Err("Transaction was not executed".to_string());
            },
        }
        let ghost accts = self.account_list();
        let ghost t = tx@;
        let ghost s = find_account(accts, t.from);
        let ghost a1 = if s >= 0 {
            accts.update(
                s,
                with_funds(accts[s], accts[s].balance + t.amount, if accts[s].nonce > 0 {
                    accts[s].nonce - 1
                } else {
                    0
                }),
            )
        } else {
            accts
        };
        match self.find_account(&tx.from) {
            Some(i) => {
                assert(accts[i as int] == self.accounts@[i as int]@);
                let nb = self.accounts[i].balance + tx.amount;
                let nn = self.accounts[i].nonce.saturating_sub(1);
                self.accounts[i].balance = nb;
                self.accounts[i].nonce = nn;
                proof {
                    assert(self.account_list() =~= a1);
                }
            },
            None => {},
        }
        proof {
            assert forall|i: int, j: int| 0 <= i < j < a1.len() implies a1[i].address != a1[j].address by {
                assert(accts[i].address != accts[j].address);
            }
        }
        match self.find_account(&tx.to) {
            Some(i) => {
                assert(a1[i as int] == self.accounts@[i as int]@);
                if self.accounts[i].balance >= tx.amount {
                    let nb = self.accounts[i].balance - tx.amount;
                    self.accounts[i].balance = nb;
                    proof {
                        assert(self.account_list() =~= a1.update(i as int, with_funds(a1[i as int], a1[i as int].balance - t.amount, a1[i as int].nonce as int)));
                    }
                }
            },
            None => {},
        }
        tx.status = TxStatus::Reverted;
        proof {
            let a2 = self.account_list();
            assert forall|i: int, j: int| 0 <= i < j < a2.len() implies a2[i].address != a2[j].address by {
                assert(a1[i].address != a1[j].address);
            }
        }
        Ok(())
    }
}


impl TxStatus {
    /// A copy of the status.
    fn duplicate(&self) -> (r: TxStatus)
        ensures
            r@ == self@,
    {
        match self {
            TxStatus::Pending => TxStatus::Pending,
            TxStatus::Executed => TxStatus::Executed,
            TxStatus::Failed(reason) => TxStatus::Failed(reason.clone()),
            TxStatus::Reverted => TxStatus::Reverted,
        }
    }
}

impl Transaction {
    /// A copy of the transaction.
    fn duplicate(&self) -> (r: Transaction)
        ensures
            r@ == self@,
    {
        Transaction {
            id: self.id.clone(),
            from: self.from.clone(),
            to: self.to.clone(),
            amount: self.amount,
            nonce: self.nonce,
            status: self.status.duplicate(),
        }
    }
}

/// A copy of a list of transactions.
fn duplicate_txs(v: &Vec<Transaction>) -> (r: Vec<Transaction>)
    ensures
        tx_views(r@) == tx_views(v@),
{
    let mut r: Vec<Transaction> = Vec::new();
    let mut i: usize = 0;
    while i < v.len()
        invariant
            i <= v@.len(),
            r@.len() == i,
            forall|j: int| 0 <= j < i ==> r@[j]@ == v@[j]@,
        decreases v@.len() - i,
    {
        r.push(v[i].duplicate());
        i = i + 1;
    }
    assert(tx_views(r@) =~= tx_views(v@));
    r
}

/// Adding a block under a new hash, with parents, none named twice, keeps
/// every block other than genesis with such parents.
proof fn lemma_parents_proper_added(
    old_bl: Seq<BlockView>,
    old_links: Seq<Seq<usize>>,
    bl: Seq<BlockView>,
    links: Seq<Seq<usize>>,
    bv: BlockView,
    k: int,
)
    requires
        shape_of(old_bl, old_links, k).wf(),
        shape_of(old_bl, old_links, k).parents_proper(),
        find_text(shape_of(old_bl, old_links, k).hashes, bv.hash) < 0,
        bv.parents.len() > 0,
        distinct_texts(bv.parents),
        bl.len() == old_bl.len() + 1,
        forall|i: int|
            0 <= i < bl.len() ==> same_content(
                #[trigger] bl[i],
                if i == old_bl.len() {
                    bv
                } else {
                    old_bl[i]
                },
            ),
    ensures
        shape_of(bl, links, k).parents_proper(),
{
    let sh0 = shape_of(old_bl, old_links, k);
    let sh = shape_of(bl, links, k);
    let n = old_bl.len() as int;
    lemma_find_text(sh0.hashes, bv.hash);
    lemma_find_text(sh0.hashes, genesis_hash());
    assert(sh.hashes =~= sh0.hashes.push(bv.hash)) by {
        assert forall|i: int| 0 <= i <= n implies sh.hashes[i] == sh0.hashes.push(bv.hash)[i] by {
            assert(same_content(bl[i], if i == n { bv } else { old_bl[i] }));
        }
    }
    assert(sh.hashes.drop_last() =~= sh0.hashes);
    assert(bv.hash != genesis_hash());
    assert(sh.genesis() == sh0.genesis());
    assert forall|x: int| 0 <= x < sh.n() && x != sh.genesis() implies sh.plen(x) > 0 && distinct_texts(
        #[trigger] sh.parents[x],
    ) by {
        assert(same_content(bl[x], if x == n { bv } else { old_bl[x] }));
        if x < n {
            assert(sh.parents[x] == sh0.parents[x]);
        }
    }
}

/// Adding a block under a new hash, with parents that are all blocks,
/// keeps the child links matching the parent lists.
proof fn lemma_links_match_added(
    old_bl: Seq<BlockView>,
    old_links: Seq<Seq<usize>>,
    bl: Seq<BlockView>,
    links: Seq<Seq<usize>>,
    bv: BlockView,
    k: int,
)
    requires
        shape_of(old_bl, old_links, k).wf(),
        shape_of(old_bl, old_links, k).links_match(),
        find_text(shape_of(old_bl, old_links, k).hashes, bv.hash) < 0,
        forall|q: int| 0 <= q < bv.parents.len() ==> find_text(shape_of(old_bl, old_links, k).hashes, #[trigger] bv.parents[q]) >= 0,
        bl.len() == old_bl.len() + 1,
        bl.len() <= usize::MAX,
        links.len() == bl.len(),
        forall|i: int|
            0 <= i < bl.len() ==> same_content(
                #[trigger] bl[i],
                if i == old_bl.len() {
                    bv
                } else {
                    old_bl[i]
                },
            ),
        forall|y: int|
            0 <= y < bl.len() ==> #[trigger] links[y] == (if y == old_bl.len() {
                Seq::<usize>::empty()
            } else if bv.parents.contains(old_bl[y].hash) {
                set_insert(old_links[y], old_bl.len() as usize)
            } else {
                old_links[y]
            }),
    ensures
        shape_of(bl, links, k).links_match(),
{
    let sh0 = shape_of(old_bl, old_links, k);
    let sh = shape_of(bl, links, k);
    let n = old_bl.len() as int;
    lemma_find_text(sh0.hashes, bv.hash);
    lemma_find_text(sh0.hashes, genesis_hash());
    assert(sh.hashes =~= sh0.hashes.push(bv.hash)) by {
        assert forall|i: int| 0 <= i <= n implies sh.hashes[i] == sh0.hashes.push(bv.hash)[i] by {
            assert(same_content(bl[i], if i == n { bv } else { old_bl[i] }));
        }
    }
    let g = sh0.genesis();
    assert(sh.hashes.drop_last() =~= sh0.hashes);
    assert(bv.hash != genesis_hash());
    assert(sh.genesis() == g);
    assert(same_content(bl[g], old_bl[g]));
    assert forall|x: int, y: int| 0 <= x < sh.n() && 0 <= y < sh.n() implies (#[trigger] sh.link(y, x)
        <==> sh.parents[x].contains(sh.hashes[y])) by {
        assert(same_content(bl[x], if x == n { bv } else { old_bl[x] }));
        assert(same_content(bl[y], if y == n { bv } else { old_bl[y] }));
        let l = links[y];
        if y == n {
            assert(l.len() == 0);
            if sh.parents[x].contains(sh.hashes[y]) {
                let q = choose|q: int| 0 <= q < sh.parents[x].len() && sh.parents[x][q] == sh.hashes[y];
                if x == n {
                    assert(find_text(sh0.hashes, bv.parents[q]) >= 0);
                } else {
                    assert(find_text(sh0.hashes, sh0.parents[x][q]) >= 0);
                }
                lemma_find_text(sh0.hashes, sh.hashes[y]);
            }
        } else {
            let ol = old_links[y];
            let ins = bv.parents.contains(old_bl[y].hash);
            assert(forall|j: int| 0 <= j < ol.len() ==> ol[j] < n);
            if x == n {
                if ins {
                    if !ol.contains(n as usize) {
                        assert(l == ol.push(n as usize));
                        assert(l[ol.len() as int] == n);
                    } else {
                        let j = choose|j: int| 0 <= j < ol.len() && ol[j] == n as usize;
                        assert(ol[j] < n);
                    }
                } else {
                    assert(l == ol);
                    if sh.link(y, x) {
                        let j = choose|j: int| 0 <= j < l.len() && l[j] == x;
                        assert(ol[j] < n);
                    }
                }
            } else {
                assert(sh0.link(y, x) <==> sh0.parents[x].contains(sh0.hashes[y]));
                if sh.link(y, x) {
                    let j = choose|j: int| 0 <= j < l.len() && l[j] == x;
                    if j < ol.len() {
                        assert(ol[j] == x);
                    } else {
                        assert(l == ol.push(n as usize));
                    }
                    assert(sh0.link(y, x));
                }
                if sh0.link(y, x) {
                    let j = choose|j: int| 0 <= j < ol.len() && ol[j] == x;
                    if ins && !ol.contains(n as usize) {
                        assert(l == ol.push(n as usize));
                    }
                    assert(l[j] == x);
                }
            }
        }
    }
}

/// Blocks that agree on everything but transactions have the same shape,
/// and the same colours and weights.
pub proof fn lemma_same_frame(a: Seq<BlockView>, b: Seq<BlockView>, links: Seq<Seq<usize>>, k: int)
    requires
        a.len() == b.len(),
        forall|i: int|
            0 <= i < a.len() ==> {
                &&& (#[trigger] a[i]).hash == b[i].hash
                &&& a[i].parents == b[i].parents
                &&& a[i].timestamp == b[i].timestamp
                &&& a[i].color == b[i].color
                &&& a[i].weight == b[i].weight
            },
    ensures
        shape_of(a, links, k) == shape_of(b, links, k),
        shape_of(a, links, k).colored_by_ghostdag(a) ==> shape_of(b, links, k).colored_by_ghostdag(b),
{
    assert(a.map_values(|v: BlockView| v.hash) =~= b.map_values(|v: BlockView| v.hash));
    assert(a.map_values(|v: BlockView| v.parents) =~= b.map_values(|v: BlockView| v.parents));
    assert(a.map_values(|v: BlockView| v.timestamp) =~= b.map_values(|v: BlockView| v.timestamp));
    if shape_of(a, links, k).colored_by_ghostdag(a) {
        let sh = shape_of(a, links, k);
        let (p, c) = choose|p: Seq<int>, c: Seq<bool>| #[trigger] sh.is_run(p, c) && colors_match(a, p, c);
        assert forall|x: int| 0 <= x < b.len() implies {
            let pos = last_pos(blue_order(p, c), x);
            &&& (#[trigger] b[x]).color == (if pos >= 0 {
                BlockColor::Blue
            } else {
                BlockColor::Red
            })
            &&& b[x].weight == pos + 1
        } by {
            assert(a[x].color == b[x].color);
        }
        assert(colors_match(b, p, c));
        assert(sh.is_run(p, c));
    }
}

impl BlockDAG {
    /// Replaces the transactions of block `bi`.
    fn set_transactions(&mut self, bi: usize, txs: Vec<Transaction>)
        requires
            old(self).wf(),
            bi < old(self).block_list().len(),
        ensures
            final(self).wf(),
            final(self).block_list() == old(self).block_list().update(
                bi as int,
                with_txs(old(self).block_list()[bi as int], tx_views(txs@)),
            ),
            final(self).shape() == old(self).shape(),
            final(self).accounts == old(self).accounts,
            final(self).children == old(self).children,
            final(self).k == old(self).k,
            final(self).rank == old(self).rank,
            final(self).next_rank == old(self).next_rank,
    {
        let ghost tvs = tx_views(txs@);
        let ghost before = self.blocks@;
        self.blocks[bi].transactions = txs;
        proof {
            assert forall|i: int| 0 <= i < before.len() && i != bi implies self.blocks@[i] == before[i] by {}
            assert(self.block_list() =~= old(self).block_list().update(
                bi as int,
                with_txs(old(self).block_list()[bi as int], tvs),
            ));
            lemma_same_frame(old(self).block_list(), self.block_list(), self.child_links(), self.k as int);
        }
    }
}

impl BlockDAG {
    /// Undoes the transactions of the block `block_hash`, last first
    /// (see `revert_from`). When all were executed they are all marked
    /// reverted; at the first that was not, the undoing stops, the error
    /// says so, the accounts keep the undoings done so far and the block's
    /// transactions are left as they were. Refused, with nothing changed,
    /// when there is no such block.
    pub fn revert_block(&mut self, block_hash: &str) -> (r: Result<(), String>)
        requires
            old(self).wf(),
            old(self).block_index(block_hash@) >= 0 ==> ({
                let txs = old(self).block_list()[old(self).block_index(block_hash@)].txs;
                !revert_from_overflows(old(self).account_list(), txs, txs.len() as int)
            }),
        ensures
            final(self).wf(),
            final(self).shape() == old(self).shape(),
            old(self).block_index(block_hash@) < 0 ==> (r matches Err(e) && e@ == msg_missing_block(block_hash@)
                && *final(self) == *old(self)),
            old(self).block_index(block_hash@) >= 0 ==> ({
                let bi = old(self).block_index(block_hash@);
                let txs = old(self).block_list()[bi].txs;
                let rv = revert_from(old(self).account_list(), txs, txs.len() as int);
                &&& final(self).account_list() == rv.0
                &&& final(self).k_param() == old(self).k_param()
                &&& final(self).child_links() == old(self).child_links()
                &&& rv.1 ==> (r is Ok && final(self).block_list() == old(self).block_list().update(
                    bi,
                    with_txs(old(self).block_list()[bi], all_reverted(txs)),
                ))
                &&& !rv.1 ==> (r matches Err(e) && e@ == msg_not_executed() && final(self).block_list()
                    == old(self).block_list())
            }),
    {
        let h = block_hash.to_string();
        let bi = match self.find_block(&h) {
            None => {
                return Err(join3("Block '", block_hash, "' does not exist"));
            },
            Some(i) => i,
        };
        let txs = duplicate_txs(&self.blocks[bi].transactions);
        let ghost tv = tx_views(txs@);
        let ghost accts0 = self.account_list();
        let ghost list0 = self.block_list();
        assert(tv == list0[bi as int].txs);
        let n = txs.len();
        let mut reverted: Vec<(usize, Transaction)> = Vec::new();
        let mut i: usize = n;
        while i > 0
            invariant
                self.wf(),
                self.blocks == old(self).blocks,
                self.children == old(self).children,
                self.k == old(self).k,
                accts0 == old(self).account_list(),
                list0 == old(self).block_list(),
                old(self).block_index(block_hash@) == bi,
                bi < list0.len(),
                tv == list0[bi as int].txs,
                tv == tx_views(txs@),
                n == txs@.len(),
                i <= n,
                revert_from(self.account_list(), tv, i as int) == revert_from(accts0, tv, n as int),
                !revert_from_overflows(self.account_list(), tv, i as int),
                forall|q: int| i <= q < n ==> (#[trigger] tv[q]).status is Executed,
                reverted@.len() == n - i,
                forall|m: int|
                    0 <= m < reverted@.len() ==> (#[trigger] reverted@[m]).0 == n - 1 - m && reverted@[m].1@
                        == with_status(tv[n - 1 - m], TxState::Reverted),
            decreases i,
        {
            i = i - 1;
            let mut tx = txs[i].duplicate();
            assert(tx@ == tv[i as int]);
            match self.revert_transaction(&mut tx) {
                Err(e) => {
                    return Err(e);
                },
                Ok(()) => {},
            }
            reverted.push((i, tx));
        }
        let mut done: Vec<Transaction> = Vec::new();
        let mut q: usize = 0;
        while q < n
            invariant
                n == tv.len(),
                reverted@.len() == n,
                q <= n,
                done@.len() == q,
                forall|m: int|
                    0 <= m < reverted@.len() ==> (#[trigger] reverted@[m]).0 == n - 1 - m && reverted@[m].1@
                        == with_status(tv[n - 1 - m], TxState::Reverted),
                forall|x: int| 0 <= x < q ==> (#[trigger] done@[x])@ == with_status(tv[x], TxState::Reverted),
            decreases n - q,
        {
            let t = reverted[n - 1 - q].1.duplicate();
            done.push(t);
            q = q + 1;
        }
        proof {
            assert(tx_views(done@) =~= all_reverted(tv));
        }
        self.set_transactions(bi, done);
        Ok(())
    }
}


impl BlockDAG {
    /// Whether block `a` comes before block `b` in weight order.
    fn weight_less(&self, a: usize, b: usize) -> (r: bool)
        requires
            a < self.blocks@.len(),
            b < self.blocks@.len(),
        ensures
            r == weight_before(self.block_list(), a as int, b as int),
    {
        let wa = self.blocks[a].weight;
        let wb = self.blocks[b].weight;
        wa < wb || (wa == wb && a < b)
    }

    /// The positions of the blue blocks, in weight order.
    fn blue_positions(&self) -> (r: Vec<usize>)
        requires
            self.wf(),
        ensures
            is_blue_listing(self.block_list(), r@.map_values(|i: usize| i as int)),
            r@.map_values(|i: usize| i as int) == blue_listing(self.block_list()),
    {
        let ghost bl = self.block_list();
        let n = self.blocks.len();
        let mut res: Vec<usize> = Vec::new();
        loop
            invariant
                bl == self.block_list(),
                n == bl.len(),
                forall|i: int| 0 <= i < res@.len() ==> (#[trigger] res@[i]) < n && bl[res@[i] as int].color
                    == BlockColor::Blue,
                forall|i: int, j: int|
                    0 <= i < j < res@.len() ==> weight_before(bl, #[trigger] res@[i] as int, #[trigger] res@[j] as int),
                forall|x: int|
                    0 <= x < n && (#[trigger] bl[x]).color == BlockColor::Blue && res@.len() > 0 && !weight_before(
                        bl,
                        res@.last() as int,
                        x,
                    ) ==> res@.contains(x as usize),
            decreases count_where(
                n as int,
                |x: int| bl[x].color == BlockColor::Blue && (res@.len() == 0 || weight_before(bl, res@.last() as int, x)),
            ),
        {
            // the blue block that comes first after the last one listed
            let mut best: usize = 0;
            let mut found = false;
            let mut x: usize = 0;
            while x < n
                invariant
                    bl == self.block_list(),
                    n == bl.len(),
                    forall|i: int| 0 <= i < res@.len() ==> (#[trigger] res@[i]) < n,
                    x <= n,
                    found ==> best < x,
                    found ==> bl[best as int].color == BlockColor::Blue && (res@.len() == 0 || weight_before(
                        bl,
                        res@.last() as int,
                        best as int,
                    )),
                    forall|y: int|
                        0 <= y < x && (#[trigger] bl[y]).color == BlockColor::Blue && (res@.len() == 0
                            || weight_before(bl, res@.last() as int, y)) ==> found && (y == best || weight_before(
                            bl,
                            best as int,
                            y,
                        )),
                decreases n - x,
            {
                let is_blue = self.blocks[x].color == BlockColor::Blue;
                assert(is_blue == (bl[x as int].color == BlockColor::Blue));
                if is_blue {
                    let after = res.len() == 0 || self.weight_less(res[res.len() - 1], x);
                    if after {
                        if !found || self.weight_less(x, best) {
                            best = x;
                            found = true;
                        }
                    }
                }
                x = x + 1;
            }
            if !found {
                proof {
                    assert forall|y: int| 0 <= y < n && (#[trigger] bl[y]).color == BlockColor::Blue implies res@.map_values(
                        |i: usize| i as int,
                    ).contains(y) by {
                        if res@.len() == 0 {
                        } else {
                            assert(res@.contains(y as usize));
                            let q = choose|q: int| 0 <= q < res@.len() && res@[q] == y as usize;
                            assert(res@.map_values(|i: usize| i as int)[q] == y);
                        }
                    }
                    let s = res@.map_values(|i: usize| i as int);
                    assert(is_blue_listing(bl, s));
                    lemma_blue_listing_unique(bl, s, blue_listing(bl));
                }
                return res;
            }
            let ghost f_old = |y: int| bl[y].color == BlockColor::Blue && (res@.len() == 0 || weight_before(
                bl,
                res@.last() as int,
                y,
            ));
            let ghost old_res = res@;
            res.push(best);
            proof {
                let f_new = |y: int| bl[y].color == BlockColor::Blue && (res@.len() == 0 || weight_before(
                    bl,
                    res@.last() as int,
                    y,
                ));
                assert forall|y: int| 0 <= y < n && #[trigger] f_new(y) implies f_old(y) by {
                    if old_res.len() > 0 {
                        assert(weight_before(bl, old_res.last() as int, best as int));
                    }
                }
                assert(f_old(best as int));
                lemma_count_where_fewer(n as int, f_new, f_old, best as int);
                assert forall|i: int, j: int| 0 <= i < j < res@.len() implies weight_before(
                    bl,
                    #[trigger] res@[i] as int,
                    #[trigger] res@[j] as int,
                ) by {
                    if j == res@.len() - 1 && i < j {
                        assert(res@[i] == old_res[i]);
                        if i < old_res.len() - 1 {
                            assert(weight_before(bl, old_res[i] as int, old_res.last() as int));
                        }
                    }
                }
                assert forall|x: int|
                    0 <= x < n && (#[trigger] bl[x]).color == BlockColor::Blue && res@.len() > 0 && !weight_before(
                        bl,
                        res@.last() as int,
                        x,
                    ) implies res@.contains(x as usize) by {
                    if x == best {
                        assert(res@[res@.len() - 1] == best);
                    } else if old_res.len() > 0 && !weight_before(bl, old_res.last() as int, x) {
                        let q = choose|q: int| 0 <= q < old_res.len() && old_res[q] == x as usize;
                        assert(res@[q] == x as usize);
                    } else {
                        assert(weight_before(bl, best as int, x));
                    }
                }
            }
        }
    }

    /// The blue blocks, in weight order.
    pub fn get_ordered_blue_blocks(&self) -> (r: Vec<&Block>)
        requires
            self.wf(),
        ensures
            r@.len() == blue_listing(self.block_list()).len(),
            forall|i: int, j: int|
                0 <= i < j < r@.len() ==> blue_listing(self.block_list())[i] != blue_listing(self.block_list())[j],
            forall|x: int|
                0 <= x < self.block_list().len() ==> ((#[trigger] self.block_list()[x]).color == BlockColor::Blue
                    <==> blue_listing(self.block_list()).contains(x)),
            forall|i: int| 0 <= i < r@.len() ==> (*r@[i])@ == self.block_list()[blue_listing(self.block_list())[i]],
    {
        proof {
            lemma_blue_listing_exact(self);
        }
        let pos = self.blue_positions();
        let ghost s = blue_listing(self.block_list());
        let mut r: Vec<&Block> = Vec::new();
        let mut i: usize = 0;
        while i < pos.len()
            invariant
                s == blue_listing(self.block_list()),
                pos@.map_values(|q: usize| q as int) == s,
                is_blue_listing(self.block_list(), s),
                i <= pos@.len(),
                r@.len() == i,
                forall|j: int| 0 <= j < i ==> (*r@[j])@ == self.block_list()[s[j]],
            decreases pos@.len() - i,
        {
            assert(s[i as int] == pos@[i as int] as int);
            r.push(&self.blocks[pos[i]]);
            i = i + 1;
        }
        r
    }
}


impl BlockDAG {
    /// Executes the transactions of the blue blocks, block after block in
    /// weight order and in order within a block (see `exec_chain`), and
    /// records in each block what became of its transactions.
    pub fn execute_blue_chain(&mut self) -> (r: Result<(), String>)
        requires
            old(self).wf(),
            !exec_chain_overflows(old(self).account_list(), old(self).block_list(), blue_listing(old(self).block_list())),
        ensures
            final(self).wf(),
            r is Ok,
            (final(self).account_list(), final(self).block_list()) == exec_chain(
                old(self).account_list(),
                old(self).block_list(),
                blue_listing(old(self).block_list()),
            ),
            keeps_addresses(old(self).account_list(), final(self).account_list()),
            final(self).block_list().len() == old(self).block_list().len(),
            forall|i: int|
                0 <= i < old(self).block_list().len() ==> same_but_statuses(
                    #[trigger] old(self).block_list()[i],
                    final(self).block_list()[i],
                ),
            forall|i: int|
                0 <= i < old(self).block_list().len() && old(self).block_list()[i].color == BlockColor::Red
                    ==> #[trigger] final(self).block_list()[i] == old(self).block_list()[i],
            final(self).shape() == old(self).shape(),
            final(self).child_links() == old(self).child_links(),
            final(self).k_param() == old(self).k_param(),
    {
        proof {
            lemma_blue_listing_exact(self);
            lemma_exec_chain_frame(self.account_list(), self.block_list(), blue_listing(self.block_list()));
        }
        let order = self.blue_positions();
        let ghost s = blue_listing(self.block_list());
        let ghost accts0 = self.account_list();
        let ghost list0 = self.block_list();
        let mut t: usize = 0;
        proof {
            assert(s.take(0) =~= Seq::<int>::empty());
        }
        while t < order.len()
            invariant
                self.wf(),
                self.shape() == old(self).shape(),
                self.children == old(self).children,
                self.k == old(self).k,
                accts0 == old(self).account_list(),
                list0 == old(self).block_list(),
                s == blue_listing(list0),
                is_blue_listing(list0, s),
                order@.map_values(|q: usize| q as int) == s,
                t <= order@.len(),
                !exec_chain_overflows(accts0, list0, s),
                (self.account_list(), self.block_list()) == exec_chain(accts0, list0, s.take(t as int)),
            decreases order@.len() - t,
        {
            let bi = order[t];
            assert(s[t as int] == bi as int);
            proof {
                lemma_exec_chain_len(accts0, list0, s.take(t as int));
                assert(bi < list0.len());
                assert(self.block_list()[bi as int] == self.blocks@[bi as int]@);
                lemma_exec_chain_overflows_prefix(accts0, list0, s, t as int);
                lemma_exec_chain_step(accts0, list0, s, t as int);
            }
            let txs = duplicate_txs(&self.blocks[bi].transactions);
            let ghost tv = tx_views(txs@);
            let ghost acc_t = self.account_list();
            let ghost blocks_at_start = self.block_list();
            assert(tv == self.block_list()[bi as int].txs);
            let mut results: Vec<Transaction> = Vec::new();
            let mut i: usize = 0;
            proof {
                assert(tv.take(0) =~= Seq::<TxView>::empty());
                assert(tx_views(results@) =~= Seq::<TxView>::empty());
            }
            while i < txs.len()
                invariant
                    self.wf(),
                    self.shape() == old(self).shape(),
                    self.children == old(self).children,
                    self.k == old(self).k,
                    bi < self.blocks@.len(),
                    tv == tx_views(txs@),
                    i <= txs@.len(),
                    !exec_txs_overflows(acc_t, tv),
                    self.account_list() == exec_txs(acc_t, tv.take(i as int)).0,
                    tx_views(results@) == exec_txs(acc_t, tv.take(i as int)).1,
                    self.block_list() == blocks_at_start,
                decreases txs@.len() - i,
            {
                proof {
                    lemma_exec_txs_overflows_prefix(acc_t, tv, i as int);
                    lemma_exec_txs_step(acc_t, tv, i as int);
                }
                let mut tx = txs[i].duplicate();
                assert(tx@ == tv[i as int]);
                let _ = self.execute_transaction(&mut tx);
                let ghost before = results@;
                results.push(tx);
                proof {
                    assert(tx_views(results@) =~= tx_views(before).push(tx@));
                }
                i = i + 1;
            }
            proof {
                assert(tv.take(tv.len() as int) =~= tv);
            }
            self.set_transactions(bi, results);
            t = t + 1;
        }
        proof {
            assert(s.take(s.len() as int) =~= s);
        }
        Ok(())
    }
}


impl BlockDAG {
    /// Sets the account `address` to hold `balance`, with nonce 0: a new
    /// account, or in place of the account with that address.
    pub fn add_account(&mut self, address: String, balance: u64)
        requires
            old(self).wf(),
        ensures
            final(self).wf(),
            ({
                let e = find_account(old(self).account_list(), address@);
                let a = AccountView { address: address@, balance, nonce: 0 };
                final(self).account_list() == if e >= 0 {
                    old(self).account_list().update(e, a)
                } else {
                    old(self).account_list().push(a)
                }
            }),
            final(self).block_list() == old(self).block_list(),
            final(self).child_links() == old(self).child_links(),
            final(self).k_param() == old(self).k_param(),
    {
        let ghost accts = self.account_list();
        proof {
            lemma_find_account(accts, address@);
        }
        match self.find_account(&address) {
            Some(i) => {
                let a = Account::new(address, balance);
                self.accounts.set(i, a);
                proof {
                    assert(self.account_list() =~= accts.update(i as int, a@));
                }
            },
            None => {
                let a = Account::new(address, balance);
                self.accounts.push(a);
                proof {
                    assert(self.account_list() =~= accts.push(a@));
                }
            },
        }
        proof {
            let a2 = self.account_list();
            assert forall|i: int, j: int| 0 <= i < j < a2.len() implies a2[i].address != a2[j].address by {
                if j < accts.len() {
                    assert(accts[i].address != accts[j].address);
                }
            }
        }
    }

    /// The account with address `address`, if there is one.
    pub fn get_account(&self, address: &str) -> (r: Option<&Account>)
        requires
            self.wf(),
        ensures
            find_account(self.account_list(), address@) < 0 ==> r is None,
            find_account(self.account_list(), address@) >= 0 ==> (r matches Some(a) && a@ == self.account_list()[find_account(
                self.account_list(),
                address@,
            )]),
    {
        let a = address.to_string();
        match self.find_account(&a) {
            Some(i) => Some(&self.accounts[i]),
            None => None,
        }
    }

    /// The block with hash `hash`, if there is one.
    pub fn get_block(&self, hash: &str) -> (r: Option<&Block>)
        requires
            self.wf(),
        ensures
            self.block_index(hash@) < 0 ==> r is None,
            self.block_index(hash@) >= 0 ==> (r matches Some(b) && b@ == self.block_list()[self.block_index(hash@)]),
    {
        let h = hash.to_string();
        match self.find_block(&h) {
            Some(i) => Some(&self.blocks[i]),
            None => None,
        }
    }

    /// All blocks, in the order they were first added.
    pub fn get_all_blocks(&self) -> (r: Vec<&Block>)
        requires
            self.wf(),
        ensures
            r@.len() == self.block_list().len(),
            forall|i: int| 0 <= i < r@.len() ==> (*r@[i])@ == self.block_list()[i],
    {
        let mut r: Vec<&Block> = Vec::new();
        let mut i: usize = 0;
        while i < self.blocks.len()
            invariant
                i <= self.blocks@.len(),
                r@.len() == i,
                forall|j: int| 0 <= j < i ==> (*r@[j])@ == self.block_list()[j],
            decreases self.blocks@.len() - i,
        {
            r.push(&self.blocks[i]);
            i = i + 1;
        }
        r
    }
}


/// The genesis block is always present.
pub proof fn lemma_genesis_present(dag: &BlockDAG)
    requires
        dag.wf(),
    ensures
        dag.block_index(genesis_hash()) >= 0,
{
}

/// A run on the shape of a well-formed DAG, with the facts the laws below need.
proof fn lemma_run_facts(dag: &BlockDAG) -> (r: (Seq<int>, Seq<bool>))
    requires
        dag.wf(),
    ensures
        dag.shape().is_run(r.0, r.1),
        colors_match(dag.block_list(), r.0, r.1),
        forall|i: int, j: int| 0 <= i < j < r.0.len() ==> r.0[i] != r.0[j],
        forall|i: int| 0 <= i < r.0.len() ==> 0 <= #[trigger] r.0[i] < dag.block_list().len(),
        forall|i: int, j: int|
            0 <= i < j < blue_order(r.0, r.1).len() ==> blue_order(r.0, r.1)[i] != blue_order(r.0, r.1)[j],
        forall|i: int|
            0 <= i < blue_order(r.0, r.1).len() ==> 0 <= #[trigger] blue_order(r.0, r.1)[i] < dag.block_list().len(),
        is_blue_listing(dag.block_list(), blue_order(r.0, r.1)),
        blue_listing(dag.block_list()) == blue_order(r.0, r.1),
{
    let sh = dag.shape();
    let bl = dag.block_list();
    let (p, b) = choose|p: Seq<int>, b: Seq<bool>| #[trigger] sh.is_run(p, b) && colors_match(bl, p, b);
    sh.lemma_run_no_dups(dag.rank@, p, b);
    assert forall|i: int| 0 <= i < p.len() implies 0 <= #[trigger] p[i] < bl.len() by {
        assert(sh.next_ok(p.take(i), b.take(i), p[i], b[i]));
    }
    lemma_blue_order_sub(p, b);
    lemma_blue_order_range(p, b, bl.len() as int);
    let s = blue_order(p, b);
    assert forall|k: int| 0 <= k < s.len() implies bl[#[trigger] s[k]].weight == k + 1 && bl[s[k]].color
        == BlockColor::Blue by {
        lemma_last_pos_unique(s, k);
    }
    assert forall|x: int| 0 <= x < bl.len() && (#[trigger] bl[x]).color == BlockColor::Blue implies s.contains(x) by {
        lemma_last_pos_found(s, x);
    }
    assert forall|i: int, j: int| 0 <= i < j < s.len() implies weight_before(bl, #[trigger] s[i], #[trigger] s[j]) by {
        assert(bl[s[i]].weight == i + 1);
        assert(bl[s[j]].weight == j + 1);
    }
    assert(is_blue_listing(bl, s));
    lemma_blue_listing_unique(bl, s, blue_listing(bl));
    (p, b)
}

/// Blue blocks are weighted 1, 2, ..., m in GHOSTDAG order: the k-th blue
/// block in weight order has weight k + 1 (so no two blue blocks share a
/// weight), and red blocks have weight 0.
pub proof fn lemma_blue_weights(dag: &BlockDAG)
    requires
        dag.wf(),
    ensures
        forall|k: int|
            0 <= k < blue_listing(dag.block_list()).len() ==> dag.block_list()[#[trigger] blue_listing(
                dag.block_list(),
            )[k]].weight == k + 1,
        forall|x: int|
            0 <= x < dag.block_list().len() && (#[trigger] dag.block_list()[x]).color == BlockColor::Red
                ==> dag.block_list()[x].weight == 0,
        forall|x: int, y: int|
            0 <= x < y < dag.block_list().len() && dag.block_list()[x].color == BlockColor::Blue
                && dag.block_list()[y].color == BlockColor::Blue ==> #[trigger] dag.block_list()[x].weight
                != #[trigger] dag.block_list()[y].weight,
{
    let (p, b) = lemma_run_facts(dag);
    let bl = dag.block_list();
    let s = blue_order(p, b);
    assert forall|k: int| 0 <= k < s.len() implies bl[#[trigger] s[k]].weight == k + 1 by {
        lemma_last_pos_unique(s, k);
    }
    assert forall|x: int| 0 <= x < bl.len() && (#[trigger] bl[x]).color == BlockColor::Red implies bl[x].weight == 0 by {
        lemma_last_pos_found(s, x);
    }
    assert forall|x: int, y: int|
        0 <= x < y < bl.len() && bl[x].color == BlockColor::Blue && bl[y].color == BlockColor::Blue implies #[trigger] bl[x].weight
            != #[trigger] bl[y].weight by {
        lemma_last_pos_found(s, x);
        lemma_last_pos_found(s, y);
    }
}

/// The genesis block is the first blue block: blue, with weight 1.
pub proof fn lemma_genesis_first(dag: &BlockDAG)
    requires
        dag.wf(),
    ensures
        blue_listing(dag.block_list()).len() > 0,
        blue_listing(dag.block_list())[0] == dag.block_index(genesis_hash()),
        dag.block_list()[dag.block_index(genesis_hash())].color == BlockColor::Blue,
        dag.block_list()[dag.block_index(genesis_hash())].weight == 1,
{
    let (p, b) = lemma_run_facts(dag);
    let sh = dag.shape();
    let g = sh.genesis();
    let bl = dag.block_list();
    lemma_find_text(sh.hashes, genesis_hash());
    if p.len() == 0 {
        assert(!sh.in_heap(p, g));
        assert(sh.pops(p, g) == 0);
        assert(false);
    }
    dag.shape().lemma_run_rank(dag.rank@, p, b, 0);
    assert(p.take(0) =~= Seq::<int>::empty());
    assert(sh.next_ok(p.take(0), b.take(0), p[0], b[0]));
    lemma_find_text(sh.hashes, genesis_hash());
    assert(b[0]);
    lemma_blue_order_first(p, b);
    let s = blue_order(p, b);
    lemma_last_pos_unique(s, 0);
}

/// In the GHOSTDAG order every block comes after its parents: of a blue
/// block and a blue parent of it, the parent has the smaller weight, and so
/// comes first among the ordered blue blocks. Stated for DAGs whose child
/// links are exactly their parent lists and whose genesis has no parents,
/// as is every DAG made by `new` and grown by `add_block` under new hashes.
pub proof fn lemma_blue_parent_lighter(dag: &BlockDAG, x: int, y: int)
    requires
        dag.wf(),
        dag.shape().links_match(),
        0 <= x < dag.block_list().len(),
        0 <= y < dag.block_list().len(),
        dag.block_list()[x].parents.contains(dag.block_list()[y].hash),
        dag.block_list()[x].color == BlockColor::Blue,
        dag.block_list()[y].color == BlockColor::Blue,
    ensures
        dag.block_list()[y].weight < dag.block_list()[x].weight,
{
    let (p, b) = lemma_run_facts(dag);
    let sh = dag.shape();
    let bl = dag.block_list();
    let s = blue_order(p, b);
    lemma_blue_order_sub(p, b);
    assert(colors_match(bl, p, b));
    lemma_last_pos_found(s, x);
    lemma_last_pos_found(s, y);
    assert(bl[x].color == BlockColor::Blue);
    assert(s.contains(x));
    assert(s.contains(y));
    let j = choose|j: int| 0 <= j < p.len() && p[j] == x && b[j];
    let i2 = choose|i: int| 0 <= i < p.len() && p[i] == y && b[i];
    assert(sh.parents[x] == bl[x].parents);
    assert(sh.hashes[y] == bl[y].hash);
    sh.lemma_run_after_parents(dag.rank@, p, b, j, y);
    let i = choose|i: int| 0 <= i < j && p[i] == y;
    assert(i == i2);
    lemma_blue_order_before(p, b, i, j);
}

/// The blocks fit in memory: there are at most `usize::MAX` of them.
proof fn lemma_block_count(dag: &BlockDAG)
    ensures
        dag.block_list().len() <= usize::MAX,
{
    assert(dag.blocks@.len() == dag.blocks.len());
}

/// The ordered blue blocks are exactly the blue blocks, each once: the blue
/// listing has no repeats, names only blocks, holds a block exactly when it
/// is blue, and gives each blue block weight one more than its place. It
/// starts with genesis.
pub proof fn lemma_blue_listing_exact(dag: &BlockDAG)
    requires
        dag.wf(),
    ensures
        forall|i: int, j: int|
            0 <= i < j < blue_listing(dag.block_list()).len() ==> blue_listing(dag.block_list())[i]
                != blue_listing(dag.block_list())[j],
        forall|i: int|
            0 <= i < blue_listing(dag.block_list()).len() ==> 0 <= #[trigger] blue_listing(dag.block_list())[i]
                < dag.block_list().len(),
        forall|x: int|
            0 <= x < dag.block_list().len() ==> ((#[trigger] dag.block_list()[x]).color == BlockColor::Blue
                <==> blue_listing(dag.block_list()).contains(x)),
        forall|i: int|
            0 <= i < blue_listing(dag.block_list()).len() ==> dag.block_list()[#[trigger] blue_listing(
                dag.block_list(),
            )[i]].weight == i + 1,
        blue_listing(dag.block_list()).len() > 0,
        blue_listing(dag.block_list())[0] == dag.block_index(genesis_hash()),
{
    let (p, b) = lemma_run_facts(dag);
    let bl = dag.block_list();
    let s = blue_order(p, b);
    assert forall|x: int| 0 <= x < bl.len() implies ((#[trigger] bl[x]).color == BlockColor::Blue <==> s.contains(x)) by {
        lemma_last_pos_found(s, x);
        if s.contains(x) {
            let k = choose|k: int| 0 <= k < s.len() && s[k] == x;
            lemma_last_pos_unique(s, k);
        }
    }
    lemma_blue_weights(dag);
    lemma_genesis_first(dag);
}

/// When the links match the parents, the descendants of `x` are exactly
/// the blocks that have `x` as an ancestor.
pub proof fn lemma_descendant_iff_ancestor(dag: &BlockDAG, x: int, y: int)
    requires
        dag.wf(),
        dag.shape().links_match(),
    ensures
        dag.shape().is_descendant(x, y) <==> dag.shape().is_ancestor(y, x),
{
    lemma_block_count(dag);
    dag.shape().lemma_descendant_iff_ancestor(x, y);
}

/// In the GHOSTDAG order every block comes after its ancestors: of a blue
/// block and a blue ancestor of it (reached through blocks of any colour),
/// the ancestor has the smaller weight, and so comes first among the
/// ordered blue blocks. Stated for DAGs whose child links are exactly their
/// parent lists and whose genesis has no parents, as is every DAG made by
/// `new` and grown by `add_block` under new hashes.
pub proof fn lemma_blue_ancestor_lighter(dag: &BlockDAG, x: int, y: int)
    requires
        dag.wf(),
        dag.shape().links_match(),
        0 <= x < dag.block_list().len(),
        0 <= y < dag.block_list().len(),
        dag.shape().is_ancestor(x, y),
        dag.block_list()[x].color == BlockColor::Blue,
        dag.block_list()[y].color == BlockColor::Blue,
    ensures
        dag.block_list()[y].weight < dag.block_list()[x].weight,
{
    lemma_block_count(dag);
    let (p, b) = lemma_run_facts(dag);
    let sh = dag.shape();
    let bl = dag.block_list();
    let s = blue_order(p, b);
    lemma_blue_order_sub(p, b);
    assert(colors_match(bl, p, b));
    lemma_last_pos_found(s, x);
    lemma_last_pos_found(s, y);
    assert(bl[x].color == BlockColor::Blue);
    assert(s.contains(x));
    assert(s.contains(y));
    let j = choose|j: int| 0 <= j < p.len() && p[j] == x && b[j];
    let i2 = choose|i: int| 0 <= i < p.len() && p[i] == y && b[i];
    sh.lemma_run_after_ancestors(dag.rank@, p, b, j, y);
    let i = choose|i: int| 0 <= i < j && p[i] == y;
    assert(i == i2);
    lemma_blue_order_before(p, b, i, j);
}

/// Whether `y` is a blue block lighter than block `x` that lies in its
/// anticone: neither `x`, nor its ancestors, nor its descendants.
pub open spec fn lighter_anticone_of(dag: &BlockDAG, x: int) -> spec_fn(int) -> bool {
    |y: int|
        dag.block_list()[y].color == BlockColor::Blue && dag.block_list()[y].weight < dag.block_list()[x].weight
            && y != x && !dag.shape().is_ancestor(x, y) && !dag.shape().is_descendant(x, y)
}

/// The number of blue blocks lighter than block `x` in its anticone.
pub open spec fn lighter_blue_anticone(dag: &BlockDAG, x: int) -> nat {
    count_where(dag.block_list().len() as int, lighter_anticone_of(dag, x))
}

/// The blue rule, read off the finished colouring: a blue block other than
/// genesis has at most `k` lighter blue blocks in its anticone (those are
/// the blue blocks ordered before it that are neither its ancestors nor its
/// descendants).
pub proof fn lemma_blue_anticone_bound(dag: &BlockDAG, x: int)
    requires
        dag.wf(),
        0 <= x < dag.block_list().len(),
        dag.block_list()[x].color == BlockColor::Blue,
        dag.block_list()[x].hash != genesis_hash(),
    ensures
        lighter_blue_anticone(dag, x) <= dag.k_param(),
{
    let (p, b) = lemma_run_facts(dag);
    let sh = dag.shape();
    let bl = dag.block_list();
    let n = bl.len() as int;
    let s = blue_order(p, b);
    lemma_blue_order_sub(p, b);
    assert(colors_match(bl, p, b));
    lemma_last_pos_found(s, x);
    assert(s.contains(x));
    let j = choose|j: int| 0 <= j < p.len() && p[j] == x && b[j];
    let pp = p.take(j);
    let bb = b.take(j);
    assert(sh.next_ok(pp, bb, x, b[j]));
    assert(sh.hashes[x] == bl[x].hash);
    assert(sh.anticone_blues(pp, bb, x) <= sh.k);
    let f = |y: int| sh.in_anticone(pp, bb, x, y);
    let g = lighter_anticone_of(dag, x);
    assert forall|y: int| 0 <= y < n implies #[trigger] f(y) == g(y) by {
        lemma_last_pos_found(s, y);
        if f(y) {
            let i = choose|i: int| 0 <= i < pp.len() && pp[i] == y && #[trigger] bb[i];
            assert(p[i] == y && b[i]);
            lemma_blue_order_before(p, b, i, j);
            assert(bl[y].color == BlockColor::Blue);
        }
        if g(y) {
            assert(s.contains(y));
            let i = choose|i: int| 0 <= i < p.len() && p[i] == y && b[i];
            assert(i != j);
            if i > j {
                lemma_blue_order_before(p, b, j, i);
                assert(false);
            }
            assert(pp[i] == y && bb[i]);
            assert(sh.blue_before(pp, bb, y));
        }
    }
    lemma_count_where_ext(n, f, g);
}

/// Whether `y` is a blue block in the anticone of block `h`: neither `h`,
/// nor its ancestors, nor its descendants.
pub open spec fn blue_anticone_of(dag: &BlockDAG, h: int) -> spec_fn(int) -> bool {
    |y: int|
        dag.block_list()[y].color == BlockColor::Blue && y != h && !dag.shape().is_ancestor(h, y)
            && !dag.shape().is_descendant(h, y)
}

/// The red side of the blue rule: a red block has more than `k` blue
/// blocks in its anticone. Stated for DAGs whose child links are exactly
/// their parent lists and whose blocks other than genesis all have parents,
/// none named twice (so that GHOSTDAG reaches every block), as is every DAG
/// made by `new` and grown by `add_block` under new hashes with such parents.
pub proof fn lemma_red_anticone_bound(dag: &BlockDAG, h: int)
    requires
        dag.wf(),
        dag.shape().links_match(),
        dag.shape().parents_proper(),
        0 <= h < dag.block_list().len(),
        dag.block_list()[h].color == BlockColor::Red,
    ensures
        count_where(dag.block_list().len() as int, blue_anticone_of(dag, h)) > dag.k_param(),
{
    let (p, b) = lemma_run_facts(dag);
    let sh = dag.shape();
    let bl = dag.block_list();
    let n = bl.len() as int;
    let s = blue_order(p, b);
    lemma_blue_order_sub(p, b);
    assert(colors_match(bl, p, b));
    sh.lemma_run_complete(dag.rank@, p, b, h);
    let j = choose|j: int| 0 <= j < p.len() && p[j] == h;
    lemma_last_pos_found(s, h);
    if b[j] {
        assert(s.contains(h));
        assert(false);
    }
    let pp = p.take(j);
    let bb = b.take(j);
    assert(sh.next_ok(pp, bb, h, b[j]));
    assert(sh.anticone_blues(pp, bb, h) > sh.k);
    let f = |y: int| sh.in_anticone(pp, bb, h, y);
    let g = blue_anticone_of(dag, h);
    assert forall|y: int| 0 <= y < n && #[trigger] f(y) implies g(y) by {
        let i = choose|i: int| 0 <= i < pp.len() && pp[i] == y && #[trigger] bb[i];
        assert(p[i] == y && b[i]);
        assert(s.contains(y));
        lemma_last_pos_found(s, y);
    }
    lemma_count_where_mono(n, f, g);
}

} // verus!

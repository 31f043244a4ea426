//! The ledger: transactions, blocks, and the chain that holds them.

use vstd::prelude::*;
use crate::error::{BlockError, TransactionError};
use crate::hasher::{block_digest, hash_block};
use crate::pow::{least_valid_proof, valid_proof};
use crate::util::Timestamp;

verus! {

/// A transfer of `amount` from `sender` to `recipient`.
#[derive(Debug, Clone, PartialEq)]
pub struct StupidTransaction {
    pub sender: String,
    pub recipient: String,
    pub amount: usize,
}

/// The value of a transaction: its texts as characters.
pub struct TransactionView {
    pub sender: Seq<char>,
    pub recipient: Seq<char>,
    pub amount: usize,
}

impl View for StupidTransaction {
    type V = TransactionView;

    open spec fn view(&self) -> TransactionView {
        TransactionView { sender: self.sender@, recipient: self.recipient@, amount: self.amount }
    }
}

impl StupidTransaction {
    pub fn new(sender: String, recipient: String, amount: usize) -> (t: StupidTransaction)
        ensures
            t@ == (TransactionView { sender: sender@, recipient: recipient@, amount }),
    {
        StupidTransaction { sender, recipient, amount }
    }
}

/// A block of the chain: its 1-based position, when it was mined, the transactions
/// it absorbed, its proof of work, and the digest of the block before it.
#[derive(Debug, Clone, PartialEq)]
pub struct StupidBlock {
    pub index: usize,
    pub timestamp: Timestamp,
    pub transactions: Vec<StupidTransaction>,
    pub proof: usize,
    pub previous_hash: Vec<u8>,
}

/// The value of a block: its timestamp in nanoseconds and its transactions' values.
pub struct BlockView {
    pub index: usize,
    pub timestamp: u64,
    pub transactions: Seq<TransactionView>,
    pub proof: usize,
    pub previous_hash: Seq<u8>,
}

pub open spec fn transaction_views(ts: Seq<StupidTransaction>) -> Seq<TransactionView> {
    ts.map_values(|t: StupidTransaction| t@)
}

impl View for StupidBlock {
    type V = BlockView;

    open spec fn view(&self) -> BlockView {
        BlockView {
            index: self.index,
            timestamp: self.timestamp.0,
            transactions: transaction_views(self.transactions@),
            proof: self.proof,
            previous_hash: self.previous_hash@,
        }
    }
}

impl StupidBlock {
    pub fn new(
        index: usize,
        timestamp: Timestamp,
        transactions: Vec<StupidTransaction>,
        proof: usize,
        previous_hash: Vec<u8>,
    ) -> (b: StupidBlock)
        ensures
            b@ == (BlockView {
                index,
                timestamp: timestamp.0,
                transactions: transaction_views(transactions@),
                proof,
                previous_hash: previous_hash@,
            }),
    {
        StupidBlock { index, timestamp, transactions, proof, previous_hash }
    }
}

} // verus!

verus! {

/// Thirty-two zero bytes: the previous digest recorded in a genesis block.
pub open spec fn genesis_hash() -> Seq<u8> {
    Seq::new(32, |i: int| 0u8)
}

pub open spec fn block_views(bs: Seq<StupidBlock>) -> Seq<BlockView> {
    bs.map_values(|b: StupidBlock| b@)
}

pub open spec fn peer_views(ps: Seq<String>) -> Seq<Seq<char>> {
    ps.map_values(|p: String| p@)
}

/// Each block after the first records its predecessor's digest and carries a proof
/// that is admissible after its predecessor.
pub open spec fn chain_valid(c: Seq<BlockView>) -> bool {
    forall|i: int|
        #![trigger c[i]]
        0 < i < c.len() ==> {
            &&& c[i].previous_hash == block_digest(c[i - 1])
            &&& valid_proof(block_digest(c[i - 1]), c[i - 1].proof, c[i].proof)
        }
}

/// The value of a ledger: its chain, its staged transactions, and its peers' addresses.
pub struct LedgerView {
    pub chain: Seq<BlockView>,
    pub pending: Seq<TransactionView>,
    pub peers: Seq<Seq<char>>,
}

impl LedgerView {
    /// The digest that the next block will record as its predecessor's.
    pub open spec fn last_hash(self) -> Seq<u8> {
        if self.chain.len() == 0 {
            genesis_hash()
        } else {
            block_digest(self.chain.last())
        }
    }

    /// The block that mining at `timestamp` with `proof` appends.
    pub open spec fn next_block(self, timestamp: u64, proof: usize) -> BlockView {
        BlockView {
            index: (self.chain.len() + 1) as usize,
            timestamp,
            transactions: self.pending,
            proof,
            previous_hash: self.last_hash(),
        }
    }

    pub open spec fn staged(self, tx: TransactionView) -> LedgerView {
        LedgerView { pending: self.pending.push(tx), ..self }
    }

    pub open spec fn mined(self, timestamp: u64, proof: usize) -> LedgerView {
        LedgerView {
            chain: self.chain.push(self.next_block(timestamp, proof)),
            pending: Seq::empty(),
            peers: self.peers,
        }
    }

    pub open spec fn registered(self, address: Seq<char>) -> LedgerView {
        LedgerView { peers: self.peers.push(address), ..self }
    }

    /// The ledger after mining at each `(timestamp, proof)` of `steps` in turn.
    pub open spec fn mined_all(self, steps: Seq<(u64, usize)>) -> LedgerView
        decreases steps.len(),
    {
        if steps.len() == 0 {
            self
        } else {
            self.mined_all(steps.drop_last()).mined(steps.last().0, steps.last().1)
        }
    }

    /// Each step's proof is admissible after the last block of the chain it is mined onto.
    pub open spec fn proofs_admissible(self, steps: Seq<(u64, usize)>) -> bool {
        forall|i: int|
            0 <= i < steps.len() ==> {
                let before = #[trigger] self.mined_all(steps.take(i));
                before.chain.len() > 0 ==> valid_proof(
                    before.last_hash(),
                    before.chain.last().proof,
                    steps[i].1,
                )
            }
    }
}

/// A ledger: the chain, the transactions staged for the next block, and the
/// addresses of known peers.
#[derive(Debug)]
pub struct StupidLedger {
    pub chain: Vec<StupidBlock>,
    pub peers: Vec<String>,
    pub block_txs: Vec<StupidTransaction>,
}

impl View for StupidLedger {
    type V = LedgerView;

    open spec fn view(&self) -> LedgerView {
        LedgerView {
            chain: block_views(self.chain@),
            pending: transaction_views(self.block_txs@),
            peers: peer_views(self.peers@),
        }
    }
}

fn genesis_hash_bytes() -> (r: Vec<u8>)
    ensures
        r@ == genesis_hash(),
{
    let mut r: Vec<u8> = Vec::new();
    let mut i: usize = 0;
    while i < 32
        invariant
            i <= 32,
            r@ == Seq::new(i as nat, |j: int| 0u8),
        decreases 32 - i,
    {
        r.push(0u8);
        i = i + 1;
        proof {
            assert(r@ =~= Seq::new(i as nat, |j: int| 0u8));
        }
    }
    r
}

fn bytes_equal(a: &[u8], b: &[u8]) -> (r: bool)
    ensures
        r == (a@ == b@),
{
    if a.len() != b.len() {
        return false;
    }
    let mut i: usize = 0;
    while i < a.len()
        invariant
            a@.len() == b@.len(),
            i <= a@.len(),
            forall|j: int| 0 <= j < i ==> a@[j] == b@[j],
        decreases a@.len() - i,
    {
        if a[i] != b[i] {
            return false;
        }
        i = i + 1;
    }
    proof {
        assert(a@ =~= b@);
    }
    true
}

impl StupidLedger {
    /// A ledger over `chain`, with no staged transactions and no peers.
    pub fn new(chain: Vec<StupidBlock>) -> (l: StupidLedger)
        ensures
            l@ == (LedgerView { chain: block_views(chain@), pending: Seq::empty(), peers: Seq::empty() }),
    {
        let l = StupidLedger { chain, peers: Vec::new(), block_txs: Vec::new() };
        proof {
            assert(l@.pending =~= Seq::<TransactionView>::empty());
            assert(l@.peers =~= Seq::<Seq<char>>::empty());
        }
        l
    }

    /// The digest of a block.
    pub fn hash(obj: &StupidBlock) -> (r: Vec<u8>)
        ensures
            r@ == block_digest(obj@),
    {
        hash_block(obj)
    }

    /// Whether each block after the first links to its predecessor's digest and
    /// carries an admissible proof; checking stops at the first block that fails.
    pub fn is_valid_chain(chain: &Vec<StupidBlock>) -> (r: bool)
        ensures
            r == chain_valid(block_views(chain@)),
    {
        let ghost c = block_views(chain@);
        if chain.len() == 0 {
            return true;
        }
        let mut last_block_hash = Self::hash(&chain[0]);
        let mut index: usize = 1;
        while index < chain.len()
            invariant
                c == block_views(chain@),
                1 <= index <= chain@.len(),
                last_block_hash@ == block_digest(c[index - 1]),
                forall|i: int|
                    #![trigger c[i]]
                    0 < i < index ==> {
                        &&& c[i].previous_hash == block_digest(c[i - 1])
                        &&& valid_proof(block_digest(c[i - 1]), c[i - 1].proof, c[i].proof)
                    },
            decreases chain@.len() - index,
        {
            if !bytes_equal(chain[index].previous_hash.as_slice(), last_block_hash.as_slice()) {
                assert(!(c[index as int].previous_hash == block_digest(c[index - 1])));
                return false;
            }
            if !Self::is_valid_proof(
                last_block_hash.as_slice(),
                chain[index - 1].proof,
                chain[index].proof,
            ) {
                assert(!valid_proof(
                    block_digest(c[index - 1]),
                    c[index - 1].proof,
                    c[index as int].proof,
                ));
                return false;
            }
            last_block_hash = Self::hash(&chain[index]);
            index = index + 1;
        }
        true
    }

    /// Whether the ledger's own chain is valid.
    pub fn is_valid(&self) -> (r: bool)
        ensures
            r == chain_valid(self@.chain),
    {
        Self::is_valid_chain(&self.chain)
    }

    /// Adds a peer's address; an address already known is added again.
    pub fn register_peer(&mut self, address: String)
        ensures
            final(self)@ == old(self)@.registered(address@),
    {
        self.peers.push(address);
        proof {
            assert(final(self)@.peers =~= old(self)@.peers.push(address@));
        }
    }

    /// The most recent block, if any.
    pub fn last_block(&self) -> (r: Option<&StupidBlock>)
        ensures
            self.chain@.len() == 0 ==> r is None,
            self.chain@.len() > 0 ==> (r matches Some(b) && *b == self.chain@.last()),
    {
        if self.chain.len() == 0 {
            None
        } else {
            Some(&self.chain[self.chain.len() - 1])
        }
    }

    /// The digest that the next block records as its predecessor's: the last
    /// block's digest, or thirty-two zero bytes while the chain is empty.
    pub fn last_hash(&self) -> (r: Vec<u8>)
        ensures
            r@ == self@.last_hash(),
    {
        if self.chain.len() == 0 {
            genesis_hash_bytes()
        } else {
            Self::hash(&self.chain[self.chain.len() - 1])
        }
    }

    /// Stages a transaction for the next block; returns that block's index.
    pub fn add_transaction(&mut self, tx: StupidTransaction) -> (r: Result<usize, TransactionError>)
        requires
            old(self)@.chain.len() < usize::MAX,
        ensures
            final(self)@ == old(self)@.staged(tx@),
            r == Ok::<usize, TransactionError>((old(self)@.chain.len() + 1) as usize),
    {
        self.block_txs.push(tx);
        proof {
            assert(final(self)@.pending =~= old(self)@.pending.push(tx@));
        }
        Ok(self.chain.len() + 1)
    }

    /// Appends a block holding the staged transactions, in staging order, and
    /// clears them. The proof is recorded as given: it is not checked here.
    pub fn new_block(&mut self, timestamp: Timestamp, proof: usize) -> (r: Result<&Vec<StupidBlock>, BlockError>)
        requires
            old(self)@.chain.len() < usize::MAX,
        ensures
            final(self)@ == old(self)@.mined(timestamp.0, proof),
            r matches Ok(c) && c@ == final(self).chain@,
    {
        let previous_hash = self.last_hash();
        let mut transactions: Vec<StupidTransaction> = Vec::new();
        core::mem::swap(&mut transactions, &mut self.block_txs);
        let block = StupidBlock::new(self.chain.len() + 1, timestamp, transactions, proof, previous_hash);
        self.chain.push(block);
        proof {
            assert(final(self)@.chain =~= old(self)@.chain.push(old(self)@.next_block(timestamp.0, proof)));
            assert(final(self)@.pending =~= Seq::<TransactionView>::empty());
        }
        Ok(&self.chain)
    }

    /// The least admissible proof for the next block, after a block with proof
    /// `last_proof`.
    pub fn find_proof(&self, last_proof: usize) -> (r: Option<usize>)
        ensures
            r matches Some(p) ==> least_valid_proof(self@.last_hash(), last_proof, p),
            r is None ==> forall|c: usize| !valid_proof(self@.last_hash(), last_proof, c),
    {
        let last_block_hash = self.last_hash();
        Self::search_proof(last_block_hash.as_slice(), last_proof)
    }
}

} // verus!

verus! {

/// The first block mined onto an empty chain records thirty-two zero bytes as its
/// predecessor's digest.
pub proof fn lemma_genesis_previous_hash(l: LedgerView, timestamp: u64, proof: usize)
    requires
        l.chain.len() == 0,
    ensures
        l.mined(timestamp, proof).chain.len() == 1,
        l.mined(timestamp, proof).chain[0].previous_hash == genesis_hash(),
        genesis_hash().len() == 32,
        forall|i: int| 0 <= i < 32 ==> #[trigger] genesis_hash()[i] == 0u8,
{
}

/// A chain of at most one block is valid.
pub proof fn lemma_short_chain_valid(c: Seq<BlockView>)
    requires
        c.len() <= 1,
    ensures
        chain_valid(c),
{
}

/// Mining onto a valid chain keeps it valid when the proof is admissible after the
/// last block (as `find_proof` on that block's proof returns); the first block needs
/// no proof. Staging transactions and registering peers leave the chain as it is.
pub proof fn lemma_mining_keeps_chain_valid(l: LedgerView, timestamp: u64, proof: usize)
    requires
        chain_valid(l.chain),
        l.chain.len() > 0 ==> valid_proof(l.last_hash(), l.chain.last().proof, proof),
    ensures
        chain_valid(l.mined(timestamp, proof).chain),
        forall|tx: TransactionView| #[trigger] l.staged(tx).chain == l.chain,
        forall|a: Seq<char>| #[trigger] l.registered(a).chain == l.chain,
{
    let c = l.mined(timestamp, proof).chain;
    assert forall|i: int| #![trigger c[i]] 0 < i < c.len() implies {
        &&& c[i].previous_hash == block_digest(c[i - 1])
        &&& valid_proof(block_digest(c[i - 1]), c[i - 1].proof, c[i].proof)
    } by {
        if i < l.chain.len() {
            assert(c[i] == l.chain[i]);
            assert(c[i - 1] == l.chain[i - 1]);
        } else {
            assert(c[i - 1] == l.chain.last());
        }
    }
}

/// A valid chain, extended by mining block after block with admissible proofs (as
/// `find_proof` returns), stays valid; so does every chain mined from nothing that way.
pub proof fn lemma_mined_chain_valid(l: LedgerView, steps: Seq<(u64, usize)>)
    requires
        chain_valid(l.chain),
        l.proofs_admissible(steps),
    ensures
        chain_valid(l.mined_all(steps).chain),
    decreases steps.len(),
{
    if steps.len() > 0 {
        let prefix = steps.drop_last();
        assert forall|i: int| 0 <= i < prefix.len() implies {
            let before = #[trigger] l.mined_all(prefix.take(i));
            before.chain.len() > 0 ==> valid_proof(before.last_hash(), before.chain.last().proof, prefix[i].1)
        } by {
            assert(prefix.take(i) =~= steps.take(i));
            assert(l.mined_all(steps.take(i)) == l.mined_all(prefix.take(i)));
        }
        lemma_mined_chain_valid(l, prefix);
        let last = steps.len() - 1;
        assert(steps.take(last) =~= prefix);
        assert(l.mined_all(steps.take(last)) == l.mined_all(prefix));
        lemma_mining_keeps_chain_valid(l.mined_all(prefix), steps.last().0, steps.last().1);
    }
}

/// Changing the recorded predecessor digest of any block after the first makes a
/// valid chain invalid.
pub proof fn lemma_altered_link_invalidates(c: Seq<BlockView>, i: int, h: Seq<u8>)
    requires
        chain_valid(c),
        0 < i < c.len(),
        h != c[i].previous_hash,
    ensures
        !chain_valid(c.update(i, BlockView { previous_hash: h, ..c[i] })),
{
    let d = c.update(i, BlockView { previous_hash: h, ..c[i] });
    assert(d[i - 1] == c[i - 1]);
    assert(d[i].previous_hash != block_digest(d[i - 1]));
}

/// Staging `a` and then `b` on an empty pool and mining yields a block holding
/// exactly `a, b` in that order, and leaves the pool empty.
pub proof fn lemma_staged_then_mined(
    l: LedgerView,
    a: TransactionView,
    b: TransactionView,
    timestamp: u64,
    proof: usize,
)
    requires
        l.pending.len() == 0,
    ensures
        l.staged(a).staged(b).mined(timestamp, proof).chain.last().transactions == seq![a, b],
        l.staged(a).staged(b).mined(timestamp, proof).pending.len() == 0,
{
    assert(l.staged(a).staged(b).pending =~= seq![a, b]);
}

/// Registering the same address twice yields two entries for it.
pub proof fn lemma_register_twice(l: LedgerView, address: Seq<char>)
    ensures
        l.registered(address).registered(address).peers == l.peers + seq![address, address],
{
    assert(l.registered(address).registered(address).peers =~= l.peers + seq![address, address]);
}

} // verus!

verus! {

/// A block that can judge its own validity.
pub trait Block {
    fn is_valid(&self) -> bool;
}

/// A transaction that can judge its own validity.
pub trait Transaction {
    fn is_valid(&self) -> bool;
}

/// No rule restricts a block's contents in this ledger.
impl Block for StupidBlock {
    fn is_valid(&self) -> (r: bool) {
        true
    }
}

/// No rule restricts a transaction's contents in this ledger.
impl Transaction for StupidTransaction {
    fn is_valid(&self) -> (r: bool) {
        true
    }
}

} // verus!

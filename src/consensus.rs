//! The consensus rule: the longest valid chain wins, and ties keep what is held.

use vstd::prelude::*;
use crate::ledger::{block_views, chain_valid, BlockView, StupidBlock, StupidLedger};

verus! {

/// What each peer handed back: its chain, or `None` where fetching or decoding failed.
pub open spec fn candidate_views(fetched: Seq<Option<Vec<StupidBlock>>>) -> Seq<Option<Seq<BlockView>>> {
    fetched.map_values(
        |o: Option<Vec<StupidBlock>>|
            match o {
                Some(c) => Some(block_views(c@)),
                None => None,
            },
    )
}

/// A candidate that may replace a local chain of `local_len` blocks: fetched,
/// valid, and strictly longer.
pub open spec fn eligible(c: Option<Seq<BlockView>>, local_len: nat) -> bool {
    match c {
        Some(ch) => chain_valid(ch) && ch.len() > local_len,
        None => false,
    }
}

pub open spec fn candidate_len(c: Option<Seq<BlockView>>) -> nat {
    match c {
        Some(ch) => ch.len(),
        None => 0,
    }
}

/// Candidate `j` is the one adopted: eligible, no eligible candidate is longer, and
/// every eligible candidate before it is shorter.
pub open spec fn chosen(cands: Seq<Option<Seq<BlockView>>>, local_len: nat, j: int) -> bool {
    &&& 0 <= j < cands.len()
    &&& eligible(cands[j], local_len)
    &&& forall|k: int|
        #![trigger eligible(cands[k], local_len)]
        0 <= k < cands.len() && eligible(cands[k], local_len) ==> candidate_len(cands[k])
            <= candidate_len(cands[j])
    &&& forall|k: int|
        #![trigger eligible(cands[k], local_len)]
        0 <= k < j && eligible(cands[k], local_len) ==> candidate_len(cands[k]) < candidate_len(
            cands[j],
        )
}

impl StupidLedger {
    /// Settles the chain against what the peers handed back (`None` for a peer that
    /// could not be reached or decoded, which is skipped). The local chain is replaced
    /// by the longest valid candidate strictly longer than it, the earliest of equal
    /// ones; returns whether it was replaced.
    pub fn resolve_conflicts(&mut self, fetched: Vec<Option<Vec<StupidBlock>>>) -> (replaced: bool)
        ensures
            replaced == exists|j: int|
                0 <= j < fetched@.len() && eligible(
                    #[trigger] candidate_views(fetched@)[j],
                    old(self)@.chain.len(),
                ),
            replaced ==> exists|j: int|
                chosen(candidate_views(fetched@), old(self)@.chain.len(), j)
                    && Some(final(self)@.chain) == #[trigger] candidate_views(fetched@)[j],
            !replaced ==> final(self)@.chain == old(self)@.chain,
            final(self)@.pending == old(self)@.pending,
            final(self)@.peers == old(self)@.peers,
    {
        let ghost cands = candidate_views(fetched@);
        let ghost local_len = old(self)@.chain.len();
        let mut fetched = fetched;
        let mut max_len = self.chain.len();
        let mut best: Option<usize> = None;
        let mut i: usize = 0;
        while i < fetched.len()
            invariant
                cands == candidate_views(fetched@),
                local_len == self@.chain.len(),
                i <= fetched@.len(),
                best is None ==> max_len == local_len,
                best is None ==> forall|k: int| 0 <= k < i ==> !eligible(#[trigger] cands[k], local_len),
                best matches Some(b) ==> {
                    &&& b < i
                    &&& eligible(cands[b as int], local_len)
                    &&& max_len == candidate_len(cands[b as int])
                    &&& forall|k: int|
                        0 <= k < b && eligible(#[trigger] cands[k], local_len) ==> candidate_len(cands[k])
                            < max_len
                },
                forall|k: int|
                    0 <= k < i && eligible(#[trigger] cands[k], local_len) ==> candidate_len(cands[k])
                        <= max_len,
            decreases fetched@.len() - i,
        {
            match &fetched[i] {
                Some(chain) => {
                    if max_len < chain.len() && Self::is_valid_chain(chain) {
                        max_len = chain.len();
                        best = Some(i);
                    }
                },
                None => {},
            }
            i = i + 1;
        }
        match best {
            Some(b) => {
                let taken = fetched.remove(b);
                match taken {
                    Some(chain) => {
                        self.chain = chain;
                    },
                    None => {},
                }
                proof {
                    assert(chosen(cands, local_len, b as int));
                }
                true
            },
            None => false,
        }
    }
}

} // verus!

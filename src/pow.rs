//! The proof-of-work admission gate.

use vstd::prelude::*;
use crate::hasher::{hash_text, text_digest};
use crate::ledger::StupidLedger;
use crate::util::{push_char, hex_text, Hex};

verus! {

/// How many leading bytes of an admissible digest must be zero.
pub const DIFFICULTY: usize = 2;

pub open spec fn decimal_digit(n: nat) -> char
    recommends
        n < 10,
{
    ((n + 48) as u8) as char
}

/// A natural number in decimal, without leading zeros.
pub open spec fn decimal_text(n: nat) -> Seq<char>
    decreases n,
{
    if n < 10 {
        seq![decimal_digit(n)]
    } else {
        decimal_text(n / 10).push(decimal_digit(n % 10))
    }
}

/// What a candidate proof is judged by: the previous digest in hex, then the
/// previous proof and the candidate in decimal.
pub open spec fn proof_text(last_hash: Seq<u8>, last_proof: usize, proof: usize) -> Seq<char> {
    hex_text(last_hash) + decimal_text(last_proof as nat) + decimal_text(proof as nat)
}

/// The first `DIFFICULTY` bytes of the digest are zero.
pub open spec fn meets_difficulty(d: Seq<u8>) -> bool {
    d.len() >= DIFFICULTY && forall|i: int| 0 <= i < DIFFICULTY ==> d[i] == 0
}

pub open spec fn valid_proof(last_hash: Seq<u8>, last_proof: usize, proof: usize) -> bool {
    meets_difficulty(text_digest(proof_text(last_hash, last_proof, proof)))
}

/// `proof` is the least candidate that `valid_proof` admits.
pub open spec fn least_valid_proof(last_hash: Seq<u8>, last_proof: usize, proof: usize) -> bool {
    &&& valid_proof(last_hash, last_proof, proof)
    &&& forall|c: usize| c < proof ==> !valid_proof(last_hash, last_proof, c)
}

fn push_decimal(s: &mut String, n: usize)
    ensures
        final(s)@ == old(s)@ + decimal_text(n as nat),
    decreases n,
{
    if n >= 10 {
        push_decimal(s, n / 10);
    }
    push_char(s, ((n % 10) as u8 + 48) as char);
    proof {
        assert(final(s)@ =~= old(s)@ + decimal_text(n as nat));
    }
}

impl StupidLedger {
    /// Whether `proof` is admissible after a block with digest `last_hash` and
    /// proof `last_proof`.
    pub fn is_valid_proof(last_hash: &[u8], last_proof: usize, proof: usize) -> (r: bool)
        ensures
            r == valid_proof(last_hash@, last_proof, proof),
    {
        let mut s = Hex::from_bytes(last_hash);
        push_decimal(&mut s, last_proof);
        push_decimal(&mut s, proof);
        proof {
            assert(s@ =~= proof_text(last_hash@, last_proof, proof));
        }
        let d = hash_text(s.as_str());
        if d.len() < DIFFICULTY {
            return false;
        }
        let mut i: usize = 0;
        while i < DIFFICULTY
            invariant
                d@ == text_digest(proof_text(last_hash@, last_proof, proof)),
                d@.len() >= DIFFICULTY,
                i <= DIFFICULTY,
                forall|j: int| 0 <= j < i ==> d@[j] == 0,
            decreases DIFFICULTY - i,
        {
            if d[i] != 0 {
                assert(!meets_difficulty(d@));
                return false;
            }
            i = i + 1;
        }
        true
    }

    /// The least admissible proof after a block with digest `last_hash` and proof
    /// `last_proof`, found by trying 0, 1, 2, ... in turn; `None` when no `usize` is
    /// admissible.
    pub fn search_proof(last_hash: &[u8], last_proof: usize) -> (r: Option<usize>)
        ensures
            r matches Some(p) ==> least_valid_proof(last_hash@, last_proof, p),
            r is None ==> forall|c: usize| !valid_proof(last_hash@, last_proof, c),
    {
        let mut proof: usize = 0;
        loop
            invariant
                forall|c: usize| c < proof ==> !valid_proof(last_hash@, last_proof, c),
            decreases usize::MAX - proof,
        {
            if Self::is_valid_proof(last_hash, last_proof, proof) {
                return Some(proof);
            }
            if proof == usize::MAX {
                return None;
            }
            proof = proof + 1;
        }
    }
}

} // verus!

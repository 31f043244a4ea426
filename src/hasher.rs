//! The canonical hasher: a structural encoding of each entity, visiting its
//! fields by name in a fixed order, digested with SHA-256.
//!
//! Every piece of the encoding is tagged, and every variable-length piece carries
//! its length, so distinct entities never share an encoding.

use vstd::prelude::*;
use vstd::utf8::{decode_utf8, encode_utf8, encode_utf8_decode_utf8};
use crate::ledger::{BlockView, StupidBlock, StupidTransaction, TransactionView};
use crate::util::Timestamp;

verus! {

/// SHA-256 is defined for messages shorter than 2^64 bits.
pub const DIGEST_INPUT_LIMIT: u64 = 0x2000_0000_0000_0000;

pub const TAG_INTEGER: u8 = 0x69;

pub const TAG_TEXT: u8 = 0x75;

pub const TAG_OCTETS: u8 = 0x6f;

pub const TAG_LIST: u8 = 0x6c;

pub const TAG_RECORD: u8 = 0x64;

/// The SHA-256 digest of a byte sequence.
pub uninterp spec fn sha256_of(data: Seq<u8>) -> Seq<u8>;

/// Relies on `ring::digest::digest` with `ring::digest::SHA256`: a 32-byte digest
/// that depends on the input bytes alone. It panics on inputs of 2^61 bytes or more.
#[verifier::external_body]
fn sha256(data: &[u8]) -> (r: Vec<u8>)
    requires
        data@.len() < DIGEST_INPUT_LIMIT,
    ensures
        r@ == sha256_of(data@),
        r@.len() == 32,
{
    ring::digest::digest(&ring::digest::SHA256, data).as_ref().to_vec()
}

/// The digest of a byte sequence; a message too long for SHA-256 has the empty digest.
pub open spec fn digest_of(data: Seq<u8>) -> Seq<u8> {
    if (data.len() as u64) < DIGEST_INPUT_LIMIT {
        sha256_of(data)
    } else {
        Seq::empty()
    }
}

/// Big-endian bytes of a 64-bit integer.
pub open spec fn u64_bytes(x: u64) -> Seq<u8> {
    seq![
        (x >> 56u64) as u8,
        (x >> 48u64) as u8,
        (x >> 40u64) as u8,
        (x >> 32u64) as u8,
        (x >> 24u64) as u8,
        (x >> 16u64) as u8,
        (x >> 8u64) as u8,
        x as u8,
    ]
}

pub open spec fn integer_encoding(x: u64) -> Seq<u8> {
    seq![TAG_INTEGER] + u64_bytes(x)
}

pub open spec fn octets_encoding(b: Seq<u8>) -> Seq<u8> {
    seq![TAG_OCTETS] + u64_bytes(b.len() as u64) + b
}

/// Text is encoded as its UTF-8 bytes.
pub open spec fn text_encoding(s: Seq<char>) -> Seq<u8> {
    seq![TAG_TEXT] + u64_bytes(encode_utf8(s).len() as u64) + encode_utf8(s)
}

/// A named field of a record: the name's encoding, then the value's.
pub open spec fn field(name: Seq<char>, value: Seq<u8>) -> Seq<u8> {
    text_encoding(name) + value
}

pub open spec fn transaction_encoding(t: TransactionView) -> Seq<u8> {
    seq![TAG_RECORD] + field("sender"@, text_encoding(t.sender)) + field(
        "recipient"@,
        text_encoding(t.recipient),
    ) + field("amount"@, integer_encoding(t.amount as u64))
}

/// The transactions' encodings one after another.
pub open spec fn transactions_concat(ts: Seq<TransactionView>) -> Seq<u8>
    decreases ts.len(),
{
    if ts.len() == 0 {
        Seq::empty()
    } else {
        transactions_concat(ts.drop_last()) + transaction_encoding(ts.last())
    }
}

pub open spec fn transactions_encoding(ts: Seq<TransactionView>) -> Seq<u8> {
    seq![TAG_LIST] + u64_bytes(ts.len() as u64) + transactions_concat(ts)
}

/// A timestamp is a record of one field, its nanoseconds since the epoch.
pub open spec fn timestamp_encoding(nanos: u64) -> Seq<u8> {
    seq![TAG_RECORD] + field("value"@, integer_encoding(nanos))
}

/// The fields of a block from the timestamp on.
pub open spec fn block_tail_encoding(b: BlockView) -> Seq<u8> {
    field("timestamp"@, timestamp_encoding(b.timestamp)) + (field(
        "transactions"@,
        transactions_encoding(b.transactions),
    ) + (field("proof"@, integer_encoding(b.proof as u64)) + field(
        "previous_hash"@,
        octets_encoding(b.previous_hash),
    )))
}

pub open spec fn block_encoding(b: BlockView) -> Seq<u8> {
    seq![TAG_RECORD] + (field("index"@, integer_encoding(b.index as u64)) + block_tail_encoding(b))
}

pub open spec fn block_digest(b: BlockView) -> Seq<u8> {
    digest_of(block_encoding(b))
}

pub open spec fn text_digest(s: Seq<char>) -> Seq<u8> {
    digest_of(text_encoding(s))
}

/// The text's UTF-8 length fits the 64-bit length prefix.
pub open spec fn text_fits(s: Seq<char>) -> bool {
    encode_utf8(s).len() <= u64::MAX
}

pub open spec fn transaction_fits(t: TransactionView) -> bool {
    text_fits(t.sender) && text_fits(t.recipient)
}

/// Every length that the block's encoding records fits in 64 bits, as it does for
/// any block held in memory.
pub open spec fn block_fits(b: BlockView) -> bool {
    &&& b.transactions.len() <= u64::MAX
    &&& forall|i: int| 0 <= i < b.transactions.len() ==> transaction_fits(#[trigger] b.transactions[i])
    &&& b.previous_hash.len() <= u64::MAX
}

proof fn lemma_split(a1: Seq<u8>, r1: Seq<u8>, a2: Seq<u8>, r2: Seq<u8>)
    requires
        a1 + r1 == a2 + r2,
        a1.len() == a2.len(),
    ensures
        a1 == a2,
        r1 == r2,
{
    assert(a1 =~= (a1 + r1).subrange(0, a1.len() as int));
    assert(a2 =~= (a2 + r2).subrange(0, a2.len() as int));
    assert(r1 =~= (a1 + r1).subrange(a1.len() as int, (a1 + r1).len() as int));
    assert(r2 =~= (a2 + r2).subrange(a2.len() as int, (a2 + r2).len() as int));
}

proof fn lemma_u64_bytes_injective(x: u64, y: u64)
    requires
        u64_bytes(x) == u64_bytes(y),
    ensures
        x == y,
{
    assert(u64_bytes(x)[0] == u64_bytes(y)[0]);
    assert(u64_bytes(x)[1] == u64_bytes(y)[1]);
    assert(u64_bytes(x)[2] == u64_bytes(y)[2]);
    assert(u64_bytes(x)[3] == u64_bytes(y)[3]);
    assert(u64_bytes(x)[4] == u64_bytes(y)[4]);
    assert(u64_bytes(x)[5] == u64_bytes(y)[5]);
    assert(u64_bytes(x)[6] == u64_bytes(y)[6]);
    assert(u64_bytes(x)[7] == u64_bytes(y)[7]);
    assert(x == y) by (bit_vector)
        requires
            (x >> 56u64) as u8 == (y >> 56u64) as u8,
            (x >> 48u64) as u8 == (y >> 48u64) as u8,
            (x >> 40u64) as u8 == (y >> 40u64) as u8,
            (x >> 32u64) as u8 == (y >> 32u64) as u8,
            (x >> 24u64) as u8 == (y >> 24u64) as u8,
            (x >> 16u64) as u8 == (y >> 16u64) as u8,
            (x >> 8u64) as u8 == (y >> 8u64) as u8,
            x as u8 == y as u8,
    ;
}

/// A tag and a length prefix, then content of that length, parse back uniquely.
proof fn lemma_prefixed_parse(
    tag: u8,
    c1: Seq<u8>,
    r1: Seq<u8>,
    c2: Seq<u8>,
    r2: Seq<u8>,
)
    requires
        c1.len() <= u64::MAX,
        c2.len() <= u64::MAX,
        seq![tag] + u64_bytes(c1.len() as u64) + c1 + r1 == seq![tag] + u64_bytes(c2.len() as u64)
            + c2 + r2,
    ensures
        c1 == c2,
        r1 == r2,
{
    let h1 = seq![tag] + u64_bytes(c1.len() as u64);
    let h2 = seq![tag] + u64_bytes(c2.len() as u64);
    assert(h1 + c1 + r1 =~= h1 + (c1 + r1));
    assert(h2 + c2 + r2 =~= h2 + (c2 + r2));
    lemma_split(h1, c1 + r1, h2, c2 + r2);
    assert(u64_bytes(c1.len() as u64) =~= h1.subrange(1, 9));
    assert(u64_bytes(c2.len() as u64) =~= h2.subrange(1, 9));
    lemma_u64_bytes_injective(c1.len() as u64, c2.len() as u64);
    lemma_split(c1, r1, c2, r2);
}

proof fn lemma_text_parse(s1: Seq<char>, r1: Seq<u8>, s2: Seq<char>, r2: Seq<u8>)
    requires
        text_fits(s1),
        text_fits(s2),
        text_encoding(s1) + r1 == text_encoding(s2) + r2,
    ensures
        s1 == s2,
        r1 == r2,
{
    lemma_prefixed_parse(TAG_TEXT, encode_utf8(s1), r1, encode_utf8(s2), r2);
    encode_utf8_decode_utf8(s1);
    encode_utf8_decode_utf8(s2);
}

proof fn lemma_integer_parse(x1: u64, r1: Seq<u8>, x2: u64, r2: Seq<u8>)
    requires
        integer_encoding(x1) + r1 == integer_encoding(x2) + r2,
    ensures
        x1 == x2,
        r1 == r2,
{
    lemma_split(integer_encoding(x1), r1, integer_encoding(x2), r2);
    assert(u64_bytes(x1) =~= integer_encoding(x1).subrange(1, 9));
    assert(u64_bytes(x2) =~= integer_encoding(x2).subrange(1, 9));
    lemma_u64_bytes_injective(x1, x2);
}

/// Peels a field of the same name off both sides.
proof fn lemma_field_parse(name: Seq<char>, v1: Seq<u8>, r1: Seq<u8>, v2: Seq<u8>, r2: Seq<u8>)
    requires
        field(name, v1) + r1 == field(name, v2) + r2,
    ensures
        v1 + r1 == v2 + r2,
{
    assert(field(name, v1) + r1 =~= text_encoding(name) + (v1 + r1));
    assert(field(name, v2) + r2 =~= text_encoding(name) + (v2 + r2));
    lemma_split(text_encoding(name), v1 + r1, text_encoding(name), v2 + r2);
}

proof fn lemma_transaction_parse(t1: TransactionView, r1: Seq<u8>, t2: TransactionView, r2: Seq<u8>)
    requires
        transaction_fits(t1),
        transaction_fits(t2),
        transaction_encoding(t1) + r1 == transaction_encoding(t2) + r2,
    ensures
        t1 == t2,
        r1 == r2,
{
    let a1 = field("amount"@, integer_encoding(t1.amount as u64)) + r1;
    let a2 = field("amount"@, integer_encoding(t2.amount as u64)) + r2;
    let c1 = field("recipient"@, text_encoding(t1.recipient)) + a1;
    let c2 = field("recipient"@, text_encoding(t2.recipient)) + a2;
    let e1 = field("sender"@, text_encoding(t1.sender)) + c1;
    let e2 = field("sender"@, text_encoding(t2.sender)) + c2;
    assert(transaction_encoding(t1) + r1 =~= seq![TAG_RECORD] + e1);
    assert(transaction_encoding(t2) + r2 =~= seq![TAG_RECORD] + e2);
    lemma_split(seq![TAG_RECORD], e1, seq![TAG_RECORD], e2);
    lemma_field_parse("sender"@, text_encoding(t1.sender), c1, text_encoding(t2.sender), c2);
    lemma_text_parse(t1.sender, c1, t2.sender, c2);
    lemma_field_parse("recipient"@, text_encoding(t1.recipient), a1, text_encoding(t2.recipient), a2);
    lemma_text_parse(t1.recipient, a1, t2.recipient, a2);
    lemma_field_parse("amount"@, integer_encoding(t1.amount as u64), r1, integer_encoding(t2.amount as u64), r2);
    lemma_integer_parse(t1.amount as u64, r1, t2.amount as u64, r2);
}

proof fn lemma_concat_first(ts: Seq<TransactionView>)
    requires
        ts.len() > 0,
    ensures
        transactions_concat(ts) == transaction_encoding(ts[0]) + transactions_concat(ts.drop_first()),
    decreases ts.len(),
{
    if ts.len() == 1 {
        assert(ts.drop_last() =~= Seq::<TransactionView>::empty());
        assert(ts.drop_first() =~= Seq::<TransactionView>::empty());
        assert(transactions_concat(Seq::<TransactionView>::empty()) == Seq::<u8>::empty());
        assert(ts.last() == ts[0]);
        assert(transactions_concat(ts) =~= transaction_encoding(ts[0]));
    } else {
        lemma_concat_first(ts.drop_last());
        assert(ts.drop_last().drop_first() =~= ts.drop_first().drop_last());
        assert(ts.drop_first().last() == ts.last());
        assert(transactions_concat(ts) =~= transaction_encoding(ts[0]) + transactions_concat(ts.drop_first()));
    }
}

#[verifier::rlimit(60)]
proof fn lemma_concat_parse(
    ts1: Seq<TransactionView>,
    r1: Seq<u8>,
    ts2: Seq<TransactionView>,
    r2: Seq<u8>,
)
    requires
        ts1.len() == ts2.len(),
        forall|i: int| 0 <= i < ts1.len() ==> transaction_fits(#[trigger] ts1[i]),
        forall|i: int| 0 <= i < ts2.len() ==> transaction_fits(#[trigger] ts2[i]),
        transactions_concat(ts1) + r1 == transactions_concat(ts2) + r2,
    ensures
        ts1 == ts2,
        r1 == r2,
    decreases ts1.len(),
{
    if ts1.len() == 0 {
        assert(ts1 =~= ts2);
    } else {
        lemma_concat_first(ts1);
        lemma_concat_first(ts2);
        let t1 = transactions_concat(ts1.drop_first()) + r1;
        let t2 = transactions_concat(ts2.drop_first()) + r2;
        assert(transactions_concat(ts1) + r1 =~= transaction_encoding(ts1[0]) + t1);
        assert(transactions_concat(ts2) + r2 =~= transaction_encoding(ts2[0]) + t2);
        lemma_transaction_parse(ts1[0], t1, ts2[0], t2);
        assert forall|i: int| 0 <= i < ts1.drop_first().len() implies transaction_fits(
            #[trigger] ts1.drop_first()[i],
        ) by {
            assert(ts1.drop_first()[i] == ts1[i + 1]);
        }
        assert forall|i: int| 0 <= i < ts2.drop_first().len() implies transaction_fits(
            #[trigger] ts2.drop_first()[i],
        ) by {
            assert(ts2.drop_first()[i] == ts2[i + 1]);
        }
        lemma_concat_parse(ts1.drop_first(), r1, ts2.drop_first(), r2);
        assert(ts1 =~= ts2) by {
            assert forall|i: int| 0 <= i < ts1.len() implies ts1[i] == ts2[i] by {
                if i > 0 {
                    assert(ts1[i] == ts1.drop_first()[i - 1]);
                    assert(ts2[i] == ts2.drop_first()[i - 1]);
                }
            }
        }
    }
}

proof fn lemma_transactions_parse(
    ts1: Seq<TransactionView>,
    r1: Seq<u8>,
    ts2: Seq<TransactionView>,
    r2: Seq<u8>,
)
    requires
        ts1.len() <= u64::MAX,
        ts2.len() <= u64::MAX,
        forall|i: int| 0 <= i < ts1.len() ==> transaction_fits(#[trigger] ts1[i]),
        forall|i: int| 0 <= i < ts2.len() ==> transaction_fits(#[trigger] ts2[i]),
        transactions_encoding(ts1) + r1 == transactions_encoding(ts2) + r2,
    ensures
        ts1 == ts2,
        r1 == r2,
{
    let h1 = seq![TAG_LIST] + u64_bytes(ts1.len() as u64);
    let h2 = seq![TAG_LIST] + u64_bytes(ts2.len() as u64);
    assert(transactions_encoding(ts1) + r1 =~= h1 + (transactions_concat(ts1) + r1));
    assert(transactions_encoding(ts2) + r2 =~= h2 + (transactions_concat(ts2) + r2));
    lemma_split(h1, transactions_concat(ts1) + r1, h2, transactions_concat(ts2) + r2);
    assert(u64_bytes(ts1.len() as u64) =~= h1.subrange(1, 9));
    assert(u64_bytes(ts2.len() as u64) =~= h2.subrange(1, 9));
    lemma_u64_bytes_injective(ts1.len() as u64, ts2.len() as u64);
    lemma_concat_parse(ts1, r1, ts2, r2);
}

/// Two transactions share a canonical encoding exactly when all their fields are
/// equal: equal transactions have equal digests, and transactions that differ in any
/// field hand SHA-256 different input.
pub proof fn lemma_transaction_encoding_injective(a: TransactionView, b: TransactionView)
    requires
        transaction_fits(a),
        transaction_fits(b),
    ensures
        (transaction_encoding(a) == transaction_encoding(b)) == (a == b),
        a == b ==> digest_of(transaction_encoding(a)) == digest_of(transaction_encoding(b)),
{
    if transaction_encoding(a) == transaction_encoding(b) {
        assert(transaction_encoding(a) + Seq::<u8>::empty() =~= transaction_encoding(a));
        assert(transaction_encoding(b) + Seq::<u8>::empty() =~= transaction_encoding(b));
        lemma_transaction_parse(a, Seq::empty(), b, Seq::empty());
    }
}

proof fn lemma_timestamp_parse(n1: u64, r1: Seq<u8>, n2: u64, r2: Seq<u8>)
    requires
        timestamp_encoding(n1) + r1 == timestamp_encoding(n2) + r2,
    ensures
        n1 == n2,
        r1 == r2,
{
    let v1 = field("value"@, integer_encoding(n1)) + r1;
    let v2 = field("value"@, integer_encoding(n2)) + r2;
    assert(timestamp_encoding(n1) + r1 =~= seq![TAG_RECORD] + v1);
    assert(timestamp_encoding(n2) + r2 =~= seq![TAG_RECORD] + v2);
    lemma_split(seq![TAG_RECORD], v1, seq![TAG_RECORD], v2);
    lemma_field_parse("value"@, integer_encoding(n1), r1, integer_encoding(n2), r2);
    lemma_integer_parse(n1, r1, n2, r2);
}

proof fn lemma_octets_field_parse(h1: Seq<u8>, h2: Seq<u8>)
    requires
        h1.len() <= u64::MAX,
        h2.len() <= u64::MAX,
        field("previous_hash"@, octets_encoding(h1)) == field("previous_hash"@, octets_encoding(h2)),
    ensures
        h1 == h2,
{
    let e = Seq::<u8>::empty();
    assert(field("previous_hash"@, octets_encoding(h1)) + e =~= field("previous_hash"@, octets_encoding(h1)));
    assert(field("previous_hash"@, octets_encoding(h2)) + e =~= field("previous_hash"@, octets_encoding(h2)));
    lemma_field_parse("previous_hash"@, octets_encoding(h1), e, octets_encoding(h2), e);
    assert(octets_encoding(h1) + e =~= seq![TAG_OCTETS] + u64_bytes(h1.len() as u64) + h1 + e);
    assert(octets_encoding(h2) + e =~= seq![TAG_OCTETS] + u64_bytes(h2.len() as u64) + h2 + e);
    lemma_prefixed_parse(TAG_OCTETS, h1, e, h2, e);
}

/// The fields after the index, from the timestamp on, parse back uniquely.
proof fn lemma_block_tail_parse(a: BlockView, b: BlockView)
    requires
        block_fits(a),
        block_fits(b),
        block_tail_encoding(a) == block_tail_encoding(b),
    ensures
        a.timestamp == b.timestamp,
        a.transactions == b.transactions,
        a.proof == b.proof,
        a.previous_hash == b.previous_hash,
{
    let hash_a = field("previous_hash"@, octets_encoding(a.previous_hash));
    let hash_b = field("previous_hash"@, octets_encoding(b.previous_hash));
    let proof_a = field("proof"@, integer_encoding(a.proof as u64)) + hash_a;
    let proof_b = field("proof"@, integer_encoding(b.proof as u64)) + hash_b;
    let txs_a = field("transactions"@, transactions_encoding(a.transactions)) + proof_a;
    let txs_b = field("transactions"@, transactions_encoding(b.transactions)) + proof_b;
    lemma_field_parse("timestamp"@, timestamp_encoding(a.timestamp), txs_a, timestamp_encoding(b.timestamp), txs_b);
    lemma_timestamp_parse(a.timestamp, txs_a, b.timestamp, txs_b);
    lemma_field_parse("transactions"@, transactions_encoding(a.transactions), proof_a, transactions_encoding(b.transactions), proof_b);
    lemma_transactions_parse(a.transactions, proof_a, b.transactions, proof_b);
    lemma_field_parse("proof"@, integer_encoding(a.proof as u64), hash_a, integer_encoding(b.proof as u64), hash_b);
    lemma_integer_parse(a.proof as u64, hash_a, b.proof as u64, hash_b);
    lemma_octets_field_parse(a.previous_hash, b.previous_hash);
}

/// Two blocks share a canonical encoding exactly when all their fields, the
/// transactions in order among them, are equal: equal blocks have equal digests, and
/// blocks that differ in any field hand SHA-256 different input.
pub proof fn lemma_block_encoding_injective(a: BlockView, b: BlockView)
    requires
        block_fits(a),
        block_fits(b),
    ensures
        (block_encoding(a) == block_encoding(b)) == (a == b),
        a == b ==> block_digest(a) == block_digest(b),
{
    if block_encoding(a) == block_encoding(b) {
        let index_a = field("index"@, integer_encoding(a.index as u64)) + block_tail_encoding(a);
        let index_b = field("index"@, integer_encoding(b.index as u64)) + block_tail_encoding(b);
        lemma_split(seq![TAG_RECORD], index_a, seq![TAG_RECORD], index_b);
        lemma_field_parse(
            "index"@,
            integer_encoding(a.index as u64),
            block_tail_encoding(a),
            integer_encoding(b.index as u64),
            block_tail_encoding(b),
        );
        lemma_integer_parse(a.index as u64, block_tail_encoding(a), b.index as u64, block_tail_encoding(b));
        lemma_block_tail_parse(a, b);
    }
}

/// The digest of a byte sequence, as `digest_of` states it.
pub fn digest(data: &Vec<u8>) -> (r: Vec<u8>)
    ensures
        r@ == digest_of(data@),
{
    if (data.len() as u64) < DIGEST_INPUT_LIMIT {
        sha256(data.as_slice())
    } else {
        Vec::new()
    }
}

fn push_u64(out: &mut Vec<u8>, x: u64)
    ensures
        final(out)@ == old(out)@ + u64_bytes(x),
{
    out.push((x >> 56u64) as u8);
    out.push((x >> 48u64) as u8);
    out.push((x >> 40u64) as u8);
    out.push((x >> 32u64) as u8);
    out.push((x >> 24u64) as u8);
    out.push((x >> 16u64) as u8);
    out.push((x >> 8u64) as u8);
    out.push(x as u8);
    proof {
        assert(final(out)@ =~= old(out)@ + u64_bytes(x));
    }
}

fn push_bytes(out: &mut Vec<u8>, bytes: &[u8])
    ensures
        final(out)@ == old(out)@ + bytes@,
{
    let ghost start = out@;
    let mut i: usize = 0;
    while i < bytes.len()
        invariant
            i <= bytes@.len(),
            out@ == start + bytes@.subrange(0, i as int),
        decreases bytes@.len() - i,
    {
        out.push(bytes[i]);
        i = i + 1;
        proof {
            assert(out@ =~= start + bytes@.subrange(0, i as int));
        }
    }
    proof {
        assert(bytes@.subrange(0, bytes@.len() as int) =~= bytes@);
    }
}

fn push_integer(out: &mut Vec<u8>, x: u64)
    ensures
        final(out)@ == old(out)@ + integer_encoding(x),
{
    out.push(TAG_INTEGER);
    push_u64(out, x);
    proof {
        assert(final(out)@ =~= old(out)@ + integer_encoding(x));
    }
}

fn push_octets(out: &mut Vec<u8>, b: &[u8])
    ensures
        final(out)@ == old(out)@ + octets_encoding(b@),
{
    out.push(TAG_OCTETS);
    push_u64(out, b.len() as u64);
    push_bytes(out, b);
    proof {
        assert(final(out)@ =~= old(out)@ + octets_encoding(b@));
    }
}

fn push_text(out: &mut Vec<u8>, s: &str)
    ensures
        final(out)@ == old(out)@ + text_encoding(s@),
{
    let bytes = s.as_bytes();
    out.push(TAG_TEXT);
    push_u64(out, bytes.len() as u64);
    push_bytes(out, bytes);
    proof {
        assert(final(out)@ =~= old(out)@ + text_encoding(s@));
    }
}

fn push_field_name(out: &mut Vec<u8>, name: &str)
    ensures
        final(out)@ == old(out)@ + text_encoding(name@),
{
    push_text(out, name);
}

fn push_transaction(out: &mut Vec<u8>, t: &StupidTransaction)
    ensures
        final(out)@ == old(out)@ + transaction_encoding(t@),
{
    let ghost start = out@;
    out.push(TAG_RECORD);
    push_field_name(out, "sender");
    push_text(out, t.sender.as_str());
    push_field_name(out, "recipient");
    push_text(out, t.recipient.as_str());
    push_field_name(out, "amount");
    push_integer(out, t.amount as u64);
    proof {
        assert(out@ =~= start + transaction_encoding(t@));
    }
}

fn push_transactions(out: &mut Vec<u8>, ts: &Vec<StupidTransaction>)
    ensures
        final(out)@ == old(out)@ + transactions_encoding(ts@.map_values(|t: StupidTransaction| t@)),
{
    let ghost start = out@;
    let ghost views = ts@.map_values(|t: StupidTransaction| t@);
    out.push(TAG_LIST);
    push_u64(out, ts.len() as u64);
    let ghost head = out@;
    let mut i: usize = 0;
    while i < ts.len()
        invariant
            i <= ts@.len(),
            views == ts@.map_values(|t: StupidTransaction| t@),
            head == start + seq![TAG_LIST] + u64_bytes(ts@.len() as u64),
            out@ == head + transactions_concat(views.subrange(0, i as int)),
        decreases ts@.len() - i,
    {
        push_transaction(out, &ts[i]);
        proof {
            let next = views.subrange(0, i as int + 1);
            assert(next.drop_last() =~= views.subrange(0, i as int));
            assert(next.last() == ts@[i as int]@);
        }
        i = i + 1;
    }
    proof {
        assert(views.subrange(0, ts@.len() as int) =~= views);
        assert(out@ =~= start + transactions_encoding(views));
    }
}

fn push_block_tail(out: &mut Vec<u8>, b: &StupidBlock)
    ensures
        final(out)@ == old(out)@ + block_tail_encoding(b@),
{
    let ghost s0 = out@;
    push_field_name(out, "timestamp");
    out.push(TAG_RECORD);
    push_field_name(out, "value");
    push_integer(out, b.timestamp.0);
    let ghost ts = field("timestamp"@, timestamp_encoding(b@.timestamp));
    assert(out@ =~= s0 + ts);
    let ghost s1 = out@;
    push_field_name(out, "transactions");
    push_transactions(out, &b.transactions);
    let ghost txs = field("transactions"@, transactions_encoding(b@.transactions));
    assert(out@ =~= s1 + txs);
    let ghost s2 = out@;
    push_field_name(out, "proof");
    push_integer(out, b.proof as u64);
    let ghost pf = field("proof"@, integer_encoding(b@.proof as u64));
    assert(out@ =~= s2 + pf);
    let ghost s3 = out@;
    push_field_name(out, "previous_hash");
    push_octets(out, b.previous_hash.as_slice());
    let ghost ph = field("previous_hash"@, octets_encoding(b@.previous_hash));
    assert(out@ =~= s3 + ph);
    assert(block_tail_encoding(b@) == ts + (txs + (pf + ph)));
    assert(out@ =~= s0 + (ts + (txs + (pf + ph))));
}

/// The canonical encoding of a block.
pub fn encode_block(b: &StupidBlock) -> (r: Vec<u8>)
    ensures
        r@ == block_encoding(b@),
{
    let mut out: Vec<u8> = Vec::new();
    out.push(TAG_RECORD);
    push_field_name(&mut out, "index");
    push_integer(&mut out, b.index as u64);
    push_block_tail(&mut out, b);
    proof {
        assert(out@ =~= block_encoding(b@));
    }
    out
}

/// The canonical encoding of a piece of text.
pub fn encode_text(s: &str) -> (r: Vec<u8>)
    ensures
        r@ == text_encoding(s@),
{
    let mut out: Vec<u8> = Vec::new();
    push_text(&mut out, s);
    proof {
        assert(out@ =~= text_encoding(s@));
    }
    out
}

/// The digest of a block's canonical encoding.
pub fn hash_block(b: &StupidBlock) -> (r: Vec<u8>)
    ensures
        r@ == block_digest(b@),
{
    digest(&encode_block(b))
}

/// The digest of a piece of text's canonical encoding.
pub fn hash_text(s: &str) -> (r: Vec<u8>)
    ensures
        r@ == text_digest(s@),
{
    digest(&encode_text(s))
}

} // verus!

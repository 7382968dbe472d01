//! The key scheme: how a currency pair, and a pair at an instant, is named
//! in the ordered store.

use vstd::prelude::*;
use vstd::string::StringExecFns;
use vstd::utf8::encode_utf8;
use crate::bytes::{
    append_bytes, be_bytes_i64, lemma_be_i64_order, lemma_be_i64_order_across_signs,
    lemma_lex_lt_common_prefix, lex_lt, write_i64_be,
};

verus! {

/// Stands between the namespace byte of a key and the identifier: a colon.
pub const SEP: u8 = 58;

/// The namespace byte that every key of an exchange rate begins with: the
/// letter `e`.
pub const EXCHANGE_RATE_PREFIX: u8 = 101;

/// The key of the identifier `id` in the namespace `prefix`.
pub open spec fn key_bytes(prefix: u8, id: Seq<u8>) -> Seq<u8> {
    seq![prefix, SEP] + id
}

/// The key of the identifier `id` at the number `val` in the namespace
/// `prefix`: the key of `id`, then the eight bytes of `val`, most significant
/// first.
pub open spec fn key_bytes_i64(prefix: u8, id: Seq<u8>, val: i64) -> Seq<u8> {
    key_bytes(prefix, id) + be_bytes_i64(val)
}

/// Build a db key from a prefix and a byte vector identifier. The identifier
/// is moved into the key, which leaves `k` empty.
pub fn to_key(prefix: u8, k: &mut Vec<u8>) -> (res: Vec<u8>)
    ensures
        res@ == key_bytes(prefix, old(k)@),
        final(k)@ == Seq::<u8>::empty(),
{
    let mut res: Vec<u8> = Vec::new();
    res.push(prefix);
    res.push(SEP);
    res.append(k);
    assert(res@ =~= key_bytes(prefix, old(k)@));
    res
}

/// Build a db key from a prefix and a byte vector identifier and numeric
/// identifier. The identifier is moved into the key, which leaves `k` empty.
pub fn to_key_i64(prefix: u8, k: &mut Vec<u8>, val: i64) -> (res: Vec<u8>)
    ensures
        res@ == key_bytes_i64(prefix, old(k)@, val),
        final(k)@ == Seq::<u8>::empty(),
{
    let mut res: Vec<u8> = Vec::new();
    res.push(prefix);
    res.push(SEP);
    res.append(k);
    let number = write_i64_be(val);
    append_bytes(&mut res, number.as_slice());
    assert(res@ =~= key_bytes_i64(prefix, old(k)@, val));
    res
}

/// The identifier of a currency pair: the source code, the digit two, the
/// destination code.
pub open spec fn spec_pair_id(from: Seq<char>, to: Seq<char>) -> Seq<char> {
    from + seq!['2'] + to
}

/// The identifier of the pair from `from` to `to`, as in `EUR2USD`.
pub fn pair_id(from: &str, to: &str) -> (id: String)
    ensures
        id@ == spec_pair_id(from@, to@),
{
    let mut id = from.to_owned();
    proof {
        reveal_strlit("2");
    }
    id.append("2");
    id.append(to);
    assert("2"@ =~= seq!['2']);
    id
}

/// The key under which the latest observation of the pair `id` is found.
pub open spec fn spec_pair_key(id: Seq<char>) -> Seq<u8> {
    key_bytes(EXCHANGE_RATE_PREFIX, encode_utf8(id))
}

/// The key of the observation of the pair `id` at the instant `timestamp`.
pub open spec fn spec_pair_key_at(id: Seq<char>, timestamp: i64) -> Seq<u8> {
    key_bytes_i64(EXCHANGE_RATE_PREFIX, encode_utf8(id), timestamp)
}

/// The front part that the key of every observation has.
pub open spec fn spec_all_pairs_prefix() -> Seq<u8> {
    seq![EXCHANGE_RATE_PREFIX]
}

/// The key under which the latest observation of the pair `id` is found. It
/// is also the front part of the key of every observation of a pair whose
/// identifier begins with `id`.
pub fn pair_key(id: &str) -> (key: Vec<u8>)
    ensures
        key@ == spec_pair_key(id@),
{
    let mut k = id.as_bytes_vec();
    to_key(EXCHANGE_RATE_PREFIX, &mut k)
}

/// The key of the observation of the pair `id` at the instant `timestamp`.
pub fn pair_key_at(id: &str, timestamp: i64) -> (key: Vec<u8>)
    ensures
        key@ == spec_pair_key_at(id@, timestamp),
{
    let mut k = id.as_bytes_vec();
    to_key_i64(EXCHANGE_RATE_PREFIX, &mut k, timestamp)
}

/// The front part that the key of every observation has.
pub fn all_pairs_prefix() -> (key: Vec<u8>)
    ensures
        key@ == spec_all_pairs_prefix(),
{
    let mut key: Vec<u8> = Vec::new();
    key.push(EXCHANGE_RATE_PREFIX);
    assert(key@ =~= spec_all_pairs_prefix());
    key
}

/// For one identifier and two numbers of one sign, the keys
/// compare byte by byte as the numbers do.
pub proof fn lemma_key_order(prefix: u8, id: Seq<u8>, t1: i64, t2: i64)
    requires
        (t1 < 0) == (t2 < 0),
    ensures
        lex_lt(key_bytes_i64(prefix, id, t1), key_bytes_i64(prefix, id, t2)) <==> t1 < t2,
{
    lemma_lex_lt_common_prefix(key_bytes(prefix, id), be_bytes_i64(t1), be_bytes_i64(t2));
    lemma_be_i64_order(t1, t2);
}

/// For one pair and two instants on the same side of the Unix
/// epoch, the keys compare byte by byte as the instants do.
pub proof fn lemma_pair_key_order(id: Seq<char>, t1: i64, t2: i64)
    requires
        (t1 < 0) == (t2 < 0),
    ensures
        lex_lt(spec_pair_key_at(id, t1), spec_pair_key_at(id, t2)) <==> t1 < t2,
{
    lemma_key_order(EXCHANGE_RATE_PREFIX, encode_utf8(id), t1, t2);
}

/// Across the Unix epoch the order turns: the key of an instant before it
/// comes after the key of every instant from it on.
pub proof fn lemma_pair_key_order_across_epoch(id: Seq<char>, t1: i64, t2: i64)
    requires
        t1 < 0 <= t2,
    ensures
        lex_lt(spec_pair_key_at(id, t2), spec_pair_key_at(id, t1)),
{
    lemma_lex_lt_common_prefix(spec_pair_key(id), be_bytes_i64(t2), be_bytes_i64(t1));
    lemma_be_i64_order_across_signs(t1, t2);
}

/// The key of a pair is the front part of each of its keys at an instant.
pub proof fn lemma_pair_key_is_prefix(id: Seq<char>, timestamp: i64)
    ensures
        spec_pair_key(id).is_prefix_of(spec_pair_key_at(id, timestamp)),
        spec_all_pairs_prefix().is_prefix_of(spec_pair_key(id)),
        spec_all_pairs_prefix().is_prefix_of(spec_pair_key_at(id, timestamp)),
        spec_pair_key_at(id, timestamp).len() == spec_pair_key(id).len() + 8,
        spec_pair_key(id) != spec_pair_key_at(id, timestamp),
{
    let k = spec_pair_key(id);
    let kt = spec_pair_key_at(id, timestamp);
    assert(kt.subrange(0, k.len() as int) =~= k);
    assert(k.subrange(0, 1) =~= spec_all_pairs_prefix());
    assert(kt.subrange(0, 1) =~= spec_all_pairs_prefix());
}

} // verus!

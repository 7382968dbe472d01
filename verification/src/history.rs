//! Facts about the history: what a scan of a store finds after a save and
//! after a compaction. They hold of stores in which every entry decodes
//! and stands under a key that goes with what it holds, as every store
//! does that was filled by saving each observation for its own instant.

use vstd::prelude::*;
use vstd::utf8::encode_utf8;
use crate::backend::{applied, lemma_staged_changes_are_visible, lookup_after, staged, BatchOp};
use crate::bytes::{be_bytes_i64, lemma_lex_lt_asymmetric, lex_lt};
use crate::compaction::{
    expired, history_key, is_key_of_one, lemma_expired_are_the_old, lemma_purged_keys, purged,
};
use crate::exchange_rate::Observation;
use crate::keys::{
    lemma_pair_key_is_prefix, lemma_pair_key_order, spec_all_pairs_prefix, spec_pair_id,
    spec_pair_key, spec_pair_key_at, EXCHANGE_RATE_PREFIX, SEP,
};
use crate::oracle_ser::{ErrorView, MAX_READ_LEN};
use crate::oracle_store::{
    above, below, lemma_below_above_members, lemma_lookup_found, lemma_lookup_member,
    lemma_lookup_none, lemma_lookup_with, lemma_with_sorted, lemma_with_without_members,
    lemma_without_sorted, lookup, sorted, with, with_prefix, without, Entries,
};
use crate::record_codec::{encode_observation, fits, lemma_round_trip, parse_observation};
use crate::types::{decoded, saved};

verus! {

/// The key under which the latest save of the pair of `o` stands.
pub open spec fn latest_key(o: Observation) -> Seq<u8> {
    spec_pair_key(spec_pair_id(o.from, o.to))
}

/// The entry decodes, and its key is the one under which the latest save of
/// its pair stands, or the one under which the history holds it.
#[verifier::opaque]
pub open spec fn entry_aligned(e: (Seq<u8>, Seq<u8>)) -> bool {
    let parsed = parse_observation(e.1, MAX_READ_LEN as nat);
    parsed is Done && (e.0 == latest_key(parsed->value) || e.0 == history_key(parsed->value))
}

/// Every entry is aligned.
pub open spec fn aligned(s: Entries) -> bool {
    forall|i: int| 0 <= i < s.len() ==> entry_aligned(#[trigger] s[i])
}

/// A store that holds nothing is sorted and aligned; saving an observation
/// that can be read back for its own instant, and compacting, keep a store
/// so (see below).
pub proof fn lemma_empty_is_aligned()
    ensures
        sorted(Seq::<(Seq<u8>, Seq<u8>)>::empty()),
        aligned(Seq::<(Seq<u8>, Seq<u8>)>::empty()),
{
}

/// The history key of `x` holds `x`.
pub open spec fn in_history(s: Entries, x: Observation) -> bool {
    let found = lookup(s, history_key(x));
    found is Some && parse_observation(found->0, MAX_READ_LEN as nat) is Done && parse_observation(
        found->0,
        MAX_READ_LEN as nat,
    )->value == x
}

/// The key of the last entry of sorted contents is the key of none before it.
proof fn lemma_last_key_is_new(s: Entries)
    requires
        sorted(s),
        s.len() > 0,
    ensures
        sorted(s.drop_last()),
        lookup(s.drop_last(), s.last().0) is None,
    decreases s.len(),
{
    let t = s.drop_last();
    let n = s.len() - 1;
    assert forall|i: int, j: int| 0 <= i < j < t.len() implies lex_lt(
        #[trigger] t[i].0,
        #[trigger] t[j].0,
    ) by {
        assert(t[i] == s[i] && t[j] == s[j]);
    }
    lemma_lookup_none(t, s.last().0);
    assert forall|j: int| 0 <= j < t.len() implies (#[trigger] t[j]).0 != s.last().0 by {
        assert(t[j] == s[j]);
        assert(lex_lt(s[j].0, s[n].0));
        lemma_lex_lt_asymmetric(s[j].0, s[n].0);
    }
}

/// What a scan finds is what stands under the history keys: in a sorted,
/// aligned store the scan succeeds, and it finds an observation where the
/// history key of the observation holds it, and only there.
pub proof fn lemma_history_is_what_the_keys_hold(s: Entries, x: Observation)
    requires
        sorted(s),
        aligned(s),
    ensures
        decoded(s) is Ok,
        decoded(s)->Ok_0.contains(x) <==> in_history(s, x),
    decreases s.len(),
{
    reveal(entry_aligned);
    if s.len() > 0 {
        let t = s.drop_last();
        let n = s.len() - 1;
        let k = s.last().0;
        let o = parse_observation(s.last().1, MAX_READ_LEN as nat)->value;
        lemma_last_key_is_new(s);
        assert(aligned(t)) by {
            assert forall|i: int| 0 <= i < t.len() implies entry_aligned(#[trigger] t[i]) by {
                assert(t[i] == s[i]);
            }
        }
        assert(entry_aligned(s[n]));
        lemma_history_is_what_the_keys_hold(t, x);
        lemma_pair_key_is_prefix(spec_pair_id(o.from, o.to), o.date);
        let before = decoded(t)->Ok_0;
        if k == latest_key(o) {
            assert(decoded(s) == decoded(t));
        } else {
            assert(decoded(s)->Ok_0 == before.push(o));
            assert(before.push(o)[before.len() as int] == o);
            if before.contains(x) {
                let i = choose|i: int| 0 <= i < before.len() && before[i] == x;
                assert(before.push(o)[i] == x);
            }
            if before.push(o).contains(x) && x != o {
                let i = choose|i: int| 0 <= i < before.push(o).len() && before.push(o)[i] == x;
                assert(before[i] == x);
            }
        }
    } else {
        assert(!decoded(s)->Ok_0.contains(x));
    }
}

/// Every key of an aligned store begins as the key of every observation
/// does, so that a scan of all observations leaves no entry out.
pub proof fn lemma_aligned_is_scanned_whole(s: Entries)
    requires
        aligned(s),
    ensures
        with_prefix(s, spec_all_pairs_prefix()) == s,
    decreases s.len(),
{
    reveal(entry_aligned);
    if s.len() > 0 {
        let t = s.drop_last();
        let n = s.len() - 1;
        assert(aligned(t)) by {
            assert forall|i: int| 0 <= i < t.len() implies entry_aligned(#[trigger] t[i]) by {
                assert(t[i] == s[i]);
            }
        }
        lemma_aligned_is_scanned_whole(t);
        assert(entry_aligned(s[n]));
        let o = parse_observation(s.last().1, MAX_READ_LEN as nat)->value;
        lemma_pair_key_is_prefix(spec_pair_id(o.from, o.to), o.date);
        assert(t.push(s.last()) =~= s);
    }
}

/// Storing an aligned entry keeps a store aligned.
pub proof fn lemma_with_aligned(s: Entries, key: Seq<u8>, value: Seq<u8>)
    requires
        aligned(s),
        entry_aligned((key, value)),
    ensures
        aligned(with(s, key, value)),
{
    let r = with(s, key, value);
    let lo = below(s, key);
    let hi = above(s, key);
    lemma_below_above_members(s, key);
    assert forall|i: int| 0 <= i < r.len() implies entry_aligned(#[trigger] r[i]) by {
        let n = lo.len() as int;
        if i < n {
            assert(r[i] == lo[i]);
            let j = choose|j: int| 0 <= j < s.len() && s[j] == lo[i];
            assert(entry_aligned(s[j]));
        } else if i > n {
            assert(r[i] == hi[i - n - 1]);
            let j = choose|j: int| 0 <= j < s.len() && s[j] == hi[i - n - 1];
            assert(entry_aligned(s[j]));
        }
    }
}

/// Removing a key keeps a store aligned.
pub proof fn lemma_without_aligned(s: Entries, key: Seq<u8>)
    requires
        aligned(s),
    ensures
        aligned(without(s, key)),
{
    let r = without(s, key);
    let lo = below(s, key);
    let hi = above(s, key);
    lemma_below_above_members(s, key);
    assert forall|i: int| 0 <= i < r.len() implies entry_aligned(#[trigger] r[i]) by {
        let n = lo.len() as int;
        if i < n {
            assert(r[i] == lo[i]);
            let j = choose|j: int| 0 <= j < s.len() && s[j] == lo[i];
            assert(entry_aligned(s[j]));
        } else {
            assert(r[i] == hi[i - n]);
            let j = choose|j: int| 0 <= j < s.len() && s[j] == hi[i - n];
            assert(entry_aligned(s[j]));
        }
    }
}

/// A save shows in the history. After an observation that can be read back
/// was saved for its own instant, a scan succeeds and finds the
/// observation, and besides it what it found before, but for what stood
/// under one of the two keys that the save wrote.
pub proof fn lemma_save_shows_in_history(s: Entries, o: Observation, x: Observation)
    requires
        sorted(s),
        aligned(s),
        fits(o, MAX_READ_LEN as nat),
    ensures
        sorted(saved(s, o.date, o)),
        aligned(saved(s, o.date, o)),
        decoded(saved(s, o.date, o)) is Ok,
        decoded(saved(s, o.date, o))->Ok_0.contains(x) <==> x == o || (decoded(s)->Ok_0.contains(x)
            && history_key(x) != history_key(o) && history_key(x) != latest_key(o)),
{
    reveal(entry_aligned);
    let bytes = encode_observation(o);
    let first = with(s, latest_key(o), bytes);
    let second = saved(s, o.date, o);
    assert(parse_observation(bytes, MAX_READ_LEN as nat) is Done && parse_observation(
        bytes,
        MAX_READ_LEN as nat,
    )->value == o) by {
        lemma_round_trip(o, Seq::empty(), MAX_READ_LEN as nat);
        assert(bytes + Seq::<u8>::empty() =~= bytes);
    }
    lemma_with_sorted(s, latest_key(o), bytes);
    lemma_with_sorted(first, history_key(o), bytes);
    lemma_with_aligned(s, latest_key(o), bytes);
    lemma_with_aligned(first, history_key(o), bytes);
    lemma_lookup_with(s, latest_key(o), bytes, history_key(x));
    lemma_lookup_with(first, history_key(o), bytes, history_key(x));
    lemma_history_is_what_the_keys_hold(s, x);
    lemma_history_is_what_the_keys_hold(second, x);
    lemma_pair_key_is_prefix(spec_pair_id(o.from, o.to), o.date);
}

/// Compaction deletes exactly what is older than the cutoff. After the
/// expired observations of a scan were deleted, a scan succeeds and finds
/// what it found before and is not older than the cutoff, and nothing else.
pub proof fn lemma_compaction_keeps_the_young(s: Entries, cutoff: int, x: Observation)
    requires
        sorted(s),
        aligned(s),
    ensures
        decoded(s) is Ok,
        sorted(purged(s, expired(decoded(s)->Ok_0, cutoff))),
        aligned(purged(s, expired(decoded(s)->Ok_0, cutoff))),
        decoded(purged(s, expired(decoded(s)->Ok_0, cutoff))) is Ok,
        decoded(purged(s, expired(decoded(s)->Ok_0, cutoff)))->Ok_0.contains(x) <==> decoded(
            s,
        )->Ok_0.contains(x) && x.date >= cutoff,
{
    lemma_history_is_what_the_keys_hold(s, x);
    let found = decoded(s)->Ok_0;
    let victims = expired(found, cutoff);
    let after = purged(s, victims);
    lemma_purged_aligned(s, victims);
    lemma_purged_keys(s, victims, history_key(x));
    lemma_history_is_what_the_keys_hold(after, x);
    lemma_expired_are_the_old(found, cutoff, x);
    if is_key_of_one(victims, history_key(x)) {
        let i = choose|i: int|
            0 <= i < victims.len() && history_key(#[trigger] victims[i]) == history_key(x);
        let v = victims[i];
        assert(victims.contains(v));
        lemma_expired_are_the_old(found, cutoff, v);
        lemma_history_is_what_the_keys_hold(s, v);
    }
    if found.contains(x) && x.date < cutoff {
        let i = choose|i: int| 0 <= i < victims.len() && victims[i] == x;
        assert(history_key(victims[i]) == history_key(x));
    }
}

/// Deleting observations keeps a store sorted and aligned.
pub proof fn lemma_purged_aligned(s: Entries, victims: Seq<Observation>)
    requires
        sorted(s),
        aligned(s),
    ensures
        sorted(purged(s, victims)),
        aligned(purged(s, victims)),
    decreases victims.len(),
{
    if victims.len() > 0 {
        lemma_purged_aligned(s, victims.drop_last());
        lemma_without_sorted(purged(s, victims.drop_last()), history_key(victims.last()));
        lemma_without_aligned(purged(s, victims.drop_last()), history_key(victims.last()));
    }
}

/// What a scan under a front part of keys picks is entries of the store
/// whose key begins with that front part.
proof fn lemma_with_prefix_members(s: Entries, prefix: Seq<u8>)
    ensures
        forall|i: int|
            0 <= i < with_prefix(s, prefix).len() ==> prefix.is_prefix_of(
                (#[trigger] with_prefix(s, prefix)[i]).0,
            ) && s.contains(with_prefix(s, prefix)[i]),
    decreases s.len(),
{
    if s.len() > 0 {
        let t = s.drop_last();
        let r = with_prefix(s, prefix);
        lemma_with_prefix_members(t, prefix);
        assert forall|i: int| 0 <= i < r.len() implies prefix.is_prefix_of((#[trigger] r[i]).0)
            && s.contains(r[i]) by {
            if i < with_prefix(t, prefix).len() {
                let e = with_prefix(t, prefix)[i];
                let j = choose|j: int| 0 <= j < t.len() && t[j] == e;
                assert(s[j] == e);
            } else {
                assert(s[s.len() - 1] == r[i]);
            }
        }
    }
}

/// What a scan of an aligned store finds stands in it under its history key.
proof fn lemma_found_has_its_key(s: Entries, x: Observation)
    requires
        aligned(s),
    ensures
        decoded(s) is Ok,
        decoded(s)->Ok_0.contains(x) ==> exists|i: int|
            0 <= i < s.len() && (#[trigger] s[i]).0 == history_key(x),
    decreases s.len(),
{
    reveal(entry_aligned);
    if s.len() > 0 {
        let t = s.drop_last();
        let n = s.len() - 1;
        assert(aligned(t)) by {
            assert forall|i: int| 0 <= i < t.len() implies entry_aligned(#[trigger] t[i]) by {
                assert(t[i] == s[i]);
            }
        }
        assert(entry_aligned(s[n]));
        lemma_found_has_its_key(t, x);
        if decoded(s)->Ok_0.contains(x) {
            let before = decoded(t)->Ok_0;
            if before.contains(x) {
                let i = choose|i: int| 0 <= i < t.len() && (#[trigger] t[i]).0 == history_key(x);
                assert(s[i].0 == history_key(x));
            } else {
                let o = parse_observation(s.last().1, MAX_READ_LEN as nat)->value;
                let j = choose|j: int| 0 <= j < decoded(s)->Ok_0.len() && decoded(s)->Ok_0[j] == x;
                if j < before.len() {
                    assert(before[j] == x);
                }
                assert(x == o);
                assert(s[n].0 == history_key(x));
            }
        }
    } else {
        assert(!decoded(s)->Ok_0.contains(x));
    }
}

/// What a scan for a front part of an identifier finds is of that front
/// part: the bytes of the front part are the first of the bytes of the
/// identifier of the pair, followed by those of the instant. They are the
/// first bytes of the identifier itself unless the front part is the
/// longer of the two.
pub proof fn lemma_scan_finds_the_prefix(
    s: Entries,
    prefix: Seq<char>,
    found: Seq<Observation>,
    x: Observation,
)
    requires
        aligned(s),
        decoded(with_prefix(s, spec_pair_key(prefix))) == Ok::<Seq<Observation>, ErrorView>(found),
        found.contains(x),
    ensures
        encode_utf8(prefix).is_prefix_of(
            encode_utf8(spec_pair_id(x.from, x.to)) + be_bytes_i64(x.date),
        ),
        encode_utf8(prefix).len() <= encode_utf8(spec_pair_id(x.from, x.to)).len() ==> encode_utf8(
            prefix,
        ).is_prefix_of(encode_utf8(spec_pair_id(x.from, x.to))),
{
    let front = spec_pair_key(prefix);
    let picked = with_prefix(s, front);
    lemma_with_prefix_members(s, front);
    assert(aligned(picked)) by {
        assert forall|i: int| 0 <= i < picked.len() implies entry_aligned(#[trigger] picked[i]) by {
            let j = choose|j: int| 0 <= j < s.len() && s[j] == picked[i];
            assert(entry_aligned(s[j]));
        }
    }
    lemma_found_has_its_key(picked, x);
    let i = choose|i: int| 0 <= i < picked.len() && (#[trigger] picked[i]).0 == history_key(x);
    assert(front.is_prefix_of(history_key(x)));
    let head = seq![EXCHANGE_RATE_PREFIX, SEP];
    let wanted = encode_utf8(prefix);
    let id = encode_utf8(spec_pair_id(x.from, x.to));
    assert(history_key(x) == head + (id + be_bytes_i64(x.date))) by {
        assert(history_key(x) =~= head + (id + be_bytes_i64(x.date)));
    }
    lemma_prefix_behind_head(head, wanted, id + be_bytes_i64(x.date));
    if wanted.len() <= id.len() {
        lemma_prefix_of_front(wanted, id, be_bytes_i64(x.date));
    }
}

/// Two byte strings with one head: where the first is the front part of
/// the second, so it is without the head.
proof fn lemma_prefix_behind_head(head: Seq<u8>, a: Seq<u8>, b: Seq<u8>)
    requires
        (head + a).is_prefix_of(head + b),
    ensures
        a.is_prefix_of(b),
{
    let n = head.len() as int;
    assert(a =~= b.subrange(0, a.len() as int)) by {
        assert forall|j: int| 0 <= j < a.len() implies a[j] == b[j] by {
            assert((head + a)[j + n] == (head + b).subrange(0, (head + a).len() as int)[j + n]);
        }
    }
}

/// The front part of two joined byte strings that is no longer than the
/// first of them is a front part of the first.
proof fn lemma_prefix_of_front(a: Seq<u8>, first: Seq<u8>, second: Seq<u8>)
    requires
        a.is_prefix_of(first + second),
        a.len() <= first.len(),
    ensures
        a.is_prefix_of(first),
{
    assert(a =~= first.subrange(0, a.len() as int)) by {
        assert forall|j: int| 0 <= j < a.len() implies a[j] == first[j] by {
            assert(a[j] == (first + second).subrange(0, a.len() as int)[j]);
        }
    }
}

/// What a scan picks from sorted contents is sorted.
pub proof fn lemma_with_prefix_sorted(s: Entries, prefix: Seq<u8>)
    requires
        sorted(s),
    ensures
        sorted(with_prefix(s, prefix)),
    decreases s.len(),
{
    if s.len() > 0 {
        let t = s.drop_last();
        let n = s.len() - 1;
        let r = with_prefix(s, prefix);
        lemma_last_key_is_new(s);
        lemma_with_prefix_sorted(t, prefix);
        lemma_with_prefix_members(t, prefix);
        assert forall|i: int, j: int| 0 <= i < j < r.len() implies lex_lt(
            #[trigger] r[i].0,
            #[trigger] r[j].0,
        ) by {
            if j == with_prefix(t, prefix).len() {
                let e = with_prefix(t, prefix)[i];
                let k = choose|k: int| 0 <= k < t.len() && t[k] == e;
                assert(s[k] == e);
                assert(lex_lt(s[k].0, s[n].0));
            }
        }
    }
}

/// What a scan of a sorted, aligned store finds comes in the order of its
/// history keys.
pub proof fn lemma_history_is_in_key_order(s: Entries, found: Seq<Observation>, i: int, j: int)
    requires
        sorted(s),
        aligned(s),
        decoded(s) == Ok::<Seq<Observation>, ErrorView>(found),
        0 <= i < j < found.len(),
    ensures
        lex_lt(history_key(found[i]), history_key(found[j])),
    decreases s.len(),
{
    reveal(entry_aligned);
    let x = found[i];
    let t = s.drop_last();
    let n = s.len() - 1;
    lemma_last_key_is_new(s);
    assert(aligned(t)) by {
        assert forall|k: int| 0 <= k < t.len() implies entry_aligned(#[trigger] t[k]) by {
            assert(t[k] == s[k]);
        }
    }
    assert(entry_aligned(s[n]));
    lemma_found_has_its_key(t, x);
    let before = decoded(t)->Ok_0;
    if j < before.len() {
        lemma_history_is_in_key_order(t, before, i, j);
    } else {
        assert(before.contains(x)) by {
            assert(before[i] == x);
        }
        let k = choose|k: int| 0 <= k < t.len() && (#[trigger] t[k]).0 == history_key(x);
        assert(s[k] == t[k]);
        assert(lex_lt(s[k].0, s[n].0));
    }
}

/// The history of one pair comes in the order of its instants: of two
/// observations of one pair that a scan of a sorted, aligned store finds,
/// with instants on the same side of the Unix epoch, the earlier found is
/// the older.
pub proof fn lemma_history_of_a_pair_is_in_time_order(
    s: Entries,
    found: Seq<Observation>,
    i: int,
    j: int,
)
    requires
        sorted(s),
        aligned(s),
        decoded(s) == Ok::<Seq<Observation>, ErrorView>(found),
        0 <= i < j < found.len(),
        found[i].from == found[j].from,
        found[i].to == found[j].to,
        (found[i].date < 0) == (found[j].date < 0),
    ensures
        found[i].date < found[j].date,
{
    lemma_history_is_in_key_order(s, found, i, j);
    lemma_pair_key_order(spec_pair_id(found[i].from, found[i].to), found[i].date, found[j].date);
}

// ---------------------------------------------------------------------------
// What a scan yields after a commit
// ---------------------------------------------------------------------------

/// Every entry decodes.
pub open spec fn decodable(s: Entries) -> bool {
    forall|i: int|
        0 <= i < s.len() ==> parse_observation((#[trigger] s[i]).1, MAX_READ_LEN as nat) is Done
}

/// The entry holds `x`, and not under the key of the pair of `x` alone: a
/// scan that comes by the entry yields `x`.
pub open spec fn entry_yields(e: (Seq<u8>, Seq<u8>), x: Observation) -> bool {
    let parsed = parse_observation(e.1, MAX_READ_LEN as nat);
    parsed is Done && parsed->value == x && e.0 != latest_key(x)
}

/// One of the entries yields `x`.
pub open spec fn yields(s: Entries, x: Observation) -> bool {
    exists|i: int| 0 <= i < s.len() && entry_yields(#[trigger] s[i], x)
}

/// One of the entries whose key begins with `prefix` yields `x`.
pub open spec fn yields_under(s: Entries, prefix: Seq<u8>, x: Observation) -> bool {
    exists|i: int|
        0 <= i < s.len() && entry_yields(#[trigger] s[i], x) && prefix.is_prefix_of(s[i].0)
}

/// Every save among `ops` is of an observation that can be read back.
pub open spec fn saves_fit(ops: Seq<BatchOp>) -> bool {
    forall|i: int|
        0 <= i < ops.len() && (#[trigger] ops[i]) is Save ==> fits(
            ops[i]->observation,
            MAX_READ_LEN as nat,
        )
}

/// After `ops`, `key` is one that a scan of all observations comes by, and
/// what stands under it yields `x`.
pub open spec fn held_after(base: Entries, ops: Seq<BatchOp>, key: Seq<u8>, x: Observation) -> bool {
    let found = lookup_after(base, ops, key);
    found is Some && spec_all_pairs_prefix().is_prefix_of(key) && entry_yields((key, found->0), x)
}

/// A scan succeeds where every entry decodes, and only there; and what it
/// finds is what the entries yield.
pub proof fn lemma_scan_finds_what_entries_yield(s: Entries, x: Observation)
    ensures
        decoded(s) is Ok <==> decodable(s),
        decoded(s) is Ok ==> (decoded(s)->Ok_0.contains(x) <==> yields(s, x)),
    decreases s.len(),
{
    if s.len() > 0 {
        let t = s.drop_last();
        let n = s.len() - 1;
        lemma_scan_finds_what_entries_yield(t, x);
        assert forall|i: int| 0 <= i < t.len() implies t[i] == s[i] by {}
        if decodable(s) {
            assert(parse_observation(s[n].1, MAX_READ_LEN as nat) is Done);
            assert(decodable(t)) by {
                assert forall|i: int| 0 <= i < t.len() implies parse_observation(
                    (#[trigger] t[i]).1,
                    MAX_READ_LEN as nat,
                ) is Done by {
                    assert(t[i] == s[i]);
                }
            }
        }
        if decoded(s) is Ok {
            assert(decodable(s)) by {
                assert forall|i: int| 0 <= i < s.len() implies parse_observation(
                    (#[trigger] s[i]).1,
                    MAX_READ_LEN as nat,
                ) is Done by {
                    if i < n {
                        assert(t[i] == s[i]);
                    }
                }
            }
            let before = decoded(t)->Ok_0;
            let found = decoded(s)->Ok_0;
            let o = parse_observation(s.last().1, MAX_READ_LEN as nat)->value;
            if yields(t, x) {
                let i = choose|i: int| 0 <= i < t.len() && entry_yields(#[trigger] t[i], x);
                assert(entry_yields(s[i], x));
            }
            if yields(s, x) && !yields(t, x) {
                let i = choose|i: int| 0 <= i < s.len() && entry_yields(#[trigger] s[i], x);
                if i < n {
                    assert(entry_yields(t[i], x));
                }
            }
            if s.last().0 == latest_key(o) {
                assert(found == before);
            } else {
                assert(found == before.push(o));
                assert(found[before.len() as int] == o);
                assert(entry_yields(s[n], o));
                if before.contains(x) {
                    let i = choose|i: int| 0 <= i < before.len() && before[i] == x;
                    assert(found[i] == x);
                }
                if found.contains(x) && x != o {
                    let i = choose|i: int| 0 <= i < found.len() && found[i] == x;
                    assert(before[i] == x);
                }
            }
        }
    } else {
        assert(!decoded(s)->Ok_0.contains(x));
    }
}

/// What a scan picks under a front part of keys is every entry whose key
/// begins with it.
proof fn lemma_with_prefix_complete(s: Entries, prefix: Seq<u8>, e: (Seq<u8>, Seq<u8>))
    requires
        s.contains(e),
        prefix.is_prefix_of(e.0),
    ensures
        with_prefix(s, prefix).contains(e),
    decreases s.len(),
{
    let t = s.drop_last();
    let j = choose|j: int| 0 <= j < s.len() && s[j] == e;
    if j < s.len() - 1 {
        assert(t[j] == e);
        lemma_with_prefix_complete(t, prefix, e);
        let i = choose|i: int| 0 <= i < with_prefix(t, prefix).len() && with_prefix(t, prefix)[i]
            == e;
        assert(with_prefix(s, prefix)[i] == e);
    } else {
        assert(with_prefix(s, prefix)[with_prefix(t, prefix).len() as int] == e);
    }
}

/// A scan under a front part of keys succeeds where every entry decodes,
/// and what it finds is what the entries under that front part yield.
pub proof fn lemma_scan_under_prefix(s: Entries, prefix: Seq<u8>, x: Observation)
    requires
        decodable(s),
    ensures
        decoded(with_prefix(s, prefix)) is Ok,
        decoded(with_prefix(s, prefix))->Ok_0.contains(x) <==> yields_under(s, prefix, x),
{
    let picked = with_prefix(s, prefix);
    lemma_with_prefix_members(s, prefix);
    assert(decodable(picked)) by {
        assert forall|i: int| 0 <= i < picked.len() implies parse_observation(
            (#[trigger] picked[i]).1,
            MAX_READ_LEN as nat,
        ) is Done by {
            let j = choose|j: int| 0 <= j < s.len() && s[j] == picked[i];
        }
    }
    lemma_scan_finds_what_entries_yield(picked, x);
    if yields(picked, x) {
        let i = choose|i: int| 0 <= i < picked.len() && entry_yields(#[trigger] picked[i], x);
        let j = choose|j: int| 0 <= j < s.len() && s[j] == picked[i];
        assert(entry_yields(s[j], x) && prefix.is_prefix_of(s[j].0));
    }
    if yields_under(s, prefix, x) {
        let j = choose|j: int|
            0 <= j < s.len() && entry_yields(#[trigger] s[j], x) && prefix.is_prefix_of(s[j].0);
        lemma_with_prefix_complete(s, prefix, s[j]);
        let i = choose|i: int| 0 <= i < picked.len() && picked[i] == s[j];
        assert(entry_yields(picked[i], x));
    }
}

/// What was written for an observation that can be read back decodes to it.
proof fn lemma_encoded_decodes(o: Observation)
    requires
        fits(o, MAX_READ_LEN as nat),
    ensures
        parse_observation(encode_observation(o), MAX_READ_LEN as nat) is Done,
        parse_observation(encode_observation(o), MAX_READ_LEN as nat)->value == o,
{
    lemma_round_trip(o, Seq::empty(), MAX_READ_LEN as nat);
    assert(encode_observation(o) + Seq::<u8>::empty() =~= encode_observation(o));
}

/// Changes of which every save is of an observation that can be read back
/// keep a store sorted and one in which every entry decodes.
pub proof fn lemma_staged_stays_decodable(base: Entries, ops: Seq<BatchOp>)
    requires
        sorted(base),
        decodable(base),
        saves_fit(ops),
    ensures
        sorted(staged(base, ops)),
        decodable(staged(base, ops)),
    decreases ops.len(),
{
    lemma_staged_changes_are_visible(base, ops, Seq::empty());
    if ops.len() > 0 {
        let rest = ops.drop_last();
        let before = staged(base, rest);
        assert(saves_fit(rest)) by {
            assert forall|i: int| 0 <= i < rest.len() && (#[trigger] rest[i]) is Save implies fits(
                rest[i]->observation,
                MAX_READ_LEN as nat,
            ) by {
                assert(rest[i] == ops[i]);
            }
        }
        lemma_staged_stays_decodable(base, rest);
        let after = applied(before, ops.last());
        match ops.last() {
            BatchOp::Save { date, observation } => {
                let bytes = encode_observation(observation);
                let first = with(before, latest_key(observation), bytes);
                assert(ops[ops.len() - 1] is Save);
                lemma_encoded_decodes(observation);
                lemma_with_without_members(before, latest_key(observation), bytes);
                assert(decodable(first)) by {
                    assert forall|i: int| 0 <= i < first.len() implies parse_observation(
                        (#[trigger] first[i]).1,
                        MAX_READ_LEN as nat,
                    ) is Done by {
                        if first[i] != (latest_key(observation), bytes) {
                            let j = choose|j: int| 0 <= j < before.len() && before[j] == first[i];
                        }
                    }
                }
                let key = spec_pair_key_at(spec_pair_id(observation.from, observation.to), date);
                lemma_with_without_members(first, key, bytes);
                assert forall|i: int| 0 <= i < after.len() implies parse_observation(
                    (#[trigger] after[i]).1,
                    MAX_READ_LEN as nat,
                ) is Done by {
                    if after[i] != (key, bytes) {
                        let j = choose|j: int| 0 <= j < first.len() && first[j] == after[i];
                    }
                }
            },
            BatchOp::Delete { id, date } => {
                lemma_with_without_members(before, spec_pair_key_at(id, date), Seq::empty());
                assert forall|i: int| 0 <= i < after.len() implies parse_observation(
                    (#[trigger] after[i]).1,
                    MAX_READ_LEN as nat,
                ) is Done by {
                    let j = choose|j: int| 0 <= j < before.len() && before[j] == after[i];
                }
            },
        }
    }
}

/// What a scan yields after a commit, exactly. A batch was opened on a
/// sorted store in which every entry decodes, and staged `ops`, every save
/// of an observation that can be read back. After its commit a scan of all
/// observations succeeds, and it finds `x` where some key that the scan
/// comes by holds `x` once the changes were made in turn, and only there:
/// what the last save under a key left there, nothing where a delete came
/// last, and what the store held before under keys that no change touches.
pub proof fn lemma_commit_scan_is_exact(base: Entries, ops: Seq<BatchOp>, x: Observation)
    requires
        sorted(base),
        decodable(base),
        saves_fit(ops),
    ensures
        decoded(with_prefix(staged(base, ops), spec_all_pairs_prefix())) is Ok,
        decoded(with_prefix(staged(base, ops), spec_all_pairs_prefix()))->Ok_0.contains(x)
            <==> exists|key: Seq<u8>| #[trigger] held_after(base, ops, key, x),
{
    let after = staged(base, ops);
    let all = spec_all_pairs_prefix();
    lemma_staged_stays_decodable(base, ops);
    lemma_scan_under_prefix(after, all, x);
    if yields_under(after, all, x) {
        let i = choose|i: int|
            0 <= i < after.len() && entry_yields(#[trigger] after[i], x) && all.is_prefix_of(
                after[i].0,
            );
        lemma_lookup_found(after, i);
        lemma_staged_changes_are_visible(base, ops, after[i].0);
        assert(held_after(base, ops, after[i].0, x));
    }
    if exists|key: Seq<u8>| #[trigger] held_after(base, ops, key, x) {
        let key = choose|key: Seq<u8>| #[trigger] held_after(base, ops, key, x);
        lemma_staged_changes_are_visible(base, ops, key);
        lemma_lookup_member(after, key);
        let e = (key, lookup(after, key)->0);
        let i = choose|i: int| 0 <= i < after.len() && after[i] == e;
        assert(entry_yields(after[i], x) && all.is_prefix_of(after[i].0));
    }
}

/// Every save shows in the scans after a commit. Where, once the changes
/// were made in turn, the key of the pair of `o` at the instant `date`
/// holds what a save of `o` for that instant wrote, because no later change
/// touched the key, a scan of all observations finds `o`, and so does a
/// scan for the identifier of its pair.
pub proof fn lemma_committed_save_is_scanned(
    base: Entries,
    ops: Seq<BatchOp>,
    date: i64,
    o: Observation,
)
    requires
        sorted(base),
        decodable(base),
        saves_fit(ops),
        fits(o, MAX_READ_LEN as nat),
        lookup_after(base, ops, spec_pair_key_at(spec_pair_id(o.from, o.to), date)) == Some(
            encode_observation(o),
        ),
    ensures
        decoded(with_prefix(staged(base, ops), spec_all_pairs_prefix())) is Ok,
        decoded(with_prefix(staged(base, ops), spec_all_pairs_prefix()))->Ok_0.contains(o),
        decoded(with_prefix(staged(base, ops), latest_key(o))) is Ok,
        decoded(with_prefix(staged(base, ops), latest_key(o)))->Ok_0.contains(o),
{
    let after = staged(base, ops);
    let key = spec_pair_key_at(spec_pair_id(o.from, o.to), date);
    lemma_staged_stays_decodable(base, ops);
    lemma_staged_changes_are_visible(base, ops, key);
    lemma_lookup_member(after, key);
    let i = choose|i: int| 0 <= i < after.len() && after[i] == (key, encode_observation(o));
    lemma_encoded_decodes(o);
    lemma_pair_key_is_prefix(spec_pair_id(o.from, o.to), date);
    assert(entry_yields(after[i], o));
    lemma_scan_under_prefix(after, spec_all_pairs_prefix(), o);
    lemma_scan_under_prefix(after, latest_key(o), o);
}

/// Every save among `ops` is of an observation that can be read back, and
/// is made for the instant of the observation.
pub open spec fn saves_for_own_instant(ops: Seq<BatchOp>) -> bool {
    forall|i: int|
        0 <= i < ops.len() && (#[trigger] ops[i]) is Save ==> fits(
            ops[i]->observation,
            MAX_READ_LEN as nat,
        ) && ops[i]->Save_date == ops[i]->observation.date
}

/// Changes of which every save is made for the instant of its observation
/// keep a store sorted and aligned.
pub proof fn lemma_staged_stays_aligned(base: Entries, ops: Seq<BatchOp>)
    requires
        sorted(base),
        aligned(base),
        saves_for_own_instant(ops),
    ensures
        sorted(staged(base, ops)),
        aligned(staged(base, ops)),
    decreases ops.len(),
{
    if ops.len() > 0 {
        let rest = ops.drop_last();
        let before = staged(base, rest);
        assert(saves_for_own_instant(rest)) by {
            assert forall|i: int| 0 <= i < rest.len() && (#[trigger] rest[i]) is Save implies fits(
                rest[i]->observation,
                MAX_READ_LEN as nat,
            ) && rest[i]->Save_date == rest[i]->observation.date by {
                assert(rest[i] == ops[i]);
            }
        }
        lemma_staged_stays_aligned(base, rest);
        assert(ops[ops.len() - 1] == ops.last());
        match ops.last() {
            BatchOp::Save { date, observation } => {
                lemma_save_shows_in_history(before, observation, observation);
            },
            BatchOp::Delete { id, date } => {
                lemma_without_sorted(before, spec_pair_key_at(id, date));
                lemma_without_aligned(before, spec_pair_key_at(id, date));
            },
        }
    }
}

/// What the history is after a commit, exactly. A batch was opened on a
/// sorted, aligned store and staged `ops`, every save for the instant of
/// its observation. After its commit a scan of all observations succeeds,
/// and it finds `x` where the history key of `x` holds `x` once the changes
/// were made in turn, and only there. So it finds every observation whose
/// save was the last change under its key, none whose delete was, and of
/// the others those that it found before the batch.
pub proof fn lemma_commit_history_is_exact(base: Entries, ops: Seq<BatchOp>, x: Observation)
    requires
        sorted(base),
        aligned(base),
        saves_for_own_instant(ops),
    ensures
        decoded(with_prefix(staged(base, ops), spec_all_pairs_prefix())) is Ok,
        decoded(with_prefix(staged(base, ops), spec_all_pairs_prefix()))->Ok_0.contains(x) <==> {
            let found = lookup_after(base, ops, history_key(x));
            &&& found is Some
            &&& parse_observation(found->0, MAX_READ_LEN as nat) is Done
            &&& parse_observation(found->0, MAX_READ_LEN as nat)->value == x
        },
{
    let after = staged(base, ops);
    lemma_staged_stays_aligned(base, ops);
    lemma_aligned_is_scanned_whole(after);
    lemma_history_is_what_the_keys_hold(after, x);
    lemma_staged_changes_are_visible(base, ops, history_key(x));
}

} // verus!

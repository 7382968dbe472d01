//! The stored form of one observation: the source currency and the
//! destination currency, each behind an eight-byte length, then the eight
//! bytes of the rate and the eight bytes of the instant, every number with
//! its most significant byte first.

use vstd::prelude::*;
use vstd::utf8::{
    decode_utf8, encode_utf8, encode_utf8_decode_utf8, encode_utf8_valid_utf8, valid_utf8,
};
use crate::bytes::{
    be_bytes_i64, be_bytes_u64, be_value_u64, lemma_be_i64_round_trip, lemma_be_u64_round_trip,
};
use crate::exchange_rate::{ExchangeRateResult, Observation};
use crate::oracle_ser::{
    deserialize, len_prefixed, take_i64, take_len_prefixed, take_u64, BinWriter, Error, ErrorView,
    Parsed, Readable, Reader, Writeable, Writer, MAX_READ_LEN,
};

verus! {

/// `String::from_utf8`: gives the string that `bytes` encode where they are
/// valid UTF-8, and nothing where they are not.
#[verifier::external_body]
fn string_from_utf8(bytes: Vec<u8>) -> (r: Option<String>)
    ensures
        r is Some <==> valid_utf8(bytes@),
        r is Some ==> r->0@ == decode_utf8(bytes@),
{
    String::from_utf8(bytes).ok()
}

/// The bytes that an observation is stored as.
pub open spec fn encode_observation(o: Observation) -> Seq<u8> {
    len_prefixed(encode_utf8(o.from)) + len_prefixed(encode_utf8(o.to)) + be_bytes_u64(o.rate_bits)
        + be_bytes_i64(o.date)
}

/// What reading one observation from the front of `bytes` gives. A failure
/// leaves unread what the field that failed left unread; a field that is
/// not UTF-8 has been read.
#[verifier::opaque]
pub open spec fn parse_observation(bytes: Seq<u8>, limit: nat) -> Parsed<Observation> {
    let from = take_len_prefixed(bytes, limit);
    if from is Failed {
        Parsed::Failed { error: from->error, left: from->left }
    } else if !valid_utf8(from->value) {
        Parsed::Failed { error: ErrorView::CorruptedData, left: from->rest }
    } else {
        let to = take_len_prefixed(from->rest, limit);
        if to is Failed {
            Parsed::Failed { error: to->error, left: to->left }
        } else if !valid_utf8(to->value) {
            Parsed::Failed { error: ErrorView::CorruptedData, left: to->rest }
        } else {
            let rate = take_u64(to->rest);
            if rate is Failed {
                Parsed::Failed { error: rate->error, left: rate->left }
            } else {
                let date = take_i64(rate->rest);
                if date is Failed {
                    Parsed::Failed { error: date->error, left: date->left }
                } else {
                    Parsed::Done {
                        value: Observation {
                            from: decode_utf8(from->value),
                            to: decode_utf8(to->value),
                            rate_bits: rate->value,
                            date: date->value,
                        },
                        rest: date->rest,
                    }
                }
            }
        }
    }
}

/// Whether both currency codes of `o` are short enough to be read back
/// where one read may ask for `limit` bytes at most.
pub open spec fn fits(o: Observation, limit: nat) -> bool {
    &&& encode_utf8(o.from).len() <= limit
    &&& encode_utf8(o.to).len() <= limit
    &&& limit <= u64::MAX
}

impl Writeable for ExchangeRateResult {
    open spec fn encoding(v: Observation) -> Seq<u8> {
        encode_observation(v)
    }

    fn write<W: Writer>(&self, writer: &mut W) -> (r: Result<(), Error>) {
        let ghost before = writer.written();
        writer.write_bytes(&self.from)?;
        writer.write_bytes(&self.to)?;
        writer.write_u64(self.rate_bits)?;
        let r = writer.write_i64(self.date);
        assert(r is Ok ==> writer.written() =~= before + encode_observation(self@));
        r
    }
}

impl Readable for ExchangeRateResult {
    open spec fn parse(bytes: Seq<u8>, limit: nat) -> Parsed<Observation> {
        parse_observation(bytes, limit)
    }

    proof fn lemma_parse_advances(bytes: Seq<u8>, limit: nat) {
        reveal(parse_observation);
    }

    fn read<R: Reader>(reader: &mut R) -> (r: Result<ExchangeRateResult, Error>) {
        proof {
            reveal(parse_observation);
        }
        let data = reader.read_bytes_len_prefix()?;
        let from = match string_from_utf8(data) {
            Some(s) => s,
            None => {
                return Err(Error::CorruptedData);
            },
        };
        let data = reader.read_bytes_len_prefix()?;
        let to = match string_from_utf8(data) {
            Some(s) => s,
            None => {
                return Err(Error::CorruptedData);
            },
        };
        let rate_bits = reader.read_u64()?;
        let date = reader.read_i64()?;
        Ok(ExchangeRateResult { from, to, rate_bits, date })
    }
}

/// The bytes that `observation` is stored as.
pub fn encode(observation: &ExchangeRateResult) -> (bytes: Vec<u8>)
    ensures
        bytes@ == encode_observation(observation@),
{
    let mut writer = BinWriter::new(Vec::new());
    let _ = observation.write(&mut writer);
    let bytes = writer.into_sink();
    assert(bytes@ =~= encode_observation(observation@));
    bytes
}

/// The observation that stands at the front of `bytes`. Bytes after it are
/// not looked at.
pub fn decode(bytes: &[u8]) -> (r: Result<ExchangeRateResult, Error>)
    ensures
        match parse_observation(bytes@, MAX_READ_LEN as nat) {
            Parsed::Done { value, .. } => r is Ok && r->Ok_0@ == value,
            Parsed::Failed { error, .. } => r is Err && r->Err_0@ == error,
        },
{
    deserialize(bytes)
}

// ---------------------------------------------------------------------------
// What was written can be read back
// ---------------------------------------------------------------------------

/// Eight bytes written for a number read back as that number, whatever follows them.
pub proof fn lemma_take_u64_of_written(n: u64, rest: Seq<u8>)
    ensures
        take_u64(be_bytes_u64(n) + rest) == (Parsed::Done { value: n, rest }),
{
    let b = be_bytes_u64(n) + rest;
    lemma_be_u64_round_trip(n);
    assert(be_value_u64(b) == be_value_u64(be_bytes_u64(n)));
    assert(b.skip(8) =~= rest);
}

/// Eight bytes written for a signed number read back as that number, whatever follows them.
pub proof fn lemma_take_i64_of_written(n: i64, rest: Seq<u8>)
    ensures
        take_i64(be_bytes_i64(n) + rest) == (Parsed::Done { value: n, rest }),
{
    let b = be_bytes_i64(n) + rest;
    lemma_be_i64_round_trip(n);
    assert(be_value_u64(b) == be_value_u64(be_bytes_i64(n)));
    assert(b.skip(8) =~= rest);
}

/// Bytes written behind their length read back as those bytes, whatever follows them.
pub proof fn lemma_take_len_prefixed_of_written(x: Seq<u8>, rest: Seq<u8>, limit: nat)
    requires
        x.len() <= limit <= u64::MAX,
    ensures
        take_len_prefixed(len_prefixed(x) + rest, limit) == (Parsed::Done { value: x, rest }),
{
    let n = x.len() as u64;
    let b = len_prefixed(x) + rest;
    lemma_be_u64_round_trip(n);
    assert(be_value_u64(b) == be_value_u64(be_bytes_u64(n)));
    assert(b.subrange(8, 8 + n) =~= x);
    assert(b.skip(8 + n) =~= rest);
}

/// Five byte strings joined from the left are the same as joined from the right.
proof fn lemma_join_five(a: Seq<u8>, b: Seq<u8>, c: Seq<u8>, d: Seq<u8>, e: Seq<u8>)
    ensures
        a + b + c + d + e == a + (b + (c + (d + e))),
{
    assert(a + b + c + d + e =~= a + (b + (c + (d + e))));
}

/// Two strings behind their lengths and two numbers read back as the
/// observation that they make up, whatever follows them.
proof fn lemma_parse_of_parts(
    from: Seq<u8>,
    to: Seq<u8>,
    rate_bits: u64,
    date: i64,
    rest: Seq<u8>,
    limit: nat,
)
    requires
        from.len() <= limit,
        to.len() <= limit,
        limit <= u64::MAX,
        valid_utf8(from),
        valid_utf8(to),
    ensures
        parse_observation(
            len_prefixed(from) + (len_prefixed(to) + (be_bytes_u64(rate_bits) + (be_bytes_i64(date)
                + rest))),
            limit,
        ) == (Parsed::Done {
            value: Observation {
                from: decode_utf8(from),
                to: decode_utf8(to),
                rate_bits,
                date,
            },
            rest,
        }),
{
    let r3 = be_bytes_i64(date) + rest;
    let r2 = be_bytes_u64(rate_bits) + r3;
    let r1 = len_prefixed(to) + r2;
    let input = len_prefixed(from) + r1;
    assert(take_len_prefixed(input, limit) == (Parsed::Done { value: from, rest: r1 })) by {
        lemma_take_len_prefixed_of_written(from, r1, limit);
    }
    assert(take_len_prefixed(r1, limit) == (Parsed::Done { value: to, rest: r2 })) by {
        lemma_take_len_prefixed_of_written(to, r2, limit);
    }
    assert(take_u64(r2) == (Parsed::Done { value: rate_bits, rest: r3 })) by {
        lemma_take_u64_of_written(rate_bits, r3);
    }
    assert(take_i64(r3) == (Parsed::Done { value: date, rest })) by {
        lemma_take_i64_of_written(date, rest);
    }
    lemma_parse_by_fields(input, limit);
}

/// The read of an observation goes field by field: it gives the observation
/// where all four fields read back and the two strings are UTF-8, and fails
/// where one of the fields does.
proof fn lemma_parse_by_fields(bytes: Seq<u8>, limit: nat)
    ensures
        ({
            let from = take_len_prefixed(bytes, limit);
            let to = take_len_prefixed(from->rest, limit);
            let rate = take_u64(to->rest);
            let date = take_i64(rate->rest);
            let whole = parse_observation(bytes, limit);
            &&& from is Failed ==> whole is Failed
            &&& from is Done && to is Failed ==> whole is Failed
            &&& from is Done && to is Done && rate is Failed ==> whole is Failed
            &&& from is Done && to is Done && rate is Done && date is Failed ==> whole is Failed
            &&& from is Done && to is Done && rate is Done && date is Done && valid_utf8(from->value)
                && valid_utf8(to->value) ==> whole == (Parsed::Done {
                value: Observation {
                    from: decode_utf8(from->value),
                    to: decode_utf8(to->value),
                    rate_bits: rate->value,
                    date: date->value,
                },
                rest: date->rest,
            })
        }),
{
    reveal(parse_observation);
}

/// An observation that was written reads back as itself, and
/// the read stops where its bytes end.
pub proof fn lemma_round_trip(o: Observation, rest: Seq<u8>, limit: nat)
    requires
        fits(o, limit),
    ensures
        parse_observation(encode_observation(o) + rest, limit) == (Parsed::Done { value: o, rest }),
{
    let from = encode_utf8(o.from);
    let to = encode_utf8(o.to);
    lemma_join_five(
        len_prefixed(from),
        len_prefixed(to),
        be_bytes_u64(o.rate_bits),
        be_bytes_i64(o.date),
        rest,
    );
    encode_utf8_valid_utf8(o.from);
    encode_utf8_decode_utf8(o.from);
    encode_utf8_valid_utf8(o.to);
    encode_utf8_decode_utf8(o.to);
    lemma_parse_of_parts(from, to, o.rate_bits, o.date, rest, limit);
}

/// Bytes written behind their length and followed by a tail, the whole cut
/// short: the bytes read back with what is left of the tail, or not at all,
/// as they do where the cut falls before the tail.
proof fn lemma_cut_after_len_prefixed(x: Seq<u8>, tail: Seq<u8>, k: int, limit: nat)
    requires
        x.len() <= u64::MAX,
        0 <= k <= len_prefixed(x).len() + tail.len(),
    ensures
        k < len_prefixed(x).len() ==> take_len_prefixed(
            (len_prefixed(x) + tail).take(k),
            limit,
        ) is Failed,
        take_len_prefixed((len_prefixed(x) + tail).take(k), limit) is Done ==> take_len_prefixed(
            (len_prefixed(x) + tail).take(k),
            limit,
        ) == (Parsed::Done { value: x, rest: tail.take(k - len_prefixed(x).len()) }),
{
    let n = x.len() as u64;
    let b = (len_prefixed(x) + tail).take(k);
    lemma_be_u64_round_trip(n);
    if k >= 8 {
        assert(be_value_u64(b) == be_value_u64(be_bytes_u64(n)));
        if k >= 8 + n {
            let cut = tail.take(k - len_prefixed(x).len());
            assert(b.subrange(8, 8 + n) =~= x);
            assert(b.skip(8 + n) =~= cut);
        }
    }
}

/// The sixteen bytes of a rate and an instant, cut short, do not read back
/// as two numbers.
proof fn lemma_cut_numbers(rate_bits: u64, date: i64, k: int)
    requires
        0 <= k < 16,
    ensures
        take_u64((be_bytes_u64(rate_bits) + be_bytes_i64(date)).take(k)) is Failed || take_i64(
            take_u64((be_bytes_u64(rate_bits) + be_bytes_i64(date)).take(k))->rest,
        ) is Failed,
{
}

/// No proper front part of the bytes of an observation reads back as an
/// observation: the read fails.
pub proof fn lemma_truncated_is_rejected(o: Observation, k: int, limit: nat)
    requires
        encode_utf8(o.from).len() <= u64::MAX,
        encode_utf8(o.to).len() <= u64::MAX,
        0 <= k < encode_observation(o).len(),
    ensures
        parse_observation(encode_observation(o).take(k), limit) is Failed,
{
    let from = encode_utf8(o.from);
    let to = encode_utf8(o.to);
    let numbers = be_bytes_u64(o.rate_bits) + be_bytes_i64(o.date);
    let tail = len_prefixed(to) + numbers;
    assert(encode_observation(o) == len_prefixed(from) + tail) by {
        lemma_join_five(
            len_prefixed(from),
            len_prefixed(to),
            be_bytes_u64(o.rate_bits),
            be_bytes_i64(o.date),
            Seq::<u8>::empty(),
        );
        assert(be_bytes_i64(o.date) + Seq::<u8>::empty() =~= be_bytes_i64(o.date));
        assert(encode_observation(o) + Seq::<u8>::empty() =~= encode_observation(o));
    }
    assert(numbers.len() == 16);
    lemma_cut_parts(from, to, o.rate_bits, o.date, k, limit);
}

/// Two strings behind their lengths and two numbers, the whole cut short,
/// do not read back as an observation.
proof fn lemma_cut_parts(
    from: Seq<u8>,
    to: Seq<u8>,
    rate_bits: u64,
    date: i64,
    k: int,
    limit: nat,
)
    requires
        from.len() <= u64::MAX,
        to.len() <= u64::MAX,
        0 <= k < len_prefixed(from).len() + len_prefixed(to).len() + 16,
    ensures
        parse_observation(
            (len_prefixed(from) + (len_prefixed(to) + (be_bytes_u64(rate_bits) + be_bytes_i64(
                date,
            )))).take(k),
            limit,
        ) is Failed,
{
    let numbers = be_bytes_u64(rate_bits) + be_bytes_i64(date);
    let input = (len_prefixed(from) + (len_prefixed(to) + numbers)).take(k);
    lemma_cut_fields(from, to, numbers, k, limit);
    lemma_parse_by_fields(input, limit);
    let first = take_len_prefixed(input, limit);
    if first is Done {
        let second = take_len_prefixed(first->rest, limit);
        if second is Done {
            lemma_cut_numbers(
                rate_bits,
                date,
                k - len_prefixed(from).len() - len_prefixed(to).len(),
            );
        }
    }
}

/// Two strings behind their lengths, followed by a tail, the whole cut
/// short: where both strings read back, what is left is the front part of
/// the tail that the cut left.
proof fn lemma_cut_fields(from: Seq<u8>, to: Seq<u8>, tail: Seq<u8>, k: int, limit: nat)
    requires
        from.len() <= u64::MAX,
        to.len() <= u64::MAX,
        0 <= k <= len_prefixed(from).len() + len_prefixed(to).len() + tail.len(),
    ensures
        ({
            let first = take_len_prefixed(
                (len_prefixed(from) + (len_prefixed(to) + tail)).take(k),
                limit,
            );
            first is Done ==> {
                let second = take_len_prefixed(first->rest, limit);
                second is Done ==> k >= len_prefixed(from).len() + len_prefixed(to).len()
                    && second->rest == tail.take(
                    k - len_prefixed(from).len() - len_prefixed(to).len(),
                )
            }
        }),
{
    let rest = len_prefixed(to) + tail;
    lemma_cut_after_len_prefixed(from, rest, k, limit);
    let first = take_len_prefixed((len_prefixed(from) + rest).take(k), limit);
    if first is Done {
        lemma_cut_after_len_prefixed(to, tail, k - len_prefixed(from).len(), limit);
    }
}

} // verus!

//! Byte-level building blocks: big-endian integer layouts and the
//! lexicographic order on byte strings that an ordered key-value engine
//! sorts its keys by.

use byteorder::{BigEndian, ByteOrder};
use vstd::prelude::*;

verus! {

// ---------------------------------------------------------------------------
// Big-endian layouts
// ---------------------------------------------------------------------------

/// The two bytes of `n`, most significant first.
pub open spec fn be_bytes_u16(n: u16) -> Seq<u8> {
    seq![(n >> 8) as u8, n as u8]
}

/// The four bytes of `n`, most significant first.
pub open spec fn be_bytes_u32(n: u32) -> Seq<u8> {
    seq![(n >> 24) as u8, (n >> 16) as u8, (n >> 8) as u8, n as u8]
}

/// The eight bytes of `n`, most significant first.
pub open spec fn be_bytes_u64(n: u64) -> Seq<u8> {
    seq![
        (n >> 56) as u8,
        (n >> 48) as u8,
        (n >> 40) as u8,
        (n >> 32) as u8,
        (n >> 24) as u8,
        (n >> 16) as u8,
        (n >> 8) as u8,
        n as u8,
    ]
}

/// The four bytes of the two's complement form of `n`, most significant first.
pub open spec fn be_bytes_i32(n: i32) -> Seq<u8> {
    be_bytes_u32(n as u32)
}

/// The eight bytes of the two's complement form of `n`, most significant first.
pub open spec fn be_bytes_i64(n: i64) -> Seq<u8> {
    be_bytes_u64(n as u64)
}

/// The number whose big-endian layout is the first two bytes of `s`.
pub open spec fn be_value_u16(s: Seq<u8>) -> u16 {
    ((s[0] as u16) << 8) | (s[1] as u16)
}

/// The number whose big-endian layout is the first four bytes of `s`.
pub open spec fn be_value_u32(s: Seq<u8>) -> u32 {
    ((s[0] as u32) << 24) | ((s[1] as u32) << 16) | ((s[2] as u32) << 8) | (s[3] as u32)
}

/// The number whose big-endian layout is the first eight bytes of `s`.
pub open spec fn be_value_u64(s: Seq<u8>) -> u64 {
    ((s[0] as u64) << 56) | ((s[1] as u64) << 48) | ((s[2] as u64) << 40) | ((s[3] as u64) << 32)
        | ((s[4] as u64) << 24) | ((s[5] as u64) << 16) | ((s[6] as u64) << 8) | (s[7] as u64)
}

/// The signed number whose two's complement big-endian layout is the first
/// four bytes of `s`.
pub open spec fn be_value_i32(s: Seq<u8>) -> i32 {
    be_value_u32(s) as i32
}

/// The signed number whose two's complement big-endian layout is the first
/// eight bytes of `s`.
pub open spec fn be_value_i64(s: Seq<u8>) -> i64 {
    be_value_u64(s) as i64
}

/// Reading back a written `u16` gives the number that was written.
pub proof fn lemma_be_u16_round_trip(n: u16)
    ensures
        be_value_u16(be_bytes_u16(n)) == n,
        be_bytes_u16(n).len() == 2,
{
    assert(((((n >> 8) as u8) as u16) << 8) | ((n as u8) as u16) == n) by (bit_vector);
}

/// Reading back a written `u32` gives the number that was written.
pub proof fn lemma_be_u32_round_trip(n: u32)
    ensures
        be_value_u32(be_bytes_u32(n)) == n,
        be_bytes_u32(n).len() == 4,
{
    assert(((((n >> 24) as u8) as u32) << 24) | ((((n >> 16) as u8) as u32) << 16) | ((((n >> 8) as u8)
        as u32) << 8) | ((n as u8) as u32) == n) by (bit_vector);
}

/// Reading back a written `u64` gives the number that was written.
pub proof fn lemma_be_u64_round_trip(n: u64)
    ensures
        be_value_u64(be_bytes_u64(n)) == n,
        be_bytes_u64(n).len() == 8,
{
    assert(((((n >> 56) as u8) as u64) << 56) | ((((n >> 48) as u8) as u64) << 48) | ((((n >> 40) as u8)
        as u64) << 40) | ((((n >> 32) as u8) as u64) << 32) | ((((n >> 24) as u8) as u64) << 24) | ((((n
        >> 16) as u8) as u64) << 16) | ((((n >> 8) as u8) as u64) << 8) | ((n as u8) as u64) == n)
        by (bit_vector);
}

/// Reading back a written `i32` gives the number that was written.
pub proof fn lemma_be_i32_round_trip(n: i32)
    ensures
        be_value_i32(be_bytes_i32(n)) == n,
        be_bytes_i32(n).len() == 4,
{
    lemma_be_u32_round_trip(n as u32);
    assert((n as u32) as i32 == n) by (bit_vector);
}

/// Reading back a written `i64` gives the number that was written.
pub proof fn lemma_be_i64_round_trip(n: i64)
    ensures
        be_value_i64(be_bytes_i64(n)) == n,
        be_bytes_i64(n).len() == 8,
{
    lemma_be_u64_round_trip(n as u64);
    assert((n as u64) as i64 == n) by (bit_vector);
}

/// `byteorder::BigEndian::write_u16` on a fresh two-byte buffer: the buffer
/// then holds the two bytes of `n`, most significant first.
#[verifier::external_body]
pub(crate) fn write_u16_be(n: u16) -> (bytes: Vec<u8>)
    ensures
        bytes@ == be_bytes_u16(n),
{
    let mut bytes = vec![0u8; 2];
    BigEndian::write_u16(&mut bytes, n);
    bytes
}

/// `byteorder::BigEndian::write_u32` on a fresh four-byte buffer: the buffer
/// then holds the four bytes of `n`, most significant first.
#[verifier::external_body]
pub(crate) fn write_u32_be(n: u32) -> (bytes: Vec<u8>)
    ensures
        bytes@ == be_bytes_u32(n),
{
    let mut bytes = vec![0u8; 4];
    BigEndian::write_u32(&mut bytes, n);
    bytes
}

/// `byteorder::BigEndian::write_i32` on a fresh four-byte buffer: the buffer
/// then holds the two's complement form of `n`, most significant byte first.
#[verifier::external_body]
pub(crate) fn write_i32_be(n: i32) -> (bytes: Vec<u8>)
    ensures
        bytes@ == be_bytes_i32(n),
{
    let mut bytes = vec![0u8; 4];
    BigEndian::write_i32(&mut bytes, n);
    bytes
}

/// `byteorder::BigEndian::write_u64` on a fresh eight-byte buffer: the buffer
/// then holds the eight bytes of `n`, most significant first.
#[verifier::external_body]
pub(crate) fn write_u64_be(n: u64) -> (bytes: Vec<u8>)
    ensures
        bytes@ == be_bytes_u64(n),
{
    let mut bytes = vec![0u8; 8];
    BigEndian::write_u64(&mut bytes, n);
    bytes
}

/// `byteorder::BigEndian::write_i64` on a fresh eight-byte buffer: the buffer
/// then holds the two's complement form of `n`, most significant byte first.
#[verifier::external_body]
pub(crate) fn write_i64_be(n: i64) -> (bytes: Vec<u8>)
    ensures
        bytes@ == be_bytes_i64(n),
{
    let mut bytes = vec![0u8; 8];
    BigEndian::write_i64(&mut bytes, n);
    bytes
}

/// `byteorder::BigEndian::read_u16`: the number laid out, most significant
/// byte first, in the first two bytes of `buf`. The call panics on a shorter
/// buffer, which the precondition rules out.
#[verifier::external_body]
pub(crate) fn read_u16_be(buf: &[u8]) -> (n: u16)
    requires
        buf@.len() >= 2,
    ensures
        n == be_value_u16(buf@),
{
    BigEndian::read_u16(buf)
}

/// `byteorder::BigEndian::read_u32`: the number laid out, most significant
/// byte first, in the first four bytes of `buf`. The call panics on a shorter
/// buffer, which the precondition rules out.
#[verifier::external_body]
pub(crate) fn read_u32_be(buf: &[u8]) -> (n: u32)
    requires
        buf@.len() >= 4,
    ensures
        n == be_value_u32(buf@),
{
    BigEndian::read_u32(buf)
}

/// `byteorder::BigEndian::read_i32`: the signed number whose two's complement
/// form is laid out, most significant byte first, in the first four bytes of
/// `buf`. The call panics on a shorter buffer, which the precondition rules
/// out.
#[verifier::external_body]
pub(crate) fn read_i32_be(buf: &[u8]) -> (n: i32)
    requires
        buf@.len() >= 4,
    ensures
        n == be_value_i32(buf@),
{
    BigEndian::read_i32(buf)
}

/// `byteorder::BigEndian::read_u64`: the number laid out, most significant
/// byte first, in the first eight bytes of `buf`. The call panics on a
/// shorter buffer, which the precondition rules out.
#[verifier::external_body]
pub(crate) fn read_u64_be(buf: &[u8]) -> (n: u64)
    requires
        buf@.len() >= 8,
    ensures
        n == be_value_u64(buf@),
{
    BigEndian::read_u64(buf)
}

/// `byteorder::BigEndian::read_i64`: the signed number whose two's complement
/// form is laid out, most significant byte first, in the first eight bytes of
/// `buf`. The call panics on a shorter buffer, which the precondition rules
/// out.
#[verifier::external_body]
pub(crate) fn read_i64_be(buf: &[u8]) -> (n: i64)
    requires
        buf@.len() >= 8,
    ensures
        n == be_value_i64(buf@),
{
    BigEndian::read_i64(buf)
}

// ---------------------------------------------------------------------------
// Copying
// ---------------------------------------------------------------------------

/// Appends every byte of `src` to `dst`.
pub fn append_bytes(dst: &mut Vec<u8>, src: &[u8])
    ensures
        final(dst)@ == old(dst)@ + src@,
{
    let mut i: usize = 0;
    while i < src.len()
        invariant
            i <= src@.len(),
            dst@ == old(dst)@ + src@.subrange(0, i as int),
        decreases src@.len() - i,
    {
        dst.push(src[i]);
        i = i + 1;
    }
    assert(src@.subrange(0, i as int) == src@);
}

/// An owned copy of `src`.
pub fn copy_bytes(src: &[u8]) -> (out: Vec<u8>)
    ensures
        out@ == src@,
{
    let mut out: Vec<u8> = Vec::new();
    append_bytes(&mut out, src);
    out
}

// ---------------------------------------------------------------------------
// Lexicographic order
// ---------------------------------------------------------------------------

/// `a` and `b` agree before index `i`, and at `i` either `a` has ended while
/// `b` goes on, or `a` holds the smaller byte.
pub open spec fn lex_lt_at(a: Seq<u8>, b: Seq<u8>, i: int) -> bool {
    &&& 0 <= i <= a.len()
    &&& i < b.len()
    &&& forall|j: int| 0 <= j < i ==> a[j] == b[j]
    &&& (i < a.len() ==> a[i] < b[i])
}

/// `a` comes strictly before `b` in byte-lexicographic order.
pub open spec fn lex_lt(a: Seq<u8>, b: Seq<u8>) -> bool {
    exists|i: int| #[trigger] lex_lt_at(a, b, i)
}

/// How two byte strings stand to each other in lexicographic order.
#[derive(Clone, Copy, Debug, PartialEq, Eq, Structural)]
pub enum LexOrder {
    /// The first comes strictly before the second.
    Before,
    /// Both hold the same bytes.
    Same,
    /// The first comes strictly after the second.
    After,
}

/// No byte string comes before itself.
pub proof fn lemma_lex_lt_irreflexive(a: Seq<u8>)
    ensures
        !lex_lt(a, a),
{
    if lex_lt(a, a) {
        let i = choose|i: int| #[trigger] lex_lt_at(a, a, i);
        assert(false);
    }
}

/// The lexicographic order is transitive.
pub proof fn lemma_lex_lt_transitive(a: Seq<u8>, b: Seq<u8>, c: Seq<u8>)
    requires
        lex_lt(a, b),
        lex_lt(b, c),
    ensures
        lex_lt(a, c),
{
    let i = choose|i: int| #[trigger] lex_lt_at(a, b, i);
    let j = choose|j: int| #[trigger] lex_lt_at(b, c, j);
    if i <= j {
        assert(lex_lt_at(a, c, i));
    } else {
        assert(lex_lt_at(a, c, j));
    }
}

/// Two byte strings never come before each other.
pub proof fn lemma_lex_lt_asymmetric(a: Seq<u8>, b: Seq<u8>)
    requires
        lex_lt(a, b),
    ensures
        !lex_lt(b, a),
        a != b,
{
    if lex_lt(b, a) {
        lemma_lex_lt_transitive(a, b, a);
        lemma_lex_lt_irreflexive(a);
    }
    lemma_lex_lt_irreflexive(a);
}

proof fn lemma_lex_total_from(a: Seq<u8>, b: Seq<u8>, i: int)
    requires
        0 <= i <= a.len(),
        i <= b.len(),
        forall|j: int| 0 <= j < i ==> a[j] == b[j],
    ensures
        lex_lt(a, b) || a == b || lex_lt(b, a),
    decreases a.len() - i,
{
    if i == a.len() {
        if i == b.len() {
            assert(a =~= b);
        } else {
            assert(lex_lt_at(a, b, i));
        }
    } else if i == b.len() {
        assert(lex_lt_at(b, a, i));
    } else if a[i] < b[i] {
        assert(lex_lt_at(a, b, i));
    } else if b[i] < a[i] {
        assert(lex_lt_at(b, a, i));
    } else {
        lemma_lex_total_from(a, b, i + 1);
    }
}

/// Of two byte strings one comes before the other, or they are equal.
pub proof fn lemma_lex_total(a: Seq<u8>, b: Seq<u8>)
    ensures
        lex_lt(a, b) || a == b || lex_lt(b, a),
{
    lemma_lex_total_from(a, b, 0);
}

/// A common front part does not change how two byte strings compare.
pub proof fn lemma_lex_lt_common_prefix(p: Seq<u8>, a: Seq<u8>, b: Seq<u8>)
    ensures
        lex_lt(p + a, p + b) <==> lex_lt(a, b),
{
    let n = p.len() as int;
    if lex_lt(a, b) {
        let i = choose|i: int| #[trigger] lex_lt_at(a, b, i);
        assert forall|j: int| 0 <= j < n + i implies (p + a)[j] == (p + b)[j] by {
            if j >= n {
                assert(a[j - n] == b[j - n]);
            }
        }
        assert(lex_lt_at(p + a, p + b, n + i));
    }
    if lex_lt(p + a, p + b) {
        let k = choose|k: int| #[trigger] lex_lt_at(p + a, p + b, k);
        if k < n {
            assert((p + a)[k] == p[k]);
            assert((p + b)[k] == p[k]);
            assert(false);
        }
        assert forall|j: int| 0 <= j < k - n implies a[j] == b[j] by {
            assert((p + a)[j + n] == (p + b)[j + n]);
        }
        if k - n < a.len() {
            assert((p + a)[k] == a[k - n]);
            assert((p + b)[k] == b[k - n]);
        }
        assert(lex_lt_at(a, b, k - n));
    }
}

/// Compares two byte strings in lexicographic order.
pub fn compare_bytes(a: &[u8], b: &[u8]) -> (r: LexOrder)
    ensures
        r == LexOrder::Before <==> lex_lt(a@, b@),
        r == LexOrder::Same <==> a@ == b@,
        r == LexOrder::After <==> lex_lt(b@, a@),
{
    let mut i: usize = 0;
    while i < a.len() && i < b.len()
        invariant
            i <= a@.len(),
            i <= b@.len(),
            forall|j: int| 0 <= j < i ==> a@[j] == b@[j],
        decreases a@.len() - i,
    {
        if a[i] < b[i] {
            proof {
                assert(lex_lt_at(a@, b@, i as int));
                lemma_lex_lt_asymmetric(a@, b@);
            }
            return LexOrder::Before;
        }
        if b[i] < a[i] {
            proof {
                assert(lex_lt_at(b@, a@, i as int));
                lemma_lex_lt_asymmetric(b@, a@);
            }
            return LexOrder::After;
        }
        i = i + 1;
    }
    if i < b.len() {
        proof {
            assert(lex_lt_at(a@, b@, i as int));
            lemma_lex_lt_asymmetric(a@, b@);
        }
        LexOrder::Before
    } else if i < a.len() {
        proof {
            assert(lex_lt_at(b@, a@, i as int));
            lemma_lex_lt_asymmetric(b@, a@);
        }
        LexOrder::After
    } else {
        proof {
            assert(a@ =~= b@);
            lemma_lex_lt_irreflexive(a@);
        }
        LexOrder::Same
    }
}

/// Whether `bytes` begins with `prefix`.
pub fn starts_with(bytes: &[u8], prefix: &[u8]) -> (r: bool)
    ensures
        r == prefix@.is_prefix_of(bytes@),
{
    if prefix.len() > bytes.len() {
        return false;
    }
    let mut i: usize = 0;
    while i < prefix.len()
        invariant
            i <= prefix@.len(),
            prefix@.len() <= bytes@.len(),
            forall|j: int| 0 <= j < i ==> prefix@[j] == bytes@[j],
        decreases prefix@.len() - i,
    {
        if prefix[i] != bytes[i] {
            proof {
                if prefix@.is_prefix_of(bytes@) {
                    assert(bytes@.subrange(0, prefix@.len() as int)[i as int] == prefix@[i as int]);
                }
            }
            return false;
        }
        i = i + 1;
    }
    assert(prefix@ =~= bytes@.subrange(0, prefix@.len() as int));
    true
}

// ---------------------------------------------------------------------------
// Order of big-endian layouts
// ---------------------------------------------------------------------------

/// Big-endian layouts of unsigned numbers compare as the numbers do.
pub proof fn lemma_be_u64_order(a: u64, b: u64)
    ensures
        lex_lt(be_bytes_u64(a), be_bytes_u64(b)) <==> a < b,
{
    let x = be_bytes_u64(a);
    let y = be_bytes_u64(b);
    let (x0, x1, x2, x3, x4, x5, x6, x7) = (x[0], x[1], x[2], x[3], x[4], x[5], x[6], x[7]);
    let (y0, y1, y2, y3, y4, y5, y6, y7) = (y[0], y[1], y[2], y[3], y[4], y[5], y[6], y[7]);
    let by_bytes = x0 < y0 || (x0 == y0 && (x1 < y1 || (x1 == y1 && (x2 < y2 || (x2 == y2 && (x3 < y3
        || (x3 == y3 && (x4 < y4 || (x4 == y4 && (x5 < y5 || (x5 == y5 && (x6 < y6 || (x6 == y6 && x7
        < y7)))))))))))));
    assert(by_bytes <==> a < b) by (bit_vector)
        requires
            x0 == (a >> 56) as u8,
            x1 == (a >> 48) as u8,
            x2 == (a >> 40) as u8,
            x3 == (a >> 32) as u8,
            x4 == (a >> 24) as u8,
            x5 == (a >> 16) as u8,
            x6 == (a >> 8) as u8,
            x7 == a as u8,
            y0 == (b >> 56) as u8,
            y1 == (b >> 48) as u8,
            y2 == (b >> 40) as u8,
            y3 == (b >> 32) as u8,
            y4 == (b >> 24) as u8,
            y5 == (b >> 16) as u8,
            y6 == (b >> 8) as u8,
            y7 == b as u8,
            by_bytes == (x0 < y0 || (x0 == y0 && (x1 < y1 || (x1 == y1 && (x2 < y2 || (x2 == y2 && (x3
                < y3 || (x3 == y3 && (x4 < y4 || (x4 == y4 && (x5 < y5 || (x5 == y5 && (x6 < y6 || (x6
                == y6 && x7 < y7)))))))))))))),
    ;
    if by_bytes {
        if x0 < y0 {
            assert(lex_lt_at(x, y, 0));
        } else if x1 < y1 {
            assert(lex_lt_at(x, y, 1));
        } else if x2 < y2 {
            assert(lex_lt_at(x, y, 2));
        } else if x3 < y3 {
            assert(lex_lt_at(x, y, 3));
        } else if x4 < y4 {
            assert(lex_lt_at(x, y, 4));
        } else if x5 < y5 {
            assert(lex_lt_at(x, y, 5));
        } else if x6 < y6 {
            assert(lex_lt_at(x, y, 6));
        } else {
            assert(lex_lt_at(x, y, 7));
        }
    }
    if lex_lt(x, y) {
        let i = choose|i: int| #[trigger] lex_lt_at(x, y, i);
        assert(0 <= i < 8);
        assert(forall|j: int| 0 <= j < i ==> x[j] == y[j]);
        assert(x[i] < y[i]);
        assert(by_bytes);
    }
}

/// Big-endian layouts of signed numbers of one sign compare as the numbers
/// do. Across the signs they do not: a negative number has its top bit set
/// and so sorts after every number from zero up.
pub proof fn lemma_be_i64_order(a: i64, b: i64)
    requires
        (a < 0) == (b < 0),
    ensures
        lex_lt(be_bytes_i64(a), be_bytes_i64(b)) <==> a < b,
{
    lemma_be_u64_order(a as u64, b as u64);
    assert(((a as u64) < (b as u64)) <==> a < b) by (bit_vector)
        requires
            (a < 0) == (b < 0),
    ;
}

/// A negative number's layout sorts after that of every number from zero up.
pub proof fn lemma_be_i64_order_across_signs(a: i64, b: i64)
    requires
        a < 0 <= b,
    ensures
        lex_lt(be_bytes_i64(b), be_bytes_i64(a)),
{
    lemma_be_u64_order(b as u64, a as u64);
    assert((b as u64) < (a as u64)) by (bit_vector)
        requires
            a < 0 <= b,
    ;
}

} // verus!

//! Serialization and deserialization layer specialized for binary encoding.
//!
//! A value is written through a [`Writer`] and read back through a
//! [`Reader`]; what a type writes is its [`Writeable::encoding`], what it
//! reads is its [`Readable::parse`]. Readers and writers work on bytes in
//! memory: moving those bytes to or from a file or a socket is the caller's
//! business.

use core::marker::PhantomData;
use vstd::prelude::*;
use vstd::slice::slice_subrange;
use vstd::std_specs::cmp::PartialEqSpecImpl;
use vstd::utf8::encode_utf8;
use crate::bytes::{
    append_bytes, be_bytes_i32, be_bytes_i64, be_bytes_u16, be_bytes_u32, be_bytes_u64,
    be_value_i32, be_value_i64, be_value_u16, be_value_u32, be_value_u64, compare_bytes,
    copy_bytes, read_i32_be, read_i64_be, read_u16_be, read_u32_be, read_u64_be, write_i32_be,
    write_i64_be, write_u16_be, write_u32_be, write_u64_be, LexOrder,
};

verus! {

/// The most bytes that one read through a [`BinReader`] may ask for.
pub const MAX_READ_LEN: usize = 4_000_000;

/// The most items that [`read_multi`] agrees to read.
pub const MAX_READ_COUNT: u64 = 1_000_000;

// ---------------------------------------------------------------------------
// Errors
// ---------------------------------------------------------------------------

/// Why the byte source let a read down.
#[derive(Clone, Copy, Debug, PartialEq, Eq, Structural)]
pub enum IoErrorKind {
    /// The input ended before the value did.
    UnexpectedEof,
    /// Any other failure of the source.
    Other,
}

/// Possible errors deriving from serializing or deserializing.
#[derive(Debug)]
pub enum Error {
    /// Wraps an io error produced when reading or writing
    IOErr(String, IoErrorKind),
    /// Expected a given value that wasn't found
    UnexpectedData {
        /// What we wanted
        expected: Vec<u8>,
        /// What we got
        received: Vec<u8>,
    },
    /// Data wasn't in a consumable format
    CorruptedData,
    /// Incorrect number of elements (when deserializing a vec via read_multi say).
    CountError,
    /// When asked to read too much data
    TooLargeReadErr,
    /// Error from from_hex deserialization
    HexError(String),
}

/// What an [`Error`] holds, as mathematical values.
pub enum ErrorView {
    IOErr(Seq<char>, IoErrorKind),
    UnexpectedData { expected: Seq<u8>, received: Seq<u8> },
    CorruptedData,
    CountError,
    TooLargeReadErr,
    HexError(Seq<char>),
}

impl View for Error {
    type V = ErrorView;

    open spec fn view(&self) -> ErrorView {
        match self {
            Error::IOErr(e, k) => ErrorView::IOErr(e@, *k),
            Error::UnexpectedData { expected, received } => ErrorView::UnexpectedData {
                expected: expected@,
                received: received@,
            },
            Error::CorruptedData => ErrorView::CorruptedData,
            Error::CountError => ErrorView::CountError,
            Error::TooLargeReadErr => ErrorView::TooLargeReadErr,
            Error::HexError(e) => ErrorView::HexError(e@),
        }
    }
}

/// The error of a read that met the end of the input too early.
pub open spec fn eof_error() -> ErrorView {
    ErrorView::IOErr("failed to fill whole buffer"@, IoErrorKind::UnexpectedEof)
}

impl Error {
    /// Whether the error says that the input ended too early.
    pub open spec fn spec_is_eof(e: ErrorView) -> bool {
        e matches ErrorView::IOErr(_, k) && k == IoErrorKind::UnexpectedEof
    }

    /// The error of a read that met the end of the input too early.
    pub fn unexpected_eof() -> (e: Error)
        ensures
            e@ == eof_error(),
    {
        Error::IOErr("failed to fill whole buffer".to_owned(), IoErrorKind::UnexpectedEof)
    }

    /// Whether the error says that the input ended too early.
    pub fn is_eof(&self) -> (r: bool)
        ensures
            r == Self::spec_is_eof(self@),
    {
        match self {
            Error::IOErr(_, k) => match k {
                IoErrorKind::UnexpectedEof => true,
                IoErrorKind::Other => false,
            },
            _ => false,
        }
    }

    /// The text that names an error view in a few words.
    pub open spec fn spec_description(e: ErrorView) -> Seq<char> {
        match e {
            ErrorView::IOErr(text, _) => text,
            ErrorView::UnexpectedData { .. } => "unexpected data"@,
            ErrorView::CorruptedData => "corrupted data"@,
            ErrorView::CountError => "count error"@,
            ErrorView::TooLargeReadErr => "too large read"@,
            ErrorView::HexError(_) => "hex error"@,
        }
    }

    /// Names the error in a few words.
    pub fn description(&self) -> (r: String)
        ensures
            r@ == Self::spec_description(self@),
    {
        match self {
            Error::IOErr(e, _) => e.clone(),
            Error::UnexpectedData { .. } => "unexpected data".to_owned(),
            Error::CorruptedData => "corrupted data".to_owned(),
            Error::CountError => "count error".to_owned(),
            Error::TooLargeReadErr => "too large read".to_owned(),
            Error::HexError(_) => "hex error".to_owned(),
        }
    }
}

impl Clone for Error {
    fn clone(&self) -> (r: Self)
        ensures
            r@ == self@,
    {
        match self {
            Error::IOErr(e, k) => Error::IOErr(e.clone(), *k),
            Error::UnexpectedData { expected, received } => Error::UnexpectedData {
                expected: copy_bytes(expected.as_slice()),
                received: copy_bytes(received.as_slice()),
            },
            Error::CorruptedData => Error::CorruptedData,
            Error::CountError => Error::CountError,
            Error::TooLargeReadErr => Error::TooLargeReadErr,
            Error::HexError(e) => Error::HexError(e.clone()),
        }
    }
}

impl PartialEq for Error {
    fn eq(&self, other: &Error) -> (r: bool) {
        match (self, other) {
            (Error::IOErr(e1, k1), Error::IOErr(e2, k2)) => *e1 == *e2 && *k1 == *k2,
            (
                Error::UnexpectedData { expected: x1, received: r1 },
                Error::UnexpectedData { expected: x2, received: r2 },
            ) => {
                compare_bytes(x1.as_slice(), x2.as_slice()) == LexOrder::Same && compare_bytes(
                    r1.as_slice(),
                    r2.as_slice(),
                ) == LexOrder::Same
            },
            (Error::CorruptedData, Error::CorruptedData) => true,
            (Error::CountError, Error::CountError) => true,
            (Error::TooLargeReadErr, Error::TooLargeReadErr) => true,
            (Error::HexError(e1), Error::HexError(e2)) => *e1 == *e2,
            _ => false,
        }
    }
}

impl PartialEqSpecImpl for Error {
    open spec fn obeys_eq_spec() -> bool {
        true
    }

    open spec fn eq_spec(&self, other: &Error) -> bool {
        self@ == other@
    }
}

/// Signal to a serializable object how much of its data should be serialized
#[derive(Copy, Clone, Debug, PartialEq, Eq, Structural)]
pub enum SerializationMode {
    /// Serialize everything sufficiently to fully reconstruct the object
    Full,
    /// Serialize the data that defines the object
    Hash,
}

// ---------------------------------------------------------------------------
// What a read takes from the input
// ---------------------------------------------------------------------------

/// The outcome of reading one value from the front of a byte string.
pub enum Parsed<T> {
    /// The value that was read, and the bytes that follow it.
    Done { value: T, rest: Seq<u8> },
    /// The read failed, and the bytes that it left unread.
    Failed { error: ErrorView, left: Seq<u8> },
}

/// One byte.
pub open spec fn take_u8(b: Seq<u8>) -> Parsed<u8> {
    if b.len() < 1 {
        Parsed::Failed { error: eof_error(), left: b }
    } else {
        Parsed::Done { value: b[0], rest: b.skip(1) }
    }
}

/// Two bytes, most significant first.
pub open spec fn take_u16(b: Seq<u8>) -> Parsed<u16> {
    if b.len() < 2 {
        Parsed::Failed { error: eof_error(), left: b }
    } else {
        Parsed::Done { value: be_value_u16(b), rest: b.skip(2) }
    }
}

/// Four bytes, most significant first.
pub open spec fn take_u32(b: Seq<u8>) -> Parsed<u32> {
    if b.len() < 4 {
        Parsed::Failed { error: eof_error(), left: b }
    } else {
        Parsed::Done { value: be_value_u32(b), rest: b.skip(4) }
    }
}

/// Four bytes in two's complement, most significant first.
pub open spec fn take_i32(b: Seq<u8>) -> Parsed<i32> {
    if b.len() < 4 {
        Parsed::Failed { error: eof_error(), left: b }
    } else {
        Parsed::Done { value: be_value_i32(b), rest: b.skip(4) }
    }
}

/// Eight bytes, most significant first.
pub open spec fn take_u64(b: Seq<u8>) -> Parsed<u64> {
    if b.len() < 8 {
        Parsed::Failed { error: eof_error(), left: b }
    } else {
        Parsed::Done { value: be_value_u64(b), rest: b.skip(8) }
    }
}

/// Eight bytes in two's complement, most significant first.
pub open spec fn take_i64(b: Seq<u8>) -> Parsed<i64> {
    if b.len() < 8 {
        Parsed::Failed { error: eof_error(), left: b }
    } else {
        Parsed::Done { value: be_value_i64(b), rest: b.skip(8) }
    }
}

/// `len` bytes as they stand: too many for one read above `limit`, and an
/// early end where fewer are left. Either failure leaves every byte unread.
pub open spec fn take_fixed(b: Seq<u8>, len: nat, limit: nat) -> Parsed<Seq<u8>> {
    if len > limit {
        Parsed::Failed { error: ErrorView::TooLargeReadErr, left: b }
    } else if b.len() < len {
        Parsed::Failed { error: eof_error(), left: b }
    } else {
        Parsed::Done { value: b.take(len as int), rest: b.skip(len as int) }
    }
}

/// An eight-byte length, then that many bytes: an early end where the length
/// itself is cut short, which leaves every byte unread; too large a read
/// where the length is above `limit`, and corrupted data where it asks for
/// more bytes than are left, both of which leave the length read and the
/// rest unread.
pub open spec fn take_len_prefixed(b: Seq<u8>, limit: nat) -> Parsed<Seq<u8>> {
    if b.len() < 8 {
        Parsed::Failed { error: eof_error(), left: b }
    } else if be_value_u64(b) > limit {
        Parsed::Failed { error: ErrorView::TooLargeReadErr, left: b.skip(8) }
    } else if b.len() - 8 < be_value_u64(b) {
        Parsed::Failed { error: ErrorView::CorruptedData, left: b.skip(8) }
    } else {
        Parsed::Done {
            value: b.subrange(8, 8 + be_value_u64(b)),
            rest: b.skip(8 + be_value_u64(b)),
        }
    }
}

/// One byte that has to be `val`. A byte that is not `val` is read all the same.
pub open spec fn take_expected_u8(b: Seq<u8>, val: u8) -> Parsed<u8> {
    if b.len() < 1 {
        Parsed::Failed { error: eof_error(), left: b }
    } else if b[0] == val {
        Parsed::Done { value: val, rest: b.skip(1) }
    } else {
        Parsed::Failed {
            error: ErrorView::UnexpectedData { expected: seq![val], received: seq![b[0]] },
            left: b.skip(1),
        }
    }
}

/// A read gave `r` and left `rest` unread, as `expected` says it must.
pub open spec fn reads_as<T>(expected: Parsed<T>, r: Result<T, Error>, rest: Seq<u8>) -> bool {
    match expected {
        Parsed::Done { value, rest: left } => r == Ok::<T, Error>(value) && rest == left,
        Parsed::Failed { error, left } => r is Err && r->Err_0@ == error && rest == left,
    }
}

/// As [`reads_as`], for a read that gives bytes.
pub open spec fn reads_bytes_as(
    expected: Parsed<Seq<u8>>,
    r: Result<Vec<u8>, Error>,
    rest: Seq<u8>,
) -> bool {
    match expected {
        Parsed::Done { value, rest: left } => r matches Ok(v) && v@ == value && rest == left,
        Parsed::Failed { error, left } => r is Err && r->Err_0@ == error && rest == left,
    }
}

// ---------------------------------------------------------------------------
// Readers
// ---------------------------------------------------------------------------

/// Implementations defined how different numbers and binary structures are
/// read from an underlying stream or container (depending on implementation).
pub trait Reader {
    /// The bytes that have not been read yet.
    spec fn remaining(&self) -> Seq<u8>;

    /// The most bytes that one read of raw bytes may ask for.
    spec fn read_limit(&self) -> nat;

    /// Read a u8 from the underlying Read
    fn read_u8(&mut self) -> (r: Result<u8, Error>)
        ensures
            final(self).read_limit() == old(self).read_limit(),
            reads_as(take_u8(old(self).remaining()), r, final(self).remaining()),
    ;

    /// Read a u16 from the underlying Read
    fn read_u16(&mut self) -> (r: Result<u16, Error>)
        ensures
            final(self).read_limit() == old(self).read_limit(),
            reads_as(take_u16(old(self).remaining()), r, final(self).remaining()),
    ;

    /// Read a u32 from the underlying Read
    fn read_u32(&mut self) -> (r: Result<u32, Error>)
        ensures
            final(self).read_limit() == old(self).read_limit(),
            reads_as(take_u32(old(self).remaining()), r, final(self).remaining()),
    ;

    /// Read a u64 from the underlying Read
    fn read_u64(&mut self) -> (r: Result<u64, Error>)
        ensures
            final(self).read_limit() == old(self).read_limit(),
            reads_as(take_u64(old(self).remaining()), r, final(self).remaining()),
    ;

    /// Read a i32 from the underlying Read
    fn read_i32(&mut self) -> (r: Result<i32, Error>)
        ensures
            final(self).read_limit() == old(self).read_limit(),
            reads_as(take_i32(old(self).remaining()), r, final(self).remaining()),
    ;

    /// Read a i64 from the underlying Read
    fn read_i64(&mut self) -> (r: Result<i64, Error>)
        ensures
            final(self).read_limit() == old(self).read_limit(),
            reads_as(take_i64(old(self).remaining()), r, final(self).remaining()),
    ;

    /// Read a u64 len prefix followed by that number of exact bytes.
    fn read_bytes_len_prefix(&mut self) -> (r: Result<Vec<u8>, Error>)
        ensures
            final(self).read_limit() == old(self).read_limit(),
            reads_bytes_as(
                take_len_prefixed(old(self).remaining(), old(self).read_limit()),
                r,
                final(self).remaining(),
            ),
    ;

    /// Read a fixed number of bytes from the underlying reader.
    fn read_fixed_bytes(&mut self, length: usize) -> (r: Result<Vec<u8>, Error>)
        ensures
            final(self).read_limit() == old(self).read_limit(),
            reads_bytes_as(
                take_fixed(old(self).remaining(), length as nat, old(self).read_limit()),
                r,
                final(self).remaining(),
            ),
    ;

    /// Consumes a byte from the reader, producing an error if it doesn't have
    /// the expected value
    fn expect_u8(&mut self, val: u8) -> (r: Result<u8, Error>)
        ensures
            final(self).read_limit() == old(self).read_limit(),
            reads_as(take_expected_u8(old(self).remaining(), val), r, final(self).remaining()),
    ;
}

/// Utility to read from a binary source
pub struct BinReader<'a> {
    source: &'a [u8],
    pos: usize,
}

impl<'a> BinReader<'a> {
    #[verifier::type_invariant]
    spec fn inv(self) -> bool {
        self.pos <= self.source@.len()
    }

    /// Constructor for a new BinReader for the provided source.
    pub fn new(source: &'a [u8]) -> (reader: BinReader<'a>)
        ensures
            reader.remaining() == source@,
            reader.read_limit() == MAX_READ_LEN,
    {
        BinReader { source, pos: 0 }
    }

    /// The next `len` bytes, if that many are left.
    fn take(&mut self, len: usize) -> (r: Option<&'a [u8]>)
        ensures
            final(self).read_limit() == old(self).read_limit(),
            ({
                let before = old(self).remaining();
                if before.len() < len {
                    r is None && final(self).remaining() == before
                } else {
                    &&& r is Some
                    &&& r->0@ == before.take(len as int)
                    &&& final(self).remaining() == before.skip(len as int)
                }
            }),
    {
        proof {
            use_type_invariant(&*self);
        }
        if self.source.len() - self.pos < len {
            None
        } else {
            let s = slice_subrange(self.source, self.pos, self.pos + len);
            self.pos = self.pos + len;
            Some(s)
        }
    }
}

impl<'a> Reader for BinReader<'a> {
    closed spec fn remaining(&self) -> Seq<u8> {
        self.source@.skip(self.pos as int)
    }

    open spec fn read_limit(&self) -> nat {
        MAX_READ_LEN as nat
    }

    fn read_u8(&mut self) -> (r: Result<u8, Error>) {
        match self.take(1) {
            Some(s) => Ok(s[0]),
            None => Err(Error::unexpected_eof()),
        }
    }

    fn read_u16(&mut self) -> (r: Result<u16, Error>) {
        match self.take(2) {
            Some(s) => Ok(read_u16_be(s)),
            None => Err(Error::unexpected_eof()),
        }
    }

    fn read_u32(&mut self) -> (r: Result<u32, Error>) {
        match self.take(4) {
            Some(s) => Ok(read_u32_be(s)),
            None => Err(Error::unexpected_eof()),
        }
    }

    fn read_u64(&mut self) -> (r: Result<u64, Error>) {
        match self.take(8) {
            Some(s) => Ok(read_u64_be(s)),
            None => Err(Error::unexpected_eof()),
        }
    }

    fn read_i32(&mut self) -> (r: Result<i32, Error>) {
        match self.take(4) {
            Some(s) => Ok(read_i32_be(s)),
            None => Err(Error::unexpected_eof()),
        }
    }

    fn read_i64(&mut self) -> (r: Result<i64, Error>) {
        match self.take(8) {
            Some(s) => Ok(read_i64_be(s)),
            None => Err(Error::unexpected_eof()),
        }
    }

    /// Read a variable size vector from the underlying Read. Expects a usize
    fn read_bytes_len_prefix(&mut self) -> (r: Result<Vec<u8>, Error>) {
        let len = match self.take(8) {
            Some(s) => read_u64_be(s),
            None => {
                return Err(Error::unexpected_eof());
            },
        };
        if len > MAX_READ_LEN as u64 {
            return Err(Error::TooLargeReadErr);
        }
        let ghost after_len = self.remaining();
        match self.take(len as usize) {
            Some(s) => {
                proof {
                    let b = old(self).remaining();
                    assert(after_len.take(len as int) =~= b.subrange(8, 8 + len));
                    assert(after_len.skip(len as int) =~= b.skip(8 + len));
                }
                Ok(copy_bytes(s))
            },
            None => Err(Error::CorruptedData),
        }
    }

    /// Read a fixed number of bytes.
    fn read_fixed_bytes(&mut self, len: usize) -> (r: Result<Vec<u8>, Error>) {
        // not reading more than 4M bytes in a single read
        if len > MAX_READ_LEN {
            return Err(Error::TooLargeReadErr);
        }
        match self.take(len) {
            Some(s) => Ok(copy_bytes(s)),
            None => Err(Error::unexpected_eof()),
        }
    }

    fn expect_u8(&mut self, val: u8) -> (r: Result<u8, Error>) {
        let b = self.read_u8()?;
        if b == val {
            Ok(b)
        } else {
            let expected = vec![val];
            let received = vec![b];
            assert(expected@ =~= seq![val]);
            assert(received@ =~= seq![b]);
            Err(Error::UnexpectedData { expected, received })
        }
    }
}

/// A reader that reads straight off a stream.
/// Tracks total bytes read so we can verify we read the right number afterwards.
pub struct StreamingReader<'a> {
    total_bytes_read: u64,
    stream: &'a [u8],
    pos: usize,
}

impl<'a> StreamingReader<'a> {
    #[verifier::type_invariant]
    spec fn inv(self) -> bool {
        &&& self.pos <= self.stream@.len()
        &&& self.total_bytes_read <= 2 * self.pos
        &&& 2 * self.stream@.len() <= u64::MAX
    }

    /// Create a new streaming reader with the provided underlying stream.
    /// The count of bytes read is kept in a `u64` and a length prefix counts
    /// twice, so the stream may hold at most half of `u64::MAX` bytes.
    pub fn new(stream: &'a [u8]) -> (reader: StreamingReader<'a>)
        requires
            2 * stream@.len() <= u64::MAX,
        ensures
            reader.remaining() == stream@,
            reader.read_limit() == usize::MAX,
            reader.spec_total_bytes_read() == 0,
    {
        StreamingReader { total_bytes_read: 0, stream, pos: 0 }
    }

    /// The count that [`Self::total_bytes_read`] returns.
    pub closed spec fn spec_total_bytes_read(&self) -> u64 {
        self.total_bytes_read
    }

    /// Returns the total bytes read via this streaming reader.
    pub fn total_bytes_read(&self) -> (n: u64)
        ensures
            n == self.spec_total_bytes_read(),
    {
        self.total_bytes_read
    }

    /// The next `len` bytes, if that many are left; they count as read, and
    /// twice over where `twice` is set.
    fn take(&mut self, len: usize, twice: bool) -> (r: Option<&'a [u8]>)
        ensures
            final(self).read_limit() == old(self).read_limit(),
            ({
                let before = old(self).remaining();
                let counted = old(self).spec_total_bytes_read();
                if before.len() < len {
                    &&& r is None
                    &&& final(self).remaining() == before
                    &&& final(self).spec_total_bytes_read() == counted
                } else {
                    &&& r is Some
                    &&& r->0@ == before.take(len as int)
                    &&& final(self).remaining() == before.skip(len as int)
                    &&& final(self).spec_total_bytes_read() == counted + (if twice {
                        2 * len
                    } else {
                        len as int
                    })
                }
            }),
    {
        proof {
            use_type_invariant(&*self);
        }
        if self.stream.len() - self.pos < len {
            None
        } else {
            let s = slice_subrange(self.stream, self.pos, self.pos + len);
            let counted: u64 = if twice {
                len as u64 + len as u64
            } else {
                len as u64
            };
            self.pos = self.pos + len;
            self.total_bytes_read = self.total_bytes_read + counted;
            Some(s)
        }
    }
}

/// Every read goes through one path that takes the bytes and counts them.
/// A read that fails at an early end counts nothing. A byte that was read
/// counts also where it is not the one expected, and the length of a
/// length-prefixed read counts, twice over, also where the bytes behind it
/// are refused or missing.
impl<'a> Reader for StreamingReader<'a> {
    closed spec fn remaining(&self) -> Seq<u8> {
        self.stream@.skip(self.pos as int)
    }

    open spec fn read_limit(&self) -> nat {
        usize::MAX as nat
    }

    fn read_u8(&mut self) -> (r: Result<u8, Error>)
        ensures
            final(self).spec_total_bytes_read() == old(self).spec_total_bytes_read() + (if r is Ok {
                1int
            } else {
                0int
            }),
    {
        match self.take(1, false) {
            Some(s) => Ok(s[0]),
            None => Err(Error::unexpected_eof()),
        }
    }

    fn read_u16(&mut self) -> (r: Result<u16, Error>)
        ensures
            final(self).spec_total_bytes_read() == old(self).spec_total_bytes_read() + (if r is Ok {
                2int
            } else {
                0int
            }),
    {
        match self.take(2, false) {
            Some(s) => Ok(read_u16_be(s)),
            None => Err(Error::unexpected_eof()),
        }
    }

    fn read_u32(&mut self) -> (r: Result<u32, Error>)
        ensures
            final(self).spec_total_bytes_read() == old(self).spec_total_bytes_read() + (if r is Ok {
                4int
            } else {
                0int
            }),
    {
        match self.take(4, false) {
            Some(s) => Ok(read_u32_be(s)),
            None => Err(Error::unexpected_eof()),
        }
    }

    fn read_u64(&mut self) -> (r: Result<u64, Error>)
        ensures
            final(self).spec_total_bytes_read() == old(self).spec_total_bytes_read() + (if r is Ok {
                8int
            } else {
                0int
            }),
    {
        match self.take(8, false) {
            Some(s) => Ok(read_u64_be(s)),
            None => Err(Error::unexpected_eof()),
        }
    }

    fn read_i32(&mut self) -> (r: Result<i32, Error>)
        ensures
            final(self).spec_total_bytes_read() == old(self).spec_total_bytes_read() + (if r is Ok {
                4int
            } else {
                0int
            }),
    {
        match self.take(4, false) {
            Some(s) => Ok(read_i32_be(s)),
            None => Err(Error::unexpected_eof()),
        }
    }

    fn read_i64(&mut self) -> (r: Result<i64, Error>)
        ensures
            final(self).spec_total_bytes_read() == old(self).spec_total_bytes_read() + (if r is Ok {
                8int
            } else {
                0int
            }),
    {
        match self.take(8, false) {
            Some(s) => Ok(read_i64_be(s)),
            None => Err(Error::unexpected_eof()),
        }
    }

    /// Read a variable size vector from the underlying stream. Expects a usize.
    /// The eight bytes of the length are counted twice.
    fn read_bytes_len_prefix(&mut self) -> (r: Result<Vec<u8>, Error>)
        ensures
            final(self).spec_total_bytes_read() == old(self).spec_total_bytes_read() + (if r is Ok {
                16 + r->Ok_0@.len() as int
            } else if old(self).remaining().len() < 8 {
                0int
            } else {
                16int
            }),
    {
        let len = match self.take(8, true) {
            Some(s) => read_u64_be(s),
            None => {
                return Err(Error::unexpected_eof());
            },
        };
        if len > usize::MAX as u64 {
            return Err(Error::TooLargeReadErr);
        }
        let ghost after_len = self.remaining();
        match self.take(len as usize, false) {
            Some(s) => {
                proof {
                    let b = old(self).remaining();
                    assert(after_len.take(len as int) =~= b.subrange(8, 8 + len));
                    assert(after_len.skip(len as int) =~= b.skip(8 + len));
                }
                Ok(copy_bytes(s))
            },
            None => Err(Error::CorruptedData),
        }
    }

    /// Read a fixed number of bytes.
    fn read_fixed_bytes(&mut self, len: usize) -> (r: Result<Vec<u8>, Error>)
        ensures
            final(self).spec_total_bytes_read() == old(self).spec_total_bytes_read() + (if r is Ok {
                len as int
            } else {
                0int
            }),
    {
        match self.take(len, false) {
            Some(s) => Ok(copy_bytes(s)),
            None => Err(Error::unexpected_eof()),
        }
    }

    fn expect_u8(&mut self, val: u8) -> (r: Result<u8, Error>)
        ensures
            final(self).spec_total_bytes_read() == old(self).spec_total_bytes_read() + (if old(
                self,
            ).remaining().len() < 1 {
                0int
            } else {
                1int
            }),
    {
        let b = self.read_u8()?;
        if b == val {
            Ok(b)
        } else {
            let expected = vec![val];
            let received = vec![b];
            assert(expected@ =~= seq![val]);
            assert(received@ =~= seq![b]);
            Err(Error::UnexpectedData { expected, received })
        }
    }
}

// ---------------------------------------------------------------------------
// Writers
// ---------------------------------------------------------------------------

/// Useful marker trait on types that can be sized byte slices
pub trait AsFixedBytes: Sized {
    /// The bytes that the value stands for.
    spec fn bytes(&self) -> Seq<u8>;

    /// The bytes that the value stands for.
    fn as_ref(&self) -> (r: &[u8])
        ensures
            r@ == self.bytes(),
    ;

    /// The length that the value reports.
    spec fn reported_len(&self) -> usize;

    /// The length in bytes
    fn len(&self) -> (n: usize)
        ensures
            n == self.reported_len(),
    ;
}

/// Implementations defined how different numbers and binary structures are
/// written to an underlying stream or container (depending on implementation).
pub trait Writer {
    /// Everything that has been written so far.
    spec fn written(&self) -> Seq<u8>;

    /// Whether every write succeeds, as it does where the bytes go to memory.
    spec fn infallible(&self) -> bool;

    /// The mode that the writer writes in.
    spec fn mode(&self) -> SerializationMode;

    /// The mode this serializer is writing in
    fn serialization_mode(&self) -> (mode: SerializationMode)
        ensures
            mode == self.mode(),
    ;

    /// Writes a u8 as bytes
    fn write_u8(&mut self, n: u8) -> (r: Result<(), Error>)
        ensures
            final(self).infallible() == old(self).infallible(),
            old(self).infallible() ==> r is Ok,
            r is Ok ==> final(self).written() == old(self).written() + seq![n],
    {
        let bytes = vec![n];
        assert(bytes@ =~= seq![n]);
        self.write_fixed_bytes(&bytes)
    }

    /// Writes a u16 as bytes
    fn write_u16(&mut self, n: u16) -> (r: Result<(), Error>)
        ensures
            final(self).infallible() == old(self).infallible(),
            old(self).infallible() ==> r is Ok,
            r is Ok ==> final(self).written() == old(self).written() + be_bytes_u16(n),
    {
        let bytes = write_u16_be(n);
        self.write_fixed_bytes(&bytes)
    }

    /// Writes a u32 as bytes
    fn write_u32(&mut self, n: u32) -> (r: Result<(), Error>)
        ensures
            final(self).infallible() == old(self).infallible(),
            old(self).infallible() ==> r is Ok,
            r is Ok ==> final(self).written() == old(self).written() + be_bytes_u32(n),
    {
        let bytes = write_u32_be(n);
        self.write_fixed_bytes(&bytes)
    }

    /// Writes a i32 as bytes
    fn write_i32(&mut self, n: i32) -> (r: Result<(), Error>)
        ensures
            final(self).infallible() == old(self).infallible(),
            old(self).infallible() ==> r is Ok,
            r is Ok ==> final(self).written() == old(self).written() + be_bytes_i32(n),
    {
        let bytes = write_i32_be(n);
        self.write_fixed_bytes(&bytes)
    }

    /// Writes a u64 as bytes
    fn write_u64(&mut self, n: u64) -> (r: Result<(), Error>)
        ensures
            final(self).infallible() == old(self).infallible(),
            old(self).infallible() ==> r is Ok,
            r is Ok ==> final(self).written() == old(self).written() + be_bytes_u64(n),
    {
        let bytes = write_u64_be(n);
        self.write_fixed_bytes(&bytes)
    }

    /// Writes a i64 as bytes
    fn write_i64(&mut self, n: i64) -> (r: Result<(), Error>)
        ensures
            final(self).infallible() == old(self).infallible(),
            old(self).infallible() ==> r is Ok,
            r is Ok ==> final(self).written() == old(self).written() + be_bytes_i64(n),
    {
        let bytes = write_i64_be(n);
        self.write_fixed_bytes(&bytes)
    }

    /// Writes a variable number of bytes. The length is encoded as a 64-bit
    /// prefix.
    fn write_bytes<T: AsFixedBytes>(&mut self, bytes: &T) -> (r: Result<(), Error>)
        ensures
            final(self).infallible() == old(self).infallible(),
            old(self).infallible() ==> r is Ok,
            r is Ok ==> final(self).written() == old(self).written() + len_prefixed(bytes.bytes()),
    {
        let ghost before = self.written();
        self.write_u64(bytes.as_ref().len() as u64)?;
        let r = self.write_fixed_bytes(bytes);
        assert(r is Ok ==> self.written() =~= before + len_prefixed(bytes.bytes()));
        r
    }

    /// Writes a fixed number of bytes from something that can turn itself into
    /// a `&[u8]`. The reader is expected to know the actual length on read.
    fn write_fixed_bytes<T: AsFixedBytes>(&mut self, fixed: &T) -> (r: Result<(), Error>)
        ensures
            final(self).infallible() == old(self).infallible(),
            old(self).infallible() ==> r is Ok,
            r is Ok ==> final(self).written() == old(self).written() + fixed.bytes(),
    ;
}

/// The bytes `b` behind their own length, itself laid out as eight bytes.
pub open spec fn len_prefixed(b: Seq<u8>) -> Seq<u8> {
    be_bytes_u64(b.len() as u64) + b
}

/// Utility wrapper for an underlying byte Writer. Defines higher level methods
/// to write numbers, byte vectors, hashes, etc.
pub struct BinWriter {
    sink: Vec<u8>,
}

impl BinWriter {
    /// Wraps a byte sink in a new BinWriter
    pub fn new(sink: Vec<u8>) -> (writer: BinWriter)
        ensures
            writer.written() == sink@,
            writer.infallible(),
    {
        BinWriter { sink }
    }

    /// Constructor for BinWriter with default "local" protocol version.
    pub fn default(sink: Vec<u8>) -> (writer: BinWriter)
        ensures
            writer.written() == sink@,
            writer.infallible(),
    {
        BinWriter::new(sink)
    }

    /// Hands the sink back, with all that was written to it.
    pub fn into_sink(self) -> (sink: Vec<u8>)
        ensures
            sink@ == self.written(),
    {
        self.sink
    }
}

impl Writer for BinWriter {
    closed spec fn written(&self) -> Seq<u8> {
        self.sink@
    }

    open spec fn infallible(&self) -> bool {
        true
    }

    open spec fn mode(&self) -> SerializationMode {
        SerializationMode::Full
    }

    fn serialization_mode(&self) -> (mode: SerializationMode) {
        SerializationMode::Full
    }

    fn write_fixed_bytes<T: AsFixedBytes>(&mut self, fixed: &T) -> (r: Result<(), Error>) {
        let bs = fixed.as_ref();
        append_bytes(&mut self.sink, bs);
        Ok(())
    }
}

impl<'a> AsFixedBytes for &'a [u8] {
    open spec fn bytes(&self) -> Seq<u8> {
        (*self)@
    }

    fn as_ref(&self) -> (r: &[u8]) {
        *self
    }

    /// A borrowed slice reports one byte, whatever it holds.
    open spec fn reported_len(&self) -> usize {
        1
    }

    fn len(&self) -> (n: usize) {
        1
    }
}

impl AsFixedBytes for Vec<u8> {
    open spec fn bytes(&self) -> Seq<u8> {
        self@
    }

    fn as_ref(&self) -> (r: &[u8]) {
        self.as_slice()
    }

    open spec fn reported_len(&self) -> usize {
        self@.len() as usize
    }

    fn len(&self) -> (n: usize) {
        self.len()
    }
}

impl AsFixedBytes for String {
    open spec fn bytes(&self) -> Seq<u8> {
        encode_utf8(self@)
    }

    fn as_ref(&self) -> (r: &[u8]) {
        self.as_str().as_bytes()
    }

    open spec fn reported_len(&self) -> usize {
        encode_utf8(self@).len() as usize
    }

    fn len(&self) -> (n: usize) {
        self.as_str().as_bytes().len()
    }
}

impl AsFixedBytes for [u8; 1] {
    open spec fn bytes(&self) -> Seq<u8> {
        self@
    }

    fn as_ref(&self) -> (r: &[u8]) {
        self.as_slice()
    }

    open spec fn reported_len(&self) -> usize {
        1
    }

    fn len(&self) -> (n: usize) {
        1
    }
}

impl AsFixedBytes for [u8; 2] {
    open spec fn bytes(&self) -> Seq<u8> {
        self@
    }

    fn as_ref(&self) -> (r: &[u8]) {
        self.as_slice()
    }

    open spec fn reported_len(&self) -> usize {
        2
    }

    fn len(&self) -> (n: usize) {
        2
    }
}

impl AsFixedBytes for [u8; 4] {
    open spec fn bytes(&self) -> Seq<u8> {
        self@
    }

    fn as_ref(&self) -> (r: &[u8]) {
        self.as_slice()
    }

    open spec fn reported_len(&self) -> usize {
        4
    }

    fn len(&self) -> (n: usize) {
        4
    }
}

impl AsFixedBytes for [u8; 6] {
    open spec fn bytes(&self) -> Seq<u8> {
        self@
    }

    fn as_ref(&self) -> (r: &[u8]) {
        self.as_slice()
    }

    open spec fn reported_len(&self) -> usize {
        6
    }

    fn len(&self) -> (n: usize) {
        6
    }
}

impl AsFixedBytes for [u8; 8] {
    open spec fn bytes(&self) -> Seq<u8> {
        self@
    }

    fn as_ref(&self) -> (r: &[u8]) {
        self.as_slice()
    }

    open spec fn reported_len(&self) -> usize {
        8
    }

    fn len(&self) -> (n: usize) {
        8
    }
}

impl AsFixedBytes for [u8; 20] {
    open spec fn bytes(&self) -> Seq<u8> {
        self@
    }

    fn as_ref(&self) -> (r: &[u8]) {
        self.as_slice()
    }

    open spec fn reported_len(&self) -> usize {
        20
    }

    fn len(&self) -> (n: usize) {
        20
    }
}

impl AsFixedBytes for [u8; 32] {
    open spec fn bytes(&self) -> Seq<u8> {
        self@
    }

    fn as_ref(&self) -> (r: &[u8]) {
        self.as_slice()
    }

    open spec fn reported_len(&self) -> usize {
        32
    }

    fn len(&self) -> (n: usize) {
        32
    }
}

/// Trait for types that serialize to a known fixed length.
pub trait FixedLength {
    /// The length in bytes
    const LEN: usize;
}

// ---------------------------------------------------------------------------
// Values that can be written and read
// ---------------------------------------------------------------------------

/// Trait that every type that can be serialized as binary must implement.
/// Writes directly to a Writer, a utility type thinly wrapping an
/// underlying Write implementation.
pub trait Writeable: DeepView {
    /// The bytes that stand for a value.
    spec fn encoding(v: <Self as DeepView>::V) -> Seq<u8>;

    /// Write the data held by this Writeable to the provided writer
    fn write<W: Writer>(&self, writer: &mut W) -> (r: Result<(), Error>)
        ensures
            final(writer).infallible() == old(writer).infallible(),
            old(writer).infallible() ==> r is Ok,
            r is Ok ==> final(writer).written() == old(writer).written() + Self::encoding(
                self.deep_view(),
            ),
    ;
}

/// A read gave `r` and left `rest` unread, as `expected` says it must, the value
/// taken by its view.
pub open spec fn reads_value_as<T: DeepView>(
    expected: Parsed<T::V>,
    r: Result<T, Error>,
    rest: Seq<u8>,
) -> bool {
    match expected {
        Parsed::Done { value, rest: left } => r is Ok && r->Ok_0.deep_view() == value && rest
            == left,
        Parsed::Failed { error, left } => r is Err && r->Err_0@ == error && rest == left,
    }
}

/// Trait that every type that can be deserialized from binary must implement.
/// Reads directly to a Reader, a utility type thinly wrapping an
/// underlying Read implementation.
pub trait Readable: Sized + DeepView {
    /// What reading one value from the front of `bytes` gives, where one read
    /// of raw bytes may ask for `limit` bytes at most.
    spec fn parse(bytes: Seq<u8>, limit: nat) -> Parsed<<Self as DeepView>::V>;

    /// A value takes up at least one byte.
    proof fn lemma_parse_advances(bytes: Seq<u8>, limit: nat)
        ensures
            Self::parse(bytes, limit) is Done ==> Self::parse(bytes, limit)->rest.len()
                < bytes.len(),
    ;

    /// Reads the data necessary to this Readable from the provided reader
    fn read<R: Reader>(reader: &mut R) -> (r: Result<Self, Error>)
        ensures
            final(reader).read_limit() == old(reader).read_limit(),
            reads_value_as::<Self>(
                Self::parse(old(reader).remaining(), old(reader).read_limit()),
                r,
                final(reader).remaining(),
            ),
    ;
}

impl Writeable for u8 {
    open spec fn encoding(v: u8) -> Seq<u8> {
        seq![v]
    }

    fn write<W: Writer>(&self, writer: &mut W) -> (r: Result<(), Error>) {
        writer.write_u8(*self)
    }
}

impl Readable for u8 {
    open spec fn parse(bytes: Seq<u8>, limit: nat) -> Parsed<u8> {
        take_u8(bytes)
    }

    proof fn lemma_parse_advances(bytes: Seq<u8>, limit: nat) {
    }

    fn read<R: Reader>(reader: &mut R) -> (r: Result<u8, Error>) {
        reader.read_u8()
    }
}

impl Writeable for u16 {
    open spec fn encoding(v: u16) -> Seq<u8> {
        be_bytes_u16(v)
    }

    fn write<W: Writer>(&self, writer: &mut W) -> (r: Result<(), Error>) {
        writer.write_u16(*self)
    }
}

impl Readable for u16 {
    open spec fn parse(bytes: Seq<u8>, limit: nat) -> Parsed<u16> {
        take_u16(bytes)
    }

    proof fn lemma_parse_advances(bytes: Seq<u8>, limit: nat) {
    }

    fn read<R: Reader>(reader: &mut R) -> (r: Result<u16, Error>) {
        reader.read_u16()
    }
}

impl Writeable for u32 {
    open spec fn encoding(v: u32) -> Seq<u8> {
        be_bytes_u32(v)
    }

    fn write<W: Writer>(&self, writer: &mut W) -> (r: Result<(), Error>) {
        writer.write_u32(*self)
    }
}

impl Readable for u32 {
    open spec fn parse(bytes: Seq<u8>, limit: nat) -> Parsed<u32> {
        take_u32(bytes)
    }

    proof fn lemma_parse_advances(bytes: Seq<u8>, limit: nat) {
    }

    fn read<R: Reader>(reader: &mut R) -> (r: Result<u32, Error>) {
        reader.read_u32()
    }
}

impl Writeable for i32 {
    open spec fn encoding(v: i32) -> Seq<u8> {
        be_bytes_i32(v)
    }

    fn write<W: Writer>(&self, writer: &mut W) -> (r: Result<(), Error>) {
        writer.write_i32(*self)
    }
}

impl Readable for i32 {
    open spec fn parse(bytes: Seq<u8>, limit: nat) -> Parsed<i32> {
        take_i32(bytes)
    }

    proof fn lemma_parse_advances(bytes: Seq<u8>, limit: nat) {
    }

    fn read<R: Reader>(reader: &mut R) -> (r: Result<i32, Error>) {
        reader.read_i32()
    }
}

impl Writeable for u64 {
    open spec fn encoding(v: u64) -> Seq<u8> {
        be_bytes_u64(v)
    }

    fn write<W: Writer>(&self, writer: &mut W) -> (r: Result<(), Error>) {
        writer.write_u64(*self)
    }
}

impl Readable for u64 {
    open spec fn parse(bytes: Seq<u8>, limit: nat) -> Parsed<u64> {
        take_u64(bytes)
    }

    proof fn lemma_parse_advances(bytes: Seq<u8>, limit: nat) {
    }

    fn read<R: Reader>(reader: &mut R) -> (r: Result<u64, Error>) {
        reader.read_u64()
    }
}

impl Writeable for i64 {
    open spec fn encoding(v: i64) -> Seq<u8> {
        be_bytes_i64(v)
    }

    fn write<W: Writer>(&self, writer: &mut W) -> (r: Result<(), Error>) {
        writer.write_i64(*self)
    }
}

impl Readable for i64 {
    open spec fn parse(bytes: Seq<u8>, limit: nat) -> Parsed<i64> {
        take_i64(bytes)
    }

    proof fn lemma_parse_advances(bytes: Seq<u8>, limit: nat) {
    }

    fn read<R: Reader>(reader: &mut R) -> (r: Result<i64, Error>) {
        reader.read_i64()
    }
}

impl<'a, A: Writeable> Writeable for &'a A {
    open spec fn encoding(v: A::V) -> Seq<u8> {
        A::encoding(v)
    }

    fn write<W: Writer>(&self, writer: &mut W) -> (r: Result<(), Error>) {
        Writeable::write(*self, writer)
    }
}

impl<A: Writeable, B: Writeable> Writeable for (A, B) {
    open spec fn encoding(v: (A::V, B::V)) -> Seq<u8> {
        A::encoding(v.0) + B::encoding(v.1)
    }

    fn write<W: Writer>(&self, writer: &mut W) -> (r: Result<(), Error>) {
        let ghost before = writer.written();
        Writeable::write(&self.0, writer)?;
        let r = Writeable::write(&self.1, writer);
        assert(r is Ok ==> writer.written() =~= before + Self::encoding(self.deep_view()));
        r
    }
}

impl<A: Readable, B: Readable> Readable for (A, B) {
    open spec fn parse(bytes: Seq<u8>, limit: nat) -> Parsed<(A::V, B::V)> {
        match A::parse(bytes, limit) {
            Parsed::Failed { error, left } => Parsed::Failed { error, left },
            Parsed::Done { value: a, rest } => match B::parse(rest, limit) {
                Parsed::Failed { error, left } => Parsed::Failed { error, left },
                Parsed::Done { value: b, rest } => Parsed::Done { value: (a, b), rest },
            },
        }
    }

    proof fn lemma_parse_advances(bytes: Seq<u8>, limit: nat) {
        A::lemma_parse_advances(bytes, limit);
        if A::parse(bytes, limit) is Done {
            B::lemma_parse_advances(A::parse(bytes, limit)->rest, limit);
        }
    }

    fn read<R: Reader>(reader: &mut R) -> (r: Result<(A, B), Error>) {
        let a: A = Readable::read(reader)?;
        let b: B = Readable::read(reader)?;
        Ok((a, b))
    }
}

impl<A: Writeable, B: Writeable, C: Writeable> Writeable for (A, B, C) {
    open spec fn encoding(v: (A::V, B::V, C::V)) -> Seq<u8> {
        A::encoding(v.0) + B::encoding(v.1) + C::encoding(v.2)
    }

    fn write<W: Writer>(&self, writer: &mut W) -> (r: Result<(), Error>) {
        let ghost before = writer.written();
        Writeable::write(&self.0, writer)?;
        Writeable::write(&self.1, writer)?;
        let r = Writeable::write(&self.2, writer);
        assert(r is Ok ==> writer.written() =~= before + Self::encoding(self.deep_view()));
        r
    }
}

impl<A: Writeable, B: Writeable, C: Writeable, D: Writeable> Writeable for (A, B, C, D) {
    open spec fn encoding(v: (A::V, B::V, C::V, D::V)) -> Seq<u8> {
        A::encoding(v.0) + B::encoding(v.1) + C::encoding(v.2) + D::encoding(v.3)
    }

    fn write<W: Writer>(&self, writer: &mut W) -> (r: Result<(), Error>) {
        let ghost before = writer.written();
        Writeable::write(&self.0, writer)?;
        Writeable::write(&self.1, writer)?;
        Writeable::write(&self.2, writer)?;
        let r = Writeable::write(&self.3, writer);
        assert(r is Ok ==> writer.written() =~= before + Self::encoding(self.deep_view()));
        r
    }
}

impl<A: Readable, B: Readable, C: Readable> Readable for (A, B, C) {
    open spec fn parse(bytes: Seq<u8>, limit: nat) -> Parsed<(A::V, B::V, C::V)> {
        match A::parse(bytes, limit) {
            Parsed::Failed { error, left } => Parsed::Failed { error, left },
            Parsed::Done { value: a, rest } => match B::parse(rest, limit) {
                Parsed::Failed { error, left } => Parsed::Failed { error, left },
                Parsed::Done { value: b, rest } => match C::parse(rest, limit) {
                    Parsed::Failed { error, left } => Parsed::Failed { error, left },
                    Parsed::Done { value: c, rest } => Parsed::Done { value: (a, b, c), rest },
                },
            },
        }
    }

    proof fn lemma_parse_advances(bytes: Seq<u8>, limit: nat) {
        A::lemma_parse_advances(bytes, limit);
        if A::parse(bytes, limit) is Done {
            let r1 = A::parse(bytes, limit)->rest;
            B::lemma_parse_advances(r1, limit);
            if B::parse(r1, limit) is Done {
                C::lemma_parse_advances(B::parse(r1, limit)->rest, limit);
            }
        }
    }

    fn read<R: Reader>(reader: &mut R) -> (r: Result<(A, B, C), Error>) {
        let a: A = Readable::read(reader)?;
        let b: B = Readable::read(reader)?;
        let c: C = Readable::read(reader)?;
        Ok((a, b, c))
    }
}

impl<A: Readable, B: Readable, C: Readable, D: Readable> Readable for (A, B, C, D) {
    open spec fn parse(bytes: Seq<u8>, limit: nat) -> Parsed<(A::V, B::V, C::V, D::V)> {
        match A::parse(bytes, limit) {
            Parsed::Failed { error, left } => Parsed::Failed { error, left },
            Parsed::Done { value: a, rest } => match B::parse(rest, limit) {
                Parsed::Failed { error, left } => Parsed::Failed { error, left },
                Parsed::Done { value: b, rest } => match C::parse(rest, limit) {
                    Parsed::Failed { error, left } => Parsed::Failed { error, left },
                    Parsed::Done { value: c, rest } => match D::parse(rest, limit) {
                        Parsed::Failed { error, left } => Parsed::Failed { error, left },
                        Parsed::Done { value: d, rest } => Parsed::Done {
                            value: (a, b, c, d),
                            rest,
                        },
                    },
                },
            },
        }
    }

    proof fn lemma_parse_advances(bytes: Seq<u8>, limit: nat) {
        A::lemma_parse_advances(bytes, limit);
        if A::parse(bytes, limit) is Done {
            let r1 = A::parse(bytes, limit)->rest;
            B::lemma_parse_advances(r1, limit);
            if B::parse(r1, limit) is Done {
                let r2 = B::parse(r1, limit)->rest;
                C::lemma_parse_advances(r2, limit);
                if C::parse(r2, limit) is Done {
                    D::lemma_parse_advances(C::parse(r2, limit)->rest, limit);
                }
            }
        }
    }

    fn read<R: Reader>(reader: &mut R) -> (r: Result<(A, B, C, D), Error>) {
        let a: A = Readable::read(reader)?;
        let b: B = Readable::read(reader)?;
        let c: C = Readable::read(reader)?;
        let d: D = Readable::read(reader)?;
        Ok((a, b, c, d))
    }
}

impl Writeable for [u8; 4] {
    open spec fn encoding(v: Seq<u8>) -> Seq<u8> {
        len_prefixed(v)
    }

    fn write<W: Writer>(&self, writer: &mut W) -> (r: Result<(), Error>) {
        assert(self.deep_view() =~= self@);
        writer.write_bytes(self)
    }
}

/// The encodings of the items of `items`, one after the other.
pub open spec fn encoding_of_all<T: Writeable>(items: Seq<T::V>) -> Seq<u8>
    decreases items.len(),
{
    if items.len() == 0 {
        Seq::empty()
    } else {
        encoding_of_all::<T>(items.drop_last()) + T::encoding(items.last())
    }
}

impl<T: Writeable> Writeable for Vec<T> {
    open spec fn encoding(v: Seq<T::V>) -> Seq<u8> {
        encoding_of_all::<T>(v)
    }

    fn write<W: Writer>(&self, writer: &mut W) -> (r: Result<(), Error>) {
        let ghost before = writer.written();
        let ghost items = self.deep_view();
        let mut i: usize = 0;
        while i < self.len()
            invariant
                i <= self@.len(),
                items == self.deep_view(),
                writer.infallible() == old(writer).infallible(),
                before == old(writer).written(),
                writer.written() == before + encoding_of_all::<T>(items.take(i as int)),
            decreases self@.len() - i,
        {
            self[i].write(writer)?;
            proof {
                assert(items.take(i + 1).drop_last() =~= items.take(i as int));
                assert(items.take(i + 1).last() == self@[i as int].deep_view());
                assert(writer.written() =~= before + encoding_of_all::<T>(items.take(i + 1)));
            }
            i = i + 1;
        }
        assert(items.take(i as int) =~= items);
        Ok(())
    }
}

// ---------------------------------------------------------------------------
// Reading several values
// ---------------------------------------------------------------------------

/// The items `first` in front of those that `more` found, where it found any.
pub open spec fn items_after<V>(first: Seq<V>, more: Parsed<Seq<V>>) -> Parsed<Seq<V>> {
    match more {
        Parsed::Failed { error, left } => Parsed::Failed { error, left },
        Parsed::Done { value, rest } => Parsed::Done { value: first + value, rest },
    }
}

/// What reading `count` values one after the other from the front of `bytes`
/// gives: the values and the bytes that follow them; or, where one of the
/// reads fails, a count error and what that read left unread.
pub open spec fn parse_count<T: Readable>(bytes: Seq<u8>, limit: nat, count: nat) -> Parsed<
    Seq<T::V>,
>
    decreases count,
{
    if count == 0 {
        Parsed::Done { value: Seq::empty(), rest: bytes }
    } else {
        match T::parse(bytes, limit) {
            Parsed::Failed { left, .. } => Parsed::Failed { error: ErrorView::CountError, left },
            Parsed::Done { value, rest } => items_after(
                seq![value],
                parse_count::<T>(rest, limit, (count - 1) as nat),
            ),
        }
    }
}

/// What reading values from `bytes` until they run out gives. The list ends
/// where a read meets the end of the input, also in the middle of a value,
/// and what that read left is what is left of the whole; any other failure
/// is the failure of the whole.
pub open spec fn parse_until_end<T: Readable>(bytes: Seq<u8>, limit: nat) -> Parsed<Seq<T::V>>
    decreases bytes.len(),
{
    match T::parse(bytes, limit) {
        Parsed::Failed { error, left } => if Error::spec_is_eof(error) {
            Parsed::Done { value: Seq::empty(), rest: left }
        } else {
            Parsed::Failed { error, left }
        },
        Parsed::Done { value, rest } => if rest.len() < bytes.len() {
            items_after(seq![value], parse_until_end::<T>(rest, limit))
        } else {
            Parsed::Done { value: seq![value], rest }
        },
    }
}

/// Reads multiple serialized items into a Vec. More than a million items
/// are refused before anything is read.
pub fn read_multi<T: Readable, R: Reader>(reader: &mut R, count: u64) -> (r: Result<Vec<T>, Error>)
    ensures
        final(reader).read_limit() == old(reader).read_limit(),
        count > MAX_READ_COUNT ==> r is Err && r->Err_0@ == ErrorView::TooLargeReadErr
            && final(reader).remaining() == old(reader).remaining(),
        count <= MAX_READ_COUNT ==> reads_value_as::<Vec<T>>(
            parse_count::<T>(old(reader).remaining(), old(reader).read_limit(), count as nat),
            r,
            final(reader).remaining(),
        ),
{
    // Very rudimentary check to ensure we do not overflow anything
    // attempting to read huge amounts of data.
    if count > MAX_READ_COUNT {
        return Err(Error::TooLargeReadErr);
    }
    let ghost start = reader.remaining();
    let ghost limit = reader.read_limit();
    let mut res: Vec<T> = Vec::new();
    let mut curr: u64 = 0;
    assert(res.deep_view() =~= Seq::<T::V>::empty());
    proof {
        lemma_items_after_nothing(parse_count::<T>(start, limit, count as nat));
    }
    while curr < count
        invariant
            curr <= count,
            count <= MAX_READ_COUNT,
            res@.len() == curr,
            reader.read_limit() == limit,
            limit == old(reader).read_limit(),
            start == old(reader).remaining(),
            parse_count::<T>(start, limit, count as nat) == items_after(
                res.deep_view(),
                parse_count::<T>(reader.remaining(), limit, (count - curr) as nat),
            ),
        decreases count - curr,
    {
        let ghost before = res.deep_view();
        match T::read(reader) {
            Ok(item) => {
                res.push(item);
                proof {
                    let more = parse_count::<T>(
                        reader.remaining(),
                        limit,
                        (count - curr - 1) as nat,
                    );
                    assert(res.deep_view() =~= before + seq![item.deep_view()]);
                    lemma_items_after_twice(before, seq![item.deep_view()], more);
                }
            },
            Err(_) => {
                return Err(Error::CountError);
            },
        }
        curr = curr + 1;
    }
    assert(res.deep_view() + Seq::<T::V>::empty() =~= res.deep_view());
    Ok(res)
}

/// Nothing in front of what was found leaves it as it is.
proof fn lemma_items_after_nothing<V>(more: Parsed<Seq<V>>)
    ensures
        items_after(Seq::<V>::empty(), more) == more,
{
    if more is Done {
        assert(Seq::<V>::empty() + more->value =~= more->value);
    }
}

/// Items put in front one group after the other are put in front together.
proof fn lemma_items_after_twice<V>(first: Seq<V>, second: Seq<V>, more: Parsed<Seq<V>>)
    ensures
        items_after(first, items_after(second, more)) == items_after(first + second, more),
{
    if more is Done {
        assert(first + (second + more->value) =~= (first + second) + more->value);
    }
}

/// Reads items until the input runs out.
pub fn read_vec<T: Readable, R: Reader>(reader: &mut R) -> (r: Result<Vec<T>, Error>)
    ensures
        final(reader).read_limit() == old(reader).read_limit(),
        reads_value_as::<Vec<T>>(
            parse_until_end::<T>(old(reader).remaining(), old(reader).read_limit()),
            r,
            final(reader).remaining(),
        ),
{
    let ghost start = reader.remaining();
    let ghost limit = reader.read_limit();
    let mut buf: Vec<T> = Vec::new();
    assert(buf.deep_view() =~= Seq::<T::V>::empty());
    proof {
        lemma_items_after_nothing(parse_until_end::<T>(start, limit));
    }
    loop
        invariant
            reader.read_limit() == limit,
            limit == old(reader).read_limit(),
            start == old(reader).remaining(),
            parse_until_end::<T>(start, limit) == items_after(
                buf.deep_view(),
                parse_until_end::<T>(reader.remaining(), limit),
            ),
        decreases reader.remaining().len(),
    {
        let ghost before = buf.deep_view();
        let ghost cur = reader.remaining();
        proof {
            T::lemma_parse_advances(cur, limit);
        }
        match T::read(reader) {
            Ok(e) => {
                buf.push(e);
                proof {
                    let more = parse_until_end::<T>(reader.remaining(), limit);
                    assert(buf.deep_view() =~= before + seq![e.deep_view()]);
                    lemma_items_after_twice(before, seq![e.deep_view()], more);
                }
            },
            Err(e) => {
                if e.is_eof() {
                    assert(buf.deep_view() + Seq::<T::V>::empty() =~= buf.deep_view());
                    return Ok(buf);
                }
                return Err(e);
            },
        }
    }
}

/// Reader that hands out a given number of items one by one.
pub struct IteratingReader<R, T> {
    count: u64,
    curr: u64,
    reader: R,
    _marker: PhantomData<T>,
}

impl<R: Reader, T: Readable> IteratingReader<R, T> {
    /// The reader that the items come from.
    pub closed spec fn reader(&self) -> R {
        self.reader
    }

    /// How many items may still be asked for.
    pub closed spec fn left(&self) -> nat {
        if self.curr < self.count {
            (self.count - self.curr) as nat
        } else {
            0
        }
    }

    /// Constructor to create a new iterating reader for the provided underlying reader.
    /// Takes a count so we know how many to iterate over.
    pub fn new(reader: R, count: u64) -> (it: IteratingReader<R, T>)
        ensures
            it.reader() == reader,
            it.left() == count,
    {
        IteratingReader { count, curr: 0, reader, _marker: PhantomData }
    }

    /// The next item: none once the count is used up, and none where the
    /// read fails, which still uses up one of the count.
    pub fn next(&mut self) -> (r: Option<T>)
        ensures
            final(self).reader().read_limit() == old(self).reader().read_limit(),
            old(self).left() == 0 ==> r is None && final(self).left() == 0
                && final(self).reader().remaining() == old(self).reader().remaining(),
            old(self).left() > 0 ==> final(self).left() == old(self).left() - 1 && match T::parse(
                old(self).reader().remaining(),
                old(self).reader().read_limit(),
            ) {
                Parsed::Done { value, rest } => r is Some && r->0.deep_view() == value
                    && final(self).reader().remaining() == rest,
                Parsed::Failed { left, .. } => r is None && final(self).reader().remaining()
                    == left,
            },
    {
        if self.curr >= self.count {
            return None;
        }
        self.curr = self.curr + 1;
        match T::read(&mut self.reader) {
            Ok(item) => Some(item),
            Err(_) => None,
        }
    }

    /// Hands the underlying reader back.
    pub fn into_reader(self) -> (reader: R)
        ensures
            reader == self.reader(),
    {
        self.reader
    }
}

// ---------------------------------------------------------------------------
// Whole values to and from bytes
// ---------------------------------------------------------------------------

/// Deserializes a Readable from the front of a byte string.
pub fn deserialize<T: Readable>(source: &[u8]) -> (r: Result<T, Error>)
    ensures
        match T::parse(source@, MAX_READ_LEN as nat) {
            Parsed::Done { value, .. } => r is Ok && r->Ok_0.deep_view() == value,
            Parsed::Failed { error, .. } => r is Err && r->Err_0@ == error,
        },
{
    let mut reader = BinReader::new(source);
    T::read(&mut reader)
}

/// Deserialize a Readable based on our default "local" protocol version.
pub fn deserialize_default<T: Readable>(source: &[u8]) -> (r: Result<T, Error>)
    ensures
        match T::parse(source@, MAX_READ_LEN as nat) {
            Parsed::Done { value, .. } => r is Ok && r->Ok_0.deep_view() == value,
            Parsed::Failed { error, .. } => r is Err && r->Err_0@ == error,
        },
{
    deserialize(source)
}

/// Serializes a Writeable onto the end of a byte sink.
pub fn serialize<W: Writeable>(sink: &mut Vec<u8>, thing: &W) -> (r: Result<(), Error>)
    ensures
        r is Ok,
        final(sink)@ == old(sink)@ + W::encoding(thing.deep_view()),
{
    let mut taken: Vec<u8> = Vec::new();
    core::mem::swap(sink, &mut taken);
    let mut writer = BinWriter::new(taken);
    let r = thing.write(&mut writer);
    *sink = writer.into_sink();
    r
}

/// Serialize a Writeable according to our default "local" protocol version.
pub fn serialize_default<W: Writeable>(sink: &mut Vec<u8>, thing: &W) -> (r: Result<(), Error>)
    ensures
        r is Ok,
        final(sink)@ == old(sink)@ + W::encoding(thing.deep_view()),
{
    serialize(sink, thing)
}

/// Utility function to serialize a writeable directly in memory using a
/// Vec<u8>.
pub fn ser_vec<W: Writeable>(thing: &W) -> (r: Result<Vec<u8>, Error>)
    ensures
        r is Ok,
        r->Ok_0@ == W::encoding(thing.deep_view()),
{
    let mut vec: Vec<u8> = Vec::new();
    serialize(&mut vec, thing)?;
    assert(vec@ =~= W::encoding(thing.deep_view()));
    Ok(vec)
}

} // verus!

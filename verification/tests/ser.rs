use gotts_oracle::exchange_rate::ExchangeRateResult;
use gotts_oracle::oracle_ser::{
    deserialize, deserialize_default, read_multi, read_vec, ser_vec, serialize, serialize_default,
    AsFixedBytes, BinReader, BinWriter, Error, IoErrorKind, IteratingReader, Readable, Reader,
    SerializationMode, StreamingReader, Writeable, Writer,
};

fn rate(from: &str, to: &str, rate: f64, date: i64) -> ExchangeRateResult {
    ExchangeRateResult {
        from: from.to_string(),
        to: to.to_string(),
        rate_bits: rate.to_bits(),
        date,
    }
}

#[test]
fn writer_lays_numbers_out_big_endian() {
    let mut w = BinWriter::new(Vec::new());
    w.write_u8(0xab).unwrap();
    w.write_u16(0x0102).unwrap();
    w.write_u32(0x0304_0506).unwrap();
    w.write_i32(-2).unwrap();
    w.write_u64(0x0708_090a_0b0c_0d0e).unwrap();
    w.write_i64(-3).unwrap();
    assert_eq!(
        w.into_sink(),
        vec![
            0xab, 0x01, 0x02, 0x03, 0x04, 0x05, 0x06, 0xff, 0xff, 0xff, 0xfe, 0x07, 0x08, 0x09,
            0x0a, 0x0b, 0x0c, 0x0d, 0x0e, 0xff, 0xff, 0xff, 0xff, 0xff, 0xff, 0xff, 0xfd,
        ]
    );
}

#[test]
fn writer_prefixes_bytes_with_their_length() {
    let mut w = BinWriter::default(vec![9u8]);
    assert_eq!(w.serialization_mode(), SerializationMode::Full);
    w.write_bytes(&vec![1u8, 2, 3]).unwrap();
    w.write_fixed_bytes(&"ab".to_string()).unwrap();
    let slice: &[u8] = &[7, 8];
    w.write_fixed_bytes(&slice).unwrap();
    assert_eq!(w.into_sink(), vec![9, 0, 0, 0, 0, 0, 0, 0, 3, 1, 2, 3, b'a', b'b', 7, 8]);
}

#[test]
fn fixed_bytes_report_their_length() {
    let slice: &[u8] = &[7, 8, 9];
    assert_eq!(AsFixedBytes::len(&slice), 1);
    assert_eq!(AsFixedBytes::len(&vec![1u8, 2, 3]), 3);
    assert_eq!(AsFixedBytes::len(&"abcd".to_string()), 4);
    assert_eq!(AsFixedBytes::len(&[0u8; 1]), 1);
    assert_eq!(AsFixedBytes::len(&[0u8; 2]), 2);
    assert_eq!(AsFixedBytes::len(&[0u8; 4]), 4);
    assert_eq!(AsFixedBytes::len(&[0u8; 6]), 6);
    assert_eq!(AsFixedBytes::len(&[0u8; 8]), 8);
    assert_eq!(AsFixedBytes::len(&[0u8; 20]), 20);
    assert_eq!(AsFixedBytes::len(&[0u8; 32]), 32);
    assert_eq!(AsFixedBytes::as_ref(&[1u8, 2]), &[1u8, 2][..]);
}

#[test]
fn reader_reads_numbers_big_endian() {
    let bytes = vec![
        0xab, 0x01, 0x02, 0x03, 0x04, 0x05, 0x06, 0xff, 0xff, 0xff, 0xfe, 0x07, 0x08, 0x09, 0x0a,
        0x0b, 0x0c, 0x0d, 0x0e, 0xff, 0xff, 0xff, 0xff, 0xff, 0xff, 0xff, 0xfd,
    ];
    let mut r = BinReader::new(&bytes);
    assert_eq!(r.read_u8().unwrap(), 0xab);
    assert_eq!(r.read_u16().unwrap(), 0x0102);
    assert_eq!(r.read_u32().unwrap(), 0x0304_0506);
    assert_eq!(r.read_i32().unwrap(), -2);
    assert_eq!(r.read_u64().unwrap(), 0x0708_090a_0b0c_0d0e);
    assert_eq!(r.read_i64().unwrap(), -3);
    assert!(r.read_u8().unwrap_err().is_eof());
}

#[test]
fn reader_errors_are_told_apart() {
    let bytes = vec![0u8, 0, 0, 0, 0, 0, 0, 2, 5, 6, 7];
    let mut r = BinReader::new(&bytes);
    assert_eq!(r.read_bytes_len_prefix().unwrap(), vec![5, 6]);
    assert_eq!(
        r.expect_u8(8).unwrap_err(),
        Error::UnexpectedData { expected: vec![8], received: vec![7] }
    );
    let mut r = BinReader::new(&bytes);
    assert_eq!(r.read_fixed_bytes(4_000_001).unwrap_err(), Error::TooLargeReadErr);
    assert_eq!(
        r.read_fixed_bytes(12).unwrap_err(),
        Error::IOErr("failed to fill whole buffer".to_string(), IoErrorKind::UnexpectedEof)
    );
    assert_eq!(r.read_fixed_bytes(11).unwrap(), bytes);
    let short = vec![0u8, 0, 0, 0, 0, 0, 0, 4, 5, 6, 7];
    assert_eq!(BinReader::new(&short).read_bytes_len_prefix().unwrap_err(), Error::CorruptedData);
    let mut r = BinReader::new(&short[..7]);
    assert!(r.read_bytes_len_prefix().unwrap_err().is_eof());
    let mut r = BinReader::new(&bytes);
    assert_eq!(r.expect_u8(0).unwrap(), 0);
}

#[test]
fn error_descriptions() {
    assert_eq!(Error::CorruptedData.description(), "corrupted data");
    assert_eq!(Error::CountError.description(), "count error");
    assert_eq!(Error::TooLargeReadErr.description(), "too large read");
    assert_eq!(Error::HexError("x".to_string()).description(), "hex error");
    assert_eq!(Error::unexpected_eof().description(), "failed to fill whole buffer");
    assert_eq!(
        Error::UnexpectedData { expected: vec![1], received: vec![2] }.description(),
        "unexpected data"
    );
    assert!(!Error::IOErr("x".to_string(), IoErrorKind::Other).is_eof());
    assert_eq!(Error::CountError.clone(), Error::CountError);
    assert_ne!(Error::CountError, Error::CorruptedData);
}

#[test]
fn streaming_reader_counts_what_it_reads() {
    let bytes = vec![1u8, 0, 2, 0, 0, 0, 0, 0, 0, 0, 3, 9, 9, 9, 7];
    let mut r = StreamingReader::new(&bytes);
    assert_eq!(r.total_bytes_read(), 0);
    assert_eq!(r.read_u8().unwrap(), 1);
    assert_eq!(r.total_bytes_read(), 1);
    assert_eq!(r.read_u16().unwrap(), 2);
    assert_eq!(r.total_bytes_read(), 3);
    assert_eq!(r.read_bytes_len_prefix().unwrap(), vec![9, 9, 9]);
    assert_eq!(r.total_bytes_read(), 3 + 16 + 3);
    assert_eq!(r.expect_u8(7).unwrap(), 7);
    assert_eq!(r.total_bytes_read(), 23);
    assert!(r.read_u32().unwrap_err().is_eof());
    let mut r = StreamingReader::new(&bytes);
    assert_eq!(r.read_fixed_bytes(15).unwrap(), bytes);
    assert_eq!(r.total_bytes_read(), 15);
    let mut r = StreamingReader::new(&bytes);
    assert_eq!(r.read_u32().unwrap(), 0x0100_0200);
    assert_eq!(r.read_i32().unwrap(), 0);
    let mut r = StreamingReader::new(&bytes);
    assert_eq!(r.read_u64().unwrap(), 0x0100_0200_0000_0000);
    let mut r = StreamingReader::new(&bytes);
    assert_eq!(r.read_i64().unwrap(), 0x0100_0200_0000_0000);
    assert_eq!(r.total_bytes_read(), 8);
}

#[test]
fn integers_and_tuples_round_trip() {
    let value = (0x12u8, 0x3456u16, 0x789a_bcdeu32, -5i32);
    let bytes = ser_vec(&value).unwrap();
    assert_eq!(bytes, vec![0x12, 0x34, 0x56, 0x78, 0x9a, 0xbc, 0xde, 0xff, 0xff, 0xff, 0xfb]);
    let back: (u8, u16, u32, i32) = deserialize(&bytes).unwrap();
    assert_eq!(back, value);
    let pair = (u64::MAX - 1, i64::MIN);
    let back: (u64, i64) = deserialize_default(&ser_vec(&pair).unwrap()).unwrap();
    assert_eq!(back, pair);
    let triple = (1u8, 2u8, 3u8);
    let back: (u8, u8, u8) = deserialize(&ser_vec(&triple).unwrap()).unwrap();
    assert_eq!(back, triple);
    assert_eq!(ser_vec(&&7u16).unwrap(), vec![0, 7]);
    assert_eq!(ser_vec(&[1u8, 2, 3, 4]).unwrap(), vec![0, 0, 0, 0, 0, 0, 0, 4, 1, 2, 3, 4]);
    let cut: Result<(u8, u16), Error> = deserialize(&[1u8, 2]);
    assert!(cut.unwrap_err().is_eof());
}

#[test]
fn serialize_appends_to_the_sink() {
    let mut sink = vec![1u8];
    serialize(&mut sink, &0x0203u16).unwrap();
    serialize_default(&mut sink, &4u8).unwrap();
    assert_eq!(sink, vec![1, 2, 3, 4]);
}

#[test]
fn a_list_of_observations_round_trips() {
    let rates = vec![rate("EUR", "USD", 1.1, 10), rate("USD", "CNY", 7.0, 20)];
    let bytes = ser_vec(&rates).unwrap();
    let mut reader = BinReader::new(&bytes);
    let back: Vec<ExchangeRateResult> = read_vec(&mut reader).unwrap();
    assert_eq!(back, rates);
    let mut reader = BinReader::new(&bytes);
    let back: Vec<ExchangeRateResult> = read_multi(&mut reader, 2).unwrap();
    assert_eq!(back, rates);
}

#[test]
fn read_vec_stops_at_the_end_and_reports_other_failures() {
    let mut reader = BinReader::new(&[0u8, 1, 0, 2, 0]);
    let items: Vec<u16> = read_vec(&mut reader).unwrap();
    assert_eq!(items, vec![1, 2]);
    let mut reader = BinReader::new(&[]);
    let items: Vec<u16> = read_vec(&mut reader).unwrap();
    assert!(items.is_empty());
    let mut bytes = ser_vec(&rate("EUR", "USD", 1.1, 10)).unwrap();
    bytes.extend_from_slice(&[0, 0, 0, 0, 0, 0, 0, 9, 1]);
    let mut reader = BinReader::new(&bytes);
    let r: Result<Vec<ExchangeRateResult>, Error> = read_vec(&mut reader);
    assert_eq!(r.unwrap_err(), Error::CorruptedData);
}

#[test]
fn read_multi_checks_the_count() {
    let bytes = [0u8, 1, 0, 2, 0, 3];
    let mut reader = BinReader::new(&bytes);
    let items: Vec<u16> = read_multi(&mut reader, 2).unwrap();
    assert_eq!(items, vec![1, 2]);
    assert_eq!(reader.read_u16().unwrap(), 3);
    let mut reader = BinReader::new(&bytes);
    let r: Result<Vec<u16>, Error> = read_multi(&mut reader, 4);
    assert_eq!(r.unwrap_err(), Error::CountError);
    let mut reader = BinReader::new(&bytes);
    let r: Result<Vec<u16>, Error> = read_multi(&mut reader, 1_000_001);
    assert_eq!(r.unwrap_err(), Error::TooLargeReadErr);
    assert_eq!(reader.read_u16().unwrap(), 1);
    let mut reader = BinReader::new(&bytes);
    let r: Vec<u16> = read_multi(&mut reader, 0).unwrap();
    assert!(r.is_empty());
}

#[test]
fn iterating_reader_hands_out_the_count_and_no_more() {
    let bytes = [0u8, 1, 0, 2, 0, 3];
    let mut it: IteratingReader<BinReader, u16> = IteratingReader::new(BinReader::new(&bytes), 2);
    assert_eq!(it.next(), Some(1));
    assert_eq!(it.next(), Some(2));
    assert_eq!(it.next(), None);
    let mut reader = it.into_reader();
    assert_eq!(reader.read_u16().unwrap(), 3);
    let mut it: IteratingReader<BinReader, u32> = IteratingReader::new(BinReader::new(&bytes), 3);
    assert_eq!(it.next(), Some(0x0001_0002));
    assert_eq!(it.next(), None);
}

#[test]
fn readable_and_writeable_are_called_by_their_traits() {
    let mut w = BinWriter::new(Vec::new());
    Writeable::write(&rate("A", "B", 2.0, -1), &mut w).unwrap();
    let bytes = w.into_sink();
    let mut r = BinReader::new(&bytes);
    let back: ExchangeRateResult = Readable::read(&mut r).unwrap();
    assert_eq!(back, rate("A", "B", 2.0, -1));
    assert_eq!(f64::from_bits(back.rate_bits), 2.0);
}

#[test]
fn a_refused_read_reads_nothing() {
    let bytes = vec![9u8, 8, 7, 6, 5];
    let mut r = BinReader::new(&bytes);
    assert_eq!(r.read_fixed_bytes(4_000_001).unwrap_err(), Error::TooLargeReadErr);
    assert!(r.read_fixed_bytes(6).unwrap_err().is_eof());
    assert!(r.read_u64().unwrap_err().is_eof());
    assert_eq!(r.read_fixed_bytes(0).unwrap(), Vec::<u8>::new());
    assert_eq!(r.read_fixed_bytes(5).unwrap(), bytes);
    let large = vec![0u8; 4_000_000];
    assert_eq!(BinReader::new(&large).read_fixed_bytes(4_000_000).unwrap().len(), 4_000_000);
}

#[test]
fn a_failed_read_leaves_what_its_last_step_left() {
    let short = vec![0u8, 0, 0, 0, 0, 0, 0, 4, 5, 6, 7];
    let mut r = BinReader::new(&short);
    assert_eq!(r.read_bytes_len_prefix().unwrap_err(), Error::CorruptedData);
    assert_eq!(r.read_fixed_bytes(3).unwrap(), vec![5, 6, 7]);
    let huge = vec![0u8, 0, 0, 0, 0, 0x3d, 0x09, 0x01, 5];
    let mut r = BinReader::new(&huge);
    assert_eq!(r.read_bytes_len_prefix().unwrap_err(), Error::TooLargeReadErr);
    assert_eq!(r.read_u8().unwrap(), 5);
    let mut r = BinReader::new(&huge[..7]);
    assert!(r.read_bytes_len_prefix().unwrap_err().is_eof());
    assert_eq!(r.read_fixed_bytes(7).unwrap(), huge[..7].to_vec());
    let mut r = BinReader::new(&[1u8, 2]);
    assert!(r.expect_u8(9).is_err());
    assert_eq!(r.read_u8().unwrap(), 2);
    let mut r = BinReader::new(&[0u8, 1, 0]);
    let items: Result<Vec<u16>, Error> = read_multi(&mut r, 2);
    assert_eq!(items.unwrap_err(), Error::CountError);
    assert_eq!(r.read_u8().unwrap(), 0);
    let mut r = BinReader::new(&[0u8, 1, 7]);
    let items: Vec<u16> = read_vec(&mut r).unwrap();
    assert_eq!(items, vec![1]);
    assert_eq!(r.read_u8().unwrap(), 7);
}

#[test]
fn a_failed_read_counts_only_what_it_took() {
    let bytes = vec![1u8, 2, 3];
    let mut r = StreamingReader::new(&bytes);
    assert_eq!(r.read_u16().unwrap(), 0x0102);
    assert!(r.read_u16().unwrap_err().is_eof());
    assert_eq!(r.total_bytes_read(), 2);
    assert!(r.read_fixed_bytes(2).is_err());
    assert!(r.read_u32().is_err());
    assert!(r.read_i64().is_err());
    assert!(r.read_bytes_len_prefix().unwrap_err().is_eof());
    assert_eq!(r.total_bytes_read(), 2);
    assert!(r.expect_u8(9).is_err());
    assert_eq!(r.total_bytes_read(), 3);
    assert!(r.expect_u8(9).unwrap_err().is_eof());
    assert_eq!(r.total_bytes_read(), 3);
    let short = vec![0u8, 0, 0, 0, 0, 0, 0, 4, 5, 6, 7];
    let mut r = StreamingReader::new(&short);
    assert_eq!(r.read_bytes_len_prefix().unwrap_err(), Error::CorruptedData);
    assert_eq!(r.total_bytes_read(), 16);
    assert_eq!(r.read_fixed_bytes(3).unwrap(), vec![5, 6, 7]);
    assert_eq!(r.total_bytes_read(), 19);
}

use gotts_oracle::exchange_rate::ExchangeRateResult;
use gotts_oracle::keys::{pair_id, pair_key, pair_key_at, to_key, to_key_i64};
use gotts_oracle::oracle_ser::{ser_vec, Error};
use gotts_oracle::record_codec::{decode, encode};

fn sample() -> ExchangeRateResult {
    ExchangeRateResult {
        from: "EUR".to_string(),
        to: "USD".to_string(),
        rate_bits: 1.16665014f64.to_bits(),
        date: 1_529_749_669,
    }
}

#[test]
fn encode_lays_out_the_fields_big_endian() {
    let bytes = encode(&sample());
    let mut expected: Vec<u8> = Vec::new();
    expected.extend_from_slice(&[0, 0, 0, 0, 0, 0, 0, 3]);
    expected.extend_from_slice(b"EUR");
    expected.extend_from_slice(&[0, 0, 0, 0, 0, 0, 0, 3]);
    expected.extend_from_slice(b"USD");
    expected.extend_from_slice(&1.16665014f64.to_bits().to_be_bytes());
    expected.extend_from_slice(&1_529_749_669i64.to_be_bytes());
    assert_eq!(bytes, expected);
    assert_eq!(ser_vec(&sample()).unwrap(), expected);
}

#[test]
fn decode_gives_back_what_encode_took() {
    let o = sample();
    assert_eq!(decode(&encode(&o)).unwrap(), o);
}

#[test]
fn decode_rejects_every_truncation() {
    let bytes = encode(&sample());
    for k in 0..bytes.len() {
        assert!(decode(&bytes[..k]).is_err(), "cut at {}", k);
    }
}

#[test]
fn decode_names_the_failure() {
    let bytes = encode(&sample());
    assert!(decode(&bytes[..5]).unwrap_err().is_eof());
    assert_eq!(decode(&bytes[..9]).unwrap_err(), Error::CorruptedData);
    assert!(decode(&bytes[..bytes.len() - 1]).unwrap_err().is_eof());
    let mut huge = vec![0u8, 0, 0, 0, 0, 0x3d, 0x09, 0x01];
    huge.extend_from_slice(b"EUR");
    assert_eq!(decode(&huge).unwrap_err(), Error::TooLargeReadErr);
    let mut bad = vec![0u8, 0, 0, 0, 0, 0, 0, 1, 0xff];
    bad.extend_from_slice(&bytes[11..]);
    assert_eq!(decode(&bad).unwrap_err(), Error::CorruptedData);
}

#[test]
fn keys_are_prefix_separator_identifier_and_instant() {
    let mut id = b"EUR2USD".to_vec();
    assert_eq!(to_key(b'e', &mut id), b"e:EUR2USD".to_vec());
    assert!(id.is_empty());
    let mut id = b"EUR2USD".to_vec();
    let key = to_key_i64(b'e', &mut id, 258);
    assert_eq!(key, b"e:EUR2USD\x00\x00\x00\x00\x00\x00\x01\x02".to_vec());
    assert_eq!(pair_id("EUR", "USD"), "EUR2USD");
    assert_eq!(pair_key("EUR2USD"), b"e:EUR2USD".to_vec());
    assert_eq!(pair_key_at("EUR2USD", -1), b"e:EUR2USD\xff\xff\xff\xff\xff\xff\xff\xff".to_vec());
}

#[test]
fn keys_of_one_pair_order_as_their_instants() {
    let instants = [0i64, 1, 255, 256, 1_529_749_669, i64::MAX];
    for a in instants {
        for b in instants {
            assert_eq!(pair_key_at("EUR2USD", a) < pair_key_at("EUR2USD", b), a < b);
        }
    }
    assert!(pair_key_at("EUR2USD", -1) > pair_key_at("EUR2USD", 0));
}

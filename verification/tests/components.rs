use fuzzycrypt::arith::reduce;
use fuzzycrypt::codec::{bytes_to_ints, ints_to_bytes};
use fuzzycrypt::keys::secret::Secret;
use fuzzycrypt::keys::{DecryptError, KeyError};

#[test]
fn reduce_exact_values() {
    assert_eq!(reduce(-7, 5), 3);
    assert_eq!(reduce(7, 5), 2);
    assert_eq!(reduce(0, 5), 0);
    assert_eq!(reduce(-5, 5), 0);
    assert_eq!(reduce(-1, 1114111), 1114110);
}

#[test]
fn reduce_totality() {
    for m in [1i64, 2, 17, 11120640] {
        let mut v = -10 * m;
        while v <= 10 * m {
            let r = reduce(v, m);
            assert!(0 <= r && r < m);
            assert_eq!((r - v).rem_euclid(m), 0);
            v += (m / 7).max(1);
        }
    }
}

#[test]
fn zero_dimension_rejected() {
    assert_eq!(Secret::new(0).unwrap_err(), KeyError::InvalidDimension);
}

#[test]
fn codec_exact_bytes() {
    let bytes = ints_to_bytes(&vec![1, -1, 0x01020304]);
    assert_eq!(
        bytes,
        vec![1, 0, 0, 0, 255, 255, 255, 255, 4, 3, 2, 1]
    );
    assert_eq!(bytes_to_ints(&bytes), vec![1, -1, 0x01020304]);
}

fn handmade_secret() -> Secret {
    // modulo 20000000 gives scale 20000000 / 1114111 = 17.
    Secret {
        key: vec![1, 2],
        modulo: 20000000,
        add: 17,
    }
}

#[test]
fn decode_record_exact() {
    let secret = handmade_secret();
    // target = 1*5 + 2*7 + 'A' * 17 = 19 + 1105 = 1124
    let record: Vec<i32> = vec![5, 7, 1124];
    assert_eq!(secret.decode_record(&record), 'A');
    // A little noise must round away: 1124 + 8 still decodes to 'A'.
    let noisy: Vec<i32> = vec![5, 7, 1132];
    assert_eq!(secret.decode_record(&noisy), 'A');
}

#[test]
fn invalid_scalar_becomes_placeholder() {
    let secret = handmade_secret();
    // A residual of 0xD800 * 17 decodes to the surrogate 0xD800, which is
    // no Unicode scalar value, so the placeholder is substituted.
    let record: Vec<i32> = vec![0, 0, 0xD800 * 17];
    assert_eq!(secret.decode_record(&record), '\u{1F4A9}');
    let bytes = ints_to_bytes(&record);
    assert_eq!(secret.decrypt(&bytes).unwrap(), "\u{1F4A9}");
}

#[test]
fn malformed_ciphertext_rejected() {
    let secret = Secret::new(16).unwrap();
    // One byte: not a multiple of 4 * 17.
    assert_eq!(
        secret.decrypt(&[1]).unwrap_err(),
        DecryptError::MalformedCiphertext
    );
    // A whole number of 32-bit integers, but not of records.
    let bytes = ints_to_bytes(&vec![0; 16]);
    assert_eq!(
        secret.decrypt(&bytes).unwrap_err(),
        DecryptError::MalformedCiphertext
    );
    // A whole number of records is accepted.
    let bytes = ints_to_bytes(&vec![0; 17]);
    assert!(secret.decrypt(&bytes).is_ok());
}

#[test]
fn decrypt_exact_text() {
    let secret = handmade_secret();
    let records: Vec<i32> = vec![
        5, 7, 19 + ('H' as i32) * 17,
        0, 0, ('i' as i32) * 17,
    ];
    let bytes = ints_to_bytes(&records);
    assert_eq!(secret.decrypt(&bytes).unwrap(), "Hi");
}

use simple_encode::{Base16, Base32, Base36, Base58, Base62, Base64, Base91, DecodeError};

const B32_ALPHABET: &str = "ABCDEFGHIJKLMNOPQRSTUVWXYZ234567";
const B36_ALPHABET: &str = "0123456789abcdefghijklmnopqrstuvwxyz";
const B58_ALPHABET: &str = "123456789ABCDEFGHJKLMNPQRSTUVWXYZabcdefghijkmnopqrstuvwxyz";
const B62_ALPHABET: &str = "0123456789ABCDEFGHIJKLMNOPQRSTUVWXYZabcdefghijklmnopqrstuvwxyz";
const B64_ALPHABET: &str = "ABCDEFGHIJKLMNOPQRSTUVWXYZabcdefghijklmnopqrstuvwxyz0123456789+/";
const B91_ALPHABET: &str =
    "ABCDEFGHIJKLMNOPQRSTUVWXYZabcdefghijklmnopqrstuvwxyz0123456789!#$%&()*+,./:;<=>?@[]^_`{|}~\"";

fn samples() -> Vec<Vec<u8>> {
    let mut v: Vec<Vec<u8>> = vec![
        vec![],
        vec![0],
        vec![0, 0, 0, 0],
        vec![255],
        vec![1, 2, 3],
        vec![0, 0, 1, 2],
        b"Hello".to_vec(),
        b"The quick brown fox jumps over the lazy dog".to_vec(),
        (0..=255u8).collect(),
    ];
    let mut x: u32 = 12345;
    for len in 1..40usize {
        let mut s = Vec::new();
        for _ in 0..len {
            x = x.wrapping_mul(1103515245).wrapping_add(12345);
            s.push((x >> 16) as u8);
        }
        v.push(s);
    }
    v
}

#[test]
fn concrete_vectors() {
    assert_eq!(Base16::encode(b"Hello").unwrap(), "48656c6c6f");
    assert_eq!(Base64::encode(b"Hello").unwrap(), "SGVsbG8=");
    assert_eq!(Base32::encode(b"Hello").unwrap(), "JBSWY3DP");
    assert_eq!(Base58::encode(b"Hello").unwrap(), "9Ajdvzr");
    assert_eq!(Base62::encode(b"Hello").unwrap(), "5TP3P3v");
    assert_eq!(Base36::encode(b"Hello").unwrap(), "3yud78mn");
    assert_eq!(Base91::encode(b"Hello").unwrap(), ">OwJh>A");
    assert_eq!(Base91::encode(b"test").unwrap(), "fPNKd");
    assert_eq!(Base91::encode(&[0]).unwrap(), "AA");
    assert_eq!(Base32::encode(b"f").unwrap(), "MY======");
    assert_eq!(Base64::encode(b"fo").unwrap(), "Zm8=");
}

#[test]
fn hello_is_one_big_number() {
    // b"Hello" read big-endian is 310939249775.
    let mut n: u64 = 310939249775;
    let mut digits = Vec::new();
    while n > 0 {
        digits.push(B58_ALPHABET.as_bytes()[(n % 58) as usize] as char);
        n /= 58;
    }
    digits.reverse();
    let expected: String = digits.into_iter().collect();
    assert_eq!(Base58::encode(b"Hello").unwrap(), expected);

    let mut n: u64 = 310939249775;
    let mut digits = Vec::new();
    while n > 0 {
        digits.push(B62_ALPHABET.as_bytes()[(n % 62) as usize] as char);
        n /= 62;
    }
    digits.reverse();
    let expected: String = digits.into_iter().collect();
    assert_eq!(Base62::encode(b"Hello").unwrap(), expected);
}

#[test]
fn round_trip_all_schemes() {
    for b in samples() {
        assert_eq!(Base16::decode(&Base16::encode(&b).unwrap()).unwrap(), b);
        assert_eq!(Base32::decode(&Base32::encode(&b).unwrap()).unwrap(), b);
        assert_eq!(Base58::decode(&Base58::encode(&b).unwrap()).unwrap(), b);
        assert_eq!(Base62::decode(&Base62::encode(&b).unwrap()).unwrap(), b);
        assert_eq!(Base64::decode(&Base64::encode(&b).unwrap()).unwrap(), b);
        assert_eq!(Base91::decode(&Base91::encode(&b).unwrap()).unwrap(), b);
        let lead = b.iter().take_while(|x| **x == 0).count();
        assert_eq!(Base36::decode(&Base36::encode(&b).unwrap()).unwrap(), b[lead..].to_vec());
    }
}

#[test]
fn long_inputs_do_not_overflow() {
    let big: Vec<u8> = (1..=40u8).collect();
    assert_eq!(
        Base58::encode(&big).unwrap(),
        "3uTox6ig7oRwvFGCBiq9eTm9PyYFm7xczABQXhmzw9y83akQuQRaxX"
    );
    assert_eq!(Base36::decode(&Base36::encode(&big).unwrap()).unwrap(), big);
}

#[test]
fn alphabet_closure() {
    for b in samples() {
        assert!(Base16::encode(&b).unwrap().chars().all(|c| "0123456789abcdef".contains(c)));
        assert!(Base32::encode(&b).unwrap().chars().all(|c| c == '=' || B32_ALPHABET.contains(c)));
        assert!(Base36::encode(&b).unwrap().chars().all(|c| B36_ALPHABET.contains(c)));
        assert!(Base58::encode(&b).unwrap().chars().all(|c| B58_ALPHABET.contains(c)));
        assert!(Base62::encode(&b).unwrap().chars().all(|c| B62_ALPHABET.contains(c)));
        assert!(Base64::encode(&b).unwrap().chars().all(|c| c == '=' || B64_ALPHABET.contains(c)));
        assert!(Base91::encode(&b).unwrap().chars().all(|c| B91_ALPHABET.contains(c)));
    }
}

#[test]
fn foreign_characters_are_rejected() {
    assert!(Base16::decode("4g").is_err());
    assert!(Base32::decode("JBSW1").is_err());
    assert!(Base36::decode("3yud-8mn").is_err());
    assert!(Base58::decode("0abc").is_err());
    assert!(Base58::decode("Ol").is_err());
    assert!(Base62::decode("5TP3_3v").is_err());
    assert!(Base64::decode("SGV-bG8=").is_err());
    assert!(Base91::decode("ab cd").is_err());
    assert!(Base91::decode("'").is_err());
}

#[test]
fn odd_length_hex() {
    assert!(Base16::decode("abc").is_err());
    assert_eq!(Base16::decode("ab").unwrap(), vec![0xAB]);
    assert_eq!(Base16::decode("AB").unwrap(), vec![0xAB]);
    assert_eq!(Base16::decode("").unwrap(), Vec::<u8>::new());
}

#[test]
fn padding_length() {
    for b in samples() {
        assert_eq!(Base32::encode(&b).unwrap().len() % 8, 0);
        assert_eq!(Base64::encode(&b).unwrap().len() % 4, 0);
    }
}

#[test]
fn leading_zero_preservation() {
    let b = vec![0u8, 0, 1, 2];
    assert_eq!(Base58::encode(&b).unwrap(), "115T");
    assert_eq!(Base58::decode(&Base58::encode(&b).unwrap()).unwrap(), b);
    assert_eq!(Base62::encode(&b).unwrap(), "004A");
    assert_eq!(Base62::decode("004A").unwrap(), b);
    assert_eq!(Base58::encode(&[0, 0]).unwrap(), "11");
    assert_eq!(Base58::decode("11").unwrap(), vec![0, 0]);
}

#[test]
fn base36_drops_leading_zeros() {
    assert_eq!(Base36::encode(&[]).unwrap(), "0");
    assert_eq!(Base36::encode(&[0, 0]).unwrap(), "0");
    assert_eq!(Base36::decode("0").unwrap(), Vec::<u8>::new());
    assert_eq!(Base36::decode(&Base36::encode(&[0, 7]).unwrap()).unwrap(), vec![7]);
}

#[test]
fn empty_inputs() {
    assert_eq!(Base16::encode(&[]).unwrap(), "");
    assert_eq!(Base32::encode(&[]).unwrap(), "");
    assert_eq!(Base58::encode(&[]).unwrap(), "");
    assert_eq!(Base62::encode(&[]).unwrap(), "");
    assert_eq!(Base64::encode(&[]).unwrap(), "");
    assert_eq!(Base91::encode(&[]).unwrap(), "");
    assert_eq!(Base91::decode("").unwrap(), Vec::<u8>::new());
    assert_eq!(Base58::decode("").unwrap(), Vec::<u8>::new());
}

#[test]
fn padded_decoding_is_lenient() {
    assert_eq!(Base64::decode("SGVsbG8=!!").unwrap(), b"Hello".to_vec());
    assert_eq!(Base32::decode("MY======").unwrap(), b"f".to_vec());
    assert_eq!(Base64::decode("Z").unwrap(), Vec::<u8>::new());
    assert_eq!(Base64::decode("Zm9").unwrap(), b"fo".to_vec());
    assert_eq!(Base64::decode("=").unwrap(), Vec::<u8>::new());
    assert_eq!(Base32::decode("MY=!").unwrap(), b"f".to_vec());
}

#[test]
fn error_carries_message() {
    let e = Base16::decode("abc").unwrap_err();
    assert_eq!(e.message(), "hex string has an odd length");
    assert_eq!(DecodeError::new("bad").msg, "bad");
}

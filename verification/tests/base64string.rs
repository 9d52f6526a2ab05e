use baze64::alphabet::{Alphabet, Standard, UrlSafe};
use baze64::{B64Error, Base64String, DecodeError};

#[test]
fn encode_triplet() {
    let triplet = ['A', 'B', 'C'];
    let expected_encoded = ['Q', 'U', 'J', 'D'];

    let encoded = Base64String::<Standard>::encode_triplet(
        [triplet[0] as u8, triplet[1] as u8, triplet[2] as u8],
        &Standard::new(),
    )
    .unwrap();

    assert_eq!(encoded, expected_encoded);
}

#[test]
fn encode_long() {
    let input = "everybody".chars().map(|c| c as u8);
    let b64 = Base64String::<Standard>::encode(&input.collect::<Vec<_>>()).unwrap();
    let expected = Base64String::from_encoded_with("ZXZlcnlib2R5", Standard::new());

    assert_eq!(b64, expected)
}

#[test]
fn encode_2_rem() {
    let input = "event".chars().map(|c| c as u8);
    let b64 = Base64String::<Standard>::encode(&input.collect::<Vec<_>>()).unwrap();
    let expected = Base64String::from_encoded_with("ZXZlbnQ=", Standard::new());

    assert_eq!(b64, expected)
}

#[test]
fn encode_1_rem() {
    let input = "even".chars().map(|c| c as u8);
    let b64 = Base64String::<Standard>::encode(&input.collect::<Vec<_>>()).unwrap();
    let expected = Base64String::from_encoded_with("ZXZlbg==", Standard::new());

    assert_eq!(b64, expected)
}

#[test]
fn decode_no_pad() {
    let src = Base64String::from_encoded_with("ZXZlcnlib2R5", Standard::new());
    let expected = b"everybody".to_vec();
    let decoded = src.decode().unwrap();

    assert_eq!(decoded, expected)
}

#[test]
fn decode_one_pad() {
    let src = Base64String::from_encoded_with("ZXZlbnQ=", Standard::new());
    let expected = b"event".to_vec();
    let decoded = src.decode().unwrap();

    assert_eq!(decoded, expected)
}

#[test]
fn decode_two_pad() {
    let src = Base64String::from_encoded_with("ZXZlbg==", Standard::new());
    let expected = b"even".to_vec();
    let decoded = src.decode().unwrap();

    assert_eq!(decoded, expected)
}

#[test]
fn encode_empty() {
    let b64 = Base64String::<Standard>::encode(b"").unwrap();
    assert_eq!(b64.as_str(), "");
}

#[test]
fn encode_scenarios() {
    let b64 = Base64String::<Standard>::encode(b"everybody").unwrap();
    assert_eq!(b64.as_str(), "ZXZlcnlib2R5");
    let b64 = Base64String::<Standard>::encode(b"event").unwrap();
    assert_eq!(b64.as_str(), "ZXZlbnQ=");
    let b64 = Base64String::<Standard>::encode(b"even").unwrap();
    assert_eq!(b64.as_str(), "ZXZlbg==");
}

#[test]
fn decode_invalid_char() {
    let src = Base64String::from_encoded_with("ZXZl!g==", Standard::new());
    let err = src.decode().unwrap_err();
    assert_eq!(err, DecodeError::Base64Error(B64Error::InvalidChar('!')));
}

#[test]
fn url_safe_differs_only_in_specials() {
    let data: Vec<u8> = (0u8..=255).collect();
    let standard = Base64String::<Standard>::encode(&data).unwrap();
    let url_safe = Base64String::<UrlSafe>::encode(&data).unwrap();
    let mapped: String = standard
        .as_str()
        .chars()
        .map(|c| match c {
            '+' => '-',
            '/' => '_',
            other => other,
        })
        .collect();
    assert_eq!(mapped, url_safe.as_str());
    assert!(standard.as_str().contains('+'));
    assert!(standard.as_str().contains('/'));
}

#[test]
fn from_encoded_normalizes_length() {
    let wrapped = Base64String::from_encoded_with("ZXZlbg", Standard::new());
    assert_eq!(wrapped.as_str(), "ZXZlbg==");
    assert_eq!(wrapped.decode().unwrap(), b"even".to_vec());
}

#[test]
fn from_encoded_already_padded_unchanged() {
    let wrapped = Base64String::from_encoded_with("ZXZlbnQ=", Standard::new());
    assert_eq!(wrapped.as_str(), "ZXZlbnQ=");
    assert_eq!(wrapped.as_str().len(), 8);
}

#[test]
fn without_padding_strips_padding() {
    let padded = Base64String::<Standard>::encode(b"even").unwrap();
    assert_eq!(padded.without_padding(), "ZXZlbg");
    assert_eq!(padded.as_str(), "ZXZlbg==");
    let unpadded = Base64String::<Standard>::encode(b"everybody").unwrap();
    assert_eq!(unpadded.without_padding(), "ZXZlcnlib2R5");
}

#[test]
fn change_alphabet_round_trips() {
    let data = b"Something important".to_vec();
    let standard = Base64String::<Standard>::encode(&data).unwrap();
    let url_safe = standard.clone().change_alphabet_with(UrlSafe::new()).unwrap();
    assert_eq!(url_safe.decode().unwrap(), data);
    let back: Base64String<Standard> = url_safe.change_alphabet().unwrap();
    assert_eq!(back, standard);
}

#[test]
fn decode_to_string_round_trips() {
    let message = "Secret message :D";
    let encoded = Base64String::<Standard>::encode(message.as_bytes()).unwrap();
    let decoded = encoded.decode_to_string().unwrap();
    assert_eq!(message, decoded.as_str());
}

#[test]
fn decode_to_string_rejects_invalid_utf8() {
    let encoded = Base64String::<Standard>::encode(&[0xFF, 0xFE]).unwrap();
    let err = encoded.decode_to_string().unwrap_err();
    assert_eq!(err, DecodeError::InvalidUtf8);
}

#[test]
fn decode_into_appends() {
    let mut buf = vec![1u8, 2u8];
    let encoded = Base64String::<Standard>::encode(b"event").unwrap();
    encoded.decode_into(&mut buf).unwrap();
    assert_eq!(buf, vec![1u8, 2u8, b'e', b'v', b'e', b'n', b't']);
}

#[test]
fn decode_into_leaves_buffer_on_error() {
    let mut buf = vec![9u8];
    let bad = Base64String::from_encoded_with("ZX!lbnQ=", Standard::new());
    let err = bad.decode_into(&mut buf).unwrap_err();
    assert_eq!(err, DecodeError::Base64Error(B64Error::InvalidChar('!')));
    assert_eq!(buf, vec![9u8]);
}

#[test]
fn encode_bits_maps_and_rejects() {
    let alphabet = Standard::new();
    assert_eq!(alphabet.encode_bits(0).unwrap(), 'A');
    assert_eq!(alphabet.encode_bits(25).unwrap(), 'Z');
    assert_eq!(alphabet.encode_bits(26).unwrap(), 'a');
    assert_eq!(alphabet.encode_bits(51).unwrap(), 'z');
    assert_eq!(alphabet.encode_bits(52).unwrap(), '0');
    assert_eq!(alphabet.encode_bits(61).unwrap(), '9');
    assert_eq!(alphabet.encode_bits(62).unwrap(), '+');
    assert_eq!(alphabet.encode_bits(63).unwrap(), '/');
    assert_eq!(alphabet.encode_bits(64).unwrap_err(), B64Error::BitsOOB(64));
    let url = UrlSafe::new();
    assert_eq!(url.encode_bits(62).unwrap(), '-');
    assert_eq!(url.encode_bits(63).unwrap(), '_');
    assert_eq!(url.encode_bits(200).unwrap_err(), B64Error::BitsOOB(200));
}

#[test]
fn decode_char_maps_specials() {
    let alphabet = Standard::new();
    assert_eq!(alphabet.decode_char('=').unwrap(), 0);
    assert_eq!(alphabet.decode_char('\0').unwrap(), 0x64);
    assert_eq!(alphabet.decode_char('A').unwrap(), 0);
    assert_eq!(alphabet.decode_char('B').unwrap(), 1);
    assert_eq!(alphabet.decode_char('z').unwrap(), 51);
    assert_eq!(alphabet.decode_char('9').unwrap(), 61);
    assert_eq!(alphabet.decode_char('+').unwrap(), 62);
    assert_eq!(alphabet.decode_char('/').unwrap(), 63);
    assert_eq!(
        alphabet.decode_char('!').unwrap_err(),
        B64Error::InvalidChar('!')
    );
    let url = UrlSafe::new();
    assert_eq!(url.decode_char('-').unwrap(), 62);
    assert_eq!(url.decode_char('_').unwrap(), 63);
    assert_eq!(url.decode_char('+').unwrap_err(), B64Error::InvalidChar('+'));
}

#[test]
fn is_valid_counts_only_symbols() {
    let alphabet = Standard::new();
    assert!(alphabet.is_valid('A'));
    assert!(alphabet.is_valid('z'));
    assert!(alphabet.is_valid('0'));
    assert!(alphabet.is_valid('+'));
    assert!(alphabet.is_valid('/'));
    assert!(!alphabet.is_valid('='));
    assert!(!alphabet.is_valid('!'));
    assert!(!alphabet.is_valid('-'));
    let url = UrlSafe::new();
    assert!(url.is_valid('-'));
    assert!(url.is_valid('_'));
    assert!(!url.is_valid('/'));
}

#[test]
fn padding_is_equals_sign() {
    assert_eq!(Standard::new().padding(), Some('='));
    assert_eq!(UrlSafe::new().padding(), Some('='));
}

#[test]
fn encode_length_and_padding_laws_on_values() {
    for n in 0usize..30 {
        let data: Vec<u8> = (0..n as u8).collect();
        let b64 = Base64String::<Standard>::encode(&data).unwrap();
        assert_eq!(b64.as_str().len(), 4 * ((n + 2) / 3));
        let pads = b64.as_str().chars().filter(|&c| c == '=').count();
        let expected = match n % 3 {
            0 => 0,
            1 => 2,
            _ => 1,
        };
        assert_eq!(pads, expected);
    }
}

#[test]
fn round_trip_on_values() {
    let samples: Vec<Vec<u8>> = vec![
        vec![],
        vec![0],
        vec![255],
        vec![0, 0],
        vec![1, 2, 3],
        b"The quick brown fox jumps over the lazy dog".to_vec(),
        (0u8..=255).collect(),
    ];
    for data in samples {
        let std_enc = Base64String::<Standard>::encode(&data).unwrap();
        assert_eq!(std_enc.decode().unwrap(), data);
        let url_enc = Base64String::<UrlSafe>::encode(&data).unwrap();
        assert_eq!(url_enc.decode().unwrap(), data);
    }
}

use dpp::identifier::errors::IdentifierError;
use dpp::identifier::{encoding_string_to_encoding, Identifier, IdentifierSource};
use dpp::util::string_encoding::{DecodeError, Encoding};

fn counting_bytes(len: u8) -> Vec<u8> {
    (1..=len).collect()
}

const COUNTING_BASE58: &str = "4wBqpZM9xaSheZzJSMawUKKwhdpChKbZ5eu5ky4Vigw";
const COUNTING_BASE64: &str = "AQIDBAUGBwgJCgsMDQ4PEBESExQVFhcYGRobHB0eHyA=";

#[test]
fn from_bytes_keeps_the_bytes() {
    let bytes = counting_bytes(32);
    let identifier = Identifier::from_bytes(&bytes).unwrap();
    assert_eq!(identifier.to_buffer().to_vec(), bytes);
}

#[test]
fn from_bytes_round_trips_extreme_values() {
    for byte in [0u8, 1, 127, 128, 255] {
        let bytes = [byte; 32];
        let identifier = Identifier::from_bytes(&bytes).unwrap();
        assert_eq!(identifier.to_buffer(), bytes);
    }
}

#[test]
fn from_bytes_rejects_every_other_length() {
    for len in (0..=64usize).chain([100, 1000]) {
        let bytes = vec![7u8; len];
        let result = Identifier::from_bytes(&bytes);
        if len == 32 {
            assert!(result.is_ok());
        } else {
            assert_eq!(result, Err(IdentifierError::InvalidLength), "length {}", len);
        }
    }
}

#[test]
fn from_bytes_rejects_empty_31_and_33() {
    assert_eq!(Identifier::from_bytes(&[]), Err(IdentifierError::InvalidLength));
    assert_eq!(Identifier::from_bytes(&[0u8; 31]), Err(IdentifierError::InvalidLength));
    assert_eq!(Identifier::from_bytes(&[0u8; 33]), Err(IdentifierError::InvalidLength));
}

#[test]
fn thirty_one_bytes_fail_and_padded_to_thirty_two_succeed() {
    let mut bytes = counting_bytes(31);
    assert_eq!(Identifier::from_bytes(&bytes), Err(IdentifierError::InvalidLength));
    bytes.push(0);
    let identifier = Identifier::from_bytes(&bytes).unwrap();
    assert_eq!(identifier.to_buffer().to_vec(), bytes);
    assert_eq!(identifier.to_buffer()[31], 0);
}

#[test]
fn invalid_length_message_is_exact() {
    let error = Identifier::from_bytes(&[1, 2, 3]).unwrap_err();
    assert_eq!(error.message(), "Identifier must be 32 bytes long");
}

#[test]
fn decode_error_message_names_the_encoding() {
    let base58 = Identifier::from_string("0", Encoding::Base58).unwrap_err();
    assert_eq!(base58.message(), "Unable to decode Base58 string");
    let base64 = Identifier::from_string("*", Encoding::Base64).unwrap_err();
    assert_eq!(base64.message(), "Unable to decode Base64 string");
    assert_ne!(base58.message(), base64.message());
}

#[test]
fn decode_error_converts_into_identifier_error() {
    let error = DecodeError { encoding: Encoding::Base64 };
    assert_eq!(IdentifierError::from(error), IdentifierError::Decode(error));
}

#[test]
fn to_string_writes_both_encodings() {
    let identifier = Identifier::from_bytes(&counting_bytes(32)).unwrap();
    assert_eq!(identifier.to_string(Encoding::Base58), COUNTING_BASE58);
    assert_eq!(identifier.to_string(Encoding::Base64), COUNTING_BASE64);
}

#[test]
fn to_string_of_zero_identifier() {
    let identifier = Identifier::from_bytes(&[0u8; 32]).unwrap();
    assert_eq!(identifier.to_string(Encoding::Base58), "1".repeat(32));
    assert_eq!(
        identifier.to_string(Encoding::Base64),
        "AAAAAAAAAAAAAAAAAAAAAAAAAAAAAAAAAAAAAAAAAAA="
    );
}

#[test]
fn from_string_reads_both_encodings() {
    let bytes = counting_bytes(32);
    let from_base58 = Identifier::from_string(COUNTING_BASE58, Encoding::Base58).unwrap();
    assert_eq!(from_base58.to_buffer().to_vec(), bytes);
    let from_base64 = Identifier::from_string(COUNTING_BASE64, Encoding::Base64).unwrap();
    assert_eq!(from_base64.to_buffer().to_vec(), bytes);
    assert_eq!(from_base58, from_base64);
}

#[test]
fn from_string_undoes_to_string() {
    for seed in 0..=255u8 {
        let mut bytes = [0u8; 32];
        for (i, byte) in bytes.iter_mut().enumerate() {
            *byte = seed.wrapping_mul(31).wrapping_add((i as u8).wrapping_mul(seed | 1));
        }
        if seed % 4 == 0 {
            bytes[0] = 0;
            bytes[1] = 0;
        }
        let identifier = Identifier::from_bytes(&bytes).unwrap();
        for encoding in [Encoding::Base58, Encoding::Base64] {
            let text = identifier.to_string(encoding);
            let again = Identifier::from_string(&text, encoding).unwrap();
            assert_eq!(again.to_buffer(), bytes);
        }
    }
}

#[test]
fn from_string_fails_on_a_character_outside_the_alphabet() {
    assert_eq!(
        Identifier::from_string("0", Encoding::Base58),
        Err(IdentifierError::Decode(DecodeError { encoding: Encoding::Base58 }))
    );
    let mut text = String::from(COUNTING_BASE58);
    text.replace_range(10..11, "l");
    assert_eq!(
        Identifier::from_string(&text, Encoding::Base58),
        Err(IdentifierError::Decode(DecodeError { encoding: Encoding::Base58 }))
    );
    let mut text = String::from(COUNTING_BASE64);
    text.replace_range(10..11, "-");
    assert_eq!(
        Identifier::from_string(&text, Encoding::Base64),
        Err(IdentifierError::Decode(DecodeError { encoding: Encoding::Base64 }))
    );
}

#[test]
fn from_string_checks_the_length_after_decoding() {
    // 31 and 33 bytes, well formed in each encoding.
    for text in [
        "thX6LZfHDZZKUs92febYZhYRcXddmzfzF2NvTkPNE",
        "JNArUumxYJcSQpbuxuroRZtcSMVLcy5WbYGt14SRm1Fv",
        "",
        "1",
    ] {
        assert_eq!(
            Identifier::from_string(text, Encoding::Base58),
            Err(IdentifierError::InvalidLength),
            "{}",
            text
        );
    }
    for text in [
        "AQIDBAUGBwgJCgsMDQ4PEBESExQVFhcYGRobHB0eHw==",
        "AQIDBAUGBwgJCgsMDQ4PEBESExQVFhcYGRobHB0eHyAh",
        "",
        "AA==",
    ] {
        assert_eq!(
            Identifier::from_string(text, Encoding::Base64),
            Err(IdentifierError::InvalidLength),
            "{}",
            text
        );
    }
}

#[test]
fn from_string_reports_a_bad_text_of_wrong_length_as_bad_text() {
    // Too short to hold 32 bytes, and not well formed either.
    assert_eq!(
        Identifier::from_string("O0", Encoding::Base58),
        Err(IdentifierError::Decode(DecodeError { encoding: Encoding::Base58 }))
    );
    assert_eq!(
        Identifier::from_string("AAA", Encoding::Base64),
        Err(IdentifierError::Decode(DecodeError { encoding: Encoding::Base64 }))
    );
}

#[test]
fn a_text_of_one_encoding_is_not_read_as_the_other() {
    assert!(Identifier::from_string(COUNTING_BASE64, Encoding::Base58).is_err());
    assert!(Identifier::from_string(COUNTING_BASE58, Encoding::Base64).is_err());
}

#[test]
fn encoding_names_resolve_by_the_default_policy() {
    assert_eq!(encoding_string_to_encoding(None), Encoding::Base58);
    assert_eq!(encoding_string_to_encoding(Some("base58")), Encoding::Base58);
    assert_eq!(encoding_string_to_encoding(Some("base64")), Encoding::Base64);
    assert_eq!(encoding_string_to_encoding(Some("anything-else")), Encoding::Base64);
}

#[test]
fn encoding_names_are_matched_exactly() {
    for name in ["Base58", "BASE58", "base58 ", " base58", "base5", "base588", "", "bаse58"] {
        assert_eq!(encoding_string_to_encoding(Some(name)), Encoding::Base64, "{:?}", name);
    }
}

#[test]
fn from_string_with_absent_name_reads_base58() {
    for text in [COUNTING_BASE58, COUNTING_BASE64, "0", "", "1"] {
        assert_eq!(
            Identifier::from_string_with_encoding_string(text, None),
            Identifier::from_string(text, Encoding::Base58)
        );
    }
    assert!(Identifier::from_string_with_encoding_string(COUNTING_BASE58, None).is_ok());
}

#[test]
fn from_string_with_name_base58_reads_base58() {
    for text in [COUNTING_BASE58, COUNTING_BASE64, "0", "", "1"] {
        assert_eq!(
            Identifier::from_string_with_encoding_string(text, Some("base58")),
            Identifier::from_string(text, Encoding::Base58)
        );
    }
    assert!(Identifier::from_string_with_encoding_string(COUNTING_BASE58, Some("base58")).is_ok());
}

#[test]
fn from_string_with_any_other_name_reads_base64() {
    for name in ["anything-else", "base64", "Base58", ""] {
        for text in [COUNTING_BASE58, COUNTING_BASE64, "0", "", "AA=="] {
            assert_eq!(
                Identifier::from_string_with_encoding_string(text, Some(name)),
                Identifier::from_string(text, Encoding::Base64)
            );
        }
        assert!(Identifier::from_string_with_encoding_string(COUNTING_BASE64, Some(name)).is_ok());
    }
}

#[test]
fn to_string_with_encoding_string_follows_the_same_policy() {
    let identifier = Identifier::from_bytes(&counting_bytes(32)).unwrap();
    assert_eq!(identifier.to_string_with_encoding_string(None), COUNTING_BASE58);
    assert_eq!(identifier.to_string_with_encoding_string(Some("base58")), COUNTING_BASE58);
    assert_eq!(identifier.to_string_with_encoding_string(Some("base64")), COUNTING_BASE64);
    assert_eq!(identifier.to_string_with_encoding_string(Some("anything-else")), COUNTING_BASE64);
}

#[test]
fn from_source_takes_text_or_bytes() {
    let bytes = counting_bytes(32);
    let from_buffer =
        Identifier::from_source(&IdentifierSource::Buffer(bytes.clone()), None).unwrap();
    assert_eq!(from_buffer.to_buffer().to_vec(), bytes);
    let from_text =
        Identifier::from_source(&IdentifierSource::String(COUNTING_BASE58.to_string()), None)
            .unwrap();
    assert_eq!(from_text, from_buffer);
    let from_base64 = Identifier::from_source(
        &IdentifierSource::String(COUNTING_BASE64.to_string()),
        Some("base64"),
    )
    .unwrap();
    assert_eq!(from_base64, from_buffer);
}

#[test]
fn from_source_ignores_the_name_for_bytes() {
    let source = IdentifierSource::Buffer(counting_bytes(32));
    assert_eq!(
        Identifier::from_source(&source, Some("base64")),
        Identifier::from_source(&source, None)
    );
}

#[test]
fn from_source_reports_the_errors_of_the_constructor_it_chose() {
    assert_eq!(
        Identifier::from_source(&IdentifierSource::Buffer(counting_bytes(31)), None),
        Err(IdentifierError::InvalidLength)
    );
    assert_eq!(
        Identifier::from_source(&IdentifierSource::String("0".to_string()), None),
        Err(IdentifierError::Decode(DecodeError { encoding: Encoding::Base58 }))
    );
    assert_eq!(
        Identifier::from_source(&IdentifierSource::String("0".to_string()), Some("x")),
        Err(IdentifierError::Decode(DecodeError { encoding: Encoding::Base64 }))
    );
}

#[test]
fn identifiers_are_plain_copies() {
    let identifier = Identifier::from_bytes(&counting_bytes(32)).unwrap();
    let copy = identifier;
    assert_eq!(copy, identifier);
    assert_eq!(copy.to_buffer(), identifier.to_buffer());
    let mut buffer = identifier.to_buffer();
    buffer[0] = 99;
    assert_eq!(identifier.to_buffer()[0], 1);
}

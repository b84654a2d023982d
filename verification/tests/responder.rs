use base64::Engine;
use hashcash::parse::parse_hashcash_header;
use hashcash::search::{gencash, SolveError, TOKEN_COPIES, TOKEN_LEN};
use hashcash::threshold::derive_threshold;
use sha2::Digest;

#[test]
fn known_vectors() {
    let cases = [
        (
            "wFqIT_wY3tYKcrm5zqwaUoWym3ZCz32cCsrJOgYBgihtpaWUhGyWJ--EY-zfwI-i",
            180u8,
            "owAAAA",
        ),
        (
            "3NIjq_fgu6bTyepwHuKiaB8a1YRjISBhktWK1fjhRx86RhOqKZNAcOZht0wJvmhQ",
            180u8,
            "AQAAAA",
        ),
    ];

    for (token, easiness, expected) in cases {
        assert_eq!(gencash(token, easiness), Ok(expected.to_string()));
    }
}

#[test]
fn invalid_base64_is_rejected() {
    assert_eq!(gencash("not_base64!", 180), Err(SolveError::InvalidBase64));
}

#[test]
fn token_of_47_bytes_is_rejected() {
    let token = base64::engine::general_purpose::URL_SAFE_NO_PAD.encode([0x5au8; 47]);
    assert_eq!(gencash(&token, 180), Err(SolveError::InvalidLength));
}

#[test]
fn token_of_49_bytes_is_rejected() {
    let token = base64::engine::general_purpose::URL_SAFE_NO_PAD.encode([0x5au8; 49]);
    assert_eq!(gencash(&token, 180), Err(SolveError::InvalidLength));
}

#[test]
fn token_of_48_bytes_is_accepted() {
    let token = base64::engine::general_purpose::URL_SAFE_NO_PAD.encode([0x5au8; 48]);
    // The easiest difficulty: the threshold accepts about half of all
    // digests, so the search ends after a couple of iterations.
    assert!(gencash(&token, 255).is_ok());
}

#[test]
fn solution_satisfies_threshold() {
    let token_bytes = [0x17u8; 48];
    let token = base64::engine::general_purpose::URL_SAFE_NO_PAD.encode(token_bytes);
    let easiness = 255u8;
    let solution = gencash(&token, easiness).unwrap();

    let modifier = base64::engine::general_purpose::STANDARD_NO_PAD
        .decode(&solution)
        .unwrap();
    assert_eq!(modifier.len(), 4);

    let mut buffer = Vec::with_capacity(4 + TOKEN_COPIES * TOKEN_LEN);
    buffer.extend_from_slice(&modifier);
    for _ in 0..TOKEN_COPIES {
        buffer.extend_from_slice(&token_bytes);
    }
    let digest = sha2::Sha256::digest(&buffer);
    let prefix = u32::from_be_bytes([digest[0], digest[1], digest[2], digest[3]]);
    assert!(prefix <= derive_threshold(easiness));
}

#[test]
fn threshold_is_deterministic_and_total() {
    for d in 0u16..=255 {
        let d = d as u8;
        assert_eq!(derive_threshold(d), derive_threshold(d));
    }
}

#[test]
fn threshold_known_values() {
    // 180 = 0b10110100: mantissa 52 gives base 105, exponent 2 gives
    // shift 17.
    assert_eq!(derive_threshold(180), 105u32 << 17);
    // Mantissa 0 gives the smallest base 1 and shift 3.
    assert_eq!(derive_threshold(0), 8);
    // All bits set: base 127, shift 24.
    assert_eq!(derive_threshold(255), 127u32 << 24);
}

fn sample_token_field() -> String {
    "wFqIT_wY3tYKcrm5zqwaUoWym3ZCz32cCsrJOgYBgihtpaWUhGyWJ--EY-zfwI-i".to_string()
}

#[test]
fn parse_well_formed_header() {
    let token = sample_token_field();
    assert_eq!(token.len(), 64);
    let header = format!("1:180:1693833275:{token}");
    assert_eq!(parse_hashcash_header(&header), Some((token, 180)));
}

#[test]
fn parse_trims_surrounding_whitespace() {
    let token = sample_token_field();
    let header = format!("  \t1:7:ts:{token}\r\n ");
    assert_eq!(parse_hashcash_header(&header), Some((token, 7)));
}

#[test]
fn parse_rejects_wrong_version() {
    let token = sample_token_field();
    let header = format!("2:180:1693833275:{token}");
    assert_eq!(parse_hashcash_header(&header), None);
}

#[test]
fn parse_rejects_token_of_63_chars() {
    let token = &sample_token_field()[..63];
    let header = format!("1:180:ts:{token}");
    assert_eq!(parse_hashcash_header(&header), None);
}

#[test]
fn parse_rejects_token_of_65_chars() {
    let token = format!("{}A", sample_token_field());
    let header = format!("1:180:ts:{token}");
    assert_eq!(parse_hashcash_header(&header), None);
}

#[test]
fn parse_rejects_difficulty_above_255() {
    let token = sample_token_field();
    let header = format!("1:256:ts:{token}");
    assert_eq!(parse_hashcash_header(&header), None);
}

#[test]
fn parse_rejects_malformed_difficulty() {
    let token = sample_token_field();
    assert_eq!(parse_hashcash_header(&format!("1::ts:{token}")), None);
    assert_eq!(parse_hashcash_header(&format!("1:1a:ts:{token}")), None);
    assert_eq!(parse_hashcash_header(&format!("1:-1:ts:{token}")), None);
}

#[test]
fn parse_accepts_plus_sign_difficulty() {
    // str::parse::<u8> accepts a leading plus, so the original parser
    // did too.
    let token = sample_token_field();
    let header = format!("1:+180:ts:{token}");
    assert_eq!(parse_hashcash_header(&header), Some((token, 180)));
}

#[test]
fn parse_rejects_missing_fields() {
    assert_eq!(parse_hashcash_header("1:180:1693833275"), None);
    assert_eq!(parse_hashcash_header("1:180"), None);
    assert_eq!(parse_hashcash_header("1"), None);
    assert_eq!(parse_hashcash_header(""), None);
    assert_eq!(parse_hashcash_header("   "), None);
    assert_eq!(parse_hashcash_header("unrelated header value"), None);
}

#[test]
fn parse_keeps_colons_in_token_field() {
    // The split stops after three colons: the token field is the whole
    // remainder, later colons included.
    let mut token = sample_token_field();
    token.replace_range(10..11, ":");
    let header = format!("1:33:ts:{token}");
    assert_eq!(parse_hashcash_header(&header), Some((token, 33)));
}

#[test]
fn parse_ignores_timestamp_contents() {
    let token = sample_token_field();
    for ts in ["", "0", "not a number", "169 383"] {
        let header = format!("1:42:{ts}:{token}");
        assert_eq!(parse_hashcash_header(&header), Some((token.clone(), 42)));
    }
}

#[test]
fn parse_recovers_serialized_header() {
    // A round trip through the wire format: serialize by hand, parse
    // back, recover the difficulty and token field.
    for d in [0u8, 9, 10, 99, 100, 180, 255] {
        let token = sample_token_field();
        let header = format!("1:{d}:1693833275:{token}");
        assert_eq!(parse_hashcash_header(&header), Some((token, d)));
    }
}

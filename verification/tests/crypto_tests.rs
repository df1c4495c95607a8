use aes::cipher::{BlockCipherEncrypt, KeyInit};
use base64::Engine;
use uestc_client::crypto::{cbc_encrypt, encrypt_password, encrypt_password_with};
use uestc_client::CryptoError;

#[test]
fn test_encrypt_password_aes128() {
    let password = "password123";
    // 16 bytes key
    let salt = "1234567890123456";
    let result = encrypt_password(password, salt);
    assert!(result.is_ok());

    let encrypted = result.unwrap();
    let decoded = base64::engine::general_purpose::STANDARD
        .decode(&encrypted)
        .expect("Should decode base64");

    // Output length should be a multiple of 16 (block size)
    assert_eq!(decoded.len() % 16, 0);
    // Length check: 64 (prefix) + 11 (password) + padding.
    // 75 bytes -> padding 5 bytes -> 80 bytes total.
    assert_eq!(decoded.len(), 80);
}

#[test]
fn test_encrypt_password_aes192() {
    let password = "password123";
    // 24 bytes key
    let salt = "123456789012345678901234";
    let result = encrypt_password(password, salt);
    assert!(result.is_ok());
}

#[test]
fn test_encrypt_password_aes256() {
    let password = "password123";
    // 32 bytes key
    let salt = "12345678901234567890123456789012";
    let result = encrypt_password(password, salt);
    assert!(result.is_ok());
}

#[test]
fn test_encrypt_password_invalid_key_length() {
    let password = "password123";
    // Invalid length (not 16, 24, or 32)
    let salt = "short";
    let result = encrypt_password(password, salt);
    assert!(result.is_err());

    match result {
        Err(CryptoError::InvalidKeyLength(n)) => {
            assert_eq!(n, 5);
        }
        _ => panic!("Expected CryptoError"),
    }
}

#[test]
fn test_randomness() {
    let password = "password123";
    let salt = "1234567890123456";

    let result1 = encrypt_password(password, salt).unwrap();
    let result2 = encrypt_password(password, salt).unwrap();

    // Should be different because of random IV and prefix
    assert_ne!(result1, result2);
}

/// The single-block cipher against the standard AES-128 example: a zero
/// initialization vector makes the first CBC block plain AES.
#[test]
fn test_cbc_single_block_aes128_vector() {
    let key: Vec<u8> = (0x00..=0x0f).collect();
    let iv = [0u8; 16];
    let plaintext: Vec<u8> = vec![
        0x00, 0x11, 0x22, 0x33, 0x44, 0x55, 0x66, 0x77, 0x88, 0x99, 0xaa, 0xbb, 0xcc, 0xdd, 0xee,
        0xff,
    ];
    let ct = cbc_encrypt(&key, &iv, &plaintext);
    let expected: Vec<u8> = vec![
        0x69, 0xc4, 0xe0, 0xd8, 0x6a, 0x7b, 0x04, 0x30, 0xd8, 0xcd, 0xb7, 0x80, 0x70, 0xb4, 0xc5,
        0x5a,
    ];
    assert_eq!(ct, expected);
}

/// CBC chaining: the second block's input is XORed with the first block's
/// ciphertext, so it differs from encrypting the block alone.
#[test]
fn test_cbc_chains_blocks() {
    let key = b"1234567890123456".to_vec();
    let iv = [0u8; 16];
    let block = [0x41u8; 16];
    let mut two = Vec::new();
    two.extend_from_slice(&block);
    two.extend_from_slice(&block);
    let ct = cbc_encrypt(&key, &iv, &two);
    assert_eq!(ct.len(), 32);
    assert_ne!(&ct[0..16], &ct[16..32]);
}

/// The fixed-material variant against an independent computation with the
/// cipher crate: padding, chaining and encoding all line up byte for byte.
#[test]
fn test_encrypt_with_materials_matches_manual_cbc() {
    let password = "pw";
    let salt = "1234567890123456";
    let iv = b"ABCDEFGHJKMNPQRS";
    let prefix: String = std::iter::repeat('a').take(64).collect();

    let got = encrypt_password_with(password, salt, iv, prefix.as_bytes()).unwrap();

    // plain = prefix || password, padded to a whole number of blocks
    let mut plain: Vec<u8> = Vec::new();
    plain.extend_from_slice(prefix.as_bytes());
    plain.extend_from_slice(password.as_bytes());
    let pad = 16 - plain.len() % 16;
    plain.extend(std::iter::repeat(pad as u8).take(pad));

    let cipher = aes::Aes128::new_from_slice(salt.as_bytes()).unwrap();
    let mut prev = *iv;
    let mut ct: Vec<u8> = Vec::new();
    for chunk in plain.chunks(16) {
        let mut block = aes::Block::default();
        for k in 0..16 {
            block[k] = chunk[k] ^ prev[k];
        }
        cipher.encrypt_block(&mut block);
        ct.extend_from_slice(&block);
        prev = block.into();
    }
    let expected = base64::engine::general_purpose::STANDARD.encode(&ct);
    assert_eq!(got, expected);
}

/// An invalid salt is rejected with its own length, whatever the password.
#[test]
fn test_invalid_key_length_carries_length() {
    let r = encrypt_password("x", "12345678901234567");
    assert_eq!(r, Err(CryptoError::InvalidKeyLength(17)));
}

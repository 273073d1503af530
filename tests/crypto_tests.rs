use hiho::{decode_envelope, decrypt, derive_key, encode_envelope, encrypt, encrypt_with_iv, EncryptedData, VaultError};

fn hex(s: &str) -> Vec<u8> {
    (0..s.len()).step_by(2).map(|i| u8::from_str_radix(&s[i..i + 2], 16).unwrap()).collect()
}

#[test]
fn derive_key_is_deterministic() {
    let a = derive_key("correct horse", "hiho_salt_2024").unwrap();
    let b = derive_key("correct horse", "hiho_salt_2024").unwrap();
    assert_eq!(a, b);
    assert_eq!(a.len(), 32);
    assert_ne!(&a[..13], "correct horse".as_bytes());
}

#[test]
fn derive_key_depends_on_password() {
    let a = derive_key("correct horse", "hiho_salt_2024").unwrap();
    let b = derive_key("correct horsf", "hiho_salt_2024").unwrap();
    assert_ne!(a, b);
}

#[test]
fn derive_key_rejects_too_short_salt() {
    assert_eq!(derive_key("pw", "ab"), Err(VaultError::KeyDerivationError));
    assert_eq!(derive_key("pw", ""), Err(VaultError::KeyDerivationError));
}

#[test]
fn aes_cbc_matches_known_vector() {
    let key: [u8; 32] = hex("603deb1015ca71be2b73aef0857d77811f352c073b6108d72d9810a30914dff4").try_into().unwrap();
    let iv: [u8; 16] = hex("000102030405060708090a0b0c0d0e0f").try_into().unwrap();
    let plaintext = hex("6bc1bee22e409f96e93d7e117393172a");
    let e = encrypt_with_iv(&plaintext, &key, iv);
    assert_eq!(e.iv, iv);
    assert_eq!(e.ciphertext.len(), 32);
    assert_eq!(&e.ciphertext[..16], &hex("f58c4c04d6e5f1ba779eabfb5f7bfbd6")[..]);
    assert_eq!(decrypt(&e, &key).unwrap(), plaintext);
}

#[test]
fn encrypt_decrypt_round_trip() {
    let key = [7u8; 32];
    for data in [&b""[..], &b"a"[..], &b"exactly sixteen!"[..], &b"a somewhat longer payload of bytes"[..]] {
        let e = encrypt(data, &key).unwrap();
        assert_eq!(e.ciphertext.len(), (data.len() / 16 + 1) * 16);
        assert_eq!(decrypt(&e, &key).unwrap(), data.to_vec());
    }
}

#[test]
fn encrypting_twice_uses_fresh_ivs() {
    let key = [9u8; 32];
    let data = b"same plaintext twice";
    let a = encrypt(data, &key).unwrap();
    let b = encrypt(data, &key).unwrap();
    assert_ne!(a.iv, b.iv);
    assert_ne!(a.ciphertext, b.ciphertext);
    assert_eq!(decrypt(&a, &key).unwrap(), data.to_vec());
    assert_eq!(decrypt(&b, &key).unwrap(), data.to_vec());
}

#[test]
fn decrypting_with_another_key_fails() {
    let e = encrypt_with_iv(b"secret entries", &[1u8; 32], [3u8; 16]);
    assert_eq!(decrypt(&e, &[2u8; 32]), Err(VaultError::DecryptionError));
}

#[test]
fn decrypting_a_truncated_ciphertext_fails() {
    let mut e = encrypt_with_iv(b"secret entries", &[1u8; 32], [3u8; 16]);
    e.ciphertext.pop();
    assert_eq!(decrypt(&e, &[1u8; 32]), Err(VaultError::DecryptionError));
}

#[test]
fn envelope_layout_is_length_prefix_ciphertext_iv() {
    let e = EncryptedData { ciphertext: vec![0xaa, 0xbb, 0xcc], iv: [5u8; 16] };
    let bytes = encode_envelope(&e);
    let mut expected = vec![3u8, 0, 0, 0, 0, 0, 0, 0, 0xaa, 0xbb, 0xcc];
    expected.extend_from_slice(&[5u8; 16]);
    assert_eq!(bytes, expected);
    let back = decode_envelope(&bytes).unwrap();
    assert_eq!(back.ciphertext, e.ciphertext);
    assert_eq!(back.iv, e.iv);
}

#[test]
fn envelope_matches_bincode_encoding() {
    let ciphertext: Vec<u8> = (0u8..48).collect();
    let iv = [0x42u8; 16];
    let e = EncryptedData { ciphertext: ciphertext.clone(), iv };
    assert_eq!(encode_envelope(&e), bincode::serialize(&(ciphertext, iv)).unwrap());
}

#[test]
fn malformed_envelopes_are_rejected() {
    assert!(matches!(decode_envelope(&[]), Err(VaultError::MalformedVaultFile)));
    assert!(matches!(decode_envelope(&[0u8; 23]), Err(VaultError::MalformedVaultFile)));
    let mut bytes = encode_envelope(&EncryptedData { ciphertext: vec![1, 2, 3, 4], iv: [0u8; 16] });
    bytes.push(0);
    assert!(matches!(decode_envelope(&bytes), Err(VaultError::MalformedVaultFile)));
    bytes.pop();
    bytes.pop();
    assert!(matches!(decode_envelope(&bytes), Err(VaultError::MalformedVaultFile)));
    let empty = encode_envelope(&EncryptedData { ciphertext: vec![], iv: [0u8; 16] });
    assert_eq!(empty.len(), 24);
    assert!(decode_envelope(&empty).unwrap().ciphertext.is_empty());
}

use kms_local::crypto::Error;
use kms_local::crypto::KEY_LEN;
use kms_local::crypto::NONCE_LEN;
use kms_local::crypto::TAG_LEN;
use kms_local::crypto::decrypt_data;
use kms_local::crypto::empty_key;
use kms_local::crypto::encrypt_data;
use kms_local::crypto::make_nonce;

#[test]
fn encrypt_decrypt() {
    let bytes = b"i am test data to encrypt and decrypt";
    let empty_key = [0u8; KEY_LEN];

    let encrypted = match encrypt_data(&empty_key, bytes.to_vec()) {
        Ok(e) => e,
        Err(err) => {
            panic!("failed to encrypt data: {:?}\nbytes: {:?}", err, bytes);
        }
    };

    let decrypted = match decrypt_data(&empty_key, encrypted.clone()) {
        Ok(d) => d,
        Err(err) => {
            panic!("failed to decrypt data: {:?}\nencrypted: {:?}", err, encrypted);
        }
    };

    assert_eq!(bytes, decrypted.as_slice());
}

#[test]
fn zero_key_scenario_lengths() {
    let key = empty_key();
    let plaintext = b"i am test data to encrypt and decrypt";

    let blob = encrypt_data(&key, plaintext.to_vec()).expect("encrypt failed");
    assert_eq!(blob.len(), NONCE_LEN + plaintext.len() + TAG_LEN);

    let back = decrypt_data(&key, blob).expect("decrypt failed");
    assert_eq!(back.len(), plaintext.len());
    assert_eq!(back.as_slice(), plaintext);
}

#[test]
fn round_trip_empty_payload() {
    let key = empty_key();
    let blob = encrypt_data(&key, Vec::new()).expect("encrypt failed");
    assert_eq!(blob.len(), NONCE_LEN + TAG_LEN);
    let back = decrypt_data(&key, blob).expect("decrypt failed");
    assert!(back.is_empty());
}

#[test]
fn round_trip_large_payload() {
    let key = [7u8; KEY_LEN];
    let mut payload = Vec::new();
    for i in 0..70_000usize {
        payload.push((i % 251) as u8);
    }
    assert!(payload.len() > 64 * 1024);
    let blob = encrypt_data(&key, payload.clone()).expect("encrypt failed");
    let back = decrypt_data(&key, blob).expect("decrypt failed");
    assert_eq!(back, payload);
}

#[test]
fn decrypt_wrong_key_fails() {
    let key_a = [1u8; KEY_LEN];
    let key_b = [2u8; KEY_LEN];
    let blob = encrypt_data(&key_a, b"secret payload".to_vec()).expect("encrypt failed");
    let r = decrypt_data(&key_b, blob);
    assert!(matches!(r, Err(Error::ChaCha)));
}

#[test]
fn decrypt_flipped_bit_fails() {
    let key = [9u8; KEY_LEN];
    let blob = encrypt_data(&key, b"secret payload".to_vec()).expect("encrypt failed");
    for flip_at in [0usize, NONCE_LEN, blob.len() - 1] {
        let mut tampered = blob.clone();
        tampered[flip_at] ^= 1;
        let r = decrypt_data(&key, tampered);
        assert!(matches!(r, Err(Error::ChaCha)));
    }
}

#[test]
fn decrypt_short_input_invalid_encoding() {
    let key = empty_key();
    for len in [0usize, 1, 10, NONCE_LEN - 1] {
        let r = decrypt_data(&key, vec![0u8; len]);
        assert!(matches!(r, Err(Error::InvalidEncoding)));
    }
}

#[test]
fn make_nonce_has_nonce_length() {
    let nonce = make_nonce().expect("random source failed");
    assert_eq!(nonce.len(), NONCE_LEN);
}

use contrasleuth::private_box::{decrypt, encrypt};
use sodiumoxide::crypto::box_::gen_keypair;

#[test]
fn one_recipient() {
    sodiumoxide::init().unwrap();
    let (public_key, private_key) = gen_keypair();
    let string = "The quick brown fox jumps over the lazy dog.".as_bytes();
    let encrypted = encrypt(string, &vec![public_key.as_ref()]).unwrap();
    assert_eq!(
        &decrypt(&encrypted, private_key.as_ref()).unwrap() as &[u8],
        string
    );
}

#[test]
fn three_recipients() {
    sodiumoxide::init().unwrap();
    let (public_key1, private_key1) = gen_keypair();
    let (public_key2, private_key2) = gen_keypair();
    let (public_key3, private_key3) = gen_keypair();
    let string = "The quick brown fox jumps over the lazy dog.".as_bytes();
    let encrypted = encrypt(
        string,
        &vec![
            public_key1.as_ref(),
            public_key2.as_ref(),
            public_key3.as_ref(),
        ],
    )
    .unwrap();
    assert_eq!(
        &decrypt(&encrypted, private_key1.as_ref()).unwrap() as &[u8],
        string
    );
    assert_eq!(
        &decrypt(&encrypted, private_key2.as_ref()).unwrap() as &[u8],
        string
    );
    assert_eq!(
        &decrypt(&encrypted, private_key3.as_ref()).unwrap() as &[u8],
        string
    );
}

#[test]
fn envelope_layout_has_one_slot_per_recipient() {
    sodiumoxide::init().unwrap();
    let (public_key1, _) = gen_keypair();
    let (public_key2, _) = gen_keypair();
    let plaintext = b"hello";
    let encrypted = encrypt(plaintext, &vec![public_key1.as_ref(), public_key2.as_ref()]).unwrap();
    // nonce, ephemeral key, two 49-byte slots, sealed plaintext.
    assert_eq!(encrypted.len(), 24 + 32 + 2 * 49 + plaintext.len() + 16);
}

#[test]
fn stranger_cannot_decrypt() {
    sodiumoxide::init().unwrap();
    let (public_key, _) = gen_keypair();
    let (_, stranger) = gen_keypair();
    let encrypted = encrypt(b"secret", &vec![public_key.as_ref()]).unwrap();
    assert!(decrypt(&encrypted, stranger.as_ref()).is_none());
}

#[test]
fn short_or_malformed_envelopes_are_rejected() {
    sodiumoxide::init().unwrap();
    let (_, private_key) = gen_keypair();
    assert!(decrypt(&[0u8; 10], private_key.as_ref()).is_none());
    assert!(decrypt(&[7u8; 200], private_key.as_ref()).is_none());
    let (public_key, _) = gen_keypair();
    let encrypted = encrypt(b"x", &vec![public_key.as_ref()]).unwrap();
    assert!(decrypt(&encrypted, &[1u8; 31]).is_none());
}

#[test]
fn unacceptable_keys_are_refused() {
    sodiumoxide::init().unwrap();
    let short = [1u8; 31];
    assert!(encrypt(b"x", &vec![&short[..]]).is_none());
    let (public_key, _) = gen_keypair();
    let keys: Vec<&[u8]> = (0..256).map(|_| public_key.as_ref()).collect();
    assert!(encrypt(b"x", &keys).is_none());
    let keys: Vec<&[u8]> = (0..255).map(|_| public_key.as_ref()).collect();
    assert!(encrypt(b"x", &keys).is_some());
}

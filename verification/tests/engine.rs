use rclone_decrypt::codec::Sodium;
use rclone_decrypt::container::{EncryptedContainer, CHUNK_PAYLOAD_SIZE, CHUNK_SIZE};
use rclone_decrypt::decryptor::RcloneDecryptor;
use rclone_decrypt::engine::{
    apply_policy, decrypt_chunks, decrypt_container, decrypt_container_with, other_rules,
    resolve_rule, TruncationPolicy,
};
use rclone_decrypt::error::DecryptionError;
use rclone_decrypt::kdf::CostParameters;
use rclone_decrypt::nonce::NonceRule;
use sodiumoxide::crypto::secretbox;

const LITTLE: NonceRule = NonceRule::LittleEndianIncrement;
const BIG: NonceRule = NonceRule::BigEndianIncrement;
const COUNTER: NonceRule = NonceRule::TrailingCounterIncrement;

fn seal(plaintext: &[u8], nonce: &[u8; 24], key: &[u8; 32]) -> Vec<u8> {
    secretbox::seal(plaintext, &secretbox::Nonce(*nonce), &secretbox::Key(*key))
}

fn derive(password: &[u8], salt: &[u8], log2_n: u8, r: u32, p: u32) -> [u8; 32] {
    let params = scrypt::Params::new(log2_n, r, p, 32).unwrap();
    let mut key = [0u8; 32];
    scrypt::scrypt(password, salt, &params, &mut key).unwrap();
    key
}

/// The key that scrypt derives at the canonical cost (`N = 2^14`, `r = 8`,
/// `p = 1`) for the passwords and salts of these tests.
fn canonical_key(password: &str, salt: &str) -> [u8; 32] {
    let known = [
        ("secret", "", "96ac446ccb332f614eb0468a23d792d24f1e0bbbcec0aab90f5db039ea38dd1b"),
        ("secret", "testsalt", "4c0cc7dcf77cce39242e883c303171c71c9c37052535866c8deb8da68847fbb5"),
        ("correct horse", "", "87d14174dd2a91abc09d7df4a279cf6a90a552d4022755c94b7671341e0448bf"),
        ("pw", "testsalt", "bdb5871a81e266d33225ddd53f7880455fd14f6cb3764517f00ed61d322619ba"),
        ("pw", "", "ca166bce96eb4c3749918820e145674edeabac1e01d27685cddf9fd6000eecbd"),
    ];
    for (p, s, key) in known {
        if p == password && s == salt {
            let mut out = [0u8; 32];
            out.copy_from_slice(&hex::decode(key).unwrap());
            return out;
        }
    }
    panic!("no key recorded for {:?} and {:?}", password, salt);
}

fn fixed_key() -> [u8; 32] {
    let mut key = [0u8; 32];
    for (i, byte) in key.iter_mut().enumerate() {
        *byte = (i as u8).wrapping_mul(29).wrapping_add(1);
    }
    key
}

fn base() -> [u8; 24] {
    let mut nonce = [0u8; 24];
    for (i, byte) in nonce.iter_mut().enumerate() {
        *byte = 0x10 + i as u8;
    }
    nonce
}

fn step(nonce: &mut [u8; 24], rule: NonceRule) {
    match rule {
        NonceRule::LittleEndianIncrement => {
            for byte in nonce.iter_mut() {
                *byte = byte.wrapping_add(1);
                if *byte != 0 {
                    break;
                }
            }
        }
        NonceRule::BigEndianIncrement => {
            for byte in nonce.iter_mut().rev() {
                *byte = byte.wrapping_add(1);
                if *byte != 0 {
                    break;
                }
            }
        }
        NonceRule::TrailingCounterIncrement => {
            let mut counter = [0u8; 8];
            counter.copy_from_slice(&nonce[16..]);
            let next = u64::from_le_bytes(counter).wrapping_add(1);
            nonce[16..].copy_from_slice(&next.to_le_bytes());
        }
    }
}

fn pattern(len: usize, seed: u8) -> Vec<u8> {
    (0..len).map(|i| (i as u8).wrapping_mul(31).wrapping_add(seed) ^ (i >> 8) as u8).collect()
}

/// A container whose plaintext is sealed in chunks of a full payload each,
/// the nonce stepping by `rule`.
fn chunked(plaintext: &[u8], nonce: [u8; 24], key: &[u8; 32], rule: NonceRule) -> Vec<u8> {
    let mut data = b"RCLONE\x00\x00".to_vec();
    data.extend_from_slice(&nonce);
    let mut current = nonce;
    for piece in plaintext.chunks(CHUNK_PAYLOAD_SIZE) {
        data.extend_from_slice(&seal(piece, &current, key));
        step(&mut current, rule);
    }
    data
}

/// A container whose plaintext is sealed as one block.
fn unchunked(plaintext: &[u8], nonce: [u8; 24], key: &[u8; 32]) -> Vec<u8> {
    let mut data = b"RCLONE\x00\x00".to_vec();
    data.extend_from_slice(&nonce);
    data.extend_from_slice(&seal(plaintext, &nonce, key));
    data
}

#[test]
fn hello_world_decrypts_with_the_right_password() {
    let sodium = Sodium::init().unwrap();
    let key = canonical_key("secret", "");
    let data = chunked(b"hello world", base(), &key, LITTLE);
    assert_eq!(data.len(), 32 + 11 + 16);
    let decryptor = RcloneDecryptor::new("secret".to_string(), String::new()).unwrap();
    let run = decryptor.decrypt_file_with(&sodium, &data).unwrap();
    assert_eq!(run.plaintext, b"hello world".to_vec());
    assert_eq!(run.plaintext.len(), 11);
    assert_eq!(run.consumed, 27);
    assert_eq!(run.rule, LITTLE);
}

#[test]
fn hello_world_fails_with_a_wrong_password() {
    let sodium = Sodium::init().unwrap();
    let key = canonical_key("secret", "");
    let data = chunked(b"hello world", base(), &key, LITTLE);
    let decryptor = RcloneDecryptor::new("Secret".to_string(), String::new()).unwrap();
    let run = decryptor.decrypt_file_with(&sodium, &data);
    assert!(matches!(run, Err(DecryptionError::InvalidPassword)));
}

#[test]
fn hello_world_fails_with_a_wrong_salt() {
    let sodium = Sodium::init().unwrap();
    let key = canonical_key("secret", "testsalt");
    let data = chunked(b"hello world", base(), &key, LITTLE);
    let decryptor = RcloneDecryptor::new("secret".to_string(), "testsal".to_string()).unwrap();
    let run = decryptor.decrypt_file_with(&sodium, &data);
    assert!(matches!(run, Err(DecryptionError::InvalidPassword)));
}

#[test]
fn decrypt_file_takes_a_hex_salt_and_initialises_by_itself() {
    let key = canonical_key("secret", "testsalt");
    let data = chunked(b"hello world", base(), &key, LITTLE);
    let decryptor =
        RcloneDecryptor::new("secret".to_string(), "0x7465737473616c74".to_string()).unwrap();
    assert_eq!(decryptor.decrypt_file(&data).unwrap().plaintext, b"hello world".to_vec());
}

#[test]
fn a_changed_first_byte_is_no_container_whatever_the_password() {
    let sodium = Sodium::init().unwrap();
    let cost = CostParameters { log2_n: 4, r: 1, p: 1 };
    let key = derive(b"secret", b"salt", 4, 1, 1);
    let data = chunked(b"hello world", base(), &key, LITTLE);
    assert!(decrypt_container_with(&sodium, &data, b"secret", b"salt", &cost, LITTLE).is_ok());
    for byte in 0..=255u8 {
        if byte == b'R' {
            continue;
        }
        let mut changed = data.clone();
        changed[0] = byte;
        for password in [&b"secret"[..], &b"wrong"[..]] {
            assert!(matches!(
                decrypt_container_with(&sodium, &changed, password, b"salt", &cost, LITTLE),
                Err(DecryptionError::InvalidFormat)
            ));
        }
    }
    let right = RcloneDecryptor::new("secret".to_string(), "salt".to_string()).unwrap();
    let mut changed = data.clone();
    changed[0] = b'r';
    assert!(matches!(right.decrypt_file(&changed), Err(DecryptionError::InvalidFormat)));
    assert!(matches!(
        right.decrypt_file_with(&sodium, &changed),
        Err(DecryptionError::InvalidFormat)
    ));
}

#[test]
fn a_truncated_header_is_no_container() {
    let sodium = Sodium::init().unwrap();
    let cost = CostParameters { log2_n: 4, r: 1, p: 1 };
    let key = derive(b"secret", b"salt", 4, 1, 1);
    let data = chunked(b"hello world", base(), &key, LITTLE);
    for len in [0usize, 1, 7, 8, 9, 31] {
        assert!(matches!(
            decrypt_container_with(&sodium, &data[..len], b"secret", b"salt", &cost, LITTLE),
            Err(DecryptionError::InvalidFormat)
        ));
    }
}

#[test]
fn cost_at_which_no_key_can_be_derived_is_reported() {
    let sodium = Sodium::init().unwrap();
    let key = derive(b"secret", b"salt", 4, 1, 1);
    let data = chunked(b"hello world", base(), &key, LITTLE);
    for cost in [
        CostParameters { log2_n: 4, r: 0, p: 1 },
        CostParameters { log2_n: 4, r: 1, p: 0 },
        CostParameters { log2_n: 16, r: 1, p: 1 },
        CostParameters { log2_n: 60, r: 8, p: 1 },
    ] {
        assert!(matches!(
            decrypt_container_with(&sodium, &data, b"secret", b"salt", &cost, LITTLE),
            Err(DecryptionError::BadParameters)
        ));
        assert!(matches!(
            decrypt_container(&data, b"secret", b"salt", &cost, LITTLE),
            Err(DecryptionError::BadParameters)
        ));
    }
    let mut changed = data.clone();
    changed[3] = 0;
    assert!(matches!(
        decrypt_container_with(
            &sodium,
            &changed,
            b"secret",
            b"salt",
            &CostParameters { log2_n: 4, r: 0, p: 1 },
            LITTLE
        ),
        Err(DecryptionError::InvalidFormat)
    ));
}

#[test]
fn the_engine_runs_at_the_cost_it_is_given() {
    let sodium = Sodium::init().unwrap();
    let key = derive(b"pass", b"pepper", 6, 2, 3);
    let data = chunked(b"some plaintext", base(), &key, LITTLE);
    let right = CostParameters { log2_n: 6, r: 2, p: 3 };
    let run = decrypt_container_with(&sodium, &data, b"pass", b"pepper", &right, LITTLE).unwrap();
    assert_eq!(run.plaintext, b"some plaintext".to_vec());
    assert_eq!(run.rule, LITTLE);
    assert_eq!(run.consumed, data.len() - 32);
    let run = decrypt_container(&data, b"pass", b"pepper", &right, BIG).unwrap();
    assert_eq!(run.plaintext, b"some plaintext".to_vec());
    assert_eq!(run.rule, BIG);
    let other = CostParameters { log2_n: 6, r: 2, p: 2 };
    assert!(matches!(
        decrypt_container_with(&sodium, &data, b"pass", b"pepper", &other, LITTLE),
        Err(DecryptionError::InvalidPassword)
    ));
}

#[test]
fn an_empty_plaintext_in_one_chunk_decrypts_to_nothing() {
    let sodium = Sodium::init().unwrap();
    let data = unchunked(b"", base(), &fixed_key());
    let container = EncryptedContainer::parse(&data).unwrap();
    let run = decrypt_chunks(&sodium, &container, &fixed_key(), LITTLE).unwrap();
    assert_eq!(run.plaintext, Vec::<u8>::new());
    assert_eq!(run.consumed, 16);
}

#[test]
fn a_header_without_ciphertext_does_not_authenticate() {
    let sodium = Sodium::init().unwrap();
    let mut data = b"RCLONE\x00\x00".to_vec();
    data.extend_from_slice(&base());
    let container = EncryptedContainer::parse(&data).unwrap();
    assert!(matches!(
        decrypt_chunks(&sodium, &container, &fixed_key(), LITTLE),
        Err(DecryptionError::InvalidPassword)
    ));
    data.extend_from_slice(&[0u8; 15]);
    let container = EncryptedContainer::parse(&data).unwrap();
    assert!(matches!(
        decrypt_chunks(&sodium, &container, &fixed_key(), LITTLE),
        Err(DecryptionError::InvalidPassword)
    ));
}

#[test]
fn one_full_chunk_is_a_single_chunk() {
    let sodium = Sodium::init().unwrap();
    let plaintext = pattern(CHUNK_PAYLOAD_SIZE, 7);
    let data = chunked(&plaintext, base(), &fixed_key(), LITTLE);
    assert_eq!(data.len() - 32, 65552);
    let container = EncryptedContainer::parse(&data).unwrap();
    assert_eq!(container.ciphertext().len(), CHUNK_SIZE);
    let run = decrypt_chunks(&sodium, &container, &fixed_key(), LITTLE).unwrap();
    assert_eq!(run.plaintext, plaintext);
    assert_eq!(run.consumed, 65552);
    assert_eq!(run.rule, LITTLE);
}

#[test]
fn one_full_chunk_with_a_wrong_key_fails_as_a_whole() {
    let sodium = Sodium::init().unwrap();
    let plaintext = pattern(CHUNK_PAYLOAD_SIZE, 7);
    let data = chunked(&plaintext, base(), &fixed_key(), LITTLE);
    let container = EncryptedContainer::parse(&data).unwrap();
    let mut wrong = fixed_key();
    wrong[0] ^= 1;
    assert!(matches!(
        decrypt_chunks(&sodium, &container, &wrong, LITTLE),
        Err(DecryptionError::InvalidPassword)
    ));
}

#[test]
fn a_large_container_sealed_as_one_block_decrypts_as_one() {
    let sodium = Sodium::init().unwrap();
    let plaintext = pattern(3 * CHUNK_PAYLOAD_SIZE + 5, 1);
    let data = unchunked(&plaintext, base(), &fixed_key());
    let container = EncryptedContainer::parse(&data).unwrap();
    let run = decrypt_chunks(&sodium, &container, &fixed_key(), COUNTER).unwrap();
    assert_eq!(run.plaintext, plaintext);
    assert_eq!(run.consumed, plaintext.len() + 16);
    assert_eq!(run.rule, COUNTER);
}

#[test]
fn chunks_decrypt_in_order_under_the_active_rule() {
    let sodium = Sodium::init().unwrap();
    for rule in [LITTLE, BIG, COUNTER] {
        for len in [CHUNK_PAYLOAD_SIZE + 1, 2 * CHUNK_PAYLOAD_SIZE, 3 * CHUNK_PAYLOAD_SIZE + 777] {
            let plaintext = pattern(len, 3);
            let data = chunked(&plaintext, base(), &fixed_key(), rule);
            let container = EncryptedContainer::parse(&data).unwrap();
            let run = decrypt_chunks(&sodium, &container, &fixed_key(), rule).unwrap();
            assert_eq!(run.plaintext, plaintext);
            assert_eq!(run.rule, rule);
            assert_eq!(run.consumed, data.len() - 32);
        }
    }
}

#[test]
fn the_nonce_carries_across_chunks() {
    let sodium = Sodium::init().unwrap();
    let mut nonce = base();
    nonce[0] = 0xff;
    nonce[1] = 0xff;
    nonce[23] = 0xff;
    nonce[16] = 0xff;
    for rule in [LITTLE, BIG, COUNTER] {
        let plaintext = pattern(2 * CHUNK_PAYLOAD_SIZE + 10, 9);
        let data = chunked(&plaintext, nonce, &fixed_key(), rule);
        let container = EncryptedContainer::parse(&data).unwrap();
        let run = decrypt_chunks(&sodium, &container, &fixed_key(), rule).unwrap();
        assert_eq!(run.plaintext, plaintext);
        assert_eq!(run.consumed, data.len() - 32);
    }
}

#[test]
fn the_second_chunk_resolves_the_nonce_rule() {
    let sodium = Sodium::init().unwrap();
    let plaintext = pattern(3 * CHUNK_PAYLOAD_SIZE + 100, 5);
    for sealed_with in [LITTLE, BIG, COUNTER] {
        let data = chunked(&plaintext, base(), &fixed_key(), sealed_with);
        let container = EncryptedContainer::parse(&data).unwrap();
        for active in [LITTLE, BIG, COUNTER] {
            let run = decrypt_chunks(&sodium, &container, &fixed_key(), active).unwrap();
            assert_eq!(run.plaintext, plaintext);
            assert_eq!(run.rule, sealed_with);
            assert_eq!(run.consumed, data.len() - 32);
        }
    }
}

#[test]
fn resolve_rule_tries_the_two_other_rules_in_order() {
    let sodium = Sodium::init().unwrap();
    let key = fixed_key();
    for sealed_with in [LITTLE, BIG, COUNTER] {
        let mut second = base();
        step(&mut second, sealed_with);
        let chunk = seal(b"second chunk", &second, &key);
        for active in [LITTLE, BIG, COUNTER] {
            let found = resolve_rule(&sodium, &chunk, &key, &base(), active);
            if active == sealed_with {
                assert!(found.is_none());
            } else {
                let (adopted, plaintext) = found.unwrap();
                assert_eq!(adopted, sealed_with);
                assert_eq!(plaintext, b"second chunk".to_vec());
            }
        }
    }
    // After the largest nonce the little-endian and the big-endian step agree:
    // the earlier of the two in the order is adopted.
    let chunk = seal(b"ambiguous", &[0u8; 24], &key);
    let found = resolve_rule(&sodium, &chunk, &key, &[0xffu8; 24], COUNTER);
    assert_eq!(found.unwrap().0, LITTLE);
    let found = resolve_rule(&sodium, &chunk, &key, &[0xffu8; 24], LITTLE);
    assert_eq!(found.unwrap().0, BIG);
    let found = resolve_rule(&sodium, &chunk, &key, &[0xffu8; 24], BIG);
    assert_eq!(found.unwrap().0, LITTLE);
}

#[test]
fn a_second_chunk_that_opens_under_no_rule_ends_the_stream() {
    let sodium = Sodium::init().unwrap();
    let plaintext = pattern(CHUNK_PAYLOAD_SIZE, 2);
    let mut data = chunked(&plaintext, base(), &fixed_key(), LITTLE);
    data.extend_from_slice(&[0xaau8; 300]);
    let container = EncryptedContainer::parse(&data).unwrap();
    let run = decrypt_chunks(&sodium, &container, &fixed_key(), LITTLE).unwrap();
    assert_eq!(run.plaintext, plaintext);
    assert_eq!(run.consumed, CHUNK_SIZE);
    assert!(run.consumed < container.ciphertext().len());
    assert_eq!(run.rule, LITTLE);
}

#[test]
fn a_later_chunk_that_fails_ends_the_stream() {
    let sodium = Sodium::init().unwrap();
    let plaintext = pattern(2 * CHUNK_PAYLOAD_SIZE, 4);
    let mut data = chunked(&plaintext, base(), &fixed_key(), BIG);
    data.extend_from_slice(&[0x55u8; 64]);
    let container = EncryptedContainer::parse(&data).unwrap();
    let run = decrypt_chunks(&sodium, &container, &fixed_key(), LITTLE).unwrap();
    assert_eq!(run.plaintext, plaintext);
    assert_eq!(run.consumed, 2 * CHUNK_SIZE);
    assert_eq!(run.rule, BIG);
}

#[test]
fn a_corrupted_third_chunk_truncates_the_plaintext() {
    let sodium = Sodium::init().unwrap();
    let plaintext = pattern(4 * CHUNK_PAYLOAD_SIZE, 6);
    let mut data = chunked(&plaintext, base(), &fixed_key(), LITTLE);
    data[32 + 2 * CHUNK_SIZE + 20] ^= 1;
    let container = EncryptedContainer::parse(&data).unwrap();
    let run = decrypt_chunks(&sodium, &container, &fixed_key(), LITTLE).unwrap();
    assert_eq!(run.plaintext, plaintext[..2 * CHUNK_PAYLOAD_SIZE].to_vec());
    assert_eq!(run.consumed, 2 * CHUNK_SIZE);
}

#[test]
fn a_remainder_too_short_for_a_tag_is_left_alone() {
    let sodium = Sodium::init().unwrap();
    let plaintext = pattern(CHUNK_PAYLOAD_SIZE, 8);
    for extra in [1usize, 15] {
        let mut data = chunked(&plaintext, base(), &fixed_key(), LITTLE);
        data.extend_from_slice(&vec![0u8; extra]);
        let container = EncryptedContainer::parse(&data).unwrap();
        let run = decrypt_chunks(&sodium, &container, &fixed_key(), LITTLE).unwrap();
        assert_eq!(run.plaintext, plaintext);
        assert_eq!(run.consumed, CHUNK_SIZE);
    }
}

#[test]
fn a_first_chunk_that_fails_fails_the_run() {
    let sodium = Sodium::init().unwrap();
    let plaintext = pattern(2 * CHUNK_PAYLOAD_SIZE + 3, 4);
    let mut data = chunked(&plaintext, base(), &fixed_key(), LITTLE);
    data[32 + 5] ^= 0x40;
    let container = EncryptedContainer::parse(&data).unwrap();
    assert!(matches!(
        decrypt_chunks(&sodium, &container, &fixed_key(), LITTLE),
        Err(DecryptionError::InvalidPassword)
    ));
}

#[test]
fn a_strict_policy_fails_a_truncated_stream() {
    let sodium = Sodium::init().unwrap();
    let plaintext = pattern(2 * CHUNK_PAYLOAD_SIZE, 4);
    let mut data = chunked(&plaintext, base(), &fixed_key(), LITTLE);
    data.extend_from_slice(&[0x55u8; 64]);
    let container = EncryptedContainer::parse(&data).unwrap();
    let len = container.ciphertext().len();

    let run = decrypt_chunks(&sodium, &container, &fixed_key(), LITTLE);
    let held = apply_policy(TruncationPolicy::Lenient, run, len).unwrap();
    assert_eq!(held.plaintext, plaintext);
    assert_eq!(held.consumed, 2 * CHUNK_SIZE);

    let run = decrypt_chunks(&sodium, &container, &fixed_key(), LITTLE);
    assert!(matches!(
        apply_policy(TruncationPolicy::Strict, run, len),
        Err(DecryptionError::InvalidPassword)
    ));
}

#[test]
fn a_strict_policy_passes_a_complete_stream_and_keeps_errors() {
    let sodium = Sodium::init().unwrap();
    let plaintext = pattern(2 * CHUNK_PAYLOAD_SIZE + 1, 4);
    let data = chunked(&plaintext, base(), &fixed_key(), COUNTER);
    let container = EncryptedContainer::parse(&data).unwrap();
    let len = container.ciphertext().len();
    let run = decrypt_chunks(&sodium, &container, &fixed_key(), LITTLE);
    let held = apply_policy(TruncationPolicy::Strict, run, len).unwrap();
    assert_eq!(held.plaintext, plaintext);
    assert_eq!(held.rule, COUNTER);
    assert_eq!(held.consumed, len);

    for policy in [TruncationPolicy::Lenient, TruncationPolicy::Strict] {
        assert!(matches!(
            apply_policy(policy, Err(DecryptionError::InvalidFormat), len),
            Err(DecryptionError::InvalidFormat)
        ));
        assert!(matches!(
            apply_policy(policy, Err(DecryptionError::BadParameters), 0),
            Err(DecryptionError::BadParameters)
        ));
    }
}

#[test]
fn the_other_rules_come_in_a_fixed_order() {
    assert_eq!(other_rules(LITTLE), (BIG, COUNTER));
    assert_eq!(other_rules(BIG), (LITTLE, COUNTER));
    assert_eq!(other_rules(COUNTER), (LITTLE, BIG));
}

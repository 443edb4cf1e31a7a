use rclone_decrypt::nonce::{
    advance, increment_nonce, increment_nonce_64bit, increment_nonce_be, NonceRule,
};

#[test]
fn little_endian_increments_the_first_byte() {
    let mut nonce = [0u8; 24];
    increment_nonce(&mut nonce);
    let mut expected = [0u8; 24];
    expected[0] = 1;
    assert_eq!(nonce, expected);
}

#[test]
fn little_endian_carries_into_the_second_byte() {
    let mut nonce = [0u8; 24];
    nonce[0] = 255;
    nonce[1] = 7;
    increment_nonce(&mut nonce);
    let mut expected = [0u8; 24];
    expected[1] = 8;
    assert_eq!(nonce, expected);
}

#[test]
fn little_endian_carries_through_a_run_of_full_bytes() {
    let mut nonce = [9u8; 24];
    nonce[0] = 255;
    nonce[1] = 255;
    nonce[2] = 255;
    increment_nonce(&mut nonce);
    let mut expected = [9u8; 24];
    expected[0] = 0;
    expected[1] = 0;
    expected[2] = 0;
    expected[3] = 10;
    assert_eq!(nonce, expected);
}

#[test]
fn little_endian_wraps_to_zero_after_the_largest_nonce() {
    let mut nonce = [255u8; 24];
    increment_nonce(&mut nonce);
    assert_eq!(nonce, [0u8; 24]);
}

#[test]
fn two_hundred_fifty_six_steps_carry_once() {
    let mut nonce = [0u8; 24];
    nonce[1] = 41;
    nonce[5] = 200;
    for _ in 0..256 {
        increment_nonce(&mut nonce);
    }
    let mut expected = [0u8; 24];
    expected[1] = 42;
    expected[5] = 200;
    assert_eq!(nonce, expected);
}

#[test]
fn two_hundred_fifty_six_steps_wrap_a_full_second_byte() {
    let mut nonce = [0u8; 24];
    nonce[1] = 255;
    for _ in 0..256 {
        increment_nonce(&mut nonce);
    }
    let mut expected = [0u8; 24];
    expected[2] = 1;
    assert_eq!(nonce, expected);
}

#[test]
fn little_endian_counts_like_a_number() {
    let mut nonce = [0u8; 24];
    for _ in 0..70_000u32 {
        increment_nonce(&mut nonce);
    }
    let mut expected = [0u8; 24];
    expected[..4].copy_from_slice(&70_000u32.to_le_bytes());
    assert_eq!(nonce, expected);
}

#[test]
fn big_endian_increments_the_last_byte() {
    let mut nonce = [0u8; 24];
    increment_nonce_be(&mut nonce);
    let mut expected = [0u8; 24];
    expected[23] = 1;
    assert_eq!(nonce, expected);
}

#[test]
fn big_endian_carries_toward_the_first_byte() {
    let mut nonce = [3u8; 24];
    nonce[23] = 255;
    nonce[22] = 255;
    increment_nonce_be(&mut nonce);
    let mut expected = [3u8; 24];
    expected[23] = 0;
    expected[22] = 0;
    expected[21] = 4;
    assert_eq!(nonce, expected);
}

#[test]
fn big_endian_wraps_to_zero_after_the_largest_nonce() {
    let mut nonce = [255u8; 24];
    increment_nonce_be(&mut nonce);
    assert_eq!(nonce, [0u8; 24]);
}

#[test]
fn big_endian_counts_like_a_number() {
    let mut nonce = [0u8; 24];
    for _ in 0..70_000u32 {
        increment_nonce_be(&mut nonce);
    }
    let mut expected = [0u8; 24];
    expected[20..].copy_from_slice(&70_000u32.to_be_bytes());
    assert_eq!(nonce, expected);
}

#[test]
fn trailing_counter_increments_byte_sixteen() {
    let mut nonce = [5u8; 24];
    increment_nonce_64bit(&mut nonce);
    let mut expected = [5u8; 24];
    expected[16] = 6;
    assert_eq!(nonce, expected);
}

#[test]
fn trailing_counter_matches_a_64_bit_counter() {
    let mut nonce = [0xabu8; 24];
    let start: u64 = 0x0102_0304_ffff_ffff;
    nonce[16..].copy_from_slice(&start.to_le_bytes());
    increment_nonce_64bit(&mut nonce);
    let mut expected = [0xabu8; 24];
    expected[16..].copy_from_slice(&start.wrapping_add(1).to_le_bytes());
    assert_eq!(nonce, expected);
}

#[test]
fn trailing_counter_wraps_and_leaves_the_first_sixteen_bytes() {
    let mut nonce = [255u8; 24];
    increment_nonce_64bit(&mut nonce);
    let mut expected = [255u8; 24];
    for byte in expected[16..].iter_mut() {
        *byte = 0;
    }
    assert_eq!(nonce, expected);
}

#[test]
fn advance_follows_the_rule_and_keeps_its_argument() {
    let mut nonce = [0u8; 24];
    nonce[0] = 255;
    nonce[16] = 255;
    nonce[23] = 255;
    let before = nonce;

    let mut little = before;
    little[0] = 0;
    little[1] = 1;
    assert_eq!(advance(&nonce, NonceRule::LittleEndianIncrement), little);

    let mut big = before;
    big[23] = 0;
    big[22] = 1;
    assert_eq!(advance(&nonce, NonceRule::BigEndianIncrement), big);

    let mut counter = before;
    counter[16] = 0;
    counter[17] = 1;
    assert_eq!(advance(&nonce, NonceRule::TrailingCounterIncrement), counter);

    assert_eq!(nonce, before);
}

#[test]
fn advance_agrees_with_the_increment_functions() {
    let mut nonce = [0u8; 24];
    for (i, byte) in nonce.iter_mut().enumerate() {
        *byte = (i * 37 + 250) as u8;
    }
    let mut little = nonce;
    increment_nonce(&mut little);
    assert_eq!(advance(&nonce, NonceRule::LittleEndianIncrement), little);
    let mut big = nonce;
    increment_nonce_be(&mut big);
    assert_eq!(advance(&nonce, NonceRule::BigEndianIncrement), big);
    let mut counter = nonce;
    increment_nonce_64bit(&mut counter);
    assert_eq!(advance(&nonce, NonceRule::TrailingCounterIncrement), counter);
}

use norn_rs::address::{
    addr_from_hash, address_from_key, address_groups, key_difficulty_bits, key_hash,
    subnet_from_hash, subnet_from_key, try_address_from_key, try_subnet_from_key,
};

#[test]
fn address_starts_with_02() {
    let key = [42u8; 32];
    let addr = address_from_key(&key);
    assert_eq!(addr[0], 0x02);
}

#[test]
fn subnet_starts_with_03() {
    let key = [42u8; 32];
    let sub = subnet_from_key(&key);
    assert_eq!(sub[0], 0x03);
}

#[test]
fn different_keys_different_addresses() {
    let key1 = [1u8; 32];
    let key2 = [2u8; 32];
    assert_ne!(address_from_key(&key1), address_from_key(&key2));
}

#[test]
fn address_byte1_is_ones_count() {
    let key = [42u8; 32];
    let addr = address_from_key(&key);
    let addr2 = address_from_key(&key);
    assert_eq!(addr[1], addr2[1], "address derivation must be deterministic");
    assert_eq!(addr, addr2, "address must be deterministic");
}

#[test]
fn address_known_vector() {
    let key = [0u8; 32];
    let addr = address_from_key(&key);
    assert_eq!(addr[0], 0x02, "first byte always 0x02");
    let sub = subnet_from_key(&key);
    assert_eq!(sub[0], 0x03);
    assert_eq!(addr, address_from_key(&key));
    assert_eq!(addr[1], sub[1], "address and subnet must agree on leading-ones count");
}

#[test]
fn address_and_subnet_differ() {
    let key = [7u8; 32];
    let addr = address_from_key(&key);
    let sub = subnet_from_key(&key);
    assert_ne!(addr[0], sub[0]);
    assert_eq!(addr[1], sub[1], "ones count must match");
}

#[test]
fn subnet_different_keys_differ() {
    let sub1 = subnet_from_key(&[10u8; 32]);
    let sub2 = subnet_from_key(&[20u8; 32]);
    assert_ne!(sub1, sub2);
}

#[test]
fn address_carries_key_bits() {
    let key1 = [0u8; 32];
    let mut key2 = [0u8; 32];
    key2[31] = 1;
    assert_ne!(address_from_key(&key1), address_from_key(&key2),
        "single-bit key difference must produce different address");
}

#[test]
fn addr_from_hash_uses_all_relevant_bits() {
    let mut hash = [0u8; 64];
    hash[0] = 0xFF;
    hash[1] = 0x00;
    let addr = addr_from_hash(&hash);
    assert_eq!(addr[0], 0x02);
    assert_eq!(addr[1], 8, "should count 8 leading ones");

    let mut hash2 = [0u8; 64];
    hash2[0] = 0x00;
    let addr2 = addr_from_hash(&hash2);
    assert_eq!(addr2[1], 0, "should count 0 leading ones");

    assert_ne!(addr, addr2);
}

#[test]
fn addr_from_hash_ones_zero_specific_bits() {
    let mut hash = [0u8; 64];
    hash[0] = 0b0100_0000;
    let addr = addr_from_hash(&hash);
    assert_eq!(addr[0], 0x02);
    assert_eq!(addr[1], 0, "ones count must be 0");
    assert_eq!(addr[2], 0x80,
        "bit at src_bit=1 must appear at dst_byte=2, dst_bit=7 (MSB); got {:#04x}", addr[2]);
}

#[test]
fn addr_from_hash_ones_two_and_data_bit() {
    let mut hash = [0u8; 64];
    hash[0] = 0b1100_0001;
    let addr = addr_from_hash(&hash);
    assert_eq!(addr[0], 0x02);
    assert_eq!(addr[1], 2, "ones count must be 2");
    assert_eq!(addr[2], 0x08,
        "data bit at position 7 of flipped[0] must appear at addr[2] bit 3; got {:#04x}", addr[2]);
}

#[test]
fn addr_from_hash_start_bit_is_ones_plus_one() {
    let mut hash = [0u8; 64];
    hash[0] = 0b0000_0000;
    let addr = addr_from_hash(&hash);
    assert_eq!(addr[1], 0);
    assert_eq!(addr[2], 0x00,
        "flipped bit must be skipped (start_bit=ones+1, not ones); got {:#04x}", addr[2]);
}

#[test]
fn addr_from_hash_16_leading_ones() {
    let mut hash = [0u8; 64];
    hash[0] = 0xFF;
    hash[1] = 0xFF;
    hash[2] = 0b0100_0000;
    let addr = addr_from_hash(&hash);
    assert_eq!(addr[1], 16, "should count 16 leading ones");
    assert_eq!(addr[2], 0x80,
        "data from hash[2] bit6 must appear at addr[2] bit7; got {:#04x}", addr[2]);
}

#[test]
fn subnet_from_hash_bit_positions_correct() {
    let mut hash = [0u8; 64];
    hash[0] = 0b0100_0000;
    let sub = subnet_from_hash(&hash);
    assert_eq!(sub[0], 0x03);
    assert_eq!(sub[1], 0, "ones count must be 0");
    assert_eq!(sub[2], 0x80,
        "subnet bit copy must use same arithmetic as addr; got {:#04x}", sub[2]);
}

#[test]
fn addr_bit_at_i8_goes_to_byte3() {
    let mut hash = [0u8; 64];
    hash[0] = 0b0000_0000;
    hash[1] = 0b0100_0000;
    let addr = addr_from_hash(&hash);
    assert_eq!(addr[1], 0, "ones must be 0");
    assert_eq!(addr[2], 0x00, "i=8 data bit must NOT appear in addr[2]");
    assert_eq!(addr[3], 0x80, "i=8 data bit must appear in addr[3] (2+8/8=3)");
}

#[test]
fn addr_dst_bit_in_byte_uses_7_minus_i_mod8() {
    let mut hash = [0u8; 64];
    hash[0] = 0b0100_0000;
    let addr = addr_from_hash(&hash);
    assert_eq!(addr[2], 0x80,
        "first data bit must appear at MSB of addr[2] (7-0%8=7); got {:#04x}", addr[2]);
}

#[test]
fn subnet_src_bit_offset_is_additive_not_multiplicative() {
    let mut hash = [0u8; 64];
    hash[0] = 0b0010_0000;
    let sub = subnet_from_hash(&hash);
    assert_eq!(sub[1], 0, "ones must be 0");
    assert_eq!(sub[2], 0x40,
        "data at i=1 must appear at sub[2] bit6 (start_bit+1 arithmetic); got {:#04x}", sub[2]);
}

#[test]
fn subnet_src_byte_computed_by_division() {
    let mut hash = [0u8; 64];
    hash[0] = 0b0000_0000;
    hash[2] = 0b0100_0000;
    let sub = subnet_from_hash(&hash);
    assert_eq!(sub[4], 0x80,
        "src_byte must be src_bit/8 (bit at i=16 → sub[4] bit7); got sub[4]={:#04x}", sub[4]);
}

#[test]
fn keys_have_an_address_and_a_subnet() {
    for b in 0..=255u8 {
        let key = [b; 32];
        assert_eq!(try_address_from_key(&key), Some(address_from_key(&key)));
        assert_eq!(try_subnet_from_key(&key), Some(subnet_from_key(&key)));
    }
}

#[test]
fn the_subnet_is_the_front_of_the_address() {
    for b in 0..=255u8 {
        let addr = address_from_key(&[b; 32]);
        let subnet = subnet_from_key(&[b; 32]);
        assert_eq!(addr[1..8], subnet[1..8]);
    }
}

#[test]
fn difficulty_counts_leading_ones() {
    for b in 0..=255u8 {
        let hash = key_hash(&[b; 32]);
        let mut ones = 0;
        while hash[ones / 8] & (0x80 >> (ones % 8)) != 0 {
            ones += 1;
        }
        assert_eq!(key_difficulty_bits(&[b; 32]) as usize, ones);
        assert_eq!(address_from_key(&[b; 32])[1] as usize, ones);
    }
}

#[test]
fn groups_are_big_endian_pairs() {
    let mut bytes = [0u8; 16];
    bytes[0] = 0x20;
    bytes[1] = 0x01;
    bytes[15] = 1;
    assert_eq!(address_groups(&bytes), [0x2001, 0, 0, 0, 0, 0, 0, 1]);
}

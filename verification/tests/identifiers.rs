use stylus_swap::{Address, StylusSwap, integer_sqrt};

fn addr(n: u8) -> Address {
    let mut bytes = [0u8; 20];
    bytes[19] = n;
    Address { bytes }
}

#[test]
fn test_integer_sqrt_exact() {
    assert_eq!(integer_sqrt(0), 0);
    assert_eq!(integer_sqrt(1), 1);
    assert_eq!(integer_sqrt(4), 2);
    assert_eq!(integer_sqrt(16), 4);
    assert_eq!(integer_sqrt(1_000_000_000_000), 1_000_000);
    let n = u64::MAX;
    assert_eq!(integer_sqrt(u128::from(n) * u128::from(n)), n);
}

#[test]
fn test_integer_sqrt_floors() {
    assert_eq!(integer_sqrt(2), 1);
    assert_eq!(integer_sqrt(3), 1);
    assert_eq!(integer_sqrt(15), 3);
    assert_eq!(integer_sqrt(99), 9);
    assert_eq!(integer_sqrt(1_000_001), 1000);
    assert_eq!(integer_sqrt(u128::MAX), u64::MAX);
    assert_eq!(integer_sqrt(u128::from(u64::MAX)), 4_294_967_295);
}

#[test]
fn test_pool_id_matches_keccak_of_abi_encoding() {
    let engine = StylusSwap::new();
    let token0 = addr(3);
    let token1 = addr(5);
    let fee: u32 = 0x01_02_03;
    let (pool_id, _, _) = engine.get_pool_id(token0, token1, fee);

    let mut expected_preimage = [0u8; 96];
    expected_preimage[12..32].copy_from_slice(&token0.bytes);
    expected_preimage[44..64].copy_from_slice(&token1.bytes);
    expected_preimage[93] = 0x01;
    expected_preimage[94] = 0x02;
    expected_preimage[95] = 0x03;
    let expected = alloy_primitives::keccak256(expected_preimage);
    assert_eq!(pool_id.bytes, expected.0);
}

#[test]
fn test_position_id_matches_keccak_of_abi_encoding() {
    let engine = StylusSwap::new();
    let owner = addr(77);
    let (pool_id, _, _) = engine.get_pool_id(addr(3), addr(5), 300);
    let position_id = engine.get_position_id(pool_id, owner);

    let mut expected_preimage = [0u8; 64];
    expected_preimage[0..32].copy_from_slice(&pool_id.bytes);
    expected_preimage[44..64].copy_from_slice(&owner.bytes);
    let expected = alloy_primitives::keccak256(expected_preimage);
    assert_eq!(position_id.bytes, expected.0);
}

#[test]
fn test_pool_id_orders_tokens() {
    let engine = StylusSwap::new();
    let mut high = [0u8; 20];
    high[0] = 9;
    let a = Address { bytes: high };
    let b = addr(1);
    let (_, t0, t1) = engine.get_pool_id(a, b, 300);
    assert_eq!(t0, b);
    assert_eq!(t1, a);
}

use stylus_swap::{Address, Bytes32, StylusSwap, StylusSwapError};

fn addr(n: u8) -> Address {
    let mut bytes = [0u8; 20];
    bytes[19] = n;
    Address { bytes }
}

fn pooled(token_a: Address, token_b: Address, fee: u32) -> (StylusSwap, Bytes32) {
    let mut engine = StylusSwap::new();
    let (pool_id, _, _) = engine.get_pool_id(token_a, token_b, fee);
    assert!(engine.create_pool(token_a, token_b, fee).is_ok());
    (engine, pool_id)
}

#[test]
fn test_create_pool() {
    let mut contract = StylusSwap::new();

    let token_a = addr(0);
    let token_b = addr(1);
    let fee = 300;

    let (pool_id, token0, token1) = contract.get_pool_id(token_a, token_b, fee);
    let create_pool_result = contract.create_pool(token_a, token_b, 300);
    assert!(create_pool_result.is_ok());

    let pool_info = contract.get_pool(&pool_id).unwrap();
    assert_eq!(fee, pool_info.fee);
    assert_eq!(token0, pool_info.token0);
    assert_eq!(token1, pool_info.token1);
    assert_eq!(0, pool_info.liquidity);
    assert_eq!(0, pool_info.balance0);
    assert_eq!(0, pool_info.balance1);
}

#[test]
fn test_pool_id_commutative() {
    let engine = StylusSwap::new();
    let a = addr(7);
    let b = addr(9);
    let (id_ab, t0, t1) = engine.get_pool_id(a, b, 300);
    let (id_ba, u0, u1) = engine.get_pool_id(b, a, 300);
    assert_eq!(id_ab, id_ba);
    assert_eq!(t0, u0);
    assert_eq!(t1, u1);
    assert_eq!(t0, a);
    assert_eq!(t1, b);
    let (id_other_fee, _, _) = engine.get_pool_id(a, b, 500);
    assert_ne!(id_ab, id_other_fee);
}

#[test]
fn test_create_pool_twice_fails() {
    let token_a = addr(1);
    let token_b = addr(2);
    let (mut engine, pool_id) = pooled(token_a, token_b, 300);
    let second = engine.create_pool(token_a, token_b, 300);
    assert_eq!(second, Err(StylusSwapError::PoolAlreadyExists { pool_id }));
    let swapped = engine.create_pool(token_b, token_a, 300);
    assert_eq!(swapped, Err(StylusSwapError::PoolAlreadyExists { pool_id }));
}

#[test]
fn test_first_deposit_bootstrap() {
    let (mut engine, pool_id) = pooled(addr(1), addr(2), 300);
    let caller = addr(42);
    assert!(engine.check_add_liquidity_fits(&pool_id, 1_000_000, 1_000_000, 0, 0));
    let r = engine.add_liquidity(pool_id, 1_000_000, 1_000_000, 0, 0, caller);
    assert_eq!(r, Ok((1_000_000, 1_000_000)));

    let pool = engine.get_pool(&pool_id).unwrap();
    assert_eq!(pool.liquidity, 1_001_000);
    assert_eq!(pool.balance0, 1_000_000);
    assert_eq!(pool.balance1, 1_000_000);

    let position_id = engine.get_position_id(pool_id, caller);
    let position = engine.get_position(&pool_id, &position_id).unwrap();
    assert_eq!(position.liquidity, 1_000_000);
    assert_eq!(position.owner, caller);
}

#[test]
fn test_proportional_mint() {
    let (mut engine, pool_id) = pooled(addr(1), addr(2), 300);
    let caller = addr(42);
    assert_eq!(engine.add_liquidity(pool_id, 1000, 1000, 0, 0, caller), Ok((1000, 1000)));
    let total = engine.get_pool(&pool_id).unwrap().liquidity;
    assert_eq!(total, 2000);

    // depositing a tenth of each reserve mints a tenth of the total liquidity
    let r = engine.add_liquidity(pool_id, 100, 100, 0, 0, caller);
    assert_eq!(r, Ok((100, 100)));
    let pool = engine.get_pool(&pool_id).unwrap();
    assert_eq!(pool.liquidity, total + total / 10);
    assert_eq!(pool.balance0, 1100);
    assert_eq!(pool.balance1, 1100);

    let position_id = engine.get_position_id(pool_id, caller);
    let position = engine.get_position(&pool_id, &position_id).unwrap();
    assert_eq!(position.liquidity, 1000 + 200);
}

#[test]
fn test_add_liquidity_missing_pool() {
    let mut engine = StylusSwap::new();
    let pool_id = Bytes32 { bytes: [9u8; 32] };
    let r = engine.add_liquidity(pool_id, 10, 10, 0, 0, addr(42));
    assert_eq!(r, Err(StylusSwapError::PoolDoesNotExist { pool_id }));
}

#[test]
fn test_insufficient_liquidity_minted() {
    let (mut engine, pool_id) = pooled(addr(1), addr(2), 300);
    let caller = addr(42);
    assert!(engine.add_liquidity(pool_id, 1000, 1000, 0, 0, caller).is_ok());
    let r = engine.add_liquidity(pool_id, 0, 0, 0, 0, caller);
    assert_eq!(r, Err(StylusSwapError::InsufficientLiquidityMinted));
}

#[test]
fn test_get_liquidity_amounts_prefers_first_asset() {
    let engine = StylusSwap::new();
    assert_eq!(engine.get_liquidity_amounts(100, 100, 0, 0, 1000, 1000), Ok((100, 100)));
    // ratio-implied second amount exceeds the desired amount: use the other side
    assert_eq!(engine.get_liquidity_amounts(100, 50, 0, 0, 1000, 1000), Ok((50, 50)));
}

#[test]
fn test_get_liquidity_amounts_rejects_below_floor() {
    let engine = StylusSwap::new();
    assert_eq!(
        engine.get_liquidity_amounts(100, 100, 0, 200, 1000, 1000),
        Err(StylusSwapError::InsufficientAmount)
    );
    assert_eq!(
        engine.get_liquidity_amounts(100, 50, 60, 0, 1000, 1000),
        Err(StylusSwapError::InsufficientAmount)
    );
}

#[test]
fn test_swap_grows_reserve_product() {
    let (mut engine, pool_id) = pooled(addr(1), addr(2), 300);
    let caller = addr(42);
    assert!(engine.add_liquidity(pool_id, 1000, 1000, 0, 0, caller).is_ok());
    assert!(engine.check_swap_fits(&pool_id, 100, true));

    // k = 1_000_000, quotient 1_000_000 / 1100 rounded up to 910,
    // gross 90, fee 2, net 88
    let r = engine.swap(pool_id, 100, 0, true);
    assert_eq!(r, Ok(88));
    let pool = engine.get_pool(&pool_id).unwrap();
    assert_eq!(pool.balance0, 1100);
    assert_eq!(pool.balance1, 912);
    assert!(u128::from(pool.balance0) * u128::from(pool.balance1) > 1_000_000u128);
    assert_eq!(pool.liquidity, 2000);
}

#[test]
fn test_swap_dust_cannot_shrink_product() {
    let (mut engine, pool_id) = pooled(addr(1), addr(2), 0);
    let caller = addr(42);
    assert!(engine.add_liquidity(pool_id, 1000, 1000, 0, 0, caller).is_ok());
    // 1_000_000 / 1001 rounds up to 1000: a one-unit swap pays nothing out
    // and cannot shave the reserves
    let r = engine.swap(pool_id, 1, 0, true);
    assert_eq!(r, Ok(0));
    let pool = engine.get_pool(&pool_id).unwrap();
    assert_eq!(pool.balance0, 1001);
    assert_eq!(pool.balance1, 1000);
    assert!(u128::from(pool.balance0) * u128::from(pool.balance1) > 1_000_000u128);
}

#[test]
fn test_swap_exact_quotient_with_floored_fee_keeps_product() {
    let (mut engine, pool_id) = pooled(addr(1), addr(2), 300);
    let caller = addr(42);
    assert!(engine.add_liquidity(pool_id, 4, 4, 0, 0, caller).is_ok());
    // 16 / 8 divides exactly and the fee on a gross output of 2 floors to
    // zero, so the product stays equal: the boundary of the strict growth
    let r = engine.swap(pool_id, 4, 0, true);
    assert_eq!(r, Ok(2));
    let pool = engine.get_pool(&pool_id).unwrap();
    assert_eq!(pool.balance0, 8);
    assert_eq!(pool.balance1, 2);
    assert_eq!(u128::from(pool.balance0) * u128::from(pool.balance1), 16u128);
}

#[test]
fn test_swap_slippage_rejected() {
    let (mut engine, pool_id) = pooled(addr(1), addr(2), 300);
    let caller = addr(42);
    assert!(engine.add_liquidity(pool_id, 1000, 1000, 0, 0, caller).is_ok());
    let r = engine.swap(pool_id, 100, 1000, true);
    assert_eq!(r, Err(StylusSwapError::TooMuchSlippage));
    let pool = engine.get_pool(&pool_id).unwrap();
    assert_eq!(pool.balance0, 1000);
    assert_eq!(pool.balance1, 1000);
}

#[test]
fn test_swap_zero_input_rejected() {
    let (mut engine, pool_id) = pooled(addr(1), addr(2), 300);
    let r = engine.swap(pool_id, 0, 0, true);
    assert_eq!(r, Err(StylusSwapError::InsufficientAmount));
}

#[test]
fn test_fits_checks_reject_overflowing_calls() {
    let (mut engine, pool_id) = pooled(addr(1), addr(2), 300);
    // a first deposit whose product cannot leave room for the bootstrap lock
    assert!(!engine.check_add_liquidity_fits(&pool_id, u64::MAX, u64::MAX, 0, 0));
    let caller = addr(42);
    assert!(engine.add_liquidity(pool_id, u64::MAX - 1000, 1, 0, 0, caller).is_ok());
    // an input that would push the reserve past the 64-bit counter
    assert!(!engine.check_swap_fits(&pool_id, 2000, true));
    assert!(engine.check_swap_fits(&pool_id, 999, true));
    // a pool whose fee tier exceeds the full 10000 basis points cannot swap
    let (engine2, pool_id2) = pooled(addr(1), addr(2), 20000);
    assert!(!engine2.check_swap_fits(&pool_id2, 1, true));
}

#[test]
fn test_swap_other_direction() {
    let (mut engine, pool_id) = pooled(addr(1), addr(2), 0);
    let caller = addr(42);
    assert!(engine.add_liquidity(pool_id, 1000, 4000, 0, 0, caller).is_ok());
    // k = 4_000_000, input on the token1 side: quotient 4_000_000 / 4400
    // rounded up to 910
    let r = engine.swap(pool_id, 400, 0, false);
    assert_eq!(r, Ok(90));
    let pool = engine.get_pool(&pool_id).unwrap();
    assert_eq!(pool.balance0, 910);
    assert_eq!(pool.balance1, 4400);
}

#[test]
fn test_withdrawal_bound() {
    let (mut engine, pool_id) = pooled(addr(1), addr(2), 300);
    let caller = addr(42);
    assert!(engine.add_liquidity(pool_id, 1000, 1000, 0, 0, caller).is_ok());
    let r = engine.remove_liquidity(pool_id, 2000, caller);
    assert_eq!(r, Err(StylusSwapError::InsufficientLiquidityOwned));
    let pool = engine.get_pool(&pool_id).unwrap();
    assert_eq!(pool.liquidity, 2000);
    assert_eq!(pool.balance0, 1000);
    assert_eq!(pool.balance1, 1000);
    let position_id = engine.get_position_id(pool_id, caller);
    assert_eq!(engine.get_position(&pool_id, &position_id).unwrap().liquidity, 1000);
}

#[test]
fn test_remove_liquidity_proportional() {
    let (mut engine, pool_id) = pooled(addr(1), addr(2), 300);
    let caller = addr(42);
    assert!(engine.add_liquidity(pool_id, 1_000_000, 1_000_000, 0, 0, caller).is_ok());
    let r = engine.remove_liquidity(pool_id, 100_100, caller);
    assert_eq!(r, Ok((100_000, 100_000)));
    let pool = engine.get_pool(&pool_id).unwrap();
    assert_eq!(pool.liquidity, 900_900);
    assert_eq!(pool.balance0, 900_000);
    assert_eq!(pool.balance1, 900_000);
    let position_id = engine.get_position_id(pool_id, caller);
    assert_eq!(engine.get_position(&pool_id, &position_id).unwrap().liquidity, 899_900);
}

#[test]
fn test_remove_liquidity_dust_rejected() {
    let (mut engine, pool_id) = pooled(addr(1), addr(2), 300);
    let caller = addr(42);
    assert!(engine.add_liquidity(pool_id, 1_000_000, 1_000_000, 0, 0, caller).is_ok());
    let r = engine.remove_liquidity(pool_id, 0, caller);
    assert_eq!(r, Err(StylusSwapError::InsufficientLiquidityOwned));
}

#[test]
fn test_remove_liquidity_missing_pool() {
    let mut engine = StylusSwap::new();
    let pool_id = Bytes32 { bytes: [7u8; 32] };
    let r = engine.remove_liquidity(pool_id, 1, addr(42));
    assert_eq!(r, Err(StylusSwapError::PoolDoesNotExist { pool_id }));
}

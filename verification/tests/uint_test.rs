use routing_engine::utils::addresses::{usdc, weth};
use routing_engine::utils::{address_from_u64, Address, U256};

fn u(n: u128) -> U256 {
    U256::from_u128(n)
}

fn max() -> U256 {
    U256 { w3: u64::MAX, w2: u64::MAX, w1: u64::MAX, w0: u64::MAX }
}

#[test]
fn test_u256_from_and_limbs() {
    assert_eq!(U256::zero(), U256 { w3: 0, w2: 0, w1: 0, w0: 0 });
    assert_eq!(U256::one(), U256 { w3: 0, w2: 0, w1: 0, w0: 1 });
    assert_eq!(U256::from_u64(7), U256 { w3: 0, w2: 0, w1: 0, w0: 7 });
    assert_eq!(u(u128::MAX), U256 { w3: 0, w2: 0, w1: u64::MAX, w0: u64::MAX });
    assert_eq!(u(1u128 << 64), U256 { w3: 0, w2: 0, w1: 1, w0: 0 });
}

#[test]
fn test_u256_add_sub_wrap() {
    assert_eq!(u(2).wrapping_add(u(3)), u(5));
    assert_eq!(u(u128::MAX).wrapping_add(u(1)), U256 { w3: 0, w2: 1, w1: 0, w0: 0 });
    assert_eq!(max().wrapping_add(u(1)), U256::zero());
    assert_eq!(u(5).wrapping_sub(u(3)), u(2));
    assert_eq!(u(0).wrapping_sub(u(1)), max());
    assert_eq!(U256 { w3: 0, w2: 1, w1: 0, w0: 0 }.wrapping_sub(u(1)), u(u128::MAX));
}

#[test]
fn test_u256_mul_div_rem() {
    assert_eq!(u(6).wrapping_mul(u(7)), u(42));
    assert_eq!(u(1u128 << 127).wrapping_mul(u(2)), U256 { w3: 0, w2: 1, w1: 0, w0: 0 });
    assert_eq!(max().wrapping_mul(u(2)), max().wrapping_sub(u(1)));
    assert_eq!(u(42).div(u(5)), u(8));
    assert_eq!(u(42).rem(u(5)), u(2));
    assert_eq!(u(42).div_ceil(u(5)), u(9));
    assert_eq!(u(40).div_ceil(u(5)), u(8));
    assert_eq!(max().div_ceil(u(1)), max());
    assert_eq!(u(42).checked_div(u(0)), None);
    assert_eq!(u(42).checked_div(u(6)), Some(u(7)));
    assert_eq!(U256 { w3: 1, w2: 0, w1: 0, w0: 0 }.div(u(1u128 << 64)), U256 { w3: 0, w2: 1, w1: 0, w0: 0 });
}

#[test]
fn test_u256_order() {
    assert!(u(1).lt(&u(2)));
    assert!(!u(2).lt(&u(2)));
    assert!(u(2).le(&u(2)));
    assert!(u(u128::MAX).lt(&U256 { w3: 0, w2: 1, w1: 0, w0: 0 }));
    assert!(U256 { w3: 0, w2: 1, w1: 0, w0: 0 }.lt(&U256 { w3: 1, w2: 0, w1: 0, w0: 0 }));
    assert!(u(1) < u(2));
    assert!(U256 { w3: 0, w2: 0, w1: 1, w0: 0 } > u(u64::MAX as u128));
    assert!(u(2).same(&u(2)));
    assert!(!u(2).same(&u(3)));
    assert!(U256::zero().is_zero());
    assert!(!u(1).is_zero());
}

#[test]
fn test_u256_text() {
    assert_eq!(U256::zero().to_decimal_string(), "0");
    assert_eq!(u(98765).to_decimal_string(), "98765");
    assert_eq!(
        max().to_decimal_string(),
        "115792089237316195423570985008687907853269984665640564039457584007913129639935"
    );
    assert_eq!(u(42).to_padded_string(6), "000042");
    assert_eq!(u(1234567).to_padded_string(3), "567");
    assert_eq!(u(5).to_padded_string(0), "");
    assert_eq!(U256::parse("1000000000000000000"), Some(u(1_000_000_000_000_000_000)));
    assert_eq!(U256::parse("0x10"), Some(u(16)));
    assert_eq!(U256::parse("not_a_number"), None);
    assert_eq!(U256::parse("-5"), None);
    assert_eq!(
        U256::parse("115792089237316195423570985008687907853269984665640564039457584007913129639936"),
        None
    );
    assert_eq!(u(300).to_u64_capped(255), 255);
    assert_eq!(u(200).to_u64_capped(255), 200);
    assert_eq!(max().to_u64_capped(u64::MAX), u64::MAX);
}

#[test]
fn test_address_from_u64_and_text() {
    let a = address_from_u64(1);
    assert_eq!(a, Address { hi: 0, mid: 0, lo: 1 });
    assert_eq!(a.to_hex_string(), "0x0000000000000000000000000000000000000001");
    assert_eq!(a.to_checksum_string(), "0x0000000000000000000000000000000000000001");
    assert!(!a.is_zero());
    assert!(Address::zero().is_zero());
    assert_eq!(address_from_u64(0), Address::zero());
    assert_eq!(
        address_from_u64(u64::MAX).to_hex_string(),
        "0x000000000000000000000000ffffffffffffffff"
    );
}

#[test]
fn test_known_addresses() {
    assert_eq!(weth().to_hex_string(), "0x4200000000000000000000000000000000000006");
    assert_eq!(weth().to_checksum_string(), "0x4200000000000000000000000000000000000006");
    assert_eq!(usdc().to_hex_string(), "0x833589fcd6edb6e08f4c7c32d4f71b54bda02913");
    assert_eq!(usdc().to_checksum_string(), "0x833589fCD6eDb6E08f4c7C32D4f71b54bdA02913");
}

#[test]
fn test_engine_constants() {
    assert_eq!(routing_engine::utils::MAX_HOPS, 4);
    assert_eq!(routing_engine::utils::MAX_SPLITS, 3);
    assert_eq!(routing_engine::utils::MIN_LIQUIDITY, 1_000_000_000_000_000_000);
}

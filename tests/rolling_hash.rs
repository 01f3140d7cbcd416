use chunk_delta::moving_sum::MovingSumRollingHasher;
use chunk_delta::polynomial::PolynomialRollingHasher;
use chunk_delta::rolling_hasher::RollingHasher;

#[test]
fn polynomial_test_polynomial_rolling_hash() {
    // trying some basic sequence first
    let mut hasher = PolynomialRollingHasher::new(4, Some(1000), Some(3));
    let input: &[u8] = &[1, 2, 3, 4, 5, 6];
    assert_eq!(hasher.push(input[0]), 1);
    assert_eq!(hasher.push(input[1]), 5);
    assert_eq!(hasher.push(input[2]), 18);
    assert_eq!(hasher.push(input[3]), 58);
    assert_eq!(hasher.push(input[4]), 98);
    assert_eq!(hasher.push(input[5]), 138);

    // and now some less naive examples
    let mut hasher = PolynomialRollingHasher::new(16, Some(1000000007), Some(29791));

    let input = "equilibrium is a state of no motion";
    let mut hash = 0u32;
    for byte in input.bytes() {
        hash = hasher.push(byte);
    }
    assert_eq!(hash, 958536060);

    let input = "standing still is a state of no motion";
    for byte in input.bytes() {
        hash = hasher.push(byte);
    }
    assert_eq!(hash, 958536060);

    let input = "eiger is an alpine peak";
    for byte in input.bytes() {
        hash = hasher.push(byte);
    }
    assert_eq!(hash, 682459160);

    let input = "that remains in a state of no motion";
    for byte in input.bytes() {
        hash = hasher.push(byte);
    }
    assert_eq!(hash, 958536060);
}

#[test]
fn polynomial_defaults_and_window() {
    let mut with_defaults = PolynomialRollingHasher::new(16, None, None);
    let mut explicit = PolynomialRollingHasher::new(16, Some(1000000007), Some(29791));
    assert_eq!(with_defaults.get_window_size(), 16);
    let mut last = (0u32, 0u32);
    for byte in "equilibrium is a state of no motion".bytes() {
        last = (with_defaults.push(byte), explicit.push(byte));
    }
    assert_eq!(last.0, 958536060);
    assert_eq!(last.1, 958536060);
}

#[test]
fn polynomial_window_of_one_is_the_last_byte() {
    let mut hasher = PolynomialRollingHasher::new(1, Some(1000), Some(3));
    assert_eq!(hasher.push(200), 200);
    assert_eq!(hasher.push(7), 7);
}

#[test]
fn polynomial_large_modulus_and_base() {
    // the window [1, 1] with base b and modulus m hashes to (b + 1) mod m
    let mut hasher = PolynomialRollingHasher::new(2, Some(u32::MAX), Some(u32::MAX - 2));
    assert_eq!(hasher.push(1), 1);
    assert_eq!(hasher.push(1), u32::MAX - 1);
    // the window [1, 0] hashes to b mod m
    assert_eq!(hasher.push(0), u32::MAX - 2);
}

#[test]
fn test_moving_sum_rolling_hash() {
    // trying some basic sequence first
    let mut hasher = MovingSumRollingHasher::new(4);
    let input: &[u8] = &[1, 2, 3, 4, 5, 6];
    assert_eq!(hasher.push(input[0]), 1);
    assert_eq!(hasher.push(input[1]), 3);
    assert_eq!(hasher.push(input[2]), 6);
    assert_eq!(hasher.push(input[3]), 10);
    assert_eq!(hasher.push(input[4]), 14);
    assert_eq!(hasher.push(input[5]), 18);

    // and now some less naive example
    let mut hasher = MovingSumRollingHasher::new(16);
    let input = "equilibrium is a state of no motion";
    let mut hash = 0u32;
    for byte in input.bytes() {
        hash = hasher.push(byte);
    }
    assert_eq!(hash, 1506);

    // a window of two that slides over 8, 1 and then 1, 2, 8
    let mut hasher = MovingSumRollingHasher::new(2);
    assert_eq!(hasher.push(8), 8);
    assert_eq!(hasher.push(1), 9);
    assert_eq!(hasher.push(1), 2);
    assert_eq!(hasher.push(2), 3);
    assert_eq!(hasher.push(8), 10);
    assert_eq!(hasher.get_window_size(), 2);
}

#[test]
fn test_polynomial_rolling_hash() {
    // trying some basic sequence first
    let mut hasher = PolynomialRollingHasher::new(4, Some(1000), Some(3));
    let input: &[u8] = &[1, 2, 3, 4, 5, 6];
    assert_eq!(hasher.push(input[0]), 1);
    assert_eq!(hasher.push(input[1]), 5);
    assert_eq!(hasher.push(input[2]), 18);
    assert_eq!(hasher.push(input[3]), 58);
    assert_eq!(hasher.push(input[4]), 98);
    assert_eq!(hasher.push(input[5]), 138);

    // and now some less naive examples
    let mut hasher = PolynomialRollingHasher::new(16, Some(1000000007), Some(29791));

    let input = "equilibrium is a state of no motion";
    let mut hash = 0u32;
    for byte in input.bytes() {
        hash = hasher.push(byte);
    }
    assert_eq!(hash, 958536060);

    let input = "standing still is a state of no motion";
    for byte in input.bytes() {
        hash = hasher.push(byte);
    }
    assert_eq!(hash, 958536060);

    let input = "eiger is an alpine peak";
    for byte in input.bytes() {
        hash = hasher.push(byte);
    }
    assert_eq!(hash, 682459160);

    let input = "that remains in a state of no motion";
    for byte in input.bytes() {
        hash = hasher.push(byte);
    }
    assert_eq!(hash, 958536060);
}

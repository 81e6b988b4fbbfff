use keccak_base_conversion::field::Felt;
use keccak_base_conversion::base_conversion::{BaseConversionConfig, Conversion};
use keccak_base_conversion::helpers::{biguint_to_F, F_to_biguint};
use keccak_base_conversion::table::{BaseInfo, ConversionError};
use num_bigint::BigUint;

fn binary_table() -> BaseInfo {
    BaseInfo { input_base: 2, output_base: 13, num_digits: 64, digit_map: vec![0, 1] }
}

fn base9_table() -> BaseInfo {
    BaseInfo {
        input_base: 9,
        output_base: 13,
        num_digits: 64,
        digit_map: (0..9u64).map(|d| d & 1).collect(),
    }
}

fn to_big(f: &Felt) -> BigUint {
    BigUint::from_bytes_le(&F_to_biguint(*f))
}

fn from_big(x: &BigUint) -> Felt {
    biguint_to_F(&x.to_bytes_le()).unwrap()
}

/// Reads the digits of `x` in `from`, maps each, and reads them in `to`.
fn reference_convert(x: &BigUint, from: u32, to: u32, f: impl Fn(u8) -> u8) -> BigUint {
    let mut acc = BigUint::from(0u32);
    for d in x.to_radix_be(from) {
        acc = acc * BigUint::from(to) + BigUint::from(f(d));
    }
    acc
}

fn convert(info: BaseInfo, input: Felt, flag: u64) -> Conversion {
    BaseConversionConfig::new(info).assign_region(Some(input), Felt::from_u64(flag)).unwrap()
}

#[test]
fn test_base_conversion_from_b2() {
    let input = 12345678u64;
    let config = BaseConversionConfig::new(binary_table());
    let flag = Felt::from_u64(1);
    let c = config.assign_region(Some(Felt::from_u64(input)), flag).unwrap();
    let expected = reference_convert(&BigUint::from(input), 2, 13, |d| d);
    assert_eq!(to_big(&c.output), expected);
    assert_eq!(c.rows.len(), 64);
    assert!(config.check_rows(&c.rows, &flag));
}

#[test]
fn test_base_conversion_from_b9() {
    let input =
        BigUint::parse_bytes(b"02939a42ef593e37757abe328e9e409e75dcd76cf1b3427bc3", 16).unwrap();
    let config = BaseConversionConfig::new(base9_table());
    let flag = Felt::from_u64(1);
    let c = config.assign_region(Some(from_big(&input)), flag).unwrap();
    let expected = reference_convert(&input, 9, 13, |d| d & 1);
    assert_eq!(to_big(&c.output), expected);
    assert!(config.check_rows(&c.rows, &flag));
    assert_eq!(to_big(&c.rows[63].input_acc), input);
}

#[test]
fn b2_output_exact_value() {
    // 5 = 0b101 becomes 13^2 + 1.
    let c = convert(binary_table(), Felt::from_u64(5), 1);
    assert_eq!(to_big(&c.output), BigUint::from(170u32));
}

#[test]
fn round_trip_input_accumulator() {
    for x in [0u64, 1, 2, 255, 12345678, u64::MAX] {
        let c = convert(binary_table(), Felt::from_u64(x), 1);
        assert_eq!(to_big(&c.rows[63].input_acc), BigUint::from(x));
    }
}

#[test]
fn bootstrap_row_zero() {
    let c = convert(base9_table(), Felt::from_u64(987654321), 1);
    assert_eq!(c.rows[0].input_acc.repr, c.rows[0].input_coef.repr);
    assert_eq!(c.rows[0].output_acc.repr, c.rows[0].output_coef.repr);
    assert!(!c.rows[0].q_running_sum);
    assert!(c.rows[1].q_running_sum);
    assert!(c.rows.iter().all(|r| r.q_lookup));
}

#[test]
fn flag_off_ignores_altered_cells() {
    let config = BaseConversionConfig::new(binary_table());
    let flag = Felt::from_u64(0);
    let mut c = config.assign_region(Some(Felt::from_u64(777)), flag).unwrap();
    assert!(config.check_rows(&c.rows, &flag));
    c.rows[5].input_acc = Felt::from_u64(42);
    c.rows[9].output_coef = Felt::from_u64(7);
    assert!(config.check_rows(&c.rows, &flag));
}

#[test]
fn flag_on_rejects_altered_cells() {
    let config = BaseConversionConfig::new(binary_table());
    let flag = Felt::from_u64(1);
    let honest = config.assign_region(Some(Felt::from_u64(777)), flag).unwrap();
    for i in [0usize, 5, 63] {
        let mut rows = honest.rows.clone();
        rows[i].input_acc = Felt::from_u64(42);
        assert!(!config.check_rows(&rows, &flag));
        let mut rows = honest.rows.clone();
        rows[i].output_acc = Felt::from_u64(42);
        assert!(!config.check_rows(&rows, &flag));
        let mut rows = honest.rows.clone();
        rows[i].input_coef = Felt::from_u64(1 - rows[i].input_coef.repr[0] as u64);
        assert!(!config.check_rows(&rows, &flag));
        let mut rows = honest.rows.clone();
        rows[i].output_coef = Felt::from_u64(1 - rows[i].output_coef.repr[0] as u64);
        assert!(!config.check_rows(&rows, &flag));
    }
}

#[test]
fn lookup_rejects_pair_outside_table() {
    let info = binary_table();
    assert!(info.lookup(&Felt::from_u64(1), &Felt::from_u64(1)));
    assert!(info.lookup(&Felt::from_u64(0), &Felt::from_u64(0)));
    assert!(!info.lookup(&Felt::from_u64(1), &Felt::from_u64(5)));
    assert!(!info.lookup(&Felt::from_u64(2), &Felt::from_u64(1)));
    let config = BaseConversionConfig::new(binary_table());
    let flag = Felt::from_u64(1);
    let mut c = config.assign_region(Some(Felt::from_u64(0)), flag).unwrap();
    // Digit 2 against 2 keeps the running sums in step but is no pair of the table.
    c.rows[63].input_coef = Felt::from_u64(2);
    c.rows[63].input_acc = Felt::from_u64(2);
    c.rows[63].output_coef = Felt::from_u64(2);
    c.rows[63].output_acc = Felt::from_u64(2);
    assert!(!config.check_rows(&c.rows, &flag));
}

#[test]
fn degenerate_lengths_are_errors() {
    for n in [0usize, 1] {
        let info = BaseInfo { input_base: 2, output_base: 13, num_digits: n, digit_map: vec![0, 1] };
        let r = BaseConversionConfig::new(info).assign_region(Some(Felt::from_u64(0)), Felt::from_u64(1));
        assert_eq!(r.err(), Some(ConversionError::DegenerateLength));
    }
}

#[test]
fn value_outside_domain_is_decomposition_error() {
    let info = BaseInfo { input_base: 2, output_base: 13, num_digits: 8, digit_map: vec![0, 1] };
    let config = BaseConversionConfig::new(info);
    let r = config.assign_region(Some(Felt::from_u64(256)), Felt::from_u64(1));
    assert_eq!(r.err(), Some(ConversionError::Decomposition));
    assert!(config.assign_region(Some(Felt::from_u64(255)), Felt::from_u64(1)).is_ok());
}

#[test]
fn missing_witness_reads_as_zero() {
    let config = BaseConversionConfig::new(binary_table());
    let flag = Felt::from_u64(1);
    let c = config.assign_region(None, flag).unwrap();
    assert_eq!(to_big(&c.output), BigUint::from(0u32));
    assert_eq!(c.rows.len(), 64);
    assert!(config.check_rows(&c.rows, &flag));
}

#[test]
fn compute_coefs_pads_and_maps() {
    let info = BaseInfo { input_base: 9, output_base: 13, num_digits: 4, digit_map: (0..9u64).map(|d| d & 1).collect() };
    let (ins, outs) = info.compute_coefs(&Felt::from_u64(9 * 9 + 3 * 9 + 8)).unwrap();
    assert_eq!(ins, vec![0, 1, 3, 8]);
    assert_eq!(outs, vec![0, 1, 1, 0]);
    assert_eq!(info.compute_coefs(&Felt::from_u64(9 * 9 * 9 * 9)).err(), Some(ConversionError::Decomposition));
    assert_eq!(to_big(&info.input_pob()), BigUint::from(9u32));
    assert_eq!(to_big(&info.output_pob()), BigUint::from(13u32));
}

#[test]
fn field_arithmetic_wraps_at_modulus() {
    // p - 1, then one more gives zero through the running sum: digits of a base-256 table.
    let info = BaseInfo { input_base: 256, output_base: 256, num_digits: 32, digit_map: (0..256u64).collect() };
    let config = BaseConversionConfig::new(info);
    let p_minus_1 = BigUint::parse_bytes(
        b"40000000000000000000000000000000224698fc094cf91b992d30ed00000000",
        16,
    )
    .unwrap();
    let c = config.assign_region(Some(from_big(&p_minus_1)), Felt::from_u64(1)).unwrap();
    assert_eq!(to_big(&c.output), p_minus_1);
    assert!(Felt::from_u64(3).eq_val(&from_big(&BigUint::from(3u32))));
    assert!(!Felt::from_u64(3).eq_val(&Felt::from_u64(4)));
    assert!(Felt::zero().is_zero());
}

#[test]
fn biguint_round_trip_and_bounds() {
    let x = BigUint::parse_bytes(b"1234567890abcdef1234567890abcdef", 16).unwrap();
    assert_eq!(to_big(&biguint_to_F(&x.to_bytes_le()).unwrap()), x);
    let p = BigUint::parse_bytes(
        b"40000000000000000000000000000000224698fc094cf91b992d30ed00000001",
        16,
    )
    .unwrap();
    assert!(biguint_to_F(&p.to_bytes_le()).is_none());
    let mut long = vec![7u8; 1];
    long.extend(vec![0u8; 40]);
    assert_eq!(to_big(&biguint_to_F(&long).unwrap()), BigUint::from(7u32));
    long[40] = 1;
    assert!(biguint_to_F(&long).is_none());
    assert_eq!(F_to_biguint(Felt::from_u64(0x0102)).len(), 32);
    assert_eq!(F_to_biguint(Felt::from_u64(0x0102))[..2], [2, 1]);
}


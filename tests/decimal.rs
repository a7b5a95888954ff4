use graph_gateway::decimal::{ParseStrError, UDecimal};
use graph_gateway::uint256::Uint256;

fn uint(x: u128) -> Uint256 {
    Uint256::from_u128(x)
}

fn test_udecimal<const P: u8>(tests: &[(&str, Option<(&str, u64)>)]) {
    for (input, expected) in tests {
        println!("input: \"{}\"", input);
        let d = UDecimal::<P>::from_str(input);
        match expected {
            &Some((repr, internal)) => {
                assert_eq!(d.as_ref().map(|d| d.internal), Ok(uint(internal.into())));
                assert_eq!(d.as_ref().map(|d| d.to_string()), Ok(repr.to_string()));
            }
            None => assert_eq!(d, Err(ParseStrError::InvalidInput)),
        }
    }
}

#[test]
fn udecimal() {
    test_udecimal::<6>(&[
        ("", None),
        ("?", None),
        (".", None),
        ("1.1.1", None),
        ("0", Some(("0", 0))),
        ("0.0", Some(("0", 0))),
        (".0", Some(("0", 0))),
        ("0.", Some(("0", 0))),
        ("00.00", Some(("0", 0))),
        ("1", Some(("1", 1_000_000))),
        ("1.0", Some(("1", 1_000_000))),
        ("1.", Some(("1", 1_000_000))),
        ("0.1", Some(("0.1", 100_000))),
        (".1", Some(("0.1", 100_000))),
        ("0.0000012", Some(("0.000001", 1))),
        ("0.001001", Some(("0.001001", 1_001))),
        ("0.001", Some(("0.001", 1_000))),
        ("100.001", Some(("100.001", 100_001_000))),
        ("100.000", Some(("100", 100_000_000))),
        ("123.0", Some(("123", 123_000_000))),
        ("123", Some(("123", 123_000_000))),
        (
            "123456789.123456789",
            Some(("123456789.123456", 123_456_789_123_456)),
        ),
    ]);
    test_udecimal::<0>(&[
        ("0", Some(("0", 0))),
        ("1", Some(("1", 1))),
        ("0.1", Some(("0", 0))),
        ("123456789", Some(("123456789", 123_456_789))),
        ("123.1", Some(("123", 123))),
    ]);
}

#[test]
fn decimal_rendering_truncates_to_precision() {
    let d = UDecimal::<6>::from_str("123456789.123456789").unwrap();
    assert_eq!(d.internal, uint(123_456_789_123_456));
    assert_eq!(d.to_string(), "123456789.123456");
}

#[test]
fn decimal_render_then_parse_round_trips() {
    for internal in [0u128, 1, 9, 10, 1_000_000, 1_000_001, 123_456_789_123_456, u128::MAX] {
        let d = UDecimal::<6> { internal: uint(internal) };
        let back = UDecimal::<6>::from_str(&d.to_string()).unwrap();
        assert_eq!(back.internal, uint(internal));
        let e = UDecimal::<18> { internal: uint(internal) };
        let back = UDecimal::<18>::from_str(&e.to_string()).unwrap();
        assert_eq!(back.internal, uint(internal));
    }
}

const MAX256: &str =
    "115792089237316195423570985008687907853269984665640564039457584007913129639935";

#[test]
fn decimal_parse_rejects_overflow() {
    let max = Uint256 { w0: u64::MAX, w1: u64::MAX, w2: u64::MAX, w3: u64::MAX };
    assert_eq!(UDecimal::<0>::from_str(MAX256).map(|d| d.internal), Ok(max));
    assert_eq!(UDecimal::<0>::from_str(MAX256).unwrap().to_string(), MAX256);
    assert_eq!(
        UDecimal::<0>::from_str(
            "115792089237316195423570985008687907853269984665640564039457584007913129639936"
        ),
        Err(ParseStrError::InvalidInput)
    );
    let big = UDecimal::<39>::from_str("1").unwrap();
    assert_eq!(big.to_string(), "1");
    let grt = UDecimal::<18>::from_str("1000000000000000000000").unwrap();
    assert_eq!(grt.to_string(), "1000000000000000000000");
}

#[test]
fn decimal_arithmetic() {
    let a = UDecimal::<6>::from_str("1.5").unwrap();
    let b = UDecimal::<6>::from_str("0.25").unwrap();
    assert_eq!(a.add(b).to_string(), "1.75");
    assert_eq!(a.sub(b).to_string(), "1.25");
    assert_eq!(a.mul(b).to_string(), "0.375");
    assert_eq!(a.div(b).to_string(), "6");
    assert_eq!(b.saturating_sub(a).internal, uint(0));
    let max = Uint256 { w0: u64::MAX, w1: u64::MAX, w2: u64::MAX, w3: u64::MAX };
    assert_eq!(UDecimal::<6> { internal: max }.saturating_add(a).internal, max);
    let mut c = a;
    c.add_assign(b);
    assert_eq!(c.internal, uint(1_750_000));
    c.sub_assign(a);
    assert_eq!(c.internal, uint(250_000));
    assert_eq!(a.change_precision::<2>().internal, uint(150));
    assert_eq!(a.change_precision::<8>().internal, uint(150_000_000));
    assert_eq!(a.shift::<3>().to_string(), "1500");
    assert_eq!(UDecimal::<6>::from_str("42.9").unwrap().as_u256(), uint(42));
    assert_eq!(UDecimal::<6>::zero().to_string(), "0");
}

#[test]
fn decimal_arithmetic_beyond_128_bits() {
    let a = UDecimal::<18>::from_str("1000000").unwrap();
    let b = UDecimal::<18>::from_str("2000000").unwrap();
    assert_eq!(a.mul(b).to_string(), "2000000000000");
    assert_eq!(b.div(UDecimal::<18>::from_str("0.5").unwrap()).to_string(), "4000000");
    assert_eq!(a.change_precision::<40>().to_string(), "1000000");
}

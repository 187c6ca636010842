use modbus_poller::codec::{expand_bits, from_float, from_int, pack_bits, to_float, to_int, Float32};
use modbus_poller::params::{DecodedValue, Kind, Reading};

#[test]
fn to_int_puts_the_low_register_in_the_low_half() {
    assert_eq!(to_int(0x1234, 0xABCD), 0xABCD_1234);
    assert_eq!(to_int(0xFFFF, 0x0000), 0x0000_FFFF);
    assert_eq!(to_int(0x0000, 0x0001), 0x0001_0000);
    assert_eq!(to_int(0, 0), 0);
    assert_eq!(to_int(0xFFFF, 0xFFFF), u32::MAX);
}

#[test]
fn from_int_gives_the_low_half_first() {
    assert_eq!(from_int(0xABCD_1234), [0x1234, 0xABCD]);
    assert_eq!(from_int(1), [1, 0]);
    assert_eq!(from_int(0x0001_0000), [0, 1]);
    assert_eq!(from_int(u32::MAX), [0xFFFF, 0xFFFF]);
}

#[test]
fn int_round_trip() {
    for v in [0u32, 1, 2, 0xFFFF, 0x1_0000, 0x1234_5678, 0x8000_0000, u32::MAX - 1, u32::MAX] {
        let regs = from_int(v);
        assert_eq!(to_int(regs[0], regs[1]), v);
    }
    for (lo, hi) in [(0u16, 0u16), (1, 0), (0, 1), (0xFFFF, 0), (0x8000, 0x7FFF)] {
        assert_eq!(from_int(to_int(lo, hi)), [lo, hi]);
    }
}

#[test]
fn float_example_decodes_to_3_125() {
    let value = to_float(0x0000, 0x4048);
    assert_eq!(value.bits, 0x4048_0000);
    assert_eq!(f32::from_bits(value.bits), 3.125);
}

#[test]
fn float_example_encodes_to_the_same_registers() {
    let regs = from_float(Float32 { bits: 3.125f32.to_bits() });
    assert_eq!(regs, [0x0000, 0x4048]);
}

#[test]
fn to_float_follows_big_endian_bytes() {
    for (lo, hi) in [(0x0000u16, 0x4048u16), (0x1234, 0xABCD), (0xFFFF, 0x0001), (0x00FF, 0xFF00)] {
        let h = hi.to_be_bytes();
        let l = lo.to_be_bytes();
        let expected = f32::from_be_bytes([h[0], h[1], l[0], l[1]]);
        assert_eq!(to_float(lo, hi).bits, expected.to_bits());
    }
}

#[test]
fn from_float_follows_big_endian_bytes() {
    for v in [3.125f32, -1.5, 0.1, 1.0e-40, f32::MAX, f32::MIN_POSITIVE, -0.0] {
        let b = v.to_be_bytes();
        let expected = [u16::from_be_bytes([b[2], b[3]]), u16::from_be_bytes([b[0], b[1]])];
        assert_eq!(from_float(Float32 { bits: v.to_bits() }), expected);
    }
}

#[test]
fn float_round_trip_is_bit_exact() {
    let values = [
        0.0f32,
        -0.0,
        1.0,
        -1.0,
        3.125,
        -123.456,
        1.0e-40,
        -1.0e-45,
        f32::MIN_POSITIVE,
        f32::MAX,
        f32::MIN,
        f32::EPSILON,
    ];
    for v in values {
        let regs = from_float(Float32 { bits: v.to_bits() });
        let back = f32::from_bits(to_float(regs[0], regs[1]).bits);
        assert_eq!(back.to_bits(), v.to_bits());
        assert_eq!(back, v);
    }
}

#[test]
fn nan_round_trips_with_its_bit_pattern() {
    for bits in [0x7FC0_0000u32, 0x7FC0_0001, 0xFFC1_2345, 0x7F80_0001] {
        let v = f32::from_bits(bits);
        assert!(v.is_nan());
        let regs = from_float(Float32 { bits: v.to_bits() });
        let back = to_float(regs[0], regs[1]);
        assert_eq!(back.bits, bits);
        assert!(f32::from_bits(back.bits).is_nan());
    }
}

#[test]
fn infinities_round_trip() {
    for v in [f32::INFINITY, f32::NEG_INFINITY] {
        let regs = from_float(Float32 { bits: v.to_bits() });
        assert_eq!(f32::from_bits(to_float(regs[0], regs[1]).bits), v);
    }
}

#[test]
fn expand_bits_reads_bit_i_at_index_i() {
    let flags = expand_bits(0b1010_0000_0000_0000_0000_0000_0000_0101);
    for i in 0..32 {
        let expected = i == 0 || i == 2 || i == 29 || i == 31;
        assert_eq!(flags[i], expected, "bit {}", i);
    }
    assert_eq!(expand_bits(0), [false; 32]);
    assert_eq!(expand_bits(u32::MAX), [true; 32]);
    let mut only_seven = [false; 32];
    only_seven[7] = true;
    assert_eq!(expand_bits(128), only_seven);
}

#[test]
fn pack_bits_sets_bit_i_for_flag_i() {
    assert_eq!(pack_bits(&[false; 32]), 0);
    assert_eq!(pack_bits(&[true; 32]), u32::MAX);
    let mut flags = [false; 32];
    flags[0] = true;
    flags[31] = true;
    flags[16] = true;
    assert_eq!(pack_bits(&flags), 0x8001_0001);
}

#[test]
fn bits_round_trip() {
    let mut patterns: Vec<[bool; 32]> = vec![[false; 32], [true; 32]];
    let mut alternating = [false; 32];
    let mut sparse = [false; 32];
    for i in 0..32 {
        alternating[i] = i % 2 == 0;
        sparse[i] = i % 7 == 3;
    }
    patterns.push(alternating);
    patterns.push(sparse);
    for flags in patterns {
        assert_eq!(expand_bits(pack_bits(&flags)), flags);
    }
    for v in [0u32, 1, 0x8000_0000, 0xDEAD_BEEF, u32::MAX] {
        assert_eq!(pack_bits(&expand_bits(v)), v);
    }
}

#[test]
fn kind_codes() {
    assert_eq!(Kind::from_code(0), Some(Kind::Bitfield));
    assert_eq!(Kind::from_code(1), Some(Kind::Float));
    assert_eq!(Kind::from_code(2), None);
    assert_eq!(Kind::from_code(-1), None);
    assert_eq!(Kind::Bitfield.code(), 0);
    assert_eq!(Kind::Float.code(), 1);
}

#[test]
fn decode_follows_the_kind() {
    match DecodedValue::decode(Kind::Float, 0x0000, 0x4048) {
        DecodedValue::Number(number) => assert_eq!(f32::from_bits(number.bits), 3.125),
        DecodedValue::Bits(_) => panic!("a float was asked for"),
    }
    match DecodedValue::decode(Kind::Bitfield, 0x0005, 0x8000) {
        DecodedValue::Bits(flags) => {
            assert_eq!(flags, expand_bits(0x8000_0005));
            assert!(flags[0] && flags[2] && flags[31] && !flags[1]);
        }
        DecodedValue::Number(_) => panic!("flags were asked for"),
    }
}

#[test]
fn decoded_value_encodes_to_its_registers() {
    assert_eq!(DecodedValue::Number(Float32 { bits: 3.125f32.to_bits() }).encode(), [0x0000, 0x4048]);
    assert_eq!(DecodedValue::Bits(expand_bits(0xABCD_1234)).encode(), [0x1234, 0xABCD]);
    for (kind, lo, hi) in [(Kind::Float, 7u16, 9u16), (Kind::Bitfield, 0xFFFF, 0x0001)] {
        assert_eq!(DecodedValue::decode(kind, lo, hi).encode(), [lo, hi]);
    }
}

#[test]
fn reading_value_follows_the_kind() {
    let reading = Reading { id: 4, kind: Kind::Float, pattern: 0x4048_0000 };
    match reading.value() {
        DecodedValue::Number(number) => assert_eq!(number.bits, 0x4048_0000),
        DecodedValue::Bits(_) => panic!("a float was asked for"),
    }
    let reading = Reading { id: 4, kind: Kind::Bitfield, pattern: 6 };
    match reading.value() {
        DecodedValue::Bits(flags) => assert_eq!(pack_bits(&flags), 6),
        DecodedValue::Number(_) => panic!("flags were asked for"),
    }
}

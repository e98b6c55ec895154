use num_bigint::BigInt;
use rmt_core::bytecode::read_big_int_signed;
use rmt_core::bytecode::read_big_int_unsigned;
use rmt_core::bytecode::read_i32;
use rmt_core::bytecode::read_u16;
use rmt_core::bytecode::write_big_int_signed;
use rmt_core::bytecode::write_big_int_unsigned;
use rmt_core::bytecode::write_i32;
use rmt_core::bytecode::write_u16;
use rmt_core::bytecode::Op;
use rmt_core::bytecode::ReadError;
use rmt_core::bytecode::Var;

#[test]
fn test_op_from_byte() {
    assert_eq!(Op::from_byte(0x01), Some(Op::LoadConst));
    assert_eq!(Op::from_byte(0x10), Some(Op::Add));
    assert_eq!(Op::from_byte(0xFF), None);
}

#[test]
fn test_var_from_byte() {
    assert_eq!(Var::from_byte(0), Some(Var::StartTime));
    assert_eq!(Var::from_byte(5), Some(Var::MeasureLength));
    assert_eq!(Var::from_byte(6), None);
}

#[test]
fn test_read_write_u16() {
    let mut buf = Vec::new();
    write_u16(&mut buf, 0x1234);
    assert_eq!(read_u16(&buf, 0), 0x1234);
}

#[test]
fn test_read_write_i32() {
    let mut buf = Vec::new();
    write_i32(&mut buf, -12345);
    assert_eq!(read_i32(&buf, 0), -12345);

    buf.clear();
    write_i32(&mut buf, 0x12345678);
    assert_eq!(read_i32(&buf, 0), 0x12345678);
}

#[test]
fn test_load_const_big_opcode() {
    assert_eq!(Op::from_byte(0x04), Some(Op::LoadConstBig));
}

#[test]
fn test_read_big_int_unsigned_small() {
    let bytecode = vec![0x00, 0x01, 42];
    let (value, bytes) = read_big_int_unsigned(&bytecode, 0).unwrap();
    assert_eq!(value, BigInt::from(42));
    assert_eq!(bytes, 3);
}

#[test]
fn test_read_big_int_signed_positive() {
    let bytecode = vec![0x00, 0x00, 0x01, 42];
    let (value, bytes) = read_big_int_signed(&bytecode, 0).unwrap();
    assert_eq!(value, BigInt::from(42));
    assert_eq!(bytes, 4);
}

#[test]
fn test_read_big_int_signed_negative() {
    let bytecode = vec![0x01, 0x00, 0x01, 42];
    let (value, bytes) = read_big_int_signed(&bytecode, 0).unwrap();
    assert_eq!(value, BigInt::from(-42));
    assert_eq!(bytes, 4);
}

#[test]
fn test_read_big_int_large_value() {
    let large_num: i64 = 3936588805702081;
    let bytes = large_num.to_be_bytes();
    let trimmed: Vec<u8> = bytes.iter().skip_while(|&&b| b == 0).cloned().collect();

    let mut bytecode = vec![0x00];
    bytecode.push(0x00);
    bytecode.push(trimmed.len() as u8);
    bytecode.extend(&trimmed);

    let (value, _) = read_big_int_signed(&bytecode, 0).unwrap();
    assert_eq!(value, BigInt::from(large_num));
}

#[test]
fn every_opcode_survives_encoding() {
    let ops = [
        (Op::LoadConst, 0x01u8),
        (Op::LoadRef, 0x02),
        (Op::LoadBase, 0x03),
        (Op::LoadConstBig, 0x04),
        (Op::Add, 0x10),
        (Op::Sub, 0x11),
        (Op::Mul, 0x12),
        (Op::Div, 0x13),
        (Op::Neg, 0x14),
        (Op::Pow, 0x15),
        (Op::FindTempo, 0x20),
        (Op::FindMeasure, 0x21),
        (Op::FindInstrument, 0x22),
        (Op::Dup, 0x30),
        (Op::Swap, 0x31),
    ];
    for (op, byte) in ops {
        assert_eq!(op.to_byte(), byte);
        assert_eq!(Op::from_byte(byte), Some(op));
    }
    let known: Vec<u8> = ops.iter().map(|p| p.1).collect();
    for byte in 0..=255u8 {
        if !known.contains(&byte) {
            assert_eq!(Op::from_byte(byte), None);
        }
    }
}

#[test]
fn variable_names_and_indices() {
    let vars = [
        (Var::StartTime, 0u8, "startTime"),
        (Var::Duration, 1, "duration"),
        (Var::Frequency, 2, "frequency"),
        (Var::Tempo, 3, "tempo"),
        (Var::BeatsPerMeasure, 4, "beatsPerMeasure"),
        (Var::MeasureLength, 5, "measureLength"),
    ];
    for (var, index, name) in vars {
        assert_eq!(var.index(), index);
        assert_eq!(var.name(), name);
        assert_eq!(Var::from_byte(index), Some(var));
        assert_eq!(Var::from_name(name), Some(var));
    }
    assert_eq!(Var::from_name("pitch"), None);
    assert_eq!(Var::from_name(""), None);
    assert_eq!(Var::from_name("starttime"), None);
}

#[test]
fn u16_round_trip_at_the_edges() {
    for value in [0u16, 1, 0x00ff, 0x0100, 0x1234, 0x7fff, 0x8000, 0xfffe, 0xffff] {
        let mut buf = vec![0xaa];
        write_u16(&mut buf, value);
        assert_eq!(buf.len(), 3);
        assert_eq!(buf[1], (value >> 8) as u8);
        assert_eq!(buf[2], value as u8);
        assert_eq!(read_u16(&buf, 1), value);
    }
}

#[test]
fn i32_round_trip_at_the_edges() {
    for value in [0i32, 1, -1, 255, 256, -256, 0x12345678, i32::MAX, i32::MIN, -12345] {
        let mut buf = vec![0xaa, 0xbb];
        write_i32(&mut buf, value);
        assert_eq!(buf.len(), 6);
        assert_eq!(&buf[2..], &value.to_be_bytes());
        assert_eq!(read_i32(&buf, 2), value);
    }
}

#[test]
fn big_int_round_trip_for_both_signs() {
    let two_to_256: BigInt = BigInt::from(1) << 256usize;
    let values = vec![
        BigInt::from(0),
        BigInt::from(1),
        BigInt::from(-1),
        BigInt::from(255),
        BigInt::from(256),
        BigInt::from(-65536),
        BigInt::from(i64::MAX),
        BigInt::from(i64::MIN),
        two_to_256.clone(),
        -two_to_256.clone(),
        two_to_256.clone() - BigInt::from(1),
        -(two_to_256 * BigInt::from(12345)),
    ];
    for value in values {
        let mut buf = vec![0x04];
        assert!(write_big_int_signed(&mut buf, &value));
        let (back, used) = read_big_int_signed(&buf, 1).unwrap();
        assert_eq!(back, value);
        assert_eq!(used, buf.len() - 1);

        let mut plain = Vec::new();
        assert!(write_big_int_unsigned(&mut plain, &value));
        let (magnitude, used) = read_big_int_unsigned(&plain, 0).unwrap();
        assert_eq!(magnitude, if value < BigInt::from(0) { -value.clone() } else { value.clone() });
        assert_eq!(used, plain.len());
    }
}

#[test]
fn big_int_encoding_layout() {
    let mut buf = Vec::new();
    assert!(write_big_int_signed(&mut buf, &BigInt::from(-1125)));
    assert_eq!(buf, vec![0x01, 0x00, 0x02, 4, 101]);
    let mut buf = Vec::new();
    assert!(write_big_int_signed(&mut buf, &BigInt::from(42)));
    assert_eq!(buf, vec![0x00, 0x00, 0x01, 42]);
}

#[test]
fn big_int_too_long_is_not_written() {
    let huge: BigInt = BigInt::from(1) << (8usize * 65536);
    let mut buf = vec![7];
    assert!(!write_big_int_signed(&mut buf, &huge));
    assert_eq!(buf, vec![7]);
    assert!(!write_big_int_unsigned(&mut buf, &huge));
    assert_eq!(buf, vec![7]);
}

#[test]
fn big_int_length_limit_is_exact() {
    let limit: BigInt = BigInt::from(1) << (8usize * 65535);
    let largest: BigInt = &limit - BigInt::from(1);
    let mut buf = Vec::new();
    assert!(write_big_int_unsigned(&mut buf, &largest));
    assert_eq!(buf.len(), 2 + 65535);
    assert_eq!(&buf[..3], &[0xff, 0xff, 0xff]);
    let (back, used) = read_big_int_unsigned(&buf, 0).unwrap();
    assert_eq!(back, largest);
    assert_eq!(used, 2 + 65535);

    let mut buf = vec![1, 2];
    assert!(write_big_int_signed(&mut buf, &(-largest.clone())));
    assert_eq!(buf.len(), 2 + 1 + 2 + 65535);
    let (back, used) = read_big_int_signed(&buf, 2).unwrap();
    assert_eq!(back, -largest);
    assert_eq!(used, 1 + 2 + 65535);

    let mut buf = vec![7];
    assert!(!write_big_int_unsigned(&mut buf, &limit));
    assert!(!write_big_int_signed(&mut buf, &(-limit)));
    assert_eq!(buf, vec![7]);
}

#[test]
fn big_int_read_errors() {
    assert_eq!(read_big_int_signed(&[], 0).unwrap_err(), ReadError::MissingSign);
    assert_eq!(read_big_int_signed(&[0], 1).unwrap_err(), ReadError::MissingSign);
    assert_eq!(read_big_int_signed(&[0], 0).unwrap_err(), ReadError::MissingLength);
    assert_eq!(read_big_int_signed(&[0, 0], 0).unwrap_err(), ReadError::MissingLength);
    assert_eq!(read_big_int_signed(&[0, 0, 2, 1], 0).unwrap_err(), ReadError::MissingBytes);
    assert_eq!(read_big_int_unsigned(&[0], 0).unwrap_err(), ReadError::MissingLength);
    assert_eq!(read_big_int_unsigned(&[0, 3, 1, 2], 0).unwrap_err(), ReadError::MissingBytes);
    let (zero, used) = read_big_int_unsigned(&[0, 0], 0).unwrap();
    assert_eq!(zero, BigInt::from(0));
    assert_eq!(used, 2);
    let (value, used) = read_big_int_signed(&[9, 0, 1, 5], 0).unwrap();
    assert_eq!(value, BigInt::from(5));
    assert_eq!(used, 4);
}

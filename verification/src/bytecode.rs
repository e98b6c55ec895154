//! The instruction set of the expression bytecode and its byte-level codec.
//!
//! Every multi-byte field is big-endian.

use crate::bignum::be_value;
use crate::bignum::big_from_bytes_be;
use crate::bignum::big_neg;
use crate::bignum::big_sign;
use crate::bignum::big_to_bytes_be;
use crate::bignum::big_value;
use crate::rational::magnitude;
use num_bigint::BigInt;
use vstd::arithmetic::power::lemma_pow_increases;
use vstd::arithmetic::power::pow;
use vstd::prelude::*;

verus! {

/// The opcodes of the stack machine.
#[derive(Debug, Clone, Copy, PartialEq, Eq, Structural)]
pub enum Op {
    /// Push a rational constant: numerator and denominator, four bytes each.
    LoadConst,
    /// Push a variable of another note: two bytes of note id, one of variable.
    LoadRef,
    /// Push a variable of the base note: one byte of variable.
    LoadBase,
    /// Push a big rational constant: a signed numerator and an unsigned
    /// denominator, each with a two-byte length.
    LoadConstBig,
    Add,
    Sub,
    Mul,
    Div,
    Neg,
    Pow,
    FindTempo,
    FindMeasure,
    FindInstrument,
    Dup,
    Swap,
}

impl Op {
    /// The byte that encodes an opcode.
    pub open spec fn spec_byte(self) -> u8 {
        match self {
            Op::LoadConst => 0x01,
            Op::LoadRef => 0x02,
            Op::LoadBase => 0x03,
            Op::LoadConstBig => 0x04,
            Op::Add => 0x10,
            Op::Sub => 0x11,
            Op::Mul => 0x12,
            Op::Div => 0x13,
            Op::Neg => 0x14,
            Op::Pow => 0x15,
            Op::FindTempo => 0x20,
            Op::FindMeasure => 0x21,
            Op::FindInstrument => 0x22,
            Op::Dup => 0x30,
            Op::Swap => 0x31,
        }
    }

    /// The opcode that a byte encodes, if it encodes one.
    pub open spec fn spec_from_byte(byte: u8) -> Option<Op> {
        if byte == 0x01 {
            Some(Op::LoadConst)
        } else if byte == 0x02 {
            Some(Op::LoadRef)
        } else if byte == 0x03 {
            Some(Op::LoadBase)
        } else if byte == 0x04 {
            Some(Op::LoadConstBig)
        } else if byte == 0x10 {
            Some(Op::Add)
        } else if byte == 0x11 {
            Some(Op::Sub)
        } else if byte == 0x12 {
            Some(Op::Mul)
        } else if byte == 0x13 {
            Some(Op::Div)
        } else if byte == 0x14 {
            Some(Op::Neg)
        } else if byte == 0x15 {
            Some(Op::Pow)
        } else if byte == 0x20 {
            Some(Op::FindTempo)
        } else if byte == 0x21 {
            Some(Op::FindMeasure)
        } else if byte == 0x22 {
            Some(Op::FindInstrument)
        } else if byte == 0x30 {
            Some(Op::Dup)
        } else if byte == 0x31 {
            Some(Op::Swap)
        } else {
            None
        }
    }

    /// Decodes an opcode. Bytes that encode none give `None`.
    pub fn from_byte(byte: u8) -> (r: Option<Op>)
        ensures
            r == Op::spec_from_byte(byte),
    {
        match byte {
            0x01 => Some(Op::LoadConst),
            0x02 => Some(Op::LoadRef),
            0x03 => Some(Op::LoadBase),
            0x04 => Some(Op::LoadConstBig),
            0x10 => Some(Op::Add),
            0x11 => Some(Op::Sub),
            0x12 => Some(Op::Mul),
            0x13 => Some(Op::Div),
            0x14 => Some(Op::Neg),
            0x15 => Some(Op::Pow),
            0x20 => Some(Op::FindTempo),
            0x21 => Some(Op::FindMeasure),
            0x22 => Some(Op::FindInstrument),
            0x30 => Some(Op::Dup),
            0x31 => Some(Op::Swap),
            _ => None,
        }
    }

    /// Encodes an opcode.
    pub fn to_byte(self) -> (r: u8)
        ensures
            r == self.spec_byte(),
            Op::spec_from_byte(r) == Some(self),
    {
        match self {
            Op::LoadConst => 0x01,
            Op::LoadRef => 0x02,
            Op::LoadBase => 0x03,
            Op::LoadConstBig => 0x04,
            Op::Add => 0x10,
            Op::Sub => 0x11,
            Op::Mul => 0x12,
            Op::Div => 0x13,
            Op::Neg => 0x14,
            Op::Pow => 0x15,
            Op::FindTempo => 0x20,
            Op::FindMeasure => 0x21,
            Op::FindInstrument => 0x22,
            Op::Dup => 0x30,
            Op::Swap => 0x31,
        }
    }
}

/// The six variables of a note, in the order of their indices.
#[derive(Debug, Clone, Copy, PartialEq, Eq, Hash, Structural)]
pub enum Var {
    StartTime,
    Duration,
    Frequency,
    Tempo,
    BeatsPerMeasure,
    MeasureLength,
}

impl Var {
    /// The index of a variable, 0 to 5.
    pub open spec fn spec_index(self) -> u8 {
        match self {
            Var::StartTime => 0,
            Var::Duration => 1,
            Var::Frequency => 2,
            Var::Tempo => 3,
            Var::BeatsPerMeasure => 4,
            Var::MeasureLength => 5,
        }
    }

    /// The variable with a given index, if there is one.
    pub open spec fn spec_from_byte(byte: u8) -> Option<Var> {
        if byte == 0 {
            Some(Var::StartTime)
        } else if byte == 1 {
            Some(Var::Duration)
        } else if byte == 2 {
            Some(Var::Frequency)
        } else if byte == 3 {
            Some(Var::Tempo)
        } else if byte == 4 {
            Some(Var::BeatsPerMeasure)
        } else if byte == 5 {
            Some(Var::MeasureLength)
        } else {
            None
        }
    }

    /// The name of a variable in the surface syntax.
    pub open spec fn spec_name(self) -> Seq<char> {
        match self {
            Var::StartTime => "startTime"@,
            Var::Duration => "duration"@,
            Var::Frequency => "frequency"@,
            Var::Tempo => "tempo"@,
            Var::BeatsPerMeasure => "beatsPerMeasure"@,
            Var::MeasureLength => "measureLength"@,
        }
    }

    /// The variable with a given name, if there is one.
    pub open spec fn spec_from_name(name: Seq<char>) -> Option<Var> {
        if name == "startTime"@ {
            Some(Var::StartTime)
        } else if name == "duration"@ {
            Some(Var::Duration)
        } else if name == "frequency"@ {
            Some(Var::Frequency)
        } else if name == "tempo"@ {
            Some(Var::Tempo)
        } else if name == "beatsPerMeasure"@ {
            Some(Var::BeatsPerMeasure)
        } else if name == "measureLength"@ {
            Some(Var::MeasureLength)
        } else {
            None
        }
    }

    /// The variable with a given index. Indices above 5 give `None`.
    pub fn from_byte(byte: u8) -> (r: Option<Var>)
        ensures
            r == Var::spec_from_byte(byte),
    {
        match byte {
            0 => Some(Var::StartTime),
            1 => Some(Var::Duration),
            2 => Some(Var::Frequency),
            3 => Some(Var::Tempo),
            4 => Some(Var::BeatsPerMeasure),
            5 => Some(Var::MeasureLength),
            _ => None,
        }
    }

    /// The index of a variable.
    pub fn index(self) -> (r: u8)
        ensures
            r == self.spec_index(),
            r < 6,
            Var::spec_from_byte(r) == Some(self),
    {
        match self {
            Var::StartTime => 0,
            Var::Duration => 1,
            Var::Frequency => 2,
            Var::Tempo => 3,
            Var::BeatsPerMeasure => 4,
            Var::MeasureLength => 5,
        }
    }

    /// The name of a variable.
    pub fn name(&self) -> (r: &'static str)
        ensures
            r@ == self.spec_name(),
    {
        match self {
            Var::StartTime => "startTime",
            Var::Duration => "duration",
            Var::Frequency => "frequency",
            Var::Tempo => "tempo",
            Var::BeatsPerMeasure => "beatsPerMeasure",
            Var::MeasureLength => "measureLength",
        }
    }

    /// The variable with a given name. Other names give `None`.
    pub fn from_name(name: &str) -> (r: Option<Var>)
        ensures
            r == Var::spec_from_name(name@),
    {
        if text_equal(name, "startTime") {
            Some(Var::StartTime)
        } else if text_equal(name, "duration") {
            Some(Var::Duration)
        } else if text_equal(name, "frequency") {
            Some(Var::Frequency)
        } else if text_equal(name, "tempo") {
            Some(Var::Tempo)
        } else if text_equal(name, "beatsPerMeasure") {
            Some(Var::BeatsPerMeasure)
        } else if text_equal(name, "measureLength") {
            Some(Var::MeasureLength)
        } else {
            None
        }
    }
}

/// Equality of two string slices (`PartialEq for str`): the same characters
/// in the same order.
#[verifier::external_body]
pub(crate) fn text_equal(a: &str, b: &str) -> (r: bool)
    ensures
        r == (a@ == b@),
{
    a == b
}

/// The unsigned 16-bit number that two big-endian bytes denote.
pub open spec fn spec_read_u16(bytes: Seq<u8>, offset: int) -> int {
    bytes[offset] as int * 0x100 + bytes[offset + 1] as int
}

/// The two big-endian bytes of an unsigned 16-bit number.
pub open spec fn spec_u16_bytes(value: u16) -> Seq<u8> {
    seq![(value / 0x100) as u8, (value % 0x100) as u8]
}

/// The unsigned 32-bit number that four big-endian bytes denote.
pub open spec fn spec_read_u32(bytes: Seq<u8>, offset: int) -> int {
    bytes[offset] as int * 0x100_0000 + bytes[offset + 1] as int * 0x1_0000 + bytes[offset
        + 2] as int * 0x100 + bytes[offset + 3] as int
}

/// The signed 32-bit number that four big-endian bytes denote in two's
/// complement.
pub open spec fn spec_read_i32(bytes: Seq<u8>, offset: int) -> int {
    let u = spec_read_u32(bytes, offset);
    if u >= 0x8000_0000 {
        u - 0x1_0000_0000
    } else {
        u
    }
}

/// The four big-endian bytes of a signed 32-bit number in two's complement.
pub open spec fn spec_i32_bytes(value: i32) -> Seq<u8> {
    let u: int = if value < 0 {
        value + 0x1_0000_0000
    } else {
        value as int
    };
    seq![
        (u / 0x100_0000) as u8,
        (u / 0x1_0000 % 0x100) as u8,
        (u / 0x100 % 0x100) as u8,
        (u % 0x100) as u8,
    ]
}

/// Reads an unsigned 16-bit number at `offset`.
pub fn read_u16(bytecode: &[u8], offset: usize) -> (r: u16)
    requires
        offset + 1 < bytecode@.len(),
    ensures
        r == spec_read_u16(bytecode@, offset as int),
{
    let hi: u16 = bytecode[offset] as u16;
    let lo: u16 = bytecode[offset + 1] as u16;
    hi * 0x100 + lo
}

/// Reads a signed 32-bit number at `offset`.
pub fn read_i32(bytecode: &[u8], offset: usize) -> (r: i32)
    requires
        offset + 3 < bytecode@.len(),
    ensures
        r == spec_read_i32(bytecode@, offset as int),
{
    let b0: i64 = bytecode[offset] as i64;
    let b1: i64 = bytecode[offset + 1] as i64;
    let b2: i64 = bytecode[offset + 2] as i64;
    let b3: i64 = bytecode[offset + 3] as i64;
    let u: i64 = b0 * 0x100_0000 + b1 * 0x1_0000 + b2 * 0x100 + b3;
    if u >= 0x8000_0000 {
        (u - 0x1_0000_0000) as i32
    } else {
        u as i32
    }
}

/// Appends the two bytes of an unsigned 16-bit number.
pub fn write_u16(buffer: &mut Vec<u8>, value: u16)
    ensures
        final(buffer)@ == old(buffer)@ + spec_u16_bytes(value),
{
    buffer.push((value / 0x100) as u8);
    buffer.push((value % 0x100) as u8);
    assert(buffer@ =~= old(buffer)@ + spec_u16_bytes(value));
}

/// Appends the four bytes of a signed 32-bit number.
pub fn write_i32(buffer: &mut Vec<u8>, value: i32)
    ensures
        final(buffer)@ == old(buffer)@ + spec_i32_bytes(value),
{
    let u: i64 = if value < 0 {
        value as i64 + 0x1_0000_0000
    } else {
        value as i64
    };
    buffer.push((u / 0x100_0000) as u8);
    buffer.push((u / 0x1_0000 % 0x100) as u8);
    buffer.push((u / 0x100 % 0x100) as u8);
    buffer.push((u % 0x100) as u8);
    assert(buffer@ =~= old(buffer)@ + spec_i32_bytes(value));
}

/// Reading back what `write_u16` appended gives the number written.
pub proof fn lemma_u16_round_trip(prefix: Seq<u8>, value: u16)
    ensures
        spec_read_u16(prefix + spec_u16_bytes(value), prefix.len() as int) == value,
{
    let s = prefix + spec_u16_bytes(value);
    assert(s[prefix.len() as int] == (value / 0x100) as u8);
    assert(s[prefix.len() as int + 1] == (value % 0x100) as u8);
}

/// Writing the number read from two bytes gives those two bytes.
pub proof fn lemma_u16_bytes_of_read(bytes: Seq<u8>, offset: int)
    requires
        0 <= offset,
        offset + 1 < bytes.len(),
    ensures
        spec_u16_bytes(spec_read_u16(bytes, offset) as u16) == bytes.subrange(offset, offset + 2),
{
    let v = spec_read_u16(bytes, offset);
    assert(v / 0x100 == bytes[offset] as int);
    assert(v % 0x100 == bytes[offset + 1] as int);
    assert(spec_u16_bytes(v as u16) =~= bytes.subrange(offset, offset + 2));
}

/// Reading back what `write_i32` appended gives the number written.
pub proof fn lemma_i32_round_trip(prefix: Seq<u8>, value: i32)
    ensures
        spec_read_i32(prefix + spec_i32_bytes(value), prefix.len() as int) == value,
{
    let s = prefix + spec_i32_bytes(value);
    let u: int = if value < 0 {
        value + 0x1_0000_0000
    } else {
        value as int
    };
    let p = prefix.len() as int;
    assert(s[p] == (u / 0x100_0000) as u8);
    assert(s[p + 1] == (u / 0x1_0000 % 0x100) as u8);
    assert(s[p + 2] == (u / 0x100 % 0x100) as u8);
    assert(s[p + 3] == (u % 0x100) as u8);
}

/// Writing the number read from four bytes gives those four bytes.
pub proof fn lemma_i32_bytes_of_read(bytes: Seq<u8>, offset: int)
    requires
        0 <= offset,
        offset + 3 < bytes.len(),
    ensures
        spec_i32_bytes(spec_read_i32(bytes, offset) as i32) == bytes.subrange(offset, offset + 4),
{
    let u = spec_read_u32(bytes, offset);
    assert(u / 0x100_0000 == bytes[offset] as int);
    assert(u / 0x1_0000 % 0x100 == bytes[offset + 1] as int);
    assert(u / 0x100 % 0x100 == bytes[offset + 2] as int);
    assert(u % 0x100 == bytes[offset + 3] as int);
    assert(spec_i32_bytes(spec_read_i32(bytes, offset) as i32) =~= bytes.subrange(
        offset,
        offset + 4,
    ));
}

/// Why a big integer could not be read.
#[derive(Debug, Clone, Copy, PartialEq, Eq, Structural)]
pub enum ReadError {
    /// No byte is left for the sign.
    MissingSign,
    /// Fewer than two bytes are left for the length.
    MissingLength,
    /// Fewer bytes are left than the length announces.
    MissingBytes,
}

/// The outcome of decoding an unsigned big integer at `offset`: its value and
/// the number of bytes it takes, or the reason why none is there.
pub open spec fn spec_read_big_unsigned(bytes: Seq<u8>, offset: int) -> Result<(int, int), ReadError> {
    if offset + 2 > bytes.len() {
        Err(ReadError::MissingLength)
    } else {
        let len = spec_read_u16(bytes, offset);
        if offset + 2 + len > bytes.len() {
            Err(ReadError::MissingBytes)
        } else {
            Ok((be_value(bytes.subrange(offset + 2, offset + 2 + len)) as int, 2 + len))
        }
    }
}

/// The outcome of decoding a signed big integer at `offset`. A sign byte of 1
/// means negative, any other non-negative.
pub open spec fn spec_read_big_signed(bytes: Seq<u8>, offset: int) -> Result<(int, int), ReadError> {
    if offset >= bytes.len() {
        Err(ReadError::MissingSign)
    } else {
        match spec_read_big_unsigned(bytes, offset + 1) {
            Err(e) => Err(e),
            Ok((m, used)) => Ok(
                (
                    if bytes[offset] == 1 {
                        -m
                    } else {
                        m
                    },
                    1 + used,
                ),
            ),
        }
    }
}

/// The encoding of an unsigned big integer: a two-byte length, then the
/// big-endian bytes of the magnitude.
pub open spec fn spec_big_unsigned_bytes(magnitude: Seq<u8>) -> Seq<u8> {
    spec_u16_bytes(magnitude.len() as u16) + magnitude
}

/// The encoding of a signed big integer: a sign byte, then the unsigned
/// encoding of the magnitude.
pub open spec fn spec_big_signed_bytes(negative: bool, magnitude: Seq<u8>) -> Seq<u8> {
    seq![if negative { 1u8 } else { 0u8 }] + spec_big_unsigned_bytes(magnitude)
}

/// Reads a variable-length unsigned big integer at `offset`. Returns the
/// value and the number of bytes read.
pub fn read_big_int_unsigned(bytecode: &[u8], offset: usize) -> (r: Result<(BigInt, usize), ReadError>)
    ensures
        match r {
            Ok((value, used)) => spec_read_big_unsigned(bytecode@, offset as int) == Ok::<
                (int, int),
                ReadError,
            >((big_value(value), used as int)),
            Err(e) => spec_read_big_unsigned(bytecode@, offset as int) == Err::<
                (int, int),
                ReadError,
            >(e),
        },
        r matches Ok(pair) ==> 2 <= pair.1 && offset + pair.1 <= bytecode@.len(),
{
    let total = bytecode.len();
    if total < 2 || offset > total - 2 {
        return Err(ReadError::MissingLength);
    }
    let len = read_u16(bytecode, offset) as usize;
    if len > total - 2 - offset {
        return Err(ReadError::MissingBytes);
    }
    let bytes = slice_range(bytecode, offset + 2, offset + 2 + len);
    let value = big_from_bytes_be(bytes);
    Ok((value, 2 + len))
}

/// Reads a variable-length signed big integer at `offset`. Returns the value
/// and the number of bytes read.
pub fn read_big_int_signed(bytecode: &[u8], offset: usize) -> (r: Result<(BigInt, usize), ReadError>)
    ensures
        match r {
            Ok((value, used)) => spec_read_big_signed(bytecode@, offset as int) == Ok::<
                (int, int),
                ReadError,
            >((big_value(value), used as int)),
            Err(e) => spec_read_big_signed(bytecode@, offset as int) == Err::<
                (int, int),
                ReadError,
            >(e),
        },
        r matches Ok(pair) ==> 3 <= pair.1 && offset + pair.1 <= bytecode@.len(),
{
    if offset >= bytecode.len() {
        return Err(ReadError::MissingSign);
    }
    let sign_byte = bytecode[offset];
    match read_big_int_unsigned(bytecode, offset + 1) {
        Err(e) => Err(e),
        Ok((magnitude, used)) => {
            let value = if sign_byte == 0x01 {
                big_neg(magnitude)
            } else {
                magnitude
            };
            Ok((value, 1 + used))
        },
    }
}

/// The part of a slice from `from` up to `to`.
fn slice_range(bytes: &[u8], from: usize, to: usize) -> (r: &[u8])
    requires
        from <= to <= bytes@.len(),
    ensures
        r@ == bytes@.subrange(from as int, to as int),
{
    &bytes[from..to]
}

/// A number with `n` digits to the base 256 is less than `256^n`.
pub proof fn lemma_digits_bound(m: Seq<u8>)
    ensures
        be_value(m) < pow(256, m.len()),
    decreases m.len(),
{
    reveal(pow);
    if m.len() > 0 {
        lemma_digits_bound(m.drop_last());
    }
}

/// A number with `n` digits to the base 256, the first of them not zero, is
/// at least `256^(n-1)`.
pub proof fn lemma_leading_digit_bound(m: Seq<u8>)
    requires
        m.len() >= 1,
        m[0] != 0,
    ensures
        be_value(m) >= pow(256, (m.len() - 1) as nat),
    decreases m.len(),
{
    reveal(pow);
    if m.len() == 1 {
        assert(m.drop_last().len() == 0);
        assert(be_value(m.drop_last()) == 0);
    } else {
        assert(m.drop_last()[0] == m[0]);
        lemma_leading_digit_bound(m.drop_last());
    }
}

/// Whether a magnitude can be encoded: its digits to the base 256 must be
/// at most 65535.
pub open spec fn encodable(v: int) -> bool {
    magnitude(v) < pow(256, 0xffff)
}

/// Every integer of a magnitude up to 2^256, which is 256^32, can be
/// encoded.
pub proof fn lemma_256_bits_encodable(v: int)
    requires
        magnitude(v) <= pow(256, 32),
    ensures
        encodable(v),
{
    vstd::arithmetic::power::lemma_pow_strictly_increases(256, 32, 0xffff);
}

/// The digits that `big_to_bytes_be` hands out are at most 65535 exactly
/// where the number is encodable.
proof fn lemma_encodable(m: Seq<u8>, v: int)
    requires
        be_value(m) == magnitude(v),
        m.len() >= 1,
        m.len() > 1 ==> m[0] != 0,
    ensures
        m.len() <= 0xffff <==> encodable(v),
{
    if m.len() <= 0xffff {
        lemma_digits_bound(m);
        lemma_pow_increases(256, m.len(), 0xffff);
    } else {
        lemma_leading_digit_bound(m);
        lemma_pow_increases(256, 0xffff, (m.len() - 1) as nat);
    }
}

/// Appends the encoding of the magnitude of a big integer: a two-byte length
/// and the big-endian bytes. Returns `false`, appending nothing, where the
/// magnitude takes more than 65535 bytes. What was appended decodes to the
/// magnitude again.
pub fn write_big_int_unsigned(buffer: &mut Vec<u8>, value: &BigInt) -> (r: bool)
    ensures
        r == encodable(big_value(*value)),
        r ==> exists|m: Seq<u8>|
            #![auto]
            m.len() <= 0xffff && be_value(m) == magnitude(big_value(*value)) && final(buffer)@
                == old(buffer)@ + spec_big_unsigned_bytes(m),
        r ==> spec_read_big_unsigned(final(buffer)@, old(buffer)@.len() as int) == Ok::<
            (int, int),
            ReadError,
        >((magnitude(big_value(*value)) as int, final(buffer)@.len() - old(buffer)@.len())),
        !r ==> final(buffer)@ == old(buffer)@,
{
    let bytes = big_to_bytes_be(value);
    proof {
        lemma_encodable(bytes@, big_value(*value));
    }
    if bytes.len() > 0xffff {
        return false;
    }
    proof {
        lemma_big_unsigned_round_trip(old(buffer)@, bytes@, Seq::<u8>::empty());
        assert(old(buffer)@ + spec_big_unsigned_bytes(bytes@) + Seq::<u8>::empty() =~= old(
            buffer,
        )@ + spec_big_unsigned_bytes(bytes@));
    }
    write_u16(buffer, bytes.len() as u16);
    let ghost mid = buffer@;
    let mut i: usize = 0;
    while i < bytes.len()
        invariant
            i <= bytes.len(),
            buffer@ == mid + bytes@.subrange(0, i as int),
        decreases bytes.len() - i,
    {
        buffer.push(bytes[i]);
        assert(bytes@.subrange(0, i as int + 1) =~= bytes@.subrange(0, i as int).push(
            bytes@[i as int],
        ));
        i += 1;
    }
    assert(bytes@.subrange(0, bytes@.len() as int) =~= bytes@);
    assert(buffer@ =~= old(buffer)@ + spec_big_unsigned_bytes(bytes@));
    true
}

/// Appends the encoding of a big integer: a sign byte, 1 for a negative
/// value and 0 otherwise, then the encoding of the magnitude. Returns
/// `false`, appending nothing, where the magnitude takes more than 65535
/// bytes. What was appended decodes to the value again.
pub fn write_big_int_signed(buffer: &mut Vec<u8>, value: &BigInt) -> (r: bool)
    ensures
        r == encodable(big_value(*value)),
        r ==> exists|m: Seq<u8>|
            #![auto]
            m.len() <= 0xffff && be_value(m) == magnitude(big_value(*value)) && final(buffer)@
                == old(buffer)@ + spec_big_signed_bytes(big_value(*value) < 0, m),
        r ==> spec_read_big_signed(final(buffer)@, old(buffer)@.len() as int) == Ok::<
            (int, int),
            ReadError,
        >((big_value(*value), final(buffer)@.len() - old(buffer)@.len())),
        !r ==> final(buffer)@ == old(buffer)@,
{
    let bytes = big_to_bytes_be(value);
    proof {
        lemma_encodable(bytes@, big_value(*value));
    }
    if bytes.len() > 0xffff {
        return false;
    }
    proof {
        lemma_big_signed_round_trip(
            old(buffer)@,
            big_value(*value) < 0,
            bytes@,
            Seq::<u8>::empty(),
        );
        assert(old(buffer)@ + spec_big_signed_bytes(big_value(*value) < 0, bytes@) + Seq::<
            u8,
        >::empty() =~= old(buffer)@ + spec_big_signed_bytes(big_value(*value) < 0, bytes@));
    }
    let negative = big_sign(value) < 0;
    buffer.push(if negative { 1u8 } else { 0u8 });
    write_u16(buffer, bytes.len() as u16);
    let ghost mid = buffer@;
    let mut i: usize = 0;
    while i < bytes.len()
        invariant
            i <= bytes.len(),
            buffer@ == mid + bytes@.subrange(0, i as int),
        decreases bytes.len() - i,
    {
        buffer.push(bytes[i]);
        assert(bytes@.subrange(0, i as int + 1) =~= bytes@.subrange(0, i as int).push(
            bytes@[i as int],
        ));
        i += 1;
    }
    assert(bytes@.subrange(0, bytes@.len() as int) =~= bytes@);
    assert(buffer@ =~= old(buffer)@ + spec_big_signed_bytes(negative, bytes@));
    true
}

/// Decoding what was encoded gives back the magnitude and the number of
/// bytes written, whatever precedes and follows the encoding.
pub proof fn lemma_big_unsigned_round_trip(prefix: Seq<u8>, m: Seq<u8>, suffix: Seq<u8>)
    requires
        m.len() <= 0xffff,
    ensures
        spec_read_big_unsigned(
            prefix + spec_big_unsigned_bytes(m) + suffix,
            prefix.len() as int,
        ) == Ok::<(int, int), ReadError>((be_value(m) as int, 2 + m.len() as int)),
{
    let s = prefix + spec_big_unsigned_bytes(m) + suffix;
    let p = prefix.len() as int;
    let len = m.len() as u16;
    assert(s[p] == (len / 0x100) as u8);
    assert(s[p + 1] == (len % 0x100) as u8);
    assert(spec_read_u16(s, p) == m.len());
    assert(s.subrange(p + 2, p + 2 + m.len()) =~= m);
}

/// Decoding what was encoded gives back the signed value and the number of
/// bytes written, whatever precedes and follows the encoding.
pub proof fn lemma_big_signed_round_trip(
    prefix: Seq<u8>,
    negative: bool,
    m: Seq<u8>,
    suffix: Seq<u8>,
)
    requires
        m.len() <= 0xffff,
    ensures
        spec_read_big_signed(
            prefix + spec_big_signed_bytes(negative, m) + suffix,
            prefix.len() as int,
        ) == Ok::<(int, int), ReadError>(
            (
                if negative {
                    -(be_value(m) as int)
                } else {
                    be_value(m) as int
                },
                3 + m.len() as int,
            ),
        ),
{
    let sign = seq![if negative { 1u8 } else { 0u8 }];
    let s = prefix + spec_big_signed_bytes(negative, m) + suffix;
    let p = prefix.len() as int;
    assert(s =~= (prefix + sign) + spec_big_unsigned_bytes(m) + suffix);
    lemma_big_unsigned_round_trip(prefix + sign, m, suffix);
    assert(s[p] == sign[0]);
}

} // verus!

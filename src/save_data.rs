use vstd::prelude::*;

use crate::cursor::SaveCursor;
use crate::error::SaveError;

verus! {

/// The one decode/encode contract that every value of a save file has.
///
/// `parse` is the mathematical decoder: from the bytes that are left it gives
/// the value and how many bytes it takes, or the error. `wire` is what a value
/// is written as.
pub trait SaveData: Sized {
    /// What a value is, mathematically.
    type Model;

    spec fn model(&self) -> Self::Model;

    /// Decodes a value from the front of `b`: its model and the number of
    /// bytes it takes, or the error.
    spec fn parse(b: Seq<u8>) -> Result<(Self::Model, nat), SaveError>;

    /// The bytes that encode a value.
    spec fn wire(m: Self::Model) -> Seq<u8>;

    /// The values that can be encoded.
    spec fn well_formed(m: Self::Model) -> bool;

    /// Whether every accepted input is the encoding of what it decodes to.
    spec fn exact() -> bool;

    fn deserialize(input: &mut SaveCursor) -> (r: Result<Self, SaveError>)
        requires
            old(input).wf(),
        ensures
            final(input).wf(),
            final(input).data() == old(input).data(),
            old(input).pos() <= final(input).pos(),
            final(input).rest() == old(input).rest().skip(final(input).pos() - old(input).pos()),
            match r {
                Ok(v) => Self::parse(old(input).rest()) == Ok::<(Self::Model, nat), SaveError>(
                    (v.model(), (final(input).pos() - old(input).pos()) as nat),
                ),
                Err(e) => Self::parse(old(input).rest()) == Err::<(Self::Model, nat), SaveError>(e),
            },
    ;

    fn serialize(&self, out: &mut Vec<u8>)
        requires
            Self::well_formed(self.model()),
        ensures
            final(out)@ == old(out)@ + Self::wire(self.model()),
    ;

    /// A decoded value is well formed and takes no more than the input.
    proof fn lemma_parse_ok(b: Seq<u8>)
        ensures
            Self::parse(b) matches Ok((m, n)) ==> n <= b.len() && Self::well_formed(m),
    ;

    /// Decoding the encoding of a value gives the value back, whatever follows.
    proof fn lemma_parse_wire(m: Self::Model, tail: Seq<u8>)
        requires
            Self::well_formed(m),
        ensures
            Self::parse(Self::wire(m) + tail) == Ok::<(Self::Model, nat), SaveError>(
                (m, Self::wire(m).len()),
            ),
    ;

    /// For exact types, encoding what was decoded gives back the bytes taken.
    proof fn lemma_wire_of_parse(b: Seq<u8>)
        requires
            Self::exact(),
            Self::parse(b) is Ok,
        ensures
            Self::parse(b) matches Ok((m, n)) ==> Self::wire(m) == b.take(n as int),
    ;
}

/// An exec result agrees with a decoder's verdict, `n` being the bytes consumed.
pub open spec fn decoded<T>(r: Result<T, SaveError>, p: Result<(T, nat), SaveError>, n: nat) -> bool {
    match r {
        Ok(v) => p == Ok::<(T, nat), SaveError>((v, n)),
        Err(e) => p == Err::<(T, nat), SaveError>(e),
    }
}

/// The unsigned value of `b[0..4]`, little-endian.
pub open spec fn le_u32(b: Seq<u8>) -> u32 {
    (b[0] as int + 256 * b[1] as int + 65536 * b[2] as int + 16777216 * b[3] as int) as u32
}

/// The four little-endian bytes of `v`.
pub open spec fn u32_le_bytes(v: u32) -> Seq<u8> {
    seq![
        (v % 256) as u8,
        ((v / 256) % 256) as u8,
        ((v / 65536) % 256) as u8,
        (v / 16777216) as u8,
    ]
}

/// The unsigned value of `b[0..2]`, little-endian.
pub open spec fn le_u16(b: Seq<u8>) -> u16 {
    (b[0] as int + 256 * b[1] as int) as u16
}

/// The two little-endian bytes of `v`.
pub open spec fn u16_le_bytes(v: u16) -> Seq<u8> {
    seq![(v % 256) as u8, (v / 256) as u8]
}

pub proof fn lemma_u32_round_trip(v: u32)
    ensures
        le_u32(u32_le_bytes(v)) == v,
        u32_le_bytes(v).len() == 4,
{
    let b = u32_le_bytes(v);
    assert(b[0] as int == v % 256);
    assert(b[1] as int == (v / 256) % 256);
    assert(b[2] as int == (v / 65536) % 256);
    assert(b[3] as int == v / 16777216);
    assert(v as int == v % 256 + 256 * ((v / 256) % 256) + 65536 * ((v / 65536) % 256) + 16777216 * (
    v / 16777216)) by (nonlinear_arith);
}

pub proof fn lemma_u32_bytes_round_trip(b: Seq<u8>)
    requires
        b.len() == 4,
    ensures
        u32_le_bytes(le_u32(b)) == b,
{
    let v = le_u32(b);
    assert(v as int == b[0] as int + 256 * b[1] as int + 65536 * b[2] as int + 16777216 * b[3] as int);
    assert(v % 256 == b[0] as int) by (nonlinear_arith)
        requires
            v as int == b[0] as int + 256 * b[1] as int + 65536 * b[2] as int + 16777216 * b[3] as int,
            0 <= b[0] < 256,
    ;
    assert((v / 256) % 256 == b[1] as int) by (nonlinear_arith)
        requires
            v as int == b[0] as int + 256 * b[1] as int + 65536 * b[2] as int + 16777216 * b[3] as int,
            0 <= b[0] < 256,
            0 <= b[1] < 256,
    ;
    assert((v / 65536) % 256 == b[2] as int) by (nonlinear_arith)
        requires
            v as int == b[0] as int + 256 * b[1] as int + 65536 * b[2] as int + 16777216 * b[3] as int,
            0 <= b[0] < 256,
            0 <= b[1] < 256,
            0 <= b[2] < 256,
    ;
    assert(v / 16777216 == b[3] as int) by (nonlinear_arith)
        requires
            v as int == b[0] as int + 256 * b[1] as int + 65536 * b[2] as int + 16777216 * b[3] as int,
            0 <= b[0] < 256,
            0 <= b[1] < 256,
            0 <= b[2] < 256,
    ;
    assert(u32_le_bytes(v) =~= b);
}

/// Reads four bytes as a little-endian `u32`.
pub(crate) fn read_u32(input: &mut SaveCursor) -> (r: Result<u32, SaveError>)
    requires
        old(input).wf(),
    ensures
        final(input).wf(),
        final(input).data() == old(input).data(),
        final(input).rest() == old(input).rest().skip(final(input).pos() - old(input).pos()),
        old(input).rest().len() >= 4 ==> r == Ok::<u32, SaveError>(le_u32(old(input).rest()))
            && final(input).pos() == old(input).pos() + 4,
        old(input).rest().len() < 4 ==> r == Err::<u32, SaveError>(SaveError::UnexpectedEndOfFile)
            && final(input).pos() == old(input).pos(),
{
    let b = input.read(4)?;
    Ok(b[0] as u32 + 256 * b[1] as u32 + 65536 * b[2] as u32 + 16777216 * b[3] as u32)
}

/// Appends the four little-endian bytes of `v`.
pub(crate) fn write_u32(v: u32, out: &mut Vec<u8>)
    ensures
        final(out)@ == old(out)@ + u32_le_bytes(v),
{
    out.push((v % 256) as u8);
    out.push(((v / 256) % 256) as u8);
    out.push(((v / 65536) % 256) as u8);
    out.push((v / 16777216) as u8);
    assert(final(out)@ =~= old(out)@ + u32_le_bytes(v));
}

/// Reads two bytes as a little-endian `u16`.
fn read_u16(input: &mut SaveCursor) -> (r: Result<u16, SaveError>)
    requires
        old(input).wf(),
    ensures
        final(input).wf(),
        final(input).data() == old(input).data(),
        final(input).rest() == old(input).rest().skip(final(input).pos() - old(input).pos()),
        old(input).rest().len() >= 2 ==> r == Ok::<u16, SaveError>(le_u16(old(input).rest()))
            && final(input).pos() == old(input).pos() + 2,
        old(input).rest().len() < 2 ==> r == Err::<u16, SaveError>(SaveError::UnexpectedEndOfFile)
            && final(input).pos() == old(input).pos(),
{
    let b = input.read(2)?;
    Ok(b[0] as u16 + 256 * b[1] as u16)
}

/// Reads one byte.
pub(crate) fn read_u8(input: &mut SaveCursor) -> (r: Result<u8, SaveError>)
    requires
        old(input).wf(),
    ensures
        final(input).wf(),
        final(input).data() == old(input).data(),
        final(input).rest() == old(input).rest().skip(final(input).pos() - old(input).pos()),
        old(input).rest().len() >= 1 ==> r == Ok::<u8, SaveError>(old(input).rest()[0])
            && final(input).pos() == old(input).pos() + 1,
        old(input).rest().len() < 1 ==> r == Err::<u8, SaveError>(SaveError::UnexpectedEndOfFile)
            && final(input).pos() == old(input).pos(),
{
    let b = input.read(1)?;
    Ok(b[0])
}

/// Appends the two little-endian bytes of `v`.
pub(crate) fn write_u16(v: u16, out: &mut Vec<u8>)
    ensures
        final(out)@ == old(out)@ + u16_le_bytes(v),
{
    out.push((v % 256) as u8);
    out.push((v / 256) as u8);
    assert(final(out)@ =~= old(out)@ + u16_le_bytes(v));
}

pub proof fn lemma_u16_round_trip(v: u16)
    ensures
        le_u16(u16_le_bytes(v)) == v,
        u16_le_bytes(v).len() == 2,
{
}

pub proof fn lemma_u16_bytes_round_trip(b: Seq<u8>)
    requires
        b.len() == 2,
    ensures
        u16_le_bytes(le_u16(b)) == b,
{
    assert(u16_le_bytes(le_u16(b)) =~= b);
}

impl SaveData for u8 {
    type Model = u8;

    open spec fn model(&self) -> u8 {
        *self
    }

    open spec fn parse(b: Seq<u8>) -> Result<(u8, nat), SaveError> {
        if b.len() < 1 {
            Err(SaveError::UnexpectedEndOfFile)
        } else {
            Ok((b[0], 1))
        }
    }

    open spec fn wire(m: Self) -> Seq<u8> {
        seq![m]
    }

    open spec fn well_formed(m: Self) -> bool {
        true
    }

    open spec fn exact() -> bool {
        true
    }

    fn deserialize(input: &mut SaveCursor) -> (r: Result<u8, SaveError>) {
        read_u8(input)
    }

    fn serialize(&self, out: &mut Vec<u8>) {
        out.push(*self);
    }

    proof fn lemma_parse_ok(b: Seq<u8>) {
    }

    proof fn lemma_parse_wire(v: u8, tail: Seq<u8>) {
    }

    proof fn lemma_wire_of_parse(b: Seq<u8>) {
        assert(b.take(1) =~= seq![b[0]]);
    }
}

impl SaveData for i8 {
    type Model = i8;

    open spec fn model(&self) -> i8 {
        *self
    }

    open spec fn parse(b: Seq<u8>) -> Result<(i8, nat), SaveError> {
        if b.len() < 1 {
            Err(SaveError::UnexpectedEndOfFile)
        } else {
            Ok((b[0] as i8, 1))
        }
    }

    open spec fn wire(m: Self) -> Seq<u8> {
        seq![m as u8]
    }

    open spec fn well_formed(m: Self) -> bool {
        true
    }

    open spec fn exact() -> bool {
        true
    }

    fn deserialize(input: &mut SaveCursor) -> (r: Result<i8, SaveError>) {
        let b = read_u8(input)?;
        Ok(b as i8)
    }

    fn serialize(&self, out: &mut Vec<u8>) {
        out.push(*self as u8);
    }

    proof fn lemma_parse_ok(b: Seq<u8>) {
    }

    proof fn lemma_parse_wire(v: i8, tail: Seq<u8>) {
        assert((v as u8) as i8 == v) by (bit_vector);
    }

    proof fn lemma_wire_of_parse(b: Seq<u8>) {
        let x = b[0];
        assert((x as i8) as u8 == x) by (bit_vector);
        assert(b.take(1) =~= seq![b[0]]);
    }
}

impl SaveData for u16 {
    type Model = u16;

    open spec fn model(&self) -> u16 {
        *self
    }

    open spec fn parse(b: Seq<u8>) -> Result<(u16, nat), SaveError> {
        if b.len() < 2 {
            Err(SaveError::UnexpectedEndOfFile)
        } else {
            Ok((le_u16(b), 2))
        }
    }

    open spec fn wire(m: Self) -> Seq<u8> {
        u16_le_bytes(m)
    }

    open spec fn well_formed(m: Self) -> bool {
        true
    }

    open spec fn exact() -> bool {
        true
    }

    fn deserialize(input: &mut SaveCursor) -> (r: Result<u16, SaveError>) {
        read_u16(input)
    }

    fn serialize(&self, out: &mut Vec<u8>) {
        write_u16(*self, out);
    }

    proof fn lemma_parse_ok(b: Seq<u8>) {
    }

    proof fn lemma_parse_wire(v: u16, tail: Seq<u8>) {
        lemma_u16_round_trip(v);
        let b = u16_le_bytes(v) + tail;
        assert(b.take(2) =~= u16_le_bytes(v));
        assert(le_u16(b) == le_u16(b.take(2)));
    }

    proof fn lemma_wire_of_parse(b: Seq<u8>) {
        lemma_u16_bytes_round_trip(b.take(2));
        assert(le_u16(b) == le_u16(b.take(2)));
    }
}

impl SaveData for i16 {
    type Model = i16;

    open spec fn model(&self) -> i16 {
        *self
    }

    open spec fn parse(b: Seq<u8>) -> Result<(i16, nat), SaveError> {
        if b.len() < 2 {
            Err(SaveError::UnexpectedEndOfFile)
        } else {
            Ok((le_u16(b) as i16, 2))
        }
    }

    open spec fn wire(m: Self) -> Seq<u8> {
        u16_le_bytes(m as u16)
    }

    open spec fn well_formed(m: Self) -> bool {
        true
    }

    open spec fn exact() -> bool {
        true
    }

    fn deserialize(input: &mut SaveCursor) -> (r: Result<i16, SaveError>) {
        let v = read_u16(input)?;
        Ok(v as i16)
    }

    fn serialize(&self, out: &mut Vec<u8>) {
        write_u16(*self as u16, out);
    }

    proof fn lemma_parse_ok(b: Seq<u8>) {
    }

    proof fn lemma_parse_wire(v: i16, tail: Seq<u8>) {
        lemma_u16_round_trip(v as u16);
        assert((v as u16) as i16 == v) by (bit_vector);
        let b = u16_le_bytes(v as u16) + tail;
        assert(b.take(2) =~= u16_le_bytes(v as u16));
        assert(le_u16(b) == le_u16(b.take(2)));
    }

    proof fn lemma_wire_of_parse(b: Seq<u8>) {
        lemma_u16_bytes_round_trip(b.take(2));
        assert(le_u16(b) == le_u16(b.take(2)));
        let x = le_u16(b);
        assert((x as i16) as u16 == x) by (bit_vector);
    }
}

impl SaveData for u32 {
    type Model = u32;

    open spec fn model(&self) -> u32 {
        *self
    }

    open spec fn parse(b: Seq<u8>) -> Result<(u32, nat), SaveError> {
        if b.len() < 4 {
            Err(SaveError::UnexpectedEndOfFile)
        } else {
            Ok((le_u32(b), 4))
        }
    }

    open spec fn wire(m: Self) -> Seq<u8> {
        u32_le_bytes(m)
    }

    open spec fn well_formed(m: Self) -> bool {
        true
    }

    open spec fn exact() -> bool {
        true
    }

    fn deserialize(input: &mut SaveCursor) -> (r: Result<u32, SaveError>) {
        read_u32(input)
    }

    fn serialize(&self, out: &mut Vec<u8>) {
        write_u32(*self, out);
    }

    proof fn lemma_parse_ok(b: Seq<u8>) {
    }

    proof fn lemma_parse_wire(v: u32, tail: Seq<u8>) {
        lemma_u32_round_trip(v);
        let b = u32_le_bytes(v) + tail;
        assert(b.take(4) =~= u32_le_bytes(v));
        assert(le_u32(b) == le_u32(b.take(4)));
    }

    proof fn lemma_wire_of_parse(b: Seq<u8>) {
        lemma_u32_bytes_round_trip(b.take(4));
        assert(le_u32(b) == le_u32(b.take(4)));
    }
}

impl SaveData for i32 {
    type Model = i32;

    open spec fn model(&self) -> i32 {
        *self
    }

    open spec fn parse(b: Seq<u8>) -> Result<(i32, nat), SaveError> {
        if b.len() < 4 {
            Err(SaveError::UnexpectedEndOfFile)
        } else {
            Ok((le_u32(b) as i32, 4))
        }
    }

    open spec fn wire(m: Self) -> Seq<u8> {
        u32_le_bytes(m as u32)
    }

    open spec fn well_formed(m: Self) -> bool {
        true
    }

    open spec fn exact() -> bool {
        true
    }

    fn deserialize(input: &mut SaveCursor) -> (r: Result<i32, SaveError>) {
        let v = read_u32(input)?;
        Ok(v as i32)
    }

    fn serialize(&self, out: &mut Vec<u8>) {
        write_u32(*self as u32, out);
    }

    proof fn lemma_parse_ok(b: Seq<u8>) {
    }

    proof fn lemma_parse_wire(v: i32, tail: Seq<u8>) {
        lemma_u32_round_trip(v as u32);
        assert((v as u32) as i32 == v) by (bit_vector);
        let b = u32_le_bytes(v as u32) + tail;
        assert(b.take(4) =~= u32_le_bytes(v as u32));
        assert(le_u32(b) == le_u32(b.take(4)));
    }

    proof fn lemma_wire_of_parse(b: Seq<u8>) {
        lemma_u32_bytes_round_trip(b.take(4));
        assert(le_u32(b) == le_u32(b.take(4)));
        let x = le_u32(b);
        assert((x as i32) as u32 == x) by (bit_vector);
    }
}

/// A boolean is a whole 4-byte word: zero is `false`, anything else `true`.
/// It is written back as `0` or `1`, so other non-zero words do not survive.
impl SaveData for bool {
    type Model = bool;

    open spec fn model(&self) -> bool {
        *self
    }

    open spec fn parse(b: Seq<u8>) -> Result<(bool, nat), SaveError> {
        if b.len() < 4 {
            Err(SaveError::UnexpectedEndOfFile)
        } else {
            Ok((le_u32(b) != 0, 4))
        }
    }

    open spec fn wire(m: Self) -> Seq<u8> {
        if m {
            u32_le_bytes(1)
        } else {
            u32_le_bytes(0)
        }
    }

    open spec fn well_formed(m: Self) -> bool {
        true
    }

    open spec fn exact() -> bool {
        false
    }

    fn deserialize(input: &mut SaveCursor) -> (r: Result<bool, SaveError>) {
        deserialize_from_bool(input)
    }

    fn serialize(&self, out: &mut Vec<u8>) {
        if *self {
            write_u32(1, out);
        } else {
            write_u32(0, out);
        }
    }

    proof fn lemma_parse_ok(b: Seq<u8>) {
    }

    proof fn lemma_parse_wire(v: bool, tail: Seq<u8>) {
        let x: u32 = if v { 1 } else { 0 };
        lemma_u32_round_trip(x);
        let b = u32_le_bytes(x) + tail;
        assert(b.take(4) =~= u32_le_bytes(x));
        assert(le_u32(b) == le_u32(b.take(4)));
    }

    proof fn lemma_wire_of_parse(b: Seq<u8>) {
    }
}

/// Decodes a boolean from a 4-byte word: `true` when it is not zero.
pub fn deserialize_from_bool(input: &mut SaveCursor) -> (r: Result<bool, SaveError>)
    requires
        old(input).wf(),
    ensures
        final(input).wf(),
        final(input).data() == old(input).data(),
        old(input).pos() <= final(input).pos(),
        final(input).rest() == old(input).rest().skip(final(input).pos() - old(input).pos()),
        decoded(r, bool::parse(old(input).rest()), (final(input).pos() - old(input).pos()) as nat),
        old(input).rest().len() >= 4 ==> final(input).pos() == old(input).pos() + 4,
        r is Err ==> final(input).pos() == old(input).pos(),
{
    let v = read_u32(input)?;
    Ok(v != 0)
}

/// A 32-bit float, held as its IEEE-754 bit pattern.
#[derive(Clone, Copy, Debug, PartialEq, Eq, Structural)]
pub struct Float32 {
    pub bits: u32,
}

impl SaveData for Float32 {
    type Model = Float32;

    open spec fn model(&self) -> Float32 {
        *self
    }

    open spec fn parse(b: Seq<u8>) -> Result<(Float32, nat), SaveError> {
        if b.len() < 4 {
            Err(SaveError::UnexpectedEndOfFile)
        } else {
            Ok((Float32 { bits: le_u32(b) }, 4))
        }
    }

    open spec fn wire(m: Self) -> Seq<u8> {
        u32_le_bytes(m.bits)
    }

    open spec fn well_formed(m: Self) -> bool {
        true
    }

    open spec fn exact() -> bool {
        true
    }

    fn deserialize(input: &mut SaveCursor) -> (r: Result<Float32, SaveError>) {
        let bits = read_u32(input)?;
        Ok(Float32 { bits })
    }

    fn serialize(&self, out: &mut Vec<u8>) {
        write_u32(self.bits, out);
    }

    proof fn lemma_parse_ok(b: Seq<u8>) {
    }

    proof fn lemma_parse_wire(v: Float32, tail: Seq<u8>) {
        u32::lemma_parse_wire(v.bits, tail);
    }

    proof fn lemma_wire_of_parse(b: Seq<u8>) {
        u32::lemma_wire_of_parse(b);
    }
}

/// The decoder of an 8-bit enum field whose variants have the values in `variants`.
pub open spec fn parse_enum_u8(b: Seq<u8>, variants: Seq<u8>) -> Result<(u8, nat), SaveError> {
    if b.len() < 1 {
        Err(SaveError::UnexpectedEndOfFile)
    } else if variants.contains(b[0]) {
        Ok((b[0], 1))
    } else {
        Err(SaveError::InvalidEnumValue)
    }
}

/// The decoder of a 32-bit enum field whose variants have the values in `variants`.
pub open spec fn parse_enum_u32(b: Seq<u8>, variants: Seq<u32>) -> Result<(u32, nat), SaveError> {
    if b.len() < 4 {
        Err(SaveError::UnexpectedEndOfFile)
    } else if variants.contains(le_u32(b)) {
        Ok((le_u32(b), 4))
    } else {
        Err(SaveError::InvalidEnumValue)
    }
}

fn contains_u8(variants: &[u8], v: u8) -> (r: bool)
    ensures
        r == variants@.contains(v),
{
    let mut i: usize = 0;
    while i < variants.len()
        invariant
            i <= variants@.len(),
            forall|j: int| 0 <= j < i ==> variants@[j] != v,
        decreases variants@.len() - i,
    {
        if variants[i] == v {
            return true;
        }
        i = i + 1;
    }
    false
}

fn contains_u32(variants: &[u32], v: u32) -> (r: bool)
    ensures
        r == variants@.contains(v),
{
    let mut i: usize = 0;
    while i < variants.len()
        invariant
            i <= variants@.len(),
            forall|j: int| 0 <= j < i ==> variants@[j] != v,
        decreases variants@.len() - i,
    {
        if variants[i] == v {
            return true;
        }
        i = i + 1;
    }
    false
}

/// Decodes a one-byte enum value, which must be one of `variants`; there is
/// no fallback for an unknown value.
pub fn deserialize_enum_from_u8(input: &mut SaveCursor, variants: &[u8]) -> (r: Result<u8, SaveError>)
    requires
        old(input).wf(),
    ensures
        final(input).wf(),
        final(input).data() == old(input).data(),
        old(input).pos() <= final(input).pos(),
        final(input).rest() == old(input).rest().skip(final(input).pos() - old(input).pos()),
        decoded(r, parse_enum_u8(old(input).rest(), variants@), (final(input).pos() - old(input).pos()) as nat),
        old(input).rest().len() >= 1 ==> final(input).pos() == old(input).pos() + 1,
        old(input).rest().len() < 1 ==> final(input).pos() == old(input).pos(),
{
    let v = read_u8(input)?;
    if contains_u8(variants, v) {
        Ok(v)
    } else {
        Err(SaveError::InvalidEnumValue)
    }
}

/// Decodes a four-byte enum value, which must be one of `variants`; there is
/// no fallback for an unknown value.
pub fn deserialize_enum_from_u32(input: &mut SaveCursor, variants: &[u32]) -> (r: Result<u32, SaveError>)
    requires
        old(input).wf(),
    ensures
        final(input).wf(),
        final(input).data() == old(input).data(),
        old(input).pos() <= final(input).pos(),
        final(input).rest() == old(input).rest().skip(final(input).pos() - old(input).pos()),
        decoded(r, parse_enum_u32(old(input).rest(), variants@), (final(input).pos() - old(input).pos()) as nat),
        old(input).rest().len() >= 4 ==> final(input).pos() == old(input).pos() + 4,
        old(input).rest().len() < 4 ==> final(input).pos() == old(input).pos(),
{
    let v = read_u32(input)?;
    if contains_u32(variants, v) {
        Ok(v)
    } else {
        Err(SaveError::InvalidEnumValue)
    }
}

} // verus!

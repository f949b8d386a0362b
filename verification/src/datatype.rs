//! The scalar data types a register can hold, their width in 16-bit words,
//! and the decoding of a big-endian word sequence into a numeric value.
//!
//! Floating-point registers decode to their IEEE-754 bit patterns; turning a
//! pattern into an `f32`/`f64` is a reinterpretation that callers outside the
//! verified core perform.

use vstd::prelude::*;

use crate::strutil::str_eq;

verus! {

/// The scalar type of one register, named as in a configuration file.
#[derive(Copy, Clone, Debug, PartialEq, Eq, Structural)]
pub enum DataType {
    U16,
    U32,
    I16,
    I32,
    F32,
    F64,
}

/// A decoded register value: an integer, or the bit pattern of an IEEE-754
/// float.  The reinterpretation of a pattern as a float happens outside the
/// verified core.
#[derive(Copy, Clone, Debug, PartialEq, Eq, Structural)]
pub enum DecodedValue {
    Unsigned(u64),
    Signed(i64),
    F32Bits(u32),
    F64Bits(u64),
}

/// The big-endian value of the first `n` words: word 0 is most significant.
pub open spec fn word_be(words: Seq<u16>, n: nat) -> nat
    decreases n,
{
    if n == 0 {
        0
    } else {
        (word_be(words, (n - 1) as nat) * 0x10000 + words[n - 1]) as nat
    }
}

/// The value of a 16-bit two's-complement pattern.
pub open spec fn signed16(v: nat) -> int {
    if v < 0x8000 {
        v as int
    } else {
        v - 0x10000
    }
}

/// The value of a 32-bit two's-complement pattern.
pub open spec fn signed32(v: nat) -> int {
    if v < 0x8000_0000 {
        v as int
    } else {
        v - 0x1_0000_0000
    }
}

/// What decoding a word sequence as `dt` yields, when the sequence holds at
/// least `dt.num_registers()` words.
pub open spec fn spec_parse_data(dt: DataType, words: Seq<u16>) -> DecodedValue {
    match dt {
        DataType::U16 => DecodedValue::Unsigned(words[0] as u64),
        DataType::U32 => DecodedValue::Unsigned(word_be(words, 2) as u64),
        DataType::I16 => DecodedValue::Signed(signed16(words[0] as nat) as i64),
        DataType::I32 => DecodedValue::Signed(signed32(word_be(words, 2)) as i64),
        DataType::F32 => DecodedValue::F32Bits(word_be(words, 2) as u32),
        DataType::F64 => DecodedValue::F64Bits(word_be(words, 4) as u64),
    }
}

/// Which type, if any, a textual tag names.
pub open spec fn spec_from_str(s: Seq<char>) -> Result<DataType, ()> {
    if s == "u16"@ {
        Ok(DataType::U16)
    } else if s == "u32"@ {
        Ok(DataType::U32)
    } else if s == "i16"@ {
        Ok(DataType::I16)
    } else if s == "i32"@ {
        Ok(DataType::I32)
    } else if s == "f32"@ {
        Ok(DataType::F32)
    } else if s == "f64"@ {
        Ok(DataType::F64)
    } else {
        Err(())
    }
}

impl DataType {
    /// Parses a textual type tag; any unknown tag is rejected.
    pub fn from_str(s: &str) -> (r: Result<DataType, ()>)
        ensures
            r == spec_from_str(s@),
    {
        if str_eq(s, "u16") {
            Ok(DataType::U16)
        } else if str_eq(s, "u32") {
            Ok(DataType::U32)
        } else if str_eq(s, "i16") {
            Ok(DataType::I16)
        } else if str_eq(s, "i32") {
            Ok(DataType::I32)
        } else if str_eq(s, "f32") {
            Ok(DataType::F32)
        } else if str_eq(s, "f64") {
            Ok(DataType::F64)
        } else {
            Err(())
        }
    }

    /// The width of this type in 16-bit words.
    pub open spec fn spec_num_registers(self) -> u16 {
        match self {
            DataType::U16 | DataType::I16 => 1,
            DataType::U32 | DataType::I32 | DataType::F32 => 2,
            DataType::F64 => 4,
        }
    }

    /// The width of this type in 16-bit words.
    #[verifier::when_used_as_spec(spec_num_registers)]
    pub fn num_registers(self) -> (n: u16)
        ensures
            n == self.spec_num_registers(),
    {
        match self {
            Self::U16 | Self::I16 => 1,
            Self::U32 | Self::I32 | Self::F32 => 2,
            Self::F64 => 4,
        }
    }

    /// Decodes the head of `data` as this type: words compose most
    /// significant first, signed types sign-extend, and float types yield
    /// their IEEE-754 bit patterns.  Words beyond the type's width are
    /// ignored.
    pub fn parse_data(self, data: &[u16]) -> (v: DecodedValue)
        requires
            data@.len() >= self.spec_num_registers(),
        ensures
            v == spec_parse_data(self, data@),
    {
        proof {
            reveal_with_fuel(word_be, 5);
        }
        match self {
            Self::U16 => DecodedValue::Unsigned(data[0] as u64),
            Self::U32 => DecodedValue::Unsigned(compose2(data[0], data[1]) as u64),
            Self::I16 => {
                let w: u32 = data[0] as u32;
                if w >= 0x8000 {
                    DecodedValue::Signed(w as i64 - 0x10000)
                } else {
                    DecodedValue::Signed(w as i64)
                }
            },
            Self::I32 => {
                let w: u32 = compose2(data[0], data[1]);
                if w >= 0x8000_0000 {
                    DecodedValue::Signed(w as i64 - 0x1_0000_0000)
                } else {
                    DecodedValue::Signed(w as i64)
                }
            },
            Self::F32 => DecodedValue::F32Bits(compose2(data[0], data[1])),
            Self::F64 => {
                let hi: u64 = compose2(data[0], data[1]) as u64;
                let lo: u64 = compose2(data[2], data[3]) as u64;
                DecodedValue::F64Bits(compose4(hi, lo))
            },
        }
    }
}

/// Two 16-bit words joined most significant first.
fn compose2(w0: u16, w1: u16) -> (v: u32)
    ensures
        v == w0 * 0x10000 + w1,
{
    proof {
        assert((w0 as u32) << 16 | (w1 as u32) == w0 as u32 * 0x10000 + w1 as u32)
            by (bit_vector);
    }
    (w0 as u32) << 16 | (w1 as u32)
}

/// The two 32-bit halves of a 64-bit pattern, joined most significant first.
fn compose4(hi: u64, lo: u64) -> (v: u64)
    requires
        hi < 0x1_0000_0000,
        lo < 0x1_0000_0000,
    ensures
        v == hi * 0x1_0000_0000 + lo,
{
    proof {
        assert(hi << 32 | lo == hi * 0x1_0000_0000 + lo) by (bit_vector)
            requires
                hi < 0x1_0000_0000,
                lo < 0x1_0000_0000,
        ;
    }
    hi << 32 | lo
}

} // verus!

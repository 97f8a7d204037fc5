//! The "lclppb" model properties, the stream parameters and the stream header.
use crate::bytes::{
    le_bytes, le_value, lemma_le_bytes_len, lemma_le_round_trip, pow256, read_u32_at, read_u64_at,
    u32_le, u64_le,
};
use vstd::prelude::*;

verus! {

/// The value that stands in the header's size field for "unknown size".
pub const UNKNOWN_SIZE: u64 = 0xFFFF_FFFF_FFFF_FFFF;

/// The smallest dictionary size a header can declare; smaller values are raised.
pub const MIN_DICT_SIZE: u32 = 0x1000;

/// What went wrong while reading a header or decoding a stream.
#[derive(Debug, Clone, Copy, PartialEq, Eq, Structural)]
pub enum LzmaError {
    /// The input ended before the header's fixed-size fields were read.
    HeaderTooShort,
    /// The properties byte is 225 or more, or `lc`/`lp`/`pb` are out of bounds.
    InvalidProperties,
    /// The coded data is inconsistent, or ended before the stream did.
    Corrupted,
}

/// LZMA "lclppb" properties.
#[derive(Debug, Clone, Copy, PartialEq, Eq, Structural)]
pub struct LzmaProperties {
    /// The number of high bits of the previous byte in the literal context (at most 8).
    pub lc: u32,
    /// The number of low position bits in the literal context (at most 4).
    pub lp: u32,
    /// The number of low position bits in the match/literal context (at most 4).
    pub pb: u32,
}

impl LzmaProperties {
    pub open spec fn valid(&self) -> bool {
        self.lc <= 8 && self.lp <= 4 && self.pb <= 4
    }

    /// The header byte that carries these properties.
    pub open spec fn byte(&self) -> nat {
        (self.lc + 9 * (self.lp + 5 * self.pb)) as nat
    }

    /// The properties that a header byte below 225 carries.
    pub open spec fn of_byte(b: nat) -> LzmaProperties {
        LzmaProperties { lc: (b % 9) as u32, lp: (b / 9 % 5) as u32, pb: (b / 45) as u32 }
    }

    /// Asserts the bounds `lc <= 8`, `lp <= 4` and `pb <= 4`: properties out
    /// of bounds are a fatal error, so callers must not pass them.
    pub fn validate(&self)
        requires
            self.valid(),
    {
        assert(self.lc <= 8 && self.lp <= 4 && self.pb <= 4);
    }

    /// Checks the bounds `lc <= 8`, `lp <= 4` and `pb <= 4`, refusing
    /// properties out of bounds with a typed error.
    pub fn check(&self) -> (r: Result<(), LzmaError>)
        ensures
            r is Ok <==> self.valid(),
            r is Err ==> r == Err::<(), LzmaError>(LzmaError::InvalidProperties),
    {
        if self.lc <= 8 && self.lp <= 4 && self.pb <= 4 {
            Ok(())
        } else {
            Err(LzmaError::InvalidProperties)
        }
    }
}

/// How a reader of a header learns the unpacked size.
#[derive(Debug, Clone, Copy, PartialEq, Eq, Structural)]
pub enum ReadUnpackedSize {
    /// Read the 8-byte field; the all-ones value means "unknown".
    ReadFromHeader,
    /// Read the 8-byte field but use the given value.
    ReadHeaderButUseProvided(Option<u64>),
    /// The header has no size field; use the given value.
    UseProvided(Option<u64>),
}

/// Options for reading a stream.
#[derive(Debug, Clone, Copy, PartialEq, Eq, Structural)]
pub struct DecompressOptions {
    pub unpacked_size: ReadUnpackedSize,
}

/// LZMA stream parameters.
#[derive(Debug, Clone, Copy, PartialEq, Eq, Structural)]
pub struct LzmaParams {
    pub properties: LzmaProperties,
    pub dict_size: u32,
    /// `None` when the stream ends with an end-of-stream marker instead.
    pub unpacked_size: Option<u64>,
}

/// How many header bytes a reader consumes under the given policy.
pub open spec fn header_len(size: ReadUnpackedSize) -> nat {
    match size {
        ReadUnpackedSize::UseProvided(_) => 5,
        _ => 13,
    }
}

/// The unpacked size that a header's 8-byte field declares.
pub open spec fn size_of_field(v: nat) -> Option<u64> {
    if v == UNKNOWN_SIZE {
        None
    } else {
        Some(v as u64)
    }
}

/// What reading a header from the start of `input` yields.
pub open spec fn parse_header(input: Seq<u8>, size: ReadUnpackedSize) -> Result<LzmaParams, LzmaError> {
    if input.len() < 1 {
        Err(LzmaError::HeaderTooShort)
    } else if input[0] >= 225 {
        Err(LzmaError::InvalidProperties)
    } else if input.len() < header_len(size) {
        Err(LzmaError::HeaderTooShort)
    } else {
        let raw = le_value(input.subrange(1, 5));
        let properties = LzmaProperties::of_byte(input[0] as nat);
        let dict_size = if raw < MIN_DICT_SIZE {
            MIN_DICT_SIZE
        } else {
            raw as u32
        };
        let unpacked_size = match size {
            ReadUnpackedSize::ReadFromHeader => size_of_field(le_value(input.subrange(5, 13))),
            ReadUnpackedSize::ReadHeaderButUseProvided(x) => x,
            ReadUnpackedSize::UseProvided(x) => x,
        };
        Ok(LzmaParams { properties, dict_size, unpacked_size })
    }
}

/// The header bytes written for `p`; an absent size is written as all ones.
pub open spec fn header_bytes(p: LzmaParams) -> Seq<u8> {
    let size = match p.unpacked_size {
        Some(s) => s,
        None => UNKNOWN_SIZE,
    };
    seq![p.properties.byte() as u8] + le_bytes(p.dict_size as nat, 4) + le_bytes(size as nat, 8)
}

/// Appends `b` to `out`.
pub(crate) fn append(out: &mut Vec<u8>, b: &[u8])
    ensures
        final(out)@ == old(out)@ + b@,
{
    let mut i: usize = 0;
    while i < b.len()
        invariant
            i <= b@.len(),
            out@ == old(out)@ + b@.subrange(0, i as int),
        decreases b@.len() - i,
    {
        out.push(b[i]);
        i = i + 1;
        assert(b@.subrange(0, i as int) =~= b@.subrange(0, i - 1) + seq![b@[i - 1]]);
    }
    assert(b@.subrange(0, i as int) =~= b@);
}

impl LzmaParams {
    /// Parameters from explicit values.
    pub fn new(properties: LzmaProperties, dict_size: u32, unpacked_size: Option<u64>) -> (r: LzmaParams)
        ensures
            r == (LzmaParams { properties, dict_size, unpacked_size }),
    {
        LzmaParams { properties, dict_size, unpacked_size }
    }

    /// Appends the 13-byte header: the properties byte, the dictionary size and
    /// the unpacked size (all ones when it is absent), both little-endian.
    /// Properties out of bounds are refused and nothing is written.
    pub fn write_header(&self, stream: &mut Vec<u8>) -> (r: Result<(), LzmaError>)
        ensures
            r is Ok <==> self.properties.valid(),
            r is Ok ==> final(stream)@ == old(stream)@ + header_bytes(*self),
            r is Err ==> r == Err::<(), LzmaError>(LzmaError::InvalidProperties) && final(stream)@
                == old(stream)@,
    {
        let properties = self.properties;
        if properties.check().is_err() {
            return Err(LzmaError::InvalidProperties);
        }
        let props = (properties.lc + 9 * (properties.lp + 5 * properties.pb)) as u8;
        let size = match self.unpacked_size {
            Some(s) => s,
            None => UNKNOWN_SIZE,
        };
        let ghost start = stream@;
        stream.push(props);
        let d = u32_le(self.dict_size);
        append(stream, &d);
        let s = u64_le(size);
        append(stream, &s);
        assert(stream@ =~= start + header_bytes(*self));
        Ok(())
    }

    /// Reads a header from the start of `input`; `header_len` gives how many
    /// bytes it takes.
    pub fn read_header(input: &[u8], options: &DecompressOptions) -> (r: Result<LzmaParams, LzmaError>)
        ensures
            r == parse_header(input@, options.unpacked_size),
    {
        if input.len() < 1 {
            return Err(LzmaError::HeaderTooShort);
        }
        let props: u32 = input[0] as u32;
        if props >= 225 {
            return Err(LzmaError::InvalidProperties);
        }
        let need: usize = match options.unpacked_size {
            ReadUnpackedSize::UseProvided(_) => 5,
            _ => 13,
        };
        if input.len() < need {
            return Err(LzmaError::HeaderTooShort);
        }
        let lc: u32 = props % 9;
        let lp: u32 = props / 9 % 5;
        let pb: u32 = props / 45;
        let provided = read_u32_at(input, 1);
        let dict_size = if provided < MIN_DICT_SIZE {
            MIN_DICT_SIZE
        } else {
            provided
        };
        let unpacked_size = match options.unpacked_size {
            ReadUnpackedSize::ReadFromHeader => {
                let v = read_u64_at(input, 5);
                if v == UNKNOWN_SIZE {
                    None
                } else {
                    Some(v)
                }
            },
            ReadUnpackedSize::ReadHeaderButUseProvided(x) => x,
            ReadUnpackedSize::UseProvided(x) => x,
        };
        Ok(LzmaParams { properties: LzmaProperties { lc, lp, pb }, dict_size, unpacked_size })
    }
}

/// How many header bytes `read_header` consumes under the given policy.
pub fn header_size(options: &DecompressOptions) -> (r: usize)
    ensures
        r == header_len(options.unpacked_size),
{
    match options.unpacked_size {
        ReadUnpackedSize::UseProvided(_) => 5,
        _ => 13,
    }
}

/// Writing a header for valid parameters and reading it back with the size
/// taken from the header gives the parameters again, except that a dictionary
/// size below 4096 comes back as 4096 and an all-ones size comes back absent.
pub proof fn lemma_header_round_trip(p: LzmaParams)
    requires
        p.properties.valid(),
    ensures
        parse_header(header_bytes(p), ReadUnpackedSize::ReadFromHeader) == Ok::<LzmaParams, LzmaError>(
            LzmaParams {
                properties: p.properties,
                dict_size: if p.dict_size < MIN_DICT_SIZE {
                    MIN_DICT_SIZE
                } else {
                    p.dict_size
                },
                unpacked_size: if p.unpacked_size == Some(UNKNOWN_SIZE) {
                    None
                } else {
                    p.unpacked_size
                },
            },
        ),
{
    let h = header_bytes(p);
    let size: u64 = match p.unpacked_size {
        Some(s) => s,
        None => UNKNOWN_SIZE,
    };
    lemma_le_bytes_len(p.dict_size as nat, 4);
    lemma_le_bytes_len(size as nat, 8);
    reveal_with_fuel(pow256, 9);
    assert(pow256(4) == 0x1_0000_0000);
    assert(pow256(8) == 0x1_0000_0000_0000_0000);
    lemma_le_round_trip(p.dict_size as nat, 4);
    lemma_le_round_trip(size as nat, 8);
    assert(h.subrange(1, 5) =~= le_bytes(p.dict_size as nat, 4));
    assert(h.subrange(5, 13) =~= le_bytes(size as nat, 8));
    let pr = p.properties;
    let b = pr.byte();
    assert(b < 225 && b % 9 == pr.lc && b / 9 % 5 == pr.lp && b / 45 == pr.pb) by (nonlinear_arith)
        requires
            b == pr.lc + 9 * (pr.lp + 5 * pr.pb),
            pr.lc <= 8,
            pr.lp <= 4,
            pr.pb <= 4,
    ;
    assert(h[0] as nat == b);
    assert(LzmaProperties::of_byte(b) == pr);
}

/// Every first byte from 225 on is refused as invalid properties, whatever follows.
pub proof fn lemma_invalid_properties_byte(input: Seq<u8>, size: ReadUnpackedSize)
    requires
        input.len() >= 1,
        input[0] >= 225,
    ensures
        parse_header(input, size) == Err::<LzmaParams, LzmaError>(LzmaError::InvalidProperties),
{
}

} // verus!

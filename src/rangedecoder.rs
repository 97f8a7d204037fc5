//! The binary range decoder, the mirror of the range encoder.
use crate::bytes::pow256;
use crate::lzma::LzmaError;
use crate::rangecoder::{adapt, prob_ok};
use vstd::prelude::*;

verus! {

/// A range decoder reading from position `pos` of its input.
pub struct RangeDecoder {
    pub pos: usize,
    pub range: u32,
    pub code: u32,
}

/// The decoder state between bits, over an input of `n` bytes.
pub open spec fn rd_wf(d: RangeDecoder, n: nat) -> bool {
    d.pos <= n && d.range >= 0x100_0000
}

/// `b` is strictly further on than `a`: it read more input, or narrowed the
/// interval without reading.
pub open spec fn moved(a: RangeDecoder, b: RangeDecoder) -> bool {
    b.pos > a.pos || (b.pos == a.pos && b.range < a.range)
}

/// The state after renormalising: while the width is below 2^24 it grows by
/// a byte and the next input byte enters the code register. `None` when the
/// input runs out first.
pub open spec fn rd_normalized(d: RangeDecoder, input: Seq<u8>) -> Option<RangeDecoder>
    decreases input.len() - d.pos,
{
    if d.range == 0 || d.range >= 0x100_0000 {
        Some(d)
    } else if d.pos >= input.len() || d.pos >= usize::MAX {
        None
    } else {
        rd_normalized(
            RangeDecoder {
                pos: (d.pos + 1) as usize,
                range: (d.range * 256) as u32,
                code: ((d.code % 0x100_0000) * 256 + input[d.pos as int]) as u32,
            },
            input,
        )
    }
}

/// The bit a cell holding `p` decodes to: set when the code lies at or above
/// the split point.
pub open spec fn rd_bit(d: RangeDecoder, p: u16) -> bool {
    d.code >= (d.range / 2048) * p
}

/// The state after deciding a bit against a cell holding `p`, before renormalising.
pub open spec fn rd_split(d: RangeDecoder, p: u16) -> RangeDecoder {
    let bound = (d.range / 2048) * p;
    if rd_bit(d, p) {
        RangeDecoder { code: (d.code - bound) as u32, range: (d.range - bound) as u32, ..d }
    } else {
        RangeDecoder { range: bound as u32, ..d }
    }
}

/// The state after an even-odds bit, before renormalising.
pub open spec fn rd_halve(d: RangeDecoder) -> RangeDecoder {
    let half = d.range / 2;
    if d.code >= half {
        RangeDecoder { code: (d.code - half) as u32, range: half as u32, ..d }
    } else {
        RangeDecoder { range: half as u32, ..d }
    }
}

/// The code register after reading `k` bytes from `at`, most significant first.
pub open spec fn be_code(input: Seq<u8>, at: int, k: nat) -> nat
    decreases k,
{
    if k == 0 {
        0
    } else {
        be_code(input, at, (k - 1) as nat) * 256 + input[at + k - 1] as nat
    }
}

impl RangeDecoder {
    /// Starts decoding at `pos`: one byte that the encoder always writes as
    /// zero, then the first four code bytes, most significant first.
    pub fn new(input: &[u8], pos: usize) -> (r: Result<RangeDecoder, LzmaError>)
        ensures
            r is Ok <==> pos + 5 <= input@.len(),
            r is Ok ==> rd_wf(r->Ok_0, input@.len()) && r->Ok_0.pos == pos + 5 && r->Ok_0.range
                == 0xFFFF_FFFF && r->Ok_0.code == be_code(input@, pos + 1, 4),
            r is Err ==> r == Err::<RangeDecoder, LzmaError>(LzmaError::Corrupted),
    {
        if pos >= input.len() || input.len() - pos < 5 {
            return Err(LzmaError::Corrupted);
        }
        let mut code: u32 = 0;
        let end: usize = pos + 5;
        let mut i: usize = pos + 1;
        while i < end
            invariant
                end == pos + 5,
                end <= input@.len(),
                pos + 1 <= i <= end,
                code == be_code(input@, pos + 1, (i - pos - 1) as nat),
                be_code(input@, pos + 1, (i - pos - 1) as nat) < pow256((i - pos - 1) as nat),
            decreases end - i,
        {
            let ghost k = (i - pos - 1) as nat;
            proof {
                reveal_with_fuel(pow256, 5);
                let c = be_code(input@, pos + 1, k);
                assert(c < 0x100_0000);
                assert(c * 256 + input@[i as int] < 256 * pow256(k)) by (nonlinear_arith)
                    requires
                        c < pow256(k),
                        input@[i as int] < 256,
                ;
                assert(be_code(input@, pos + 1, k + 1) == c * 256 + input@[pos + 1 + k]);
            }
            code = (code % 0x100_0000) * 256 + input[i] as u32;
            i = i + 1;
        }
        Ok(RangeDecoder { pos: end, range: 0xFFFF_FFFF, code })
    }

    /// Widens the interval by a byte of input while it is below 2^24; input
    /// that runs out first is a corruption error.
    fn normalize(&mut self, input: &[u8]) -> (r: Result<(), LzmaError>)
        requires
            old(self).pos <= input@.len(),
            old(self).range >= 1,
        ensures
            r is Ok <==> rd_normalized(*old(self), input@) is Some,
            r is Ok ==> *final(self) == rd_normalized(*old(self), input@)->Some_0,
            r is Ok ==> rd_wf(*final(self), input@.len()),
            r is Ok ==> final(self).pos > old(self).pos || *final(self) == *old(self),
            r is Err ==> r == Err::<(), LzmaError>(LzmaError::Corrupted),
    {
        while self.range < 0x100_0000
            invariant
                self.pos <= input@.len(),
                self.range >= 1,
                self.pos > old(self).pos || *self == *old(self),
                rd_normalized(*self, input@) == rd_normalized(*old(self), input@),
            decreases input@.len() - self.pos,
        {
            if self.pos >= input.len() {
                return Err(LzmaError::Corrupted);
            }
            self.code = (self.code % 0x100_0000) * 256 + input[self.pos] as u32;
            self.range = self.range * 256;
            self.pos = self.pos + 1;
        }
        Ok(())
    }

    /// Decodes one bit against the cell `prob` and adapts the cell as the
    /// encoder did.
    pub fn decode_bit(&mut self, input: &[u8], prob: &mut u16) -> (r: Result<bool, LzmaError>)
        requires
            rd_wf(*old(self), input@.len()),
            prob_ok(*old(prob)),
        ensures
            r is Ok ==> rd_wf(*final(self), input@.len()) && moved(*old(self), *final(self)),
            r is Ok <==> rd_normalized(rd_split(*old(self), *old(prob)), input@) is Some,
            r is Ok ==> r->Ok_0 == rd_bit(*old(self), *old(prob)),
            r is Ok ==> *final(self) == rd_normalized(rd_split(*old(self), *old(prob)), input@)->Some_0,
            r is Ok ==> *final(prob) == adapt(*old(prob), r->Ok_0),
            prob_ok(*final(prob)),
            r is Err ==> r == Err::<bool, LzmaError>(LzmaError::Corrupted),
    {
        let p = *prob;
        let range = self.range;
        assert((range / 2048) * (p as nat) <= range * 2047 / 2048 && range * 2047 / 2048 < 0x1_0000_0000) by (
        nonlinear_arith)
            requires
                p <= 2047,
                range < 0x1_0000_0000,
        ;
        let bound: u32 = (range / 2048) * (p as u32);
        assert(bound >= 1 && range - bound >= 1) by (nonlinear_arith)
            requires
                1 <= p <= 2047,
                range >= 0x100_0000,
                bound == (range / 2048) * p,
        ;
        let bit = if self.code < bound {
            *prob = p + (2048 - p) / 32;
            self.range = bound;
            false
        } else {
            *prob = p - p / 32;
            self.code = self.code - bound;
            self.range = range - bound;
            true
        };
        match self.normalize(input) {
            Ok(()) => Ok(bit),
            Err(e) => Err(e),
        }
    }

    /// Decodes one bit of even odds, without a probability cell.
    pub fn decode_direct(&mut self, input: &[u8]) -> (r: Result<bool, LzmaError>)
        requires
            rd_wf(*old(self), input@.len()),
        ensures
            r is Ok <==> rd_normalized(rd_halve(*old(self)), input@) is Some,
            r is Ok ==> r->Ok_0 == (old(self).code >= old(self).range / 2),
            r is Ok ==> *final(self) == rd_normalized(rd_halve(*old(self)), input@)->Some_0,
            r is Ok ==> rd_wf(*final(self), input@.len()) && moved(*old(self), *final(self)),
            r is Err ==> r == Err::<bool, LzmaError>(LzmaError::Corrupted),
    {
        self.range = self.range / 2;
        let bit = self.code >= self.range;
        if bit {
            self.code = self.code - self.range;
        }
        match self.normalize(input) {
            Ok(()) => Ok(bit),
            Err(e) => Err(e),
        }
    }

    /// Whether the code register is zero, as it is where an encoder finished.
    pub fn is_finished_ok(&self) -> (r: bool)
        ensures
            r == (self.code == 0),
    {
        self.code == 0
    }
}

} // verus!

//! The adaptive binary range encoder.
use vstd::prelude::*;

verus! {

/// The initial value of a probability cell: one half, out of 2048.
pub const PROB_INIT: u16 = 0x400;

/// A probability cell value the coder can use: strictly between 0 and 2048.
pub open spec fn prob_ok(p: u16) -> bool {
    1 <= p && p <= 2047
}

/// A cell after coding `bit` against it: it moves a 32nd of the way toward
/// 2048 on a zero bit, toward 0 on a one bit.
pub open spec fn adapt(p: u16, bit: bool) -> u16 {
    if bit {
        (p - p / 32) as u16
    } else {
        (p + (2048 - p) / 32) as u16
    }
}

/// The bytes that resolve `n` pending bytes once the carry is known: the held
/// byte plus the carry, then `n - 1` bytes of 0xFF plus the carry, modulo 256.
pub open spec fn carry_bytes(cache: u8, carry: nat, n: nat) -> Seq<u8> {
    seq![((cache + carry) % 256) as u8] + Seq::new((n - 1) as nat, |i: int| ((0xFF + carry) % 256) as u8)
}

/// The encoder's state: the low end of the interval, its width, the byte held
/// back for a carry, the number of pending bytes (the held byte and the 0xFF
/// bytes after it) and the bytes written so far.
pub struct RcModel {
    pub low: u64,
    pub range: u32,
    pub cache: u8,
    pub cache_size: u64,
    pub out: Seq<u8>,
}

/// How many byte shifts renormalisation still takes for a width of at least 256.
pub open spec fn shifts_needed(range: u32) -> nat {
    if range >= 0x100_0000 {
        0
    } else if range >= 0x1_0000 {
        1
    } else {
        2
    }
}

impl RcModel {
    pub open spec fn initial(out: Seq<u8>) -> RcModel {
        RcModel { low: 0, range: 0xFFFF_FFFF, cache: 0, cache_size: 1, out }
    }

    /// The state between coded bits.
    pub open spec fn wf(self) -> bool {
        self.low + self.range < 0x2_0000_0000 && self.range >= 0x100_0000 && self.cache_size >= 1
    }

    /// Moves the top byte of `low` out: it is written, with the pending bytes
    /// before it, unless a later carry may still change it.
    pub open spec fn shift_low(self) -> RcModel {
        let low = ((self.low % 0x100_0000) * 256) as u64;
        if self.low < 0xFF00_0000 || self.low >= 0x1_0000_0000 {
            RcModel {
                low,
                cache: (self.low / 0x100_0000 % 256) as u8,
                cache_size: 1,
                out: self.out + carry_bytes(self.cache, (self.low / 0x1_0000_0000) as nat, self.cache_size as nat),
                ..self
            }
        } else {
            RcModel { low, cache_size: (self.cache_size + 1) as u64, ..self }
        }
    }

    /// Widens the interval by a byte and shifts that byte out of `low`.
    pub open spec fn step(self) -> RcModel {
        RcModel { range: (self.range * 256) as u32, ..self }.shift_low()
    }

    /// Steps until the width is at least 2^24 again (from a width of at least 256).
    pub open spec fn normalize(self) -> RcModel {
        if self.range >= 0x100_0000 {
            self
        } else if self.range >= 0x1_0000 {
            self.step()
        } else {
            self.step().step()
        }
    }

    /// The state after coding `bit` against a cell holding `p`.
    pub open spec fn encode_bit(self, p: u16, bit: bool) -> RcModel {
        let bound = (self.range / 2048) * p;
        if bit {
            RcModel { low: (self.low + bound) as u64, range: (self.range - bound) as u32, ..self }.normalize()
        } else {
            RcModel { range: bound as u32, ..self }.normalize()
        }
    }

    /// The state after the five shifts that write out everything pending.
    pub open spec fn flush(self) -> RcModel {
        self.shift_low().shift_low().shift_low().shift_low().shift_low()
    }
}

/// A range encoder writing to a byte buffer it owns.
pub struct RangeEncoder {
    stream: Vec<u8>,
    range: u32,
    low: u64,
    cache: u8,
    cache_size: u64,
}

impl RangeEncoder {
    pub closed spec fn view(&self) -> RcModel {
        RcModel {
            low: self.low,
            range: self.range,
            cache: self.cache,
            cache_size: self.cache_size,
            out: self.stream@,
        }
    }

    /// An encoder whose output starts with `prefix`.
    pub fn new(prefix: Vec<u8>) -> (r: RangeEncoder)
        ensures
            r@ == RcModel::initial(prefix@),
            r@.wf(),
    {
        RangeEncoder { stream: prefix, range: 0xFFFF_FFFF, low: 0, cache: 0, cache_size: 1 }
    }

    /// The bytes written so far.
    pub fn into_output(self) -> (r: Vec<u8>)
        ensures
            r@ == self@.out,
    {
        self.stream
    }

    fn shift_low(&mut self)
        requires
            old(self)@.cache_size >= 1,
            old(self)@.cache_size < u64::MAX,
            old(self)@.low < 0x2_0000_0000,
        ensures
            final(self)@ == old(self)@.shift_low(),
            final(self)@.low < 0x1_0000_0000,
            1 <= final(self)@.cache_size <= old(self)@.cache_size + 1,
    {
        let low = self.low;
        if low < 0xFF00_0000 || low >= 0x1_0000_0000 {
            let carry: u8 = (low / 0x1_0000_0000) as u8;
            let ghost start = self.stream@;
            let ghost ff = ((0xFF + carry) % 256) as u8;
            let first: u8 = ((self.cache as u16 + carry as u16) % 256) as u8;
            self.stream.push(first);
            let mut k: u64 = 1;
            while k < self.cache_size
                invariant
                    1 <= k <= self.cache_size,
                    self.cache_size == old(self).cache_size,
                    self.cache == old(self).cache,
                    self.low == low,
                    self.range == old(self).range,
                    carry <= 1,
                    ff == ((0xFF + carry) % 256) as u8,
                    self.stream@ == start + seq![first] + Seq::new((k - 1) as nat, |i: int| ff),
                decreases self.cache_size - k,
            {
                let byte: u8 = ((0xFF + carry as u16) % 256) as u8;
                self.stream.push(byte);
                assert(byte == ff);
                assert(Seq::new(k as nat, |i: int| ff) =~= Seq::new((k - 1) as nat, |i: int| ff).push(ff));
                assert(self.stream@ =~= start + seq![first] + Seq::new(k as nat, |i: int| ff));
                k = k + 1;
            }
            assert(low / 0x1_0000_0000 == carry as nat);
            assert(self.stream@ =~= start + carry_bytes(self.cache, carry as nat, self.cache_size as nat));
            self.cache = (low / 0x100_0000 % 256) as u8;
            self.cache_size = 1;
        } else {
            self.cache_size = self.cache_size + 1;
        }
        self.low = (low % 0x100_0000) * 256;
    }

    /// Codes `bit` against the cell `prob` and adapts the cell.
    pub fn encode_bit(&mut self, prob: &mut u16, bit: bool)
        requires
            old(self)@.wf(),
            prob_ok(*old(prob)),
            old(self)@.cache_size + 2 <= u64::MAX,
        ensures
            final(self)@ == old(self)@.encode_bit(*old(prob), bit),
            *final(prob) == adapt(*old(prob), bit),
            final(self)@.wf(),
            prob_ok(*final(prob)),
            final(self)@.cache_size <= old(self)@.cache_size + 2,
    {
        let p: u16 = *prob;
        let range = self.range;
        assert((range / 2048) * (p as nat) <= range * 2047 / 2048 && range * 2047 / 2048 < 0x1_0000_0000) by (
        nonlinear_arith)
            requires
                p <= 2047,
                range < 0x1_0000_0000,
        ;
        let bound: u32 = (range / 2048) * (p as u32);
        assert(bound >= 0x2000 && range - bound >= 0x2000) by (nonlinear_arith)
            requires
                1 <= p <= 2047,
                range >= 0x100_0000,
                bound == (range / 2048) * p,
        ;
        if bit {
            *prob = p - p / 32;
            self.low = self.low + bound as u64;
            self.range = range - bound;
        } else {
            *prob = p + (2048 - p) / 32;
            self.range = bound;
        }
        let ghost mid = self@;
        let ghost limit = old(self)@.cache_size + 2;
        while self.range < 0x100_0000
            invariant
                self@.normalize() == mid.normalize(),
                self.range >= 0x100,
                self.cache_size >= 1,
                self.low + self.range < 0x2_0000_0000,
                self.cache_size + shifts_needed(self.range) <= limit,
                limit <= u64::MAX,
            decreases shifts_needed(self.range),
        {
            let ghost before = self@;
            self.range = self.range * 256;
            self.shift_low();
            assert(self@ == before.step());
            assert(self.range == before.range * 256);
            assert(before.range * 256 > before.range) by (nonlinear_arith)
                requires
                    before.range >= 0x100,
            ;
        }
    }

    /// Writes out the pending bytes and the rest of `low`, so that a decoder
    /// recovers every coded bit.
    pub fn finish(&mut self)
        requires
            old(self)@.wf(),
            old(self)@.cache_size + 5 <= u64::MAX,
        ensures
            final(self)@ == old(self)@.flush(),
    {
        self.shift_low();
        self.shift_low();
        self.shift_low();
        self.shift_low();
        self.shift_low();
    }
}

} // verus!

//! A literal-only LZMA encoder: every byte is coded as a literal, and a
//! stream of unknown size ends with the end-of-stream marker.
use crate::bytes::{lemma_le_bytes_len, u32_le};
use crate::lzma::{append, header_bytes, LzmaParams, LzmaProperties};
use crate::rangecoder::{adapt, prob_ok, RangeEncoder, RcModel, PROB_INIT};
use vstd::prelude::*;

verus! {

pub const LC: u32 = 3;
pub const LP: u32 = 0;
pub const PB: u32 = 2;
pub const DICT_SIZE: u32 = 0x0080_0000;

/// The number of literal probability cells: 8 trees of 0x300 cells.
pub const LITERAL_CELLS: usize = 0x1800;

/// The longest input `process` takes; the count of bytes held back for a
/// carry is 64 bits wide.
pub const MAX_INPUT: u64 = 0x0800_0000_0000_0000;

/// How an encoder records the unpacked size.
#[derive(Debug, Clone, Copy, PartialEq, Eq, Structural)]
pub enum WriteUnpackedSize {
    /// Write the 8-byte size field; with `None` it holds all ones and the
    /// stream ends with an end-of-stream marker.
    WriteToHeader(Option<u64>),
    /// Leave the size field out of the header.
    SkipWritingToHeader,
}

/// Options for writing a stream.
#[derive(Debug, Clone, Copy, PartialEq, Eq, Structural)]
pub struct CompressOptions {
    pub unpacked_size: WriteUnpackedSize,
}

/// The parameters every stream of this encoder declares.
pub open spec fn encoder_params(size: Option<u64>) -> LzmaParams {
    LzmaParams { properties: LzmaProperties { lc: LC, lp: LP, pb: PB }, dict_size: DICT_SIZE, unpacked_size: size }
}

/// The header this encoder writes under `size`.
pub open spec fn encoder_header(size: WriteUnpackedSize) -> Seq<u8> {
    match size {
        WriteUnpackedSize::WriteToHeader(x) => header_bytes(encoder_params(x)),
        WriteUnpackedSize::SkipWritingToHeader => header_bytes(encoder_params(None)).take(5),
    }
}

/// The coder state together with the probability cells.
pub struct EncModel {
    pub rc: RcModel,
    pub literal_probs: Seq<u16>,
    pub is_match: Seq<u16>,
}

pub open spec fn probs_ok(s: Seq<u16>) -> bool {
    forall|i: int| 0 <= i < s.len() ==> prob_ok(#[trigger] s[i])
}

impl EncModel {
    pub open spec fn initial(out: Seq<u8>) -> EncModel {
        EncModel {
            rc: RcModel::initial(out),
            literal_probs: Seq::new(LITERAL_CELLS as nat, |i: int| PROB_INIT),
            is_match: Seq::new(4, |i: int| PROB_INIT),
        }
    }

    pub open spec fn fresh(self) -> bool {
        self == EncModel::initial(self.rc.out)
    }

    pub open spec fn ok(self) -> bool {
        self.rc.wf() && self.literal_probs.len() == LITERAL_CELLS && self.is_match.len() == 4 && probs_ok(
            self.literal_probs,
        ) && probs_ok(self.is_match)
    }
}

/// Bit `i` of `byte`, counting from the most significant.
pub open spec fn bit_of(byte: u8, i: nat) -> bool {
    (byte >> ((7 - i) as u8)) & 1u8 == 1u8
}

/// The literal tree node at which bit `i` of `byte` is coded: the root is 1,
/// and each coded bit moves to child `2 * node + bit`.
pub open spec fn node(byte: u8, i: nat) -> nat
    decreases i,
{
    if i == 0 {
        1
    } else {
        2 * node(byte, (i - 1) as nat) + if bit_of(byte, (i - 1) as nat) {
            1nat
        } else {
            0nat
        }
    }
}

pub open spec fn two_to(i: nat) -> nat
    decreases i,
{
    if i == 0 {
        1
    } else {
        2 * two_to((i - 1) as nat)
    }
}

pub proof fn lemma_node_bound(byte: u8, i: nat)
    ensures
        1 <= node(byte, i) < two_to(i + 1),
    decreases i,
{
    assert(two_to(i + 1) == 2 * two_to(i));
    if i > 0 {
        lemma_node_bound(byte, (i - 1) as nat);
    } else {
        assert(two_to(1) == 2 * two_to(0));
    }
}

pub proof fn lemma_node_in_tree(byte: u8, i: nat)
    requires
        i < 8,
    ensures
        1 <= node(byte, i) < 256,
    decreases 8 - i,
{
    lemma_node_bound(byte, i);
    if i == 7 {
        reveal_with_fuel(two_to, 9);
    } else {
        lemma_node_in_tree(byte, i + 1);
    }
}

/// Coding `m` bits and then `n` more of the same kind is coding `m + n` of them.
pub proof fn lemma_fixed_bits_add(rc: RcModel, bit: bool, m: nat, n: nat)
    ensures
        fixed_bits(fixed_bits(rc, bit, m), bit, n) == fixed_bits(rc, bit, m + n),
    decreases n,
{
    if n > 0 {
        lemma_fixed_bits_add(rc, bit, m, (n - 1) as nat);
    }
}

/// The state after coding `bit` against cell `i` of `probs`.
pub open spec fn code_cell(rc: RcModel, probs: Seq<u16>, i: int, bit: bool) -> (RcModel, Seq<u16>) {
    (rc.encode_bit(probs[i], bit), probs.update(i, adapt(probs[i], bit)))
}

/// The state after coding the first `i` bits of `byte`, high to low, down the
/// literal tree whose cells start at `base`.
pub open spec fn literal_bits(rc: RcModel, probs: Seq<u16>, base: int, byte: u8, i: nat) -> (RcModel, Seq<u16>)
    decreases i,
{
    if i == 0 {
        (rc, probs)
    } else {
        let prev = literal_bits(rc, probs, base, byte, (i - 1) as nat);
        code_cell(prev.0, prev.1, base + node(byte, (i - 1) as nat), bit_of(byte, (i - 1) as nat))
    }
}

/// The first cell of the literal tree chosen by the previous byte's top three bits.
pub open spec fn tree_base(prev: u8) -> int {
    (prev / 32) as int * 0x300
}

/// The state after coding `byte` as a literal at position `pos`: a zero
/// match flag in the cell of `pos % 4`, then the byte down its literal tree.
pub open spec fn literal(m: EncModel, pos: nat, prev: u8, byte: u8) -> EncModel {
    let s = (pos % 4) as int;
    let flagged = code_cell(m.rc, m.is_match, s, false);
    let coded = literal_bits(flagged.0, m.literal_probs, tree_base(prev), byte, 8);
    EncModel { rc: coded.0, literal_probs: coded.1, is_match: flagged.1 }
}

/// The byte before position `n`, 0 at the start.
pub open spec fn byte_before(input: Seq<u8>, n: nat) -> u8 {
    if n == 0 {
        0
    } else {
        input[n - 1]
    }
}

/// The state after coding every byte of `input` as a literal.
pub open spec fn literals(m: EncModel, input: Seq<u8>) -> EncModel
    decreases input.len(),
{
    if input.len() == 0 {
        m
    } else {
        let n = (input.len() - 1) as nat;
        literal(literals(m, input.take(n as int)), n, byte_before(input, n), input[n as int])
    }
}

/// The state after `finish`: the end marker when the size is unknown.
pub open spec fn ended(m: EncModel, len: nat, size: WriteUnpackedSize) -> EncModel {
    if size == WriteUnpackedSize::WriteToHeader(None) {
        end_marker(m, len)
    } else {
        m
    }
}

/// `n` bits equal to `bit`, each against a fresh cell of one half.
pub open spec fn fixed_bits(rc: RcModel, bit: bool, n: nat) -> RcModel
    decreases n,
{
    if n == 0 {
        rc
    } else {
        fixed_bits(rc, bit, (n - 1) as nat).encode_bit(PROB_INIT, bit)
    }
}

/// The end-of-stream marker at position `pos`: a set match flag; a zero
/// "new distance" bit and four zero length bits; then six set bits for
/// distance slot 63 and its thirty direct bits, together distance 0xFFFF_FFFF.
pub open spec fn end_marker(m: EncModel, pos: nat) -> EncModel {
    let s = (pos % 4) as int;
    let flagged = code_cell(m.rc, m.is_match, s, true);
    EncModel { rc: fixed_bits(fixed_bits(flagged.0, false, 5), true, 36), is_match: flagged.1, ..m }
}

/// The bytes written for `input` by an encoder whose output so far is
/// `prefix`: the literals, the end marker when the size is unknown, and the
/// final flush.
pub open spec fn encoded(prefix: Seq<u8>, input: Seq<u8>, size: WriteUnpackedSize) -> Seq<u8> {
    ended(literals(EncModel::initial(prefix), input), input.len(), size).rc.flush().out
}

/// With the size unknown, the bytes written are the literals followed by the
/// end-of-stream marker and the flush; with the size known or left out, the
/// literals and the flush alone. The marker is one adaptive match flag, then
/// five zero and thirty-six set decisions against cells of one half.
pub proof fn lemma_end_marker_exactness(prefix: Seq<u8>, input: Seq<u8>, size: WriteUnpackedSize)
    ensures
        size == WriteUnpackedSize::WriteToHeader(None) ==> encoded(prefix, input, size) == ({
            let m = literals(EncModel::initial(prefix), input);
            let s = (input.len() % 4) as int;
            fixed_bits(
                fixed_bits(m.rc.encode_bit(m.is_match[s], true), false, 5),
                true,
                36,
            ).flush().out
        }),
        size != WriteUnpackedSize::WriteToHeader(None) ==> encoded(prefix, input, size) == literals(
            EncModel::initial(prefix),
            input,
        ).rc.flush().out,
{
}

/// Codes `n` bits equal to `bit`, each against a fresh cell of one half.
fn encode_fixed(rc: &mut RangeEncoder, bit: bool, n: u32)
    requires
        old(rc)@.wf(),
        old(rc)@.cache_size + 2 * n <= u64::MAX,
    ensures
        final(rc)@ == fixed_bits(old(rc)@, bit, n as nat),
        final(rc)@.wf(),
        final(rc)@.cache_size <= old(rc)@.cache_size + 2 * n,
{
    let mut k: u32 = 0;
    while k < n
        invariant
            k <= n,
            rc@ == fixed_bits(old(rc)@, bit, k as nat),
            rc@.wf(),
            rc@.cache_size <= old(rc)@.cache_size + 2 * k,
            old(rc)@.cache_size + 2 * n <= u64::MAX,
        decreases n - k,
    {
        let mut p: u16 = PROB_INIT;
        rc.encode_bit(&mut p, bit);
        k = k + 1;
    }
}

/// A raw LZMA encoder that writes into a buffer it owns.
pub struct Encoder {
    rangecoder: RangeEncoder,
    literal_probs: Vec<u16>,
    is_match: Vec<u16>,
    unpacked_size: WriteUnpackedSize,
}

impl Encoder {
    pub closed spec fn view(&self) -> EncModel {
        EncModel { rc: self.rangecoder@, literal_probs: self.literal_probs@, is_match: self.is_match@ }
    }

    /// The size policy the encoder was made with.
    pub closed spec fn policy(&self) -> WriteUnpackedSize {
        self.unpacked_size
    }

    /// An encoder whose output starts with `prefix`.
    fn with_prefix(prefix: Vec<u8>, options: &CompressOptions) -> (r: Encoder)
        ensures
            r@ == EncModel::initial(prefix@),
            r.policy() == options.unpacked_size,
    {
        let literal_probs = vec![PROB_INIT; LITERAL_CELLS];
        let is_match = vec![PROB_INIT; 4];
        let r = Encoder {
            rangecoder: RangeEncoder::new(prefix),
            literal_probs,
            is_match,
            unpacked_size: options.unpacked_size,
        };
        assert(r@.literal_probs =~= EncModel::initial(prefix@).literal_probs);
        assert(r@.is_match =~= EncModel::initial(prefix@).is_match);
        r
    }

    pub open spec fn fresh(&self) -> bool {
        self@.fresh()
    }

    /// Codes a flag against match cell `s`.
    fn encode_match_flag(&mut self, s: usize, bit: bool)
        requires
            old(self)@.ok(),
            s < 4,
            old(self)@.rc.cache_size + 2 <= u64::MAX,
        ensures
            (final(self)@.rc, final(self)@.is_match) == code_cell(old(self)@.rc, old(self)@.is_match, s as int, bit),
            final(self)@.literal_probs == old(self)@.literal_probs,
            final(self)@.ok(),
            final(self)@.rc.cache_size <= old(self)@.rc.cache_size + 2,
            final(self).policy() == old(self).policy(),
    {
        let mut p = self.is_match[s];
        self.rangecoder.encode_bit(&mut p, bit);
        self.is_match.set(s, p);
        assert(probs_ok(self.is_match@));
    }

    /// Codes `byte` down the literal tree chosen by `prev_byte`.
    fn encode_literal(&mut self, byte: u8, prev_byte: u8)
        requires
            old(self)@.ok(),
            old(self)@.rc.cache_size + 16 <= u64::MAX,
        ensures
            (final(self)@.rc, final(self)@.literal_probs) == literal_bits(
                old(self)@.rc,
                old(self)@.literal_probs,
                tree_base(prev_byte),
                byte,
                8,
            ),
            final(self)@.is_match == old(self)@.is_match,
            final(self)@.ok(),
            final(self)@.rc.cache_size <= old(self)@.rc.cache_size + 16,
            final(self).policy() == old(self).policy(),
    {
        let lit_state: usize = (prev_byte / 32) as usize;
        let base: usize = lit_state * 0x300;
        let mut result: usize = 1;
        let mut i: u8 = 0;
        while i < 8
            invariant
                i <= 8,
                base == tree_base(prev_byte),
                base + 0x300 <= LITERAL_CELLS,
                result == node(byte, i as nat),
                (self@.rc, self@.literal_probs) == literal_bits(
                    old(self)@.rc,
                    old(self)@.literal_probs,
                    base as int,
                    byte,
                    i as nat,
                ),
                self@.is_match == old(self)@.is_match,
                self@.ok(),
                self@.rc.cache_size <= old(self)@.rc.cache_size + 2 * i,
                old(self)@.rc.cache_size + 16 <= u64::MAX,
                self.policy() == old(self).policy(),
            decreases 8 - i,
        {
            let bit = (byte >> (7 - i)) & 1 == 1;
            proof {
                lemma_node_in_tree(byte, i as nat);
            }
            let idx = base + result;
            let mut p = self.literal_probs[idx];
            self.rangecoder.encode_bit(&mut p, bit);
            self.literal_probs.set(idx, p);
            assert(probs_ok(self.literal_probs@));
            result = 2 * result + if bit {
                1
            } else {
                0
            };
            i = i + 1;
        }
    }

    /// Writes the end-of-stream marker when the size is unknown, then flushes
    /// the range coder.
    fn finish(&mut self, input_len: usize)
        requires
            old(self)@.ok(),
            old(self)@.rc.cache_size + 100 <= u64::MAX,
        ensures
            final(self)@.rc == ended(old(self)@, input_len as nat, old(self).policy()).rc.flush(),
            final(self)@.literal_probs == old(self)@.literal_probs,
            final(self)@.is_match == ended(old(self)@, input_len as nat, old(self).policy()).is_match,
    {
        match self.unpacked_size {
            WriteUnpackedSize::WriteToHeader(None) => {
                let ghost start = self@;
                // the match flag
                self.encode_match_flag(input_len % 4, true);
                let ghost flagged = self@.rc;
                // "new distance", then a length of the smallest class
                encode_fixed(&mut self.rangecoder, false, 1);
                encode_fixed(&mut self.rangecoder, false, 4);
                // distance slot 63, then its 30 direct bits: 0xFFFF_FFFF
                let ghost zeros = self@.rc;
                encode_fixed(&mut self.rangecoder, true, 6);
                encode_fixed(&mut self.rangecoder, true, 30);
                proof {
                    lemma_fixed_bits_add(flagged, false, 1, 4);
                    lemma_fixed_bits_add(zeros, true, 6, 30);
                }
                assert(self@.rc == end_marker(start, input_len as nat).rc);
            },
            _ => {},
        }
        self.rangecoder.finish();
    }

    /// A raw encoder: no header is written.
    pub fn new(options: &CompressOptions) -> (r: Encoder)
        ensures
            r@ == EncModel::initial(Seq::empty()),
            r.policy() == options.unpacked_size,
    {
        Encoder::with_prefix(Vec::new(), options)
    }

    /// An encoder whose output starts with the header: properties lc=3, lp=0,
    /// pb=2, a dictionary of 8 MiB and, unless the policy leaves it out, the
    /// unpacked size (all ones when unknown).
    pub fn from_stream(options: &CompressOptions) -> (r: Encoder)
        ensures
            r@ == EncModel::initial(encoder_header(options.unpacked_size)),
            r.policy() == options.unpacked_size,
    {
        let mut out: Vec<u8> = Vec::new();
        let properties = LzmaProperties { lc: LC, lp: LP, pb: PB };
        match options.unpacked_size {
            WriteUnpackedSize::WriteToHeader(size) => {
                let params = LzmaParams::new(properties, DICT_SIZE, size);
                let written = params.write_header(&mut out);
                assert(written is Ok);
                assert(out@ =~= encoder_header(options.unpacked_size));
            },
            WriteUnpackedSize::SkipWritingToHeader => {
                let props: u8 = (LC + 9 * (LP + 5 * PB)) as u8;
                out.push(props);
                let d = u32_le(DICT_SIZE);
                append(&mut out, &d);
                proof {
                    lemma_le_bytes_len(DICT_SIZE as nat, 4);
                }
                assert(out@ =~= encoder_header(options.unpacked_size));
            },
        }
        Encoder::with_prefix(out, options)
    }

    /// Codes every byte of `input` as a literal, then finishes the stream,
    /// and returns everything written, header included.
    pub fn process(self, input: &[u8]) -> (r: Vec<u8>)
        requires
            self.fresh(),
            input@.len() <= MAX_INPUT,
        ensures
            r@ == encoded(self@.rc.out, input@, self.policy()),
    {
        let mut enc = self;
        let ghost start = enc@;
        let ghost policy = enc.policy();
        let mut prev_byte: u8 = 0;
        let mut i: usize = 0;
        assert(input@.take(0) =~= Seq::<u8>::empty());
        while i < input.len()
            invariant
                i <= input@.len(),
                input@.len() <= MAX_INPUT,
                start == EncModel::initial(start.rc.out),
                enc@ == literals(start, input@.take(i as int)),
                enc@.ok(),
                enc@.rc.cache_size <= 1 + 18 * i,
                prev_byte == byte_before(input@, i as nat),
                enc.policy() == policy,
            decreases input@.len() - i,
        {
            let byte = input[i];
            let pos_state = i % 4;
            enc.encode_match_flag(pos_state, false);
            enc.encode_literal(byte, prev_byte);
            prev_byte = byte;
            i = i + 1;
            assert(input@.take(i as int).take(i - 1) =~= input@.take(i - 1));
        }
        assert(input@.take(i as int) =~= input@);
        enc.finish(input.len());
        enc.rangecoder.into_output()
    }
}

} // verus!

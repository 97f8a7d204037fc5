//! The LZMA decoder: literals, matches and repeated matches, decoded through
//! the range decoder into a growing output that doubles as the dictionary.
use crate::encoder::{probs_ok, two_to};
use crate::lzma::{
    header_len, header_size, parse_header, DecompressOptions, LzmaError, LzmaParams,
};
use crate::rangecoder::{adapt, PROB_INIT};
use crate::rangedecoder::{be_code, moved, rd_bit, rd_halve, rd_normalized, rd_split, rd_wf, RangeDecoder};
use crate::window::{byte_back, copied, copy_match, last_byte, reachable};
use vstd::prelude::*;

verus! {

// Where each group of probability cells starts in the decoder's one table.
pub const IS_MATCH: usize = 0;
pub const IS_REP: usize = 192;
pub const IS_REP_G0: usize = 204;
pub const IS_REP_G1: usize = 216;
pub const IS_REP_G2: usize = 228;
pub const IS_REP_0LONG: usize = 240;
pub const POS_SLOT: usize = 432;
pub const SPEC_POS: usize = 688;
pub const ALIGN: usize = 803;
pub const LEN_CODER: usize = 819;
pub const REP_LEN_CODER: usize = 1333;
pub const LITERAL: usize = 1847;

/// The longest match, in bytes.
pub const MAX_MATCH: usize = 273;

/// The distance that marks the end of the stream.
pub const END_DISTANCE: u64 = 0xFFFF_FFFF;

pub proof fn lemma_two_to_mono(a: nat, b: nat)
    requires
        a <= b,
    ensures
        two_to(a) <= two_to(b),
    decreases b,
{
    if a < b {
        lemma_two_to_mono(a, (b - 1) as nat);
    }
}

pub proof fn lemma_two_to_add(a: nat, b: nat)
    ensures
        two_to(a + b) == two_to(a) * two_to(b),
    decreases b,
{
    if b > 0 {
        lemma_two_to_add(a, (b - 1) as nat);
        assert(two_to(a + b) == 2 * two_to((a + b - 1) as nat));
        assert(two_to(b) == 2 * two_to((b - 1) as nat));
        assert(two_to(a) * (2 * two_to((b - 1) as nat)) == 2 * (two_to(a) * two_to((b - 1) as nat))) by (
        nonlinear_arith);
    } else {
        assert(two_to(0) == 1);
        assert(a + b == a);
    }
}

pub proof fn lemma_two_to_32()
    ensures
        two_to(30) == 0x4000_0000,
        two_to(32) == 0x1_0000_0000,
{
    reveal_with_fuel(two_to, 33);
}


/// The cells of the reverse bit trees for distance slots 4 to 13 lie within
/// their 115-cell group.
pub proof fn lemma_spec_pos_bound(slot: nat)
    requires
        4 <= slot < 14,
    ensures
        1 <= (slot / 2 - 1) <= 5,
        (2 + slot % 2) * two_to((slot / 2 - 1) as nat) >= slot,
        (2 + slot % 2) * two_to((slot / 2 - 1) as nat) - slot + two_to((slot / 2 - 1) as nat) <= 115,
{
    let ndb = (slot / 2 - 1) as nat;
    let t = two_to(ndb);
    reveal_with_fuel(two_to, 6);
    if ndb < 5 {
        lemma_two_to_mono(ndb, 4);
    }
    assert(t >= ndb + 1) by {
        if ndb == 1 {
        } else if ndb == 2 {
        } else if ndb == 3 {
        } else if ndb == 4 {
        } else {
            assert(ndb == 5);
        }
    }
    assert((2 + slot % 2) * t >= slot && (2 + slot % 2) * t - slot + t <= 115) by (nonlinear_arith)
        requires
            slot == 2 * (ndb + 1) + slot % 2,
            slot % 2 <= 1,
            1 <= ndb <= 5,
            t >= ndb + 1,
            ndb < 5 ==> t <= 16,
            ndb == 5 ==> t == 32,
    ;
}


/// The end marker's distance bits decode to the end distance: six set bits
/// select slot 63, whose thirty set direct bits (26 coded evenly, 4 through
/// the align tree) complete the value 0xFFFF_FFFF.
pub proof fn lemma_end_marker_distance()
    ensures
        (2 + 63nat % 2) * two_to((63nat / 2 - 1) as nat) + (two_to(26) - 1) * 16 + (two_to(4) - 1)
            == END_DISTANCE,
{
    lemma_two_to_add(26, 4);
    lemma_two_to_32();
    reveal_with_fuel(two_to, 5);
    assert(two_to(4) == 16);
    assert(two_to(26) == 0x400_0000);
    assert((63nat / 2 - 1) as nat == 30nat);
}

/// `2^n`.
fn pow2(n: u32) -> (r: u64)
    requires
        n <= 32,
    ensures
        r == two_to(n as nat),
{
    proof {
        lemma_two_to_32();
    }
    let mut r: u64 = 1;
    let mut i: u32 = 0;
    while i < n
        invariant
            i <= n <= 32,
            r == two_to(i as nat),
            two_to(32) == 0x1_0000_0000,
        decreases n - i,
    {
        proof {
            lemma_two_to_mono((i + 1) as nat, 32);
        }
        r = r * 2;
        i = i + 1;
    }
    r
}


/// What the decoder holds between bits: the range decoder, the probability
/// cells, the match state, the four last distances and the output so far.
pub struct DecState {
    pub rc: RangeDecoder,
    pub probs: Seq<u16>,
    pub state: usize,
    pub rep0: u64,
    pub rep1: u64,
    pub rep2: u64,
    pub rep3: u64,
    pub out: Seq<u8>,
}

/// What the stream's parameters fix: 2^lc, 2^(8-lc), 2^lp, 2^pb and the
/// dictionary size.
pub struct DecConfig {
    pub lc_pow: usize,
    pub lc_div: usize,
    pub lp_pow: usize,
    pub pb_pow: usize,
    pub dict_size: u32,
}

/// A bit decoded against cell `idx`; `None` when the input runs out.
pub open spec fn m_bit(s: DecState, input: Seq<u8>, idx: int) -> Option<(DecState, bool)> {
    let p = s.probs[idx];
    match rd_normalized(rd_split(s.rc, p), input) {
        Some(rc) => Some(
            (DecState { rc, probs: s.probs.update(idx, adapt(p, rd_bit(s.rc, p))), ..s }, rd_bit(s.rc, p)),
        ),
        None => None,
    }
}

pub open spec fn bit_value(b: bool) -> nat {
    if b {
        1
    } else {
        0
    }
}

/// `left` more bits down the bit tree at `base` from node `m`; yields the
/// final node.
pub open spec fn m_tree(s: DecState, input: Seq<u8>, base: int, m: nat, left: nat) -> Option<(DecState, nat)>
    decreases left,
{
    if left == 0 {
        Some((s, m))
    } else {
        match m_bit(s, input, base + m) {
            Some(x) => m_tree(x.0, input, base, 2 * m + bit_value(x.1), (left - 1) as nat),
            None => None,
        }
    }
}

/// `left` more bits down the reverse bit tree at `base` from node `m`; bit
/// `i` adds `2^i` to the value `v`, and `p` is the weight of the next bit.
pub open spec fn m_rev(s: DecState, input: Seq<u8>, base: int, m: nat, v: nat, p: nat, left: nat) -> Option<
    (DecState, nat),
>
    decreases left,
{
    if left == 0 {
        Some((s, v))
    } else {
        match m_bit(s, input, base + m) {
            Some(x) => m_rev(
                x.0,
                input,
                base,
                2 * m + bit_value(x.1),
                v + if x.1 {
                    p
                } else {
                    0
                },
                2 * p,
                (left - 1) as nat,
            ),
            None => None,
        }
    }
}

/// `left` more even-odds bits appended to `v`, high to low.
pub open spec fn m_direct(s: DecState, input: Seq<u8>, v: nat, left: nat) -> Option<(DecState, nat)>
    decreases left,
{
    if left == 0 {
        Some((s, v))
    } else {
        match rd_normalized(rd_halve(s.rc), input) {
            Some(rc) => m_direct(
                DecState { rc, ..s },
                input,
                2 * v + bit_value(s.rc.code >= s.rc.range / 2),
                (left - 1) as nat,
            ),
            None => None,
        }
    }
}

/// A match length less 2, from the length coder at `base` in position state `ps`.
pub open spec fn m_len(s: DecState, input: Seq<u8>, base: int, ps: int) -> Option<(DecState, nat)> {
    match m_bit(s, input, base) {
        None => None,
        Some(a) => if !a.1 {
            match m_tree(a.0, input, base + 2 + ps * 8, 1, 3) {
                Some(t) => Some((t.0, (t.1 - 8) as nat)),
                None => None,
            }
        } else {
            match m_bit(a.0, input, base + 1) {
                None => None,
                Some(b) => if !b.1 {
                    match m_tree(b.0, input, base + 130 + ps * 8, 1, 3) {
                        Some(t) => Some((t.0, (t.1 - 8 + 8) as nat)),
                        None => None,
                    }
                } else {
                    match m_tree(b.0, input, base + 258, 1, 8) {
                        Some(t) => Some((t.0, (t.1 - 256 + 16) as nat)),
                        None => None,
                    }
                },
            }
        },
    }
}

/// A match distance less 1, for a match of `len + 2` bytes: a 6-bit slot,
/// then for slots from 4 on the slot's extra bits.
pub open spec fn m_dist(s: DecState, input: Seq<u8>, len: nat) -> Option<(DecState, nat)> {
    let ls: nat = if len < 3 {
        len
    } else {
        3
    };
    match m_tree(s, input, POS_SLOT + ls * 64, 1, 6) {
        None => None,
        Some(x) => {
            let slot = (x.1 - 64) as nat;
            if slot < 4 {
                Some((x.0, slot))
            } else {
                let ndb = (slot / 2 - 1) as nat;
                let result = (2 + slot % 2) * two_to(ndb);
                if slot < 14 {
                    match m_rev(x.0, input, SPEC_POS + result - slot, 1, 0, 1, ndb) {
                        Some(y) => Some((y.0, result + y.1)),
                        None => None,
                    }
                } else {
                    match m_direct(x.0, input, 0, (ndb - 4) as nat) {
                        None => None,
                        Some(y) => match m_rev(y.0, input, ALIGN as int, 1, 0, 1, 4) {
                            None => None,
                            Some(z) => Some((z.0, result + y.1 * 16 + z.1)),
                        },
                    }
                }
            }
        },
    }
}

/// The rest of a literal down the tree at `base` from node `m`.
pub open spec fn m_lit_plain(s: DecState, input: Seq<u8>, base: int, m: nat) -> Option<(DecState, nat)>
    decreases 0x200 - m,
{
    if m >= 0x100 || m == 0 {
        Some((s, m))
    } else {
        match m_bit(s, input, base + m) {
            Some(x) => m_lit_plain(x.0, input, base, 2 * m + bit_value(x.1)),
            None => None,
        }
    }
}

/// The rest of a literal after a match: the bits of the match byte `mb`,
/// high first, select the cells until one decoded bit differs from its bit.
pub open spec fn m_lit_matched(s: DecState, input: Seq<u8>, base: int, m: nat, mb: nat) -> Option<(DecState, nat)>
    decreases 0x200 - m,
{
    if m >= 0x100 || m == 0 {
        Some((s, m))
    } else {
        let mbit = mb / 0x80;
        match m_bit(s, input, base + (1 + mbit) * 0x100 + m) {
            None => None,
            Some(x) => if mbit != bit_value(x.1) {
                m_lit_plain(x.0, input, base, 2 * m + bit_value(x.1))
            } else {
                m_lit_matched(x.0, input, base, 2 * m + bit_value(x.1), (mb % 0x80) * 2)
            },
        }
    }
}

/// The byte before the next one, 0 at the start.
pub open spec fn prev_out(out: Seq<u8>) -> u8 {
    if out.len() == 0 {
        0
    } else {
        out[out.len() - 1]
    }
}

/// A literal byte: its tree is chosen by the position and the previous
/// byte; after a match, the byte at the last distance takes part.
pub open spec fn m_literal(s: DecState, input: Seq<u8>, c: DecConfig) -> Option<(DecState, u8)> {
    let lit_state = (s.out.len() % (c.lp_pow as nat)) * (c.lc_pow as nat) + prev_out(s.out) as nat / (c.lc_div as nat);
    let base = LITERAL + 0x300 * lit_state;
    let r = if s.state >= 7 {
        let dist = s.rep0 + 1;
        if reachable(s.out.len(), dist as nat, c.dict_size as nat) {
            m_lit_matched(s, input, base, 1, s.out[s.out.len() - dist] as nat)
        } else {
            None
        }
    } else {
        m_lit_plain(s, input, base, 1)
    };
    match r {
        Some(x) => Some((x.0, (x.1 - 0x100) as u8)),
        None => None,
    }
}

/// A match of `len` bytes at the last distance, once the distance checks out.
pub open spec fn m_copy(s: DecState, len: nat, c: DecConfig) -> Option<(DecState, bool)> {
    if reachable(s.out.len(), (s.rep0 + 1) as nat, c.dict_size as nat) {
        Some((DecState { out: copied(s.out, (s.rep0 + 1) as nat, len), ..s }, false))
    } else {
        None
    }
}

/// A match at one of the last four distances, after its distance was chosen.
pub open spec fn m_rep_match(s: DecState, input: Seq<u8>, c: DecConfig, st: usize, ps: int) -> Option<
    (DecState, bool),
> {
    match m_len(s, input, REP_LEN_CODER as int, ps) {
        None => None,
        Some(l) => m_copy(
            DecState {
                state: if st < 7 {
                    8
                } else {
                    11
                },
                ..l.0
            },
            l.1 + 2,
            c,
        ),
    }
}

/// The state after one token: a literal, a short repeat, a repeated match,
/// a new match, or the end marker (the flag is then set).
#[verifier::opaque]
pub open spec fn m_step(s: DecState, input: Seq<u8>, c: DecConfig) -> Option<(DecState, bool)> {
    let ps = (s.out.len() % (c.pb_pow as nat)) as int;
    let st = s.state;
    match m_bit(s, input, IS_MATCH + st * 16 + ps) {
        None => None,
        Some(a) => if !a.1 {
            match m_literal(a.0, input, c) {
                None => None,
                Some(l) => Some(
                    (
                        DecState {
                            out: l.0.out.push(l.1),
                            state: if st < 4 {
                                0
                            } else if st < 10 {
                                (st - 3) as usize
                            } else {
                                (st - 6) as usize
                            },
                            ..l.0
                        },
                        false,
                    ),
                ),
            }
        } else {
            match m_bit(a.0, input, IS_REP + st) {
                None => None,
                Some(b) => if b.1 {
                    match m_bit(b.0, input, IS_REP_G0 + st) {
                        None => None,
                        Some(g) => if !g.1 {
                            match m_bit(g.0, input, IS_REP_0LONG + st * 16 + ps) {
                                None => None,
                                Some(d) => if !d.1 {
                                    let t = DecState {
                                        state: if st < 7 {
                                            9
                                        } else {
                                            11
                                        },
                                        ..d.0
                                    };
                                    let dist = (t.rep0 + 1) as nat;
                                    if reachable(t.out.len(), dist, c.dict_size as nat) {
                                        Some((DecState { out: t.out.push(t.out[t.out.len() - dist]), ..t }, false))
                                    } else {
                                        None
                                    }
                                } else {
                                    m_rep_match(d.0, input, c, st, ps)
                                },
                            }
                        } else {
                            match m_bit(g.0, input, IS_REP_G1 + st) {
                                None => None,
                                Some(e) => if !e.1 {
                                    m_rep_match(DecState { rep1: e.0.rep0, rep0: e.0.rep1, ..e.0 }, input, c, st, ps)
                                } else {
                                    match m_bit(e.0, input, IS_REP_G2 + st) {
                                        None => None,
                                        Some(f) => if !f.1 {
                                            m_rep_match(
                                                DecState { rep2: f.0.rep1, rep1: f.0.rep0, rep0: f.0.rep2, ..f.0 },
                                                input,
                                                c,
                                                st,
                                                ps,
                                            )
                                        } else {
                                            m_rep_match(
                                                DecState {
                                                    rep3: f.0.rep2,
                                                    rep2: f.0.rep1,
                                                    rep1: f.0.rep0,
                                                    rep0: f.0.rep3,
                                                    ..f.0
                                                },
                                                input,
                                                c,
                                                st,
                                                ps,
                                            )
                                        },
                                    }
                                },
                            }
                        },
                    }
                } else {
                    let s1 = DecState { rep3: b.0.rep2, rep2: b.0.rep1, rep1: b.0.rep0, ..b.0 };
                    match m_len(s1, input, LEN_CODER as int, ps) {
                        None => None,
                        Some(l) => {
                            let s2 = DecState {
                                state: if st < 7 {
                                    7
                                } else {
                                    10
                                },
                                ..l.0
                            };
                            match m_dist(s2, input, l.1) {
                                None => None,
                                Some(d) => if d.1 == END_DISTANCE {
                                    if d.0.rc.code == 0 {
                                        Some((d.0, true))
                                    } else {
                                        None
                                    }
                                } else {
                                    m_copy(DecState { rep0: d.1 as u64, ..d.0 }, l.1 + 2, c)
                                },
                            }
                        },
                    }
                },
            }
        },
    }
}

/// The output once decoding stops: with a known size it must be met exactly.
pub open spec fn m_finish(s: DecState, size: Option<u64>) -> Option<Seq<u8>> {
    match size {
        Some(n) => if s.out.len() == n {
            Some(s.out)
        } else {
            None
        },
        None => Some(s.out),
    }
}

/// Decoding from `s` with at most `fuel` tokens: `None` when the fuel runs
/// out, else the output, or `None` inside for a stream that fails.
pub open spec fn m_run(s: DecState, input: Seq<u8>, c: DecConfig, size: Option<u64>, fuel: nat) -> Option<
    Option<Seq<u8>>,
>
    decreases fuel,
{
    if fuel == 0 {
        None
    } else if size is Some && s.out.len() >= size->Some_0 {
        Some(m_finish(s, size))
    } else if s.out.len() > usize::MAX - MAX_MATCH {
        Some(None)
    } else {
        match m_step(s, input, c) {
            None => Some(None),
            Some(x) => if x.1 {
                Some(m_finish(x.0, size))
            } else {
                m_run(x.0, input, c, size, (fuel - 1) as nat)
            },
        }
    }
}

/// Once decoding ends within some fuel, more fuel ends it the same way.
pub proof fn lemma_run_fuel(s: DecState, input: Seq<u8>, c: DecConfig, size: Option<u64>, f: nat, g: nat)
    requires
        m_run(s, input, c, size, f) is Some,
        f <= g,
    ensures
        m_run(s, input, c, size, g) == m_run(s, input, c, size, f),
    decreases f,
{
    if f > 1 && !(size is Some && s.out.len() >= size->Some_0) && !(s.out.len() > usize::MAX - MAX_MATCH) {
        match m_step(s, input, c) {
            Some(x) => if !x.1 {
                lemma_run_fuel(x.0, input, c, size, (f - 1) as nat, (g - 1) as nat);
            },
            None => {},
        }
    } else if f == 1 {
        match m_step(s, input, c) {
            Some(x) => if !x.1 {
                assert(m_run(x.0, input, c, size, 0) is None);
            },
            None => {},
        }
    }
}

/// The configuration that the parameters fix.
pub open spec fn m_cfg(p: LzmaParams) -> DecConfig {
    DecConfig {
        lc_pow: two_to(p.properties.lc as nat) as usize,
        lc_div: two_to((8 - p.properties.lc) as nat) as usize,
        lp_pow: two_to(p.properties.lp as nat) as usize,
        pb_pow: two_to(p.properties.pb as nat) as usize,
        dict_size: p.dict_size,
    }
}

/// The state before the first token of the coded data at `pos`.
pub open spec fn m_init(input: Seq<u8>, pos: nat, p: LzmaParams) -> DecState {
    let n = LITERAL + 0x300 * (two_to(p.properties.lc as nat) * two_to(p.properties.lp as nat));
    DecState {
        rc: RangeDecoder { pos: (pos + 5) as usize, range: 0xFFFF_FFFF, code: be_code(input, (pos + 1) as int, 4) as u32 },
        probs: Seq::new(n as nat, |i: int| PROB_INIT),
        state: 0,
        rep0: 0,
        rep1: 0,
        rep2: 0,
        rep3: 0,
        out: Seq::empty(),
    }
}

/// What decoding the coded data at `pos` under valid parameters yields:
/// `None` for a stream that fails (too short, truncated or inconsistent).
pub open spec fn lzma_decoded(input: Seq<u8>, pos: nat, p: LzmaParams) -> Option<Seq<u8>> {
    let s0 = m_init(input, pos, p);
    let c = m_cfg(p);
    if pos + 5 > input.len() {
        None
    } else if exists|f: nat| m_run(s0, input, c, p.unpacked_size, f) is Some {
        m_run(s0, input, c, p.unpacked_size, choose|f: nat| m_run(s0, input, c, p.unpacked_size, f) is Some)->Some_0
    } else {
        None
    }
}

/// The decoder's state: the range decoder, the probability cells, the match
/// state machine and the output so far.
struct Decoder {
    rc: RangeDecoder,
    lc_pow: usize,
    lc_div: usize,
    lp_pow: usize,
    pb_pow: usize,
    dict_size: u32,
    probs: Vec<u16>,
    state: usize,
    rep0: u64,
    rep1: u64,
    rep2: u64,
    rep3: u64,
    output: Vec<u8>,
}

impl Decoder {
    spec fn view(&self) -> DecState {
        DecState {
            rc: self.rc,
            probs: self.probs@,
            state: self.state,
            rep0: self.rep0,
            rep1: self.rep1,
            rep2: self.rep2,
            rep3: self.rep3,
            out: self.output@,
        }
    }

    spec fn cfg(&self) -> DecConfig {
        DecConfig {
            lc_pow: self.lc_pow,
            lc_div: self.lc_div,
            lp_pow: self.lp_pow,
            pb_pow: self.pb_pow,
            dict_size: self.dict_size,
        }
    }

    spec fn ok(&self, n: nat) -> bool {
        &&& rd_wf(self.rc, n)
        &&& probs_ok(self.probs@)
        &&& 1 <= self.lc_pow && 1 <= self.lp_pow && self.lc_pow * self.lp_pow <= 4096
        &&& self.lc_pow * self.lc_div == 256
        &&& 1 <= self.pb_pow <= 16
        &&& self.probs@.len() == LITERAL + 0x300 * (self.lc_pow * self.lp_pow)
        &&& self.state < 12
        &&& self.rep0 <= END_DISTANCE && self.rep1 <= END_DISTANCE
        &&& self.rep2 <= END_DISTANCE && self.rep3 <= END_DISTANCE
    }

    /// The fields that only decoding a token may change are left alone.
    spec fn same(&self, o: &Decoder) -> bool {
        &&& self.lc_pow == o.lc_pow && self.lc_div == o.lc_div
        &&& self.lp_pow == o.lp_pow && self.pb_pow == o.pb_pow
        &&& self.dict_size == o.dict_size
        &&& self.probs@.len() == o.probs@.len()
        &&& self.state == o.state
        &&& self.rep0 == o.rep0 && self.rep1 == o.rep1 && self.rep2 == o.rep2 && self.rep3 == o.rep3
        &&& self.output@ == o.output@
    }

    /// The fields fixed for the whole stream are left alone.
    spec fn same_setup(&self, o: &Decoder) -> bool {
        &&& self.lc_pow == o.lc_pow && self.lc_div == o.lc_div
        &&& self.lp_pow == o.lp_pow && self.pb_pow == o.pb_pow
        &&& self.dict_size == o.dict_size
        &&& self.probs@.len() == o.probs@.len()
    }

    /// A decoder for a stream whose coded data starts at `pos`.
    fn new(input: &[u8], pos: usize, params: &LzmaParams) -> (r: Result<Decoder, LzmaError>)
        requires
            params.properties.valid(),
        ensures
            r is Ok ==> r->Ok_0.ok(input@.len()) && r->Ok_0.output@.len() == 0,
            r is Ok <==> pos + 5 <= input@.len(),
            r is Ok ==> r->Ok_0@ == m_init(input@, pos as nat, *params) && r->Ok_0.cfg() == m_cfg(*params),
    {
        let rc = RangeDecoder::new(input, pos)?;
        let lc = params.properties.lc;
        let lp = params.properties.lp;
        let pb = params.properties.pb;
        proof {
            lemma_two_to_add(lc as nat, (8 - lc) as nat);
            reveal_with_fuel(two_to, 9);
            lemma_two_to_mono(lc as nat, 8);
            lemma_two_to_mono(lp as nat, 4);
            lemma_two_to_mono(pb as nat, 4);
            lemma_two_to_mono(0, lc as nat);
            lemma_two_to_mono(0, lp as nat);
            lemma_two_to_mono(0, pb as nat);
        }
        let lc_pow = pow2(lc) as usize;
        let lc_div = pow2(8 - lc) as usize;
        let lp_pow = pow2(lp) as usize;
        let pb_pow = pow2(pb) as usize;
        assert(lc_pow * lp_pow <= 4096) by (nonlinear_arith)
            requires
                lc_pow <= 256,
                lp_pow <= 16,
        ;
        let n: usize = LITERAL + 0x300 * (lc_pow * lp_pow);
        let probs = vec![PROB_INIT; n];
        assert(probs_ok(probs@));
        assert(probs@ =~= Seq::new(n as nat, |i: int| PROB_INIT));
        Ok(Decoder {
            rc,
            lc_pow,
            lc_div,
            lp_pow,
            pb_pow,
            dict_size: params.dict_size,
            probs,
            state: 0,
            rep0: 0,
            rep1: 0,
            rep2: 0,
            rep3: 0,
            output: Vec::new(),
        })
    }

    /// Decodes a bit against cell `idx`.
    fn bit_at(&mut self, input: &[u8], idx: usize) -> (r: Result<bool, LzmaError>)
        requires
            old(self).ok(input@.len()),
            idx < old(self).probs@.len(),
        ensures
            r is Ok ==> final(self).ok(input@.len()) && moved(old(self).rc, final(self).rc) && final(self).same(old(self)),
            r is Ok <==> m_bit(old(self)@, input@, idx as int) is Some,
            r is Ok ==> (final(self)@, r->Ok_0) == m_bit(old(self)@, input@, idx as int)->Some_0,
            r is Ok ==> r->Ok_0 == rd_bit(old(self).rc, old(self).probs@[idx as int]),
            r is Ok ==> final(self).rc == rd_normalized(rd_split(old(self).rc, old(self).probs@[idx as int]), input@)->Some_0,
            r is Ok ==> final(self).probs@ == old(self).probs@.update(
                idx as int,
                adapt(old(self).probs@[idx as int], r->Ok_0),
            ),
    {
        let mut p = self.probs[idx];
        let r = self.rc.decode_bit(input, &mut p);
        self.probs.set(idx, p);
        assert(probs_ok(self.probs@));
        r
    }

    /// Decodes `num_bits` bits, high to low, down the bit tree at `base`.
    fn bittree(&mut self, input: &[u8], base: usize, num_bits: u32) -> (r: Result<u64, LzmaError>)
        requires
            old(self).ok(input@.len()),
            1 <= num_bits <= 8,
            base + two_to(num_bits as nat) <= old(self).probs@.len(),
        ensures
            r is Ok ==> final(self).ok(input@.len()) && moved(old(self).rc, final(self).rc) && final(self).same(old(self)) && r->Ok_0 < two_to(num_bits as nat),
            r is Ok <==> m_tree(old(self)@, input@, base as int, 1, num_bits as nat) is Some,
            r is Ok ==> final(self)@ == m_tree(old(self)@, input@, base as int, 1, num_bits as nat)->Some_0.0
                && r->Ok_0 + two_to(num_bits as nat) == m_tree(old(self)@, input@, base as int, 1, num_bits as nat)->Some_0.1,
    {
        let mut m: usize = 1;
        let mut p: usize = 1;
        let mut i: u32 = 0;
        while i < num_bits
            invariant
                i <= num_bits <= 8,
                p == two_to(i as nat),
                p <= m < 2 * p,
                m_tree(self@, input@, base as int, m as nat, (num_bits - i) as nat) == m_tree(
                    old(self)@,
                    input@,
                    base as int,
                    1,
                    num_bits as nat,
                ),
                base + two_to(num_bits as nat) <= self.probs@.len(),
                self.ok(input@.len()),
                self.same(old(self)),
                i > 0 ==> moved(old(self).rc, self.rc),
                i == 0 ==> self.rc == old(self).rc,
            decreases num_bits - i,
        {
            proof {
                lemma_two_to_mono((i + 1) as nat, num_bits as nat);
                lemma_two_to_mono(i as nat, 8);
                reveal_with_fuel(two_to, 9);
            }
            let bit = self.bit_at(input, base + m)?;
            m = 2 * m + if bit {
                1
            } else {
                0
            };
            p = 2 * p;
            i = i + 1;
        }
        Ok((m - p) as u64)
    }

    /// Decodes `num_bits` bits, low to high, down the bit tree at `base`.
    fn reverse_bittree(&mut self, input: &[u8], base: usize, num_bits: u32) -> (r: Result<u64, LzmaError>)
        requires
            old(self).ok(input@.len()),
            1 <= num_bits <= 5,
            base + two_to(num_bits as nat) <= old(self).probs@.len(),
        ensures
            r is Ok ==> final(self).ok(input@.len()) && moved(old(self).rc, final(self).rc) && final(self).same(old(self)) && r->Ok_0 < two_to(num_bits as nat),
            r is Ok <==> m_rev(old(self)@, input@, base as int, 1, 0, 1, num_bits as nat) is Some,
            r is Ok ==> (final(self)@, r->Ok_0 as nat) == m_rev(old(self)@, input@, base as int, 1, 0, 1, num_bits as nat)->Some_0,
    {
        let mut m: usize = 1;
        let mut p: usize = 1;
        let mut v: u64 = 0;
        let mut i: u32 = 0;
        while i < num_bits
            invariant
                i <= num_bits <= 5,
                p == two_to(i as nat),
                p <= m < 2 * p,
                v < p,
                m_rev(self@, input@, base as int, m as nat, v as nat, p as nat, (num_bits - i) as nat) == m_rev(
                    old(self)@,
                    input@,
                    base as int,
                    1,
                    0,
                    1,
                    num_bits as nat,
                ),
                base + two_to(num_bits as nat) <= self.probs@.len(),
                self.ok(input@.len()),
                self.same(old(self)),
                i > 0 ==> moved(old(self).rc, self.rc),
                i == 0 ==> self.rc == old(self).rc,
            decreases num_bits - i,
        {
            proof {
                lemma_two_to_mono((i + 1) as nat, num_bits as nat);
                lemma_two_to_mono(i as nat, 5);
                reveal_with_fuel(two_to, 6);
            }
            let bit = self.bit_at(input, base + m)?;
            if bit {
                m = 2 * m + 1;
                v = v + p as u64;
            } else {
                m = 2 * m;
            }
            p = 2 * p;
            i = i + 1;
        }
        Ok(v)
    }

    /// Decodes `count` bits of even odds, high to low.
    fn direct_bits(&mut self, input: &[u8], count: u32) -> (r: Result<u64, LzmaError>)
        requires
            old(self).ok(input@.len()),
            1 <= count <= 26,
        ensures
            r is Ok ==> final(self).ok(input@.len()) && moved(old(self).rc, final(self).rc) && final(self).same(old(self)) && r->Ok_0 < two_to(count as nat),
            r is Ok <==> m_direct(old(self)@, input@, 0, count as nat) is Some,
            r is Ok ==> (final(self)@, r->Ok_0 as nat) == m_direct(old(self)@, input@, 0, count as nat)->Some_0,
    {
        let mut v: u64 = 0;
        let mut i: u32 = 0;
        while i < count
            invariant
                i <= count <= 26,
                v < two_to(i as nat),
                m_direct(self@, input@, v as nat, (count - i) as nat) == m_direct(old(self)@, input@, 0, count as nat),
                self.ok(input@.len()),
                self.same(old(self)),
                i > 0 ==> moved(old(self).rc, self.rc),
                i == 0 ==> self.rc == old(self).rc,
            decreases count - i,
        {
            proof {
                lemma_two_to_mono(i as nat, 30);
                lemma_two_to_32();
            }
            let bit = self.rc.decode_direct(input)?;
            v = 2 * v + if bit {
                1
            } else {
                0
            };
            i = i + 1;
        }
        Ok(v)
    }

    /// Decodes a match length less 2, below 272.
    fn decode_len(&mut self, input: &[u8], base: usize, pos_state: usize) -> (r: Result<usize, LzmaError>)
        requires
            old(self).ok(input@.len()),
            base == LEN_CODER || base == REP_LEN_CODER,
            pos_state < 16,
        ensures
            r is Ok ==> final(self).ok(input@.len()) && moved(old(self).rc, final(self).rc) && final(self).same(old(self)) && r->Ok_0 < 272,
            r is Ok <==> m_len(old(self)@, input@, base as int, pos_state as int) is Some,
            r is Ok ==> (final(self)@, r->Ok_0 as nat) == m_len(old(self)@, input@, base as int, pos_state as int)->Some_0,
    {
        proof {
            reveal_with_fuel(two_to, 9);
            assert(self.lc_pow * self.lp_pow >= 1) by (nonlinear_arith)
                requires
                    self.lc_pow >= 1,
                    self.lp_pow >= 1,
            ;
            assert(0x300 * (self.lc_pow * self.lp_pow) >= 0x300) by (nonlinear_arith)
                requires
                    self.lc_pow * self.lp_pow >= 1,
            ;
        }
        if !self.bit_at(input, base)? {
            let v = self.bittree(input, base + 2 + pos_state * 8, 3)?;
            Ok(v as usize)
        } else if !self.bit_at(input, base + 1)? {
            let v = self.bittree(input, base + 130 + pos_state * 8, 3)?;
            Ok(v as usize + 8)
        } else {
            let v = self.bittree(input, base + 258, 8)?;
            Ok(v as usize + 16)
        }
    }

    /// Decodes a match distance less 1 for a match of `len + 2` bytes.
    fn decode_distance(&mut self, input: &[u8], len: usize) -> (r: Result<u64, LzmaError>)
        requires
            old(self).ok(input@.len()),
        ensures
            r is Ok ==> final(self).ok(input@.len()) && moved(old(self).rc, final(self).rc) && final(self).same(old(self)) && r->Ok_0 <= END_DISTANCE,
            r is Ok <==> m_dist(old(self)@, input@, len as nat) is Some,
            r is Ok ==> (final(self)@, r->Ok_0 as nat) == m_dist(old(self)@, input@, len as nat)->Some_0,
    {
        proof {
            reveal_with_fuel(two_to, 9);
            assert(self.lc_pow * self.lp_pow >= 1) by (nonlinear_arith)
                requires
                    self.lc_pow >= 1,
                    self.lp_pow >= 1,
            ;
            assert(0x300 * (self.lc_pow * self.lp_pow) >= 0x300) by (nonlinear_arith)
                requires
                    self.lc_pow * self.lp_pow >= 1,
            ;
        }
        let len_state: usize = if len < 3 {
            len
        } else {
            3
        };
        let pos_slot = self.bittree(input, POS_SLOT + len_state * 64, 6)?;
        if pos_slot < 4 {
            return Ok(pos_slot);
        }
        let ndb: u32 = (pos_slot / 2 - 1) as u32;
        let t = pow2(ndb);
        proof {
            lemma_two_to_mono(ndb as nat, 30);
            lemma_two_to_32();
            assert((2 + pos_slot % 2) * t <= 3 * t) by (nonlinear_arith)
                requires
                    pos_slot % 2 <= 1,
            ;
        }
        let result: u64 = (2 + pos_slot % 2) * t;
        if pos_slot < 14 {
            proof {
                lemma_spec_pos_bound(pos_slot as nat);
            }
            let v = self.reverse_bittree(input, SPEC_POS + (result - pos_slot) as usize, ndb)?;
            Ok(result + v)
        } else {
            proof {
                lemma_two_to_add((ndb - 4) as nat, 4);
                lemma_two_to_mono(ndb as nat, 30);
                lemma_two_to_32();
            }
            let d = self.direct_bits(input, ndb - 4)?;
            let a = self.reverse_bittree(input, ALIGN, 4)?;
            let ghost low = two_to((ndb - 4) as nat);
            assert(result + d * 16 + a <= 4 * t - 1) by (nonlinear_arith)
                requires
                    result <= 3 * t,
                    d < low,
                    t == low * 16,
                    a < 16,
            ;
            Ok(result + d * 16 + a)
        }
    }

    /// Decodes a literal byte; after a match, against the byte at the last
    /// distance too.
    fn decode_literal(&mut self, input: &[u8]) -> (r: Result<u8, LzmaError>)
        requires
            old(self).ok(input@.len()),
        ensures
            r is Ok ==> final(self).ok(input@.len()) && moved(old(self).rc, final(self).rc) && final(self).same(old(self)),
            r is Ok <==> m_literal(old(self)@, input@, old(self).cfg()) is Some,
            r is Ok ==> (final(self)@, r->Ok_0) == m_literal(old(self)@, input@, old(self).cfg())->Some_0,
    {
        let prev = last_byte(&self.output);
        let a = self.output.len() % self.lp_pow;
        let b = prev as usize / self.lc_div;
        let lc_pow = self.lc_pow;
        let lp_pow = self.lp_pow;
        assert(b < lc_pow) by (nonlinear_arith)
            requires
                b == prev as usize / self.lc_div,
                prev < 256,
                lc_pow * self.lc_div == 256,
        ;
        assert(a * lc_pow + b + 1 <= lp_pow * lc_pow) by (nonlinear_arith)
            requires
                a < lp_pow,
                b < lc_pow,
        ;
        assert(0x300 * (a * lc_pow + b + 1) <= 0x300 * (lc_pow * lp_pow)) by (nonlinear_arith)
            requires
                a * lc_pow + b + 1 <= lp_pow * lc_pow,
        ;
        let lit_state = a * lc_pow + b;
        let base = LITERAL + 0x300 * lit_state;
        assert(prev == prev_out(self@.out));
        assert(lit_state as nat == (self@.out.len() % (self.lp_pow as nat)) * (self.lc_pow as nat) + prev_out(
            self@.out,
        ) as nat / (self.lc_div as nat));
        let ghost whole = if old(self).state >= 7 {
            let dist = old(self).rep0 + 1;
            if reachable(old(self)@.out.len(), dist as nat, old(self).dict_size as nat) {
                m_lit_matched(old(self)@, input@, base as int, 1, old(self)@.out[old(self)@.out.len() - dist] as nat)
            } else {
                None
            }
        } else {
            m_lit_plain(old(self)@, input@, base as int, 1)
        };
        assert(m_literal(old(self)@, input@, old(self).cfg()) == match whole {
            Some(x) => Some((x.0, (x.1 - 0x100) as u8)),
            None => None::<(DecState, u8)>,
        });
        let mut m: usize = 1;
        if self.state >= 7 {
            let mb = byte_back(&self.output, self.rep0 + 1, self.dict_size)?;
            let mut match_byte: usize = mb as usize;
            while m < 0x100
                invariant_except_break
                    m_lit_matched(self@, input@, base as int, m as nat, match_byte as nat) == m_lit_matched(
                        old(self)@,
                        input@,
                        base as int,
                        1,
                        mb as nat,
                    ),
                invariant
                    1 <= m < 0x200,
                    match_byte < 0x100,
                    whole == m_lit_matched(old(self)@, input@, base as int, 1, mb as nat),
                    whole is None ==> m_literal(old(self)@, input@, old(self).cfg()) is None,
                    base + 0x300 <= self.probs@.len(),
                    self.ok(input@.len()),
                    self.same(old(self)),
                    m > 1 ==> moved(old(self).rc, self.rc),
                    m == 1 ==> self.rc == old(self).rc,
                ensures
                    m_lit_plain(self@, input@, base as int, m as nat) == m_lit_matched(
                        old(self)@,
                        input@,
                        base as int,
                        1,
                        mb as nat,
                    ),
                decreases 0x200 - m,
            {
                let ghost before = self@;
                let ghost mb_before = match_byte;
                let match_bit = match_byte / 0x80;
                match_byte = (match_byte % 0x80) * 2;
                assert(m_bit(self@, input@, base + (1 + match_bit) * 0x100 + m) is None ==> m_lit_matched(
                    self@,
                    input@,
                    base as int,
                    m as nat,
                    mb_before as nat,
                ) is None);
                let bit = self.bit_at(input, base + (1 + match_bit) * 0x100 + m)?;
                let bit_value: usize = if bit {
                    1
                } else {
                    0
                };
                m = 2 * m + bit_value;
                if match_bit != bit_value {
                    assert(m_lit_matched(before, input@, base as int, (m - bit_value) as nat / 2, mb_before as nat)
                        == m_lit_plain(self@, input@, base as int, m as nat));
                    break;
                }
            }
            assert(m_lit_plain(self@, input@, base as int, m as nat) == m_lit_matched(
                old(self)@,
                input@,
                base as int,
                1,
                mb as nat,
            ));
        }
        while m < 0x100
            invariant
                1 <= m < 0x200,
                m_lit_plain(self@, input@, base as int, m as nat) == whole,
                whole is None ==> m_literal(old(self)@, input@, old(self).cfg()) is None,
                base + 0x300 <= self.probs@.len(),
                self.ok(input@.len()),
                self.same(old(self)),
                m > 1 ==> moved(old(self).rc, self.rc),
                m == 1 ==> self.rc == old(self).rc,
            decreases 0x200 - m,
        {
            assert(m_bit(self@, input@, base + m) is None ==> m_lit_plain(self@, input@, base as int, m as nat) is None);
            let bit = self.bit_at(input, base + m)?;
            m = 2 * m + if bit {
                1
            } else {
                0
            };
        }
        Ok((m - 0x100) as u8)
    }

    /// Decodes one token: a literal, a match or the end-of-stream marker.
    /// Returns whether it was the marker.
    fn step(&mut self, input: &[u8]) -> (r: Result<bool, LzmaError>)
        requires
            old(self).ok(input@.len()),
            old(self).output@.len() + MAX_MATCH <= usize::MAX,
        ensures
            r is Ok ==> final(self).ok(input@.len()) && moved(old(self).rc, final(self).rc) && final(self).same_setup(old(self)),
            r is Ok <==> m_step(old(self)@, input@, old(self).cfg()) is Some,
            r is Ok ==> (final(self)@, r->Ok_0) == m_step(old(self)@, input@, old(self).cfg())->Some_0,
    {
        proof {
            reveal(m_step);
        }
        let pos_state = self.output.len() % self.pb_pow;
        let state = self.state;
        if !self.bit_at(input, IS_MATCH + state * 16 + pos_state)? {
            let byte = self.decode_literal(input)?;
            self.output.push(byte);
            self.state = if state < 4 {
                0
            } else if state < 10 {
                state - 3
            } else {
                state - 6
            };
            return Ok(false);
        }
        let len: usize = if self.bit_at(input, IS_REP + state)? {
            if !self.bit_at(input, IS_REP_G0 + state)? {
                if !self.bit_at(input, IS_REP_0LONG + state * 16 + pos_state)? {
                    self.state = if state < 7 {
                        9
                    } else {
                        11
                    };
                    let b = byte_back(&self.output, self.rep0 + 1, self.dict_size)?;
                    self.output.push(b);
                    return Ok(false);
                }
            } else {
                let dist: u64 = if !self.bit_at(input, IS_REP_G1 + state)? {
                    self.rep1
                } else {
                    let d = if !self.bit_at(input, IS_REP_G2 + state)? {
                        self.rep2
                    } else {
                        let d3 = self.rep3;
                        self.rep3 = self.rep2;
                        d3
                    };
                    self.rep2 = self.rep1;
                    d
                };
                self.rep1 = self.rep0;
                self.rep0 = dist;
            }
            let l = self.decode_len(input, REP_LEN_CODER, pos_state)?;
            self.state = if state < 7 {
                8
            } else {
                11
            };
            l
        } else {
            self.rep3 = self.rep2;
            self.rep2 = self.rep1;
            self.rep1 = self.rep0;
            let l = self.decode_len(input, LEN_CODER, pos_state)?;
            self.state = if state < 7 {
                7
            } else {
                10
            };
            let dist = self.decode_distance(input, l)?;
            if dist == END_DISTANCE {
                if self.rc.is_finished_ok() {
                    return Ok(true);
                } else {
                    return Err(LzmaError::Corrupted);
                }
            }
            self.rep0 = dist;
            l
        };
        copy_match(&mut self.output, self.rep0 + 1, len + 2, self.dict_size)?;
        Ok(false)
    }

    /// Decodes tokens until the end marker, or until `unpacked_size` bytes
    /// are out; a known size that is not met exactly is corruption.
    fn run(&mut self, input: &[u8], unpacked_size: Option<u64>) -> (r: Result<(), LzmaError>)
        requires
            old(self).ok(input@.len()),
        ensures
            r is Ok && unpacked_size is Some ==> final(self).output@.len() == unpacked_size->Some_0,
            unpacked_size is Some && old(self).output@.len() == unpacked_size->Some_0 ==> r is Ok
                && final(self).output@ == old(self).output@,
            exists|f: nat|
                m_run(old(self)@, input@, old(self).cfg(), unpacked_size, f) == Some(
                    if r is Ok {
                        Some(final(self)@.out)
                    } else {
                        None::<Seq<u8>>
                    },
                ),
    {
        let ghost start = self@;
        let ghost c = self.cfg();
        match unpacked_size {
            Some(size) => {
                if self.output.len() as u64 == size {
                    assert(m_run(start, input@, c, unpacked_size, 1) == Some(Some(self@.out)));
                    return Ok(());
                }
            },
            None => {},
        }
        let ghost mut k: nat = 0;
        let ghost mut total: nat = 0;
        loop
            invariant_except_break
                forall|f: nat|
                    m_run(start, input@, c, unpacked_size, f + k) == #[trigger] m_run(
                        self@,
                        input@,
                        c,
                        unpacked_size,
                        f,
                    ),
            invariant
                self.ok(input@.len()),
                self.cfg() == c,
                start == old(self)@,
                c == old(self).cfg(),
                unpacked_size is Some ==> old(self).output@.len() != unpacked_size->Some_0,
            ensures
                m_run(start, input@, c, unpacked_size, total) == Some(m_finish(self@, unpacked_size)),
            decreases input@.len() - self.rc.pos, self.rc.range,
        {
            assert(m_run(start, input@, c, unpacked_size, 1 + k) == m_run(self@, input@, c, unpacked_size, 1));
            match unpacked_size {
                Some(size) => {
                    if self.output.len() as u64 >= size {
                        proof {
                            total = k + 1;
                        }
                        break;
                    }
                },
                None => {},
            }
            if self.output.len() > usize::MAX - MAX_MATCH {
                assert(m_run(start, input@, c, unpacked_size, 1 + k) == Some(None::<Seq<u8>>));
                assert(m_run(old(self)@, input@, old(self).cfg(), unpacked_size, 1 + k) == Some(None::<Seq<u8>>));
                return Err(LzmaError::Corrupted);
            }
            let ghost prev = self@;
            assert(!(unpacked_size is Some && prev.out.len() >= unpacked_size->Some_0));
            assert(!(prev.out.len() > usize::MAX - MAX_MATCH));
            assert(m_step(prev, input@, c) is None ==> m_run(start, input@, c, unpacked_size, 1 + k) == Some(
                None::<Seq<u8>>,
            ));
            let ended = self.step(input)?;
            if ended {
                proof {
                    total = k + 1;
                }
                break;
            }
            proof {
                assert forall|f: nat|
                    m_run(start, input@, c, unpacked_size, f + (k + 1)) == #[trigger] m_run(
                        self@,
                        input@,
                        c,
                        unpacked_size,
                        f,
                    ) by {
                    assert(m_run(prev, input@, c, unpacked_size, f + 1) == m_run(self@, input@, c, unpacked_size, f));
                    assert(m_run(start, input@, c, unpacked_size, (f + 1) + k) == m_run(
                        prev,
                        input@,
                        c,
                        unpacked_size,
                        f + 1,
                    ));
                }
                k = k + 1;
            }
        }
        match unpacked_size {
            Some(size) => {
                if self.output.len() as u64 != size {
                    return Err(LzmaError::Corrupted);
                }
            },
            None => {},
        }
        Ok(())
    }
}

/// Decodes the coded data that starts at `pos` under `params`.
fn decode_from(input: &[u8], pos: usize, params: &LzmaParams) -> (r: Result<Vec<u8>, LzmaError>)
    ensures
        !params.properties.valid() ==> r == Err::<Vec<u8>, LzmaError>(LzmaError::InvalidProperties),
        pos + 5 > input@.len() ==> r is Err,
        r is Ok && params.unpacked_size is Some ==> r->Ok_0@.len() == params.unpacked_size->Some_0,
        params.properties.valid() && params.unpacked_size == Some(0u64) && pos + 5 <= input@.len() ==> r is Ok
            && r->Ok_0@.len() == 0,
        params.properties.valid() ==> (r is Ok <==> lzma_decoded(input@, pos as nat, *params) is Some),
        params.properties.valid() && r is Ok ==> r->Ok_0@ == lzma_decoded(input@, pos as nat, *params)->Some_0,
{
    if params.properties.check().is_err() {
        return Err(LzmaError::InvalidProperties);
    }
    let mut d = Decoder::new(input, pos, params)?;
    let ghost s0 = d@;
    let ghost c = d.cfg();
    let res = d.run(input, params.unpacked_size);
    proof {
        let out = if res is Ok {
            Some(d@.out)
        } else {
            None::<Seq<u8>>
        };
        let f = choose|f: nat| m_run(s0, input@, c, params.unpacked_size, f) == Some(out);
        assert(m_run(s0, input@, c, params.unpacked_size, f) is Some);
        let g = choose|g: nat| m_run(s0, input@, c, params.unpacked_size, g) is Some;
        lemma_run_fuel(s0, input@, c, params.unpacked_size, f, f + g);
        lemma_run_fuel(s0, input@, c, params.unpacked_size, g, f + g);
        assert(lzma_decoded(input@, pos as nat, *params) == out);
    }
    match res {
        Ok(()) => Ok(d.output),
        Err(e) => Err(e),
    }
}

/// Decodes a stream without a header, under explicit parameters.
pub fn decode_stream(input: &[u8], params: &LzmaParams) -> (r: Result<Vec<u8>, LzmaError>)
    ensures
        !params.properties.valid() ==> r == Err::<Vec<u8>, LzmaError>(LzmaError::InvalidProperties),
        input@.len() < 5 ==> r is Err,
        r is Ok && params.unpacked_size is Some ==> r->Ok_0@.len() == params.unpacked_size->Some_0,
        params.properties.valid() && params.unpacked_size == Some(0u64) && input@.len() >= 5 ==> r is Ok
            && r->Ok_0@.len() == 0,
        params.properties.valid() ==> (r is Ok <==> lzma_decoded(input@, 0, *params) is Some),
        params.properties.valid() && r is Ok ==> r->Ok_0@ == lzma_decoded(input@, 0, *params)->Some_0,
{
    decode_from(input, 0, params)
}

/// Reads the header, then decodes the stream after it. A header error is
/// returned as it is; a stream of known size yields exactly that many bytes.
pub fn decompress(input: &[u8], options: &DecompressOptions) -> (r: Result<Vec<u8>, LzmaError>)
    ensures
        match parse_header(input@, options.unpacked_size) {
            Err(e) => r == Err::<Vec<u8>, LzmaError>(e),
            Ok(p) => {
                &&& input@.len() < header_len(options.unpacked_size) + 5 ==> r is Err
                &&& r is Ok && p.unpacked_size is Some ==> r->Ok_0@.len() == p.unpacked_size->Some_0
                &&& p.unpacked_size == Some(0u64) && input@.len() >= header_len(options.unpacked_size) + 5
                    ==> r is Ok && r->Ok_0@.len() == 0
                &&& r is Ok <==> lzma_decoded(input@, header_len(options.unpacked_size), p) is Some
                &&& r is Ok ==> r->Ok_0@ == lzma_decoded(input@, header_len(options.unpacked_size), p)->Some_0
            },
        },
{
    let params = match LzmaParams::read_header(input, options) {
        Ok(p) => p,
        Err(e) => {
            return Err(e);
        },
    };
    let start = header_size(options);
    assert(params.properties.valid()) by {
        let b = input@[0] as nat;
        assert(b < 225);
        assert(b % 9 <= 8 && b / 9 % 5 <= 4 && b / 45 <= 4);
    }
    decode_from(input, start, &params)
}

} // verus!

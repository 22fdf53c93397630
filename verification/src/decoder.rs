//! Decompression: a bit-level finite-state machine that consumes the token
//! stream and reconstructs bytes, using the output buffer itself as the
//! backreference window.
//!
//! The machine is specified by [`decode_from`], a pure transition function
//! over the input's bit stream, and the executable decoder is proved to
//! return exactly its result.

use vstd::prelude::*;
use crate::Config;
use crate::bits::{
    bits_val, lemma_bits_val_push, lemma_two_pow_16, lemma_two_pow_mono,
    stream_bit, stream_bits, two_pow,
};

verus! {

/// Errors that can be encountered while decompressing data.
#[derive(Debug)]
pub enum DecodeError {
    /// The output buffer was too small to hold the decompressed data.
    OutputFull,
    /// A backreference pointed before the start of the produced output.
    IllegalBackref,
}

/// The states of the decoding machine. The three terminal states carry the
/// outcome: `NeedMoreData` is the clean end of the stream (success), the
/// other two abort with the matching [`DecodeError`].
#[derive(Debug, Copy, Clone)]
pub enum DecoderState {
    TagBit,
    YieldLiteral,
    BackrefIndexMsb,
    BackrefIndexLsb,
    BackrefCountMsb,
    BackrefCountLsb,
    YieldBackref,
    NeedMoreData,
    OutputFull,
    IllegalBackref,
}

/// Rank used to show the machine terminates: every transition either consumes
/// input bits or moves to a state of smaller rank.
pub open spec fn state_rank(st: DecoderState) -> nat {
    match st {
        DecoderState::TagBit => 1,
        DecoderState::YieldLiteral => 1,
        DecoderState::BackrefIndexMsb => 6,
        DecoderState::BackrefIndexLsb => 5,
        DecoderState::BackrefCountMsb => 4,
        DecoderState::BackrefCountLsb => 3,
        DecoderState::YieldBackref => 2,
        DecoderState::NeedMoreData => 0,
        DecoderState::OutputFull => 0,
        DecoderState::IllegalBackref => 0,
    }
}

/// The sequential backreference copy: `len` times, append the byte `dist`
/// positions before the end. Because each step reads the sequence extended by
/// the steps before it, a copy with `dist < len` replicates a repeating
/// pattern.
pub open spec fn backref_extend(out: Seq<u8>, dist: int, len: int) -> Seq<u8>
    decreases len,
{
    if len <= 0 {
        out
    } else {
        backref_extend(out.push(out[out.len() - dist]), dist, len - 1)
    }
}

/// One complete run of the decoding machine from state `st` at absolute bit
/// offset `i`, with `idx` and `cnt` the pending distance and length
/// accumulators, `out` the bytes produced so far and `cap` the output
/// capacity. Running out of bits is the clean end of the stream: the bytes
/// produced so far are the result, and a partially read token is discarded.
pub open spec fn decode_from(
    bits: Seq<bool>,
    i: int,
    st: DecoderState,
    idx: nat,
    cnt: nat,
    out: Seq<u8>,
    cap: nat,
    w: nat,
    l: nat,
) -> Result<Seq<u8>, DecodeError>
    decreases bits.len() - i, state_rank(st),
        when 0 <= i <= bits.len()
{
    match st {
        DecoderState::TagBit => {
            if i + 1 > bits.len() {
                Ok(out)
            } else if bits[i] {
                decode_from(bits, i + 1, DecoderState::YieldLiteral, 0, 0, out, cap, w, l)
            } else if w > 8 {
                decode_from(bits, i + 1, DecoderState::BackrefIndexMsb, 0, 0, out, cap, w, l)
            } else {
                decode_from(bits, i + 1, DecoderState::BackrefIndexLsb, 0, 0, out, cap, w, l)
            }
        },
        DecoderState::YieldLiteral => {
            if i + 8 > bits.len() {
                Ok(out)
            } else if out.len() >= cap {
                Err(DecodeError::OutputFull)
            } else {
                let b = bits_val(bits.subrange(i, i + 8));
                decode_from(bits, i + 8, DecoderState::TagBit, 0, 0, out.push(b as u8), cap, w, l)
            }
        },
        DecoderState::BackrefIndexMsb => {
            let n: int = if w > 8 {
                w - 8
            } else {
                0
            };
            if i + n > bits.len() {
                Ok(out)
            } else {
                let hi = bits_val(bits.subrange(i, i + n));
                decode_from(bits, i + n, DecoderState::BackrefIndexLsb, hi * 256, 0, out, cap, w, l)
            }
        },
        DecoderState::BackrefIndexLsb => {
            let n: int = if w < 8 {
                w as int
            } else {
                8
            };
            if i + n > bits.len() {
                Ok(out)
            } else {
                let lo = bits_val(bits.subrange(i, i + n));
                let st2 = if l > 8 {
                    DecoderState::BackrefCountMsb
                } else {
                    DecoderState::BackrefCountLsb
                };
                decode_from(bits, i + n, st2, idx + lo + 1, 0, out, cap, w, l)
            }
        },
        DecoderState::BackrefCountMsb => {
            let n: int = if l > 8 {
                l - 8
            } else {
                0
            };
            if i + n > bits.len() {
                Ok(out)
            } else {
                let hi = bits_val(bits.subrange(i, i + n));
                decode_from(bits, i + n, DecoderState::BackrefCountLsb, idx, hi * 256, out, cap, w, l)
            }
        },
        DecoderState::BackrefCountLsb => {
            let n: int = if l < 8 {
                l as int
            } else {
                8
            };
            if i + n > bits.len() {
                Ok(out)
            } else {
                let lo = bits_val(bits.subrange(i, i + n));
                decode_from(bits, i + n, DecoderState::YieldBackref, idx, cnt + lo + 1, out, cap, w, l)
            }
        },
        DecoderState::YieldBackref => {
            if idx > out.len() {
                Err(DecodeError::IllegalBackref)
            } else if out.len() + cnt > cap {
                Err(DecodeError::OutputFull)
            } else {
                decode_from(
                    bits,
                    i,
                    DecoderState::TagBit,
                    0,
                    0,
                    backref_extend(out, idx as int, cnt as int),
                    cap,
                    w,
                    l,
                )
            }
        },
        DecoderState::NeedMoreData => Ok(out),
        DecoderState::OutputFull => Err(DecodeError::OutputFull),
        DecoderState::IllegalBackref => Err(DecodeError::IllegalBackref),
    }
}

/// What decoding an input buffer into an output buffer of capacity `cap`
/// returns, for window exponent `w` and lookahead exponent `l`.
pub open spec fn spec_decode(input: Seq<u8>, cap: nat, w: nat, l: nat) -> Result<
    Seq<u8>,
    DecodeError,
> {
    decode_from(stream_bits(input), 0, DecoderState::TagBit, 0, 0, Seq::empty(), cap, w, l)
}

/// Reads `count` bits at the absolute bit cursor `*bit_index`, most
/// significant first, and advances the cursor; returns nothing, moving
/// nothing, when fewer than `count` bits remain.
fn get_bits(input: &[u8], bit_index: &mut usize, count: u8) -> (r: Option<u16>)
    requires
        count <= 16,
        input@.len() * 8 <= usize::MAX,
        *old(bit_index) <= input@.len() * 8,
    ensures
        match r {
            None => {
                &&& *final(bit_index) == *old(bit_index)
                &&& *old(bit_index) + count > input@.len() * 8
            },
            Some(v) => {
                &&& *old(bit_index) + count <= input@.len() * 8
                &&& *final(bit_index) == *old(bit_index) + count
                &&& v == bits_val(
                    stream_bits(input@).subrange(
                        *old(bit_index) as int,
                        *old(bit_index) + count,
                    ),
                )
                &&& v < two_pow(count as nat)
            },
        },
{
    let total = input.len() * 8;
    if count as usize > total - *bit_index {
        return None;
    }
    let ghost start = *bit_index as int;
    let mut v: u16 = 0;
    let mut k: u8 = 0;
    while k < count
        invariant
            k <= count <= 16,
            input@.len() * 8 <= usize::MAX,
            0 <= start,
            *bit_index == start + k,
            start + count <= input@.len() * 8,
            v == bits_val(stream_bits(input@).subrange(start, start + k)),
            v < two_pow(k as nat),
        decreases count - k,
    {
        let b = stream_bit(input, *bit_index);
        proof {
            let s = stream_bits(input@);
            lemma_bits_val_push(s.subrange(start, start + k), b);
            assert(s.subrange(start, start + k + 1) =~= s.subrange(start, start + k).push(
                s[start + k],
            ));
            lemma_two_pow_mono((k + 1) as nat, 16);
            lemma_two_pow_16();
        }
        v = 2 * v + (if b {
            1
        } else {
            0
        });
        *bit_index = *bit_index + 1;
        k = k + 1;
    }
    proof {
        assert(stream_bits(input@).subrange(start, start + count) =~= stream_bits(
            input@,
        ).subrange(start, start + k));
    }
    Some(v)
}

/// The decoding machine's mutable state: one call's cursors and pending
/// field accumulators. The input and output buffers are passed to each step.
#[derive(Clone, Copy)]
pub struct HeatshrinkDecoder {
    cfg: Config,
    state: DecoderState,
    head_index: usize,
    bit_index: usize,
    output_index: u32,
    output_count: u32,
}

impl HeatshrinkDecoder {
    /// Machine invariant, relative to the input length.
    pub closed spec fn wf(self, ilen: nat) -> bool {
        &&& self.cfg.wf()
        &&& self.bit_index <= ilen * 8
        &&& match self.state {
            DecoderState::BackrefIndexMsb => self.cfg.window() > 8,
            DecoderState::BackrefIndexLsb => self.output_index <= 65280,
            DecoderState::BackrefCountMsb => self.cfg.lookahead() > 8 && 1 <= self.output_index
                <= 65536,
            DecoderState::BackrefCountLsb => 1 <= self.output_index <= 65536 && self.output_count
                <= 65280,
            DecoderState::YieldBackref => 1 <= self.output_index <= 65536 && 1 <= self.output_count
                <= 65536,
            _ => true,
        }
    }

    /// The distance accumulator, where the machine still reads it.
    pub closed spec fn live_idx(self) -> nat {
        match self.state {
            DecoderState::BackrefIndexLsb
            | DecoderState::BackrefCountMsb
            | DecoderState::BackrefCountLsb
            | DecoderState::YieldBackref => self.output_index as nat,
            _ => 0,
        }
    }

    /// The length accumulator, where the machine still reads it.
    pub closed spec fn live_cnt(self) -> nat {
        match self.state {
            DecoderState::BackrefCountLsb | DecoderState::YieldBackref => self.output_count as nat,
            _ => 0,
        }
    }

    /// What running the machine to completion from the current state returns.
    pub closed spec fn interp(self, input: Seq<u8>, out: Seq<u8>) -> Result<Seq<u8>, DecodeError> {
        decode_from(
            stream_bits(input),
            self.bit_index as int,
            self.state,
            self.live_idx(),
            self.live_cnt(),
            out.subrange(0, self.head_index as int),
            out.len(),
            self.cfg.window() as nat,
            self.cfg.lookahead() as nat,
        )
    }

    fn new(cfg: &Config) -> (r: Self)
        requires
            cfg.wf(),
        ensures
            r.cfg == *cfg,
            r.state is TagBit,
            r.head_index == 0,
            r.bit_index == 0,
    {
        HeatshrinkDecoder {
            cfg: *cfg,
            state: DecoderState::TagBit,
            head_index: 0,
            bit_index: 0,
            output_index: 0,
            output_count: 0,
        }
    }

    fn st_tag_bit(&mut self, input: &[u8])
        requires
            input@.len() * 8 <= usize::MAX,
            old(self).state is TagBit,
            old(self).wf(input@.len()),
        ensures
            final(self).cfg == old(self).cfg,
            final(self).head_index == old(self).head_index,
            final(self).wf(input@.len()),
            final(self).bit_index >= old(self).bit_index,
            final(self).bit_index > old(self).bit_index || state_rank(final(self).state)
                < state_rank(old(self).state),
            forall|out: Seq<u8>| final(self).interp(input@, out) == old(self).interp(input@, out),
    {
        let ghost pre = *self;
        match get_bits(input, &mut self.bit_index, 1) {
            None => {
                self.state = DecoderState::NeedMoreData;
            },
            Some(bit) => {
                if bit == 0 {
                    if self.cfg.window_sz2 > 8 {
                        self.state = DecoderState::BackrefIndexMsb;
                    } else {
                        self.output_index = 0;
                        self.state = DecoderState::BackrefIndexLsb;
                    }
                } else {
                    self.state = DecoderState::YieldLiteral;
                }
            },
        }
        proof {
            let s = stream_bits(input@);
            let i = pre.bit_index as int;
            if i + 1 <= s.len() {
                let sub = s.subrange(i, i + 1);
                assert(sub.len() == 1 && sub.last() == s[i]);
                assert(sub.drop_last() =~= Seq::<bool>::empty());
                assert(bits_val(sub.drop_last()) == 0);
                assert(bits_val(sub) == (if s[i] {
                    1nat
                } else {
                    0nat
                }));
            }
        }
    }

    fn st_yield_literal(&mut self, input: &[u8], output: &mut Vec<u8>)
        requires
            input@.len() * 8 <= usize::MAX,
            old(self).state is YieldLiteral,
            old(self).wf(input@.len()),
            old(self).head_index <= old(output)@.len(),
        ensures
            final(self).cfg == old(self).cfg,
            final(output)@.len() == old(output)@.len(),
            final(self).wf(input@.len()),
            final(self).head_index <= final(output)@.len(),
            final(self).bit_index >= old(self).bit_index,
            final(self).bit_index > old(self).bit_index || state_rank(final(self).state)
                < state_rank(old(self).state),
            final(self).interp(input@, final(output)@) == old(self).interp(input@, old(output)@),
    {
        let ghost pre = *self;
        let ghost preout = output@;
        match get_bits(input, &mut self.bit_index, 8) {
            None => {
                self.state = DecoderState::NeedMoreData;
            },
            Some(b) => {
                proof {
                    lemma_two_pow_16();
                }
                if self.head_index < output.len() {
                    output[self.head_index] = b as u8;
                    self.head_index = self.head_index + 1;
                    self.state = DecoderState::TagBit;
                    proof {
                        assert(output@.subrange(0, self.head_index as int) =~= preout.subrange(
                            0,
                            pre.head_index as int,
                        ).push(b as u8));
                    }
                } else {
                    self.state = DecoderState::OutputFull;
                }
            },
        }
    }

    fn st_backref_index_msb(&mut self, input: &[u8])
        requires
            input@.len() * 8 <= usize::MAX,
            old(self).state is BackrefIndexMsb,
            old(self).wf(input@.len()),
        ensures
            final(self).cfg == old(self).cfg,
            final(self).head_index == old(self).head_index,
            final(self).wf(input@.len()),
            final(self).bit_index >= old(self).bit_index,
            final(self).bit_index > old(self).bit_index || state_rank(final(self).state)
                < state_rank(old(self).state),
            forall|out: Seq<u8>| final(self).interp(input@, out) == old(self).interp(input@, out),
    {
        let bit_ct = self.cfg.window_sz2 - 8;
        match get_bits(input, &mut self.bit_index, bit_ct) {
            None => {
                self.state = DecoderState::NeedMoreData;
            },
            Some(hi) => {
                proof {
                    lemma_two_pow_mono(bit_ct as nat, 8);
                    lemma_two_pow_16();
                }
                self.output_index = (hi as u32) * 256;
                self.state = DecoderState::BackrefIndexLsb;
            },
        }
    }

    fn st_backref_index_lsb(&mut self, input: &[u8])
        requires
            input@.len() * 8 <= usize::MAX,
            old(self).state is BackrefIndexLsb,
            old(self).wf(input@.len()),
        ensures
            final(self).cfg == old(self).cfg,
            final(self).head_index == old(self).head_index,
            final(self).wf(input@.len()),
            final(self).bit_index >= old(self).bit_index,
            final(self).bit_index > old(self).bit_index || state_rank(final(self).state)
                < state_rank(old(self).state),
            forall|out: Seq<u8>| final(self).interp(input@, out) == old(self).interp(input@, out),
    {
        let bit_ct = if self.cfg.window_sz2 < 8 {
            self.cfg.window_sz2
        } else {
            8
        };
        match get_bits(input, &mut self.bit_index, bit_ct) {
            None => {
                self.state = DecoderState::NeedMoreData;
            },
            Some(lo) => {
                proof {
                    lemma_two_pow_mono(bit_ct as nat, 8);
                    lemma_two_pow_16();
                }
                self.output_index = self.output_index + lo as u32 + 1;
                self.output_count = 0;
                if self.cfg.lookahead_sz2 > 8 {
                    self.state = DecoderState::BackrefCountMsb;
                } else {
                    self.state = DecoderState::BackrefCountLsb;
                }
            },
        }
    }

    /// The high half of the length field is followed by its low half, so a
    /// backreference's count is read as one contiguous `l`-bit run, exactly
    /// mirroring the encoder's emission order. This transition is what keeps
    /// the two sides interoperable for lookahead exponents above 8; it is a
    /// deliberate decision, required for the round-trip law to hold over the
    /// whole configuration range.
    fn st_backref_count_msb(&mut self, input: &[u8])
        requires
            input@.len() * 8 <= usize::MAX,
            old(self).state is BackrefCountMsb,
            old(self).wf(input@.len()),
        ensures
            final(self).cfg == old(self).cfg,
            final(self).head_index == old(self).head_index,
            final(self).wf(input@.len()),
            final(self).bit_index >= old(self).bit_index,
            final(self).bit_index > old(self).bit_index || state_rank(final(self).state)
                < state_rank(old(self).state),
            forall|out: Seq<u8>| final(self).interp(input@, out) == old(self).interp(input@, out),
    {
        let bit_ct = self.cfg.lookahead_sz2 - 8;
        match get_bits(input, &mut self.bit_index, bit_ct) {
            None => {
                self.state = DecoderState::NeedMoreData;
            },
            Some(hi) => {
                proof {
                    lemma_two_pow_mono(bit_ct as nat, 8);
                    lemma_two_pow_16();
                }
                self.output_count = (hi as u32) * 256;
                self.state = DecoderState::BackrefCountLsb;
            },
        }
    }

    fn st_backref_count_lsb(&mut self, input: &[u8])
        requires
            input@.len() * 8 <= usize::MAX,
            old(self).state is BackrefCountLsb,
            old(self).wf(input@.len()),
        ensures
            final(self).cfg == old(self).cfg,
            final(self).head_index == old(self).head_index,
            final(self).wf(input@.len()),
            final(self).bit_index >= old(self).bit_index,
            final(self).bit_index > old(self).bit_index || state_rank(final(self).state)
                < state_rank(old(self).state),
            forall|out: Seq<u8>| final(self).interp(input@, out) == old(self).interp(input@, out),
    {
        let bit_ct = if self.cfg.lookahead_sz2 < 8 {
            self.cfg.lookahead_sz2
        } else {
            8
        };
        match get_bits(input, &mut self.bit_index, bit_ct) {
            None => {
                self.state = DecoderState::NeedMoreData;
            },
            Some(lo) => {
                proof {
                    lemma_two_pow_mono(bit_ct as nat, 8);
                    lemma_two_pow_16();
                }
                self.output_count = self.output_count + lo as u32 + 1;
                self.state = DecoderState::YieldBackref;
            },
        }
    }

    fn st_yield_backref(&mut self, input: &[u8], output: &mut Vec<u8>)
        requires
            input@.len() * 8 <= usize::MAX,
            old(self).state is YieldBackref,
            old(self).wf(input@.len()),
            old(self).head_index <= old(output)@.len(),
        ensures
            final(self).cfg == old(self).cfg,
            final(output)@.len() == old(output)@.len(),
            final(self).wf(input@.len()),
            final(self).head_index <= final(output)@.len(),
            final(self).bit_index >= old(self).bit_index,
            final(self).bit_index > old(self).bit_index || state_rank(final(self).state)
                < state_rank(old(self).state),
            final(self).interp(input@, final(output)@) == old(self).interp(input@, old(output)@),
    {
        let ghost pre = *self;
        let ghost preout = output@;
        if self.output_index as usize > self.head_index {
            self.state = DecoderState::IllegalBackref;
            return ;
        }
        if self.output_count as usize > output.len() - self.head_index {
            self.state = DecoderState::OutputFull;
            return ;
        }
        let dist = self.output_index as usize;
        let count = self.output_count as usize;
        let start_in = self.head_index - dist;
        let mut i: usize = 0;
        while i < count
            invariant
                i <= count,
                output@.len() <= usize::MAX,
                pre.head_index + count <= output@.len(),
                1 <= dist <= pre.head_index,
                start_in == pre.head_index - dist,
                self.head_index == pre.head_index + i,
                output@.len() == preout.len(),
                backref_extend(
                    output@.subrange(0, self.head_index as int),
                    dist as int,
                    (count - i) as int,
                ) == backref_extend(
                    preout.subrange(0, pre.head_index as int),
                    dist as int,
                    count as int,
                ),
                self.cfg == pre.cfg,
                self.state == pre.state,
                self.bit_index == pre.bit_index,
                self.output_index == pre.output_index,
                self.output_count == pre.output_count,
            decreases count - i,
        {
            let ghost cur = output@.subrange(0, self.head_index as int);
            let b = output[start_in + i];
            output[self.head_index] = b;
            proof {
                assert(cur[self.head_index - dist] == b);
                assert(output@.subrange(0, self.head_index + 1) =~= cur.push(b));
            }
            self.head_index = self.head_index + 1;
            i = i + 1;
        }
        self.state = DecoderState::TagBit;
    }

    fn decode(self, input: &[u8], output: &mut Vec<u8>) -> (r: Result<usize, DecodeError>)
        requires
            input@.len() * 8 <= usize::MAX,
            self.wf(input@.len()),
            self.head_index <= old(output)@.len(),
        ensures
            final(output)@.len() == old(output)@.len(),
            match r {
                Ok(n) => n <= final(output)@.len() && self.interp(input@, old(output)@)
                    == Ok::<Seq<u8>, DecodeError>(final(output)@.subrange(0, n as int)),
                Err(e) => self.interp(input@, old(output)@) == Err::<Seq<u8>, DecodeError>(e),
            },
    {
        let mut me = self;
        let ghost init_out = output@;
        loop
            invariant
                input@.len() * 8 <= usize::MAX,
                me.wf(input@.len()),
                me.head_index <= output@.len(),
                init_out == old(output)@,
                output@.len() == init_out.len(),
                me.interp(input@, output@) == self.interp(input@, init_out),
            decreases input@.len() * 8 - me.bit_index, state_rank(me.state),
        {
            match me.state {
                DecoderState::TagBit => me.st_tag_bit(input),
                DecoderState::YieldLiteral => me.st_yield_literal(input, output),
                DecoderState::BackrefIndexMsb => me.st_backref_index_msb(input),
                DecoderState::BackrefIndexLsb => me.st_backref_index_lsb(input),
                DecoderState::BackrefCountMsb => me.st_backref_count_msb(input),
                DecoderState::BackrefCountLsb => me.st_backref_count_lsb(input),
                DecoderState::YieldBackref => me.st_yield_backref(input, output),
                DecoderState::NeedMoreData => {
                    proof {
                        assert(me.interp(input@, output@) == Ok::<Seq<u8>, DecodeError>(
                            output@.subrange(0, me.head_index as int),
                        ));
                    }
                    return Ok(me.head_index);
                },
                DecoderState::OutputFull => {
                    proof {
                        assert(me.interp(input@, output@) == Err::<Seq<u8>, DecodeError>(
                            DecodeError::OutputFull,
                        ));
                    }
                    return Err(DecodeError::OutputFull);
                },
                DecoderState::IllegalBackref => {
                    proof {
                        assert(me.interp(input@, output@) == Err::<Seq<u8>, DecodeError>(
                            DecodeError::IllegalBackref,
                        ));
                    }
                    return Err(DecodeError::IllegalBackref);
                },
            }
        }
    }
}

/// Basic decompression call. The destination holds the backreference window,
/// so it must be big enough for the whole decompressed result, or an error is
/// returned. On success the result is the number of bytes written at the
/// start of `output`, and those bytes are exactly what [`spec_decode`] gives
/// for this input, capacity and configuration.
pub fn decode(input: &[u8], output: &mut Vec<u8>, cfg: &Config) -> (r: Result<usize, DecodeError>)
    requires
        cfg.wf(),
        input@.len() * 8 <= usize::MAX,
    ensures
        final(output)@.len() == old(output)@.len(),
        match r {
            Ok(n) => n <= final(output)@.len() && spec_decode(
                input@,
                old(output)@.len() as nat,
                cfg.window() as nat,
                cfg.lookahead() as nat,
            ) == Ok::<Seq<u8>, DecodeError>(final(output)@.subrange(0, n as int)),
            Err(e) => spec_decode(
                input@,
                old(output)@.len() as nat,
                cfg.window() as nat,
                cfg.lookahead() as nat,
            ) == Err::<Seq<u8>, DecodeError>(e),
        },
{
    let decoder = HeatshrinkDecoder::new(cfg);
    proof {
        assert(output@.subrange(0, 0) =~= Seq::<u8>::empty());
    }
    decoder.decode(input, output)
}

} // verus!

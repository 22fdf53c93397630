//! Compression: a single-pass greedy longest-match encoder producing a packed
//! bit stream of literal and backreference tokens.
//!
//! The stream is specified exactly: [`encode_tokens`] gives the token
//! sequence the greedy search selects, [`spec_encode_output`] the packed
//! bytes, and the executable encoder is proved to write exactly those bytes.

use vstd::prelude::*;
use crate::Config;
use crate::bits::{
    bits_val, byte_bits, lemma_bits_val_concat, lemma_bits_val_zeros, lemma_bits_val_of_val_bits, lemma_pack_stream_bits,
    lemma_stream_bits_push, lemma_two_pow_16, lemma_two_pow_add, lemma_two_pow_mono, lemma_val_bits_index,
    lemma_val_bits_len, lemma_val_bits_of_bits_val, exp2, pack, stream_bits, two_pow, val_bits,
};

verus! {

/// Errors that may be encountered when compressing data.
#[derive(Debug)]
pub enum EncodeError {
    /// The output buffer was not large enough to hold the compressed data.
    OutputFull,
}

/// One token of the stream: a raw byte, or a copy of `len` bytes starting
/// `dist` bytes before the current position.
pub enum Token {
    Literal(u8),
    Backref { dist: int, len: int },
}

/// Length of the common run of `inp[a..]` and `inp[b..]`, capped at `fuel`
/// and at the end of the input.
pub open spec fn match_len_at(inp: Seq<u8>, a: int, b: int, fuel: int) -> int
    decreases fuel,
{
    if fuel <= 0 || b >= inp.len() || inp[a] != inp[b] {
        0
    } else {
        1 + match_len_at(inp, a + 1, b + 1, fuel - 1)
    }
}

/// The greedy match search over candidate start positions in `[start, end)`:
/// each candidate's run length against position `head` is capped at `2^la`,
/// and a later candidate wins whenever its length is greater than or equal to
/// the best so far.
pub open spec fn best_match(inp: Seq<u8>, head: int, start: int, end: int, la: nat) -> (int, int)
    decreases end - start,
{
    if end <= start {
        (0, 0)
    } else {
        let prev = best_match(inp, head, start, end - 1, la);
        let c = match_len_at(inp, end - 1, head, two_pow(la) as int);
        if c >= prev.1 {
            (end - 1, c)
        } else {
            prev
        }
    }
}

/// The token sequence the greedy encoder emits for `inp[pos..]`: a
/// backreference whenever the best match is longer than the threshold
/// `(1 + l + w) / 8`, else one literal.
pub open spec fn encode_tokens(inp: Seq<u8>, pos: int, w: nat, l: nat) -> Seq<Token>
    decreases inp.len() - pos,
        via encode_tokens_decreases
{
    if pos < 0 || pos >= inp.len() {
        Seq::empty()
    } else {
        let start = if pos - two_pow(w) >= 0 {
            pos - two_pow(w)
        } else {
            0
        };
        let m = best_match(inp, pos, start, pos, l);
        let thr = ((1 + l + w) / 8) as int;
        if m.1 > thr {
            seq![Token::Backref { dist: pos - m.0, len: m.1 }] + encode_tokens(inp, pos + m.1, w, l)
        } else {
            seq![Token::Literal(inp[pos])] + encode_tokens(inp, pos + 1, w, l)
        }
    }
}

#[via_fn]
proof fn encode_tokens_decreases(inp: Seq<u8>, pos: int, w: nat, l: nat) {
    if 0 <= pos < inp.len() {
        let start = if pos - two_pow(w) >= 0 {
            pos - two_pow(w)
        } else {
            0
        };
        lemma_best_match_props(inp, pos, start, pos, l);
        let m = best_match(inp, pos, start, pos, l);
        if start < pos {
            lemma_match_len_bounds(inp, m.0, pos, two_pow(l) as int);
        }
    }
}

/// The bits of one token: a `1` tag and the byte for a literal; a `0` tag,
/// `dist - 1` in `w` bits and `len - 1` in `l` bits for a backreference.
pub open spec fn token_bits(t: Token, w: nat, l: nat) -> Seq<bool> {
    match t {
        Token::Literal(b) => seq![true] + val_bits(b as nat, 8),
        Token::Backref { dist, len } => seq![false] + val_bits((dist - 1) as nat, w) + val_bits(
            (len - 1) as nat,
            l,
        ),
    }
}

/// The bits of a token sequence, in stream order.
pub open spec fn tokens_bits(ts: Seq<Token>, w: nat, l: nat) -> Seq<bool>
    decreases ts.len(),
{
    if ts.len() == 0 {
        Seq::empty()
    } else {
        token_bits(ts[0], w, l) + tokens_bits(ts.skip(1), w, l)
    }
}

/// The whole unpadded bit stream for an input.
pub open spec fn spec_encode_bits(inp: Seq<u8>, w: nat, l: nat) -> Seq<bool> {
    tokens_bits(encode_tokens(inp, 0, w, l), w, l)
}

/// A bit run zero-padded in its low bits up to the next byte boundary.
pub open spec fn padded_bits(bits: Seq<bool>) -> Seq<bool> {
    bits + Seq::new(((8 - bits.len() % 8) % 8) as nat, |j: int| false)
}

/// The exact bytes the encoder produces for an input.
pub open spec fn spec_encode_output(inp: Seq<u8>, w: nat, l: nat) -> Seq<u8> {
    pack(padded_bits(spec_encode_bits(inp, w, l)))
}

pub proof fn lemma_pack_len(bits: Seq<bool>)
    ensures
        pack(bits).len() == bits.len() / 8,
    decreases bits.len(),
{
    if bits.len() >= 8 {
        lemma_pack_len(bits.skip(8));
        assert(bits.skip(8).len() == bits.len() - 8);
        assert((bits.len() - 8) / 8 + 1 == bits.len() as int / 8) by (nonlinear_arith)
            requires
                bits.len() >= 8,
        ;
    }
}

/// Matched positions agree byte for byte.
pub proof fn lemma_match_len_agrees(inp: Seq<u8>, a: int, b: int, fuel: int, j: int)
    requires
        0 <= j < match_len_at(inp, a, b, fuel),
    ensures
        inp[a + j] == inp[b + j],
    decreases fuel,
{
    if j > 0 {
        lemma_match_len_agrees(inp, a + 1, b + 1, fuel - 1, j - 1);
    }
}

pub proof fn lemma_match_len_bounds(inp: Seq<u8>, a: int, b: int, fuel: int)
    ensures
        0 <= match_len_at(inp, a, b, fuel),
        fuel >= 0 ==> match_len_at(inp, a, b, fuel) <= fuel,
        b <= inp.len() ==> b + match_len_at(inp, a, b, fuel) <= inp.len(),
    decreases fuel,
{
    if fuel > 0 && b < inp.len() && inp[a] == inp[b] {
        lemma_match_len_bounds(inp, a + 1, b + 1, fuel - 1);
    }
}

/// The greedy search yields a candidate in range, with its own match length.
pub proof fn lemma_best_match_props(inp: Seq<u8>, head: int, start: int, end: int, la: nat)
    requires
        start <= end,
    ensures
        ({
            let m = best_match(inp, head, start, end, la);
            &&& end > start ==> start <= m.0 < end && m.1 == match_len_at(
                inp,
                m.0,
                head,
                two_pow(la) as int,
            )
            &&& end <= start ==> m == (0int, 0int)
            &&& m.1 >= 0
        }),
    decreases end - start,
{
    if end > start {
        lemma_best_match_props(inp, head, start, end - 1, la);
        lemma_match_len_bounds(inp, end - 1, head, two_pow(la) as int);
    }
}

/// Each token spends at most 9 stream bits per input byte it covers: a
/// literal is 9 bits for 1 byte, and a backreference's `1 + w + l` bits cover
/// more than the threshold `(1 + l + w) / 8` bytes.
proof fn lemma_tokens_bits_len(inp: Seq<u8>, pos: int, w: nat, l: nat)
    requires
        0 <= pos <= inp.len(),
    ensures
        tokens_bits(encode_tokens(inp, pos, w, l), w, l).len() <= 9 * (inp.len() - pos),
    decreases inp.len() - pos,
{
    let toks = encode_tokens(inp, pos, w, l);
    if pos < inp.len() {
        let start = if pos - two_pow(w) >= 0 {
            pos - two_pow(w)
        } else {
            0
        };
        let m = best_match(inp, pos, start, pos, l);
        let thr = ((1 + l + w) / 8) as int;
        lemma_best_match_props(inp, pos, start, pos, l);
        if m.1 > thr {
            lemma_match_len_bounds(inp, m.0, pos, two_pow(l) as int);
            let tok = Token::Backref { dist: pos - m.0, len: m.1 };
            assert(toks[0] == tok && toks.skip(1) =~= encode_tokens(inp, pos + m.1, w, l));
            lemma_tokens_bits_len(inp, pos + m.1, w, l);
            lemma_val_bits_len((pos - m.0 - 1) as nat, w);
            lemma_val_bits_len((m.1 - 1) as nat, l);
            assert(token_bits(tok, w, l).len() == 1 + w + l);
            // with s = 1 + w + l and q = s / 8: m.1 >= q + 1 and s <= 8 * q + 7 <= 9 * (q + 1)
            assert(1 + w + l <= 9 * m.1) by (nonlinear_arith)
                requires
                    m.1 >= ((1 + l + w) / 8) as int + 1,
                    w >= 0,
                    l >= 0,
            ;
        } else {
            let tok = Token::Literal(inp[pos]);
            assert(toks[0] == tok && toks.skip(1) =~= encode_tokens(inp, pos + 1, w, l));
            lemma_tokens_bits_len(inp, pos + 1, w, l);
            lemma_val_bits_len(inp[pos] as nat, 8);
            assert(token_bits(tok, w, l).len() == 9);
        }
    }
}

/// Bound on the compressed size: the packed stream never exceeds
/// `2 * len + 16` bytes, so a destination of that size always suffices.
pub proof fn lemma_encode_output_bound(inp: Seq<u8>, w: nat, l: nat)
    ensures
        spec_encode_output(inp, w, l).len() <= 2 * inp.len() + 16,
{
    let total = spec_encode_bits(inp, w, l);
    lemma_tokens_bits_len(inp, 0, w, l);
    assert(total.len() <= 9 * inp.len());
    lemma_pack_padded_len(total);
    assert(pack(padded_bits(total)).len() * 8 < total.len() + 8);
    assert(8 * (2 * inp.len() + 16) >= 9 * inp.len() + 8) by (nonlinear_arith);
}

/// The encoder's mutable state: the byte-write cursor and the pending
/// sub-byte bit accumulator. The input and output buffers are passed to each
/// step.
#[derive(Clone, Copy)]
pub struct HeatshrinkEncoder {
    cfg: Config,
    bit_index: usize,
    bit_buf: u8,
    num_bits: u8,
}

impl HeatshrinkEncoder {
    /// Encoder invariant: at most 7 pending bits, held in the low bits of
    /// `bit_buf`, and the write cursor inside the buffer.
    pub closed spec fn wf(self, cap: nat) -> bool {
        &&& self.cfg.wf()
        &&& self.num_bits < 8
        &&& (self.bit_buf as nat) < two_pow(self.num_bits as nat)
        &&& self.bit_index <= cap
    }

    /// The pending bits, most significant first.
    pub closed spec fn pending(self) -> Seq<bool> {
        val_bits(self.bit_buf as nat, self.num_bits as nat)
    }

    /// Every bit emitted so far: the bits of the bytes already written,
    /// followed by the pending bits.
    pub closed spec fn emitted(self, out: Seq<u8>) -> Seq<bool> {
        stream_bits(out.subrange(0, self.bit_index as int)) + self.pending()
    }

    fn new(cfg: &Config) -> (r: Self)
        requires
            cfg.wf(),
        ensures
            r.cfg == *cfg,
            r.bit_index == 0,
            r.num_bits == 0,
            r.bit_buf == 0,
    {
        HeatshrinkEncoder { cfg: *cfg, bit_index: 0, bit_buf: 0, num_bits: 0 }
    }

    /// Appends one bit to the stream, writing a byte out whenever 8 bits are
    /// complete; fails exactly when that byte has nowhere to go.
    fn emit_bit(&mut self, b: bool, output: &mut Vec<u8>) -> (r: Result<(), EncodeError>)
        requires
            old(self).wf(old(output)@.len() as nat),
        ensures
            final(output)@.len() == old(output)@.len(),
            final(self).cfg == old(self).cfg,
            match r {
                Ok(()) => final(self).wf(final(output)@.len() as nat) && final(self).emitted(
                    final(output)@,
                ) == old(self).emitted(old(output)@).push(b),
                Err(_) => old(self).emitted(old(output)@).len() + 1 > 8 * old(output)@.len(),
            },
    {
        let ghost pre = *self;
        let ghost preout = output@;
        proof {
            lemma_val_bits_len(pre.bit_buf as nat, pre.num_bits as nat);
        }
        let bitv: u8 = if b {
            1
        } else {
            0
        };
        if self.num_bits == 7 {
            if self.bit_index >= output.len() {
                proof {
                    let prefix = preout.subrange(0, pre.bit_index as int);
                    assert(prefix.len() == pre.bit_index);
                    assert(pre.emitted(preout).len() == 8 * pre.bit_index + 7);
                }
                return Err(EncodeError::OutputFull);
            }
            proof {
                assert(two_pow(7) == 128) by {
                    reveal_with_fuel(two_pow, 9);
                }
            }
            let byte: u8 = 2 * self.bit_buf + bitv;
            output[self.bit_index] = byte;
            self.bit_index = self.bit_index + 1;
            self.bit_buf = 0;
            self.num_bits = 0;
            proof {
                let prefix = preout.subrange(0, pre.bit_index as int);
                assert(output@.subrange(0, self.bit_index as int) =~= prefix.push(byte));
                lemma_stream_bits_push(prefix, byte);
                assert(byte_bits(byte) == val_bits(byte as nat, 8));
                assert((byte as nat) / 2 == pre.bit_buf as nat && (byte as nat) % 2 == bitv as nat);
                assert(byte_bits(byte) == pre.pending().push(b));
                assert(self.pending() =~= Seq::<bool>::empty());
                assert(self.emitted(output@) =~= pre.emitted(preout).push(b));
            }
            Ok(())
        } else {
            let ghost oldpend = pre.pending();
            proof {
                lemma_two_pow_mono(pre.num_bits as nat, 6);
                assert(two_pow(6) == 64 && two_pow(7) == 128) by {
                    reveal_with_fuel(two_pow, 9);
                }
            }
            self.bit_buf = 2 * self.bit_buf + bitv;
            self.num_bits = self.num_bits + 1;
            proof {
                assert((self.bit_buf as nat) / 2 == pre.bit_buf as nat && (self.bit_buf as nat) % 2
                    == bitv as nat);
                assert(self.pending() == oldpend.push(b));
                assert(self.emitted(output@) =~= pre.emitted(preout).push(b));
            }
            Ok(())
        }
    }

    /// Appends the low `bit_cnt` bits of `val` to the stream, most
    /// significant first.
    fn emit_bits(&mut self, val: u16, bit_cnt: u8, output: &mut Vec<u8>) -> (r: Result<
        (),
        EncodeError,
    >)
        requires
            old(self).wf(old(output)@.len() as nat),
            bit_cnt <= 16,
            (val as nat) < two_pow(bit_cnt as nat),
        ensures
            final(output)@.len() == old(output)@.len(),
            final(self).cfg == old(self).cfg,
            match r {
                Ok(()) => final(self).wf(final(output)@.len() as nat) && final(self).emitted(
                    final(output)@,
                ) == old(self).emitted(old(output)@) + val_bits(val as nat, bit_cnt as nat),
                Err(_) => old(self).emitted(old(output)@).len() + bit_cnt > 8 * old(output)@.len(),
            },
    {
        let ghost pre = *self;
        let ghost preout = output@;
        let ghost target = val_bits(val as nat, bit_cnt as nat);
        proof {
            lemma_val_bits_len(val as nat, bit_cnt as nat);
        }
        let mut k: u8 = 0;
        while k < bit_cnt
            invariant
                k <= bit_cnt <= 16,
                (val as nat) < two_pow(bit_cnt as nat),
                target == val_bits(val as nat, bit_cnt as nat),
                target.len() == bit_cnt,
                pre == *old(self),
                preout == old(output)@,
                self.cfg == pre.cfg,
                self.wf(output@.len() as nat),
                output@.len() == preout.len(),
                self.emitted(output@) == pre.emitted(preout) + target.subrange(0, k as int),
            decreases bit_cnt - k,
        {
            let p = exp2(bit_cnt - 1 - k);
            let b = (val as u32 / p) % 2 == 1;
            proof {
                lemma_val_bits_index(val as nat, bit_cnt as nat, k as int);
            }
            match self.emit_bit(b, output) {
                Ok(()) => {},
                Err(e) => {
                    proof {
                        assert(pre.emitted(preout).len() + k + 1 > 8 * output@.len());
                    }
                    return Err(e);
                },
            }
            proof {
                assert(target.subrange(0, k + 1) =~= target.subrange(0, k as int).push(
                    target[k as int],
                ));
                assert((pre.emitted(preout) + target.subrange(0, k as int)).push(b) =~= pre.emitted(
                    preout,
                ) + target.subrange(0, k + 1));
            }
            k = k + 1;
        }
        proof {
            assert(target.subrange(0, bit_cnt as int) =~= target);
        }
        Ok(())
    }

    /// Length of the common run of `input[idx1..]` and `input[idx2..]`,
    /// capped at the lookahead size and at the end of the input.
    fn cmp(&self, input: &[u8], idx1: usize, idx2: usize) -> (r: u32)
        requires
            self.cfg.wf(),
            idx1 < idx2 <= input@.len(),
        ensures
            r == match_len_at(
                input@,
                idx1 as int,
                idx2 as int,
                two_pow(self.cfg.lookahead() as nat) as int,
            ),
    {
        let ghost la = self.cfg.lookahead() as nat;
        let ghost fuel = two_pow(la) as int;
        let size = exp2(self.cfg.lookahead_sz2) as usize;
        let rem = input.len() - idx2;
        let bound = if size < rem {
            size
        } else {
            rem
        };
        proof {
            lemma_two_pow_mono(la, 16);
            lemma_two_pow_16();
        }
        let mut i: usize = 0;
        while i < bound && input[idx1 + i] == input[idx2 + i]
            invariant
                i <= bound,
                input@.len() <= usize::MAX,
                bound <= input@.len() - idx2,
                bound == (if size < rem {
                    size as int
                } else {
                    rem as int
                }),
                size == two_pow(la),
                rem == input@.len() - idx2,
                idx1 < idx2 <= input@.len(),
                fuel == two_pow(la) as int,
                match_len_at(input@, idx1 as int, idx2 as int, fuel) == i + match_len_at(
                    input@,
                    idx1 + i,
                    idx2 + i,
                    fuel - i,
                ),
            decreases bound - i,
        {
            i = i + 1;
        }
        proof {
            lemma_match_len_bounds(input@, idx1 + i, idx2 + i, fuel - i);
            if i < bound {
                assert(match_len_at(input@, idx1 + i, idx2 + i, fuel - i) == 0);
            } else {
                assert(i == bound);
                assert(match_len_at(input@, idx1 + i, idx2 + i, fuel - i) == 0);
            }
            lemma_two_pow_mono(la, 16);
            lemma_two_pow_16();
        }
        i as u32
    }

    /// The greedy search over the window before `head`; a later candidate
    /// wins on equal lengths.
    fn search(&self, input: &[u8], head: usize) -> (r: (usize, u32))
        requires
            self.cfg.wf(),
            head <= input@.len(),
        ensures
            ({
                let start = if head - two_pow(self.cfg.window() as nat) >= 0 {
                    head - two_pow(self.cfg.window() as nat)
                } else {
                    0
                };
                let m = best_match(
                    input@,
                    head as int,
                    start,
                    head as int,
                    self.cfg.lookahead() as nat,
                );
                r.0 == m.0 && r.1 == m.1
            }),
    {
        let ghost la = self.cfg.lookahead() as nat;
        let wsize = exp2(self.cfg.window_sz2) as usize;
        let start = if wsize > head {
            0
        } else {
            head - wsize
        };
        let mut best_pos: usize = 0;
        let mut best_len: u32 = 0;
        let mut pos = start;
        while pos < head
            invariant
                start <= pos <= head <= input@.len(),
                self.cfg.wf(),
                la == self.cfg.lookahead() as nat,
                best_pos as int == best_match(input@, head as int, start as int, pos as int, la).0,
                best_len as int == best_match(input@, head as int, start as int, pos as int, la).1,
            decreases head - pos,
        {
            let clen = self.cmp(input, pos, head);
            if clen >= best_len {
                best_pos = pos;
                best_len = clen;
            }
            pos = pos + 1;
        }
        (best_pos, best_len)
    }
}

/// Basic compression call. The destination must be large enough to hold the
/// whole compressed stream, or an error is returned. On success the result
/// is the number of bytes written at the start of `output`, and those bytes
/// are exactly [`spec_encode_output`] for this input and configuration.
pub fn encode(input: &[u8], output: &mut Vec<u8>, cfg: &Config) -> (r: Result<usize, EncodeError>)
    requires
        cfg.wf(),
    ensures
        final(output)@.len() == old(output)@.len(),
        match r {
            Ok(n) => {
                let target = spec_encode_output(
                    input@,
                    cfg.window() as nat,
                    cfg.lookahead() as nat,
                );
                &&& n == target.len()
                &&& n <= final(output)@.len()
                &&& final(output)@.subrange(0, n as int) == target
            },
            Err(_) => spec_encode_output(input@, cfg.window() as nat, cfg.lookahead() as nat).len()
                > old(output)@.len(),
        },
{
    let ghost w = cfg.window() as nat;
    let ghost l = cfg.lookahead() as nat;
    let ghost total = spec_encode_bits(input@, w, l);
    let ghost cap = output@.len();
    let mut me = HeatshrinkEncoder::new(cfg);
    let threshold: u32 = ((1 + cfg.lookahead_sz2 + cfg.window_sz2) / 8) as u32;
    let mut pos: usize = 0;
    proof {
        assert(output@.subrange(0, 0) =~= Seq::<u8>::empty());
        assert(me.emitted(output@) =~= Seq::<bool>::empty());
        assert(me.emitted(output@) + tokens_bits(encode_tokens(input@, 0, w, l), w, l) =~= total);
    }
    while pos < input.len()
        invariant
            pos <= input@.len(),
            me.cfg == *cfg,
            cfg.wf(),
            w == cfg.window() as nat,
            l == cfg.lookahead() as nat,
            threshold == ((1 + l + w) / 8) as int,
            me.wf(output@.len() as nat),
            output@.len() == cap == old(output)@.len(),
            total == spec_encode_bits(input@, w, l),
            me.emitted(output@) + tokens_bits(encode_tokens(input@, pos as int, w, l), w, l)
                == total,
        decreases input@.len() - pos,
    {
        let ghost emit0 = me.emitted(output@);
        let ghost toks = encode_tokens(input@, pos as int, w, l);
        let (spos, mlen) = me.search(input, pos);
        proof {
            let start = if pos - two_pow(w) >= 0 {
                pos - two_pow(w)
            } else {
                0
            };
            lemma_best_match_props(input@, pos as int, start, pos as int, l);
            lemma_two_pow_mono(l, 16);
            lemma_two_pow_mono(w, 16);
            lemma_two_pow_16();
        }
        if mlen > threshold {
            let ghost tok = Token::Backref { dist: pos - spos, len: mlen as int };
            proof {
                assert(toks == seq![tok] + encode_tokens(input@, pos + mlen, w, l));
                assert(toks[0] == tok && toks.skip(1) =~= encode_tokens(input@, pos + mlen, w, l));
                assert(tokens_bits(toks, w, l) == token_bits(tok, w, l) + tokens_bits(
                    encode_tokens(input@, pos + mlen, w, l),
                    w,
                    l,
                ));
                lemma_match_len_bounds(input@, spos as int, pos as int, two_pow(l) as int);
                lemma_val_bits_len((pos - spos - 1) as nat, w);
                lemma_val_bits_len((mlen - 1) as nat, l);
            }
            let dist_code: u16 = (pos - spos - 1) as u16;
            let len_code: u16 = (mlen - 1) as u16;
            match me.emit_bit(false, output) {
                Ok(()) => {},
                Err(e) => {
                    proof {
                        lemma_token_suffix_len(emit0, toks, total, w, l, 1);
                    }
                    return Err(EncodeError::OutputFull);
                },
            }
            match me.emit_bits(dist_code, cfg.window_sz2, output) {
                Ok(()) => {},
                Err(e) => {
                    proof {
                        lemma_token_suffix_len(emit0, toks, total, w, l, 1 + w as int);
                    }
                    return Err(EncodeError::OutputFull);
                },
            }
            match me.emit_bits(len_code, cfg.lookahead_sz2, output) {
                Ok(()) => {},
                Err(e) => {
                    proof {
                        lemma_token_suffix_len(emit0, toks, total, w, l, 1 + w as int + l as int);
                    }
                    return Err(EncodeError::OutputFull);
                },
            }
            proof {
                assert(emit0.push(false) =~= emit0 + seq![false]);
                assert((emit0 + seq![false]) + val_bits((pos - spos - 1) as nat, w) + val_bits(
                    (mlen - 1) as nat,
                    l,
                ) =~= emit0 + token_bits(tok, w, l));
                assert(me.emitted(output@) == emit0 + token_bits(tok, w, l));
            }
            pos = pos + mlen as usize;
        } else {
            let ghost tok = Token::Literal(input@[pos as int]);
            proof {
                assert(toks == seq![tok] + encode_tokens(input@, pos + 1, w, l));
                assert(toks[0] == tok && toks.skip(1) =~= encode_tokens(input@, pos + 1, w, l));
                assert(tokens_bits(toks, w, l) == token_bits(tok, w, l) + tokens_bits(
                    encode_tokens(input@, pos + 1, w, l),
                    w,
                    l,
                ));
                lemma_val_bits_len(input@[pos as int] as nat, 8);
            }
            let byte = input[pos];
            match me.emit_bit(true, output) {
                Ok(()) => {},
                Err(e) => {
                    proof {
                        lemma_token_suffix_len(emit0, toks, total, w, l, 1);
                    }
                    return Err(EncodeError::OutputFull);
                },
            }
            match me.emit_bits(byte as u16, 8, output) {
                Ok(()) => {},
                Err(e) => {
                    proof {
                        lemma_token_suffix_len(emit0, toks, total, w, l, 9);
                    }
                    return Err(EncodeError::OutputFull);
                },
            }
            proof {
                assert(emit0.push(true) =~= emit0 + seq![true]);
                assert((emit0 + seq![true]) + val_bits(byte as nat, 8) =~= emit0 + token_bits(
                    tok,
                    w,
                    l,
                ));
                assert(me.emitted(output@) == emit0 + token_bits(tok, w, l));
            }
            pos = pos + 1;
        }
    }
    proof {
        assert(encode_tokens(input@, pos as int, w, l) =~= Seq::<Token>::empty());
        assert(me.emitted(output@) + tokens_bits(Seq::<Token>::empty(), w, l) =~= me.emitted(
            output@,
        ));
        assert(me.emitted(output@) == total);
    }
    flush_and_finish(me, output, Ghost(total))
}

/// Flushes the pending sub-byte bits as one final zero-padded byte and
/// returns the written length.
fn flush_and_finish(me: HeatshrinkEncoder, output: &mut Vec<u8>, Ghost(total): Ghost<Seq<bool>>)
    -> (r: Result<usize, EncodeError>)
    requires
        me.wf(old(output)@.len() as nat),
        me.emitted(old(output)@) == total,
    ensures
        final(output)@.len() == old(output)@.len(),
        match r {
            Ok(n) => {
                let target = pack(padded_bits(total));
                &&& n == target.len()
                &&& n <= final(output)@.len()
                &&& final(output)@.subrange(0, n as int) == target
            },
            Err(_) => pack(padded_bits(total)).len() > old(output)@.len(),
        },
{
    let mut me = me;
    let ghost preout = output@;
    proof {
        lemma_val_bits_len(me.bit_buf as nat, me.num_bits as nat);
        assert(total.len() == 8 * me.bit_index + me.num_bits);
        assert(total.len() % 8 == me.num_bits as int) by (nonlinear_arith)
            requires
                total.len() == 8 * me.bit_index + me.num_bits,
                0 <= me.num_bits < 8,
        ;
    }
    if me.num_bits > 0 {
        if me.bit_index >= output.len() {
            proof {
                lemma_pack_len(padded_bits(total));
                assert(padded_bits(total).len() == 8 * me.bit_index + 8);
                assert(8 * me.bit_index as int + 8 == 8 * (me.bit_index + 1));
                assert((8 * (me.bit_index as int + 1)) / 8 == me.bit_index + 1) by (
                nonlinear_arith);
            }
            return Err(EncodeError::OutputFull);
        }
        let pad = exp2(8 - me.num_bits) as u8;
        proof {
            lemma_two_pow_mono((8 - me.num_bits) as nat, 7);
            assert(two_pow(7) == 128 && two_pow(8) == 256) by {
                reveal_with_fuel(two_pow, 9);
            }
            lemma_two_pow_add(me.num_bits as nat, (8 - me.num_bits) as nat);
            assert(two_pow(me.num_bits as nat) * two_pow((8 - me.num_bits) as nat) == 256);
            assert((me.bit_buf as nat) * two_pow((8 - me.num_bits) as nat) < 256) by (
            nonlinear_arith)
                requires
                    (me.bit_buf as nat) < two_pow(me.num_bits as nat),
                    two_pow(me.num_bits as nat) * two_pow((8 - me.num_bits) as nat) == 256,
            ;
        }
        let ghost pre = me;
        let byte: u8 = me.bit_buf * pad;
        output[me.bit_index] = byte;
        me.bit_index = me.bit_index + 1;
        me.num_bits = 0;
        me.bit_buf = 0;
        proof {
            let zeros = Seq::new(((8 - total.len() % 8) % 8) as nat, |j: int| false);
            let s = pre.pending() + zeros;
            let prefix = preout.subrange(0, pre.bit_index as int);
            lemma_bits_val_zeros(((8 - total.len() % 8) % 8) as nat);
            lemma_bits_val_concat(pre.pending(), zeros);
            lemma_bits_val_of_val_bits(pre.bit_buf as nat, pre.num_bits as nat);
            assert(bits_val(s) == byte as nat);
            assert(s.len() == 8);
            lemma_val_bits_of_bits_val(s);
            assert(byte_bits(byte) == s);
            assert(output@.subrange(0, me.bit_index as int) =~= prefix.push(byte));
            lemma_stream_bits_push(prefix, byte);
            assert(stream_bits(output@.subrange(0, me.bit_index as int)) =~= (stream_bits(prefix)
                + pre.pending()) + zeros);
            assert(stream_bits(output@.subrange(0, me.bit_index as int)) == padded_bits(total));
            lemma_pack_stream_bits(output@.subrange(0, me.bit_index as int));
            assert(pack(padded_bits(total)) == output@.subrange(0, me.bit_index as int));
        }
        Ok(me.bit_index)
    } else {
        proof {
            let prefix = output@.subrange(0, me.bit_index as int);
            assert(me.pending() =~= Seq::<bool>::empty());
            assert(stream_bits(prefix) =~= total);
            assert(padded_bits(total) =~= total);
            lemma_pack_stream_bits(prefix);
            assert(pack(padded_bits(total)) == prefix);
        }
        Ok(me.bit_index)
    }
}

/// When an emit inside a token fails, the whole stream cannot fit: the bits
/// already emitted plus the first `used` bits of the current token already
/// exceed the buffer.
proof fn lemma_token_suffix_len(
    emit0: Seq<bool>,
    toks: Seq<Token>,
    total: Seq<bool>,
    w: nat,
    l: nat,
    used: int,
)
    requires
        emit0 + tokens_bits(toks, w, l) == total,
        toks.len() > 0,
        used <= token_bits(toks[0], w, l).len(),
    ensures
        total.len() >= emit0.len() + used,
        pack(padded_bits(total)).len() * 8 >= total.len(),
{
    assert(tokens_bits(toks, w, l) == token_bits(toks[0], w, l) + tokens_bits(toks.skip(1), w, l));
    lemma_pack_padded_len(total);
}

/// The packed padded stream holds every stream bit.
proof fn lemma_pack_padded_len(total: Seq<bool>)
    ensures
        pack(padded_bits(total)).len() * 8 >= total.len(),
        pack(padded_bits(total)).len() * 8 < total.len() + 8,
{
    lemma_pack_len(padded_bits(total));
    let p = padded_bits(total).len();
    assert(p % 8 == 0) by (nonlinear_arith)
        requires
            p == total.len() + (8 - total.len() % 8) % 8,
    ;
    assert(p / 8 * 8 == p) by (nonlinear_arith)
        requires
            p % 8 == 0,
    ;
    assert(p < total.len() + 8);
}

} // verus!

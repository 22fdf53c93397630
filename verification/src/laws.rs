//! Laws relating the encoder and the decoder: a decoded backreference step
//! is exactly the guarded sequential copy, and decoding an encoded stream
//! gives the original input back.

use vstd::prelude::*;
use crate::bits::{
    bits_val, lemma_bits_val_concat, lemma_bits_val_of_val_bits, lemma_stream_bits_pack,
    lemma_two_pow_16, lemma_two_pow_pos, lemma_val_bits_len, stream_bits, two_pow, val_bits,
};
use crate::decoder::{backref_extend, decode_from, spec_decode, DecodeError, DecoderState};
use crate::encoder::{
    best_match, encode_tokens, lemma_best_match_props, lemma_match_len_agrees,
    lemma_match_len_bounds, padded_bits, spec_encode_bits, spec_encode_output, token_bits,
    tokens_bits, Token,
};

verus! {

/// A backreference step of the decoding machine fails with `IllegalBackref`
/// exactly when its distance exceeds the bytes produced so far; with the
/// distance in range it fails with `OutputFull` exactly when the copy would
/// pass the output capacity, and otherwise appends the sequential copy and
/// continues.
pub proof fn lemma_backref_exactness(
    bits: Seq<bool>,
    i: int,
    dist: nat,
    cnt: nat,
    out: Seq<u8>,
    cap: nat,
    w: nat,
    l: nat,
)
    requires
        0 <= i <= bits.len(),
    ensures
        decode_from(bits, i, DecoderState::YieldBackref, dist, cnt, out, cap, w, l) == (if dist
            > out.len() {
            Err::<Seq<u8>, DecodeError>(DecodeError::IllegalBackref)
        } else if out.len() + cnt > cap {
            Err::<Seq<u8>, DecodeError>(DecodeError::OutputFull)
        } else {
            decode_from(
                bits,
                i,
                DecoderState::TagBit,
                0,
                0,
                backref_extend(out, dist as int, cnt as int),
                cap,
                w,
                l,
            )
        }),
{
}

/// The sequential copy of a match reproduces the matched input run: if the
/// output so far is `inp.take(q)` and the `c` bytes at `spos` match those at
/// `pos`, copying the remaining `pos + c - q` bytes at distance `pos - spos`
/// extends the output to `inp.take(pos + c)`.
proof fn lemma_backref_extend_copies(inp: Seq<u8>, spos: int, pos: int, c: int, q: int)
    requires
        0 <= spos < pos,
        pos + c <= inp.len(),
        forall|j: int| 0 <= j < c ==> #[trigger] inp[spos + j] == inp[pos + j],
        pos <= q <= pos + c,
    ensures
        backref_extend(inp.take(q), pos - spos, pos + c - q) == inp.take(pos + c),
    decreases pos + c - q,
{
    if q < pos + c {
        let d = pos - spos;
        let out = inp.take(q);
        let j = q - pos;
        assert(inp[spos + j] == inp[pos + j]);
        assert(out[out.len() - d] == inp[q - d]);
        assert(q - d == spos + j);
        assert(out[out.len() - d] == inp[q]);
        assert(out.push(inp[q]) =~= inp.take(q + 1));
        lemma_backref_extend_copies(inp, spos, pos, c, q + 1);
    } else {
        assert(backref_extend(inp.take(q), pos - spos, 0) == inp.take(q));
    }
}

/// A run of bits equal to a concatenation splits at the boundary.
proof fn lemma_subrange_split(bits: Seq<bool>, i: int, x: Seq<bool>, y: Seq<bool>)
    requires
        0 <= i,
        i + x.len() + y.len() <= bits.len(),
        bits.subrange(i, i + x.len() + y.len()) == x + y,
    ensures
        bits.subrange(i, i + x.len()) == x,
        bits.subrange(i + x.len(), i + x.len() + y.len()) == y,
{
    let whole = bits.subrange(i, i + x.len() + y.len());
    assert(bits.subrange(i, i + x.len()) =~= x) by {
        assert forall|k: int| 0 <= k < x.len() implies bits.subrange(i, i + x.len())[k] == x[k] by {
            assert(whole[k] == (x + y)[k]);
        }
    }
    assert(bits.subrange(i + x.len(), i + x.len() + y.len()) =~= y) by {
        assert forall|k: int| 0 <= k < y.len() implies bits.subrange(
            i + x.len(),
            i + x.len() + y.len(),
        )[k] == y[k] by {
            assert(whole[x.len() + k] == (x + y)[x.len() + k]);
        }
    }
}

/// Reading a `width`-bit field whose bits are `val_bits(v, width)` through
/// the machine's high/low split yields `v` plus one.
proof fn lemma_field_split(bits: Seq<bool>, i: int, width: nat, v: nat)
    requires
        0 <= i,
        i + width <= bits.len(),
        1 <= width <= 16,
        v < two_pow(width),
        bits.subrange(i, i + width) == val_bits(v, width),
    ensures
        width > 8 ==> bits_val(bits.subrange(i, i + width - 8)) * 256 + bits_val(
            bits.subrange(i + width - 8, i + width),
        ) == v,
        width <= 8 ==> bits_val(bits.subrange(i, i + width)) == v,
{
    let field = bits.subrange(i, i + width);
    lemma_val_bits_len(v, width);
    lemma_bits_val_of_val_bits(v, width);
    if width > 8 {
        let hi = field.subrange(0, width - 8);
        let lo = field.subrange(width - 8, width as int);
        assert(field =~= hi + lo);
        lemma_bits_val_concat(hi, lo);
        assert(two_pow(8) == 256) by {
            lemma_two_pow_16();
        }
        assert(bits_val(hi) * 256 + bits_val(lo) == v);
        assert(bits.subrange(i, i + width - 8) =~= hi);
        assert(bits.subrange(i + width - 8, i + width) =~= lo);
    }
}

/// Decoding one literal token: a `1` tag and 8 byte bits append the byte and
/// return to the tag state.
proof fn lemma_decode_literal_step(
    bits: Seq<bool>,
    i: int,
    out: Seq<u8>,
    cap: nat,
    w: nat,
    l: nat,
    b: u8,
)
    requires
        0 <= i,
        i + 9 <= bits.len(),
        bits[i] == true,
        bits.subrange(i + 1, i + 9) == val_bits(b as nat, 8),
        out.len() < cap,
    ensures
        decode_from(bits, i, DecoderState::TagBit, 0, 0, out, cap, w, l) == decode_from(
            bits,
            i + 9,
            DecoderState::TagBit,
            0,
            0,
            out.push(b),
            cap,
            w,
            l,
        ),
{
    lemma_two_pow_16();
    lemma_bits_val_of_val_bits(b as nat, 8);
    assert(bits_val(bits.subrange(i + 1, i + 9)) == b as nat);
    assert(decode_from(bits, i, DecoderState::TagBit, 0, 0, out, cap, w, l) == decode_from(
        bits,
        i + 1,
        DecoderState::YieldLiteral,
        0,
        0,
        out,
        cap,
        w,
        l,
    ));
}

/// Decoding one backreference token: a `0` tag, the `w` distance bits and
/// the `l` length bits perform the guarded sequential copy and return to the
/// tag state.
proof fn lemma_decode_backref_step(
    bits: Seq<bool>,
    i: int,
    out: Seq<u8>,
    cap: nat,
    w: nat,
    l: nat,
    d: int,
    c: int,
)
    requires
        1 <= w <= 16,
        1 <= l <= 16,
        0 <= i,
        i + 1 + w + l <= bits.len(),
        bits[i] == false,
        bits.subrange(i + 1, i + 1 + w) == val_bits((d - 1) as nat, w),
        bits.subrange(i + 1 + w, i + 1 + w + l) == val_bits((c - 1) as nat, l),
        1 <= d <= out.len(),
        d - 1 < two_pow(w),
        1 <= c,
        c - 1 < two_pow(l),
        out.len() + c <= cap,
    ensures
        decode_from(bits, i, DecoderState::TagBit, 0, 0, out, cap, w, l) == decode_from(
            bits,
            i + 1 + w + l,
            DecoderState::TagBit,
            0,
            0,
            backref_extend(out, d, c),
            cap,
            w,
            l,
        ),
{
    lemma_field_split(bits, i + 1, w, (d - 1) as nat);
    lemma_field_split(bits, i + 1 + w, l, (c - 1) as nat);
    let iw = i + 1 + w;
    // after the index states the distance accumulator holds d
    if w > 8 {
        assert(decode_from(bits, i, DecoderState::TagBit, 0, 0, out, cap, w, l) == decode_from(
            bits,
            i + 1,
            DecoderState::BackrefIndexMsb,
            0,
            0,
            out,
            cap,
            w,
            l,
        ));
        let hi = bits_val(bits.subrange(i + 1, i + 1 + w - 8));
        let lo = bits_val(bits.subrange(i + 1 + w - 8, iw));
        assert(decode_from(bits, i + 1, DecoderState::BackrefIndexMsb, 0, 0, out, cap, w, l)
            == decode_from(
            bits,
            i + 1 + w - 8,
            DecoderState::BackrefIndexLsb,
            hi * 256,
            0,
            out,
            cap,
            w,
            l,
        ));
        assert(hi * 256 + lo + 1 == d);
        assert(decode_from(
            bits,
            i + 1 + w - 8,
            DecoderState::BackrefIndexLsb,
            hi * 256,
            0,
            out,
            cap,
            w,
            l,
        ) == decode_from(
            bits,
            iw,
            if l > 8 {
                DecoderState::BackrefCountMsb
            } else {
                DecoderState::BackrefCountLsb
            },
            d as nat,
            0,
            out,
            cap,
            w,
            l,
        ));
    } else {
        assert(decode_from(bits, i, DecoderState::TagBit, 0, 0, out, cap, w, l) == decode_from(
            bits,
            i + 1,
            DecoderState::BackrefIndexLsb,
            0,
            0,
            out,
            cap,
            w,
            l,
        ));
        let lo = bits_val(bits.subrange(i + 1, iw));
        assert(lo + 1 == d);
        assert(decode_from(bits, i + 1, DecoderState::BackrefIndexLsb, 0, 0, out, cap, w, l)
            == decode_from(
            bits,
            iw,
            if l > 8 {
                DecoderState::BackrefCountMsb
            } else {
                DecoderState::BackrefCountLsb
            },
            d as nat,
            0,
            out,
            cap,
            w,
            l,
        ));
    }
    // after the count states the length accumulator holds c
    if l > 8 {
        let hi = bits_val(bits.subrange(iw, iw + l - 8));
        let lo = bits_val(bits.subrange(iw + l - 8, iw + l));
        assert(decode_from(bits, iw, DecoderState::BackrefCountMsb, d as nat, 0, out, cap, w, l)
            == decode_from(
            bits,
            iw + l - 8,
            DecoderState::BackrefCountLsb,
            d as nat,
            hi * 256,
            out,
            cap,
            w,
            l,
        ));
        assert(hi * 256 + lo + 1 == c);
        assert(decode_from(
            bits,
            iw + l - 8,
            DecoderState::BackrefCountLsb,
            d as nat,
            hi * 256,
            out,
            cap,
            w,
            l,
        ) == decode_from(
            bits,
            iw + l,
            DecoderState::YieldBackref,
            d as nat,
            c as nat,
            out,
            cap,
            w,
            l,
        ));
    } else {
        let lo = bits_val(bits.subrange(iw, iw + l));
        assert(lo + 1 == c);
        assert(decode_from(bits, iw, DecoderState::BackrefCountLsb, d as nat, 0, out, cap, w, l)
            == decode_from(
            bits,
            iw + l,
            DecoderState::YieldBackref,
            d as nat,
            c as nat,
            out,
            cap,
            w,
            l,
        ));
    }
    lemma_backref_exactness(bits, iw + l, d as nat, c as nat, out, cap, w, l);
}

/// Up to 7 zero padding bits never complete a token: with `w + l >= 7` some
/// field read runs out of bits first, which is the clean end of the stream.
proof fn lemma_decode_padding(bits: Seq<bool>, i: int, out: Seq<u8>, cap: nat, w: nat, l: nat)
    requires
        1 <= w <= 16,
        1 <= l <= 16,
        w + l >= 7,
        0 <= i <= bits.len(),
        bits.len() - i <= 7,
        forall|j: int| i <= j < bits.len() ==> !bits[j],
    ensures
        decode_from(bits, i, DecoderState::TagBit, 0, 0, out, cap, w, l) == Ok::<
            Seq<u8>,
            DecodeError,
        >(out),
{
    let len = bits.len() as int;
    if i + 1 > len {
    } else {
        assert(!bits[i]);
        let run0 = decode_from(bits, i, DecoderState::TagBit, 0, 0, out, cap, w, l);
        if w > 8 {
            let n1: int = w - 8;
            assert(run0 == decode_from(bits, i + 1, DecoderState::BackrefIndexMsb, 0, 0, out, cap, w, l));
            if i + 1 + n1 > len {
                assert(decode_from(bits, i + 1, DecoderState::BackrefIndexMsb, 0, 0, out, cap, w, l)
                    == Ok::<Seq<u8>, DecodeError>(out));
            } else {
                let hi = bits_val(bits.subrange(i + 1, i + 1 + n1));
                assert(decode_from(bits, i + 1, DecoderState::BackrefIndexMsb, 0, 0, out, cap, w, l)
                    == decode_from(bits, i + 1 + n1, DecoderState::BackrefIndexLsb, hi * 256, 0, out, cap, w, l));
                assert(i + 1 + n1 + 8 > len);
                assert(decode_from(bits, i + 1 + n1, DecoderState::BackrefIndexLsb, hi * 256, 0, out, cap, w, l)
                    == Ok::<Seq<u8>, DecodeError>(out));
            }
        } else {
            assert(run0 == decode_from(bits, i + 1, DecoderState::BackrefIndexLsb, 0, 0, out, cap, w, l));
            if i + 1 + w > len {
                assert(decode_from(bits, i + 1, DecoderState::BackrefIndexLsb, 0, 0, out, cap, w, l)
                    == Ok::<Seq<u8>, DecodeError>(out));
            } else {
                let lo = bits_val(bits.subrange(i + 1, i + 1 + w));
                let i2 = i + 1 + w;
                if l > 8 {
                    assert(decode_from(bits, i + 1, DecoderState::BackrefIndexLsb, 0, 0, out, cap, w, l)
                        == decode_from(bits, i2, DecoderState::BackrefCountMsb, lo + 1, 0, out, cap, w, l));
                    let n2: int = l - 8;
                    if i2 + n2 > len {
                        assert(decode_from(bits, i2, DecoderState::BackrefCountMsb, lo + 1, 0, out, cap, w, l)
                            == Ok::<Seq<u8>, DecodeError>(out));
                    } else {
                        let hi2 = bits_val(bits.subrange(i2, i2 + n2));
                        assert(decode_from(bits, i2, DecoderState::BackrefCountMsb, lo + 1, 0, out, cap, w, l)
                            == decode_from(bits, i2 + n2, DecoderState::BackrefCountLsb, lo + 1, hi2 * 256, out, cap, w, l));
                        assert(i2 + n2 + 8 > len);
                        assert(decode_from(bits, i2 + n2, DecoderState::BackrefCountLsb, lo + 1, hi2 * 256, out, cap, w, l)
                            == Ok::<Seq<u8>, DecodeError>(out));
                    }
                } else {
                    assert(decode_from(bits, i + 1, DecoderState::BackrefIndexLsb, 0, 0, out, cap, w, l)
                        == decode_from(bits, i2, DecoderState::BackrefCountLsb, lo + 1, 0, out, cap, w, l));
                    assert(i2 + l > len);
                    assert(decode_from(bits, i2, DecoderState::BackrefCountLsb, lo + 1, 0, out, cap, w, l)
                        == Ok::<Seq<u8>, DecodeError>(out));
                }
            }
        }
    }
}

/// Decoding the rest of the encoded stream from a position whose prefix has
/// already been reproduced yields the whole input.
#[verifier::rlimit(100)]
proof fn lemma_round_trip_from(
    inp: Seq<u8>,
    pos: int,
    bits: Seq<bool>,
    i: int,
    cap: nat,
    w: nat,
    l: nat,
)
    requires
        1 <= w <= 16,
        1 <= l <= 16,
        w + l >= 7,
        cap >= inp.len(),
        0 <= pos <= inp.len(),
        0 <= i <= bits.len(),
        i + tokens_bits(encode_tokens(inp, pos, w, l), w, l).len() <= bits.len(),
        bits.subrange(i, i + tokens_bits(encode_tokens(inp, pos, w, l), w, l).len())
            == tokens_bits(encode_tokens(inp, pos, w, l), w, l),
        bits.len() - (i + tokens_bits(encode_tokens(inp, pos, w, l), w, l).len()) <= 7,
        forall|j: int|
            i + tokens_bits(encode_tokens(inp, pos, w, l), w, l).len() <= j < bits.len()
                ==> !bits[j],
    ensures
        decode_from(bits, i, DecoderState::TagBit, 0, 0, inp.take(pos), cap, w, l) == Ok::<
            Seq<u8>,
            DecodeError,
        >(inp),
    decreases inp.len() - pos,
{
    let toks = encode_tokens(inp, pos, w, l);
    let tb = tokens_bits(toks, w, l);
    if pos == inp.len() {
        assert(toks =~= Seq::<Token>::empty());
        assert(tb.len() == 0);
        lemma_decode_padding(bits, i, inp.take(pos), cap, w, l);
        assert(inp.take(pos) =~= inp);
    } else {
        let start = if pos - two_pow(w) >= 0 {
            pos - two_pow(w)
        } else {
            0
        };
        let m = best_match(inp, pos, start, pos, l);
        let thr = ((1 + l + w) / 8) as int;
        lemma_best_match_props(inp, pos, start, pos, l);
        let tok = toks[0];
        let rest = toks.skip(1);
        let tokb = token_bits(tok, w, l);
        let restb = tokens_bits(rest, w, l);
        assert(tb == tokb + restb);
        if m.1 > thr {
            // one backreference token
            let spos = m.0;
            let c = m.1;
            let d = pos - spos;
            assert(toks == seq![Token::Backref { dist: d, len: c }] + encode_tokens(
                inp,
                pos + c,
                w,
                l,
            ));
            assert(tok == Token::Backref { dist: d, len: c });
            assert(rest =~= encode_tokens(inp, pos + c, w, l));
            lemma_match_len_bounds(inp, spos, pos, two_pow(l) as int);
            lemma_val_bits_len((d - 1) as nat, w);
            lemma_val_bits_len((c - 1) as nat, l);
            let dfield = val_bits((d - 1) as nat, w);
            let cfield = val_bits((c - 1) as nat, l);
            let a = seq![false] + dfield;
            assert(tokb == a + cfield);
            assert(tokb.len() == 1 + w + l);
            lemma_subrange_split(bits, i, tokb, restb);
            lemma_subrange_split(bits, i, a, cfield);
            lemma_subrange_split(bits, i, seq![false], dfield);
            assert(bits.subrange(i, i + 1)[0] == bits[i]);
            assert(bits[i] == false);
            assert(bits.subrange(i + 1, i + 1 + w) == dfield);
            assert(bits.subrange(i + 1 + w, i + 1 + w + l) == cfield);
            lemma_two_pow_pos(w);
            assert(d - 1 < two_pow(w));
            assert(c - 1 < two_pow(l));
            lemma_decode_backref_step(bits, i, inp.take(pos), cap, w, l, d, c);
            assert forall|j: int| 0 <= j < c implies #[trigger] inp[spos + j] == inp[pos + j] by {
                lemma_match_len_agrees(inp, spos, pos, two_pow(l) as int, j);
            }
            lemma_backref_extend_copies(inp, spos, pos, c, pos);
            assert(backref_extend(inp.take(pos), d, c) == inp.take(pos + c));
            let i2 = i + 1 + w + l;
            assert(bits.subrange(i2, i2 + restb.len()) == restb);
            lemma_round_trip_from(inp, pos + c, bits, i2, cap, w, l);
        } else {
            // one literal token
            let b = inp[pos];
            assert(toks == seq![Token::Literal(b)] + encode_tokens(inp, pos + 1, w, l));
            assert(tok == Token::Literal(b));
            assert(rest =~= encode_tokens(inp, pos + 1, w, l));
            lemma_val_bits_len(b as nat, 8);
            let bfield = val_bits(b as nat, 8);
            assert(tokb == seq![true] + bfield);
            assert(tokb.len() == 9);
            lemma_subrange_split(bits, i, tokb, restb);
            lemma_subrange_split(bits, i, seq![true], bfield);
            assert(bits.subrange(i, i + 1)[0] == bits[i]);
            assert(bits[i] == true);
            assert(bits.subrange(i + 1, i + 9) == bfield);
            lemma_decode_literal_step(bits, i, inp.take(pos), cap, w, l, b);
            assert(inp.take(pos).push(b) =~= inp.take(pos + 1));
            assert(bits.subrange(i + 9, i + 9 + restb.len()) == restb);
            lemma_round_trip_from(inp, pos + 1, bits, i + 9, cap, w, l);
        }
    }
}

/// Round trip: decoding an encoded stream with the same configuration and a
/// destination at least as large as the input reproduces the input exactly.
/// The window and lookahead exponents must together reach 7, so that the
/// final byte's zero padding can never hold a whole spurious token.
pub proof fn lemma_round_trip(inp: Seq<u8>, w: nat, l: nat, cap: nat)
    requires
        1 <= w <= 16,
        1 <= l <= 16,
        w + l >= 7,
        cap >= inp.len(),
    ensures
        spec_decode(spec_encode_output(inp, w, l), cap, w, l) == Ok::<Seq<u8>, DecodeError>(inp),
{
    let total = spec_encode_bits(inp, w, l);
    let padded = padded_bits(total);
    let bytes = spec_encode_output(inp, w, l);
    assert(padded.len() % 8 == 0) by (nonlinear_arith)
        requires
            padded.len() == total.len() + (8 - total.len() % 8) % 8,
    ;
    lemma_stream_bits_pack(padded);
    assert(stream_bits(bytes) == padded);
    assert(padded.subrange(0, total.len() as int) =~= total);
    assert(padded.len() - total.len() <= 7);
    assert forall|j: int| total.len() <= j < padded.len() implies !padded[j] by {
        assert(padded[j] == false);
    }
    lemma_round_trip_from(inp, 0, padded, 0, cap, w, l);
    assert(inp.take(0) =~= Seq::<u8>::empty());
}

} // verus!

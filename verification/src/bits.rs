//! Bit-level model of the wire format: a byte buffer is viewed as a flat
//! sequence of bits packed most-significant-bit-first, and fixed-width fields
//! are read and written as such bit runs.

use vstd::prelude::*;
use vstd::arithmetic::div_mod::lemma_div_denominator;

verus! {

/// `2^n`, the mathematical power of two.
pub open spec fn two_pow(n: nat) -> nat
    decreases n,
{
    if n == 0 {
        1
    } else {
        2 * two_pow((n - 1) as nat)
    }
}

/// The `n` bits of `v`, most significant first; `v` is taken modulo `2^n`.
pub open spec fn val_bits(v: nat, n: nat) -> Seq<bool>
    decreases n,
{
    if n == 0 {
        Seq::empty()
    } else {
        val_bits(v / 2, (n - 1) as nat).push(v % 2 == 1)
    }
}

/// The value of a most-significant-bit-first bit run.
pub open spec fn bits_val(s: Seq<bool>) -> nat
    decreases s.len(),
{
    if s.len() == 0 {
        0
    } else {
        2 * bits_val(s.drop_last()) + (if s.last() {
            1nat
        } else {
            0nat
        })
    }
}

/// The 8 bits of one byte, most significant first.
pub open spec fn byte_bits(b: u8) -> Seq<bool> {
    val_bits(b as nat, 8)
}

/// The bit stream a byte buffer carries: each byte contributes its 8 bits,
/// most significant first.
pub open spec fn stream_bits(bytes: Seq<u8>) -> Seq<bool> {
    Seq::new((bytes.len() * 8) as nat, |i: int| byte_bits(bytes[i / 8])[i % 8])
}

/// Packs a bit run whose length is a multiple of 8 back into bytes.
pub open spec fn pack(bits: Seq<bool>) -> Seq<u8>
    decreases bits.len(),
{
    if bits.len() < 8 {
        Seq::empty()
    } else {
        seq![bits_val(bits.take(8)) as u8] + pack(bits.skip(8))
    }
}

pub proof fn lemma_two_pow_pos(n: nat)
    ensures
        two_pow(n) >= 1,
    decreases n,
{
    if n > 0 {
        lemma_two_pow_pos((n - 1) as nat);
    }
}

pub proof fn lemma_two_pow_mono(a: nat, b: nat)
    requires
        a <= b,
    ensures
        two_pow(a) <= two_pow(b),
    decreases b,
{
    if a < b {
        lemma_two_pow_mono(a, (b - 1) as nat);
        lemma_two_pow_pos((b - 1) as nat);
    }
}

pub proof fn lemma_two_pow_add(a: nat, b: nat)
    ensures
        two_pow(a) * two_pow(b) == two_pow(a + b),
    decreases a,
{
    if a == 0 {
        assert(two_pow(0) == 1);
        assert(1 * two_pow(b) == two_pow(b)) by (nonlinear_arith);
    } else {
        lemma_two_pow_add((a - 1) as nat, b);
        assert((2 * two_pow((a - 1) as nat)) * two_pow(b) == 2 * (two_pow((a - 1) as nat)
            * two_pow(b))) by (nonlinear_arith);
        assert(two_pow(a) == 2 * two_pow((a - 1) as nat));
        assert(two_pow(a + b) == 2 * two_pow((a + b - 1) as nat));
    }
}

pub proof fn lemma_two_pow_16()
    ensures
        two_pow(8) == 256,
        two_pow(16) == 65536,
{
    reveal_with_fuel(two_pow, 17);
}

pub proof fn lemma_val_bits_len(v: nat, n: nat)
    ensures
        val_bits(v, n).len() == n,
    decreases n,
{
    if n > 0 {
        lemma_val_bits_len(v / 2, (n - 1) as nat);
    }
}

pub proof fn lemma_bits_val_bound(s: Seq<bool>)
    ensures
        bits_val(s) < two_pow(s.len()),
    decreases s.len(),
{
    if s.len() > 0 {
        lemma_bits_val_bound(s.drop_last());
    }
}

pub proof fn lemma_bits_val_push(s: Seq<bool>, b: bool)
    ensures
        bits_val(s.push(b)) == 2 * bits_val(s) + (if b {
            1nat
        } else {
            0nat
        }),
{
    assert(s.push(b).drop_last() =~= s);
    assert(s.push(b).last() == b);
}

/// Reading the bits of a value in range gives the value back.
pub proof fn lemma_bits_val_of_val_bits(v: nat, n: nat)
    requires
        v < two_pow(n),
    ensures
        bits_val(val_bits(v, n)) == v,
    decreases n,
{
    if n == 0 {
    } else {
        lemma_bits_val_of_val_bits(v / 2, (n - 1) as nat);
        lemma_bits_val_push(val_bits(v / 2, (n - 1) as nat), v % 2 == 1);
    }
}

/// Writing the value of a bit run reproduces the run.
pub proof fn lemma_val_bits_of_bits_val(s: Seq<bool>)
    ensures
        val_bits(bits_val(s), s.len()) == s,
    decreases s.len(),
{
    if s.len() == 0 {
        assert(val_bits(bits_val(s), 0) =~= s);
    } else {
        let a = bits_val(s.drop_last());
        let b: nat = if s.last() {
            1
        } else {
            0
        };
        lemma_val_bits_of_bits_val(s.drop_last());
        assert((2 * a + b) / 2 == a);
        assert((2 * a + b) % 2 == b);
        assert(val_bits(bits_val(s), s.len()) =~= s);
    }
}

pub proof fn lemma_bits_val_zeros(n: nat)
    ensures
        bits_val(Seq::new(n, |j: int| false)) == 0,
    decreases n,
{
    if n > 0 {
        lemma_bits_val_zeros((n - 1) as nat);
        let s = Seq::new(n, |j: int| false);
        assert(s.drop_last() =~= Seq::new((n - 1) as nat, |j: int| false));
        assert(s.last() == false);
    }
}

/// Concatenation of bit runs: the left run is shifted by the right run's width.
pub proof fn lemma_bits_val_concat(s: Seq<bool>, t: Seq<bool>)
    ensures
        bits_val(s + t) == bits_val(s) * two_pow(t.len()) + bits_val(t),
    decreases t.len(),
{
    if t.len() == 0 {
        assert(s + t =~= s);
        assert(bits_val(t) == 0);
        assert(two_pow(0) == 1);
        assert(bits_val(s) * 1 == bits_val(s)) by (nonlinear_arith);
    } else {
        let t0 = t.drop_last();
        lemma_bits_val_concat(s, t0);
        assert((s + t).drop_last() =~= s + t0);
        assert((s + t).last() == t.last());
        let b: nat = if t.last() {
            1
        } else {
            0
        };
        let x = bits_val(s);
        let p = two_pow(t0.len());
        assert(bits_val(s + t) == 2 * (x * p + bits_val(t0)) + b);
        assert(2 * (x * p + bits_val(t0)) + b == x * (2 * p) + (2 * bits_val(t0) + b))
            by (nonlinear_arith);
        assert(two_pow(t.len()) == 2 * p);
        assert(bits_val(t) == 2 * bits_val(t0) + b);
    }
}

/// The bit at offset `k` of a width-`n` field holding `v`.
pub proof fn lemma_val_bits_index(v: nat, n: nat, k: int)
    requires
        0 <= k < n,
    ensures
        val_bits(v, n).len() == n,
        val_bits(v, n)[k] == ((v / two_pow((n - 1 - k) as nat)) % 2 == 1),
    decreases n,
{
    lemma_val_bits_len(v, n);
    lemma_val_bits_len(v / 2, (n - 1) as nat);
    if k == n - 1 {
        assert(two_pow(0) == 1);
        assert(v / 1 == v);
    } else {
        lemma_val_bits_index(v / 2, (n - 1) as nat, k);
        let m = (n - 2 - k) as nat;
        lemma_two_pow_pos(m);
        lemma_div_denominator(v as int, 2, two_pow(m) as int);
        assert(two_pow((n - 1 - k) as nat) == 2 * two_pow(m));
        assert((v as int / 2) / (two_pow(m) as int) == v as int / (2 * two_pow(m) as int));
    }
}

/// Appending one byte to a buffer appends its 8 bits to the stream.
pub proof fn lemma_stream_bits_push(bytes: Seq<u8>, b: u8)
    ensures
        stream_bits(bytes.push(b)) =~= stream_bits(bytes) + byte_bits(b),
{
    lemma_val_bits_len(b as nat, 8);
    let lhs = stream_bits(bytes.push(b));
    let rhs = stream_bits(bytes) + byte_bits(b);
    assert(lhs.len() == rhs.len());
    assert forall|i: int| 0 <= i < lhs.len() implies lhs[i] == rhs[i] by {
        if i < bytes.len() * 8 {
            assert(i / 8 < bytes.len());
            assert(bytes.push(b)[i / 8] == bytes[i / 8]);
        } else {
            let r = i - bytes.len() * 8;
            assert(i == bytes.len() * 8 + r && 0 <= r < 8);
            assert(i / 8 == bytes.len() && i % 8 == r) by (nonlinear_arith)
                requires
                    i == bytes.len() * 8 + r && 0 <= r < 8,
            ;
            assert(bytes.push(b)[i / 8] == b);
        }
    }
}

/// Packing the stream of a buffer reproduces the buffer.
pub proof fn lemma_pack_stream_bits(bytes: Seq<u8>)
    ensures
        pack(stream_bits(bytes)) == bytes,
    decreases bytes.len(),
{
    let s = stream_bits(bytes);
    if bytes.len() == 0 {
        assert(pack(s) =~= bytes);
    } else {
        let rest = bytes.skip(1);
        lemma_val_bits_len(bytes[0] as nat, 8);
        assert(s.take(8) =~= byte_bits(bytes[0])) by {
            assert forall|k: int| 0 <= k < 8 implies s.take(8)[k] == byte_bits(bytes[0])[k] by {
                assert(k / 8 == 0 && k % 8 == k);
            }
        }
        assert(s.skip(8) =~= stream_bits(rest)) by {
            assert forall|i: int| 0 <= i < s.skip(8).len() implies s.skip(8)[i] == stream_bits(
                rest,
            )[i] by {
                assert((i + 8) / 8 == i / 8 + 1 && (i + 8) % 8 == i % 8) by (nonlinear_arith)
                    requires
                        i >= 0,
                ;
                assert(bytes[i / 8 + 1] == rest[i / 8]);
                lemma_val_bits_len(rest[i / 8] as nat, 8);
            }
        }
        lemma_two_pow_16();
        lemma_bits_val_of_val_bits(bytes[0] as nat, 8);
        lemma_pack_stream_bits(rest);
        assert(pack(s) =~= bytes);
    }
}

/// Unpacking packed bits reproduces the bits.
pub proof fn lemma_stream_bits_pack(bits: Seq<bool>)
    requires
        bits.len() % 8 == 0,
    ensures
        stream_bits(pack(bits)) == bits,
    decreases bits.len(),
{
    if bits.len() < 8 {
        assert(bits.len() == 0);
        assert(stream_bits(pack(bits)) =~= bits);
    } else {
        let head = bits.take(8);
        let tail = bits.skip(8);
        assert(tail.len() % 8 == 0) by (nonlinear_arith)
            requires
                bits.len() % 8 == 0,
                bits.len() >= 8,
                tail.len() == bits.len() - 8,
        ;
        lemma_stream_bits_pack(tail);
        lemma_bits_val_bound(head);
        lemma_two_pow_16();
        let b0: u8 = bits_val(head) as u8;
        lemma_val_bits_of_bits_val(head);
        assert(byte_bits(b0) == head);
        let pk = pack(tail);
        assert(pack(bits) == seq![b0] + pk);
        let lhs = stream_bits(seq![b0] + pk);
        assert(lhs.len() == (1 + pk.len()) * 8);
        assert forall|idx: int| 0 <= idx < lhs.len() implies lhs[idx] == bits[idx] by {
            if idx < 8 {
                assert(idx / 8 == 0 && idx % 8 == idx);
                assert((seq![b0] + pk)[0] == b0);
                assert(lhs[idx] == byte_bits(b0)[idx]);
                assert(bits[idx] == head[idx]);
            } else {
                let r = idx - 8;
                assert(idx / 8 == 1 + r / 8 && idx % 8 == r % 8) by (nonlinear_arith)
                    requires
                        idx >= 8,
                        r == idx - 8,
                ;
                assert((seq![b0] + pk)[idx / 8] == pk[r / 8]);
                assert(lhs[idx] == stream_bits(pk)[r]);
                assert(stream_bits(pk)[r] == tail[r]);
                assert(bits[idx] == tail[r]);
            }
        }
        assert(lhs =~= bits);
    }
}

/// `2^e` as a machine value, for exponents up to 16.
pub(crate) fn exp2(e: u8) -> (r: u32)
    requires
        e <= 16,
    ensures
        r == two_pow(e as nat),
        r >= 1,
{
    let mut r: u32 = 1;
    let mut i: u8 = 0;
    while i < e
        invariant
            i <= e <= 16,
            r == two_pow(i as nat),
        decreases e - i,
    {
        proof {
            lemma_two_pow_mono(i as nat, 15);
            lemma_two_pow_16();
            assert(two_pow(15) <= 65536) by {
                reveal_with_fuel(two_pow, 17);
            }
        }
        r = 2 * r;
        i = i + 1;
    }
    proof {
        lemma_two_pow_pos(e as nat);
    }
    r
}

/// The bit at absolute offset `idx` of the buffer's stream.
pub(crate) fn stream_bit(input: &[u8], idx: usize) -> (r: bool)
    requires
        input@.len() * 8 <= usize::MAX,
        idx < input@.len() * 8,
    ensures
        r == stream_bits(input@)[idx as int],
{
    proof {
        assert(idx / 8 < input@.len() && idx % 8 < 8) by (nonlinear_arith)
            requires
                idx < input@.len() * 8,
        ;
    }
    let byte = input[idx / 8];
    let k = idx % 8;
    let p = exp2((7 - k) as u8);
    proof {
        lemma_val_bits_index(byte as nat, 8, k as int);
        lemma_two_pow_mono((7 - k) as nat, 7);
        assert(two_pow(7) == 128) by {
            reveal_with_fuel(two_pow, 9);
        }
    }
    (byte as u32 / p) % 2 == 1
}

} // verus!

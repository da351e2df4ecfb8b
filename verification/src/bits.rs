//! Bit-to-byte packing and unpacking.  Eight bits go into each byte,
//! least-significant bit first; a final partial byte is completed with
//! zero-valued filler bits, the one padding convention shared by the
//! packer and the unpacker.

use vstd::prelude::*;
use vstd::arithmetic::div_mod::{lemma_fundamental_div_mod, lemma_fundamental_div_mod_converse};

verus! {

/// Two to the `k`.
pub open spec fn pow2(k: nat) -> nat
    decreases k,
{
    if k == 0 {
        1
    } else {
        2 * pow2((k - 1) as nat)
    }
}

/// The value of a bit sequence read least-significant bit first.
pub open spec fn bits_value(s: Seq<bool>) -> nat
    decreases s.len(),
{
    if s.len() == 0 {
        0
    } else {
        (if s[0] {
            1nat
        } else {
            0nat
        }) + 2 * bits_value(s.drop_first())
    }
}

/// The `k` low bits of the value `v`, least-significant first.
pub open spec fn bits_of(v: nat, k: nat) -> Seq<bool>
    decreases k,
{
    if k == 0 {
        Seq::empty()
    } else {
        seq![v % 2 == 1] + bits_of(v / 2, (k - 1) as nat)
    }
}

/// The bit stream held by a byte sequence.
pub open spec fn spec_unpack(bytes: Seq<u8>) -> Seq<bool>
    decreases bytes.len(),
{
    if bytes.len() == 0 {
        Seq::empty()
    } else {
        bits_of(bytes[0] as nat, 8) + spec_unpack(bytes.drop_first())
    }
}

/// `k` zero-valued filler bits.
pub open spec fn zeros(k: nat) -> Seq<bool> {
    Seq::new(k, |i: int| false)
}

/// How many filler bits complete the final byte.
pub open spec fn pad_len(n: nat) -> nat {
    if n % 8 == 0 {
        0nat
    } else {
        (8 - n % 8) as nat
    }
}

/// The bit stream as the unpacker will see it again: the input
/// followed by its filler bits.
pub open spec fn padded(s: Seq<bool>) -> Seq<bool> {
    s + zeros(pad_len(s.len()))
}

/// A bit sequence is worth less than two to its length.
pub proof fn lemma_bits_value_bound(s: Seq<bool>)
    ensures
        bits_value(s) < pow2(s.len()),
    decreases s.len(),
{
    if s.len() > 0 {
        lemma_bits_value_bound(s.drop_first());
    }
}

/// Appending a bit adds its weight at the top.
pub proof fn lemma_bits_value_snoc(s: Seq<bool>, b: bool)
    ensures
        bits_value(s.push(b)) == bits_value(s) + (if b {
            pow2(s.len())
        } else {
            0nat
        }),
    decreases s.len(),
{
    if s.len() == 0 {
        assert(s.push(b).drop_first() =~= Seq::empty());
        assert(s =~= Seq::<bool>::empty());
    } else {
        assert(s.push(b).drop_first() =~= s.drop_first().push(b));
        lemma_bits_value_snoc(s.drop_first(), b);
    }
}

/// Reading the value of a bit sequence back as bits gives the sequence.
pub proof fn lemma_bits_of_value(s: Seq<bool>)
    ensures
        bits_of(bits_value(s), s.len()) == s,
    decreases s.len(),
{
    if s.len() > 0 {
        let v = bits_value(s);
        let b: nat = if s[0] {
            1
        } else {
            0
        };
        let rest = bits_value(s.drop_first());
        assert(v == b + 2 * rest);
        assert(v % 2 == b && v / 2 == rest) by {
            lemma_fundamental_div_mod_converse(v as int, 2, rest as int, b as int);
        }
        lemma_bits_of_value(s.drop_first());
        assert(bits_of(v, s.len()) =~= s);
    } else {
        assert(bits_of(0, 0) =~= s);
    }
}

/// A value below two to the `k` has only zeros above its `k` low bits.
pub proof fn lemma_bits_of_extend(v: nat, k: nat, m: nat)
    requires
        k <= m,
        v < pow2(k),
    ensures
        bits_of(v, m) == bits_of(v, k) + zeros((m - k) as nat),
    decreases m,
{
    if k == 0 {
        if m == 0 {
            assert(bits_of(v, m) =~= bits_of(v, k) + zeros(0));
        } else {
            assert(v == 0);
            lemma_bits_of_extend(0, 0, (m - 1) as nat);
            assert(bits_of(0nat, m) =~= bits_of(0nat, 0nat) + zeros(m));
        }
    } else {
        assert(v / 2 < pow2((k - 1) as nat)) by {
            lemma_fundamental_div_mod(v as int, 2);
        }
        lemma_bits_of_extend(v / 2, (k - 1) as nat, (m - 1) as nat);
        assert(bits_of(v, m) =~= bits_of(v, k) + zeros((m - k) as nat));
    }
}

/// Each bit of a value is the parity of the shifted-down value.
pub proof fn lemma_bits_of_index(v: nat, m: nat, k: nat)
    requires
        k < m,
    ensures
        bits_of(v, m).len() == m,
        bits_of(v, m)[k as int] == (bits_value(bits_of(v, m).skip(k as int)) % 2 == 1),
        bits_value(bits_of(v, m).skip(k as int)) / 2 == bits_value(
            bits_of(v, m).skip(k as int + 1),
        ),
    decreases m,
{
    let s = bits_of(v, m);
    assert(s.len() == m) by {
        lemma_bits_of_len(v, m);
    }
    let tail = s.skip(k as int);
    assert(tail.len() >= 1);
    let b: nat = if tail[0] {
        1
    } else {
        0
    };
    assert(tail[0] == s[k as int]);
    assert(tail.drop_first() =~= s.skip(k as int + 1));
    let rest = bits_value(tail.drop_first());
    assert(bits_value(tail) == b + 2 * rest);
    assert(bits_value(tail) % 2 == b && bits_value(tail) / 2 == rest) by {
        lemma_fundamental_div_mod_converse(bits_value(tail) as int, 2, rest as int, b as int);
    }
}

/// `bits_of` yields as many bits as asked for.
pub proof fn lemma_bits_of_len(v: nat, k: nat)
    ensures
        bits_of(v, k).len() == k,
    decreases k,
{
    if k > 0 {
        lemma_bits_of_len(v / 2, (k - 1) as nat);
    }
}

/// Unpacking one more byte appends its eight bits.
pub proof fn lemma_unpack_snoc(bytes: Seq<u8>, b: u8)
    ensures
        spec_unpack(bytes.push(b)) == spec_unpack(bytes) + bits_of(b as nat, 8),
    decreases bytes.len(),
{
    if bytes.len() == 0 {
        reveal_with_fuel(spec_unpack, 2);
        assert(bytes.push(b).drop_first() =~= Seq::empty());
        assert(spec_unpack(bytes.push(b)) =~= spec_unpack(bytes) + bits_of(b as nat, 8));
    } else {
        assert(bytes.push(b).drop_first() =~= bytes.drop_first().push(b));
        lemma_unpack_snoc(bytes.drop_first(), b);
        assert(spec_unpack(bytes.push(b)) =~= spec_unpack(bytes) + bits_of(b as nat, 8));
    }
}

/// The unpacked stream is eight bits per byte.
pub proof fn lemma_unpack_len(bytes: Seq<u8>)
    ensures
        spec_unpack(bytes).len() == 8 * bytes.len(),
    decreases bytes.len(),
{
    if bytes.len() > 0 {
        lemma_bits_of_len(bytes[0] as nat, 8);
        lemma_unpack_len(bytes.drop_first());
    }
}

/// Small powers of two, spelled out for the packer's overflow proof.
proof fn lemma_pow2_8()
    ensures
        pow2(0) == 1 && pow2(1) == 2 && pow2(2) == 4 && pow2(3) == 8 && pow2(4) == 16 && pow2(5)
            == 32 && pow2(6) == 64 && pow2(7) == 128 && pow2(8) == 256,
{
    reveal_with_fuel(pow2, 9);
}

/// Packs a bit stream into bytes, eight bits per byte, least-significant
/// bit first; the final partial byte, if any, is completed with
/// zero-valued filler bits.  Unpacking the result gives back exactly the
/// input followed by its filler.
pub fn pack_bits(bits: &Vec<bool>) -> (r: Vec<u8>)
    ensures
        spec_unpack(r@) == padded(bits@),
        8 * r@.len() == padded(bits@).len(),
{
    let mut out: Vec<u8> = Vec::new();
    let mut acc: u8 = 0;
    let mut p: u8 = 1;
    let mut pos: usize = 0;
    let mut i: usize = 0;
    proof {
        assert(bits@.subrange(0, 0) =~= Seq::<bool>::empty());
        assert(bits@.take(0) =~= Seq::<bool>::empty());
    }
    while i < bits.len()
        invariant
            i <= bits@.len(),
            pos < 8,
            pos <= i,
            p == pow2(pos as nat),
            acc == bits_value(bits@.subrange(i - pos, i as int)),
            spec_unpack(out@) == bits@.take(i - pos),
            8 * out@.len() == i - pos,
        decreases bits@.len() - i,
    {
        let ghost chunk = bits@.subrange(i - pos, i as int);
        proof {
            lemma_pow2_8();
            lemma_bits_value_bound(chunk);
            assert(chunk.len() == pos);
        }
        if bits[i] {
            acc = acc + p;
        }
        proof {
            lemma_bits_value_snoc(chunk, bits@[i as int]);
            assert(chunk.push(bits@[i as int]) =~= bits@.subrange(i - pos, i + 1));
        }
        pos = pos + 1;
        i = i + 1;
        if pos == 8 {
            let ghost full = bits@.subrange(i - 8, i as int);
            proof {
                lemma_unpack_snoc(out@, acc);
                lemma_bits_of_value(full);
                assert(bits@.take(i - 8) + full =~= bits@.take(i as int));
            }
            out.push(acc);
            acc = 0;
            p = 1;
            pos = 0;
        } else {
            proof {
                lemma_pow2_8();
            }
            p = p * 2;
        }
    }
    if pos > 0 {
        let ghost chunk = bits@.subrange(i - pos, i as int);
        proof {
            lemma_unpack_snoc(out@, acc);
            lemma_bits_value_bound(chunk);
            lemma_bits_of_value(chunk);
            lemma_bits_of_extend(acc as nat, pos as nat, 8);
            assert(bits@.take(i - pos) + (chunk + zeros((8 - pos) as nat)) =~= padded(bits@));
        }
        out.push(acc);
    } else {
        proof {
            assert(bits@.take(i as int) =~= padded(bits@));
        }
    }
    out
}

/// Unpacks a byte sequence into its bit stream, eight bits per byte,
/// least-significant bit first; the exact inverse of the packer up to
/// the filler bits of the final byte.
pub fn unpack_bytes(bytes: &Vec<u8>) -> (r: Vec<bool>)
    ensures
        r@ == spec_unpack(bytes@),
{
    let mut out: Vec<bool> = Vec::new();
    let mut i: usize = 0;
    proof {
        assert(bytes@.take(0) =~= Seq::<u8>::empty());
    }
    while i < bytes.len()
        invariant
            i <= bytes@.len(),
            out@ == spec_unpack(bytes@.take(i as int)),
        decreases bytes@.len() - i,
    {
        let b = bytes[i];
        let ghost eight = bits_of(b as nat, 8);
        let mut v: u8 = b;
        let mut k: usize = 0;
        proof {
            lemma_bits_of_len(b as nat, 8);
            lemma_bits_of_value(eight);
            lemma_bits_value_bound(eight);
            assert(eight.skip(0) =~= eight);
            assert(bits_value(eight) == b as nat) by {
                lemma_pow2_8();
                assert(bits_of(bits_value(eight), 8) == eight);
                lemma_bits_of_injective(bits_value(eight), b as nat, 8);
            }
            assert(out@ + eight.take(0) =~= out@);
        }
        let ghost start = out@;
        while k < 8
            invariant
                k <= 8,
                eight == bits_of(b as nat, 8),
                eight.len() == 8,
                v as nat == bits_value(eight.skip(k as int)),
                out@ == start + eight.take(k as int),
            decreases 8 - k,
        {
            proof {
                lemma_bits_of_index(b as nat, 8, k as nat);
                assert(eight.take(k as int).push(eight[k as int]) =~= eight.take(k as int + 1));
            }
            out.push(v % 2 == 1);
            v = v / 2;
            k = k + 1;
        }
        proof {
            lemma_unpack_snoc(bytes@.take(i as int), b);
            assert(bytes@.take(i as int).push(b) =~= bytes@.take(i as int + 1));
            assert(eight.take(8) =~= eight);
        }
        i = i + 1;
    }
    proof {
        assert(bytes@.take(i as int) =~= bytes@);
    }
    out
}

/// Two values with the same `k` low bits and both below two to the `k`
/// are equal.
proof fn lemma_bits_of_injective(a: nat, b: nat, k: nat)
    requires
        a < pow2(k),
        b < pow2(k),
        bits_of(a, k) == bits_of(b, k),
    ensures
        a == b,
    decreases k,
{
    if k == 0 {
    } else {
        assert(bits_of(a, k)[0] == (a % 2 == 1));
        assert(bits_of(b, k)[0] == (b % 2 == 1));
        assert(bits_of(a, k).drop_first() =~= bits_of(a / 2, (k - 1) as nat)) by {
            lemma_bits_of_len(a / 2, (k - 1) as nat);
        }
        assert(bits_of(b, k).drop_first() =~= bits_of(b / 2, (k - 1) as nat)) by {
            lemma_bits_of_len(b / 2, (k - 1) as nat);
        }
        assert(a / 2 < pow2((k - 1) as nat) && b / 2 < pow2((k - 1) as nat)) by {
            lemma_fundamental_div_mod(a as int, 2);
            lemma_fundamental_div_mod(b as int, 2);
        }
        lemma_bits_of_injective(a / 2, b / 2, (k - 1) as nat);
        assert(a % 2 == b % 2);
        lemma_fundamental_div_mod(a as int, 2);
        lemma_fundamental_div_mod(b as int, 2);
    }
}

} // verus!

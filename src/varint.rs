//! Variable-length encoding of one signed 64-bit integer.
//!
//! A value is folded to an unsigned magnitude (zigzag), then written as
//! little-endian groups of seven bits. Every byte but the last has its high
//! bit set; the last one, the terminal byte, is below 128.
use vstd::prelude::*;

verus! {

/// The modulus of 64-bit unsigned arithmetic.
pub open spec fn word() -> nat {
    0x1_0000_0000_0000_0000
}

/// A byte that ends the encoding of one integer.
pub open spec fn is_terminal(b: u8) -> bool {
    b < 128
}

/// Zigzag fold: non-negative values go to even numbers, negative ones to odd.
pub open spec fn zigzag(v: int) -> nat {
    if v >= 0 {
        (2 * v) as nat
    } else {
        (-2 * v - 1) as nat
    }
}

/// Inverse of the zigzag fold.
pub open spec fn unzigzag(u: nat) -> int {
    if u % 2 == 0 {
        (u / 2) as int
    } else {
        -((u + 1) / 2)
    }
}

/// Base-128 groups of `u`, least significant first, with the continuation
/// bit set on all but the last.
pub open spec fn groups(u: nat) -> Seq<u8>
    decreases u,
{
    if u < 128 {
        seq![u as u8]
    } else {
        seq![(u % 128 + 128) as u8] + groups(u / 128)
    }
}

/// The bytes written for `v`. Zero is written as the single byte 1.
pub open spec fn encoding_of(v: i64) -> Seq<u8> {
    if v == 0 {
        seq![1u8]
    } else {
        groups(zigzag(v as int))
    }
}

/// The number whose base-128 digits are the low seven bits of each byte,
/// least significant first.
pub open spec fn magnitude(s: Seq<u8>) -> nat
    decreases s.len(),
{
    if s.len() == 0 {
        0
    } else {
        (s[0] % 128) as nat + 128 * magnitude(s.drop_first())
    }
}

/// The value read back from the bytes of one integer. Bits of the magnitude
/// beyond the 64th are dropped.
pub open spec fn decoding_of(s: Seq<u8>) -> i64 {
    unzigzag(magnitude(s) % word()) as i64
}

/// Reading back the groups of `u` gives `u`; only the last group is terminal.
pub proof fn lemma_groups(u: nat)
    ensures
        magnitude(groups(u)) == u,
        groups(u).len() >= 1,
        is_terminal(groups(u).last()),
        forall|i: int| 0 <= i < groups(u).len() - 1 ==> !is_terminal(#[trigger] groups(u)[i]),
    decreases u,
{
    if u >= 128 {
        lemma_groups(u / 128);
        let g = groups(u);
        assert(g.drop_first() =~= groups(u / 128));
        assert(g[0] % 128 == u % 128);
        assert(u % 128 + 128 * (u / 128) == u) by (nonlinear_arith);
        assert forall|i: int| 0 <= i < g.len() - 1 implies !is_terminal(#[trigger] g[i]) by {
            if i > 0 {
                assert(g[i] == groups(u / 128)[i - 1]);
            }
        }
    } else {
        assert(groups(u).drop_first() =~= Seq::<u8>::empty());
        assert(magnitude(groups(u).drop_first()) == 0);
    }
}

/// Zigzag folding is undone by unfolding.
pub proof fn lemma_unzigzag_zigzag(v: int)
    ensures
        unzigzag(zigzag(v)) == v,
{
}

/// The bytes of one integer: at least one, the last terminal, no other.
pub proof fn lemma_encoding_shape(v: i64)
    ensures
        encoding_of(v).len() >= 1,
        is_terminal(encoding_of(v).last()),
        forall|i: int|
            0 <= i < encoding_of(v).len() - 1 ==> !is_terminal(#[trigger] encoding_of(v)[i]),
{
    if v != 0 {
        lemma_groups(zigzag(v as int));
    }
}

/// Every non-zero integer reads back as itself. Zero is written as the byte
/// 1, which reads back as -1.
pub proof fn lemma_decode_encode(v: i64)
    ensures
        v != 0 ==> decoding_of(encoding_of(v)) == v,
        v == 0 ==> decoding_of(encoding_of(v)) == -1,
{
    if v != 0 {
        lemma_groups(zigzag(v as int));
        lemma_unzigzag_zigzag(v as int);
        assert(zigzag(v as int) < word());
        assert(zigzag(v as int) % word() == zigzag(v as int)) by {
            vstd::arithmetic::div_mod::lemma_small_mod(zigzag(v as int), word());
        }
    } else {
        let s = seq![1u8];
        assert(s.drop_first() =~= Seq::<u8>::empty());
        assert(magnitude(s.drop_first()) == 0);
        assert(magnitude(s) == 1);
    }
}

/// Appends the bytes of `value` to `output`.
pub fn encode_int(value: i64, output: &mut Vec<u8>)
    ensures
        final(output)@ == old(output)@ + encoding_of(value),
{
    if value == 0 {
        output.push(1);
        return;
    }
    let mut u: u64 = if value >= 0 {
        (value as u64) * 2
    } else {
        (-(value + 1)) as u64 * 2 + 1
    };
    let ghost start = output@;
    let ghost full = zigzag(value as int);
    assert(u == full);
    while u >= 128
        invariant
            output@ + groups(u as nat) == start + groups(full),
        decreases u,
    {
        let piece: u8 = (u % 128 + 128) as u8;
        proof {
            assert(groups(u as nat) == seq![piece] + groups((u / 128) as nat));
        }
        output.push(piece);
        u = u / 128;
        proof {
            assert(output@ + groups(u as nat) =~= start + groups(full));
        }
    }
    output.push(u as u8);
    assert(output@ =~= start + groups(full));
}

/// Reading one more byte in front of the bytes already read.
proof fn lemma_magnitude_step(s: Seq<u8>, i: int)
    requires
        0 <= i < s.len(),
    ensures
        magnitude(s.subrange(i, s.len() as int)) == (s[i] % 128) as nat + 128 * magnitude(
            s.subrange(i + 1, s.len() as int),
        ),
{
    assert(s.subrange(i, s.len() as int).drop_first() =~= s.subrange(i + 1, s.len() as int));
}

/// Reads back one integer from its bytes, terminal byte included.
pub fn decode_int(value: &[u8]) -> (r: i64)
    ensures
        r == decoding_of(value@),
{
    let mut acc: u64 = 0;
    let mut i: usize = value.len();
    proof {
        assert(value@.subrange(i as int, value@.len() as int) =~= Seq::<u8>::empty());
    }
    while i > 0
        invariant
            i <= value@.len(),
            acc as nat == magnitude(value@.subrange(i as int, value@.len() as int)) % word(),
        decreases i,
    {
        i = i - 1;
        let low: u64 = (value[i] % 128) as u64;
        let ghost prev: int = magnitude(value@.subrange(i + 1, value@.len() as int)) as int;
        proof {
            lemma_magnitude_step(value@, i as int);
        }
        let shifted = acc.wrapping_mul(128);
        proof {
            vstd::arithmetic::div_mod::lemma_mul_mod_noop_right(128, prev, word() as int);
            assert(shifted as int == (128 * prev) % (word() as int));
        }
        acc = shifted.wrapping_add(low);
        proof {
            vstd::arithmetic::div_mod::lemma_add_mod_noop_right(
                low as int,
                128 * prev,
                word() as int,
            );
            vstd::arithmetic::div_mod::lemma_small_mod(acc as nat, word());
            assert(acc as int == (low as int + (128 * prev) % (word() as int)) % (word() as int));
        }
    }
    assert(value@.subrange(0, value@.len() as int) =~= value@);
    if acc % 2 == 0 {
        (acc / 2) as i64
    } else {
        -((acc / 2) as i64) - 1
    }
}

} // verus!

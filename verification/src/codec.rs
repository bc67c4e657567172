//! Byte encoding of stored embedding vectors.
//!
//! Each coordinate is stored as four little-endian bytes holding the
//! coordinate shifted by [`VAL_LIMIT`] (so the stored value is nonnegative).
//! Decoding never panics: a blob whose length is not a multiple of four is
//! truncated to its largest complete prefix, and an out-of-range stored
//! value is clamped back into the coordinate range.

use vstd::prelude::*;
use vstd::arithmetic::div_mod::{lemma_fundamental_div_mod, lemma_div_pos_is_pos, lemma_div_is_ordered};
use crate::vector::{VAL_LIMIT, valid_vector};

verus! {

/// Bytes per stored coordinate.
pub const ENTRY_BYTES: usize = 4;

/// 256 to the power `k`.
pub open spec fn pow256(k: nat) -> int
    decreases k,
{
    if k == 0 {
        1
    } else {
        256 * pow256((k - 1) as nat)
    }
}

/// The `k` little-endian base-256 digits of `u`.
pub open spec fn le_bytes(u: int, k: nat) -> Seq<u8>
    decreases k,
{
    if k == 0 {
        Seq::empty()
    } else {
        seq![(u % 256) as u8] + le_bytes(u / 256, (k - 1) as nat)
    }
}

/// The value of a little-endian byte sequence.
pub open spec fn from_le(s: Seq<u8>) -> int
    decreases s.len(),
{
    if s.len() == 0 {
        0
    } else {
        s[0] + 256 * from_le(s.drop_first())
    }
}

/// The nonnegative stored form of a coordinate.
pub open spec fn shifted(x: i64) -> int {
    x + VAL_LIMIT
}

/// A stored value mapped back to a coordinate, clamped into range.
pub open spec fn unshifted(u: int) -> i64 {
    if u > 2 * VAL_LIMIT {
        VAL_LIMIT
    } else {
        (u - VAL_LIMIT) as i64
    }
}

/// The byte encoding of a whole vector.
pub open spec fn encoded(v: Seq<i64>) -> Seq<u8>
    decreases v.len(),
{
    if v.len() == 0 {
        Seq::empty()
    } else {
        le_bytes(shifted(v[0]), ENTRY_BYTES as nat) + encoded(v.drop_first())
    }
}

/// The vector decoded from a blob: one coordinate per complete
/// [`ENTRY_BYTES`]-byte group, trailing incomplete bytes ignored.
pub open spec fn decoded(bytes: Seq<u8>) -> Seq<i64> {
    Seq::new(
        (bytes.len() / ENTRY_BYTES as nat) as nat,
        |i: int| unshifted(from_le(bytes.subrange(i * 4, i * 4 + 4))),
    )
}

/// The small powers of 256 the codec works with.
proof fn lemma_pow256_vals()
    ensures
        pow256(0) == 1,
        pow256(1) == 256,
        pow256(2) == 65536,
        pow256(3) == 16777216,
        pow256(4) == 4294967296,
{
    assert(pow256(0) == 1);
    assert(pow256(1) == 256);
    assert(pow256(2) == 65536);
    assert(pow256(3) == 16777216);
    assert(pow256(4) == 4294967296);
}

/// Powers of 256 grow with the exponent.
proof fn lemma_pow256_mono(a: nat, b: nat)
    requires
        a <= b,
    ensures
        pow256(a) <= pow256(b),
        pow256(a) > 0,
    decreases b,
{
    if a == b {
        if a == 0 {
        } else {
            lemma_pow256_mono((a - 1) as nat, (a - 1) as nat);
            assert(pow256(a) == 256 * pow256((a - 1) as nat));
            assert(256 * pow256((a - 1) as nat) > 0) by (nonlinear_arith)
                requires pow256((a - 1) as nat) > 0;
        }
    } else {
        lemma_pow256_mono(a, (b - 1) as nat);
        assert(pow256(b) == 256 * pow256((b - 1) as nat));
        assert(256 * pow256((b - 1) as nat) >= pow256((b - 1) as nat)) by (nonlinear_arith)
            requires pow256((b - 1) as nat) > 0;
    }
}

/// Each digit sequence has exactly `k` digits.
proof fn lemma_le_bytes_len(u: int, k: nat)
    ensures
        le_bytes(u, k).len() == k,
    decreases k,
{
    if k > 0 {
        lemma_le_bytes_len(u / 256, (k - 1) as nat);
    }
}

/// Little-endian values are bounded by the digit count.
proof fn lemma_from_le_bound(s: Seq<u8>)
    ensures
        0 <= from_le(s) < pow256(s.len()),
    decreases s.len(),
{
    if s.len() == 0 {
    } else {
        lemma_from_le_bound(s.drop_first());
        let r = from_le(s.drop_first());
        assert(s[0] + 256 * r < 256 * pow256((s.len() - 1) as nat)) by (nonlinear_arith)
            requires 0 <= s[0] < 256 && 0 <= r && r < pow256((s.len() - 1) as nat);
        assert(0 <= s[0] + 256 * r) by (nonlinear_arith)
            requires 0 <= s[0] && 0 <= r;
    }
}

/// Encoding then reading back the digits gives the value back.
proof fn lemma_le_round_trip(u: int, k: nat)
    requires
        0 <= u < pow256(k),
    ensures
        le_bytes(u, k).len() == k,
        from_le(le_bytes(u, k)) == u,
    decreases k,
{
    if k == 0 {
    } else {
        let q = u / 256;
        let r = u % 256;
        lemma_fundamental_div_mod(u, 256);
        assert(0 <= q < pow256((k - 1) as nat)) by (nonlinear_arith)
            requires
                u == 256 * q + r,
                0 <= r < 256,
                0 <= u < 256 * pow256((k - 1) as nat),
        ;
        lemma_le_round_trip(q, (k - 1) as nat);
        assert(le_bytes(u, k).drop_first() =~= le_bytes(q, (k - 1) as nat));
    }
}

/// Encode a vector for storage.
pub fn embedding_to_bytes(v: &Vec<i64>) -> (r: Vec<u8>)
    requires
        valid_vector(v@),
    ensures
        r@ == encoded(v@),
        r@.len() == v@.len() * ENTRY_BYTES,
{
    let mut out: Vec<u8> = Vec::new();
    let n = v.len();
    assert(v@.take(0int) =~= Seq::<i64>::empty());
    for i in 0..n
        invariant
            n == v@.len(),
            valid_vector(v@),
            out@ == encoded(v@.take(i as int)),
            out@.len() == i * ENTRY_BYTES,
    {
        let x = v[i];
        let mut cur: u32 = (x + VAL_LIMIT) as u32;
        let ghost u0 = shifted(v@[i as int]);
        let ghost before = out@;
        assert(le_bytes(u0, 4) =~= Seq::<u8>::empty() + le_bytes(u0, 4));
        for k in 0..ENTRY_BYTES
            invariant
                cur >= 0,
                le_bytes(u0, 4) =~= out@.skip(before.len() as int) + le_bytes(cur as int, (4 - k) as nat),
                out@.len() == before.len() + k,
                before =~= out@.take(before.len() as int),
        {
            let ghost prev_tail = out@.skip(before.len() as int);
            out.push((cur % 256) as u8);
            proof {
                assert(out@.skip(before.len() as int) =~= prev_tail + seq![(cur as int % 256) as u8]);
                assert(le_bytes(cur as int, (4 - k) as nat) =~=
                    seq![(cur as int % 256) as u8] + le_bytes(cur as int / 256, (3 - k) as nat));
                assert(prev_tail + le_bytes(cur as int, (4 - k) as nat) =~=
                    (prev_tail + seq![(cur as int % 256) as u8]) + le_bytes(cur as int / 256, (3 - k) as nat));
            }
            cur = cur / 256;
        }
        proof {
            assert(le_bytes(cur as int, 0nat) =~= Seq::<u8>::empty());
            assert(out@.skip(before.len() as int) + Seq::<u8>::empty() =~= out@.skip(before.len() as int));
            assert(out@ =~= before + le_bytes(u0, 4));
            lemma_encoded_push(v@.take(i as int), v@[i as int]);
            assert(v@.take(i + 1) =~= v@.take(i as int).push(v@[i as int]));
        }
    }
    proof {
        assert(v@.take(n as int) =~= v@);
    }
    out
}

/// Encoding distributes over appending one coordinate.
proof fn lemma_encoded_push(v: Seq<i64>, x: i64)
    ensures
        encoded(v.push(x)) == encoded(v) + le_bytes(shifted(x), ENTRY_BYTES as nat),
    decreases v.len(),
{
    lemma_le_bytes_len(shifted(x), 4);
    if v.len() == 0 {
        assert(v.push(x)[0] == x);
        assert(v.push(x).drop_first() =~= Seq::<i64>::empty());
        assert(encoded(v.push(x)) ==
            le_bytes(shifted(v.push(x)[0]), 4) + encoded(v.push(x).drop_first()));
        assert(encoded(v.push(x).drop_first()) =~= Seq::<u8>::empty());
        assert(encoded(v.push(x)) =~= le_bytes(shifted(x), 4) + Seq::<u8>::empty());
        assert(le_bytes(shifted(x), 4) + Seq::<u8>::empty() =~= le_bytes(shifted(x), 4));
        assert(encoded(v) + le_bytes(shifted(x), 4) =~= le_bytes(shifted(x), 4));
    } else {
        lemma_le_bytes_len(shifted(v[0]), 4);
        lemma_encoded_push(v.drop_first(), x);
        assert(v.push(x)[0] == v[0]);
        assert(v.push(x).drop_first() =~= v.drop_first().push(x));
        assert(encoded(v) + le_bytes(shifted(x), 4) =~=
            le_bytes(shifted(v[0]), 4) + (encoded(v.drop_first()) + le_bytes(shifted(x), 4)));
    }
}

/// Decode a stored blob back into a vector. Never panics: a trailing
/// incomplete group is dropped and out-of-range values are clamped, so the
/// result is always a valid vector prefix of what was stored.
pub fn bytes_to_embedding(bytes: &Vec<u8>) -> (r: Vec<i64>)
    requires
        bytes@.len() / ENTRY_BYTES as nat <= crate::vector::MAX_DIM,
    ensures
        r@ == decoded(bytes@),
        valid_vector(r@),
{
    let mut out: Vec<i64> = Vec::new();
    let n = bytes.len() / ENTRY_BYTES;
    for i in 0..n
        invariant
            n == bytes@.len() / ENTRY_BYTES as nat,
            n <= crate::vector::MAX_DIM,
            (n as int) * 4 <= bytes@.len(),
            out@.len() == i,
            forall|j: int| 0 <= j < i ==> out@[j] == unshifted(from_le(bytes@.subrange(j * 4, j * 4 + 4))),
            forall|j: int| 0 <= j < i ==> -VAL_LIMIT <= #[trigger] out@[j] <= VAL_LIMIT,
    {
        proof {
            assert((i as int) * 4 + 4 <= (n as int) * 4) by (nonlinear_arith)
                requires i < n;
            assert((i as int) * 4 >= 0) by (nonlinear_arith)
                requires i >= 0;
        }
        let base = i * ENTRY_BYTES;
        let mut u: u64 = 0;
        let ghost group = bytes@.subrange(i as int * 4, i as int * 4 + 4);
        let mut k: usize = ENTRY_BYTES;
        while k > 0
            invariant
                k <= 4,
                base == (i as int) * 4,
                base + 4 <= bytes@.len(),
                group =~= bytes@.subrange(i as int * 4, i as int * 4 + 4),
                u == from_le(group.skip(k as int)),
                0 <= u < pow256((4 - k) as nat),
            decreases k,
        {
            k = k - 1;
            let b = bytes[base + k];
            proof {
                lemma_pow256_vals();
                lemma_pow256_mono((3 - k) as nat, 3nat);
                assert(group.skip(k as int).drop_first() =~= group.skip(k as int + 1));
                assert(group.skip(k as int)[0] == bytes@[(i as int) * 4 + k]);
                lemma_from_le_bound(group.skip(k as int + 1));
                assert(b + 256 * u < pow256((4 - k) as nat)) by (nonlinear_arith)
                    requires
                        0 <= b < 256,
                        0 <= u < pow256((3 - k) as nat),
                        pow256((4 - k) as nat) == 256 * pow256((3 - k) as nat),
                ;
            }
            u = (b as u64) + 256 * u;
        }
        proof {
            assert(group.skip(0int) =~= group);
        }
        let val: i64 = if u > (2 * VAL_LIMIT) as u64 {
            VAL_LIMIT
        } else {
            (u as i64) - VAL_LIMIT
        };
        out.push(val);
    }
    proof {
        assert(out@ =~= decoded(bytes@));
    }
    out
}

/// Storing a valid vector and decoding it gives the vector back unchanged.
pub proof fn lemma_codec_round_trip(v: Seq<i64>)
    requires
        valid_vector(v),
    ensures
        decoded(encoded(v)) == v,
{
    lemma_encoded_len(v);
    assert forall|i: int| 0 <= i < v.len() implies decoded(encoded(v))[i] == v[i] by {
        lemma_pow256_vals();
        lemma_encoded_group(v, i);
        lemma_le_round_trip(shifted(v[i]), 4);
        assert(from_le(encoded(v).subrange(i * 4, i * 4 + 4)) == shifted(v[i]));
    }
    assert(decoded(encoded(v)) =~= v);
}

/// The encoding is exactly four bytes per coordinate.
proof fn lemma_encoded_len(v: Seq<i64>)
    ensures
        encoded(v).len() == v.len() * 4,
    decreases v.len(),
{
    if v.len() > 0 {
        lemma_encoded_len(v.drop_first());
        lemma_le_bytes_len(shifted(v[0]), 4);
        assert((v.len() - 1) * 4 == v.len() * 4 - 4) by (nonlinear_arith);
    }
}

/// Group `i` of the encoding holds coordinate `i`'s digits.
proof fn lemma_encoded_group(v: Seq<i64>, i: int)
    requires
        0 <= i < v.len(),
    ensures
        encoded(v).subrange(i * 4, i * 4 + 4) == le_bytes(shifted(v[i]), 4),
    decreases i,
{
    lemma_encoded_len(v);
    lemma_encoded_len(v.drop_first());
    lemma_le_bytes_len(shifted(v[0]), 4);
    if i == 0 {
        assert(encoded(v).subrange(0, 4) =~= le_bytes(shifted(v[0]), 4));
    } else {
        lemma_encoded_group(v.drop_first(), i - 1);
        assert((i - 1) * 4 == i * 4 - 4) by (nonlinear_arith);
        assert(encoded(v).subrange(i * 4, i * 4 + 4) =~=
            encoded(v.drop_first()).subrange((i - 1) * 4, (i - 1) * 4 + 4));
    }
}

} // verus!

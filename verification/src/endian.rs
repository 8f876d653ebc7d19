use vstd::prelude::*;

use vstd::arithmetic::power2::{
    pow2, lemma_pow2_adds, lemma_pow2_pos, lemma_pow2_strictly_increases, lemma2_to64,
    lemma2_to64_rest,
};

verus! {

/// Big-endian value of a byte sequence: the first byte is the most
/// significant.
pub open spec fn be_value(s: Seq<u8>) -> nat
    decreases s.len(),
{
    if s.len() == 0 {
        0
    } else {
        (be_value(s.drop_last()) * 256 + s.last()) as nat
    }
}

/// Little-endian value of a byte sequence: the first byte is the least
/// significant.
pub open spec fn le_value(s: Seq<u8>) -> nat
    decreases s.len(),
{
    if s.len() == 0 {
        0
    } else {
        (le_value(s.drop_last()) + s.last() * pow2(8 * (s.len() - 1) as nat)) as nat
    }
}

/// Two's-complement reading of `raw` as a `width`-byte signed value.
pub open spec fn signed_of(raw: nat, width: nat) -> int
    recommends
        width >= 1,
{
    if raw < pow2((8 * width - 1) as nat) {
        raw as int
    } else {
        raw - pow2(8 * width)
    }
}

pub proof fn lemma_be_value_bound(s: Seq<u8>)
    ensures
        be_value(s) < pow2(8 * s.len()),
    decreases s.len(),
{
    if s.len() == 0 {
        lemma2_to64();
    } else {
        lemma_be_value_bound(s.drop_last());
        lemma_pow2_adds(8 * (s.len() - 1) as nat, 8);
        lemma2_to64();
        assert(be_value(s.drop_last()) * 256 + s.last() < pow2(8 * (s.len() - 1) as nat) * 256)
            by (nonlinear_arith)
            requires
                be_value(s.drop_last()) < pow2(8 * (s.len() - 1) as nat),
                s.last() < 256,
        ;
    }
}

pub proof fn lemma_le_value_bound(s: Seq<u8>)
    ensures
        le_value(s) < pow2(8 * s.len()),
    decreases s.len(),
{
    if s.len() == 0 {
        lemma2_to64();
    } else {
        lemma_le_value_bound(s.drop_last());
        lemma_pow2_adds(8 * (s.len() - 1) as nat, 8);
        lemma2_to64();
        assert(le_value(s.drop_last()) + s.last() * pow2(8 * (s.len() - 1) as nat) < pow2(
            8 * (s.len() - 1) as nat,
        ) * 256) by (nonlinear_arith)
            requires
                le_value(s.drop_last()) < pow2(8 * (s.len() - 1) as nat),
                s.last() < 256,
                pow2(8 * (s.len() - 1) as nat) > 0,
        ;
    }
}

/// The big-endian value of a concatenation: the left part carries the
/// high-order bits.
pub proof fn lemma_be_value_concat(a: Seq<u8>, b: Seq<u8>)
    ensures
        be_value(a + b) == be_value(a) * pow2(8 * b.len()) + be_value(b),
    decreases b.len(),
{
    if b.len() == 0 {
        assert(a + b =~= a);
        lemma2_to64();
        assert(be_value(a) * pow2(0) == be_value(a) * 1);
    } else {
        lemma_be_value_concat(a, b.drop_last());
        assert((a + b).drop_last() =~= a + b.drop_last());
        let x = be_value(a);
        let p = pow2(8 * (b.len() - 1) as nat);
        let d = be_value(b.drop_last());
        let l = b.last() as nat;
        lemma_pow2_adds(8 * (b.len() - 1) as nat, 8);
        lemma2_to64();
        assert(p * 256 == pow2(8 * b.len()));
        assert(be_value(a + b) == be_value(a + b.drop_last()) * 256 + l);
        assert(be_value(a + b.drop_last()) == x * p + d);
        assert((x * p + d) * 256 + l == x * (p * 256) + (d * 256 + l)) by (nonlinear_arith);
        assert(x * (p * 256) == x * pow2(8 * b.len()));
        assert(be_value(b) == d * 256 + l);
    }
}

/// The little-endian value of a concatenation: the left part carries the
/// low-order bits.
pub proof fn lemma_le_value_concat(a: Seq<u8>, b: Seq<u8>)
    ensures
        le_value(a + b) == le_value(a) + le_value(b) * pow2(8 * a.len()),
    decreases b.len(),
{
    if b.len() == 0 {
        assert(a + b =~= a);
    } else {
        lemma_le_value_concat(a, b.drop_last());
        assert((a + b).drop_last() =~= a + b.drop_last());
        let la = a.len();
        let lb = b.len();
        let d = le_value(b.drop_last());
        let l = b.last() as nat;
        let pa = pow2(8 * la);
        let pb = pow2(8 * (lb - 1) as nat);
        lemma_pow2_adds(8 * la, 8 * (lb - 1) as nat);
        assert((a + b).len() - 1 == la + (lb - 1));
        assert(8 * ((a + b).len() - 1) as nat == 8 * la + 8 * (lb - 1) as nat);
        assert(le_value(a + b) == le_value(a + b.drop_last()) + l * pow2(
            8 * ((a + b).len() - 1) as nat,
        ));
        assert(le_value(a + b.drop_last()) == le_value(a) + d * pa);
        assert(le_value(b) == d + l * pb);
        assert(l * (pa * pb) == (l * pb) * pa) by (nonlinear_arith);
        assert(d * pa + (l * pb) * pa == (d + l * pb) * pa) by (nonlinear_arith);
    }
}

/// Decode a big-endian unsigned integer of at most eight bytes.
pub fn decode_be(v: &Vec<u8>) -> (r: u64)
    requires
        v@.len() <= 8,
    ensures
        r == be_value(v@),
{
    let mut res: u64 = 0;
    let mut i: usize = 0;
    proof {
        assert(v@.take(0) =~= Seq::<u8>::empty());
    }
    while i < v.len()
        invariant
            i <= v@.len() <= 8,
            res == be_value(v@.take(i as int)),
        decreases v@.len() - i,
    {
        proof {
            lemma_be_value_bound(v@.take(i as int));
            lemma_pow2_adds(8 * i as nat, 8);
            lemma2_to64();
            lemma2_to64_rest();
            assert(8 * i as nat + 8 == 8 * (i + 1) as nat);
            if 8 * (i + 1) < 64 {
                lemma_pow2_strictly_increases(8 * (i + 1) as nat, 64);
            }
            assert(res * 256 + 255 < pow2(8 * i as nat) * 256) by (nonlinear_arith)
                requires
                    res < pow2(8 * i as nat),
            ;
            assert(v@.take(i + 1).drop_last() =~= v@.take(i as int));
            assert(v@.take(i + 1).last() == v@[i as int]);
        }
        res = res * 256 + (v[i] as u64);
        i += 1;
    }
    proof {
        assert(v@.take(v@.len() as int) =~= v@);
    }
    res
}

/// Decode a little-endian unsigned integer of at most eight bytes.
pub fn decode_le(v: &Vec<u8>) -> (r: u64)
    requires
        v@.len() <= 8,
    ensures
        r == le_value(v@),
{
    let mut res: u64 = 0;
    let mut i: usize = 0;
    proof {
        assert(v@.take(0) =~= Seq::<u8>::empty());
    }
    while i < v.len()
        invariant
            i <= v@.len() <= 8,
            res == le_value(v@.take(i as int)),
        decreases v@.len() - i,
    {
        proof {
            lemma_le_value_bound(v@.take(i as int));
            lemma_pow2_adds(8 * i as nat, 8);
            lemma2_to64();
            lemma2_to64_rest();
            assert(8 * i as nat + 8 == 8 * (i + 1) as nat);
            if 8 * (i + 1) < 64 {
                lemma_pow2_strictly_increases(8 * (i + 1) as nat, 64);
            }
            lemma_pow2_pos(8 * i as nat);
            vstd::bits::lemma_u64_shl_is_mul(1u64, (8 * i) as u64);
        }
        let p: u64 = 1u64 << ((8 * i) as u64);
        proof {
            assert(p == pow2(8 * i as nat));
            assert(v@[i as int] * p <= 255 * p) by (nonlinear_arith)
                requires
                    v@[i as int] <= 255,
                    p > 0,
            ;
            assert(255 * p + p == 256 * p) by (nonlinear_arith);
            assert(256 * p == pow2(8 * (i + 1) as nat)) by (nonlinear_arith)
                requires
                    p == pow2(8 * i as nat),
                    pow2(8 * (i + 1) as nat) == pow2(8 * i as nat) * 256,
            ;
            assert(v@.take(i + 1).drop_last() =~= v@.take(i as int));
            assert(v@.take(i + 1).last() == v@[i as int]);
        }
        let w: u64 = (v[i] as u64) * p;
        res = res + w;
        i += 1;
    }
    proof {
        assert(v@.take(v@.len() as int) =~= v@);
    }
    res
}

} // verus!

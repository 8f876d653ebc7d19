use vstd::prelude::*;

use vstd::arithmetic::power2::pow2;
use vstd::arithmetic::div_mod::{lemma_fundamental_div_mod, lemma_fundamental_div_mod_converse};

use crate::endian::{be_value, le_value, lemma_be_value_bound, lemma_le_value_bound};
use crate::reader::ReaderView;

verus! {

/// Number of whole bytes needed to supply `needed` more bits.
pub open spec fn ceil_bytes(needed: int) -> int
    recommends
        needed >= 1,
{
    (needed - 1) / 8 + 1
}

/// Whether the stream can supply `n` more bits: either the residual
/// buffer holds them, or enough whole bytes remain.
pub open spec fn bits_avail(v: ReaderView, n: int) -> bool {
    n <= v.bits_left || v.pos + ceil_bytes(n - v.bits_left) <= v.bytes.len()
}

/// The value a big-endian bit read of `n` bits yields: the residual bits
/// become the high end of the result, and the bytes read after them are
/// consumed most significant bit first.
pub open spec fn be_bits_val(v: ReaderView, n: int) -> nat {
    if n <= v.bits_left {
        v.bits / pow2((v.bits_left - n) as nat)
    } else {
        let needed = n - v.bits_left;
        let bn = ceil_bytes(needed);
        let chunk = be_value(v.bytes.subrange(v.pos, v.pos + bn));
        (v.bits * pow2(needed as nat) + chunk / pow2((8 * bn - needed) as nat)) as nat
    }
}

/// The reader state a big-endian bit read of `n` bits leaves behind.
pub open spec fn be_bits_next(v: ReaderView, n: int) -> ReaderView {
    if n <= v.bits_left {
        ReaderView { bits: v.bits % pow2((v.bits_left - n) as nat), bits_left: v.bits_left - n, ..v }
    } else {
        let needed = n - v.bits_left;
        let bn = ceil_bytes(needed);
        let chunk = be_value(v.bytes.subrange(v.pos, v.pos + bn));
        ReaderView {
            bytes: v.bytes,
            pos: v.pos + bn,
            bits: chunk % pow2((8 * bn - needed) as nat),
            bits_left: 8 * bn - needed,
        }
    }
}

/// The value a little-endian bit read of `n` bits yields: the residual
/// bits become the low end of the result, and the bytes read after them
/// are consumed least significant bit first.
pub open spec fn le_bits_val(v: ReaderView, n: int) -> nat {
    if n <= v.bits_left {
        v.bits % pow2(n as nat)
    } else {
        let needed = n - v.bits_left;
        let bn = ceil_bytes(needed);
        let chunk = le_value(v.bytes.subrange(v.pos, v.pos + bn));
        (chunk % pow2(needed as nat)) * pow2(v.bits_left as nat) + v.bits
    }
}

/// The reader state a little-endian bit read of `n` bits leaves behind.
pub open spec fn le_bits_next(v: ReaderView, n: int) -> ReaderView {
    if n <= v.bits_left {
        ReaderView { bits: v.bits / pow2(n as nat), bits_left: v.bits_left - n, ..v }
    } else {
        let needed = n - v.bits_left;
        let bn = ceil_bytes(needed);
        let chunk = le_value(v.bytes.subrange(v.pos, v.pos + bn));
        ReaderView {
            bytes: v.bytes,
            pos: v.pos + bn,
            bits: chunk / pow2(needed as nat),
            bits_left: 8 * bn - needed,
        }
    }
}

/// For one more bit through seven more bits a single byte is read, and so
/// on: `ceil_bytes` rounds up to whole bytes.
pub proof fn lemma_ceil_bytes(needed: int)
    requires
        needed >= 1,
    ensures
        0 <= 8 * ceil_bytes(needed) - needed <= 7,
{
    lemma_fundamental_div_mod(needed - 1, 8);
}

/// Dividing by `d` and then by `e` is dividing by `d * e`; the remainder
/// modulo `d * e` splits into a high part and a low part.
proof fn lemma_div_mod_split(x: int, d: int, e: int)
    requires
        x >= 0,
        d > 0,
        e > 0,
    ensures
        x / d / e == x / (d * e),
        x % (d * e) == ((x / d) % e) * d + x % d,
        x % d == (x % (d * e)) % d,
        x / d == (x / (d * e)) * e + (x % (d * e)) / d,
        (x / d) % e == (x % (d * e)) / d,
{
    assert(d * e > 0) by (nonlinear_arith)
        requires
            d > 0,
            e > 0,
    ;
    let de = d * e;
    let q = x / de;
    let r = x % de;
    lemma_fundamental_div_mod(x, de);
    lemma_fundamental_div_mod(r, d);
    let rh = r / d;
    let rl = r % d;
    assert(0 <= rl < d);
    assert(0 <= r < de);
    assert(rh < e) by {
        vstd::arithmetic::div_mod::lemma_multiply_divide_lt(r, d, e);
    }
    assert(rh >= 0) by {
        vstd::arithmetic::div_mod::lemma_div_pos_is_pos(r, d);
    }
    assert(x == (q * e + rh) * d + rl) by (nonlinear_arith)
        requires
            x == de * q + r,
            r == d * rh + rl,
            de == d * e,
    ;
    lemma_fundamental_div_mod_converse(x, d, q * e + rh, rl);
    assert(x / d == q * e + rh);
    assert(x % d == rl);
    lemma_fundamental_div_mod_converse(x / d, e, q, rh);
    assert(x / d / e == q);
    assert((x / d) % e == rh);
    assert(x % (d * e) == rh * d + rl) by (nonlinear_arith)
        requires
            r == d * rh + rl,
            x % (d * e) == r,
    ;
}

/// A count of bytes is `ceil_bytes(needed)` exactly when it leaves zero
/// to seven spare bits.
proof fn lemma_ceil_bytes_unique(needed: int, bn: int)
    requires
        needed >= 1,
        0 <= 8 * bn - needed <= 7,
    ensures
        bn == ceil_bytes(needed),
{
    lemma_ceil_bytes(needed);
}

/// Splitting a big-endian bit read: reading `a + b` bits in one call
/// yields the same value and the same final state as reading `a` bits
/// and then `b` bits, the first value carrying the high-order bits.
pub proof fn lemma_be_bits_split(v: ReaderView, a: int, b: int)
    requires
        v.wf(),
        0 <= a,
        0 <= b,
        a + b <= 64,
        bits_avail(v, a + b),
    ensures
        bits_avail(v, a),
        bits_avail(be_bits_next(v, a), b),
        be_bits_val(v, a + b) == be_bits_val(v, a) * pow2(b as nat) + be_bits_val(
            be_bits_next(v, a),
            b,
        ),
        be_bits_next(be_bits_next(v, a), b) == be_bits_next(v, a + b),
{
    let m = a + b;
    let bl = v.bits_left;
    let bb = v.bits as int;
    vstd::arithmetic::power2::lemma_pow2_pos((b) as nat);
    if m <= bl {
        // both reads served from the residual buffer
        let d = pow2((bl - m) as nat) as int;
        let e = pow2(b as nat) as int;
        vstd::arithmetic::power2::lemma_pow2_pos((bl - m) as nat);
        vstd::arithmetic::power2::lemma_pow2_adds((bl - m) as nat, b as nat);
        lemma_div_mod_split(bb, d, e);
        let n1 = be_bits_next(v, a);
        assert(n1.bits == bb % (d * e));
        assert(be_bits_val(v, m) == bb / d);
        assert(be_bits_val(v, a) == bb / (d * e));
        assert(be_bits_val(n1, b) == (bb % (d * e)) / d);
        assert(be_bits_next(n1, b).bits == (bb % (d * e)) % d);
        assert(be_bits_next(v, m).bits == bb % d);
    } else if a <= bl {
        // the first read drains part of the residual buffer; the second
        // crosses into the bytes
        let needed = m - bl;
        lemma_ceil_bytes(needed);
        let bn = ceil_bytes(needed);
        let nbl = (8 * bn - needed) as nat;
        let cc = be_value(v.bytes.subrange(v.pos, v.pos + bn));
        let n1 = be_bits_next(v, a);
        assert(n1.bits_left == bl - a);
        assert(n1.pos == v.pos);
        assert(n1.bytes == v.bytes);
        assert(b - n1.bits_left == needed);
        assert(ceil_bytes(b - n1.bits_left) == bn);
        let pa = pow2((bl - a) as nat);
        let pn = pow2(needed as nat);
        vstd::arithmetic::power2::lemma_pow2_pos((bl - a) as nat);
        vstd::arithmetic::power2::lemma_pow2_pos(needed as nat);
        vstd::arithmetic::power2::lemma_pow2_adds((bl - a) as nat, needed as nat);
        assert(pow2(b as nat) == pa * pn);
        assert(n1.bits == v.bits % pa);
        assert(n1.bytes.subrange(n1.pos, n1.pos + bn) =~= v.bytes.subrange(v.pos, v.pos + bn));
        assert(be_bits_val(v, m) == (v.bits * pn + cc / pow2(nbl)) as nat);
        assert(be_bits_val(v, a) == v.bits / pa);
        assert(be_bits_val(n1, b) == (n1.bits * pn + cc / pow2(nbl)) as nat);
        lemma_fundamental_div_mod(v.bits as int, pa as int);
        let q = v.bits / pa;
        let r = v.bits % pa;
        assert(v.bits == pa * q + r);
        assert(v.bits * pn == q * (pa * pn) + r * pn) by (nonlinear_arith)
            requires
                v.bits == pa * q + r,
        ;
        assert(be_bits_val(v, a) * pow2(b as nat) == q * (pa * pn)) by (nonlinear_arith)
            requires
                pow2(b as nat) == pa * pn,
                be_bits_val(v, a) == q,
        ;
        assert(n1.bits * pn == r * pn);
        let w = cc / pow2(nbl);
        assert(v.bits * pn + w == q * (pa * pn) + (r * pn + w)) by (nonlinear_arith)
            requires
                v.bits == pa * q + r,
        ;
        assert(v.bits * pn + cc / pow2(nbl) == q * (pa * pn) + (n1.bits * pn + cc / pow2(nbl)));
        assert(be_bits_val(v, m) == be_bits_val(v, a) * pow2(b as nat) + be_bits_val(n1, b));
    } else {
        // the first read already crosses into the bytes
        let na = a - bl;
        lemma_ceil_bytes(na);
        let bna = ceil_bytes(na);
        let nbla = 8 * bna - na;
        let ca = be_value(v.bytes.subrange(v.pos, v.pos + bna)) as int;
        let n1 = be_bits_next(v, a);
        assert(n1.bits_left == nbla);
        assert(n1.pos == v.pos + bna);
        assert(n1.bits == ca % (pow2(nbla as nat) as int));
        let nm = m - bl;
        vstd::arithmetic::power2::lemma_pow2_pos(nbla as nat);
        vstd::arithmetic::power2::lemma_pow2_pos(na as nat);
        lemma_be_value_bound(v.bytes.subrange(v.pos, v.pos + bna));
        if b <= nbla {
            // the second read is served from the new residual buffer
            lemma_ceil_bytes_unique(nm, bna);
            assert(ceil_bytes(nm) == bna);
            let d = pow2((nbla - b) as nat) as int;
            let e = pow2(b as nat) as int;
            vstd::arithmetic::power2::lemma_pow2_pos((nbla - b) as nat);
            vstd::arithmetic::power2::lemma_pow2_adds((nbla - b) as nat, b as nat);
            lemma_div_mod_split(ca, d, e);
            // value: split the chunk's low bits
            vstd::arithmetic::power2::lemma_pow2_adds(na as nat, b as nat);
            assert(be_bits_val(v, m) == (bb * pow2(nm as nat) + ca / d) as nat);
            assert(be_bits_val(v, a) == (bb * pow2(na as nat) + ca / (d * e)) as nat);
            assert(be_bits_val(n1, b) == (ca % (d * e)) / d);
            assert((bb * pow2(na as nat) + ca / (d * e)) * e == bb * pow2(nm as nat) + (ca / (d
                * e)) * e) by (nonlinear_arith)
                requires
                    pow2(nm as nat) == pow2(na as nat) * e,
            ;
            assert(ca / d == (ca / (d * e)) * e + (ca % (d * e)) / d);
            assert(be_bits_next(v, m).bits == ca % d);
            assert(be_bits_next(n1, b).bits == (ca % (d * e)) % d);
        } else {
            // both reads cross into the bytes
            let nb = b - nbla;
            lemma_ceil_bytes(nb);
            let bnb = ceil_bytes(nb);
            let nblb = 8 * bnb - nb;
            assert(8 * (bna + bnb) - nm == nblb);
            lemma_ceil_bytes_unique(nm, bna + bnb);
            let cb = be_value(v.bytes.subrange(v.pos + bna, v.pos + bna + bnb)) as int;
            let cm = be_value(v.bytes.subrange(v.pos, v.pos + bna + bnb)) as int;
            assert(v.bytes.subrange(v.pos, v.pos + bna + bnb) =~= v.bytes.subrange(
                v.pos,
                v.pos + bna,
            ) + v.bytes.subrange(v.pos + bna, v.pos + bna + bnb));
            crate::endian::lemma_be_value_concat(
                v.bytes.subrange(v.pos, v.pos + bna),
                v.bytes.subrange(v.pos + bna, v.pos + bna + bnb),
            );
            assert(cm == ca * pow2(8 * bnb as nat) + cb);
            let pb = pow2(nblb as nat) as int;
            let pnb = pow2(nb as nat) as int;
            vstd::arithmetic::power2::lemma_pow2_pos(nblb as nat);
            vstd::arithmetic::power2::lemma_pow2_pos(nb as nat);
            vstd::arithmetic::power2::lemma_pow2_adds(nb as nat, nblb as nat);
            assert(pow2(8 * bnb as nat) == pnb * pb);
            // the one-call value
            assert(be_bits_val(v, m) == (bb * pow2(nm as nat) + cm / pb) as nat);
            assert(be_bits_val(v, a) == (bb * pow2(na as nat) + ca / (pow2(nbla as nat) as int)) as nat);
            assert(be_bits_val(n1, b) == ((ca % (pow2(nbla as nat) as int)) * pnb + cb / pb) as nat);
            // cm / pb == ca * pnb + cb / pb
            assert(cm == (ca * pnb) * pb + cb) by (nonlinear_arith)
                requires
                    cm == ca * (pnb * pb) + cb,
            ;
            vstd::arithmetic::div_mod::lemma_hoist_over_denominator(cb, ca * pnb, pb as nat);
            assert(cm / pb == ca * pnb + cb / pb);
            // ca recomposed from its residual split
            let pla = pow2(nbla as nat) as int;
            lemma_fundamental_div_mod(ca, pla);
            vstd::arithmetic::power2::lemma_pow2_adds(nbla as nat, nb as nat);
            // the split value, assembled
            assert(pow2(b as nat) == pla * pnb);
            assert((bb * pow2(na as nat) + ca / pla) * (pla * pnb) + ((ca % pla) * pnb + cb / pb)
                == bb * (pow2(na as nat) * (pla * pnb)) + (pla * (ca / pla) + ca % pla) * pnb + cb
                / pb) by (nonlinear_arith);
            assert(pow2(na as nat) * (pla * pnb) == pow2(nm as nat)) by {
                vstd::arithmetic::power2::lemma_pow2_adds(na as nat, nbla as nat);
                vstd::arithmetic::power2::lemma_pow2_adds((na + nbla) as nat, nb as nat);
                assert(na + nbla + nb == nm);
                assert(pow2(na as nat) * (pla * pnb) == (pow2(na as nat) * pla) * pnb)
                    by (nonlinear_arith);
            }
            // residual states agree
            assert(be_bits_next(v, m).bits == cm % pb);
            assert(be_bits_next(n1, b).bits == cb % pb);
            assert(cm % pb == cb % pb) by {
                assert(cm == pb * (ca * pnb) + cb) by (nonlinear_arith)
                    requires
                        cm == (ca * pnb) * pb + cb,
                ;
                vstd::arithmetic::div_mod::lemma_mod_multiples_vanish(ca * pnb, cb, pb);
            }
            assert(be_bits_next(v, m).pos == v.pos + bna + bnb);
            assert(be_bits_next(n1, b).pos == v.pos + bna + bnb);
        }
    }
}

/// Splitting a little-endian bit read: reading `a + b` bits in one call
/// yields the same value and the same final state as reading `a` bits
/// and then `b` bits, the first value carrying the low-order bits.
pub proof fn lemma_le_bits_split(v: ReaderView, a: int, b: int)
    requires
        v.wf(),
        0 <= a,
        0 <= b,
        a + b <= 64,
        bits_avail(v, a + b),
    ensures
        bits_avail(v, a),
        bits_avail(le_bits_next(v, a), b),
        le_bits_val(v, a + b) == le_bits_val(v, a) + le_bits_val(le_bits_next(v, a), b) * pow2(
            a as nat,
        ),
        le_bits_next(le_bits_next(v, a), b) == le_bits_next(v, a + b),
{
    let m = a + b;
    let bl = v.bits_left;
    vstd::arithmetic::power2::lemma_pow2_pos(a as nat);
    vstd::arithmetic::power2::lemma_pow2_pos(b as nat);
    if m <= bl {
        // both reads served from the residual buffer
        let d = pow2(a as nat) as int;
        let e = pow2(b as nat) as int;
        vstd::arithmetic::power2::lemma_pow2_adds(a as nat, b as nat);
        lemma_div_mod_split(v.bits as int, d, e);
        let n1 = le_bits_next(v, a);
        assert(n1.bits == v.bits as int / d);
        assert(le_bits_val(v, m) == v.bits as int % (d * e));
        assert(le_bits_val(v, a) == v.bits as int % d);
        assert(le_bits_val(n1, b) == (v.bits as int / d) % e);
        assert(le_bits_next(n1, b).bits == v.bits as int / d / e);
        assert(le_bits_next(v, m).bits == v.bits as int / (d * e));
    } else if a <= bl {
        // the first read drains part of the residual buffer; the second
        // crosses into the bytes
        let needed = m - bl;
        lemma_ceil_bytes(needed);
        let bn = ceil_bytes(needed);
        let cc = le_value(v.bytes.subrange(v.pos, v.pos + bn));
        let n1 = le_bits_next(v, a);
        assert(n1.bits_left == bl - a);
        assert(n1.pos == v.pos);
        assert(n1.bytes == v.bytes);
        assert(b - n1.bits_left == needed);
        assert(ceil_bytes(b - n1.bits_left) == bn);
        assert(n1.bytes.subrange(n1.pos, n1.pos + bn) =~= v.bytes.subrange(v.pos, v.pos + bn));
        let pa = pow2(a as nat);
        let pb1 = pow2((bl - a) as nat);
        let pbl = pow2(bl as nat);
        vstd::arithmetic::power2::lemma_pow2_pos((bl - a) as nat);
        vstd::arithmetic::power2::lemma_pow2_pos(bl as nat);
        vstd::arithmetic::power2::lemma_pow2_adds((bl - a) as nat, a as nat);
        assert(pbl == pb1 * pa);
        lemma_fundamental_div_mod(v.bits as int, pa as int);
        let q = v.bits / pa;
        let r = v.bits % pa;
        assert(v.bits == pa * q + r);
        assert(n1.bits == q);
        let t = cc % pow2(needed as nat);
        assert(le_bits_val(v, m) == t * pbl + v.bits);
        assert(le_bits_val(v, a) == r);
        assert(le_bits_val(n1, b) == t * pb1 + q);
        assert(t * pbl + (pa * q + r) == r + (t * pb1 + q) * pa) by (nonlinear_arith)
            requires
                pbl == pb1 * pa,
        ;
        assert(le_bits_val(v, m) == le_bits_val(v, a) + le_bits_val(n1, b) * pow2(a as nat));
        assert(le_bits_next(n1, b).bits == cc / pow2(needed as nat));
        assert(le_bits_next(v, m).bits == cc / pow2(needed as nat));
    } else {
        // the first read already crosses into the bytes
        let na = a - bl;
        lemma_ceil_bytes(na);
        let bna = ceil_bytes(na);
        let nbla = 8 * bna - na;
        let ca = le_value(v.bytes.subrange(v.pos, v.pos + bna));
        let n1 = le_bits_next(v, a);
        assert(n1.bits_left == nbla);
        assert(n1.pos == v.pos + bna);
        assert(n1.bits == ca / pow2(na as nat));
        let nm = m - bl;
        let pna = pow2(na as nat);
        let pbl = pow2(bl as nat);
        vstd::arithmetic::power2::lemma_pow2_pos(na as nat);
        vstd::arithmetic::power2::lemma_pow2_pos(nbla as nat);
        vstd::arithmetic::power2::lemma_pow2_pos(bl as nat);
        lemma_le_value_bound(v.bytes.subrange(v.pos, v.pos + bna));
        vstd::arithmetic::power2::lemma_pow2_adds(bl as nat, na as nat);
        assert(pow2(a as nat) == pbl * pna);
        if b <= nbla {
            // the second read is served from the new residual buffer
            lemma_ceil_bytes_unique(nm, bna);
            let e = pow2(b as nat);
            vstd::arithmetic::power2::lemma_pow2_adds(na as nat, b as nat);
            lemma_div_mod_split(ca as int, pna as int, e as int);
            let u = (ca / pna) % e;
            let w = ca % pna;
            assert(ca % pow2(nm as nat) == u * pna + w);
            assert(le_bits_val(v, m) == (ca % pow2(nm as nat)) * pbl + v.bits);
            assert(le_bits_val(v, a) == w * pbl + v.bits);
            assert(le_bits_val(n1, b) == u);
            assert((u * pna + w) * pbl + v.bits == (w * pbl + v.bits) + u * (pbl * pna))
                by (nonlinear_arith);
            assert(le_bits_val(v, m) == le_bits_val(v, a) + le_bits_val(n1, b) * pow2(a as nat));
            assert(le_bits_next(n1, b).bits == ca / pna / e);
            assert(le_bits_next(v, m).bits == ca / pow2(nm as nat));
            assert(le_bits_next(n1, b).bits_left == nbla - b);
            assert(le_bits_next(v, m).bits_left == 8 * bna - nm);
        } else {
            // both reads cross into the bytes
            let nb = b - nbla;
            lemma_ceil_bytes(nb);
            let bnb = ceil_bytes(nb);
            let nblb = 8 * bnb - nb;
            assert(8 * (bna + bnb) - nm == nblb);
            lemma_ceil_bytes_unique(nm, bna + bnb);
            let cb = le_value(v.bytes.subrange(v.pos + bna, v.pos + bna + bnb));
            let cm = le_value(v.bytes.subrange(v.pos, v.pos + bna + bnb));
            assert(v.bytes.subrange(v.pos, v.pos + bna + bnb) =~= v.bytes.subrange(
                v.pos,
                v.pos + bna,
            ) + v.bytes.subrange(v.pos + bna, v.pos + bna + bnb));
            crate::endian::lemma_le_value_concat(
                v.bytes.subrange(v.pos, v.pos + bna),
                v.bytes.subrange(v.pos + bna, v.pos + bna + bnb),
            );
            let pba = pow2(8 * bna as nat);
            assert(cm == ca + cb * pba);
            let pnb = pow2(nb as nat);
            vstd::arithmetic::power2::lemma_pow2_pos(nb as nat);
            vstd::arithmetic::power2::lemma_pow2_pos(8 * bna as nat);
            vstd::arithmetic::power2::lemma_pow2_adds(na as nat, nbla as nat);
            assert(pba == pna * pow2(nbla as nat));
            // cm splits at the byte boundary of the first chunk
            assert(cm == cb * pba + ca) by (nonlinear_arith)
                requires
                    cm == ca + cb * pba,
            ;
            lemma_fundamental_div_mod_converse(cm as int, pba as int, cb as int, ca as int);
            assert(cm / pba == cb);
            assert(cm % pba == ca);
            vstd::arithmetic::power2::lemma_pow2_adds((8 * bna) as nat, nb as nat);
            assert(8 * bna + nb == nm);
            lemma_div_mod_split(cm as int, pba as int, pnb as int);
            assert(cm % pow2(nm as nat) == ((cm / pba) % pnb) * pba + cm % pba);
            assert(cm % pow2(nm as nat) == (cb % pnb) * pba + ca);
            // values
            let u = cb % pnb;
            assert(le_bits_val(v, m) == (cm % pow2(nm as nat)) * pbl + v.bits);
            assert(le_bits_val(v, a) == (ca % pna) * pbl + v.bits);
            assert(le_bits_val(n1, b) == u * pow2(nbla as nat) + ca / pna);
            lemma_fundamental_div_mod(ca as int, pna as int);
            let q = ca / pna;
            let r = ca % pna;
            assert(ca == pna * q + r);
            assert((u * pba + (pna * q + r)) * pbl + v.bits == ((r * pbl + v.bits) + (u * pow2(
                nbla as nat,
            ) + q) * (pbl * pna))) by (nonlinear_arith)
                requires
                    pba == pna * pow2(nbla as nat),
            ;
            assert(le_bits_val(v, m) == le_bits_val(v, a) + le_bits_val(n1, b) * pow2(a as nat));
            // residual states agree
            assert(le_bits_next(v, m).bits == cm / pow2(nm as nat));
            assert(cm / pow2(nm as nat) == cm / pba / pnb);
            assert(le_bits_next(n1, b).bits == cb / pnb);
            assert(le_bits_next(v, m).pos == v.pos + bna + bnb);
            assert(le_bits_next(n1, b).pos == v.pos + bna + bnb);
            assert(le_bits_next(v, m).bits_left == nblb);
            assert(le_bits_next(n1, b).bits_left == nblb);
        }
    }
}

} // verus!

use vstd::prelude::*;

use crate::reader::{BytesReader, term_index, lemma_term_index};

verus! {

/// The given bytes with the maximal suffix of `pad` bytes removed.
pub open spec fn strip_right_spec(s: Seq<u8>, pad: u8) -> Seq<u8>
    decreases s.len(),
{
    if s.len() > 0 && s.last() == pad {
        strip_right_spec(s.drop_last(), pad)
    } else {
        s
    }
}

/// Per-byte circular left shift by `a` places, `a` between zero and
/// seven.
pub open spec fn rotl_byte(b: u8, a: u8) -> u8
    recommends
        a < 8,
{
    if a == 0 {
        b
    } else {
        (b << a) | (b >> ((8 - a) as u8))
    }
}

/// Stripping pad bytes ignores any padding already present: appending
/// `pad` to a sequence does not change what stripping returns.
pub proof fn lemma_strip_right_push_pad(s: Seq<u8>, pad: u8)
    ensures
        strip_right_spec(s.push(pad), pad) == strip_right_spec(s, pad),
{
    assert(s.push(pad).last() == pad);
    assert(s.push(pad).drop_last() =~= s);
}

/// Appending any run of `k` pad bytes does not change what stripping
/// returns.
pub proof fn lemma_strip_right_pad_run(s: Seq<u8>, pad: u8, k: nat)
    ensures
        strip_right_spec(s + Seq::new(k, |i: int| pad), pad) == strip_right_spec(s, pad),
    decreases k,
{
    if k == 0 {
        assert(s + Seq::new(0, |i: int| pad) =~= s);
    } else {
        lemma_strip_right_pad_run(s, pad, (k - 1) as nat);
        assert(s + Seq::new(k, |i: int| pad) =~= (s + Seq::new((k - 1) as nat, |i: int| pad)).push(
            pad,
        ));
        lemma_strip_right_push_pad(s + Seq::new((k - 1) as nat, |i: int| pad), pad);
    }
}

/// XOR with one key byte undoes itself.
pub proof fn lemma_xor_one_involutive(b: u8, key: u8)
    ensures
        (b ^ key) ^ key == b,
{
    assert((b ^ key) ^ key == b) by (bit_vector);
}

/// Rotating left by `a` and then by `8 - a` restores every byte.
pub proof fn lemma_rotate_left_involutive(b: u8, a: u8)
    requires
        1 <= a <= 7,
    ensures
        rotl_byte(rotl_byte(b, a), (8 - a) as u8) == b,
{
    let c = (8 - a) as u8;
    assert((((b << a) | (b >> c)) << c) | (((b << a) | (b >> c)) >> a) == b) by (bit_vector)
        requires
            1 <= a <= 7,
            c == (8 - a) as u8,
    ;
    assert(rotl_byte(b, a) == (b << a) | (b >> c));
    assert(rotl_byte(rotl_byte(b, a), c) == ((rotl_byte(b, a)) << c) | ((rotl_byte(b, a)) >> ((8
        - c) as u8)));
}

/// What inflating a zlib stream yields: a function of the input bytes
/// alone.
pub uninterp spec fn inflate_of(s: Seq<u8>) -> Seq<u8>;

/// XOR with one key byte, applied twice with the same key, restores the
/// original sequence.
pub proof fn lemma_xor_one_round_trip(s: Seq<u8>, t: Seq<u8>, u: Seq<u8>, key: u8)
    requires
        t.len() == s.len(),
        forall|i: int| 0 <= i < s.len() ==> t[i] == (s[i] ^ key),
        u.len() == t.len(),
        forall|i: int| 0 <= i < t.len() ==> u[i] == (t[i] ^ key),
    ensures
        u == s,
{
    assert forall|i: int| 0 <= i < s.len() implies u[i] == s[i] by {
        lemma_xor_one_involutive(s[i], key);
    }
    assert(u =~= s);
}

/// XOR with a cyclic key, applied twice with the same key, restores the
/// original sequence.
pub proof fn lemma_xor_many_round_trip(s: Seq<u8>, t: Seq<u8>, u: Seq<u8>, key: Seq<u8>)
    requires
        key.len() > 0,
        t.len() == s.len(),
        forall|i: int| 0 <= i < s.len() ==> t[i] == (s[i] ^ key[i % key.len() as int]),
        u.len() == t.len(),
        forall|i: int| 0 <= i < t.len() ==> u[i] == (t[i] ^ key[i % key.len() as int]),
    ensures
        u == s,
{
    assert forall|i: int| 0 <= i < s.len() implies u[i] == s[i] by {
        lemma_xor_one_involutive(s[i], key[i % key.len() as int]);
    }
    assert(u =~= s);
}

/// Rotating every byte left by `a` and then by `8 - a` restores the
/// original sequence, for `a` between one and seven.
pub proof fn lemma_rotate_left_round_trip(s: Seq<u8>, t: Seq<u8>, u: Seq<u8>, a: u8)
    requires
        1 <= a <= 7,
        t.len() == s.len(),
        forall|i: int| 0 <= i < s.len() ==> t[i] == rotl_byte(s[i], a),
        u.len() == t.len(),
        forall|i: int| 0 <= i < t.len() ==> u[i] == rotl_byte(t[i], (8 - a) as u8),
    ensures
        u == s,
{
    assert forall|i: int| 0 <= i < s.len() implies u[i] == s[i] by {
        lemma_rotate_left_involutive(s[i], a);
    }
    assert(u =~= s);
}

impl BytesReader {
    /// Inflate a zlib stream. Relies on flate2's `read::ZlibDecoder`: the
    /// decompressed bytes depend on the input alone, and a malformed
    /// stream yields whatever was decoded before the error.
    #[verifier::external_body]
    pub fn process_zlib(bytes: &Vec<u8>) -> (r: Vec<u8>)
        ensures
            r@ == inflate_of(bytes@),
    {
        let mut dec = flate2::read::ZlibDecoder::new(bytes.as_slice());
        let mut out: Vec<u8> = Vec::new();
        let _ = std::io::Read::read_to_end(&mut dec, &mut out);
        out
    }

    /// Trim the maximal suffix of bytes equal to `pad`.
    pub fn bytes_strip_right(bytes: &Vec<u8>, pad: u8) -> (r: Vec<u8>)
        ensures
            r@ == strip_right_spec(bytes@, pad),
    {
        let mut new_len = bytes.len();
        proof {
            assert(bytes@.take(bytes@.len() as int) =~= bytes@);
        }
        while new_len > 0 && bytes[new_len - 1] == pad
            invariant
                new_len <= bytes@.len(),
                strip_right_spec(bytes@, pad) == strip_right_spec(
                    bytes@.take(new_len as int),
                    pad,
                ),
            decreases new_len,
        {
            proof {
                assert(bytes@.take(new_len as int).last() == pad);
                assert(bytes@.take(new_len as int).drop_last() =~= bytes@.take(new_len - 1));
            }
            new_len -= 1;
        }
        proof {
            if new_len > 0 {
                assert(bytes@.take(new_len as int).last() != pad);
            }
            assert(strip_right_spec(bytes@.take(new_len as int), pad) == bytes@.take(
                new_len as int,
            ));
        }
        let mut out: Vec<u8> = Vec::new();
        let mut i: usize = 0;
        proof {
            assert(out@ =~= bytes@.take(0));
        }
        while i < new_len
            invariant
                i <= new_len <= bytes@.len(),
                out@ == bytes@.take(i as int),
            decreases new_len - i,
        {
            out.push(bytes[i]);
            i += 1;
            proof {
                assert(out@ =~= bytes@.take(i as int));
            }
        }
        out
    }

    /// All bytes up to the first `term`, the terminator included iff
    /// `include_term` is set and a terminator was found.
    pub fn bytes_terminate(bytes: &Vec<u8>, term: u8, include_term: bool) -> (r: Vec<u8>)
        ensures
            ({
                let t = term_index(bytes@, 0, term);
                r@ == (if include_term && t < bytes@.len() {
                    bytes@.take(t + 1)
                } else {
                    bytes@.take(t)
                })
            }),
    {
        let ghost t = term_index(bytes@, 0, term);
        proof {
            lemma_term_index(bytes@, 0, term);
        }
        let mut new_len: usize = 0;
        while new_len < bytes.len() && bytes[new_len] != term
            invariant
                0 <= new_len <= t <= bytes@.len(),
                t == term_index(bytes@, 0, term),
                t < bytes@.len() ==> bytes@[t] == term,
                forall|j: int| 0 <= j < t ==> bytes@[j] != term,
            decreases bytes@.len() - new_len,
        {
            proof {
                assert(new_len < t);
            }
            new_len += 1;
        }
        proof {
            assert(new_len == t);
        }
        if include_term && new_len < bytes.len() {
            new_len += 1;
        }
        let mut out: Vec<u8> = Vec::new();
        let mut i: usize = 0;
        proof {
            assert(out@ =~= bytes@.take(0));
        }
        while i < new_len
            invariant
                i <= new_len <= bytes@.len(),
                out@ == bytes@.take(i as int),
            decreases new_len - i,
        {
            out.push(bytes[i]);
            i += 1;
            proof {
                assert(out@ =~= bytes@.take(i as int));
            }
        }
        out
    }

    /// XOR every byte with the single key byte.
    pub fn process_xor_one(bytes: &Vec<u8>, key: u8) -> (r: Vec<u8>)
        ensures
            r@.len() == bytes@.len(),
            forall|i: int| 0 <= i < bytes@.len() ==> r@[i] == (bytes@[i] ^ key),
    {
        let mut out: Vec<u8> = Vec::new();
        let mut i: usize = 0;
        while i < bytes.len()
            invariant
                i <= bytes@.len(),
                out@.len() == i,
                forall|j: int| 0 <= j < i ==> out@[j] == (bytes@[j] ^ key),
            decreases bytes@.len() - i,
        {
            out.push(bytes[i] ^ key);
            i += 1;
        }
        out
    }

    /// XOR the bytes with the key, repeating the key cyclically. The key
    /// must not be empty.
    pub fn process_xor_many(bytes: &Vec<u8>, key: &[u8]) -> (r: Vec<u8>)
        requires
            key@.len() > 0,
        ensures
            r@.len() == bytes@.len(),
            forall|i: int| 0 <= i < bytes@.len() ==> r@[i] == (bytes@[i] ^ key@[i % key@.len()
                as int]),
    {
        let mut out: Vec<u8> = Vec::new();
        let mut i: usize = 0;
        let mut ki: usize = 0;
        while i < bytes.len()
            invariant
                i <= bytes@.len(),
                out@.len() == i,
                key@.len() > 0,
                ki < key@.len(),
                ki == i as int % key@.len() as int,
                forall|j: int| 0 <= j < i ==> out@[j] == (bytes@[j] ^ key@[j % key@.len() as int]),
            decreases bytes@.len() - i,
        {
            out.push(bytes[i] ^ key[ki]);
            proof {
                let kl = key@.len() as int;
                let q = i as int / kl;
                vstd::arithmetic::div_mod::lemma_fundamental_div_mod(i as int, kl);
                if ki + 1 < kl {
                    assert(i + 1 == q * kl + (ki + 1)) by (nonlinear_arith)
                        requires
                            i as int == kl * q + ki,
                    ;
                    vstd::arithmetic::div_mod::lemma_fundamental_div_mod_converse(
                        i + 1, kl, q, ki + 1);
                } else {
                    assert(i + 1 == (q + 1) * kl + 0) by (nonlinear_arith)
                        requires
                            i as int == kl * q + ki,
                            ki + 1 == kl,
                    ;
                    vstd::arithmetic::div_mod::lemma_fundamental_div_mod_converse(
                        i + 1, kl, q + 1, 0);
                }
            }
            ki += 1;
            if ki >= key.len() {
                ki = 0;
            }
            i += 1;
        }
        out
    }

    /// Circular left shift of every byte by `amount` places; zero leaves
    /// the bytes unchanged.
    pub fn process_rotate_left(bytes: &Vec<u8>, amount: u8) -> (r: Vec<u8>)
        requires
            amount < 8,
        ensures
            r@.len() == bytes@.len(),
            forall|i: int| 0 <= i < bytes@.len() ==> r@[i] == rotl_byte(bytes@[i], amount),
    {
        let mut out: Vec<u8> = Vec::new();
        let mut i: usize = 0;
        while i < bytes.len()
            invariant
                i <= bytes@.len(),
                out@.len() == i,
                amount < 8,
                forall|j: int| 0 <= j < i ==> out@[j] == rotl_byte(bytes@[j], amount),
            decreases bytes@.len() - i,
        {
            let b = bytes[i];
            if amount == 0 {
                out.push(b);
            } else {
                out.push((b << amount) | (b >> (8 - amount)));
            }
            i += 1;
        }
        out
    }
}

} // verus!

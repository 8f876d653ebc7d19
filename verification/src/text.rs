use vstd::prelude::*;

use vstd::string::StringExecFns;

use crate::errors::{KError, KResult};

verus! {

/// Whether a label names an encoding of the WHATWG registry, matched as
/// the standard prescribes (case- and punctuation-insensitively).
pub uninterp spec fn is_whatwg_label(label: Seq<char>) -> bool;

/// The replacement-mode decoding of the bytes under the encoding the
/// label names: malformed sequences become U+FFFD. A function of the
/// label and the bytes alone.
pub uninterp spec fn whatwg_decode(label: Seq<char>, bytes: Seq<u8>) -> Seq<char>;

/// The character the cp437 crate's fixed table assigns to a byte at or
/// above five: a function of the byte alone.
pub uninterp spec fn cp437_char(b: u8) -> char;

/// The total CP437 reading of a byte sequence: the table's character for
/// every byte it covers, U+FFFD for the five control bytes below it.
pub open spec fn cp437_decode(bytes: Seq<u8>) -> Seq<char> {
    Seq::new(
        bytes.len(),
        |i: int|
            if bytes[i] >= 5 {
                cp437_char(bytes[i])
            } else {
                '\u{fffd}'
            },
    )
}

/// The Unicode lowercasing of a string: a function of its characters
/// alone.
pub uninterp spec fn lower_of(s: Seq<char>) -> Seq<char>;

/// The grapheme clusters of a string, in reverse order: a function of its
/// characters alone.
pub uninterp spec fn grapheme_rev_of(s: Seq<char>) -> Seq<char>;

/// Relies on encoding's `encoding_from_whatwg_label`, a pure lookup of
/// the label, and on `Encoding::decode` with the `Replace` trap, which
/// never fails (the trap always continues, writing U+FFFD) and depends on
/// the label and bytes alone.
#[verifier::external_body]
fn decode_whatwg(bytes: &Vec<u8>, label: &str) -> (r: Option<String>)
    ensures
        r is Some <==> is_whatwg_label(label@),
        r matches Some(s) ==> s@ == whatwg_decode(label@, bytes@),
{
    let enc = encoding::label::encoding_from_whatwg_label(label)?;
    Some(enc.decode(bytes.as_slice(), encoding::DecoderTrap::Replace).unwrap_or_default())
}

/// Relies on cp437's `convert_byte`, a fixed table mapping each byte at
/// or above five to exactly one character; below five the table refuses,
/// so those bytes are excluded here.
#[verifier::external_body]
fn cp437_byte(b: u8) -> (r: char)
    requires
        b >= 5,
    ensures
        r == cp437_char(b),
{
    let mut chars = cp437::convert_byte(&b).chars();
    chars.next().unwrap_or('\u{fffd}')
}

/// Relies on String::push: appends exactly one character.
#[verifier::external_body]
fn push_char(s: &mut String, c: char)
    ensures
        final(s)@ == old(s)@.push(c),
{
    s.push(c);
}

/// Relies on str::to_lowercase: the result depends on the characters
/// alone.
#[verifier::external_body]
fn lowercase(s: &str) -> (r: String)
    ensures
        r@ == lower_of(s@),
        s@.len() == 0 ==> r@.len() == 0,
{
    s.to_lowercase()
}

/// Relies on unicode-segmentation's `graphemes`: the grapheme clusters of
/// a string depend on its characters alone; collected here in reverse
/// order.
#[verifier::external_body]
fn graphemes_reversed(s: &str) -> (r: String)
    ensures
        r@ == grapheme_rev_of(s@),
        s@.len() == 0 ==> r@.len() == 0,
{
    unicode_segmentation::UnicodeSegmentation::graphemes(s, true).rev().collect()
}

/// Decode bytes under a WHATWG encoding label, with CP437 as a built-in
/// fallback for the labels `cp437` and `ibm437` (matched after
/// lowercasing). The CP437 path cannot fail: what the table does not
/// cover becomes U+FFFD. Unknown labels fail with `Encoding`.
pub fn decode_string(bytes: &Vec<u8>, label: &str) -> (r: KResult<String>)
    ensures
        is_whatwg_label(label@) ==> (r matches Ok(s) && s@ == whatwg_decode(label@, bytes@)),
        !is_whatwg_label(label@) ==> ({
            let low = lower_of(label@);
            let is437 = low == "cp437"@ || low == "ibm437"@;
            &&& is437 ==> (r matches Ok(s) && s@ == cp437_decode(bytes@))
            &&& !is437 ==> (r matches Err(e) && e matches KError::Encoding { .. })
        }),
{
    if let Some(s) = decode_whatwg(bytes, label) {
        return Ok(s);
    }
    let enc = lowercase(label);
    if enc == "cp437".to_owned() || enc == "ibm437".to_owned() {
        let mut out = String::new();
        let mut i: usize = 0;
        proof {
            assert(out@ =~= cp437_decode(bytes@).take(0));
        }
        while i < bytes.len()
            invariant
                i <= bytes@.len(),
                out@ == cp437_decode(bytes@).take(i as int),
                !is_whatwg_label(label@),
                lower_of(label@) == "cp437"@ || lower_of(label@) == "ibm437"@,
            decreases bytes@.len() - i,
        {
            let b = bytes[i];
            if b >= 5 {
                let c = cp437_byte(b);
                push_char(&mut out, c);
            } else {
                push_char(&mut out, '\u{fffd}');
            }
            i += 1;
            proof {
                assert(out@ =~= cp437_decode(bytes@).take(i as int));
            }
        }
        proof {
            assert(cp437_decode(bytes@).take(bytes@.len() as int) =~= cp437_decode(bytes@));
        }
        return Ok(out);
    }
    Err(
        KError::Encoding {
            desc: "decode_string: unknown WHATWG Encoding standard: ".to_owned().concat(label),
        },
    )
}

/// The string with its grapheme clusters in reverse order (not its code
/// units, not its scalar values).
pub fn reverse_string(s: &str) -> (r: KResult<String>)
    ensures
        r matches Ok(t) && t@ == grapheme_rev_of(s@),
{
    Ok(graphemes_reversed(s))
}

/// Least non-negative representative of `a` modulo `b`.
pub fn modulo(a: i64, b: i64) -> (r: i64)
    requires
        b > 0,
    ensures
        r == a as int % b as int,
        0 <= r < b,
{
    let mut r = a % b;
    proof {
        if a < 0 {
            let m = (-(a as int)) % (b as int);
            let q = (-(a as int)) / (b as int);
            vstd::arithmetic::div_mod::lemma_fundamental_div_mod(-(a as int), b as int);
            if m == 0 {
                assert(a as int == (-q) * (b as int) + 0) by (nonlinear_arith)
                    requires
                        -(a as int) == (b as int) * q + m,
                        m == 0,
                ;
                vstd::arithmetic::div_mod::lemma_fundamental_div_mod_converse(
                    a as int, b as int, -q, 0);
            } else {
                assert(a as int == (-q - 1) * (b as int) + ((b as int) - m)) by (nonlinear_arith)
                    requires
                        -(a as int) == (b as int) * q + m,
                ;
                vstd::arithmetic::div_mod::lemma_fundamental_div_mod_converse(
                    a as int, b as int, -q - 1, b - m);
            }
        }
    }
    if r < 0 {
        r += b;
    }
    r
}

} // verus!

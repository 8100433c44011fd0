//! Decoding of base32-encoded secrets, in the padded RFC 4648 variant: the
//! alphabet `A`-`Z`, `2`-`7`, with `=` padding completing the final 8-character
//! block.

use vstd::arithmetic::mul::lemma_mul_inequality;
use vstd::arithmetic::power2::{lemma2_to64, lemma2_to64_rest, lemma_pow2_adds,
    lemma_pow2_strictly_increases, pow2};
use vstd::bits::{lemma_low_bits_mask_values, lemma_u64_low_bits_mask_is_mod,
    lemma_u64_shl_is_mul, lemma_u64_shr_is_div};
use vstd::prelude::*;
use vstd::string::StringSliceAdditionalSpecFns;

verus! {

/// A malformed base32 secret: a character outside the alphabet, or a length
/// inconsistent with valid padding.
#[derive(Clone, Copy, Debug, PartialEq, Eq, Structural)]
pub enum DecodeError {
    InvalidEncoding,
}

/// The five-bit value of one alphabet character: `A`-`Z` map to 0-25 and
/// `2`-`7` to 26-31; every other byte is outside the alphabet.
pub open spec fn char_value(c: u8) -> Option<u8> {
    if 'A' as u8 <= c <= 'Z' as u8 {
        Some((c - 'A' as u8) as u8)
    } else if '2' as u8 <= c <= '7' as u8 {
        Some((c - '2' as u8 + 26) as u8)
    } else {
        None
    }
}

/// Whether every byte of `s` is an alphabet character.
pub open spec fn all_data(s: Seq<u8>) -> bool {
    forall|i: int| 0 <= i < s.len() ==> char_value(s[i]) is Some
}

/// The five-bit value of an alphabet character, zero outside the alphabet.
pub open spec fn value_of(c: u8) -> nat {
    match char_value(c) {
        Some(v) => v as nat,
        None => 0,
    }
}

/// The data characters of a block read as one number, each character
/// contributing five bits, the first character most significant.
pub open spec fn block_num(data: Seq<u8>) -> nat
    decreases data.len(),
{
    if data.len() == 0 {
        0
    } else {
        block_num(data.drop_last()) * 32 + value_of(data.last())
    }
}

/// The bytes encoded by the `k` data characters of one block: their `5 * k`
/// bits, left-aligned in a 40-bit number, cut into whole bytes; bits beyond
/// the last whole byte do not reach the output.
pub open spec fn block_bytes(data: Seq<u8>) -> Seq<u8>
    recommends
        data.len() <= 8,
{
    let k = data.len() as int;
    let m = block_num(data) * pow2((40 - 5 * k) as nat);
    Seq::new(((5 * k) / 8) as nat, |j: int| ((m / pow2((32 - 8 * j) as nat)) % 256) as u8)
}

/// The number of `=` characters that end the block.
pub open spec fn pad_len(blk: Seq<u8>) -> int
    decreases blk.len(),
{
    if blk.len() == 0 {
        0
    } else if blk.last() == '=' as u8 {
        1 + pad_len(blk.drop_last())
    } else {
        0
    }
}

/// The data lengths a padded final block can have: `5 * k` bits must fill
/// its output bytes, so one data character alone (or none) is malformed.
pub open spec fn valid_data_len(k: int) -> bool {
    k == 2 || k == 4 || k == 5 || k == 7 || k == 8
}

/// Decodes one final 8-character block: the characters before the `=`
/// padding must all be in the alphabet and their number must be one that
/// padding allows.
pub open spec fn parse_block(blk: Seq<u8>) -> Option<Seq<u8>>
    recommends
        blk.len() == 8,
{
    let k = 8 - pad_len(blk);
    if valid_data_len(k) && all_data(blk.take(k)) {
        Some(block_bytes(blk.take(k)))
    } else {
        None
    }
}

/// RFC 4648 base32 decoding of a whole input: a sequence of 8-character
/// blocks, all full data except the last, which may end in padding. `None`
/// on any malformed input.
pub open spec fn b32_decode(s: Seq<u8>) -> Option<Seq<u8>>
    decreases s.len(),
{
    if s.len() == 0 {
        Some(Seq::empty())
    } else if s.len() % 8 != 0 {
        None
    } else if s.len() == 8 {
        parse_block(s)
    } else if all_data(s.take(8)) {
        match b32_decode(s.skip(8)) {
            Some(rest) => Some(block_bytes(s.take(8)) + rest),
            None => None,
        }
    } else {
        None
    }
}

/// The decoded bytes of a suffix, prefixed by what is already decoded.
pub open spec fn prepend_decoded(prefix: Seq<u8>, rest: Option<Seq<u8>>) -> Option<Seq<u8>> {
    match rest {
        Some(tail) => Some(prefix + tail),
        None => None,
    }
}

/// Looks one byte up in the alphabet.
fn char_val(c: u8) -> (value: Option<u8>)
    ensures
        value == char_value(c),
{
    if c >= 'A' as u8 && c <= 'Z' as u8 {
        Some(c - 'A' as u8)
    } else if c >= '2' as u8 && c <= '7' as u8 {
        Some(c - '2' as u8 + 26)
    } else {
        None
    }
}

/// Whether the `k` bytes of `bytes` from `start` on are all alphabet
/// characters.
fn check_data(bytes: &[u8], start: usize, k: usize) -> (ok: bool)
    requires
        start + k <= bytes@.len(),
    ensures
        ok == all_data(bytes@.subrange(start as int, (start + k) as int)),
{
    let ghost data = bytes@.subrange(start as int, (start + k) as int);
    let len = bytes.len();
    let mut i: usize = 0;
    while i < k
        invariant
            i <= k,
            len == bytes@.len(),
            start + k <= len,
            data == bytes@.subrange(start as int, (start + k) as int),
            forall|j: int| 0 <= j < i ==> char_value(data[j]) is Some,
        decreases k - i,
    {
        match char_val(bytes[start + i]) {
            Some(_) => {},
            None => {
                assert(char_value(data[i as int]) is None);
                return false;
            },
        }
        i = i + 1;
    }
    true
}

proof fn lemma_pow2_le(e1: nat, e2: nat)
    requires
        e1 <= e2,
    ensures
        pow2(e1) <= pow2(e2),
{
    if e1 < e2 {
        lemma_pow2_strictly_increases(e1, e2);
    }
}

/// Decodes the `k` data characters of the block at `start` and appends the
/// bytes they encode.
fn decode_block(bytes: &[u8], start: usize, k: usize, out: &mut Vec<u8>)
    requires
        start + k <= bytes@.len(),
        k <= 8,
        all_data(bytes@.subrange(start as int, (start + k) as int)),
    ensures
        final(out)@ == old(out)@ + block_bytes(bytes@.subrange(start as int, (start + k) as int)),
{
    let ghost data = bytes@.subrange(start as int, (start + k) as int);
    let len = bytes.len();
    proof {
        lemma2_to64();
        lemma2_to64_rest();
    }
    let mut n: u64 = 0;
    let mut j: usize = 0;
    while j < k
        invariant
            j <= k,
            k <= 8,
            len == bytes@.len(),
            start + k <= len,
            data == bytes@.subrange(start as int, (start + k) as int),
            all_data(data),
            n == block_num(data.take(j as int)),
            n < pow2((5 * j) as nat),
        decreases k - j,
    {
        let value = match char_val(bytes[start + j]) {
            Some(v) => v,
            None => {
                proof {
                    assert(char_value(data[j as int]) is Some);
                }
                unreached()
            },
        };
        proof {
            lemma2_to64();
            lemma2_to64_rest();
            lemma_pow2_adds((5 * j) as nat, 5);
            lemma_pow2_le((5 * j + 5) as nat, 40);
            assert(data.take(j + 1).drop_last() =~= data.take(j as int));
            assert(data.take(j + 1).last() == data[j as int]);
            assert(value_of(data[j as int]) == value);
        }
        n = n * 32 + (value as u64);
        j = j + 1;
    }
    proof {
        assert(data.take(k as int) =~= data);
    }
    let shift: u64 = 40 - 5 * (k as u64);
    proof {
        lemma_pow2_adds((5 * k) as nat, (40 - 5 * k) as nat);
        vstd::arithmetic::power2::lemma_pow2_pos((40 - 5 * k) as nat);
        let a = pow2((5 * k) as nat) as int;
        let b = pow2((40 - 5 * k) as nat) as int;
        lemma_mul_inequality(n as int, a - 1, b);
        assert((a - 1) * b == a * b - b) by (nonlinear_arith);
        assert(n * pow2(shift as nat) <= u64::MAX);
        lemma_u64_shl_is_mul(n, shift);
    }
    let m: u64 = n << shift;
    let nb: usize = (5 * k) / 8;
    let ghost encoded = block_bytes(data);
    proof {
        assert(encoded.len() == nb);
    }
    let mut j2: usize = 0;
    while j2 < nb
        invariant
            j2 <= nb,
            nb <= 5,
            nb == (5 * data.len()) / 8,
            data.len() <= 8,
            m == block_num(data) * pow2((40 - 5 * data.len()) as nat),
            encoded == block_bytes(data),
            out@ == old(out)@ + encoded.take(j2 as int),
        decreases nb - j2,
    {
        let sh: u64 = 32 - 8 * (j2 as u64);
        proof {
            lemma2_to64();
            lemma_u64_shr_is_div(m, sh);
            lemma_u64_low_bits_mask_is_mod(m >> sh, 8);
            lemma_low_bits_mask_values();
            assert(encoded[j2 as int] == ((m >> sh) & 0xff) as u8);
        }
        out.push(((m >> sh) & 0xff) as u8);
        proof {
            assert(encoded.take(j2 + 1) =~= encoded.take(j2 as int).push(encoded[j2 as int]));
            assert(out@ =~= old(out)@ + encoded.take(j2 + 1));
        }
        j2 = j2 + 1;
    }
    proof {
        assert(encoded.take(nb as int) =~= encoded);
    }
}

proof fn lemma_pad_len_of(blk: Seq<u8>, p: int)
    requires
        0 <= p <= blk.len(),
        forall|i: int| blk.len() - p <= i < blk.len() ==> blk[i] == '=' as u8,
        p < blk.len() ==> blk[blk.len() - p - 1] != '=' as u8,
    ensures
        pad_len(blk) == p,
    decreases p,
{
    if p == 0 {
    } else {
        assert(blk.last() == '=' as u8);
        lemma_pad_len_of(blk.drop_last(), p - 1);
    }
}

/// Decodes a base32 byte string, per the padded RFC 4648 variant.
pub fn decode_bytes(bytes: &[u8]) -> (result: Result<Vec<u8>, DecodeError>)
    ensures
        match result {
            Ok(decoded) => b32_decode(bytes@) == Some(decoded@),
            Err(e) => b32_decode(bytes@) is None && e == DecodeError::InvalidEncoding,
        },
{
    let len = bytes.len();
    if len % 8 != 0 {
        return Err(DecodeError::InvalidEncoding);
    }
    let mut out: Vec<u8> = Vec::new();
    proof {
        assert(bytes@.skip(0) =~= bytes@);
        match b32_decode(bytes@) {
            Some(tail) => {
                assert(Seq::<u8>::empty() + tail =~= tail);
            },
            None => {},
        }
    }
    let mut pos: usize = 0;
    while pos < len
        invariant
            pos <= len,
            pos % 8 == 0,
            len % 8 == 0,
            len == bytes@.len(),
            b32_decode(bytes@) == prepend_decoded(out@, b32_decode(bytes@.skip(pos as int))),
        decreases len - pos,
    {
        let ghost suffix = bytes@.skip(pos as int);
        let ghost block = bytes@.subrange(pos as int, pos + 8);
        proof {
            assert(suffix.take(8) =~= block);
            assert(suffix.skip(8) =~= bytes@.skip(pos + 8));
        }
        if pos + 8 < len {
            // An inner block: all eight characters must carry data.
            if !check_data(bytes, pos, 8) {
                return Err(DecodeError::InvalidEncoding);
            }
            let ghost out_before = out@;
            decode_block(bytes, pos, 8, &mut out);
            proof {
                let rest = b32_decode(bytes@.skip(pos + 8));
                match rest {
                    Some(tail) => {
                        assert(out_before + (block_bytes(block) + tail) =~= (out_before
                            + block_bytes(block)) + tail);
                    },
                    None => {},
                }
            }
        } else {
            // The final block: trailing padding, then data characters.
            let mut pad: usize = 0;
            while pad < 8 && bytes[pos + 7 - pad] == '=' as u8
                invariant
                    pad <= 8,
                    pos + 8 == len,
                    len == bytes@.len(),
                    block == bytes@.subrange(pos as int, pos + 8),
                    forall|i: int| 8 - pad <= i < 8 ==> block[i] == '=' as u8,
                decreases 8 - pad,
            {
                pad = pad + 1;
            }
            proof {
                lemma_pad_len_of(block, pad as int);
            }
            let k = 8 - pad;
            if !(k == 2 || k == 4 || k == 5 || k == 7 || k == 8) {
                return Err(DecodeError::InvalidEncoding);
            }
            proof {
                assert(block.take(k as int) =~= bytes@.subrange(pos as int, (pos + k) as int));
            }
            if !check_data(bytes, pos, k) {
                return Err(DecodeError::InvalidEncoding);
            }
            let ghost out_before = out@;
            decode_block(bytes, pos, k, &mut out);
            proof {
                assert(b32_decode(suffix) == Some(block_bytes(block.take(k as int))));
                assert(bytes@.skip(len as int) =~= Seq::<u8>::empty());
                assert(out_before + block_bytes(block.take(k as int)) + Seq::<u8>::empty()
                    =~= out@);
            }
        }
        pos = pos + 8;
    }
    proof {
        assert(bytes@.skip(len as int) =~= Seq::<u8>::empty());
        assert(out@ + Seq::<u8>::empty() =~= out@);
    }
    Ok(out)
}

/// Decodes a base32 secret string, per the padded RFC 4648 variant. The
/// decoding works on the string's bytes; any character outside ASCII is
/// outside the alphabet.
pub fn decode(encoded: &str) -> (result: Result<Vec<u8>, DecodeError>)
    ensures
        match result {
            Ok(decoded) => b32_decode(encoded.spec_bytes()) == Some(decoded@),
            Err(e) => b32_decode(encoded.spec_bytes()) is None && e == DecodeError::InvalidEncoding,
        },
{
    decode_bytes(encoded.as_bytes())
}

} // verus!

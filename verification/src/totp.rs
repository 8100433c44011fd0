//! The TOTP engine: time-step counter computation, HOTP code derivation by
//! keyed hashing and dynamic truncation, and reduction to a decimal display
//! code.

use crate::base32::{b32_decode, decode, DecodeError};
use vstd::arithmetic::div_mod::{lemma_div_is_ordered, lemma_div_plus_one,
    lemma_fundamental_div_mod, lemma_mod_bound};
use vstd::prelude::*;
use vstd::string::StringSliceAdditionalSpecFns;

verus! {

/// Mathematical power of ten, for the decimal display reduction.
pub open spec fn pow10(e: nat) -> nat
    decreases e,
{
    if e == 0 {
        1
    } else {
        10 * pow10((e - 1) as nat)
    }
}

/// The time-step counter at time `now`: seconds since `time_offset`,
/// divided by the step `interval`, rounded toward zero.
pub open spec fn counter_at(now: u64, time_offset: u64, interval: u64) -> u64
    recommends
        now >= time_offset,
        interval > 0,
{
    (((now - time_offset) as int) / (interval as int)) as u64
}

/// The 8-byte big-endian encoding of the counter, the message that is
/// authenticated: byte `i` holds bits 56 - 8i and following of the counter.
pub open spec fn counter_bytes(counter: u64) -> Seq<u8> {
    Seq::new(8, |i: int| ((counter >> ((56 - 8 * i) as u64)) & 0xff) as u8)
}

/// The HMAC-SHA-1 digest of `message` under `key`. Left uninterpreted: the
/// digest is computed by an outside crate, and only its length and its
/// determinism are relied on.
pub uninterp spec fn hmac_sha1_of(key: Seq<u8>, message: Seq<u8>) -> Seq<u8>;

/// Relies on `hmac_sha1::hmac_sha1`: the HMAC-SHA-1 digest of the message
/// under the key, a pure function of its two arguments, 20 bytes long.
#[verifier::external_body]
fn hmac_sha1_digest(key: &[u8], message: &[u8]) -> (digest: [u8; 20])
    ensures
        digest@ == hmac_sha1_of(key@, message@),
        digest@.len() == 20,
{
    hmac_sha1::hmac_sha1(key, message)
}

/// The dynamic-truncation offset: the low four bits of the digest's last
/// byte.
pub open spec fn dt_offset(digest: Seq<u8>) -> int
    recommends
        digest.len() == 20,
{
    (digest[19] & 0x0f) as int
}

/// Dynamic truncation of a 20-byte digest: the four bytes starting at the
/// offset, read big-endian, with the top bit cleared to keep the value in
/// the 31-bit range.
pub open spec fn truncate_digest(digest: Seq<u8>) -> u32
    recommends
        digest.len() == 20,
{
    let o = dt_offset(digest);
    (((digest[o] as u32) << 24u32) | ((digest[o + 1] as u32) << 16u32) | ((digest[o + 2]
        as u32) << 8u32) | (digest[o + 3] as u32)) & 0x7fff_ffff
}

/// The HOTP value of a secret key at a counter: the keyed digest of the
/// counter's big-endian bytes, dynamically truncated.
pub open spec fn hotp_of(key: Seq<u8>, counter: u64) -> u32 {
    truncate_digest(hmac_sha1_of(key, counter_bytes(counter)))
}

/// Encodes the counter as its eight big-endian bytes.
fn counter_to_bytes(counter: u64) -> (bytes: Vec<u8>)
    ensures
        bytes@ == counter_bytes(counter),
{
    let mut bytes: Vec<u8> = Vec::new();
    let mut i: usize = 0;
    while i < 8
        invariant
            i <= 8,
            bytes@.len() == i,
            forall|j: int| 0 <= j < i ==> bytes@[j] == counter_bytes(counter)[j],
        decreases 8 - i,
    {
        let shift: u64 = 56 - 8 * (i as u64);
        bytes.push(((counter >> shift) & 0xff) as u8);
        i = i + 1;
    }
    proof {
        assert(bytes@ =~= counter_bytes(counter));
    }
    bytes
}

/// Computes the HOTP value of `key` at `counter`, per the dynamic-truncation
/// procedure: HMAC-SHA-1 over the counter's big-endian bytes, a 4-byte
/// window selected by the digest's last four bits, top bit cleared.
pub fn hotp(key: &[u8], counter: u64) -> (code: u32)
    ensures
        code == hotp_of(key@, counter),
        code < 0x8000_0000,
{
    let message = counter_to_bytes(counter);
    let digest = hmac_sha1_digest(key, message.as_slice());
    let last = digest[19];
    let offset = (last & 0x0f) as usize;
    proof {
        assert(last & 0x0f <= 15) by (bit_vector);
    }
    let b0 = digest[offset];
    let b1 = digest[offset + 1];
    let b2 = digest[offset + 2];
    let b3 = digest[offset + 3];
    let code = (((b0 as u32) << 24u32) | ((b1 as u32) << 16u32) | ((b2 as u32) << 8u32) | (b3
        as u32)) & 0x7fff_ffff;
    proof {
        let w = ((b0 as u32) << 24u32) | ((b1 as u32) << 16u32) | ((b2 as u32) << 8u32) | (b3
            as u32);
        assert(w & 0x7fff_ffff < 0x8000_0000) by (bit_vector);
    }
    code
}

/// Reduces a full HOTP value to its low `digits` decimal digits, the code
/// shown to the user.
pub fn totp_display(hotp_value: u32, digits: u32) -> (code: u32)
    requires
        digits <= 9,
    ensures
        code == hotp_value as nat % pow10(digits as nat),
        code < pow10(digits as nat),
{
    let mut modulus: u32 = 1;
    let mut i: u32 = 0;
    while i < digits
        invariant
            i <= digits,
            digits <= 9,
            modulus == pow10(i as nat),
        decreases digits - i,
    {
        proof {
            reveal_with_fuel(pow10, 10);
            lemma_pow10_monotonic(i as nat, 8);
            assert(pow10(8) == 100_000_000);
        }
        modulus = modulus * 10;
        i = i + 1;
    }
    proof {
        lemma_pow10_pos(digits as nat);
    }
    hotp_value % modulus
}

/// Computes the time-step counter `(now - time_offset) / interval`.
///
/// `now` must not precede `time_offset`: the counter is not defined for
/// times before the epoch of the scheme.
pub fn current_counter(now: u64, time_offset: u64, interval: u64) -> (counter: u64)
    requires
        now >= time_offset,
        interval > 0,
    ensures
        counter == counter_at(now, time_offset, interval),
{
    (now - time_offset) / interval
}

/// Decodes a base32 secret and computes its full 31-bit HOTP value at
/// `counter`; fails exactly when the secret is not valid base32.
pub fn generate_code(key: &str, counter: u64) -> (result: Result<u32, DecodeError>)
    ensures
        match result {
            Ok(code) => b32_decode(key.spec_bytes()) matches Some(secret) && code == hotp_of(
                secret,
                counter,
            ),
            Err(e) => b32_decode(key.spec_bytes()) is None && e == DecodeError::InvalidEncoding,
        },
{
    let secret = match decode(key) {
        Ok(secret) => secret,
        Err(e) => {
            return Err(e);
        },
    };
    Ok(hotp(secret.as_slice(), counter))
}

/// Relies on `std::time::SystemTime::now`: the seconds of the system clock
/// since the Unix epoch, or `None` when the clock reads earlier than the
/// epoch. Nothing is promised of the value: the clock may move arbitrarily
/// between calls.
#[verifier::external_body]
pub fn timestamp() -> Option<u64> {
    match std::time::SystemTime::now().duration_since(std::time::UNIX_EPOCH) {
        Ok(duration) => Some(duration.as_secs()),
        Err(_) => None,
    }
}

/// Determinism: the HOTP value is a pure function of secret and counter, so
/// two derivations from the same inputs always agree.
pub proof fn lemma_hotp_deterministic(key: Seq<u8>, counter: u64, c1: u32, c2: u32)
    requires
        c1 == hotp_of(key, counter),
        c2 == hotp_of(key, counter),
    ensures
        c1 == c2,
{
}

/// Truncation window bound: for every 20-byte digest the dynamic-truncation
/// offset lies in [0, 15], so the 4-byte window it selects ends at index at
/// most 19 and never reads past the digest.
pub proof fn lemma_truncation_window(digest: Seq<u8>)
    requires
        digest.len() == 20,
    ensures
        0 <= dt_offset(digest) <= 15,
        dt_offset(digest) + 3 <= 19,
{
    let b = digest[19];
    assert(b & 0x0f <= 15) by (bit_vector);
}

/// Counter monotonicity: with a fixed time offset and the 30-second step,
/// the counter never decreases as time advances.
pub proof fn lemma_counter_monotonic(time_offset: u64, t1: u64, t2: u64)
    requires
        time_offset <= t1 <= t2,
    ensures
        counter_at(t1, time_offset, 30) <= counter_at(t2, time_offset, 30),
{
    lemma_div_is_ordered((t1 - time_offset) as int, (t2 - time_offset) as int, 30);
}

/// Counter step: the counter advances by exactly one each time 30 more
/// seconds pass.
pub proof fn lemma_counter_step(time_offset: u64, now: u64)
    requires
        time_offset <= now,
        now + 30 <= u64::MAX,
    ensures
        counter_at((now + 30) as u64, time_offset, 30) == counter_at(now, time_offset, 30) + 1,
{
    lemma_div_plus_one((now - time_offset) as int, 30);
}

/// Counter windows: the counter reads `k` exactly on the 30 seconds from
/// `time_offset + 30 * k` on — so it is constant within each window and
/// steps at each window boundary.
pub proof fn lemma_counter_window(time_offset: u64, now: u64, k: u64)
    requires
        time_offset <= now,
    ensures
        counter_at(now, time_offset, 30) == k <==> time_offset + 30 * k <= now < time_offset + 30
            * k + 30,
{
    let x = (now - time_offset) as int;
    lemma_fundamental_div_mod(x, 30);
    lemma_mod_bound(x, 30);
}

proof fn lemma_pow10_pos(e: nat)
    ensures
        pow10(e) >= 1,
    decreases e,
{
    if e > 0 {
        lemma_pow10_pos((e - 1) as nat);
    }
}

proof fn lemma_pow10_monotonic(e1: nat, e2: nat)
    requires
        e1 <= e2,
    ensures
        pow10(e1) <= pow10(e2),
    decreases e2,
{
    if e1 < e2 {
        lemma_pow10_monotonic(e1, (e2 - 1) as nat);
    }
}

} // verus!

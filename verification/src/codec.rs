//! Link-layer framing of a burst: little-endian word assembly from a byte
//! stream, big-endian word serialization, and the 64-bit running checksum
//! carried in a burst's two trailing words. A checksum mismatch rejects the
//! whole burst; no partial acceptance.

use vstd::prelude::*;

verus! {

/// The 64-bit checksum of a burst's words: what `fletcher::calc_fletcher64`
/// returns, a function of the words alone.
pub uninterp spec fn fletcher64_of(words: Seq<u32>) -> u64;

/// Relies on fletcher::calc_fletcher64: the one-shot 64-bit checksum over
/// 32-bit words, computed from the words alone.
#[verifier::external_body]
fn calc_fletcher64(words: &Vec<u32>) -> (r: u64)
    ensures
        r == fletcher64_of(words@),
{
    fletcher::calc_fletcher64(words)
}

/// The checksum stored in a burst's two trailing words: the last word holds
/// the upper half, the word before it the lower half.
pub open spec fn spec_stored_checksum(words: Seq<u32>) -> u64
    recommends
        words.len() >= 2,
{
    ((words[words.len() - 1] as u64) * 0x1_0000_0000 + (words[words.len() - 2] as u64)) as u64
}

/// The payload of a burst: everything but the two trailing checksum words.
pub open spec fn spec_burst_payload(words: Seq<u32>) -> Seq<u32> {
    words.take(words.len() - 2)
}

/// Validates a burst against its trailing checksum: the payload is handed
/// back exactly when the burst holds at least two words and the payload's
/// checksum equals the stored one; a short burst or a mismatch yields
/// nothing (the burst is rejected whole).
pub fn verify_burst(words: &Vec<u32>) -> (r: Option<Vec<u32>>)
    ensures
        match r {
            Some(payload) => words@.len() >= 2 && payload@ == spec_burst_payload(words@)
                && fletcher64_of(payload@) == spec_stored_checksum(words@),
            None => words@.len() < 2 || fletcher64_of(spec_burst_payload(words@))
                != spec_stored_checksum(words@),
        },
{
    let n: usize = words.len();
    if n < 2 {
        return None;
    }
    let hi: u32 = words[n - 1];
    let lo: u32 = words[n - 2];
    let stored: u64 = (hi as u64) * 0x1_0000_0000 + (lo as u64);
    let mut payload: Vec<u32> = Vec::new();
    let mut k: usize = 0;
    while k < n - 2
        invariant
            k <= n - 2,
            n == words@.len(),
            n >= 2,
            payload@ == words@.take(k as int),
        decreases n - 2 - k,
    {
        payload.push(words[k]);
        k = k + 1;
        proof {
            assert(words@.take(k as int) =~= words@.take(k - 1).push(words@[k - 1]));
        }
    }
    let sum: u64 = calc_fletcher64(&payload);
    if sum == stored {
        Some(payload)
    } else {
        None
    }
}

/// Byte `j` of a buffer, zero beyond its end: a trailing partial word is
/// zero-padded.
pub open spec fn spec_byte_at(bytes: Seq<u8>, j: int) -> u32 {
    if 0 <= j < bytes.len() {
        bytes[j] as u32
    } else {
        0
    }
}

/// The `i`-th little-endian 32-bit word of a byte buffer.
pub open spec fn spec_le_word(bytes: Seq<u8>, i: int) -> u32 {
    (spec_byte_at(bytes, 4 * i) + spec_byte_at(bytes, 4 * i + 1) * 0x100 + spec_byte_at(
        bytes,
        4 * i + 2,
    ) * 0x1_0000 + spec_byte_at(bytes, 4 * i + 3) * 0x100_0000) as u32
}

/// Reassembles little-endian 32-bit words from a byte stream, zero-padding
/// a trailing partial word.
pub fn words_from_le_bytes(bytes: &Vec<u8>) -> (words: Vec<u32>)
    ensures
        words@.len() == (bytes@.len() + 3) / 4,
        forall|i: int| 0 <= i < words@.len() ==> words@[i] == spec_le_word(bytes@, i),
{
    let n: usize = bytes.len();
    let n_words: usize = n / 4 + if n % 4 == 0 {
        0
    } else {
        1
    };
    proof {
        assert(n_words as int == (n + 3) / 4);
    }
    let mut words: Vec<u32> = Vec::new();
    let mut i: usize = 0;
    while i < n_words
        invariant
            i <= n_words,
            n == bytes@.len(),
            n_words as int == (n + 3) / 4,
            4 * i <= n + 3,
            words@.len() == i,
            forall|q: int| 0 <= q < i ==> words@[q] == spec_le_word(bytes@, q),
        decreases n_words - i,
    {
        proof {
            assert(4 * (i + 1) <= n + 3) by (nonlinear_arith)
                requires
                    i < n_words,
                    n_words as int == (n as int + 3) / 4,
            {
            }
        }
        let base: usize = 4 * i;
        let b0: u32 = if n - base > 0 {
            bytes[base] as u32
        } else {
            0
        };
        let b1: u32 = if n - base > 1 {
            bytes[base + 1] as u32
        } else {
            0
        };
        let b2: u32 = if n - base > 2 {
            bytes[base + 2] as u32
        } else {
            0
        };
        let b3: u32 = if n - base > 3 {
            bytes[base + 3] as u32
        } else {
            0
        };
        let w: u32 = b0 + b1 * 0x100 + b2 * 0x1_0000 + b3 * 0x100_0000;
        words.push(w);
        i = i + 1;
    }
    words
}

/// Splits a 32-bit word into its four bytes, most significant first.
pub fn transform_u32_to_array_of_u8(x: u32) -> (r: [u8; 4])
    ensures
        r@ == seq![
            ((x >> 24) & 0xff) as u8,
            ((x >> 16) & 0xff) as u8,
            ((x >> 8) & 0xff) as u8,
            (x & 0xff) as u8,
        ],
        x == (((r@[0] as u32) << 24) | ((r@[1] as u32) << 16) | ((r@[2] as u32) << 8) | (
        r@[3] as u32)),
{
    let b1: u8 = ((x >> 24) & 0xff) as u8;
    let b2: u8 = ((x >> 16) & 0xff) as u8;
    let b3: u8 = ((x >> 8) & 0xff) as u8;
    let b4: u8 = (x & 0xff) as u8;
    proof {
        assert((x >> 24) & 0xff < 256 && (x >> 16) & 0xff < 256 && (x >> 8) & 0xff < 256 && x
            & 0xff < 256) by (bit_vector);
        assert(x == (((((x >> 24) & 0xff) as u8) as u32) << 24) | (((((x >> 16) & 0xff) as u8)
            as u32) << 16) | (((((x >> 8) & 0xff) as u8) as u32) << 8) | (((x & 0xff) as u8)
            as u32)) by (bit_vector);
    }
    let r: [u8; 4] = [b1, b2, b3, b4];
    proof {
        assert(r@ =~= seq![b1, b2, b3, b4]);
    }
    r
}

} // verus!

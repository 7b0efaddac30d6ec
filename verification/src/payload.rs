//! Guesses at what a payload is.
use vstd::prelude::*;
use vstd::string::*;
use crate::text::{decimal, push_decimal};

verus! {

/// The lengths of payloads that can be block announces.
pub const MIN_ANNOUNCE_LEN: usize = 200;

pub const MAX_ANNOUNCE_LEN: usize = 500;

/// The length of the hash that a block announce starts with.
pub const PARENT_HASH_LEN: usize = 32;

/// Whether a payload looks like a block announce: it has the length of one, and the byte behind
/// the parent hash, where the block number starts, is a compact number of a single byte.
pub open spec fn looks_like_announce(payload: Seq<u8>) -> bool {
    MIN_ANNOUNCE_LEN <= payload.len() <= MAX_ANNOUNCE_LEN && payload[PARENT_HASH_LEN as int] % 4 == 0
}

/// The guess at what a payload is, with its length.
pub open spec fn payload_guess(payload: Seq<u8>) -> Seq<char> {
    let size = decimal(payload.len()) + "B)"@;
    if payload.len() == 0 {
        "Empty"@
    } else if looks_like_announce(payload) {
        "Likely BlockAnnounce ("@ + size
    } else if payload.len() < MIN_ANNOUNCE_LEN {
        "Likely Handshake ("@ + size
    } else {
        "Unknown ("@ + size
    }
}

fn with_size(guess: &str, len: usize) -> (r: String)
    ensures
        r@ == guess@ + (decimal(len as nat) + "B)"@),
{
    let mut text = guess.to_owned();
    push_decimal(&mut text, len as u64);
    text.append("B)");
    assert(text@ =~= guess@ + (decimal(len as nat) + "B)"@));
    text
}

/// Guesses what a payload is.
pub fn analyze_payload(payload: &[u8]) -> (r: String)
    ensures
        r@ == payload_guess(payload@),
{
    if payload.is_empty() {
        return "Empty".to_owned();
    }
    if payload.len() >= MIN_ANNOUNCE_LEN && payload.len() <= MAX_ANNOUNCE_LEN {
        let number_start = payload[PARENT_HASH_LEN];
        assert(number_start & 0b11 == number_start % 4) by (bit_vector);
        let mode = number_start & 0b11;
        if mode == 0 {
            return with_size("Likely BlockAnnounce (", payload.len());
        }
    }
    if payload.len() < MIN_ANNOUNCE_LEN {
        return with_size("Likely Handshake (", payload.len());
    }
    with_size("Unknown (", payload.len())
}

/// Law: the guess goes by the length of a payload and, from 200 to 500 bytes, by whether the two low
/// bits of the byte behind its first 32 are zero.
pub proof fn law_guess_by_length(payload: Seq<u8>)
    ensures
        payload.len() == 0 ==> payload_guess(payload) == "Empty"@,
        0 < payload.len() < 200 ==> payload_guess(payload) == "Likely Handshake ("@ + (decimal(
            payload.len(),
        ) + "B)"@),
        200 <= payload.len() <= 500 && payload[32] % 4 == 0 ==> payload_guess(payload)
            == "Likely BlockAnnounce ("@ + (decimal(payload.len()) + "B)"@),
        200 <= payload.len() <= 500 && payload[32] % 4 != 0 ==> payload_guess(payload)
            == "Unknown ("@ + (decimal(payload.len()) + "B)"@),
        payload.len() > 500 ==> payload_guess(payload) == "Unknown ("@ + (decimal(payload.len())
            + "B)"@),
{
}

} // verus!

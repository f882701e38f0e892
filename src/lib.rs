//! Rotating, HMAC-derived tokens bound to discrete time slots, validated
//! against a sliding window of acceptable slots.

mod encoding;
mod laws;
mod mac;
mod manager;

pub use encoding::{decimal, decimal_bytes, decimal_digits, hex_digit, hex_of, lemma_hex_len};
pub use mac::hmac_sha256;
pub use manager::{
    accepted_in, clamp_i64, distinct_slots, in_window, refreshed, slot_of, slots_of, token_text, window,
    window_hi, window_lo, window_size,
    RollingTokenManager, Token, DEFAULT_TOLERANCE, MAX_TOLERANCE,
};
pub use laws::{
    lemma_offset_recovered, lemma_refresh_idempotent, lemma_token_deterministic, lemma_window_accepts,
    lemma_window_rejects, lemma_window_slides,
};

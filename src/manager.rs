//! The token manager: time-slot quantisation, token derivation, and the
//! sliding window of accepted tokens.

use crate::encoding::{decimal, decimal_bytes, hex_of, lemma_hex_len};
use crate::mac::{hmac_sha256, mac_tag, to_hex, unix_seconds};
use vstd::prelude::*;
use vstd::set_lib::{lemma_int_range, lemma_subset_equality, set_int_range};
use vstd::string::{StrSliceExecFns, StringExecFns, StringSliceAdditionalSpecFns};

verus! {

/// Tolerance used when the caller gives none.
pub const DEFAULT_TOLERANCE: i64 = 1;

/// Largest tolerance: a window of `1 + 2 * tolerance` slots still counts in an `i64`.
pub const MAX_TOLERANCE: i64 = 0x3fff_ffff_ffff_ffff;

/// The token string of `slot`: lowercase hex of the HMAC-SHA256 tag, under
/// `secret`, of the slot's decimal text.
pub open spec fn token_text(secret: Seq<u8>, slot: int) -> Seq<char> {
    hex_of(hmac_sha256(secret, decimal(slot)))
}

/// `x` held to the range of `i64`.
pub open spec fn clamp_i64(x: int) -> int {
    if x < i64::MIN {
        i64::MIN as int
    } else if x > i64::MAX {
        i64::MAX as int
    } else {
        x
    }
}

/// The slot of a clock reading: whole intervals since the epoch, held to `i64`.
pub open spec fn slot_of(unix_secs: nat, interval: int) -> int {
    clamp_i64(unix_secs as int / interval)
}

/// The first slot of the window around `now`: `tolerance` slots back, held
/// to `i64`.
pub open spec fn window_lo(now: int, tolerance: int) -> int {
    clamp_i64(now - tolerance)
}

/// The last slot of the window around `now`: `tolerance` slots ahead, held
/// to `i64`.
pub open spec fn window_hi(now: int, tolerance: int) -> int {
    clamp_i64(now + tolerance)
}

/// The number of slots in the window around `now`; `1 + 2 * tolerance`
/// wherever the window fits in `i64`.
pub open spec fn window_size(now: int, tolerance: int) -> int {
    window_hi(now, tolerance) - window_lo(now, tolerance) + 1
}

/// Whether `slot` lies within `tolerance` slots of `now`, and in `i64`.
pub open spec fn in_window(slot: int, now: int, tolerance: int) -> bool {
    window_lo(now, tolerance) <= slot <= window_hi(now, tolerance)
}

/// The slots accepted when the current slot is `now`.
pub open spec fn window(now: int, tolerance: int) -> Set<int> {
    Set::new(|s: int| in_window(s, now, tolerance))
}

/// The slots that a sequence of tokens covers.
pub open spec fn slots_of(tokens: Seq<Token>) -> Set<int> {
    Set::new(|s: int| exists|i: int| 0 <= i < tokens.len() && tokens[i].timestamp == s)
}

/// No two tokens share a slot.
pub open spec fn distinct_slots(tokens: Seq<Token>) -> bool {
    forall|i: int, j: int|
        0 <= i < tokens.len() && 0 <= j < tokens.len() && i != j
            ==> tokens[i].timestamp != tokens[j].timestamp
}

/// `after` is what a refresh around the slot `now` makes of `before`: one
/// token for each slot of the window, every token of `before` whose slot is
/// still inside kept as it was, and nothing changed when `before` already
/// covered the window.
pub open spec fn refreshed(before: Seq<Token>, after: Seq<Token>, now: int, tolerance: int) -> bool {
    &&& slots_of(after) == window(now, tolerance)
    &&& after.len() == window_size(now, tolerance)
    &&& forall|i: int|
        0 <= i < before.len() && in_window(#[trigger] before[i].timestamp as int, now, tolerance)
            ==> after.contains(before[i])
    &&& slots_of(before) == window(now, tolerance) ==> after == before
}

/// Some slot of the window around `now` has `candidate` as its token string.
pub open spec fn accepted_in(secret: Seq<u8>, now: int, tolerance: int, candidate: Seq<char>) -> bool {
    exists|s: int| in_window(s, now, tolerance) && token_text(secret, s) == candidate
}

/// `a + b` held to the range of `i64`.
fn clamp_sum(a: i64, b: i64) -> (r: i64)
    ensures
        r == clamp_i64(a + b),
{
    let s: i128 = a as i128 + b as i128;
    if s < i64::MIN as i128 {
        i64::MIN
    } else if s > i64::MAX as i128 {
        i64::MAX
    } else {
        s as i64
    }
}

/// Tokens with distinct slots cover exactly as many slots as there are tokens.
proof fn lemma_slots_len(tokens: Seq<Token>)
    requires
        distinct_slots(tokens),
    ensures
        slots_of(tokens).finite(),
        slots_of(tokens).len() == tokens.len(),
{
    let ts = tokens.map_values(|x: Token| x.timestamp as int);
    assert(ts.no_duplicates()) by {
        assert forall|i: int, j: int| 0 <= i < ts.len() && 0 <= j < ts.len() && i != j implies ts[i]
            != ts[j] by {
            assert(tokens[i].timestamp != tokens[j].timestamp);
        }
    }
    ts.unique_seq_to_set();
    assert forall|s: int| ts.to_set().contains(s) implies #[trigger] slots_of(tokens).contains(s) by {
        assert(ts.contains(s));
        let i = choose|i: int| 0 <= i < ts.len() && ts[i] == s;
        assert(tokens[i].timestamp == s);
    }
    assert forall|s: int| #[trigger] slots_of(tokens).contains(s) implies ts.to_set().contains(s) by {
        let i = choose|i: int| 0 <= i < tokens.len() && tokens[i].timestamp == s;
        assert(ts[i] == s);
        assert(ts.contains(s));
    }
    assert(ts.to_set() =~= slots_of(tokens));
    ts.lemma_cardinality_of_set();
}

/// A window holds `window_size` slots.
proof fn lemma_window_len(now: int, tolerance: int)
    requires
        tolerance >= 0,
        i64::MIN <= now <= i64::MAX,
    ensures
        window(now, tolerance).finite(),
        window(now, tolerance).len() == window_size(now, tolerance),
{
    let lo = window_lo(now, tolerance);
    let hi = window_hi(now, tolerance);
    lemma_int_range(lo, hi + 1);
    assert(window(now, tolerance) =~= set_int_range(lo, hi + 1));
}

/// Tokens of distinct slots, all inside a window and as many as its slots,
/// cover the whole window.
proof fn lemma_full_window(tokens: Seq<Token>, now: int, tolerance: int)
    requires
        tolerance >= 0,
        i64::MIN <= now <= i64::MAX,
        distinct_slots(tokens),
        forall|i: int|
            0 <= i < tokens.len() ==> in_window(#[trigger] tokens[i].timestamp as int, now, tolerance),
        tokens.len() == window_size(now, tolerance),
    ensures
        slots_of(tokens) == window(now, tolerance),
{
    lemma_slots_len(tokens);
    lemma_window_len(now, tolerance);
    assert(slots_of(tokens).subset_of(window(now, tolerance)));
    lemma_subset_equality(slots_of(tokens), window(now, tolerance));
}

fn has_slot(tokens: &Vec<Token>, slot: i64) -> (r: bool)
    ensures
        r == slots_of(tokens@).contains(slot as int),
{
    let mut i: usize = 0;
    while i < tokens.len()
        invariant
            i <= tokens@.len(),
            forall|k: int| 0 <= k < i ==> tokens@[k].timestamp != slot,
        decreases tokens@.len() - i,
    {
        if tokens[i].timestamp == slot {
            assert(slots_of(tokens@).contains(slot as int));
            return true;
        }
        i += 1;
    }
    false
}

/// A token string together with the time slot it was derived for.
#[derive(Debug, Clone)]
pub struct Token {
    pub token: String,
    pub timestamp: i64,
}

impl Token {
    /// The token string is the one `secret` derives for the token's slot.
    pub open spec fn derived_from(&self, secret: Seq<u8>) -> bool {
        self.token@ == token_text(secret, self.timestamp as int)
    }

    /// Slots from `now` to this token's slot, held to `i64`.
    pub fn offset_at(&self, now: i64) -> (r: i64)
        ensures
            r == clamp_i64(self.timestamp - now),
    {
        let d: i128 = self.timestamp as i128 - now as i128;
        if d < i64::MIN as i128 {
            i64::MIN
        } else if d > i64::MAX as i128 {
            i64::MAX
        } else {
            d as i64
        }
    }

    /// Slots from the manager's current slot to this token's slot.
    pub fn get_offset(&self, manager: &RollingTokenManager) -> (r: i64)
        requires
            manager.wf(),
        ensures
            exists|secs: nat| secs <= u64::MAX && r == clamp_i64(self.timestamp - slot_of(secs, manager.interval_view() as int)),
    {
        let now = manager.current_timestamp();
        self.offset_at(now)
    }
}

/// Issues tokens for time slots and accepts those of a window around the
/// current slot.
pub struct RollingTokenManager {
    secret: Vec<u8>,
    interval: i64,
    tolerance: i64,
    active_tokens: Vec<Token>,
}

impl RollingTokenManager {
    /// The secret bytes that key the MAC.
    pub closed spec fn secret_view(&self) -> Seq<u8> {
        self.secret@
    }

    /// Seconds per slot.
    pub closed spec fn interval_view(&self) -> i64 {
        self.interval
    }

    /// Slots accepted on each side of the current one.
    pub closed spec fn tolerance_view(&self) -> i64 {
        self.tolerance
    }

    /// The tokens currently held as accepted.
    pub closed spec fn tokens_view(&self) -> Seq<Token> {
        self.active_tokens@
    }

    /// Every held token was derived from the secret, for a slot of its own.
    pub open spec fn wf(&self) -> bool {
        &&& 0 < self.interval_view()
        &&& 0 <= self.tolerance_view() <= MAX_TOLERANCE
        &&& forall|i: int|
            0 <= i < self.tokens_view().len() ==> (#[trigger] self.tokens_view()[i]).derived_from(
                self.secret_view(),
            )
        &&& distinct_slots(self.tokens_view())
    }

    /// A manager over `secret` with slots of `interval` seconds; `tolerance`
    /// defaults to one slot. It holds no tokens until the first validation.
    pub fn new(secret: &str, interval: i64, tolerance: Option<i64>) -> (r: RollingTokenManager)
        requires
            interval > 0,
            tolerance matches Some(t) ==> 0 <= t <= MAX_TOLERANCE,
        ensures
            r.wf(),
            r.secret_view() == secret.spec_bytes(),
            r.interval_view() == interval,
            r.tolerance_view() == match tolerance {
                Some(t) => t,
                None => DEFAULT_TOLERANCE,
            },
            r.tokens_view().len() == 0,
    {
        Self::from_bytes(secret.as_bytes_vec(), interval, tolerance)
    }

    /// A manager over the raw bytes `secret`; otherwise as [`Self::new`].
    pub fn from_bytes(secret: Vec<u8>, interval: i64, tolerance: Option<i64>) -> (r: RollingTokenManager)
        requires
            interval > 0,
            tolerance matches Some(t) ==> 0 <= t <= MAX_TOLERANCE,
        ensures
            r.wf(),
            r.secret_view() == secret@,
            r.interval_view() == interval,
            r.tolerance_view() == match tolerance {
                Some(t) => t,
                None => DEFAULT_TOLERANCE,
            },
            r.tokens_view().len() == 0,
    {
        let tolerance = match tolerance {
            Some(t) => t,
            None => DEFAULT_TOLERANCE,
        };
        RollingTokenManager { secret, interval, tolerance, active_tokens: Vec::new() }
    }

    /// Seconds per slot.
    pub fn interval(&self) -> (r: i64)
        ensures
            r == self.interval_view(),
    {
        self.interval
    }

    /// Slots accepted on each side of the current one.
    pub fn tolerance(&self) -> (r: i64)
        ensures
            r == self.tolerance_view(),
    {
        self.tolerance
    }

    /// The tokens currently held as accepted.
    pub fn active_tokens(&self) -> (r: &Vec<Token>)
        ensures
            r@ == self.tokens_view(),
    {
        &self.active_tokens
    }
}

impl RollingTokenManager {
    /// The slot that a clock reading of `unix_secs` seconds falls in.
    pub fn slot_at(&self, unix_secs: u64) -> (r: i64)
        requires
            self.wf(),
        ensures
            r == slot_of(unix_secs as nat, self.interval_view() as int),
    {
        let q: u64 = unix_secs / (self.interval as u64);
        if q > i64::MAX as u64 {
            i64::MAX
        } else {
            q as i64
        }
    }

    /// The slot the wall clock is in now; a clock set before the epoch reads
    /// as the epoch.
    pub fn current_timestamp(&self) -> (r: i64)
        requires
            self.wf(),
        ensures
            exists|secs: nat| secs <= u64::MAX && r == slot_of(secs, self.interval_view() as int),
            r >= 0,
    {
        let secs: u64 = match unix_seconds() {
            Some(s) => s,
            None => 0,
        };
        self.slot_at(secs)
    }

    /// The token of `slot`: the hex of the MAC, under the secret, of the
    /// slot's decimal text.
    pub fn token_for_slot(&self, slot: i64) -> (r: Token)
        ensures
            r.timestamp == slot,
            r.token@ == token_text(self.secret_view(), slot as int),
            r.token@.len() == 64,
    {
        let message = decimal_bytes(slot);
        let tag = mac_tag(self.secret.as_slice(), message.as_slice());
        let token = to_hex(tag.as_slice());
        proof {
            lemma_hex_len(tag@);
        }
        Token { token, timestamp: slot }
    }

    /// The token `offset` slots away from the slot `now`.
    pub fn generate_token_with_offset_at(&self, now: i64, offset: i64) -> (r: Token)
        ensures
            r.timestamp == clamp_i64(now + offset),
            r.derived_from(self.secret_view()),
            r.token@.len() == 64,
    {
        let slot: i64 = clamp_sum(now, offset);
        self.token_for_slot(slot)
    }

    /// The token `offset` slots away from the current slot.
    pub fn generate_token_with_offset(&self, offset: i64) -> (r: Token)
        requires
            self.wf(),
        ensures
            exists|secs: nat| secs <= u64::MAX && r.timestamp == clamp_i64(slot_of(secs, self.interval_view() as int) + offset),
            r.derived_from(self.secret_view()),
            r.token@.len() == 64,
    {
        let now = self.current_timestamp();
        self.generate_token_with_offset_at(now, offset)
    }

    /// The token of the current slot.
    pub fn generate_token(&self) -> (r: Token)
        requires
            self.wf(),
        ensures
            exists|secs: nat| secs <= u64::MAX && r.timestamp == slot_of(secs, self.interval_view() as int),
            r.derived_from(self.secret_view()),
            r.token@.len() == 64,
    {
        let r = self.generate_token_with_offset(0);
        proof {
            let secs = choose|secs: nat| secs <= u64::MAX && r.timestamp == clamp_i64(slot_of(secs, self.interval_view() as int) + 0);
            assert(r.timestamp == slot_of(secs, self.interval_view() as int));
        }
        r
    }
}

impl RollingTokenManager {
    /// Brings the held tokens to the window around the slot `now`: tokens
    /// whose slot left the window are dropped, those still inside are kept
    /// as they are, and only the missing slots get a newly derived token.
    pub fn refresh_tokens_at(&mut self, now: i64)
        requires
            old(self).wf(),
        ensures
            final(self).wf(),
            final(self).secret_view() == old(self).secret_view(),
            final(self).interval_view() == old(self).interval_view(),
            final(self).tolerance_view() == old(self).tolerance_view(),
            refreshed(
                old(self).tokens_view(),
                final(self).tokens_view(),
                now as int,
                old(self).tolerance_view() as int,
            ),
    {
        let tolerance = self.tolerance;
        let ghost before = self.active_tokens@;
        let ghost secret = self.secret@;
        let ghost t = tolerance as int;
        let lo: i64 = if now < i64::MIN + tolerance {
            i64::MIN
        } else {
            now - tolerance
        };
        let hi: i64 = if now > i64::MAX - tolerance {
            i64::MAX
        } else {
            now + tolerance
        };
        let mut i: usize = 0;
        while i < self.active_tokens.len()
            invariant
                self.secret@ == secret,
                secret == old(self).secret@,
                self.interval == old(self).interval,
                self.tolerance == tolerance,
                tolerance == old(self).tolerance,
                before == old(self).active_tokens@,
                t == tolerance as int,
                0 < self.interval,
                0 <= tolerance <= MAX_TOLERANCE,
                lo == window_lo(now as int, t),
                hi == window_hi(now as int, t),
                i <= self.active_tokens@.len(),
                forall|k: int|
                    0 <= k < self.active_tokens@.len() ==> (#[trigger] self.active_tokens@[k]).derived_from(secret),
                distinct_slots(self.active_tokens@),
                forall|k: int|
                    0 <= k < i ==> in_window(#[trigger] self.active_tokens@[k].timestamp as int, now as int, t),
                forall|k: int|
                    0 <= k < before.len() && in_window(#[trigger] before[k].timestamp as int, now as int, t)
                        ==> self.active_tokens@.contains(before[k]),
                (forall|k: int| 0 <= k < before.len() ==> in_window(#[trigger] before[k].timestamp as int, now as int, t))
                    ==> self.active_tokens@ == before,
            decreases self.active_tokens@.len() - i,
        {
            let ts = self.active_tokens[i].timestamp;
            if ts < lo || ts > hi {
                let ghost prev = self.active_tokens@;
                let _gone = self.active_tokens.remove(i);
                proof {
                    let cur = self.active_tokens@;
                    assert forall|k: int|
                        0 <= k < before.len() && in_window(#[trigger] before[k].timestamp as int, now as int, t)
                            implies cur.contains(before[k]) by {
                        let m = choose|m: int| 0 <= m < prev.len() && prev[m] == before[k];
                        if m < i {
                            assert(cur[m] == before[k]);
                        } else {
                            assert(m != i);
                            assert(cur[m - 1] == before[k]);
                        }
                    }
                    if forall|k: int| 0 <= k < before.len() ==> in_window(#[trigger] before[k].timestamp as int, now as int, t) {
                        assert(prev == before);
                        assert(in_window(before[i as int].timestamp as int, now as int, t));
                    }
                    assert forall|a: int, b: int|
                        0 <= a < cur.len() && 0 <= b < cur.len() && a != b implies cur[a].timestamp
                            != cur[b].timestamp by {
                        let pa = if a < i { a } else { a + 1 };
                        let pb = if b < i { b } else { b + 1 };
                        assert(cur[a] == prev[pa]);
                        assert(cur[b] == prev[pb]);
                    }
                    assert forall|k: int| 0 <= k < cur.len() implies (#[trigger] cur[k]).derived_from(secret) by {
                        if k < i {
                            assert(cur[k] == prev[k]);
                        } else {
                            assert(cur[k] == prev[k + 1]);
                        }
                    }
                    assert forall|k: int| 0 <= k < i implies in_window(#[trigger] cur[k].timestamp as int, now as int, t) by {
                        assert(cur[k] == prev[k]);
                    }
                }
            } else {
                i += 1;
            }
        }
        proof {
            if slots_of(before) == window(now as int, t) {
                assert forall|k: int| 0 <= k < before.len() implies in_window(#[trigger] before[k].timestamp as int, now as int, t) by {
                    assert(slots_of(before).contains(before[k].timestamp as int));
                }
                lemma_slots_len(before);
                lemma_window_len(now as int, t);
            }
        }
        let span: u64 = (hi as i128 - lo as i128) as u64;
        if self.active_tokens.len() as u64 == span + 1 {
            proof {
                lemma_full_window(self.active_tokens@, now as int, t);
            }
            return;
        }
        let mut j: u64 = 0;
        while j <= span
            invariant
                self.secret@ == secret,
                secret == old(self).secret@,
                self.interval == old(self).interval,
                self.tolerance == tolerance,
                tolerance == old(self).tolerance,
                before == old(self).active_tokens@,
                t == tolerance as int,
                0 < self.interval,
                0 <= tolerance <= MAX_TOLERANCE,
                lo == window_lo(now as int, t),
                hi == window_hi(now as int, t),
                span == hi - lo,
                j <= span + 1,
                forall|k: int|
                    0 <= k < self.active_tokens@.len() ==> (#[trigger] self.active_tokens@[k]).derived_from(secret),
                distinct_slots(self.active_tokens@),
                forall|k: int|
                    0 <= k < self.active_tokens@.len() ==> in_window(
                        #[trigger] self.active_tokens@[k].timestamp as int,
                        now as int,
                        t,
                    ),
                forall|s: int| lo <= s < lo + j ==> #[trigger] slots_of(self.active_tokens@).contains(s),
                forall|k: int|
                    0 <= k < before.len() && in_window(#[trigger] before[k].timestamp as int, now as int, t)
                        ==> self.active_tokens@.contains(before[k]),
            decreases span + 1 - j,
        {
            let slot: i64 = (lo as i128 + j as i128) as i64;
            if !has_slot(&self.active_tokens, slot) {
                let token = self.token_for_slot(slot);
                let ghost prev = self.active_tokens@;
                self.active_tokens.push(token);
                proof {
                    let cur = self.active_tokens@;
                    assert(cur[prev.len() as int] == token);
                    assert forall|k: int| 0 <= k < prev.len() implies cur[k] == prev[k] by {}
                    assert forall|s: int| lo <= s < lo + j + 1 implies #[trigger] slots_of(cur).contains(s) by {
                        if s < lo + j {
                            assert(slots_of(prev).contains(s));
                            let m = choose|m: int| 0 <= m < prev.len() && prev[m].timestamp == s;
                            assert(cur[m].timestamp == s);
                        } else {
                            assert(cur[prev.len() as int].timestamp == s);
                        }
                    }
                    assert forall|a: int, b: int|
                        0 <= a < cur.len() && 0 <= b < cur.len() && a != b implies cur[a].timestamp
                            != cur[b].timestamp by {
                        if a == prev.len() && b < prev.len() {
                            assert(slots_of(prev).contains(prev[b].timestamp as int));
                        }
                        if b == prev.len() && a < prev.len() {
                            assert(slots_of(prev).contains(prev[a].timestamp as int));
                        }
                    }
                    assert forall|k: int|
                        0 <= k < before.len() && in_window(#[trigger] before[k].timestamp as int, now as int, t)
                            implies cur.contains(before[k]) by {
                        let m = choose|m: int| 0 <= m < prev.len() && prev[m] == before[k];
                        assert(cur[m] == before[k]);
                    }
                }
            }
            j += 1;
        }
        proof {
            let cur = self.active_tokens@;
            assert forall|s: int| #[trigger] slots_of(cur).contains(s) implies window(now as int, t).contains(s) by {
                let m = choose|m: int| 0 <= m < cur.len() && cur[m].timestamp == s;
                assert(in_window(cur[m].timestamp as int, now as int, t));
            }
            assert forall|s: int| #[trigger] window(now as int, t).contains(s) implies slots_of(cur).contains(s) by {
                assert(lo <= s < lo + j);
            }
            assert(slots_of(cur) =~= window(now as int, t));
            lemma_slots_len(cur);
            lemma_window_len(now as int, t);
        }
    }
}

impl RollingTokenManager {
    /// Refreshes the window around the slot `now`, then tells whether
    /// `token` is the token string of one of its slots.
    pub fn is_valid_at(&mut self, now: i64, token: &str) -> (r: bool)
        requires
            old(self).wf(),
        ensures
            r == accepted_in(old(self).secret_view(), now as int, old(self).tolerance_view() as int, token@),
            final(self).wf(),
            final(self).secret_view() == old(self).secret_view(),
            final(self).interval_view() == old(self).interval_view(),
            final(self).tolerance_view() == old(self).tolerance_view(),
            refreshed(
                old(self).tokens_view(),
                final(self).tokens_view(),
                now as int,
                old(self).tolerance_view() as int,
            ),
    {
        self.refresh_tokens_at(now);
        let found = self.holds(token);
        proof {
            let toks = self.active_tokens@;
            let secret = self.secret@;
            let t = self.tolerance as int;
            if found {
                let i = choose|i: int| 0 <= i < toks.len() && toks[i].token@ == token@;
                assert(slots_of(toks).contains(toks[i].timestamp as int));
                assert(in_window(toks[i].timestamp as int, now as int, t));
                assert(token_text(secret, toks[i].timestamp as int) == token@);
            } else {
                if accepted_in(secret, now as int, t, token@) {
                    let s = choose|s: int| in_window(s, now as int, t) && token_text(secret, s) == token@;
                    assert(window(now as int, t).contains(s));
                    assert(slots_of(toks).contains(s));
                    let i = choose|i: int| 0 <= i < toks.len() && toks[i].timestamp == s;
                    assert(toks[i].derived_from(secret));
                }
            }
        }
        found
    }

    /// Whether a held token has the string `token`.
    fn holds(&self, token: &str) -> (r: bool)
        ensures
            r == exists|i: int| 0 <= i < self.active_tokens@.len() && #[trigger] self.active_tokens@[i].token@ == token@,
    {
        let candidate = String::from_str(token);
        let mut i: usize = 0;
        while i < self.active_tokens.len()
            invariant
                i <= self.active_tokens@.len(),
                candidate@ == token@,
                forall|k: int| 0 <= k < i ==> #[trigger] self.active_tokens@[k].token@ != token@,
            decreases self.active_tokens@.len() - i,
        {
            if self.active_tokens[i].token == candidate {
                return true;
            }
            i += 1;
        }
        false
    }

    /// Brings the held tokens to the window around the current slot.
    pub fn refresh_tokens(&mut self)
        requires
            old(self).wf(),
        ensures
            final(self).wf(),
            final(self).secret_view() == old(self).secret_view(),
            final(self).interval_view() == old(self).interval_view(),
            final(self).tolerance_view() == old(self).tolerance_view(),
            exists|secs: nat|
                #![trigger slot_of(secs, old(self).interval_view() as int)]
                secs <= u64::MAX && refreshed(
                    old(self).tokens_view(),
                    final(self).tokens_view(),
                    slot_of(secs, old(self).interval_view() as int),
                    old(self).tolerance_view() as int,
                ),
    {
        let now = self.current_timestamp();
        self.refresh_tokens_at(now);
    }

    /// Refreshes the window around the current slot, then tells whether
    /// `token` is the token string of one of its slots.
    pub fn is_valid(&mut self, token: &str) -> (r: bool)
        requires
            old(self).wf(),
        ensures
            final(self).wf(),
            final(self).secret_view() == old(self).secret_view(),
            final(self).interval_view() == old(self).interval_view(),
            final(self).tolerance_view() == old(self).tolerance_view(),
            exists|secs: nat|
                #![trigger slot_of(secs, old(self).interval_view() as int)]
                {
                    let now = slot_of(secs, old(self).interval_view() as int);
                    let t = old(self).tolerance_view() as int;
                    &&& secs <= u64::MAX
                    &&& r == accepted_in(old(self).secret_view(), now, t, token@)
                    &&& refreshed(old(self).tokens_view(), final(self).tokens_view(), now, t)
                },
    {
        let now = self.current_timestamp();
        self.is_valid_at(now, token)
    }
}

} // verus!

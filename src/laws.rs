//! Laws relating successive calls: determinism of derivation, the
//! acceptance window, refresh idempotence, sliding, and offsets.

use crate::manager::{
    accepted_in, clamp_i64, in_window, refreshed, slots_of, token_text, window, window_size, Token,
};
use vstd::prelude::*;

verus! {

/// Tokens derived from one secret for one slot carry the same string, however
/// and whenever they were made.
pub proof fn lemma_token_deterministic(secret: Seq<u8>, a: Token, b: Token)
    requires
        a.derived_from(secret),
        b.derived_from(secret),
        a.timestamp == b.timestamp,
    ensures
        a.token@ == b.token@,
{
}

/// A token generated at most `tolerance` slots from `now` (its slot held to
/// `i64`) is accepted by the window around `now`.
pub proof fn lemma_window_accepts(secret: Seq<u8>, now: int, tolerance: int, offset: int, token: Token)
    requires
        i64::MIN <= now <= i64::MAX,
        token.derived_from(secret),
        token.timestamp == clamp_i64(now + offset),
        -tolerance <= offset <= tolerance,
    ensures
        accepted_in(secret, now, tolerance, token.token@),
{
    assert(in_window(token.timestamp as int, now, tolerance));
}

/// A token derived for a slot more than `tolerance` slots from `now` is
/// rejected by the window around `now`, unless its string equals the token
/// string of a slot inside the window.
pub proof fn lemma_window_rejects(secret: Seq<u8>, now: int, tolerance: int, offset: int, token: Token)
    requires
        token.derived_from(secret),
        token.timestamp == now + offset,
        offset < -tolerance || offset > tolerance,
        forall|s: int| in_window(s, now, tolerance) ==> #[trigger] token_text(secret, s) != token.token@,
    ensures
        !accepted_in(secret, now, tolerance, token.token@),
{
}

/// Refreshing twice around the same slot: the second refresh changes
/// nothing, so the accepted tokens stay the same strings and their number
/// stays `1 + 2 * tolerance`.
pub proof fn lemma_refresh_idempotent(
    first: Seq<Token>,
    second: Seq<Token>,
    third: Seq<Token>,
    now: int,
    tolerance: int,
)
    requires
        refreshed(first, second, now, tolerance),
        refreshed(second, third, now, tolerance),
    ensures
        third == second,
        third.len() == window_size(now, tolerance),
{
}

/// When the current slot advances by one, inside the range of `i64`, the
/// refreshed tokens lose exactly the slot `now - tolerance`, gain exactly the
/// slot `now + tolerance + 1`, and keep every other token as it was.
pub proof fn lemma_window_slides(
    first: Seq<Token>,
    second: Seq<Token>,
    third: Seq<Token>,
    now: int,
    tolerance: int,
)
    requires
        tolerance >= 0,
        i64::MIN <= now - tolerance,
        now + tolerance + 1 <= i64::MAX,
        refreshed(first, second, now, tolerance),
        refreshed(second, third, now + 1, tolerance),
    ensures
        slots_of(third) == slots_of(second).remove(now - tolerance).insert(now + tolerance + 1),
        slots_of(second).contains(now - tolerance),
        !slots_of(third).contains(now - tolerance),
        !slots_of(second).contains(now + tolerance + 1),
        slots_of(third).contains(now + tolerance + 1),
        forall|i: int|
            0 <= i < second.len() && #[trigger] second[i].timestamp != now - tolerance
                ==> third.contains(second[i]),
{
    assert(slots_of(third) =~= slots_of(second).remove(now - tolerance).insert(now + tolerance + 1));
    assert(window(now, tolerance).contains(now - tolerance));
    assert(window(now + 1, tolerance).contains(now + tolerance + 1));
    assert forall|i: int| 0 <= i < second.len() && #[trigger] second[i].timestamp != now - tolerance
        implies third.contains(second[i]) by {
        assert(slots_of(second).contains(second[i].timestamp as int));
        assert(window(now, tolerance).contains(second[i].timestamp as int));
        assert(in_window(second[i].timestamp as int, now + 1, tolerance));
    }
}

/// A token generated `offset` slots from `now` lies `offset` slots from
/// `now`, wherever its slot fits in an `i64`.
pub proof fn lemma_offset_recovered(now: i64, offset: i64, token: Token)
    requires
        i64::MIN <= now + offset <= i64::MAX,
        token.timestamp == clamp_i64(now + offset),
    ensures
        clamp_i64(token.timestamp - now) == offset,
{
}

} // verus!

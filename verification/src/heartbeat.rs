//! The bot heartbeat: every half second, if the last ping was answered, a
//! new one goes out and the bot has a fixed window to answer before it
//! counts as offline. The timing lives with the caller; this module is the
//! decision rule, so the flag can only flip when an observation differs
//! from the previous one — never inside a single cycle.

use vstd::prelude::*;

verus! {

/// How long the bot may take to answer one ping, in milliseconds.
pub const BOT_PONG_WINDOW_MS: u64 = 200;

/// How often a heartbeat cycle starts, in milliseconds.
pub const BOT_PING_EVERY_MS: u64 = 500;

/// What one heartbeat cycle decided.
pub struct HeartbeatOutcome {
    /// A ping went out this cycle; false when the previous one is still
    /// unanswered.
    pub sent_ping: bool,
    /// The bot answered within the window (meaningful when a ping went
    /// out).
    pub currently_alive: bool,
    /// The observation differs from the stored flag.
    pub changed: bool,
    /// The new value of the `bot_connected` flag.
    pub new_bot_connected: bool,
    /// Flush every client: the bot just went from alive to dead.
    pub flush: bool,
}

/// One heartbeat cycle. `latch_before` is the pong latch as the cycle
/// starts; when it is still down, the cycle is skipped and nothing
/// changes. Otherwise a ping goes out and `latch_seen` says whether the
/// latch rose again within the window; the flag follows the observation,
/// and on a live-to-dead transition every client is flushed.
pub fn heartbeat_cycle(latch_before: bool, latch_seen: bool, previously_alive: bool) -> (r:
    HeartbeatOutcome)
    ensures
        r.sent_ping == latch_before,
        !latch_before ==> r.new_bot_connected == previously_alive && !r.changed && !r.flush,
        latch_before ==> r.currently_alive == latch_seen,
        latch_before ==> r.changed == (latch_seen != previously_alive),
        latch_before ==> r.new_bot_connected == latch_seen,
        latch_before ==> r.flush == (previously_alive && !latch_seen),
        r.changed ==> r.new_bot_connected != previously_alive,
        !r.changed ==> r.new_bot_connected == previously_alive,
{
    if !latch_before {
        HeartbeatOutcome {
            sent_ping: false,
            currently_alive: previously_alive,
            changed: false,
            new_bot_connected: previously_alive,
            flush: false,
        }
    } else {
        let changed = latch_seen != previously_alive;
        HeartbeatOutcome {
            sent_ping: true,
            currently_alive: latch_seen,
            changed,
            new_bot_connected: latch_seen,
            flush: changed && !latch_seen,
        }
    }
}

/// The flag is monotone over a cycle: it never flips without a differing
/// observation, and two cycles that observe the stored value leave it
/// untouched. This is the no-spurious-flap rule of the heartbeat.
pub proof fn lemma_heartbeat_no_spurious_flap(r: HeartbeatOutcome, latch_before: bool, latch_seen: bool, previously_alive: bool)
    requires
        r.sent_ping == latch_before,
        !latch_before ==> r.new_bot_connected == previously_alive && !r.changed,
        latch_before ==> r.changed == (latch_seen != previously_alive),
        latch_before ==> r.new_bot_connected == latch_seen,
        !r.changed ==> r.new_bot_connected == previously_alive,
    ensures
        r.new_bot_connected != previously_alive ==> r.sent_ping && latch_seen != previously_alive,
{
}

} // verus!

//! A chatter without a user: it says the numbers 1, 2, 3, ... at random
//! intervals.

use vstd::prelude::*;
use crate::common::random_below;
use crate::common::timer::now_millis;

verus! {

/// The shortest time, in milliseconds, between two messages of the bot.
pub const MIN_WAIT_MS: u64 = 1_000;

/// The time, in milliseconds, below which every interval of the bot stays.
pub const MAX_WAIT_MS: u64 = 10_000;

/// The time, in milliseconds, that the bot sleeps between two looks at the
/// clock.
pub const SLEEP_MS: u64 = 500;

/// The state of the bot: how many messages it has said, and when the next one
/// is due.
#[derive(Debug, Clone, Copy, PartialEq, Eq, Structural)]
pub struct Bot {
    /// The number of messages said.
    pub cnt: u64,
    /// The clock reading at which the next message is due.
    pub next_action: u64,
}

impl Bot {
    /// A bot whose first message is due at `now`.
    pub fn bot_main(now: u64) -> (b: Bot)
        ensures
            b == (Bot { cnt: 0, next_action: now }),
    {
        Bot { cnt: 0, next_action: now }
    }

    /// The bot after a look at the clock at `now`, and the number that it says,
    /// if one is due. After a message the next one is due `delay` later.
    pub open spec fn spec_tick(self, now: u64, delay: u64) -> (Bot, Option<u64>) {
        if now >= self.next_action && self.cnt < u64::MAX {
            (
                Bot {
                    cnt: (self.cnt + 1) as u64,
                    next_action: if now + delay <= u64::MAX {
                        (now + delay) as u64
                    } else {
                        u64::MAX
                    },
                },
                Some((self.cnt + 1) as u64),
            )
        } else {
            (self, None)
        }
    }

    /// One look at the clock: see `spec_tick`.
    pub fn tick_at(&mut self, now: u64, delay: u64) -> (say: Option<u64>)
        ensures
            (*final(self), say) == old(self).spec_tick(now, delay),
    {
        if now >= self.next_action && self.cnt < u64::MAX {
            self.cnt = self.cnt + 1;
            self.next_action = if delay <= u64::MAX - now {
                now + delay
            } else {
                u64::MAX
            };
            Some(self.cnt)
        } else {
            None
        }
    }

    /// One look at the clock, now. After a message the next one is due after a
    /// random time of at least `MIN_WAIT_MS` and less than `MAX_WAIT_MS`.
    pub fn tick(&mut self) -> (say: Option<u64>)
        ensures
            exists|now: u64, delay: u64|
                MIN_WAIT_MS <= delay < MAX_WAIT_MS && (*final(self), say) == #[trigger] old(
                    self,
                ).spec_tick(now, delay),
    {
        let now = now_millis();
        let delay = MIN_WAIT_MS + random_below(MAX_WAIT_MS - MIN_WAIT_MS);
        self.tick_at(now, delay)
    }
}

} // verus!

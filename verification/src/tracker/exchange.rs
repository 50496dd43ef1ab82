//! Announcing to a tracker, from step to step.

use vstd::pervasive::unreached;
use vstd::prelude::*;

use super::peers::Address;
use super::udp::{
    announce_bytes, can_read_announce, can_read_connect, connect_bytes, retry_timeout,
    Announcement, TrackerError, UdpTracker, CONNECTION_SECONDS, RETRY_TIMEOUT, SECOND,
};
use crate::buffer::contents;

verus! {

/// What the exchange is about to do, or waits for.
#[derive(Copy, Clone, Debug, PartialEq, Eq)]
pub enum Phase {
    /// An attempt to announce is about to begin.
    Starting,
    /// Getting a connection: how many tries there have been, the transaction, the end of this try,
    /// and whether the request has been sent.
    Connecting { tries: usize, tx_id: u32, until: u64, sent: bool },
    /// Announcing: the transaction, and whether the announcement has been sent.
    Announcing { tx_id: u32, sent: bool },
    /// The exchange is over.
    Stopped,
}

/// The exchange with a tracker, in which we try several times to announce.
pub struct Exchange {
    pub tracker: UdpTracker,
    pub announcement: Announcement,
    /// How many attempts have failed.
    pub attempts: usize,
    /// The end of this attempt.
    pub until: u64,
    pub phase: Phase,
}

/// What has happened, and when.
#[derive(Copy, Clone, Debug, PartialEq, Eq)]
pub enum Event {
    /// Nothing but time has passed.
    Proceed { now: u64 },
    /// Bytes of the request have been sent.
    Sent { n: usize, now: u64 },
    /// The buffer holds a reply.
    Received { now: u64 },
    /// The request could not be sent, or the reply could not be received.
    Failed { now: u64 },
    /// That took too long.
    TimedOut { now: u64 },
}

/// What to do next.
pub enum Action {
    /// Go on.
    Proceed,
    /// Send what the buffer holds, but only until a point in time.
    Send { until: u64 },
    /// Receive a reply into the buffer, but only until a point in time.
    Receive { until: u64 },
    /// Take the peers, and the number of seeds that the tracker knows.
    Finish { peers: Vec<Address>, seeders: u32 },
    /// Leave the tracker alone.
    GiveUp,
}

/// A step of the exchange: what it has become, what to do next, and what was wrong.
pub struct Turn {
    pub exchange: Exchange,
    pub action: Action,
    pub error: Option<TrackerError>,
}

/// Whether every wait that begins now has an end.
pub open spec fn is_early(now: u64) -> bool {
    now + u32::MAX * SECOND <= u64::MAX
}

/// When a try or an attempt that begins now ends.
pub open spec fn end_of(now: u64, attempt: int) -> int {
    now + RETRY_TIMEOUT@[attempt] * SECOND
}

/// The earlier of two points in time.
pub open spec fn earlier(a: u64, b: u64) -> u64 {
    if a < b {
        a
    } else {
        b
    }
}

impl Exchange {
    /// Whether there have not been more attempts and tries than there may be.
    pub open spec fn valid(self) -> bool {
        &&& self.attempts <= RETRY_TIMEOUT@.len()
        &&& self.phase is Connecting || self.phase is Announcing ==> self.attempts
            < RETRY_TIMEOUT@.len()
        &&& match self.phase {
            Phase::Connecting { tries, .. } => tries < RETRY_TIMEOUT@.len(),
            _ => true,
        }
    }

    /// A bound on the number of steps to the end of the exchange.
    pub open spec fn steps_left(self) -> int {
        let later = 10 * (RETRY_TIMEOUT@.len() - self.attempts);
        match self.phase {
            Phase::Starting => later + 10,
            Phase::Connecting { tries, sent, .. } => later + 9 - 2 * tries - (if sent {
                1int
            } else {
                0
            }),
            Phase::Announcing { sent, .. } => later + 3 - (if sent {
                1int
            } else {
                0
            }),
            Phase::Stopped => 0,
        }
    }

    /// Whether an event can happen in this phase and be dealt with.
    pub open spec fn can_step(self, event: Event) -> bool {
        let s = contents(self.tracker.buf);
        match (self.phase, event) {
            (Phase::Starting, Event::Proceed { now }) => is_early(now),
            (Phase::Connecting { sent, .. }, Event::Sent { now, .. }) => !sent && is_early(now),
            (Phase::Connecting { sent, tx_id, .. }, Event::Received { now }) => sent && is_early(
                now,
            ) && can_read_connect(s, tx_id),
            (Phase::Connecting { .. }, Event::Failed { now }) => is_early(now),
            (Phase::Connecting { .. }, Event::TimedOut { now }) => is_early(now),
            (Phase::Announcing { sent, .. }, Event::Sent { .. }) => !sent,
            (Phase::Announcing { sent, tx_id }, Event::Received { now }) => sent
                && can_read_announce(s, tx_id, now),
            (Phase::Announcing { .. }, Event::Failed { .. }) => true,
            (Phase::Announcing { .. }, Event::TimedOut { .. }) => true,
            _ => false,
        }
    }

    /// Whether [`Exchange::step`] can deal with an event.
    pub fn accepts(&self, event: &Event) -> (res: bool)
        ensures
            res == self.can_step(*event),
    {
        let last: u64 = u64::MAX - u32::MAX as u64 * SECOND;
        match (&self.phase, event) {
            (Phase::Starting, Event::Proceed { now }) => *now <= last,
            (Phase::Connecting { sent, .. }, Event::Sent { now, .. }) => !*sent && *now <= last,
            (Phase::Connecting { sent, tx_id, .. }, Event::Received { now }) => *sent && *now
                <= last && self.tracker.accepts_connect_reply(*tx_id),
            (Phase::Connecting { .. }, Event::Failed { now }) => *now <= last,
            (Phase::Connecting { .. }, Event::TimedOut { now }) => *now <= last,
            (Phase::Announcing { sent, .. }, Event::Sent { .. }) => !*sent,
            (Phase::Announcing { sent, tx_id }, Event::Received { now }) => *sent
                && self.tracker.accepts_announce_reply(*tx_id, *now),
            (Phase::Announcing { .. }, Event::Failed { .. }) => true,
            (Phase::Announcing { .. }, Event::TimedOut { .. }) => true,
            _ => false,
        }
    }

    /// An exchange that has not begun.
    pub fn new(tracker: UdpTracker, announcement: Announcement) -> (res: Self)
        ensures
            res.tracker == tracker,
            res.announcement == announcement,
            res.attempts == 0,
            res.until == 0,
            res.phase == Phase::Starting,
            res.valid(),
    {
        Exchange { tracker, announcement, attempts: 0, until: 0, phase: Phase::Starting }
    }
}

impl Turn {
    /// Whether the attempt has failed and the next one is about to begin.
    pub open spec fn starts_over(self, before: Exchange) -> bool {
        &&& self.exchange.attempts == before.attempts + 1
        &&& self.exchange.until == before.until
        &&& self.exchange.phase == Phase::Starting
        &&& self.action == Action::Proceed
    }

    /// Whether a connection is asked for, with an attempt that ends at `until`.
    pub open spec fn asks_for_connection(
        self,
        before: Exchange,
        until: u64,
        tries: int,
        now: u64,
    ) -> bool {
        let after = self.exchange;
        &&& after.attempts == before.attempts
        &&& after.until == until
        &&& match after.phase {
            Phase::Connecting { tries: nth, tx_id, until: end, sent } => {
                &&& nth == tries
                &&& end == end_of(now, tries)
                &&& !sent
                &&& contents(after.tracker.buf) == connect_bytes(tx_id)
                &&& self.action == Action::Send { until: earlier(until, end) }
            },
            _ => false,
        }
    }

    /// Whether the announcement is made, in an attempt that ends at `until`.
    pub open spec fn announces(self, before: Exchange, until: u64) -> bool {
        let after = self.exchange;
        &&& after.attempts == before.attempts
        &&& after.until == until
        &&& match after.phase {
            Phase::Announcing { tx_id, sent } => {
                &&& !sent
                &&& contents(after.tracker.buf) == announce_bytes(
                    after.tracker.conn_id,
                    tx_id,
                    after.tracker.key,
                    before.announcement,
                )
                &&& self.action == Action::Send { until }
            },
            _ => false,
        }
    }

    /// Whether a try to get a connection has failed: there is another one, unless this was the
    /// last.
    pub open spec fn tries_again(self, before: Exchange, tries: usize, now: u64) -> bool {
        if tries + 1 < RETRY_TIMEOUT@.len() {
            self.asks_for_connection(before, before.until, tries + 1, now)
        } else {
            self.starts_over(before)
        }
    }

    /// Whether a reply is awaited until a point in time.
    pub open spec fn awaits_reply(self, before: Exchange, phase: Phase, until: u64) -> bool {
        &&& self.exchange.attempts == before.attempts
        &&& self.exchange.until == before.until
        &&& self.exchange.phase == phase
        &&& contents(self.exchange.tracker.buf) == Seq::<u8>::empty()
        &&& self.action == Action::Receive { until }
        &&& self.error is None
    }

    /// Whether this is the step that an event leads to.
    pub open spec fn comes_of(self, before: Exchange, event: Event) -> bool {
        let was = before.tracker;
        let tracker = self.exchange.tracker;
        let len = contents(was.buf).len();
        &&& self.exchange.announcement == before.announcement
        &&& match (before.phase, event) {
            (Phase::Starting, Event::Proceed { now }) => {
                &&& tracker.same_but_buf(was)
                &&& if before.attempts == RETRY_TIMEOUT@.len() {
                    &&& self.error is None
                    &&& self.exchange.attempts == before.attempts
                    &&& self.exchange.until == before.until
                    &&& self.exchange.phase == Phase::Stopped
                    &&& self.action == Action::GiveUp
                } else if now < was.next_announce {
                    self.error == Some(TrackerError::TooEarly) && self.starts_over(before)
                } else {
                    let until = end_of(now, before.attempts as int) as u64;
                    &&& self.error is None
                    &&& if now - was.conn_id_ts > CONNECTION_SECONDS * SECOND {
                        self.asks_for_connection(before, until, 0, now)
                    } else {
                        self.announces(before, until)
                    }
                }
            },
            (Phase::Connecting { tries, tx_id, until, .. }, Event::Sent { n, now }) => {
                &&& tracker.same_but_buf(was)
                &&& if n == len {
                    self.awaits_reply(
                        before,
                        Phase::Connecting { tries, tx_id, until, sent: true },
                        earlier(before.until, until),
                    )
                } else {
                    &&& self.error == Some(TrackerError::ShortSend)
                    &&& self.tries_again(before, tries, now)
                }
            },
            (Phase::Connecting { tries, tx_id, .. }, Event::Received { now }) => exists|
                read: UdpTracker,
                res: Result<(), TrackerError>,
            | #[trigger]
                read.is_after_connect_reply(was, tx_id, now, res) && tracker.same_but_buf(read)
                    && match res {
                    Ok(()) => self.error is None && self.announces(before, before.until),
                    Err(error) => self.error == Some(error) && self.tries_again(before, tries, now),
                },
            (Phase::Connecting { tries, .. }, Event::Failed { now }) => {
                &&& tracker.same_but_buf(was)
                &&& self.error is None
                &&& self.tries_again(before, tries, now)
            },
            (Phase::Connecting { tries, .. }, Event::TimedOut { now }) => {
                &&& tracker.same_but_buf(was)
                &&& self.error is None
                &&& if now >= before.until {
                    self.starts_over(before)
                } else {
                    self.tries_again(before, tries, now)
                }
            },
            (Phase::Announcing { tx_id, .. }, Event::Sent { n, .. }) => {
                &&& tracker.same_but_buf(was)
                &&& if n == len {
                    self.awaits_reply(
                        before,
                        Phase::Announcing { tx_id, sent: true },
                        before.until,
                    )
                } else {
                    self.error == Some(TrackerError::ShortSend) && self.starts_over(before)
                }
            },
            (Phase::Announcing { tx_id, .. }, Event::Received { now }) => exists|
                res: Result<(Vec<Address>, u32), TrackerError>,
            | #[trigger]
                tracker.is_after_announce_reply(was, tx_id, now, res) && match res {
                    Ok((peers, seeders)) => {
                        &&& self.error is None
                        &&& self.exchange.attempts == before.attempts
                        &&& self.exchange.until == before.until
                        &&& self.exchange.phase == Phase::Stopped
                        &&& self.action == Action::Finish { peers, seeders }
                    },
                    Err(error) => self.error == Some(error) && self.starts_over(before),
                },
            (Phase::Announcing { .. }, Event::Failed { .. } | Event::TimedOut { .. }) => {
                &&& tracker.same_but_buf(was)
                &&& self.error is None
                &&& self.starts_over(before)
            },
            _ => false,
        }
    }
}

impl Exchange {
    /// The turn after an attempt that has failed.
    fn start_over(self, error: Option<TrackerError>) -> (turn: Turn)
        requires
            self.attempts < RETRY_TIMEOUT@.len(),
        ensures
            turn.starts_over(self),
            turn.error == error,
            turn.exchange.tracker == self.tracker,
            turn.exchange.announcement == self.announcement,
            turn.exchange.valid(),
    {
        let mut exchange = self;
        exchange.attempts = exchange.attempts + 1;
        exchange.phase = Phase::Starting;
        Turn { exchange, action: Action::Proceed, error }
    }

    /// The turn in which a connection is asked for.
    fn ask_for_connection(self, tries: usize, now: u64, error: Option<TrackerError>) -> (turn: Turn)
        requires
            self.attempts < RETRY_TIMEOUT@.len(),
            tries < RETRY_TIMEOUT@.len(),
            is_early(now),
        ensures
            turn.asks_for_connection(self, self.until, tries as int, now),
            turn.error == error,
            turn.exchange.tracker.same_but_buf(self.tracker),
            turn.exchange.announcement == self.announcement,
            turn.exchange.valid(),
    {
        let mut exchange = self;
        let until: u64 = now + RETRY_TIMEOUT[tries] * SECOND;
        let tx_id: u32 = exchange.tracker.start_connect();
        exchange.phase = Phase::Connecting { tries, tx_id, until, sent: false };
        let end: u64 = if exchange.until < until {
            exchange.until
        } else {
            until
        };
        Turn { exchange, action: Action::Send { until: end }, error }
    }

    /// The turn after a try to get a connection that has failed.
    fn try_again(self, tries: usize, now: u64, error: Option<TrackerError>) -> (turn: Turn)
        requires
            self.attempts < RETRY_TIMEOUT@.len(),
            tries < RETRY_TIMEOUT@.len(),
            is_early(now),
        ensures
            turn.tries_again(self, tries, now),
            turn.error == error,
            turn.exchange.tracker.same_but_buf(self.tracker),
            turn.exchange.announcement == self.announcement,
            turn.exchange.valid(),
    {
        if tries + 1 < RETRY_TIMEOUT.len() {
            self.ask_for_connection(tries + 1, now, error)
        } else {
            self.start_over(error)
        }
    }

    /// The turn in which the announcement is made.
    fn announce(self) -> (turn: Turn)
        requires
            self.attempts < RETRY_TIMEOUT@.len(),
        ensures
            turn.announces(self, self.until),
            turn.error is None,
            turn.exchange.tracker.same_but_buf(self.tracker),
            turn.exchange.announcement == self.announcement,
            turn.exchange.valid(),
    {
        let mut exchange = self;
        let until: u64 = exchange.until;
        let tx_id: u32 = exchange.tracker.announce(&exchange.announcement);
        exchange.phase = Phase::Announcing { tx_id, sent: false };
        Turn { exchange, action: Action::Send { until }, error: None }
    }

    /// Deals with an event. The exchange ends after a number of steps, whatever the tracker does.
    pub fn step(self, event: Event) -> (turn: Turn)
        requires
            self.valid(),
            self.can_step(event),
        ensures
            turn.comes_of(self, event),
            turn.exchange.valid(),
            0 <= turn.exchange.steps_left() < self.steps_left(),
    {
        let mut exchange = self;
        match (exchange.phase, event) {
            (Phase::Starting, Event::Proceed { now }) => {
                let seconds: u64 = match retry_timeout(exchange.attempts) {
                    Some(seconds) => seconds,
                    None => {
                        exchange.phase = Phase::Stopped;
                        return Turn { exchange, action: Action::GiveUp, error: None };
                    },
                };
                if let Err(error) = exchange.tracker.may_announce(now) {
                    return exchange.start_over(Some(error));
                }
                exchange.until = now + seconds * SECOND;
                if exchange.tracker.needs_connection(now) {
                    exchange.ask_for_connection(0, now, None)
                } else {
                    exchange.announce()
                }
            },
            (Phase::Connecting { tries, tx_id, until, .. }, Event::Sent { n, now }) => {
                match exchange.tracker.request_sent(n) {
                    Err(error) => exchange.try_again(tries, now, Some(error)),
                    Ok(()) => {
                        exchange.phase = Phase::Connecting { tries, tx_id, until, sent: true };
                        let end: u64 = if exchange.until < until {
                            exchange.until
                        } else {
                            until
                        };
                        Turn { exchange, action: Action::Receive { until: end }, error: None }
                    },
                }
            },
            (Phase::Connecting { tries, tx_id, .. }, Event::Received { now }) => {
                let res = exchange.tracker.connect_reply(tx_id, now);
                let ghost read = exchange.tracker;
                assert(read.is_after_connect_reply(self.tracker, tx_id, now, res));
                let turn = match res {
                    Err(error) => exchange.try_again(tries, now, Some(error)),
                    Ok(()) => exchange.announce(),
                };
                assert(turn.exchange.tracker.same_but_buf(read));
                turn
            },
            (Phase::Connecting { tries, .. }, Event::Failed { now }) => {
                exchange.try_again(tries, now, None)
            },
            (Phase::Connecting { tries, .. }, Event::TimedOut { now }) => {
                if now >= exchange.until {
                    exchange.start_over(None)
                } else {
                    exchange.try_again(tries, now, None)
                }
            },
            (Phase::Announcing { tx_id, .. }, Event::Sent { n, .. }) => {
                match exchange.tracker.request_sent(n) {
                    Err(error) => exchange.start_over(Some(error)),
                    Ok(()) => {
                        exchange.phase = Phase::Announcing { tx_id, sent: true };
                        let until: u64 = exchange.until;
                        Turn { exchange, action: Action::Receive { until }, error: None }
                    },
                }
            },
            (Phase::Announcing { tx_id, .. }, Event::Received { now }) => {
                let res = exchange.tracker.announce_reply(tx_id, now);
                let ghost read = res;
                let turn = match res {
                    Err(error) => exchange.start_over(Some(error)),
                    Ok((peers, seeders)) => {
                        exchange.phase = Phase::Stopped;
                        Turn { exchange, action: Action::Finish { peers, seeders }, error: None }
                    },
                };
                assert(turn.exchange.tracker.is_after_announce_reply(
                    self.tracker,
                    tx_id,
                    now,
                    read,
                ));
                turn
            },
            (Phase::Announcing { .. }, Event::Failed { .. } | Event::TimedOut { .. }) => {
                exchange.start_over(None)
            },
            _ => unreached(),
        }
    }
}

} // verus!

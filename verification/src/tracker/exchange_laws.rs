//! What the exchange with a tracker does on every event.

use vstd::prelude::*;
use vstd::utf8::valid_utf8;

use super::exchange::{Action, Event, Exchange, Phase, Turn};
use super::peers::Address;
use super::udp::{
    announce_bytes, connect_bytes, law_announcement_is_answered, law_connection_is_taken_up,
    law_waits, TrackerError, UdpTracker,
};
use crate::buffer::{contents, u32_at, u64_at};

verus! {

/// How many nanoseconds to wait at the first, second and third attempt.
pub open spec fn wait(attempt: int) -> int {
    if attempt == 0 {
        15_000_000_000
    } else if attempt == 1 {
        45_000_000_000
    } else {
        105_000_000_000
    }
}

/// The earlier of two points in time.
pub open spec fn least(a: int, b: int) -> int {
    if a <= b {
        a
    } else {
        b
    }
}

/// Whether all that is known of the tracker is what it was, but for the buffer.
pub open spec fn knows_the_same(after: UdpTracker, before: UdpTracker) -> bool {
    &&& after.key == before.key
    &&& after.conn_id == before.conn_id
    &&& after.conn_id_ts == before.conn_id_ts
    &&& after.next_announce == before.next_announce
}

/// Whether a step ends an attempt without success: one more has failed, and the next may begin.
pub open spec fn fails(turn: Turn, before: Exchange) -> bool {
    &&& turn.exchange.attempts == before.attempts + 1
    &&& turn.exchange.phase == Phase::Starting
    &&& turn.action == Action::Proceed
}

/// Whether a step sends a request for a connection, with `tries` before it, no longer than that try
/// and the attempt last.
pub open spec fn requests_connection(
    turn: Turn,
    before: Exchange,
    until: int,
    tries: int,
    now: u64,
) -> bool {
    let end = now + wait(tries);
    &&& turn.exchange.attempts == before.attempts
    &&& turn.exchange.until == until
    &&& match turn.exchange.phase {
        Phase::Connecting { tries: nth, tx_id, until: last, sent } => {
            &&& nth == tries
            &&& last == end
            &&& !sent
            &&& contents(turn.exchange.tracker.buf) == connect_bytes(tx_id)
        },
        _ => false,
    }
    &&& turn.action matches Action::Send { until: last } && last == least(until, end)
}

/// Whether a step sends the announcement, no longer than the attempt lasts.
pub open spec fn sends_announcement(turn: Turn, before: Exchange, until: int) -> bool {
    let tracker = turn.exchange.tracker;
    &&& turn.exchange.attempts == before.attempts
    &&& turn.exchange.until == until
    &&& match turn.exchange.phase {
        Phase::Announcing { tx_id, sent } => {
            &&& !sent
            &&& contents(tracker.buf) == announce_bytes(
                tracker.conn_id,
                tx_id,
                tracker.key,
                before.announcement,
            )
        },
        _ => false,
    }
    &&& turn.action matches Action::Send { until: last } && last == until
}

/// Whether a step goes on after a try to get a connection that has failed: with the next try, and
/// after the third with the next attempt.
pub open spec fn retries(turn: Turn, before: Exchange, tries: usize, now: u64) -> bool {
    if tries < 2 {
        requests_connection(turn, before, before.until as int, tries + 1, now)
    } else {
        fails(turn, before)
    }
}

/// An exchange is given up after three attempts. An attempt does not announce before its time, and
/// gets a new connection where the old one is more than a minute old. It lasts 15, 45 and 105
/// seconds.
pub proof fn law_attempt_begins(turn: Turn, before: Exchange, now: u64)
    requires
        turn.comes_of(before, Event::Proceed { now }),
        before.valid(),
        before.can_step(Event::Proceed { now }),
    ensures
        before.phase is Starting,
        turn.exchange.announcement == before.announcement,
        knows_the_same(turn.exchange.tracker, before.tracker),
        before.attempts <= 3,
        before.attempts == 3 ==> {
            &&& turn.exchange.phase is Stopped
            &&& turn.action == Action::GiveUp
            &&& turn.error is None
        },
        before.attempts < 3 && now < before.tracker.next_announce ==> {
            &&& fails(turn, before)
            &&& turn.error == Some(TrackerError::TooEarly)
        },
        before.attempts < 3 && now >= before.tracker.next_announce ==> {
            let until = now + wait(before.attempts as int);
            &&& turn.error is None
            &&& if now - before.tracker.conn_id_ts > 60_000_000_000 {
                requests_connection(turn, before, until, 0, now)
            } else {
                sends_announcement(turn, before, until)
            }
        },
{
    law_waits();
}

/// Once all of a request for a connection has been sent, its reply is awaited, no longer than the
/// try and the attempt last. Where that was not all, or could not be sent or received, or took too
/// long, the connection is tried again, unless the attempt is over.
pub proof fn law_connection_is_tried(
    turn: Turn,
    before: Exchange,
    event: Event,
    tries: usize,
    tx_id: u32,
    until: u64,
    sent: bool,
)
    requires
        turn.comes_of(before, event),
        before.valid(),
        before.can_step(event),
        before.phase == (Phase::Connecting { tries, tx_id, until, sent }),
        !(event is Received),
    ensures
        turn.exchange.announcement == before.announcement,
        knows_the_same(turn.exchange.tracker, before.tracker),
        match event {
            Event::Sent { n, now } => if n == contents(before.tracker.buf).len() {
                &&& turn.error is None
                &&& turn.exchange.attempts == before.attempts
                &&& turn.exchange.until == before.until
                &&& turn.exchange.phase == (Phase::Connecting { tries, tx_id, until, sent: true })
                &&& contents(turn.exchange.tracker.buf).len() == 0
                &&& turn.action matches Action::Receive { until: last } && last == least(
                    before.until as int,
                    until as int,
                )
            } else {
                &&& turn.error == Some(TrackerError::ShortSend)
                &&& retries(turn, before, tries, now)
            },
            Event::Failed { now } => turn.error is None && retries(turn, before, tries, now),
            Event::TimedOut { now } => turn.error is None && if now >= before.until {
                fails(turn, before)
            } else {
                retries(turn, before, tries, now)
            },
            _ => false,
        },
{
    law_waits();
}

/// Exactly a right reply to the request for a connection gives its number, with which the
/// announcement is sent at once. After any other, the connection is tried again.
pub proof fn law_connection_is_used(
    turn: Turn,
    before: Exchange,
    now: u64,
    tries: usize,
    tx_id: u32,
    until: u64,
    sent: bool,
)
    requires
        turn.comes_of(before, Event::Received { now }),
        before.valid(),
        before.can_step(Event::Received { now }),
        before.phase == (Phase::Connecting { tries, tx_id, until, sent }),
    ensures
        turn.exchange.announcement == before.announcement,
        turn.exchange.tracker.key == before.tracker.key,
        turn.exchange.tracker.next_announce == before.tracker.next_announce,
        ({
            let s = contents(before.tracker.buf);
            if s.len() == 16 && u32_at(s, 0) == 0 && u32_at(s, 4) == tx_id {
                &&& turn.error is None
                &&& turn.exchange.tracker.conn_id == u64_at(s, 8)
                &&& turn.exchange.tracker.conn_id_ts == now
                &&& sends_announcement(turn, before, before.until as int)
            } else {
                &&& turn.error is Some
                &&& s.len() != 16 ==> turn.error == Some(TrackerError::InvalidLength)
                &&& s.len() == 16 && u32_at(s, 4) != tx_id ==> turn.error == Some(
                    TrackerError::WrongTransaction,
                )
                &&& turn.exchange.tracker.conn_id == before.tracker.conn_id
                &&& turn.exchange.tracker.conn_id_ts == before.tracker.conn_id_ts
                &&& retries(turn, before, tries, now)
            }
        }),
{
    law_waits();
    let (read, res) = choose|read: UdpTracker, res: Result<(), TrackerError>| #[trigger]
        read.is_after_connect_reply(before.tracker, tx_id, now, res)
            && turn.exchange.tracker.same_but_buf(read) && match res {
            Ok(()) => turn.error is None && turn.announces(before, before.until),
            Err(error) => turn.error == Some(error) && turn.tries_again(before, tries, now),
        };
    law_connection_is_taken_up(read, before.tracker, tx_id, now, res);
}

/// Once all of the announcement has been sent, its reply is awaited for as long as the attempt
/// lasts. Exactly a right reply ends the exchange, with the peers and the number of seeds in it.
/// Else the attempt has failed.
pub proof fn law_announcement_is_made(
    turn: Turn,
    before: Exchange,
    event: Event,
    tx_id: u32,
    sent: bool,
)
    requires
        turn.comes_of(before, event),
        before.valid(),
        before.can_step(event),
        before.phase == (Phase::Announcing { tx_id, sent }),
    ensures
        turn.exchange.announcement == before.announcement,
        turn.exchange.tracker.key == before.tracker.key,
        turn.exchange.tracker.conn_id == before.tracker.conn_id,
        turn.exchange.tracker.conn_id_ts == before.tracker.conn_id_ts,
        ({
            let s = contents(before.tracker.buf);
            match event {
                Event::Sent { n, .. } => if n == s.len() {
                    &&& turn.error is None
                    &&& turn.exchange.attempts == before.attempts
                    &&& turn.exchange.until == before.until
                    &&& turn.exchange.phase == (Phase::Announcing { tx_id, sent: true })
                    &&& contents(turn.exchange.tracker.buf).len() == 0
                    &&& turn.action == (Action::Receive { until: before.until })
                } else {
                    turn.error == Some(TrackerError::ShortSend) && fails(turn, before)
                },
                Event::Received { now } => if s.len() >= 20 && u32_at(s, 0) == 1 && u32_at(s, 4)
                    == tx_id && (s.len() - 20) % 6 == 0 {
                    &&& turn.error is None
                    &&& turn.exchange.phase is Stopped
                    &&& turn.exchange.tracker.next_announce == now + u32_at(s, 8) * 1_000_000_000
                    &&& match turn.action {
                        Action::Finish { peers, seeders } => {
                            &&& seeders == u32_at(s, 16)
                            &&& s.len() == 20 + 6 * peers@.len()
                            &&& forall|i: int, j: int|
                                0 <= i < peers@.len() && 0 <= j < 4 ==> (
                                #[trigger] peers@[i].ip@[j]) == s[20 + 6 * i + j]
                            &&& forall|i: int|
                                0 <= i < peers@.len() ==> (#[trigger] peers@[i]).port as int == s[24
                                    + 6 * i] * 0x100 + s[25 + 6 * i]
                        },
                        _ => false,
                    }
                } else {
                    &&& turn.error is Some
                    &&& s.len() < 20 ==> turn.error == Some(TrackerError::InvalidLength)
                    &&& s.len() >= 20 && u32_at(s, 4) != tx_id ==> turn.error == Some(
                        TrackerError::WrongTransaction,
                    )
                    &&& fails(turn, before)
                },
                Event::Failed { .. } | Event::TimedOut { .. } => turn.error is None && fails(
                    turn,
                    before,
                ),
                Event::Proceed { .. } => false,
            }
        }),
{
    if let Event::Received { now } = event {
        let res = choose|res: Result<(Vec<Address>, u32), TrackerError>| #[trigger]
            turn.exchange.tracker.is_after_announce_reply(before.tracker, tx_id, now, res)
                && match res {
                Ok((peers, seeders)) => {
                    &&& turn.error is None
                    &&& turn.exchange.attempts == before.attempts
                    &&& turn.exchange.until == before.until
                    &&& turn.exchange.phase == Phase::Stopped
                    &&& turn.action == Action::Finish { peers, seeders }
                },
                Err(error) => turn.error == Some(error) && turn.starts_over(before),
            };
        law_announcement_is_answered(turn.exchange.tracker, before.tracker, tx_id, now, res);
    }
}

/// An exchange finishes or is given up only as told above, and is over then.
pub proof fn law_exchange_ends(turn: Turn, before: Exchange, event: Event)
    requires
        turn.comes_of(before, event),
        before.valid(),
    ensures
        turn.exchange.phase is Stopped <==> turn.action is Finish || turn.action is GiveUp,
        turn.action is GiveUp <==> before.phase is Starting && before.attempts == 3,
        turn.action is Finish ==> before.phase is Announcing && event is Received,
        !(before.phase is Stopped),
{
    law_waits();
}

/// Whether a request is on its way, and whether it has been sent.
pub open spec fn request_on_its_way(phase: Phase) -> Option<bool> {
    match phase {
        Phase::Connecting { sent, .. } => Some(sent),
        Phase::Announcing { sent, .. } => Some(sent),
        _ => None,
    }
}

/// Every event that can happen is dealt with, but for an error that is not in UTF-8, and for the
/// end of time.
pub proof fn law_exchange_goes_on(exchange: Exchange, event: Event)
    requires
        match event {
            Event::Proceed { now } => exchange.phase is Starting && now <= u64::MAX - 0xffff_ffff
                * 1_000_000_000,
            Event::Sent { now, .. } => request_on_its_way(exchange.phase) == Some(false) && now
                <= u64::MAX - 0xffff_ffff * 1_000_000_000,
            Event::Received { now } => request_on_its_way(exchange.phase) == Some(true)
                && valid_utf8(contents(exchange.tracker.buf).skip(8)) && now <= u64::MAX
                - 0xffff_ffff * 1_000_000_000,
            Event::Failed { now } | Event::TimedOut { now } => request_on_its_way(
                exchange.phase,
            ) is Some && now <= u64::MAX - 0xffff_ffff * 1_000_000_000,
        },
    ensures
        exchange.can_step(event),
{
}

} // verus!

//! The rules of the datagram transport: what may leave, what is accepted, and
//! when a bounded wait or a retried request gives up. The socket itself is the
//! caller's; these functions decide, the caller reads and writes.

use vstd::prelude::*;
use crate::common::timer::elapsed;
use crate::network::addrmap::AddrSet;
use crate::network::Addr;
use crate::network::NetworkError;
use crate::network::MAX_UDP;

verus! {

/// can the message be transmitted in one packet?
pub fn will_fit(msg: &Vec<u8>) -> (r: bool)
    ensures
        r == (msg@.len() <= MAX_UDP),
{
    msg.len() <= MAX_UDP
}

/// Checks a serialized message before it is handed to the socket: a message
/// of more than `MAX_UDP` bytes is refused with `NoMessage`, any other is
/// passed on unchanged.
pub fn send(msg: Vec<u8>) -> (r: Result<Vec<u8>, NetworkError>)
    ensures
        msg@.len() > MAX_UDP ==> r == Err::<Vec<u8>, NetworkError>(NetworkError::NoMessage),
        msg@.len() <= MAX_UDP ==> r == Ok::<Vec<u8>, NetworkError>(msg),
{
    if msg.len() > MAX_UDP {
        return Err(NetworkError::NoMessage);
    }
    Ok(msg)
}

/// Checks one read into a buffer of `MAX_UDP` bytes. A datagram that fills the
/// buffer may have been cut short and is refused with `NoMessage`; otherwise
/// the first `read` bytes are the datagram.
pub fn recv_once(buf: &Vec<u8>, read: usize) -> (r: Result<Vec<u8>, NetworkError>)
    requires
        buf@.len() == MAX_UDP,
        read <= MAX_UDP,
    ensures
        read >= MAX_UDP ==> r == Err::<Vec<u8>, NetworkError>(NetworkError::NoMessage),
        read < MAX_UDP ==> r is Ok && r->Ok_0@ == buf@.take(read as int),
{
    if read >= MAX_UDP {
        return Err(NetworkError::NoMessage);
    }
    let mut datagram: Vec<u8> = Vec::new();
    let mut i: usize = 0;
    while i < read
        invariant
            i <= read < buf@.len(),
            datagram@ == buf@.take(i as int),
        decreases read - i,
    {
        datagram.push(buf[i]);
        assert(buf@.take(i + 1) =~= buf@.take(i as int).push(buf@[i as int]));
        i += 1;
    }
    Ok(datagram)
}

/// The read timeout that a wait of `total` milliseconds puts on the socket: a
/// tenth of it, so that the wait is looked at ten times.
pub fn poll_interval(total: u64) -> (r: u64)
    ensures
        r == total / 10,
{
    total / 10
}

/// What a bounded wait does after one attempt to read.
#[derive(Debug)]
pub enum Wait {
    /// A message that was waited for has arrived.
    Accept,
    /// Read again.
    Again,
    /// Stop, with this error.
    Fail(NetworkError),
}

/// One step of a wait for a message that meets a predicate, bounded by
/// `total` milliseconds. `attempt` is what the read gave: `Ok(wanted)` for a
/// message, with the verdict of the predicate on it, or the error of the read.
/// `elapsed` is the time since the wait began.
///
/// A wanted message ends the wait. After an unwanted one, a `NoMessage` or a
/// `Timeout`, the wait goes on until `total` has passed and then fails with
/// `Timeout`. Any other error ends the wait at once.
pub fn recv_until_timeout(attempt: Result<bool, NetworkError>, elapsed: u64, total: u64) -> (r:
    Wait)
    ensures
        r == recv_until_timeout_spec(attempt, elapsed, total),
{
    match attempt {
        Ok(true) => Wait::Accept,
        Ok(false) | Err(NetworkError::NoMessage) | Err(NetworkError::Timeout) => {
            if elapsed >= total {
                Wait::Fail(NetworkError::Timeout)
            } else {
                Wait::Again
            }
        },
        Err(e) => Wait::Fail(e),
    }
}

/// What `recv_until_timeout` decides.
pub open spec fn recv_until_timeout_spec(
    attempt: Result<bool, NetworkError>,
    elapsed: u64,
    total: u64,
) -> Wait {
    match attempt {
        Ok(true) => Wait::Accept,
        Ok(false) | Err(NetworkError::NoMessage) | Err(NetworkError::Timeout) => {
            if elapsed >= total {
                Wait::Fail(NetworkError::Timeout)
            } else {
                Wait::Again
            }
        },
        Err(e) => Wait::Fail(e),
    }
}

/// One step of a wait for any message, without bound: a message ends it, a
/// `NoMessage` or a `Timeout` is passed over, any other error ends it.
pub fn recv_until_msg(attempt: Result<(), NetworkError>) -> (r: Wait)
    ensures
        r == match attempt {
            Ok(_) => Wait::Accept,
            Err(NetworkError::NoMessage) | Err(NetworkError::Timeout) => Wait::Again,
            Err(e) => Wait::Fail(e),
        },
{
    match attempt {
        Ok(_) => Wait::Accept,
        Err(NetworkError::NoMessage) | Err(NetworkError::Timeout) => Wait::Again,
        Err(e) => Wait::Fail(e),
    }
}

/// What a request with retries does after one try.
#[derive(Debug)]
pub enum Retry {
    /// The answer has arrived.
    Done,
    /// Send the request again; this is the number of the new try.
    Again(u32),
    /// Stop, with this error.
    Fail(NetworkError),
}

/// One step of a request that is sent up to `retries` times. `outcome` is what
/// the wait for the answer to try number `tryy` gave (tries count from 1).
///
/// An answer ends the request. A `Timeout` leads to the next try, or, after
/// try number `retries`, to the error `Timeout`. Any other error ends the
/// request at once.
pub fn send_with_response(outcome: Result<(), NetworkError>, tryy: u32, retries: u32) -> (r:
    Retry)
    ensures
        r == retry_step(outcome, tryy, retries),
{
    match outcome {
        Ok(_) => Retry::Done,
        Err(NetworkError::Timeout) => {
            if tryy >= retries {
                Retry::Fail(NetworkError::Timeout)
            } else {
                Retry::Again(tryy + 1)
            }
        },
        Err(e) => Retry::Fail(e),
    }
}

/// What `send_with_response` decides.
pub open spec fn retry_step(outcome: Result<(), NetworkError>, tryy: u32, retries: u32) -> Retry {
    match outcome {
        Ok(_) => Retry::Done,
        Err(NetworkError::Timeout) => if tryy >= retries {
            Retry::Fail(NetworkError::Timeout)
        } else {
            Retry::Again((tryy + 1) as u32)
        },
        Err(e) => Retry::Fail(e),
    }
}

/// The course of a request from try number `tryy` on, when the waits for its
/// answer give `outcomes` one after another: how often the request is sent,
/// and how it ends; `None` where the outcomes end before the request does.
pub open spec fn course(outcomes: Seq<Result<(), NetworkError>>, tryy: u32, retries: u32) -> (
    nat,
    Option<Result<(), NetworkError>>,
)
    decreases outcomes.len(),
{
    if outcomes.len() == 0 {
        (0, None)
    } else {
        match retry_step(outcomes.first(), tryy, retries) {
            Retry::Done => (1, Some(Ok(()))),
            Retry::Fail(e) => (1, Some(Err(e))),
            Retry::Again(next) => {
                let rest = course(outcomes.drop_first(), next, retries);
                (rest.0 + 1, rest.1)
            },
        }
    }
}

/// A request that gets no answer is sent once for every try that it has, and
/// then fails with `Timeout`.
pub proof fn lemma_silence_times_out(
    outcomes: Seq<Result<(), NetworkError>>,
    tryy: u32,
    retries: u32,
)
    requires
        1 <= tryy <= retries,
        outcomes.len() >= retries - tryy + 1,
        forall|i: int|
            0 <= i <= retries - tryy ==> #[trigger] outcomes[i] == Err::<(), NetworkError>(
                NetworkError::Timeout,
            ),
    ensures
        course(outcomes, tryy, retries) == (
            (retries - tryy + 1) as nat,
            Some(Err::<(), NetworkError>(NetworkError::Timeout)),
        ),
    decreases retries - tryy,
{
    assert(outcomes[0] == Err::<(), NetworkError>(NetworkError::Timeout));
    if tryy < retries {
        let rest = outcomes.drop_first();
        assert forall|i: int| 0 <= i <= retries - (tryy + 1) implies #[trigger] rest[i] == Err::<
            (),
            NetworkError,
        >(NetworkError::Timeout) by {
            assert(rest[i] == outcomes[i + 1]);
        }
        lemma_silence_times_out(rest, (tryy + 1) as u32, retries);
    }
}

/// A request whose wait number `j + 1` brings the answer, after `j` waits that
/// timed out, is sent `j + 1` times and succeeds, as long as it has that many
/// tries.
pub proof fn lemma_answer_ends(
    outcomes: Seq<Result<(), NetworkError>>,
    tryy: u32,
    retries: u32,
    j: int,
)
    requires
        1 <= tryy,
        0 <= j < outcomes.len(),
        tryy + j <= retries,
        forall|i: int|
            0 <= i < j ==> #[trigger] outcomes[i] == Err::<(), NetworkError>(NetworkError::Timeout),
        outcomes[j] is Ok,
    ensures
        course(outcomes, tryy, retries) == ((j + 1) as nat, Some(Ok::<(), NetworkError>(()))),
    decreases j,
{
    if j > 0 {
        assert(outcomes[0] == Err::<(), NetworkError>(NetworkError::Timeout));
        let rest = outcomes.drop_first();
        assert forall|i: int| 0 <= i < j - 1 implies #[trigger] rest[i] == Err::<
            (),
            NetworkError,
        >(NetworkError::Timeout) by {
            assert(rest[i] == outcomes[i + 1]);
        }
        assert(rest[j - 1] == outcomes[j]);
        lemma_answer_ends(rest, (tryy + 1) as u32, retries, j - 1);
    }
}

/// One request of a batch that still waits for its answer.
#[derive(Debug, Clone, Copy, PartialEq, Eq, Structural)]
pub struct Try {
    /// The clock reading at which the request was sent last.
    pub since: u64,
    /// How often the request has been sent.
    pub tries: u32,
    /// The destination.
    pub adr: Addr,
}

/// What a batch of requests wants done next.
#[derive(Debug, Clone, Copy, PartialEq, Eq, Structural)]
pub enum Turn {
    /// Nothing waits any more: the batch is over.
    Finished,
    /// The oldest request has its answer and was struck off; take the next
    /// turn.
    Forget,
    /// The oldest request has waited too long: send it again to this
    /// destination, and take the next turn.
    Again(Addr),
    /// The oldest request has waited too long and has no try left: this
    /// destination stays without answer. Take the next turn.
    GiveUp(Addr),
    /// The oldest request still waits: read from the socket.
    Listen,
}

/// A batch of requests, one to each of several destinations, each of which is
/// sent up to `retries` times and waits `timeout` milliseconds for its answer
/// after each sending.
pub struct Batch {
    pending: Vec<Try>,
    asked: AddrSet,
    answered: AddrSet,
    retries: u32,
    timeout: u64,
}

/// What a batch holds.
pub struct BatchView {
    /// The requests that wait, the one that was sent longest ago first.
    pub pending: Seq<Try>,
    /// The destinations of the batch.
    pub asked: Set<Addr>,
    /// The destinations that have answered.
    pub answered: Set<Addr>,
    /// How often a request is sent.
    pub retries: u32,
    /// How long a request waits for its answer, in milliseconds.
    pub timeout: u64,
}

impl View for Batch {
    type V = BatchView;

    closed spec fn view(&self) -> BatchView {
        BatchView {
            pending: self.pending@,
            asked: self.asked@,
            answered: self.answered@,
            retries: self.retries,
            timeout: self.timeout,
        }
    }
}

/// The requests of a batch that has just been sent to `dests` at `now`.
pub open spec fn first_tries(dests: Seq<Addr>, now: u64) -> Seq<Try> {
    Seq::new(dests.len(), |i: int| Try { since: now, tries: 1, adr: dests[i] })
}

impl BatchView {
    /// The batch after a look at its oldest request at the time `now`, and what
    /// it wants done.
    pub open spec fn turn(self, now: u64) -> (BatchView, Turn) {
        if self.pending.len() == 0 {
            (self, Turn::Finished)
        } else {
            let front = self.pending[0];
            let rest = self.pending.drop_first();
            if self.answered.contains(front.adr) {
                (BatchView { pending: rest, ..self }, Turn::Forget)
            } else if elapsed(front.since, now) >= self.timeout {
                if front.tries < self.retries {
                    (
                        BatchView {
                            pending: rest.push(
                                Try { since: now, tries: (front.tries + 1) as u32, adr: front.adr },
                            ),
                            ..self
                        },
                        Turn::Again(front.adr),
                    )
                } else {
                    (BatchView { pending: rest, ..self }, Turn::GiveUp(front.adr))
                }
            } else {
                (self, Turn::Listen)
            }
        }
    }

    /// Whether an answer from `sender` is awaited: `sender` was asked and has
    /// not answered.
    pub open spec fn expects(self, sender: Addr) -> bool {
        self.asked.contains(sender) && !self.answered.contains(sender)
    }
}

impl Batch {
    /// using sock, sends all messages to their destinations: this is the batch
    /// as it stands when every request has been sent once, at `now`.
    pub fn send_with_responses(dests: &Vec<Addr>, retries: u32, timeout: u64, now: u64) -> (b:
        Batch)
        ensures
            b@ == (BatchView {
                pending: first_tries(dests@, now),
                asked: dests@.to_set(),
                answered: Set::empty(),
                retries,
                timeout,
            }),
    {
        let mut pending: Vec<Try> = Vec::new();
        let mut asked = AddrSet::new();
        let mut i: usize = 0;
        proof {
            assert(dests@.take(0).to_set() =~= Set::<Addr>::empty());
        }
        while i < dests.len()
            invariant
                i <= dests@.len(),
                pending@ == first_tries(dests@.take(i as int), now),
                asked@ == dests@.take(i as int).to_set(),
            decreases dests@.len() - i,
        {
            pending.push(Try { since: now, tries: 1, adr: dests[i] });
            asked.insert(dests[i]);
            proof {
                assert(dests@.take(i + 1) =~= dests@.take(i as int).push(dests@[i as int]));
                crate::network::addrmap::lemma_push_to_set(dests@.take(i as int), dests@[i as int]);
                assert(pending@ =~= first_tries(dests@.take(i + 1), now));
            }
            i += 1;
        }
        proof {
            assert(dests@.take(i as int) =~= dests@);
        }
        Batch { pending, asked, answered: AddrSet::new(), retries, timeout }
    }

    /// Looks at the oldest request at the time `now`: see `BatchView::turn`.
    pub fn turn(&mut self, now: u64) -> (t: Turn)
        ensures
            (final(self)@, t) == old(self)@.turn(now),
    {
        if self.pending.len() == 0 {
            return Turn::Finished;
        }
        let front = self.pending[0];
        if self.answered.contains(&front.adr) {
            self.pending.remove(0);
            assert(self.pending@ =~= old(self).pending@.drop_first());
            return Turn::Forget;
        }
        let waited: u64 = if now >= front.since {
            now - front.since
        } else {
            0
        };
        if waited >= self.timeout {
            self.pending.remove(0);
            assert(self.pending@ =~= old(self).pending@.drop_first());
            if front.tries < self.retries {
                self.pending.push(Try { since: now, tries: front.tries + 1, adr: front.adr });
                Turn::Again(front.adr)
            } else {
                Turn::GiveUp(front.adr)
            }
        } else {
            Turn::Listen
        }
    }

    /// Whether an answer from `sender` is awaited.
    pub fn expects(&self, sender: &Addr) -> (r: bool)
        ensures
            r == self@.expects(*sender),
    {
        self.asked.contains(sender) && !self.answered.contains(sender)
    }

    /// Takes note that `sender` has answered.
    pub fn answered(&mut self, sender: Addr)
        ensures
            final(self)@ == (BatchView {
                answered: old(self)@.answered.insert(sender),
                ..old(self)@
            }),
    {
        self.answered.insert(sender);
    }
}

} // verus!

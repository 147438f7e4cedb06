//! When to dial the known peers again.

use vstd::arithmetic::power2::{lemma_pow2_unfold, pow2};
use vstd::prelude::*;

use crate::net::addr::{PeerAddress, PeerAddressView};
use crate::net::seeds::peer_views;

verus! {

/// The longest delay that can be waited for, in nanoseconds: as many whole
/// seconds as a `u64` holds, and the rest of another one.
pub const LONGEST_DELAY: u128 = 18_446_744_073_709_551_615_999_999_999;

/// Decides when to dial the known peers again. Delays are in nanoseconds.
#[derive(Clone, Copy, Debug, PartialEq, Eq)]
pub struct Redial {
    pub min_delay: u128,
    pub max_delay: u128,
    /// How long to wait before the next check for a connection.
    pub delay: u128,
    /// The last check found no connection.
    pub no_peers_at_last_check: bool,
}

/// Twice the delay, but no more than the greatest.
pub open spec fn doubled(delay: nat, max_delay: nat) -> nat {
    if 2 * delay < max_delay {
        2 * delay
    } else {
        max_delay
    }
}

impl Redial {
    /// Waits for the shortest delay first.
    pub open spec fn started(min_delay: u128, max_delay: u128) -> Redial {
        Redial { min_delay, max_delay, delay: min_delay, no_peers_at_last_check: false }
    }

    /// After a check that found this many connections.
    pub open spec fn checked(self, active: nat) -> Redial {
        if active != 0 {
            Redial::started(self.min_delay, self.max_delay)
        } else {
            Redial { no_peers_at_last_check: true, ..self }
        }
    }

    /// A check that finds this many connections is followed by a redial.
    pub open spec fn redials(self, active: nat) -> bool {
        active == 0 && self.no_peers_at_last_check
    }

    /// After a redial.
    pub open spec fn redialed(self) -> Redial {
        Redial { delay: doubled(self.delay as nat, self.max_delay as nat) as u128, ..self }
    }

    /// After a check that found this many connections, and after the redial that
    /// follows it, if any.
    pub open spec fn stepped(self, active: nat) -> Redial {
        if self.redials(active) {
            self.checked(active).redialed()
        } else {
            self.checked(active)
        }
    }

    /// After checks that found these many connections.
    pub open spec fn after(self, history: Seq<nat>) -> Redial
        decreases history.len(),
    {
        if history.len() == 0 {
            self
        } else {
            self.after(history.drop_last()).stepped(history.last())
        }
    }

    /// Starts with the shortest delay.
    pub fn new(min_delay: u128, max_delay: u128) -> (redial: Self)
        ensures
            redial == Redial::started(min_delay, max_delay),
            redial.delay == min_delay && !redial.no_peers_at_last_check,
    {
        Redial { min_delay, max_delay, delay: min_delay, no_peers_at_last_check: false }
    }

    /// Takes note of how many connections a check found. Returns whether to dial
    /// the known peers now: a redial waits for a full delay with no connection.
    pub fn check(&mut self, active: usize) -> (redial: bool)
        ensures
            *final(self) == old(self).checked(active as nat),
            redial == old(self).redials(active as nat),
            redial == (active == 0 && old(self).no_peers_at_last_check),
            final(self).no_peers_at_last_check == (active == 0),
            final(self).delay == if active == 0 {
                old(self).delay
            } else {
                old(self).min_delay
            },
    {
        if active != 0 {
            self.delay = self.min_delay;
            self.no_peers_at_last_check = false;
            return false;
        }
        if !self.no_peers_at_last_check {
            self.no_peers_at_last_check = true;
            return false;
        }
        true
    }

    /// Doubles the delay after a redial, up to the greatest. A delay whose double
    /// cannot be waited for is left out.
    pub fn dialed(&mut self)
        requires
            2 * old(self).delay <= LONGEST_DELAY,
        ensures
            *final(self) == old(self).redialed(),
            final(self).delay == if 2 * old(self).delay < old(self).max_delay {
                2 * old(self).delay
            } else {
                old(self).max_delay as int
            },
    {
        let twice = 2 * self.delay;
        self.delay = if twice < self.max_delay {
            twice
        } else {
            self.max_delay
        };
    }
}

/// How many checks in a row, up to the last, found no connection.
pub open spec fn lonely(history: Seq<nat>) -> nat
    decreases history.len(),
{
    if history.len() > 0 && history.last() == 0 {
        lonely(history.drop_last()) + 1
    } else {
        0
    }
}

/// The delay after this many redials in a row.
pub open spec fn backoff(min_delay: nat, max_delay: nat, redials: nat) -> nat {
    if redials == 0 {
        min_delay
    } else if pow2(redials) * min_delay < max_delay {
        pow2(redials) * min_delay
    } else {
        max_delay
    }
}

proof fn lemma_backoff_doubles(min_delay: nat, max_delay: nat, redials: nat)
    ensures
        backoff(min_delay, max_delay, redials + 1) == doubled(
            backoff(min_delay, max_delay, redials),
            max_delay,
        ),
{
    lemma_pow2_unfold(redials + 1);
    let p = pow2(redials);
    assert(pow2(redials + 1) * min_delay == 2 * (p * min_delay)) by (nonlinear_arith)
        requires
            pow2(redials + 1) == 2 * p,
    ;
    if redials == 0 {
        vstd::arithmetic::power2::lemma2_to64();
    }
}

/// Every redial comes after two checks in a row that found no connection. Each
/// redial in a row doubles the delay, up to the greatest, and a connection brings
/// the shortest one back.
pub proof fn redials_back_off(min_delay: u128, max_delay: u128, history: Seq<nat>)
    ensures
        ({
            let now = Redial::started(min_delay, max_delay).after(history);
            let alone = lonely(history);
            let redials = if alone == 0 {
                0nat
            } else {
                (alone - 1) as nat
            };
            &&& now.min_delay == min_delay
            &&& now.max_delay == max_delay
            &&& now.no_peers_at_last_check <==> alone > 0
            &&& now.delay == backoff(min_delay as nat, max_delay as nat, redials)
            &&& forall|active: nat| #[trigger]
                now.redials(active) <==> active == 0 && alone > 0
        }),
    decreases history.len(),
{
    if history.len() > 0 {
        let before = history.drop_last();
        redials_back_off(min_delay, max_delay, before);
        let alone = lonely(before);
        if history.last() == 0 && alone > 0 {
            lemma_backoff_doubles(min_delay as nat, max_delay as nat, (alone - 1) as nat);
        }
    }
}

/// The wait is never shorter than the shortest and never longer than the
/// greatest, if the shortest is not longer than the greatest.
pub proof fn delays_stay_in_bounds(min_delay: u128, max_delay: u128, history: Seq<nat>)
    requires
        min_delay <= max_delay,
    ensures
        min_delay <= Redial::started(min_delay, max_delay).after(history).delay <= max_delay,
    decreases history.len(),
{
    if history.len() > 0 {
        delays_stay_in_bounds(min_delay, max_delay, history.drop_last());
        redials_back_off(min_delay, max_delay, history.drop_last());
    }
}

/// How many of these dials started a connection.
pub open spec fn started_count<E>(outcomes: Seq<Result<bool, E>>) -> nat
    decreases outcomes.len(),
{
    if outcomes.len() == 0 {
        0
    } else {
        started_count(outcomes.drop_last()) + if outcomes.last() == Ok::<bool, E>(true) {
            1nat
        } else {
            0
        }
    }
}

/// A round of dials: each peer is dialed once, whatever came of the others.
#[derive(Debug)]
pub struct DialRound {
    peers: Vec<PeerAddress>,
    asked: usize,
    dialed: usize,
    started: usize,
}

/// What a round of dials holds: its peers, how many of them were handed out, how
/// many were dialed since, and how many of those dials started a connection.
pub struct DialRoundView {
    pub peers: Seq<PeerAddressView>,
    pub asked: nat,
    pub dialed: nat,
    pub started: nat,
}

impl View for DialRound {
    type V = DialRoundView;

    closed spec fn view(&self) -> DialRoundView {
        DialRoundView {
            peers: peer_views(self.peers@),
            asked: self.asked as nat,
            dialed: self.dialed as nat,
            started: self.started as nat,
        }
    }
}

impl DialRoundView {
    /// The round at its start.
    pub open spec fn of(peers: Seq<PeerAddressView>) -> DialRoundView {
        DialRoundView { peers, asked: 0, dialed: 0, started: 0 }
    }

    /// The round once the next peer was dialed, with this outcome.
    pub open spec fn stepped<E>(self, outcome: Result<bool, E>) -> DialRoundView {
        DialRoundView {
            asked: self.asked + 1,
            dialed: self.dialed + 1,
            started: self.started + if outcome == Ok::<bool, E>(true) {
                1nat
            } else {
                0
            },
            ..self
        }
    }

    /// The round once peers were dialed, with these outcomes.
    pub open spec fn after<E>(self, outcomes: Seq<Result<bool, E>>) -> DialRoundView
        decreases outcomes.len(),
    {
        if outcomes.len() == 0 {
            self
        } else {
            self.after(outcomes.drop_last()).stepped(outcomes.last())
        }
    }
}

impl DialRound {
    /// No more dials were made than peers handed out, nor more connections started
    /// than dials made.
    pub closed spec fn wf(&self) -> bool {
        self.started <= self.dialed <= self.asked <= self.peers@.len()
    }

    /// Starts a round over these peers.
    pub fn new(peers: Vec<PeerAddress>) -> (round: Self)
        ensures
            round.wf(),
            round@ == DialRoundView::of(peer_views(peers@)),
            round@.peers == peer_views(peers@),
            round@.asked == 0 && round@.dialed == 0 && round@.started == 0,
    {
        DialRound { peers, asked: 0, dialed: 0, started: 0 }
    }

    /// The next peer to dial. There is none once every peer was handed out.
    pub fn next_peer(&mut self) -> (peer: Option<PeerAddress>)
        requires
            old(self).wf(),
        ensures
            final(self).wf(),
            match peer {
                Some(next) => {
                    &&& old(self)@.asked < old(self)@.peers.len()
                    &&& next@ == old(self)@.peers[old(self)@.asked as int]
                    &&& final(self)@ == (DialRoundView {
                        asked: old(self)@.asked + 1,
                        ..old(self)@
                    })
                },
                None => old(self)@.asked == old(self)@.peers.len() && final(self)@ == old(self)@,
            },
    {
        if self.asked < self.peers.len() {
            let peer = self.peers[self.asked].clone();
            self.asked += 1;
            Some(peer)
        } else {
            None
        }
    }

    /// Takes note of what came of dialing a peer that was handed out. A peer that was
    /// connected already does not count, nor does one that could not be dialed.
    pub fn dialed<E>(&mut self, outcome: &Result<bool, E>)
        requires
            old(self).wf(),
            old(self)@.dialed < old(self)@.asked,
        ensures
            final(self).wf(),
            final(self)@ == (DialRoundView {
                asked: old(self)@.asked,
                ..old(self)@.stepped(*outcome)
            }),
            final(self)@.peers == old(self)@.peers,
            final(self)@.asked == old(self)@.asked,
            final(self)@.dialed == old(self)@.dialed + 1,
            final(self)@.started == old(self)@.started + match outcome {
                Ok(true) => 1nat,
                _ => 0nat,
            },
    {
        self.dialed += 1;
        match outcome {
            Ok(true) => {
                self.started += 1;
            },
            Ok(false) | Err(_) => {},
        }
    }

    /// How many dials started a connection.
    pub fn started(&self) -> (count: usize)
        ensures
            count == self@.started,
    {
        self.started
    }
}

/// A round over the known peers, none of which is named twice, dials each of them
/// once, whatever comes of it. How many connections it starts is the number of dials
/// that started one, and there are no more of them than known peers.
pub proof fn a_round_dials_every_known_peer_once<E>(
    known: Set<PeerAddressView>,
    peers: Seq<PeerAddressView>,
    outcomes: Seq<Result<bool, E>>,
)
    requires
        peers.no_duplicates(),
        peers.to_set() == known,
        outcomes.len() <= peers.len(),
    ensures
        ({
            let round = DialRoundView::of(peers).after(outcomes);
            &&& round.peers == peers
            &&& round.asked == outcomes.len()
            &&& round.dialed == outcomes.len()
            &&& round.started == started_count(outcomes)
            &&& round.started <= known.len()
            &&& outcomes.len() == peers.len() ==> outcomes.len() == known.len()
        }),
    decreases outcomes.len(),
{
    peers.unique_seq_to_set();
    if outcomes.len() > 0 {
        a_round_dials_every_known_peer_once(known, peers, outcomes.drop_last());
        lemma_started_count(outcomes);
    }
}

proof fn lemma_started_count<E>(outcomes: Seq<Result<bool, E>>)
    ensures
        started_count(outcomes) <= outcomes.len(),
    decreases outcomes.len(),
{
    if outcomes.len() > 0 {
        lemma_started_count(outcomes.drop_last());
    }
}

/// What happens to a node that dials its known peers again.
#[derive(Debug)]
pub enum RedialEvent<E> {
    /// The wait is over, and there are this many connections.
    Waited { active: usize },
    /// The known peers were dialed, or could not be read.
    Dialed(Result<usize, E>),
}

/// What such a node does next.
#[derive(Debug, PartialEq, Eq)]
pub enum RedialAction<E> {
    /// Waits, for this many nanoseconds.
    Wait { delay: u128 },
    /// Dials the known peers.
    Dial,
    /// Gives up.
    Stop(E),
}

impl Redial {
    /// After an event.
    pub open spec fn after_event<E>(self, event: RedialEvent<E>) -> Redial {
        match event {
            RedialEvent::Waited { active } => self.checked(active as nat),
            RedialEvent::Dialed(Ok(_)) => self.redialed(),
            RedialEvent::Dialed(Err(_)) => self,
        }
    }

    /// What follows an event.
    pub open spec fn action<E>(self, event: RedialEvent<E>) -> RedialAction<E> {
        match event {
            RedialEvent::Waited { active } => if self.redials(active as nat) {
                RedialAction::Dial
            } else {
                RedialAction::Wait { delay: self.after_event(event).delay }
            },
            RedialEvent::Dialed(Ok(_)) => RedialAction::Wait {
                delay: self.after_event(event).delay,
            },
            RedialEvent::Dialed(Err(error)) => RedialAction::Stop(error),
        }
    }

    /// Decides what follows an event.
    pub fn step<E>(&mut self, event: RedialEvent<E>) -> (action: RedialAction<E>)
        requires
            event matches RedialEvent::Dialed(Ok(_)) ==> 2 * old(self).delay <= LONGEST_DELAY,
        ensures
            *final(self) == old(self).after_event(event),
            action == old(self).action(event),
            match event {
                RedialEvent::Waited { active } => final(self).delay == if active == 0 {
                    old(self).delay
                } else {
                    old(self).min_delay
                } && if active == 0 && old(self).no_peers_at_last_check {
                    action is Dial
                } else {
                    action == RedialAction::<E>::Wait { delay: final(self).delay }
                },
                RedialEvent::Dialed(Ok(_)) => final(self).delay == (if 2 * old(self).delay
                    < old(self).max_delay {
                    2 * old(self).delay
                } else {
                    old(self).max_delay as int
                }) && action == (RedialAction::<E>::Wait { delay: final(self).delay }),
                RedialEvent::Dialed(Err(error)) => *final(self) == *old(self) && action
                    == RedialAction::Stop(error),
            },
    {
        match event {
            RedialEvent::Waited { active } => if self.check(active) {
                RedialAction::Dial
            } else {
                RedialAction::Wait { delay: self.delay }
            },
            RedialEvent::Dialed(Ok(_)) => {
                self.dialed();
                RedialAction::Wait { delay: self.delay }
            },
            RedialEvent::Dialed(Err(error)) => RedialAction::Stop(error),
        }
    }
}

/// Redialing ends only where the known peers cannot be read, and always there. A
/// check that finds a connection dials nobody and brings the shortest wait back. The
/// known peers are dialed only at a check that finds no connection, where the check
/// before it found none either.
pub proof fn redialing_ends_only_on_an_error<E>(redial: Redial, event: RedialEvent<E>)
    ensures
        redial.action(event) is Stop <==> event matches RedialEvent::Dialed(Err(_)),
        event matches RedialEvent::Waited { active } ==> active != 0 ==> redial.action(event) == (
        RedialAction::<E>::Wait { delay: redial.min_delay }),
        redial.action(event) is Dial ==> redial.no_peers_at_last_check && event == (
        RedialEvent::<E>::Waited { active: 0 }),
{
}

/// The longest delay is that of as many seconds as a `u64` holds, but for one
/// nanosecond of the next.
pub proof fn the_longest_delay_is_the_longest_duration()
    ensures
        LONGEST_DELAY == u64::MAX * 1_000_000_000 + 999_999_999,
{
}

/// Each dial that started a connection counts, and no other.
pub proof fn each_started_dial_counts<E>(outcomes: Seq<Result<bool, E>>, error: E)
    ensures
        started_count(Seq::<Result<bool, E>>::empty()) == 0,
        started_count(outcomes.push(Ok(true))) == started_count(outcomes) + 1,
        started_count(outcomes.push(Ok(false))) == started_count(outcomes),
        started_count(outcomes.push(Err(error))) == started_count(outcomes),
{
    assert(outcomes.push(Ok(true)).drop_last() =~= outcomes);
    assert(outcomes.push(Ok(false)).drop_last() =~= outcomes);
    assert(outcomes.push(Err(error)).drop_last() =~= outcomes);
}

/// However many dials of a redial started a connection, the next wait is twice the
/// last one, but no longer than the greatest, and that is the delay from then on.
pub proof fn every_redial_doubles_the_wait<E>(redial: Redial, n: usize)
    ensures
        ({
            let event = RedialEvent::<E>::Dialed(Ok(n));
            let wait = if 2 * redial.delay < redial.max_delay {
                (2 * redial.delay) as u128
            } else {
                redial.max_delay
            };
            &&& redial.action(event) == (RedialAction::<E>::Wait { delay: wait })
            &&& redial.after_event(event) == (Redial { delay: wait, ..redial })
        }),
{
}

/// A check that finds a connection brings the shortest wait back. The first check that
/// finds none waits as before, and the next one dials.
pub proof fn a_check_waits_or_dials<E>(redial: Redial, active: usize)
    ensures
        ({
            let event = RedialEvent::<E>::Waited { active };
            let after = redial.after_event(event);
            &&& after.min_delay == redial.min_delay && after.max_delay == redial.max_delay
            &&& active != 0 ==> after.delay == redial.min_delay && !after.no_peers_at_last_check
                && redial.action(event) == (RedialAction::<E>::Wait { delay: redial.min_delay })
            &&& active == 0 ==> after.delay == redial.delay && after.no_peers_at_last_check
            &&& active == 0 && !redial.no_peers_at_last_check ==> redial.action(event) == (
            RedialAction::<E>::Wait { delay: redial.delay })
            &&& active == 0 && redial.no_peers_at_last_check ==> redial.action(event)
                == RedialAction::<E>::Dial
        }),
{
}

/// The state after rounds of events: each is a check that found so many connections,
/// and, where that asks for a dial, a redial that started so many.
pub open spec fn after_rounds<E>(redial: Redial, rounds: Seq<(usize, usize)>) -> Redial
    decreases rounds.len(),
{
    if rounds.len() == 0 {
        redial
    } else {
        let before = after_rounds::<E>(redial, rounds.drop_last());
        let (active, n) = rounds.last();
        let check = RedialEvent::<E>::Waited { active };
        let checked = before.after_event(check);
        if before.action(check) is Dial {
            checked.after_event(RedialEvent::<E>::Dialed(Ok(n)))
        } else {
            checked
        }
    }
}

/// After `k` checks in a row that found no connection, however many dials started one
/// that came to nothing, the wait is the shortest one doubled once for each check after
/// the first, but no longer than the greatest. Before them there was no check, or one
/// that found a connection.
pub proof fn waits_double_while_there_is_no_connection<E>(
    min_delay: u128,
    max_delay: u128,
    before: Seq<(usize, usize)>,
    lonely_rounds: Seq<(usize, usize)>,
)
    requires
        before.len() == 0 || before.last().0 != 0,
        forall|i: int| 0 <= i < lonely_rounds.len() ==> (#[trigger] lonely_rounds[i]).0 == 0,
    ensures
        ({
            let start = Redial {
                min_delay,
                max_delay,
                delay: min_delay,
                no_peers_at_last_check: false,
            };
            let k = lonely_rounds.len();
            let now = after_rounds::<E>(start, before + lonely_rounds);
            &&& now.min_delay == min_delay
            &&& now.max_delay == max_delay
            &&& now.no_peers_at_last_check <==> k > 0
            &&& k <= 1 ==> now.delay == min_delay
            &&& k > 1 && pow2((k - 1) as nat) * min_delay < max_delay ==> now.delay == pow2(
                (k - 1) as nat,
            ) * min_delay
            &&& k > 1 && pow2((k - 1) as nat) * min_delay >= max_delay ==> now.delay == max_delay
        }),
    decreases lonely_rounds.len(),
{
    let start = Redial { min_delay, max_delay, delay: min_delay, no_peers_at_last_check: false };
    let k = lonely_rounds.len();
    if k == 0 {
        assert(before + lonely_rounds =~= before);
        lemma_bounds_stay::<E>(start, before);
    } else {
        let fewer = lonely_rounds.drop_last();
        waits_double_while_there_is_no_connection::<E>(min_delay, max_delay, before, fewer);
        let rounds = before + lonely_rounds;
        assert(rounds.drop_last() =~= before + fewer);
        assert(rounds.last() == lonely_rounds[k - 1]);
        if k == 2 {
            vstd::arithmetic::power2::lemma2_to64();
        }
        if k >= 2 {
            lemma_pow2_unfold((k - 1) as nat);
            let p = pow2((k - 2) as nat);
            assert(pow2((k - 1) as nat) * min_delay == 2 * (p * min_delay)) by (nonlinear_arith)
                requires
                    pow2((k - 1) as nat) == 2 * p,
            ;
        }
    }
}

proof fn lemma_bounds_stay<E>(start: Redial, rounds: Seq<(usize, usize)>)
    ensures
        after_rounds::<E>(start, rounds).min_delay == start.min_delay,
        after_rounds::<E>(start, rounds).max_delay == start.max_delay,
    decreases rounds.len(),
{
    if rounds.len() > 0 {
        lemma_bounds_stay::<E>(start, rounds.drop_last());
    }
}

} // verus!

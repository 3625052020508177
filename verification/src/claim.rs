use vstd::prelude::*;

verus! {

/// Life cycle of a row that can be consumed at most once.
///
/// `Available -> Claimed` is the only way a row is consumed, and `Claimed` is
/// final. `Held` marks a row that an unfinished claim has locked: every other
/// claimer passes over it instead of waiting, and the holder either commits
/// (`Held -> Claimed`) or gives the row back (`Held -> Available`).
#[derive(Clone, Copy, Debug, PartialEq, Eq, Structural)]
pub enum ClaimState {
    /// Nobody has taken the row and nobody is working on it.
    Available,
    /// An unfinished claim holds the row; other claimers pass over it.
    Held,
    /// The row was consumed at the given time.
    Claimed { at: i64 },
}

impl ClaimState {
    /// The state after one claim attempt at time `now`.
    pub open spec fn after_claim(self, now: i64) -> ClaimState {
        if self is Available {
            ClaimState::Claimed { at: now }
        } else {
            self
        }
    }

    /// The state after an attempt to lock the row.
    pub open spec fn after_hold(self) -> ClaimState {
        if self is Available {
            ClaimState::Held
        } else {
            self
        }
    }

    /// The state after the holder gives the row back.
    pub open spec fn after_release(self) -> ClaimState {
        if self is Held {
            ClaimState::Available
        } else {
            self
        }
    }

    /// The state after the holder commits at time `now`.
    pub open spec fn after_commit(self, now: i64) -> ClaimState {
        if self is Held {
            ClaimState::Claimed { at: now }
        } else {
            self
        }
    }

    /// Compare-and-set claim: wins exactly when the row is still available,
    /// and never waits. A lost attempt leaves the row as it was.
    pub fn try_claim(&mut self, now: i64) -> (won: bool)
        ensures
            won == (*old(self) is Available),
            *final(self) == old(self).after_claim(now),
    {
        match *self {
            ClaimState::Available => {
                *self = ClaimState::Claimed { at: now };
                true
            },
            _ => false,
        }
    }

    /// Locks an available row for an unfinished claim.
    pub fn try_hold(&mut self) -> (won: bool)
        ensures
            won == (*old(self) is Available),
            *final(self) == old(self).after_hold(),
    {
        match *self {
            ClaimState::Available => {
                *self = ClaimState::Held;
                true
            },
            _ => false,
        }
    }

    /// Gives a held row back, as an abandoned claim does.
    pub fn release(&mut self) -> (done: bool)
        ensures
            done == (*old(self) is Held),
            *final(self) == old(self).after_release(),
    {
        match *self {
            ClaimState::Held => {
                *self = ClaimState::Available;
                true
            },
            _ => false,
        }
    }

    /// Consumes a held row at time `now`.
    pub fn commit(&mut self, now: i64) -> (done: bool)
        ensures
            done == (*old(self) is Held),
            *final(self) == old(self).after_commit(now),
    {
        match *self {
            ClaimState::Held => {
                *self = ClaimState::Claimed { at: now };
                true
            },
            _ => false,
        }
    }

    /// Whether the row has been consumed.
    pub fn is_claimed(&self) -> (b: bool)
        ensures
            b == (*self is Claimed),
    {
        match *self {
            ClaimState::Claimed { .. } => true,
            _ => false,
        }
    }

    /// Whether a claim attempt on the row would win.
    pub fn is_available(&self) -> (b: bool)
        ensures
            b == (*self is Available),
    {
        match *self {
            ClaimState::Available => true,
            _ => false,
        }
    }
}

/// Of two claim attempts on one row, in either order and at any times, at
/// most one wins: once the first has run, the second finds the row taken or
/// held and changes nothing.
pub proof fn lemma_single_winner(s: ClaimState, first: i64, second: i64)
    ensures
        !(s.after_claim(first) is Available),
        s.after_claim(first).after_claim(second) == s.after_claim(first),
{
}

/// A consumed row stays consumed, with its time, whatever is tried on it.
pub proof fn lemma_claimed_is_final(s: ClaimState, now: i64)
    requires
        s is Claimed,
    ensures
        s.after_claim(now) == s,
        s.after_hold() == s,
        s.after_release() == s,
        s.after_commit(now) == s,
{
}

/// A claim that is abandoned before it commits leaves the row as it found it.
pub proof fn lemma_abandoned_hold_leaves_no_trace(s: ClaimState)
    requires
        s is Available,
    ensures
        s.after_hold().after_release() == s,
{
}

} // verus!

//! The monotonic generation engine: the last timestamp and random payload
//! issued, and the rule that turns a clock reading into the next identifier.
//!
//! The engine holds no lock and reads no clock: its owner serialises access
//! and passes in the current time, so that one reading and one transition
//! form a single step.
use vstd::arithmetic::div_mod::lemma_small_mod;
use vstd::prelude::*;

use crate::codec::{encoded, lemma_encoding_order, lex_less};
use crate::entropy::random_u128;
use crate::text::ascii_text;
use crate::ulid::{
    compose, lemma_compose_bound, random_modulus, random_of, timestamp_modulus, Ulid, RANDOM_MAX,
};
use crate::UlidError;

verus! {

/// One generation from the state (`last_timestamp_ms`, `last_random`) at
/// clock reading `now`: the new state, or the error. `fresh` is the random
/// value drawn for the case that needs one; only its low 80 bits are used.
///
/// A later clock opens a new window with a fresh payload. The same
/// millisecond increments the payload; at its maximum strict mode fails and
/// permissive mode draws a fresh one. An earlier clock fails in strict mode
/// and counts as the same millisecond in permissive mode.
pub open spec fn transition(
    last_timestamp_ms: nat,
    last_random: nat,
    now: nat,
    strict: bool,
    fresh: nat,
) -> Result<(nat, nat), UlidError> {
    if now > last_timestamp_ms {
        Ok((now, fresh % random_modulus()))
    } else if now < last_timestamp_ms && strict {
        Err(UlidError::ClockRegression)
    } else if last_random >= RANDOM_MAX {
        if strict {
            Err(UlidError::RandomOverflow)
        } else {
            Ok((last_timestamp_ms, fresh % random_modulus()))
        }
    } else {
        Ok((last_timestamp_ms, last_random + 1))
    }
}

/// The state shared by all generations of a process: the timestamp and the
/// random payload of the identifier issued last.
#[derive(Debug)]
pub struct UlidState {
    last_timestamp_ms: u64,
    last_random: u128,
}

impl UlidState {
    /// The timestamp of the identifier issued last.
    pub closed spec fn spec_last_timestamp_ms(&self) -> nat {
        self.last_timestamp_ms as nat
    }

    /// The random payload of the identifier issued last.
    pub closed spec fn spec_last_random(&self) -> nat {
        self.last_random as nat
    }

    /// The payload stays within its 80 bits.
    pub open spec fn wf(&self) -> bool {
        self.spec_last_random() <= RANDOM_MAX
    }

    /// What one call of `advance` did: the state moved as `transition` says
    /// and the identifier of the new state came back, or the error came back
    /// and the state stayed.
    pub open spec fn advanced(
        &self,
        next: &Self,
        now: nat,
        strict: bool,
        fresh: nat,
        r: Result<Ulid, UlidError>,
    ) -> bool {
        match transition(
            self.spec_last_timestamp_ms(),
            self.spec_last_random(),
            now,
            strict,
            fresh,
        ) {
            Ok((t, x)) => {
                &&& next.spec_last_timestamp_ms() == t
                &&& next.spec_last_random() == x
                &&& r is Ok
                &&& r->Ok_0@ == compose(t, x)
            },
            Err(e) => {
                &&& next.spec_last_timestamp_ms() == self.spec_last_timestamp_ms()
                &&& next.spec_last_random() == self.spec_last_random()
                &&& r == Err::<Ulid, UlidError>(e)
            },
        }
    }

    /// A state whose window opens at `now_ms` with a freshly drawn payload.
    pub fn new(now_ms: u64) -> (r: UlidState)
        ensures
            r.wf(),
            r.spec_last_timestamp_ms() == now_ms,
    {
        let drawn = random_u128();
        assert(drawn & 0xFFFF_FFFF_FFFF_FFFF_FFFF <= 0xFFFF_FFFF_FFFF_FFFF_FFFF) by (bit_vector);
        UlidState { last_timestamp_ms: now_ms, last_random: drawn & RANDOM_MAX }
    }

    /// A state with a given last timestamp and payload; the payload is cut
    /// to 80 bits.
    pub fn with_last(last_timestamp_ms: u64, last_random: u128) -> (r: UlidState)
        ensures
            r.wf(),
            r.spec_last_timestamp_ms() == last_timestamp_ms,
            r.spec_last_random() == last_random as nat % random_modulus(),
    {
        let x = last_random & RANDOM_MAX;
        assert(last_random & 0xFFFF_FFFF_FFFF_FFFF_FFFF == last_random
            % 0x1_0000_0000_0000_0000_0000) by (bit_vector);
        UlidState { last_timestamp_ms, last_random: x }
    }

    /// The timestamp of the identifier issued last.
    pub fn last_timestamp_ms(&self) -> (r: u64)
        ensures
            r == self.spec_last_timestamp_ms(),
    {
        self.last_timestamp_ms
    }

    /// The random payload of the identifier issued last.
    pub fn last_random(&self) -> (r: u128)
        ensures
            r == self.spec_last_random(),
    {
        self.last_random
    }

    /// One generation at clock reading `now`, with `fresh` as the random
    /// value for a case that draws one.
    pub fn advance(&mut self, now: u64, strict: bool, fresh: u128) -> (r: Result<Ulid, UlidError>)
        requires
            old(self).wf(),
        ensures
            final(self).wf(),
            old(self).advanced(final(self), now as nat, strict, fresh as nat, r),
    {
        let masked = fresh & RANDOM_MAX;
        assert(fresh & 0xFFFF_FFFF_FFFF_FFFF_FFFF == fresh % 0x1_0000_0000_0000_0000_0000)
            by (bit_vector);
        if now > self.last_timestamp_ms {
            self.last_timestamp_ms = now;
            self.last_random = masked;
        } else if now < self.last_timestamp_ms && strict {
            return Err(UlidError::ClockRegression);
        } else if self.last_random >= RANDOM_MAX {
            if strict {
                return Err(UlidError::RandomOverflow);
            }
            self.last_random = masked;
        } else {
            self.last_random = self.last_random + 1;
        }
        Ok(Ulid::from_parts(self.last_timestamp_ms, self.last_random))
    }

    /// One generation at clock reading `now`, rendered as text. A fresh
    /// payload is drawn only when the step needs one; whatever it is, the
    /// step is the one that `advance` takes with it.
    pub fn generate(&mut self, now: u64, strict: bool) -> (r: Result<String, UlidError>)
        requires
            old(self).wf(),
        ensures
            final(self).wf(),
            exists|fresh: nat, u: Result<Ulid, UlidError>|
                {
                    &&& old(self).advanced(final(self), now as nat, strict, fresh, u)
                    &&& match u {
                        Ok(id) => r is Ok && r->Ok_0@ == ascii_text(encoded(id@)),
                        Err(e) => r == Err::<String, UlidError>(e),
                    }
                },
    {
        let fresh = if now > self.last_timestamp_ms || self.last_random >= RANDOM_MAX {
            random_u128()
        } else {
            0
        };
        match self.advance(now, strict, fresh) {
            Ok(id) => Ok(id.to_string()),
            Err(e) => Err(e),
        }
    }
}


/// Two strict generations in one millisecond: when both succeed, the second
/// payload is the first plus one and the second text sorts after the first;
/// the second fails only when the first payload was the largest.
pub proof fn lemma_same_millisecond_increments(
    last_timestamp_ms: nat,
    last_random: nat,
    now: nat,
    fresh1: nat,
    fresh2: nat,
)
    requires
        last_random <= RANDOM_MAX,
        transition(last_timestamp_ms, last_random, now, true, fresh1) is Ok,
    ensures
        ({
            let (t1, x1) = transition(last_timestamp_ms, last_random, now, true, fresh1)->Ok_0;
            let second = transition(t1, x1, now, true, fresh2);
            &&& t1 == now
            &&& second is Err <==> x1 == RANDOM_MAX
            &&& second is Err ==> second == Err::<(nat, nat), UlidError>(
                UlidError::RandomOverflow,
            )
            &&& second is Ok ==> {
                let (t2, x2) = second->Ok_0;
                &&& t2 == t1
                &&& random_of(compose(t2, x2)) == random_of(compose(t1, x1)) + 1
                &&& lex_less(encoded(compose(t1, x1)), encoded(compose(t2, x2)))
            }
        }),
{
    let (t1, x1) = transition(last_timestamp_ms, last_random, now, true, fresh1)->Ok_0;
    let m = random_modulus();
    assert(x1 < m) by {
        if now > last_timestamp_ms {
            assert(x1 == fresh1 % m);
        }
    }
    let second = transition(t1, x1, now, true, fresh2);
    if second is Ok {
        let x2 = x1 + 1;
        lemma_compose_bound(t1, x1);
        lemma_compose_bound(t1, x2);
        lemma_small_mod(x1, m);
        lemma_small_mod(x2, m);
        assert(compose(t1, x2) == compose(t1, x1) + 1);
        lemma_encoding_order(compose(t1, x1), compose(t1, x2));
    }
}

/// Strict generation in the same millisecond as a state whose payload is the
/// largest fails with `RandomOverflow`, whatever would have been drawn.
pub proof fn lemma_strict_overflow(last_timestamp_ms: nat, fresh: nat)
    ensures
        transition(last_timestamp_ms, RANDOM_MAX as nat, last_timestamp_ms, true, fresh)
            == Err::<(nat, nat), UlidError>(UlidError::RandomOverflow),
{
}

/// Strict generation at a clock reading earlier than the last timestamp
/// fails with `ClockRegression`, whatever the payload.
pub proof fn lemma_strict_clock_regression(
    last_timestamp_ms: nat,
    last_random: nat,
    now: nat,
    fresh: nat,
)
    requires
        now < last_timestamp_ms,
    ensures
        transition(last_timestamp_ms, last_random, now, true, fresh) == Err::<(nat, nat), UlidError>(
            UlidError::ClockRegression,
        ),
{
}


/// Strict mode never issues an identifier that is not greater than the last
/// one: a successful strict step, from a state and at a clock reading within
/// 48 bits, yields a strictly greater value, and so text that sorts later.
pub proof fn lemma_strict_increases(
    last_timestamp_ms: nat,
    last_random: nat,
    now: nat,
    fresh: nat,
)
    requires
        last_random <= RANDOM_MAX,
        last_timestamp_ms < timestamp_modulus(),
        now < timestamp_modulus(),
        transition(last_timestamp_ms, last_random, now, true, fresh) is Ok,
    ensures
        ({
            let (t, x) = transition(last_timestamp_ms, last_random, now, true, fresh)->Ok_0;
            &&& compose(last_timestamp_ms, last_random) < compose(t, x)
            &&& lex_less(encoded(compose(last_timestamp_ms, last_random)), encoded(compose(t, x)))
        }),
{
    let (t, x) = transition(last_timestamp_ms, last_random, now, true, fresh)->Ok_0;
    let m = random_modulus();
    lemma_small_mod(last_timestamp_ms, timestamp_modulus());
    lemma_small_mod(last_random, m);
    lemma_compose_bound(last_timestamp_ms, last_random);
    lemma_compose_bound(t, x);
    let old_v = compose(last_timestamp_ms, last_random);
    if now > last_timestamp_ms {
        lemma_small_mod(now, timestamp_modulus());
        assert(old_v < compose(t, x)) by (nonlinear_arith)
            requires
                old_v == last_timestamp_ms * m + last_random,
                last_random < m,
                compose(t, x) >= now * m,
                last_timestamp_ms < now,
        ;
    } else {
        lemma_small_mod(x, m);
        assert(compose(t, x) == old_v + 1);
    }
    lemma_encoding_order(old_v, compose(t, x));
}

} // verus!

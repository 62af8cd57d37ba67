//! When a request to a model is sent again, and after how long.

use std::time::SystemTime;

use vstd::arithmetic::power2::{lemma2_to64, lemma_pow2_pos, lemma_pow2_unfold, pow2};
use vstd::prelude::*;

use crate::clock::{nanos_at, wall_nanos};
use crate::error::SemcastError;
use crate::text::{
    concat3, decimal, decimal_is_digits, decimal_reads_back, is_digit, is_space, parse_u64,
    parsed_number, trim, trimmed, trimming_leaves_the_core, Class,
};

verus! {

/// How often a throttled or transiently failed request is sent again before it
/// is given up.
pub const MAX_RETRIES: usize = 4;

/// The first step of the backoff, in milliseconds. It doubles with each attempt.
pub const BASE_BACKOFF_MS: u64 = 250;

/// The longest step of the backoff, in milliseconds.
pub const MAX_BACKOFF_MS: u64 = 30_000;

/// Nanoseconds in a second.
pub const NANOS: u32 = 1_000_000_000;

/// A span of time.
#[derive(Debug, Clone, Copy, PartialEq, Eq, PartialOrd, Ord, Structural)]
pub struct Delay {
    pub secs: u64,
    /// Less than one second.
    pub nanos: u32,
}

impl Delay {
    pub open spec fn wf(self) -> bool {
        self.nanos < NANOS
    }

    /// The span in nanoseconds.
    pub open spec fn total(self) -> nat {
        (self.secs * NANOS + self.nanos) as nat
    }

    pub fn from_secs(secs: u64) -> (r: Delay)
        ensures
            r.wf(),
            r.secs == secs,
            r.nanos == 0,
    {
        Delay { secs, nanos: 0 }
    }

    pub fn from_millis(millis: u64) -> (r: Delay)
        ensures
            r.wf(),
            r.total() == millis * 1_000_000,
    {
        let secs: u64 = millis / 1000;
        let nanos: u32 = ((millis % 1000) * 1_000_000) as u32;
        Delay { secs, nanos }
    }

    /// The span in whole milliseconds.
    pub fn millis(&self) -> (r: u128)
        requires
            self.wf(),
        ensures
            r == self.total() / 1_000_000,
    {
        self.secs as u128 * 1000 + (self.nanos / 1_000_000) as u128
    }

    /// A span of nanoseconds.
    fn from_nanos(total: u128) -> (r: Delay)
        requires
            total <= u64::MAX as u128 * 1_000_000_000,
        ensures
            r.wf(),
            r.total() == total,
    {
        let secs: u64 = (total / 1_000_000_000) as u64;
        let nanos: u32 = (total % 1_000_000_000) as u32;
        Delay { secs, nanos }
    }
}

/// Retryable are rate limits, request timeouts and requests that came too early,
/// and all server errors. Everything else is a client's error, which sending
/// again will not fix.
pub open spec fn retryable(status: u16) -> bool {
    status == 408 || status == 425 || status == 429 || 500 <= status <= 599
}

pub fn is_retryable(status: u16) -> (r: bool)
    ensures
        r == retryable(status),
{
    status == 408 || status == 425 || status == 429 || (500 <= status && status <= 599)
}

/// The whole seconds that a `Retry-After` header asks for, where it does.
pub open spec fn asked_seconds(value: Option<&str>) -> Option<nat> {
    match value {
        Some(value) => match parsed_number(trimmed(value@)) {
            Some(n) => if n <= u64::MAX {
                Some(n)
            } else {
                None
            },
            None => None,
        },
        None => None,
    }
}

/// Reads a `Retry-After` header expressed in whole seconds. The form of a date
/// is treated as absent.
pub fn parse_retry_after(value: Option<&str>) -> (r: Option<Delay>)
    ensures
        match asked_seconds(value) {
            Some(n) => r == Some(Delay { secs: n as u64, nanos: 0 }),
            None => r is None,
        },
{
    match value {
        Some(value) => {
            let text = trim(value);
            match parse_u64(text.as_str()) {
                Some(secs) => Some(Delay::from_secs(secs)),
                None => None,
            }
        },
        None => None,
    }
}

/// The step of the backoff at an attempt, in milliseconds: the first step,
/// doubled at each attempt, up to the longest.
pub open spec fn step_ms(attempt: nat) -> nat {
    let doubled = BASE_BACKOFF_MS as nat * pow2(
        if attempt < 16 {
            attempt
        } else {
            16
        },
    );
    if doubled < MAX_BACKOFF_MS {
        doubled
    } else {
        MAX_BACKOFF_MS as nat
    }
}

/// A fraction of a span, in billionths, in whole nanoseconds.
pub open spec fn fraction(span: nat, nanos: nat) -> nat {
    span * nanos / 1_000_000_000
}

/// The delay before the next attempt, by the fraction of the second half of the
/// step, in billionths.
pub open spec fn backoff_nanos(attempt: nat, nanos: nat) -> nat {
    let half = step_ms(attempt) / 2 * 1_000_000;
    half + fraction(half, nanos)
}

proof fn lemma_fraction(span: nat, nanos: nat)
    requires
        nanos < 1_000_000_000,
    ensures
        fraction(span, nanos) <= span,
        span * nanos <= span * 1_000_000_000,
{
    assert(span * nanos <= span * 1_000_000_000) by (nonlinear_arith)
        requires
            nanos < 1_000_000_000,
    ;
    assert(fraction(span, nanos) <= span) by (nonlinear_arith)
        requires
            span * nanos <= span * 1_000_000_000,
            fraction(span, nanos) == span * nanos / 1_000_000_000,
    ;
}

/// A fraction of a span, in billionths.
pub fn jitter_at(span: Delay, nanos: u32) -> (r: Delay)
    requires
        span.wf(),
        nanos < NANOS,
    ensures
        r.wf(),
        r.total() == fraction(span.total(), nanos as nat),
        r.total() <= span.total(),
{
    let whole: u128 = span.secs as u128 * 1_000_000_000 + span.nanos as u128;
    proof {
        lemma_fraction(whole as nat, nanos as nat);
        assert(whole * 1_000_000_000 <= (u64::MAX * 1_000_000_000 + 1_000_000_000) * 1_000_000_000);
    }
    let part: u128 = whole * (nanos as u128) / 1_000_000_000;
    proof {
        if nanos == 0 {
            assert(whole * nanos == 0) by (nonlinear_arith)
                requires
                    nanos == 0,
            ;
        }
        assert(part <= u64::MAX * 1_000_000_000) by {
            assert(whole * nanos <= (u64::MAX * 1_000_000_000 + 999_999_999) * 999_999_999)
                by (nonlinear_arith)
                requires
                    whole <= u64::MAX * 1_000_000_000 + 999_999_999,
                    0 <= nanos <= 999_999_999,
            ;
        }
    }
    Delay::from_nanos(part)
}

/// A pseudo-random part of a span, seeded from the wall clock, which is good
/// enough to keep retries apart.
pub fn jitter(span: Delay) -> (r: Delay)
    requires
        span.wf(),
    ensures
        r.wf(),
        r.total() <= span.total(),
        exists|t: SystemTime| r.total() == fraction(span.total(), #[trigger] nanos_at(t)),
{
    jitter_at(span, wall_nanos())
}

/// The step of the backoff at an attempt, in milliseconds.
fn step(attempt: usize) -> (r: u64)
    ensures
        r == step_ms(attempt as nat),
{
    let n: usize = if attempt < 16 {
        attempt
    } else {
        16
    };
    let mut doubled: u64 = BASE_BACKOFF_MS;
    let mut k: usize = 0;
    proof {
        lemma2_to64();
    }
    while k < n
        invariant
            k <= n <= 16,
            doubled == BASE_BACKOFF_MS as nat * pow2(k as nat),
            pow2(k as nat) <= pow2(16),
            pow2(16) == 65536,
        decreases n - k,
    {
        proof {
            lemma_pow2_unfold((k + 1) as nat);
            vstd::arithmetic::power2::lemma_pow2_strictly_increases(k as nat, 16);
            if k + 1 < 16 {
                vstd::arithmetic::power2::lemma_pow2_strictly_increases((k + 1) as nat, 16);
            }
            assert(BASE_BACKOFF_MS as nat * pow2((k + 1) as nat) == 2 * (BASE_BACKOFF_MS as nat
                * pow2(k as nat))) by (nonlinear_arith)
                requires
                    pow2((k + 1) as nat) == 2 * pow2(k as nat),
            ;
        }
        doubled = doubled * 2;
        k += 1;
    }
    if doubled < MAX_BACKOFF_MS {
        doubled
    } else {
        MAX_BACKOFF_MS
    }
}

/// Exponential backoff with equal jitter, by the fraction of the jitter in
/// billionths.
pub fn backoff_at(attempt: usize, nanos: u32) -> (r: Delay)
    requires
        nanos < NANOS,
    ensures
        r.wf(),
        r.total() == backoff_nanos(attempt as nat, nanos as nat),
{
    let half_ms: u64 = step(attempt) / 2;
    let half = Delay::from_millis(half_ms);
    let part = jitter_at(half, nanos);
    proof {
        lemma_fraction(half.total(), nanos as nat);
    }
    let secs_part: u128 = half.secs as u128 * 1_000_000_000 + half.nanos as u128;
    let more: u128 = part.secs as u128 * 1_000_000_000 + part.nanos as u128;
    Delay::from_nanos(secs_part + more)
}

/// Exponential backoff with equal jitter: at least half of the step, plus a
/// random slice of the rest, so that concurrent retries neither thunder together
/// nor fire at once.
pub fn backoff(attempt: usize) -> (r: Delay)
    ensures
        r.wf(),
        step_ms(attempt as nat) / 2 * 1_000_000 <= r.total(),
        r.total() <= step_ms(attempt as nat) * 1_000_000,
        exists|t: SystemTime|
            r.total() == backoff_nanos(attempt as nat, #[trigger] nanos_at(t)),
{
    let nanos: u32 = wall_nanos();
    proof {
        lemma_fraction(step_ms(attempt as nat) / 2 * 1_000_000, nanos as nat);
    }
    backoff_at(attempt, nanos)
}

/// How a request went.
#[derive(Debug)]
pub enum Reply<'a> {
    /// The server answered, with a status and maybe a `Retry-After` header.
    Answered { status: u16, retry_after: Option<&'a str> },
    /// The request did not get through.
    Failed,
}

/// What to do about it.
#[derive(Debug, Clone, Copy, PartialEq, Eq, Structural)]
pub enum Next {
    /// Read the answer.
    Accept,
    /// Wait, and send the request again.
    Retry(Delay),
    /// Give up.
    GiveUp,
}

/// A server's own word on the delay goes before a guess.
pub open spec fn next_of(attempt: nat, reply: Reply, guess: Delay) -> Next {
    match reply {
        Reply::Answered { status, retry_after } => if 200 <= status < 300 {
            Next::Accept
        } else if retryable(status) && attempt < MAX_RETRIES {
            Next::Retry(
                match asked_seconds(retry_after) {
                    Some(n) => Delay { secs: n as u64, nanos: 0 },
                    None => guess,
                },
            )
        } else {
            Next::GiveUp
        },
        Reply::Failed => if attempt < MAX_RETRIES {
            Next::Retry(guess)
        } else {
            Next::GiveUp
        },
    }
}

/// Decides what follows an attempt, by the delay that is guessed where the
/// server names none.
pub fn next_step(attempt: usize, reply: &Reply, guess: Delay) -> (r: Next)
    ensures
        r == next_of(attempt as nat, *reply, guess),
{
    match reply {
        Reply::Answered { status, retry_after } => {
            let status: u16 = *status;
            if 200 <= status && status < 300 {
                Next::Accept
            } else if is_retryable(status) && attempt < MAX_RETRIES {
                match parse_retry_after(*retry_after) {
                    Some(delay) => Next::Retry(delay),
                    None => Next::Retry(guess),
                }
            } else {
                Next::GiveUp
            }
        },
        Reply::Failed => if attempt < MAX_RETRIES {
            Next::Retry(guess)
        } else {
            Next::GiveUp
        },
    }
}

/// The error of a request that a server refused for good.
pub fn status_error(label: &str, status: &str, detail: &str) -> (r: SemcastError)
    ensures
        r.is_model(label@ + " returned "@ + status@ + ": "@ + detail@),
{
    let mut message: String = concat3(label, " returned ", status);
    message.append(": ");
    message.append(detail);
    SemcastError::Model(message)
}

/// The error of a request that did not get through.
pub fn transport_error(label: &str, cause: &str) -> (r: SemcastError)
    ensures
        r.is_model(label@ + " request failed: "@ + cause@),
{
    SemcastError::Model(concat3(label, " request failed: ", cause))
}

/// A request is sent again at most [`MAX_RETRIES`] times, and never on a client's
/// error.
pub proof fn retries_are_bounded(attempt: nat, reply: Reply, guess: Delay)
    ensures
        attempt >= MAX_RETRIES ==> !(next_of(attempt, reply, guess) is Retry),
        reply matches Reply::Answered { status, .. } ==> !retryable(status) ==> !(next_of(
            attempt,
            reply,
            guess,
        ) is Retry),
{
}

/// The delay lies between half the step and the step, the step never falls from
/// one attempt to the next, and it is never longer than the longest.
pub proof fn backoff_grows_and_stays_capped(attempt: nat, nanos: nat)
    requires
        nanos < NANOS,
    ensures
        step_ms(attempt) / 2 * 1_000_000 <= backoff_nanos(attempt, nanos),
        backoff_nanos(attempt, nanos) <= step_ms(attempt) * 1_000_000,
        step_ms(attempt) <= step_ms(attempt + 1),
        step_ms(attempt) <= MAX_BACKOFF_MS,
        attempt >= 7 ==> step_ms(attempt) == MAX_BACKOFF_MS,
{
    lemma_fraction(step_ms(attempt) / 2 * 1_000_000, nanos);
    lemma2_to64();
    if attempt < 16 {
        lemma_pow2_unfold(attempt + 1);
        lemma_pow2_pos(attempt);
        assert(BASE_BACKOFF_MS as nat * pow2(attempt) <= BASE_BACKOFF_MS as nat * pow2(
            attempt + 1,
        )) by (nonlinear_arith)
            requires
                pow2(attempt) <= pow2(attempt + 1),
        ;
    }
    if attempt >= 7 {
        let n = if attempt < 16 {
            attempt
        } else {
            16
        };
        if n > 7 {
            vstd::arithmetic::power2::lemma_pow2_strictly_increases(7, n);
        }
        assert(pow2(n) >= 128);
        assert(BASE_BACKOFF_MS as nat * pow2(n) >= 250 * 128) by (nonlinear_arith)
            requires
                pow2(n) >= 128,
                BASE_BACKOFF_MS == 250,
        ;
    }
}

/// The first step is the shortest, and each further one is twice as long as the one
/// before, up to the longest.
pub proof fn each_step_is_twice_the_one_before(attempt: nat)
    ensures
        step_ms(0) == BASE_BACKOFF_MS,
        step_ms(attempt + 1) == (if 2 * step_ms(attempt) < MAX_BACKOFF_MS {
            2 * step_ms(attempt)
        } else {
            MAX_BACKOFF_MS as nat
        }),
{
    lemma2_to64();
    if attempt < 16 {
        lemma_pow2_unfold(attempt + 1);
        assert(BASE_BACKOFF_MS as nat * pow2(attempt + 1) == 2 * (BASE_BACKOFF_MS as nat * pow2(
            attempt,
        ))) by (nonlinear_arith)
            requires
                pow2(attempt + 1) == 2 * pow2(attempt),
        ;
    }
}

/// A fraction of a span grows with the fraction: none is nothing, all is the span.
pub proof fn a_fraction_is_in_proportion(span: nat, a: nat, b: nat)
    ensures
        fraction(span, 0) == 0,
        fraction(span, NANOS as nat) == span,
        a <= b ==> fraction(span, a) <= fraction(span, b),
        fraction(span, a) * NANOS <= span * a < (fraction(span, a) + 1) * NANOS,
{
    assert(span * 0 == 0);
    assert(fraction(span, NANOS as nat) == span) by (nonlinear_arith)
        requires
            fraction(span, NANOS as nat) == span * 1_000_000_000 / 1_000_000_000,
    ;
    if a <= b {
        assert(span * a <= span * b) by (nonlinear_arith)
            requires
                a <= b,
        ;
    }
}

/// A request is accepted exactly where the server answers with success; one that is
/// throttled or does not get through is sent again while there are attempts left,
/// after the time that the server itself asks for, where it names one; and all else
/// is given up at once.
pub proof fn a_server_s_own_word_goes_first(attempt: nat, status: u16, value: Option<&str>, guess: Delay)
    ensures
        ({
            let next = next_of(attempt, Reply::Answered { status, retry_after: value }, guess);
            &&& next is Accept <==> 200 <= status < 300
            &&& (status == 429 || status == 503) && attempt < MAX_RETRIES && asked_seconds(
                value,
            ) is Some ==> next == Next::Retry(
                Delay { secs: asked_seconds(value)->0 as u64, nanos: 0 },
            )
            &&& (status == 429 || status == 503) && attempt < MAX_RETRIES && asked_seconds(
                value,
            ) is None ==> next == Next::Retry(guess)
            &&& (status == 400 || status == 401 || status == 403 || status == 404) ==> next
                == Next::GiveUp
            &&& attempt < MAX_RETRIES ==> next_of(attempt, Reply::Failed, guess) == Next::Retry(
                guess,
            )
        }),
{
}

/// A header in whole seconds is read as that number, whatever white space stands
/// round it; and a header that is no number asks for nothing.
pub proof fn whole_seconds_are_read(value: &str, seconds: u64, lead: Seq<char>, trail: Seq<char>)
    requires
        value@ == lead + decimal(seconds as nat) + trail,
        forall|i: int| 0 <= i < lead.len() ==> is_space(#[trigger] lead[i]),
        forall|i: int| 0 <= i < trail.len() ==> is_space(#[trigger] trail[i]),
    ensures
        asked_seconds(Some(value)) == Some(seconds as nat),
{
    let digits = decimal(seconds as nat);
    decimal_is_digits(seconds as nat);
    decimal_reads_back(seconds as nat);
    assert(is_digit(digits[0]) && is_digit(digits[digits.len() - 1]));
    trimming_leaves_the_core(lead, digits, trail, Class::Space);
}

}

//! The submission coordinator: the decisions of one fetch-parse-submit
//! cycle. The host performs the outside work (the HTTP fetch, the
//! authenticated dispatch) and feeds each outcome back; every decision
//! between those steps is made here.
//!
//! A cycle: enumerate signing identities (none — fail fast, no fetch);
//! resolve a source and fix the cycle-wide deadline; fetch; normalize the
//! response to a price; fan one submission out per identity; report each
//! identity's outcome separately.

use vstd::prelude::*;
use crate::rates::ParseError;
use crate::source::{ConfigError, Source, resolve, spec_resolve};
use crate::text::views;

verus! {

/// How long after the cycle's start the fetch deadline lies, in
/// milliseconds.
pub const FETCH_TIMEOUT_MS: u64 = 2000;

/// Why a fetch failed.
#[derive(Clone, Copy, Debug, PartialEq, Eq, Structural)]
pub enum FetchError {
    /// Connection or send failure.
    Transport,
    /// The deadline passed before a response arrived.
    DeadlineExceeded,
    /// A response arrived with a status other than 200; the code is kept.
    UnexpectedStatus(u16),
}

/// Why a whole cycle produced no observation.
#[derive(Clone, Copy, Debug, PartialEq, Eq, Structural)]
pub enum CycleError {
    /// The source resource was rejected; no fetch was attempted.
    Config(ConfigError),
    /// No local signing identity; no fetch was attempted.
    NoSigningIdentity,
    /// The fetch failed; no state was mutated.
    Fetch(FetchError),
    /// The response body was rejected; no state was mutated.
    Parse(ParseError),
}

/// What the host's transport hands back for one fetch.
pub enum FetchOutcome {
    /// A response arrived: its status code and body bytes.
    Response { status: u16, body: Vec<u8> },
    /// Connection or send failure.
    TransportFailure,
    /// The deadline passed first.
    TimedOut,
}

/// The request a cycle asks the host to perform: the resolved source and
/// the absolute deadline covering send and receive.
pub struct FetchPlan {
    pub source: Source,
    pub deadline_ms: u64,
}

/// The deadline a cycle starting at `now_ms` imposes on its fetch.
pub open spec fn spec_deadline(now_ms: u64) -> u64 {
    if now_ms + FETCH_TIMEOUT_MS > u64::MAX {
        u64::MAX
    } else {
        (now_ms + FETCH_TIMEOUT_MS) as u64
    }
}

/// Starts one cycle: with no signing identity it fails at once — the
/// returned plan is the only road to a fetch, so none happens — and
/// otherwise it resolves the source and fixes the cycle-wide deadline.
pub fn begin_cycle(
    identities: &Vec<u64>,
    config: &[u8],
    tickers: &Vec<Vec<u8>>,
    now_ms: u64,
) -> (r: Result<FetchPlan, CycleError>)
    ensures
        (identities@.len() == 0) <==> (r == Err::<FetchPlan, CycleError>(
            CycleError::NoSigningIdentity,
        )),
        identities@.len() > 0 ==> match spec_resolve(config@, views(tickers@)) {
            Ok(sv) => r matches Ok(plan) && plan.source@ == sv && plan.deadline_ms
                == spec_deadline(now_ms),
            Err(e) => r == Err::<FetchPlan, CycleError>(CycleError::Config(e)),
        },
{
    if identities.len() == 0 {
        return Err(CycleError::NoSigningIdentity);
    }
    match resolve(config, tickers) {
        Err(e) => Err(CycleError::Config(e)),
        Ok(source) => Ok(FetchPlan { source, deadline_ms: now_ms.saturating_add(FETCH_TIMEOUT_MS) }),
    }
}

/// What one fetch outcome yields for the requested quote: the taxonomy of
/// fetch failures, then the parse of the body of a 200 response.
pub open spec fn spec_outcome_price(outcome: FetchOutcome, quote: Seq<u8>) -> Result<
    u32,
    CycleError,
> {
    match outcome {
        FetchOutcome::TransportFailure => Err(CycleError::Fetch(FetchError::Transport)),
        FetchOutcome::TimedOut => Err(CycleError::Fetch(FetchError::DeadlineExceeded)),
        FetchOutcome::Response { status, body } => if status != 200 {
            Err(CycleError::Fetch(FetchError::UnexpectedStatus(status)))
        } else {
            match crate::rates::spec_parse(body@, quote) {
                Ok(p) => Ok(p),
                Err(e) => Err(CycleError::Parse(e)),
            }
        },
    }
}

/// Turns the host's fetch outcome into the cycle's price: each transport
/// failure is surfaced distinctly, a non-200 status is an error carrying
/// the code, and a 200 body is parsed for `quote`.
pub fn outcome_price(outcome: FetchOutcome, quote: &[u8]) -> (r: Result<u32, CycleError>)
    ensures
        r == spec_outcome_price(outcome, quote@),
{
    match outcome {
        FetchOutcome::TransportFailure => Err(CycleError::Fetch(FetchError::Transport)),
        FetchOutcome::TimedOut => Err(CycleError::Fetch(FetchError::DeadlineExceeded)),
        FetchOutcome::Response { status, body } => {
            if status != 200 {
                return Err(CycleError::Fetch(FetchError::UnexpectedStatus(status)));
            }
            match crate::rates::parse(body.as_slice(), quote) {
                Ok(p) => Ok(p),
                Err(e) => Err(CycleError::Parse(e)),
            }
        },
    }
}

/// The quote currency of an ordered ticker list: its second entry.
pub fn quote_ticker(tickers: &Vec<Vec<u8>>) -> (q: &Vec<u8>)
    requires
        tickers@.len() >= 2,
    ensures
        q@ == tickers@[1]@,
{
    &tickers[1]
}

/// The payload one authenticated submission carries: the period that
/// produced it, the observed price, and the submitting identity.
#[derive(Clone, Copy, Debug, PartialEq, Eq, Structural)]
pub struct PricePayload {
    pub block_number: u64,
    pub price: u32,
    pub public: u64,
}

impl PricePayload {
    /// The identity the payload is signed with.
    pub fn public(&self) -> (p: u64)
        ensures
            p == self.public,
    {
        self.public
    }
}

/// The fan-out of one observed price over every available identity: one
/// payload per identity, in the identities' order.
pub fn plan_submissions(identities: &Vec<u64>, price: u32, block_number: u64) -> (plans: Vec<
    PricePayload,
>)
    ensures
        plans@.len() == identities@.len(),
        forall|i: int| 0 <= i < plans@.len() ==> plans@[i] == (PricePayload {
            block_number,
            price,
            public: identities@[i],
        }),
{
    let mut plans: Vec<PricePayload> = Vec::new();
    let mut i: usize = 0;
    while i < identities.len()
        invariant
            i <= identities@.len(),
            plans@.len() == i,
            forall|j: int| 0 <= j < i ==> plans@[j] == (PricePayload {
                block_number,
                price,
                public: identities@[j],
            }),
        decreases identities@.len() - i,
    {
        plans.push(PricePayload { block_number, price, public: identities[i] });
        i = i + 1;
    }
    plans
}

/// The per-identity report of one cycle's submissions: each outcome keyed
/// by the identity that attempted it, never aggregated.
pub fn record_outcomes(identities: &Vec<u64>, accepted: &Vec<bool>) -> (report: Vec<(u64, bool)>)
    requires
        identities@.len() == accepted@.len(),
    ensures
        report@.len() == identities@.len(),
        forall|i: int| 0 <= i < report@.len() ==> report@[i] == (identities@[i], accepted@[i]),
{
    let mut report: Vec<(u64, bool)> = Vec::new();
    let mut i: usize = 0;
    while i < identities.len()
        invariant
            i <= identities@.len(),
            identities@.len() == accepted@.len(),
            report@.len() == i,
            forall|j: int| 0 <= j < i ==> report@[j] == (identities@[j], accepted@[j]),
        decreases identities@.len() - i,
    {
        report.push((identities[i], accepted[i]));
        i = i + 1;
    }
    report
}

} // verus!

use price_oracle::cycle::{
    begin_cycle, outcome_price, plan_submissions, quote_ticker, record_outcomes, CycleError,
    FetchError, FetchOutcome,
};
use price_oracle::history::{submit_price, PriceHistory};
use price_oracle::rates::ParseError;
use price_oracle::source::ConfigError;

fn tickers(list: &[&str]) -> Vec<Vec<u8>> {
    list.iter().map(|t| t.as_bytes().to_vec()).collect()
}

const CONFIG: &[u8] = b"url_base: http://x; path: /y; params: base=USD q; headers: A=1";

#[test]
fn cycle_without_identities_never_fetches() {
    let ids: Vec<u64> = vec![];
    let mut fetch_calls: u32 = 0;
    let r = begin_cycle(&ids, CONFIG, &tickers(&["USD", "EUR"]), 1000);
    match r {
        Ok(_plan) => {
            // Only an issued plan reaches the transport.
            fetch_calls += 1;
        }
        Err(e) => assert_eq!(e, CycleError::NoSigningIdentity),
    }
    assert_eq!(fetch_calls, 0);
}

#[test]
fn cycle_with_identities_plans_the_fetch() {
    let ids: Vec<u64> = vec![1];
    let plan = begin_cycle(&ids, CONFIG, &tickers(&["USD", "EUR"]), 1000).unwrap();
    assert_eq!(plan.deadline_ms, 3000);
    assert_eq!(plan.source.url(), &b"http://x".to_vec());
}

#[test]
fn cycle_surfaces_config_errors_before_fetching() {
    let ids: Vec<u64> = vec![1];
    let r = begin_cycle(&ids, b"foo: bar", &tickers(&["USD", "EUR"]), 0);
    match r {
        Err(CycleError::Config(e)) => assert_eq!(e, ConfigError::UnknownDirective),
        _ => panic!("expected a configuration error"),
    }
}

#[test]
fn outcome_price_keeps_the_failure_taxonomy() {
    assert_eq!(
        outcome_price(FetchOutcome::TransportFailure, b"EUR"),
        Err(CycleError::Fetch(FetchError::Transport)),
    );
    assert_eq!(
        outcome_price(FetchOutcome::TimedOut, b"EUR"),
        Err(CycleError::Fetch(FetchError::DeadlineExceeded)),
    );
    let bad_status = FetchOutcome::Response { status: 500, body: b"{}".to_vec() };
    assert_eq!(
        outcome_price(bad_status, b"EUR"),
        Err(CycleError::Fetch(FetchError::UnexpectedStatus(500))),
    );
    let bad_body = FetchOutcome::Response { status: 200, body: b"oops".to_vec() };
    assert_eq!(
        outcome_price(bad_body, b"EUR"),
        Err(CycleError::Parse(ParseError::Malformed)),
    );
    let good = FetchOutcome::Response {
        status: 200,
        body: br#"{"rates":{"EUR":1.2345}}"#.to_vec(),
    };
    assert_eq!(outcome_price(good, b"EUR"), Ok(123));
}

#[test]
fn quote_ticker_is_the_second_entry() {
    let t = tickers(&["USD", "EUR"]);
    assert_eq!(quote_ticker(&t), &b"EUR".to_vec());
}

#[test]
fn partial_submission_failure_is_reported_per_identity() {
    let ids: Vec<u64> = vec![11, 22];
    let t = tickers(&["USD", "EUR"]);
    let plan = begin_cycle(&ids, CONFIG, &t, 0).unwrap();
    assert_eq!(plan.source.params()[1], (b"q".to_vec(), b"EUR".to_vec()));

    let outcome = FetchOutcome::Response {
        status: 200,
        body: br#"{"rates":{"EUR":1.2345}}"#.to_vec(),
    };
    let price = outcome_price(outcome, quote_ticker(&t)).unwrap();
    assert_eq!(price, 123);

    let payloads = plan_submissions(&ids, price, 7);
    assert_eq!(payloads.len(), 2);
    assert_eq!(payloads[0].public(), 11);
    assert_eq!(payloads[1].public(), 22);
    assert_eq!(payloads[0].price, 123);

    // The dispatch layer accepts the first submission and rejects the
    // second; only the accepted one mutates the history.
    let mut history = PriceHistory::new(8);
    let accepted = vec![true, false];
    for (i, ok) in accepted.iter().enumerate() {
        if *ok {
            let (_avg, obs) = submit_price(&mut history, Some(ids[i]), payloads[i].price);
            assert_eq!(obs.price, 123);
            assert_eq!(obs.submitter, Some(ids[i]));
        }
    }
    let report = record_outcomes(&ids, &accepted);
    assert_eq!(report, vec![(11, true), (22, false)]);
    assert_eq!(history.snapshot(), vec![123]);
    assert_eq!(history.average(), Some(123));
}

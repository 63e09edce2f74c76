use price_oracle::source::{resolve, resolve_at, ConfigError, Source};

fn tickers(list: &[&str]) -> Vec<Vec<u8>> {
    list.iter().map(|t| t.as_bytes().to_vec()).collect()
}

#[test]
fn resolve_binds_placeholders_positionally() {
    let line = b"url_base: http://x; path: /y; params: base=USD q; headers: A=1";
    let src = resolve(line, &tickers(&["USD", "EUR"])).unwrap();
    assert_eq!(src.url(), &b"http://x".to_vec());
    assert_eq!(src.path(), &b"/y".to_vec());
    assert_eq!(
        src.params(),
        &vec![
            (b"base".to_vec(), b"USD".to_vec()),
            (b"q".to_vec(), b"EUR".to_vec()),
        ],
    );
    assert_eq!(src.headers(), &vec![(b"A".to_vec(), b"1".to_vec())]);
}

#[test]
fn resolve_rejects_unknown_directives() {
    let line = b"url_base: http://x; foo: bar";
    assert_eq!(
        resolve(line, &tickers(&["USD", "EUR"])).err(),
        Some(ConfigError::UnknownDirective),
    );
}

#[test]
fn resolve_rejects_clauses_without_separator() {
    assert_eq!(
        resolve(b"garbage", &tickers(&["USD", "EUR"])).err(),
        Some(ConfigError::Malformed),
    );
    assert_eq!(resolve(b"", &tickers(&[])).err(), Some(ConfigError::Malformed));
}

#[test]
fn resolve_rejects_placeholders_without_tickers() {
    let line = b"params: q r s";
    assert_eq!(
        resolve(line, &tickers(&["USD", "EUR"])).err(),
        Some(ConfigError::MissingTicker),
    );
}

#[test]
fn resolve_rejects_header_tokens_without_equals() {
    let line = b"headers: AcceptEverything";
    assert_eq!(
        resolve(line, &tickers(&["USD", "EUR"])).err(),
        Some(ConfigError::Malformed),
    );
}

#[test]
fn resolve_selects_the_first_line() {
    let config = b"url_base: http://first\nurl_base: http://second";
    let src = resolve(config, &tickers(&["USD", "EUR"])).unwrap();
    assert_eq!(src.url(), &b"http://first".to_vec());
}

#[test]
fn resolve_literal_params_keep_their_values() {
    let line = b"params: a=1 b=2";
    let src = resolve(line, &tickers(&[])).unwrap();
    assert_eq!(
        src.params(),
        &vec![(b"a".to_vec(), b"1".to_vec()), (b"b".to_vec(), b"2".to_vec())],
    );
}

#[test]
fn source_new_keeps_its_fields() {
    let src = Source::new(
        b"http://x".to_vec(),
        b"/y".to_vec(),
        vec![(b"a".to_vec(), b"1".to_vec())],
        vec![(b"H".to_vec(), b"v".to_vec())],
    );
    assert_eq!(src.url(), &b"http://x".to_vec());
    assert_eq!(src.path(), &b"/y".to_vec());
    assert_eq!(src.params(), &vec![(b"a".to_vec(), b"1".to_vec())]);
    assert_eq!(src.headers(), &vec![(b"H".to_vec(), b"v".to_vec())]);
    assert_eq!(src.headers, vec![(b"H".to_vec(), b"v".to_vec())]);
}

#[test]
fn resolve_at_selects_lines_modulo_the_count() {
    let config = b"url_base: http://first\nurl_base: http://second";
    let t = tickers(&["USD", "EUR"]);
    let second = resolve_at(config, 1, &t).unwrap();
    assert_eq!(second.url(), &b"http://second".to_vec());
    let wrapped = resolve_at(config, 2, &t).unwrap();
    assert_eq!(wrapped.url(), &b"http://first".to_vec());
}

#[test]
fn effective_url_combines_base_path_and_params() {
    let line = b"url_base: http://x; path: /y; params: base=USD q; headers: A=1";
    let src = resolve(line, &tickers(&["USD", "EUR"])).unwrap();
    assert_eq!(src.effective_url(), b"http://x/y?base=USD&q=EUR".to_vec());
}

#[test]
fn effective_url_without_params_has_no_query() {
    let src = resolve(b"url_base: http://x; path: /y", &tickers(&[])).unwrap();
    assert_eq!(src.effective_url(), b"http://x/y".to_vec());
}

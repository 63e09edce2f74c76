//! The source registry: resolves one external endpoint descriptor from a
//! line-oriented configuration resource.
//!
//! The resource is a sequence of lines; one line is selected (the first, by
//! the default policy). A line is a list of `directive: value` clauses
//! separated by `"; "`. Recognized directives are `url_base`, `path`,
//! `params` and `headers`; any other directive is a hard configuration
//! error. `params` and `headers` values are space-separated tokens: a token
//! containing `=` is a literal key=value pair, while a `params` token
//! without `=` is a placeholder bound to the caller's ticker at the token's
//! position.

use vstd::prelude::*;
use vstd::slice::slice_to_vec;
use crate::text::{
    COLON_BYTE, EQ_BYTE, NL_BYTE, SEMI_BYTE, SPACE_BYTE, bytes_eq, find1_from, lemma_split1_len,
    spec_contains1, spec_split1, spec_split2, split1, split2, views,
};

verus! {

/// Why a configuration resource was rejected.
#[derive(Clone, Copy, Debug, PartialEq, Eq, Structural)]
pub enum ConfigError {
    /// A clause without a `": "` separator, or a `headers` token without `=`.
    Malformed,
    /// A clause whose directive is none of the recognized ones.
    UnknownDirective,
    /// A placeholder token with no ticker left to bind it to.
    MissingTicker,
}

/// The mathematical content of a resolved source descriptor.
pub ghost struct SourceView {
    pub url: Seq<u8>,
    pub path: Seq<u8>,
    pub params: Seq<(Seq<u8>, Seq<u8>)>,
    pub headers: Seq<(Seq<u8>, Seq<u8>)>,
}

/// The views of a sequence of key/value byte-vector pairs.
pub open spec fn pair_views(ps: Seq<(Vec<u8>, Vec<u8>)>) -> Seq<(Seq<u8>, Seq<u8>)> {
    ps.map_values(|p: (Vec<u8>, Vec<u8>)| (p.0@, p.1@))
}

/// One resolved external endpoint: base URL, path, ordered query parameters
/// and ordered header pairs. Built once per fetch cycle and never mutated.
pub struct Source {
    url: Vec<u8>,
    path: Vec<u8>,
    params: Vec<(Vec<u8>, Vec<u8>)>,
    pub headers: Vec<(Vec<u8>, Vec<u8>)>,
}

impl View for Source {
    type V = SourceView;

    closed spec fn view(&self) -> SourceView {
        SourceView {
            url: self.url@,
            path: self.path@,
            params: pair_views(self.params@),
            headers: pair_views(self.headers@),
        }
    }
}

impl Source {
    pub fn new(
        url: Vec<u8>,
        path: Vec<u8>,
        params: Vec<(Vec<u8>, Vec<u8>)>,
        headers: Vec<(Vec<u8>, Vec<u8>)>,
    ) -> (s: Source)
        ensures
            s@ == (SourceView {
                url: url@,
                path: path@,
                params: pair_views(params@),
                headers: pair_views(headers@),
            }),
    {
        Source { url, path, params, headers }
    }

    pub fn url(&self) -> (r: &Vec<u8>)
        ensures
            r@ == self@.url,
    {
        &self.url
    }

    pub fn path(&self) -> (r: &Vec<u8>)
        ensures
            r@ == self@.path,
    {
        &self.path
    }

    pub fn params(&self) -> (r: &Vec<(Vec<u8>, Vec<u8>)>)
        ensures
            pair_views(r@) == self@.params,
    {
        &self.params
    }

    pub fn headers(&self) -> (r: &Vec<(Vec<u8>, Vec<u8>)>)
        ensures
            pair_views(r@) == self@.headers,
    {
        &self.headers
    }
}

/// The bytes of the directive name `url_base` (ASCII).
pub open spec fn kw_url_base() -> Seq<u8> {
    seq![117u8, 114u8, 108u8, 95u8, 98u8, 97u8, 115u8, 101u8]
}

/// The bytes of the directive name `path` (ASCII).
pub open spec fn kw_path() -> Seq<u8> {
    seq![112u8, 97u8, 116u8, 104u8]
}

/// The bytes of the directive name `params` (ASCII).
pub open spec fn kw_params() -> Seq<u8> {
    seq![112u8, 97u8, 114u8, 97u8, 109u8, 115u8]
}

/// The bytes of the directive name `headers` (ASCII).
pub open spec fn kw_headers() -> Seq<u8> {
    seq![104u8, 101u8, 97u8, 100u8, 101u8, 114u8, 115u8]
}

fn kw_url_base_vec() -> (v: Vec<u8>)
    ensures
        v@ == kw_url_base(),
{
    let mut v: Vec<u8> = Vec::new();
    v.push(117);
    v.push(114);
    v.push(108);
    v.push(95);
    v.push(98);
    v.push(97);
    v.push(115);
    v.push(101);
    proof {
        assert(v@ =~= kw_url_base());
    }
    v
}

fn kw_path_vec() -> (v: Vec<u8>)
    ensures
        v@ == kw_path(),
{
    let mut v: Vec<u8> = Vec::new();
    v.push(112);
    v.push(97);
    v.push(116);
    v.push(104);
    proof {
        assert(v@ =~= kw_path());
    }
    v
}

fn kw_params_vec() -> (v: Vec<u8>)
    ensures
        v@ == kw_params(),
{
    let mut v: Vec<u8> = Vec::new();
    v.push(112);
    v.push(97);
    v.push(114);
    v.push(97);
    v.push(109);
    v.push(115);
    proof {
        assert(v@ =~= kw_params());
    }
    v
}

fn kw_headers_vec() -> (v: Vec<u8>)
    ensures
        v@ == kw_headers(),
{
    let mut v: Vec<u8> = Vec::new();
    v.push(104);
    v.push(101);
    v.push(97);
    v.push(100);
    v.push(101);
    v.push(114);
    v.push(115);
    proof {
        assert(v@ =~= kw_headers());
    }
    v
}

/// The key/value pair a single `params` token denotes: a token containing
/// `=` is a literal pair; otherwise it is a placeholder bound to the ticker
/// at the token's position `k`, and a missing ticker is an error.
pub open spec fn spec_param_pair(tok: Seq<u8>, k: int, tickers: Seq<Seq<u8>>) -> Result<
    (Seq<u8>, Seq<u8>),
    ConfigError,
> {
    if spec_contains1(tok, EQ_BYTE) {
        let pieces = spec_split1(tok, EQ_BYTE);
        Ok((pieces[0], pieces[1]))
    } else if 0 <= k < tickers.len() {
        Ok((tok, tickers[k]))
    } else {
        Err(ConfigError::MissingTicker)
    }
}

/// The pairs the first `n` `params` tokens denote, in order.
pub open spec fn spec_params_upto(toks: Seq<Seq<u8>>, n: int, tickers: Seq<Seq<u8>>) -> Result<
    Seq<(Seq<u8>, Seq<u8>)>,
    ConfigError,
> decreases n,
{
    if n <= 0 {
        Ok(Seq::empty())
    } else {
        match spec_params_upto(toks, n - 1, tickers) {
            Err(e) => Err(e),
            Ok(ps) => match spec_param_pair(toks[n - 1], n - 1, tickers) {
                Err(e) => Err(e),
                Ok(pair) => Ok(ps.push(pair)),
            },
        }
    }
}

/// The key/value pair a single `headers` token denotes; a token without `=`
/// is malformed.
pub open spec fn spec_header_pair(tok: Seq<u8>) -> Result<(Seq<u8>, Seq<u8>), ConfigError> {
    if spec_contains1(tok, EQ_BYTE) {
        let pieces = spec_split1(tok, EQ_BYTE);
        Ok((pieces[0], pieces[1]))
    } else {
        Err(ConfigError::Malformed)
    }
}

/// The pairs the first `n` `headers` tokens denote, in order.
pub open spec fn spec_headers_upto(toks: Seq<Seq<u8>>, n: int) -> Result<
    Seq<(Seq<u8>, Seq<u8>)>,
    ConfigError,
> decreases n,
{
    if n <= 0 {
        Ok(Seq::empty())
    } else {
        match spec_headers_upto(toks, n - 1) {
            Err(e) => Err(e),
            Ok(ps) => match spec_header_pair(toks[n - 1]) {
                Err(e) => Err(e),
                Ok(pair) => Ok(ps.push(pair)),
            },
        }
    }
}

/// The effect of one `directive: value` clause on a partially built
/// descriptor: `url_base` and `path` replace the field, `params` and
/// `headers` append their pairs, anything else is an error.
pub open spec fn spec_apply_clause(
    sv: SourceView,
    clause: Seq<u8>,
    tickers: Seq<Seq<u8>>,
) -> Result<SourceView, ConfigError> {
    let pieces = spec_split2(clause, COLON_BYTE, SPACE_BYTE);
    if pieces.len() < 2 {
        Err(ConfigError::Malformed)
    } else if pieces[0] == kw_url_base() {
        Ok(SourceView { url: pieces[1], path: sv.path, params: sv.params, headers: sv.headers })
    } else if pieces[0] == kw_path() {
        Ok(SourceView { url: sv.url, path: pieces[1], params: sv.params, headers: sv.headers })
    } else if pieces[0] == kw_params() {
        let toks = spec_split1(pieces[1], SPACE_BYTE);
        match spec_params_upto(toks, toks.len() as int, tickers) {
            Err(e) => Err(e),
            Ok(ps) => Ok(
                SourceView {
                    url: sv.url,
                    path: sv.path,
                    params: sv.params + ps,
                    headers: sv.headers,
                },
            ),
        }
    } else if pieces[0] == kw_headers() {
        let toks = spec_split1(pieces[1], SPACE_BYTE);
        match spec_headers_upto(toks, toks.len() as int) {
            Err(e) => Err(e),
            Ok(ps) => Ok(
                SourceView {
                    url: sv.url,
                    path: sv.path,
                    params: sv.params,
                    headers: sv.headers + ps,
                },
            ),
        }
    } else {
        Err(ConfigError::UnknownDirective)
    }
}

/// The empty descriptor a line's parse starts from.
pub open spec fn spec_empty_source() -> SourceView {
    SourceView { url: Seq::empty(), path: Seq::empty(), params: Seq::empty(), headers: Seq::empty() }
}

/// The descriptor after the first `n` clauses of a line, applied in order.
pub open spec fn spec_clauses_upto(
    clauses: Seq<Seq<u8>>,
    n: int,
    tickers: Seq<Seq<u8>>,
) -> Result<SourceView, ConfigError>
    decreases n,
{
    if n <= 0 {
        Ok(spec_empty_source())
    } else {
        match spec_clauses_upto(clauses, n - 1, tickers) {
            Err(e) => Err(e),
            Ok(sv) => spec_apply_clause(sv, clauses[n - 1], tickers),
        }
    }
}

/// The descriptor the configuration resource resolves to when the
/// selection policy picks line `sel` (taken modulo the line count, so any
/// selection strategy yields a line): the line is split into clauses on
/// `"; "` and the clauses are applied in order.
pub open spec fn spec_resolve_at(config: Seq<u8>, sel: int, tickers: Seq<Seq<u8>>) -> Result<
    SourceView,
    ConfigError,
> {
    let lines = spec_split1(config, NL_BYTE);
    let clauses = spec_split2(lines[sel % lines.len() as int], SEMI_BYTE, SPACE_BYTE);
    spec_clauses_upto(clauses, clauses.len() as int, tickers)
}

/// The descriptor the resource resolves to under the default selection
/// policy: the first line.
pub open spec fn spec_resolve(config: Seq<u8>, tickers: Seq<Seq<u8>>) -> Result<
    SourceView,
    ConfigError,
> {
    spec_resolve_at(config, 0, tickers)
}

/// Whether a clause splits on `": "` and names a recognized directive.
pub open spec fn spec_clause_directive_known(clause: Seq<u8>) -> bool {
    let pieces = spec_split2(clause, COLON_BYTE, SPACE_BYTE);
    &&& pieces.len() >= 2
    &&& (pieces[0] == kw_url_base() || pieces[0] == kw_path() || pieces[0] == kw_params()
        || pieces[0] == kw_headers())
}

proof fn lemma_clauses_ok_known(clauses: Seq<Seq<u8>>, n: int, tickers: Seq<Seq<u8>>)
    requires
        spec_clauses_upto(clauses, n, tickers) is Ok,
    ensures
        forall|k: int| 0 <= k < n ==> spec_clause_directive_known(#[trigger] clauses[k]),
    decreases n,
{
    if n > 0 {
        lemma_clauses_ok_known(clauses, n - 1, tickers);
        assert(spec_clause_directive_known(clauses[n - 1]));
    }
}

/// Law: a resolve that succeeds saw no unrecognized directive — every
/// clause of the selected line splits on `": "` and starts with one of
/// `url_base`, `path`, `params`, `headers`; a line with any other
/// directive is rejected, never silently skipped.
pub proof fn lemma_resolve_directives_known(config: Seq<u8>, sel: int, tickers: Seq<Seq<u8>>)
    requires
        spec_resolve_at(config, sel, tickers) is Ok,
    ensures
        ({
            let lines = spec_split1(config, NL_BYTE);
            let clauses = spec_split2(lines[sel % lines.len() as int], SEMI_BYTE, SPACE_BYTE);
            forall|k: int|
                0 <= k < clauses.len() ==> spec_clause_directive_known(#[trigger] clauses[k])
        }),
{
    let lines = spec_split1(config, NL_BYTE);
    let clauses = spec_split2(lines[sel % lines.len() as int], SEMI_BYTE, SPACE_BYTE);
    lemma_clauses_ok_known(clauses, clauses.len() as int, tickers);
}

pub proof fn lemma_params_err_persists(toks: Seq<Seq<u8>>, n: int, m: int, tickers: Seq<Seq<u8>>)
    requires
        0 <= n <= m,
        spec_params_upto(toks, n, tickers) is Err,
    ensures
        spec_params_upto(toks, m, tickers) == spec_params_upto(toks, n, tickers),
    decreases m - n,
{
    if m > n {
        lemma_params_err_persists(toks, n, m - 1, tickers);
    }
}

pub proof fn lemma_headers_err_persists(toks: Seq<Seq<u8>>, n: int, m: int)
    requires
        0 <= n <= m,
        spec_headers_upto(toks, n) is Err,
    ensures
        spec_headers_upto(toks, m) == spec_headers_upto(toks, n),
    decreases m - n,
{
    if m > n {
        lemma_headers_err_persists(toks, n, m - 1);
    }
}

pub proof fn lemma_clauses_err_persists(
    clauses: Seq<Seq<u8>>,
    n: int,
    m: int,
    tickers: Seq<Seq<u8>>,
)
    requires
        0 <= n <= m,
        spec_clauses_upto(clauses, n, tickers) is Err,
    ensures
        spec_clauses_upto(clauses, m, tickers) == spec_clauses_upto(clauses, n, tickers),
    decreases m - n,
{
    if m > n {
        lemma_clauses_err_persists(clauses, n, m - 1, tickers);
    }
}

/// Parses one `params` value: appends to `out` the pair each space-separated
/// token denotes, binding placeholder tokens to the tickers positionally.
fn parse_params(value: &[u8], tickers: &Vec<Vec<u8>>, out: &mut Vec<(Vec<u8>, Vec<u8>)>) -> (r:
    Result<(), ConfigError>)
    ensures
        ({
            let toks = spec_split1(value@, SPACE_BYTE);
            let sp = spec_params_upto(toks, toks.len() as int, views(tickers@));
            match r {
                Ok(_) => sp matches Ok(ps) && pair_views(final(out)@) == pair_views(old(out)@)
                    + ps,
                Err(e) => sp == Err::<Seq<(Seq<u8>, Seq<u8>)>, ConfigError>(e),
            }
        }),
{
    let ghost tv = views(tickers@);
    let toks = split1(value, SPACE_BYTE);
    let ghost tks = views(toks@);
    let mut j: usize = 0;
    while j < toks.len()
        invariant
            j <= toks@.len(),
            tks == views(toks@),
            tks == spec_split1(value@, SPACE_BYTE),
            tv == views(tickers@),
            spec_params_upto(tks, j as int, tv) matches Ok(ps) && pair_views(out@) == pair_views(
                old(out)@,
            ) + ps,
        decreases toks@.len() - j,
    {
        let tok = &toks[j];
        let ghost prev = pair_views(out@);
        proof {
            assert(tks[j as int] == toks@[j as int]@);
        }
        match find1_from(tok.as_slice(), 0, EQ_BYTE) {
            Some(_) => {
                proof {
                    assert(tok@.skip(0) =~= tok@);
                }
                let pieces = split1(tok.as_slice(), EQ_BYTE);
                proof {
                    lemma_split1_len(tok@, EQ_BYTE);
                }
                let k0 = slice_to_vec(pieces[0].as_slice());
                let v0 = slice_to_vec(pieces[1].as_slice());
                out.push((k0, v0));
                proof {
                    assert(views(pieces@)[0] == pieces@[0int]@);
                    assert(views(pieces@)[1] == pieces@[1int]@);
                    assert(pair_views(out@) =~= prev.push((pieces@[0int]@, pieces@[1int]@)));
                }
            },
            None => {
                proof {
                    assert(tok@.skip(0) =~= tok@);
                }
                if j < tickers.len() {
                    let k0 = slice_to_vec(tok.as_slice());
                    let v0 = slice_to_vec(tickers[j].as_slice());
                    out.push((k0, v0));
                    proof {
                        assert(tv[j as int] == tickers@[j as int]@);
                        assert(pair_views(out@) =~= prev.push((tok@, tickers@[j as int]@)));
                    }
                } else {
                    proof {
                        assert(!spec_contains1(tks[j as int], EQ_BYTE));
                        assert(spec_param_pair(tks[j as int], j as int, tv) == Err::<
                            (Seq<u8>, Seq<u8>),
                            ConfigError,
                        >(ConfigError::MissingTicker));
                        assert(spec_params_upto(tks, j as int + 1, tv) == Err::<
                            Seq<(Seq<u8>, Seq<u8>)>,
                            ConfigError,
                        >(ConfigError::MissingTicker));
                        lemma_params_err_persists(tks, j as int + 1, tks.len() as int, tv);
                        assert(tks.len() == toks@.len());
                    }
                    return Err(ConfigError::MissingTicker);
                }
            },
        }
        j = j + 1;
    }
    proof {
        assert(tks.len() == toks@.len());
    }
    Ok(())
}

/// Parses one `headers` value: appends the key=value pair of each token;
/// a token without `=` is malformed.
fn parse_headers(value: &[u8], out: &mut Vec<(Vec<u8>, Vec<u8>)>) -> (r: Result<(), ConfigError>)
    ensures
        ({
            let toks = spec_split1(value@, SPACE_BYTE);
            let sp = spec_headers_upto(toks, toks.len() as int);
            match r {
                Ok(_) => sp matches Ok(ps) && pair_views(final(out)@) == pair_views(old(out)@)
                    + ps,
                Err(e) => sp == Err::<Seq<(Seq<u8>, Seq<u8>)>, ConfigError>(e),
            }
        }),
{
    let toks = split1(value, SPACE_BYTE);
    let ghost tks = views(toks@);
    let mut j: usize = 0;
    while j < toks.len()
        invariant
            j <= toks@.len(),
            tks == views(toks@),
            tks == spec_split1(value@, SPACE_BYTE),
            spec_headers_upto(tks, j as int) matches Ok(ps) && pair_views(out@) == pair_views(
                old(out)@,
            ) + ps,
        decreases toks@.len() - j,
    {
        let tok = &toks[j];
        let ghost prev = pair_views(out@);
        proof {
            assert(tks[j as int] == toks@[j as int]@);
        }
        let pieces = split1(tok.as_slice(), EQ_BYTE);
        if pieces.len() < 2 {
            proof {
                lemma_split1_len(tok@, EQ_BYTE);
                assert(views(pieces@).len() < 2);
                assert(!spec_contains1(tks[j as int], EQ_BYTE));
                assert(spec_header_pair(tks[j as int]) == Err::<(Seq<u8>, Seq<u8>), ConfigError>(
                    ConfigError::Malformed,
                ));
                assert(spec_headers_upto(tks, j as int + 1) == Err::<
                    Seq<(Seq<u8>, Seq<u8>)>,
                    ConfigError,
                >(ConfigError::Malformed));
                lemma_headers_err_persists(tks, j as int + 1, tks.len() as int);
                assert(tks.len() == toks@.len());
            }
            return Err(ConfigError::Malformed);
        }
        proof {
            lemma_split1_len(tok@, EQ_BYTE);
        }
        let k0 = slice_to_vec(pieces[0].as_slice());
        let v0 = slice_to_vec(pieces[1].as_slice());
        out.push((k0, v0));
        proof {
            assert(views(pieces@)[0] == pieces@[0int]@);
            assert(views(pieces@)[1] == pieces@[1int]@);
            assert(pair_views(out@) =~= prev.push((pieces@[0int]@, pieces@[1int]@)));
        }
        j = j + 1;
    }
    proof {
        assert(tks.len() == toks@.len());
    }
    Ok(())
}

/// Resolves a source descriptor from the configuration resource for the
/// given ordered ticker list, selecting line `sel` (modulo the line
/// count), exactly as `spec_resolve_at` describes; any malformed clause,
/// unknown directive or unbound placeholder is a `ConfigError`.
pub fn resolve_at(config: &[u8], sel: usize, tickers: &Vec<Vec<u8>>) -> (r: Result<
    Source,
    ConfigError,
>)
    ensures
        match r {
            Ok(src) => spec_resolve_at(config@, sel as int, views(tickers@)) == Ok::<
                SourceView,
                ConfigError,
            >(src@),
            Err(e) => spec_resolve_at(config@, sel as int, views(tickers@)) == Err::<
                SourceView,
                ConfigError,
            >(e),
        },
{
    let ghost tv = views(tickers@);
    let lines = split1(config, NL_BYTE);
    let li = sel % lines.len();
    proof {
        assert(views(lines@)[li as int] == lines@[li as int]@);
        assert(li as int == sel as int % spec_split1(config@, NL_BYTE).len() as int);
    }
    let clauses = split2(lines[li].as_slice(), SEMI_BYTE, SPACE_BYTE);
    let ghost cvs = views(clauses@);
    let mut url: Vec<u8> = Vec::new();
    let mut path: Vec<u8> = Vec::new();
    let mut params: Vec<(Vec<u8>, Vec<u8>)> = Vec::new();
    let mut headers: Vec<(Vec<u8>, Vec<u8>)> = Vec::new();
    proof {
        assert(pair_views(params@) =~= Seq::<(Seq<u8>, Seq<u8>)>::empty());
        assert(pair_views(headers@) =~= Seq::<(Seq<u8>, Seq<u8>)>::empty());
    }
    let mut k: usize = 0;
    while k < clauses.len()
        invariant
            k <= clauses@.len(),
            cvs == views(clauses@),
            tv == views(tickers@),
            cvs == spec_split2(
                spec_split1(config@, NL_BYTE)[sel as int % spec_split1(
                    config@,
                    NL_BYTE,
                ).len() as int],
                SEMI_BYTE,
                SPACE_BYTE,
            ),
            spec_clauses_upto(cvs, k as int, tv) == Ok::<SourceView, ConfigError>(SourceView {
                url: url@,
                path: path@,
                params: pair_views(params@),
                headers: pair_views(headers@),
            }),
        decreases clauses@.len() - k,
    {
        let ghost sv_before = SourceView {
            url: url@,
            path: path@,
            params: pair_views(params@),
            headers: pair_views(headers@),
        };
        let clause = &clauses[k];
        proof {
            assert(cvs[k as int] == clauses@[k as int]@);
        }
        let pieces = split2(clause.as_slice(), COLON_BYTE, SPACE_BYTE);
        if pieces.len() < 2 {
            proof {
                assert(spec_apply_clause(sv_before, cvs[k as int], tv) is Err);
                lemma_clauses_err_persists(cvs, k as int + 1, cvs.len() as int, tv);
            }
            return Err(ConfigError::Malformed);
        }
        proof {
            assert(views(pieces@)[0] == pieces@[0int]@);
            assert(views(pieces@)[1] == pieces@[1int]@);
        }
        let key = &pieces[0];
        let value = &pieces[1];
        let kw_u = kw_url_base_vec();
        let kw_p = kw_path_vec();
        let kw_q = kw_params_vec();
        let kw_h = kw_headers_vec();
        if bytes_eq(key.as_slice(), kw_u.as_slice()) {
            url = slice_to_vec(value.as_slice());
        } else if bytes_eq(key.as_slice(), kw_p.as_slice()) {
            path = slice_to_vec(value.as_slice());
        } else if bytes_eq(key.as_slice(), kw_q.as_slice()) {
            match parse_params(value.as_slice(), tickers, &mut params) {
                Ok(_) => {},
                Err(e) => {
                    proof {
                        assert(spec_apply_clause(sv_before, cvs[k as int], tv) == Err::<
                            SourceView,
                            ConfigError,
                        >(e));
                        lemma_clauses_err_persists(cvs, k as int + 1, cvs.len() as int, tv);
                    }
                    return Err(e);
                },
            }
        } else if bytes_eq(key.as_slice(), kw_h.as_slice()) {
            match parse_headers(value.as_slice(), &mut headers) {
                Ok(_) => {},
                Err(e) => {
                    proof {
                        assert(spec_apply_clause(sv_before, cvs[k as int], tv) == Err::<
                            SourceView,
                            ConfigError,
                        >(e));
                        lemma_clauses_err_persists(cvs, k as int + 1, cvs.len() as int, tv);
                    }
                    return Err(e);
                },
            }
        } else {
            proof {
                assert(spec_apply_clause(sv_before, cvs[k as int], tv) == Err::<
                    SourceView,
                    ConfigError,
                >(ConfigError::UnknownDirective));
                lemma_clauses_err_persists(cvs, k as int + 1, cvs.len() as int, tv);
            }
            return Err(ConfigError::UnknownDirective);
        }
        proof {
            assert(spec_apply_clause(sv_before, cvs[k as int], tv) == Ok::<
                SourceView,
                ConfigError,
            >(SourceView {
                url: url@,
                path: path@,
                params: pair_views(params@),
                headers: pair_views(headers@),
            }));
        }
        k = k + 1;
    }
    proof {
        assert(cvs.len() == clauses@.len());
    }
    Ok(Source { url, path, params, headers })
}

/// Resolves a source descriptor under the default selection policy: the
/// first line of the resource.
pub fn resolve(config: &[u8], tickers: &Vec<Vec<u8>>) -> (r: Result<Source, ConfigError>)
    ensures
        match r {
            Ok(src) => spec_resolve(config@, views(tickers@)) == Ok::<SourceView, ConfigError>(
                src@,
            ),
            Err(e) => spec_resolve(config@, views(tickers@)) == Err::<SourceView, ConfigError>(e),
        },
{
    resolve_at(config, 0, tickers)
}

/// The ampersand byte (ASCII `&`).
pub const AMP_BYTE: u8 = 38;

/// The question-mark byte (ASCII `?`).
pub const QMARK_BYTE: u8 = 63;

/// The `&`-joined `key=value` rendering of the first `n` parameters.
pub open spec fn spec_query_upto(params: Seq<(Seq<u8>, Seq<u8>)>, n: int) -> Seq<u8>
    decreases n,
{
    if n <= 0 {
        Seq::empty()
    } else {
        let piece = params[n - 1].0 + seq![EQ_BYTE] + params[n - 1].1;
        if n == 1 {
            piece
        } else {
            spec_query_upto(params, n - 1) + seq![AMP_BYTE] + piece
        }
    }
}

/// The effective URL of a descriptor: the base, the path, and — when any
/// parameter is present — a `?` and the encoded parameters.
pub open spec fn spec_effective_url(sv: SourceView) -> Seq<u8> {
    if sv.params.len() == 0 {
        sv.url + sv.path
    } else {
        sv.url + sv.path + seq![QMARK_BYTE] + spec_query_upto(sv.params, sv.params.len() as int)
    }
}

fn append_bytes(dst: &mut Vec<u8>, src: &[u8])
    ensures
        final(dst)@ == old(dst)@ + src@,
{
    let mut i: usize = 0;
    while i < src.len()
        invariant
            i <= src@.len(),
            dst@ == old(dst)@ + src@.take(i as int),
        decreases src@.len() - i,
    {
        dst.push(src[i]);
        proof {
            assert(old(dst)@ + src@.take(i as int + 1) =~= (old(dst)@ + src@.take(i as int)).push(
                src@[i as int],
            ));
        }
        i = i + 1;
    }
    proof {
        assert(src@.take(src@.len() as int) =~= src@);
    }
}

impl Source {
    /// The effective URL the descriptor's fetch addresses, exactly as
    /// `spec_effective_url` describes.
    pub fn effective_url(&self) -> (u: Vec<u8>)
        ensures
            u@ == spec_effective_url(self@),
    {
        let mut u: Vec<u8> = Vec::new();
        append_bytes(&mut u, self.url.as_slice());
        append_bytes(&mut u, self.path.as_slice());
        proof {
            assert(Seq::<u8>::empty() + self.url@ + self.path@ =~= self.url@ + self.path@);
        }
        if self.params.len() == 0 {
            return u;
        }
        u.push(QMARK_BYTE);
        let ghost head = self.url@ + self.path@ + seq![QMARK_BYTE];
        let ghost pv = pair_views(self.params@);
        proof {
            assert(u@ =~= head);
        }
        let mut i: usize = 0;
        while i < self.params.len()
            invariant
                i <= self.params@.len(),
                pv == pair_views(self.params@),
                head == self.url@ + self.path@ + seq![QMARK_BYTE],
                u@ == head + spec_query_upto(pv, i as int),
            decreases self.params@.len() - i,
        {
            let ghost before = u@;
            if i > 0 {
                u.push(AMP_BYTE);
            }
            append_bytes(&mut u, self.params[i].0.as_slice());
            u.push(EQ_BYTE);
            append_bytes(&mut u, self.params[i].1.as_slice());
            proof {
                assert(pv[i as int] == (self.params@[i as int].0@, self.params@[i as int].1@));
                let piece = pv[i as int].0 + seq![EQ_BYTE] + pv[i as int].1;
                if i == 0 {
                    assert(u@ =~= head + piece);
                    assert(spec_query_upto(pv, 1) == piece);
                } else {
                    assert(u@ =~= head + (spec_query_upto(pv, i as int) + seq![AMP_BYTE]
                        + piece));
                }
            }
            i = i + 1;
        }
        proof {
            assert(pv.len() == self.params@.len());
        }
        u
    }
}

} // verus!

//! The rate parser: decodes a fetched response body into a table of
//! integer prices ("cents" scale) and extracts the one for a requested
//! quote currency.
//!
//! The body must be JSON text with a `rates` object mapping currency codes
//! to numbers; each rate is normalized by multiplying by one hundred and
//! truncating toward zero, reinterpreted as unsigned (a negative rate wraps
//! around — a documented edge of the normalization, kept as observed).

use vstd::prelude::*;
use vstd::slice::slice_to_vec;
use crate::decimal::spec_price_of_text;
use crate::decimal::price_of_text;
use crate::source::pair_views;

verus! {

/// Why a response body was rejected.
#[derive(Clone, Copy, Debug, PartialEq, Eq, Structural)]
pub enum ParseError {
    /// Not JSON, or no `rates` object of numbers.
    Malformed,
    /// A well-formed table that lacks the requested quote currency.
    MissingQuote,
}

/// The raw rate table a response body decodes to: currency code bytes
/// paired with the decoder's canonical decimal text of the rate, in the
/// decoder's fixed key order; none when the body is not a JSON object with
/// a `rates` object of numbers. The table is a function of the body bytes
/// alone.
pub uninterp spec fn raw_rates(body: Seq<u8>) -> Option<Seq<(Seq<u8>, Seq<u8>)>>;

/// The views of a sequence of rate-table entries.
pub open spec fn entry_views(es: Seq<(Vec<u8>, u32)>) -> Seq<(Seq<u8>, u32)> {
    es.map_values(|e: (Vec<u8>, u32)| (e.0@, e.1))
}

/// A decoded table of normalized rates, consumed immediately to produce
/// one integer price.
pub struct Rates {
    entries: Vec<(Vec<u8>, u32)>,
}

impl View for Rates {
    type V = Seq<(Seq<u8>, u32)>;

    closed spec fn view(&self) -> Seq<(Seq<u8>, u32)> {
        entry_views(self.entries@)
    }
}

/// The price of the first entry whose currency code equals `quote`.
pub open spec fn spec_lookup(entries: Seq<(Seq<u8>, u32)>, quote: Seq<u8>) -> Option<u32>
    decreases entries.len(),
{
    if entries.len() == 0 {
        None
    } else if entries[0].0 == quote {
        Some(entries[0].1)
    } else {
        spec_lookup(entries.drop_first(), quote)
    }
}

proof fn lemma_lookup_at(entries: Seq<(Seq<u8>, u32)>, quote: Seq<u8>, i: int)
    requires
        0 <= i < entries.len(),
        entries[i].0 == quote,
        forall|j: int| 0 <= j < i ==> #[trigger] entries[j].0 != quote,
    ensures
        spec_lookup(entries, quote) == Some(entries[i].1),
    decreases i,
{
    if entries[0].0 == quote {
        assert(i == 0);
    } else {
        let t = entries.drop_first();
        assert(t[i - 1] == entries[i]);
        assert forall|j: int| 0 <= j < i - 1 implies #[trigger] t[j].0 != quote by {
            assert(t[j] == entries[j + 1]);
        }
        lemma_lookup_at(t, quote, i - 1);
    }
}

proof fn lemma_lookup_none(entries: Seq<(Seq<u8>, u32)>, quote: Seq<u8>)
    requires
        forall|j: int| 0 <= j < entries.len() ==> #[trigger] entries[j].0 != quote,
    ensures
        spec_lookup(entries, quote) is None,
    decreases entries.len(),
{
    if entries.len() > 0 {
        let t = entries.drop_first();
        assert forall|j: int| 0 <= j < t.len() implies #[trigger] t[j].0 != quote by {
            assert(t[j] == entries[j + 1]);
        }
        lemma_lookup_none(t, quote);
    }
}

impl Rates {
    /// The price recorded for `quote`, if the table has one.
    pub fn rate(&self, quote: &[u8]) -> (r: Option<u32>)
        ensures
            r == spec_lookup(self@, quote@),
    {
        let mut i: usize = 0;
        while i < self.entries.len()
            invariant
                i <= self.entries@.len(),
                forall|j: int| 0 <= j < i ==> #[trigger] entry_views(self.entries@)[j].0
                    != quote@,
            decreases self.entries@.len() - i,
        {
            if crate::text::bytes_eq(self.entries[i].0.as_slice(), quote) {
                proof {
                    assert(entry_views(self.entries@)[i as int].0 == quote@);
                    lemma_lookup_at(entry_views(self.entries@), quote@, i as int);
                }
                return Some(self.entries[i].1);
            }
            proof {
                assert(entry_views(self.entries@)[i as int].0 == self.entries@[i as int].0@);
            }
            i = i + 1;
        }
        proof {
            lemma_lookup_none(entry_views(self.entries@), quote@);
        }
        None
    }
}

/// Relies on `serde_json::from_slice` to decode the body as JSON, on
/// `serde_json::Value::get`/`as_object` to select the `rates` object, and
/// on the `Display` rendering of `serde_json::Value` for each number. All
/// are functions of the body bytes alone (the object map iterates in
/// sorted key order), so the raw table is only named, as `raw_rates`, not
/// restated.
#[verifier::external_body]
pub fn parse_json(body: &[u8]) -> (r: Option<Vec<(Vec<u8>, Vec<u8>)>>)
    ensures
        match r {
            Some(raw) => raw_rates(body@) == Some(pair_views(raw@)),
            None => raw_rates(body@) is None,
        },
{
    let v: serde_json::Value = serde_json::from_slice(body).ok()?;
    let obj = v.get("rates")?.as_object()?;
    let mut entries: Vec<(Vec<u8>, Vec<u8>)> = Vec::new();
    for (key, val) in obj {
        match val {
            serde_json::Value::Number(n) => {
                entries.push((key.as_bytes().to_vec(), n.to_string().into_bytes()))
            },
            _ => return None,
        }
    }
    Some(entries)
}

/// The normalized table a raw table's first `n` entries yield: each rate
/// text normalized to its integer price; none when any text is malformed.
pub open spec fn spec_table_upto(raw: Seq<(Seq<u8>, Seq<u8>)>, n: int) -> Option<
    Seq<(Seq<u8>, u32)>,
> decreases n,
{
    if n <= 0 {
        Some(Seq::empty())
    } else {
        match spec_table_upto(raw, n - 1) {
            None => None,
            Some(es) => match spec_price_of_text(raw[n - 1].1) {
                None => None,
                Some(p) => Some(es.push((raw[n - 1].0, p))),
            },
        }
    }
}

/// The normalized table a whole raw table yields.
pub open spec fn spec_table(raw: Seq<(Seq<u8>, Seq<u8>)>) -> Option<Seq<(Seq<u8>, u32)>> {
    spec_table_upto(raw, raw.len() as int)
}

pub proof fn lemma_table_none_persists(raw: Seq<(Seq<u8>, Seq<u8>)>, n: int, m: int)
    requires
        0 <= n <= m,
        spec_table_upto(raw, n) is None,
    ensures
        spec_table_upto(raw, m) is None,
    decreases m - n,
{
    if m > n {
        lemma_table_none_persists(raw, n, m - 1);
    }
}

impl Rates {
    /// Normalizes a raw decoded table into a rate table; none when any
    /// rate text is malformed.
    pub fn from_raw(raw: &Vec<(Vec<u8>, Vec<u8>)>) -> (r: Option<Rates>)
        ensures
            match r {
                Some(t) => spec_table(pair_views(raw@)) == Some(t@),
                None => spec_table(pair_views(raw@)) is None,
            },
    {
        let ghost rv = pair_views(raw@);
        let mut entries: Vec<(Vec<u8>, u32)> = Vec::new();
        let mut j: usize = 0;
        while j < raw.len()
            invariant
                j <= raw@.len(),
                rv == pair_views(raw@),
                spec_table_upto(rv, j as int) == Some(entry_views(entries@)),
            decreases raw@.len() - j,
        {
            proof {
                assert(rv[j as int] == (raw@[j as int].0@, raw@[j as int].1@));
            }
            let ghost prev = entry_views(entries@);
            match price_of_text(raw[j].1.as_slice()) {
                None => {
                    proof {
                        assert(spec_table_upto(rv, j as int + 1) is None);
                        lemma_table_none_persists(rv, j as int + 1, rv.len() as int);
                        assert(rv.len() == raw@.len());
                    }
                    return None;
                },
                Some(p) => {
                    let code = slice_to_vec(raw[j].0.as_slice());
                    entries.push((code, p));
                    proof {
                        assert(entry_views(entries@) =~= prev.push((raw@[j as int].0@, p)));
                    }
                },
            }
            j = j + 1;
        }
        proof {
            assert(rv.len() == raw@.len());
        }
        Some(Rates { entries })
    }
}

/// What `parse` returns, in terms of the named raw table: the normalized
/// price recorded for `quote`; `Malformed` when the body decodes to no
/// table or a rate text is malformed; `MissingQuote` when the table lacks
/// the quote — never a default value.
pub open spec fn spec_parse(body: Seq<u8>, quote: Seq<u8>) -> Result<u32, ParseError> {
    match raw_rates(body) {
        None => Err(ParseError::Malformed),
        Some(raw) => match spec_table(raw) {
            None => Err(ParseError::Malformed),
            Some(entries) => match spec_lookup(entries, quote) {
                Some(p) => Ok(p),
                None => Err(ParseError::MissingQuote),
            },
        },
    }
}

/// Decodes `body` and extracts the normalized integer price for `quote`.
pub fn parse(body: &[u8], quote: &[u8]) -> (r: Result<u32, ParseError>)
    ensures
        r == spec_parse(body@, quote@),
{
    match parse_json(body) {
        None => Err(ParseError::Malformed),
        Some(raw) => match Rates::from_raw(&raw) {
            None => Err(ParseError::Malformed),
            Some(table) => match table.rate(quote) {
                Some(p) => Ok(p),
                None => Err(ParseError::MissingQuote),
            },
        },
    }
}

} // verus!

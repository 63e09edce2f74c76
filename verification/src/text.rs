//! Byte-string utilities for the configuration grammar: first-occurrence
//! search and leftmost splitting on one- and two-byte separators.

use vstd::prelude::*;
use vstd::slice::{slice_subrange, slice_to_vec};

verus! {

/// The line feed byte (ASCII `\n`).
pub const NL_BYTE: u8 = 10;

/// The space byte (ASCII ` `).
pub const SPACE_BYTE: u8 = 32;

/// The colon byte (ASCII `:`).
pub const COLON_BYTE: u8 = 58;

/// The semicolon byte (ASCII `;`).
pub const SEMI_BYTE: u8 = 59;

/// The equals-sign byte (ASCII `=`).
pub const EQ_BYTE: u8 = 61;

/// The views of a sequence of byte vectors.
pub open spec fn views(parts: Seq<Vec<u8>>) -> Seq<Seq<u8>> {
    parts.map_values(|p: Vec<u8>| p@)
}

/// Position of the first occurrence of byte `c` in `s`, if any.
pub open spec fn spec_find1(s: Seq<u8>, c: u8) -> Option<int>
    decreases s.len(),
{
    if s.len() == 0 {
        None
    } else if s[0] == c {
        Some(0int)
    } else {
        match spec_find1(s.drop_first(), c) {
            Some(i) => Some(i + 1),
            None => None,
        }
    }
}

/// Position of the first occurrence of the two-byte separator `a b` in `s`,
/// if any.
pub open spec fn spec_find2(s: Seq<u8>, a: u8, b: u8) -> Option<int>
    decreases s.len(),
{
    if s.len() < 2 {
        None
    } else if s[0] == a && s[1] == b {
        Some(0int)
    } else {
        match spec_find2(s.drop_first(), a, b) {
            Some(i) => Some(i + 1),
            None => None,
        }
    }
}

pub proof fn lemma_find1_props(s: Seq<u8>, c: u8)
    ensures
        match spec_find1(s, c) {
            Some(i) => 0 <= i < s.len() && s[i] == c && (forall|j: int| 0 <= j < i ==> s[j] != c),
            None => forall|j: int| 0 <= j < s.len() ==> s[j] != c,
        },
    decreases s.len(),
{
    if s.len() == 0 {
    } else if s[0] == c {
    } else {
        let t = s.drop_first();
        lemma_find1_props(t, c);
        match spec_find1(t, c) {
            Some(i) => {
                assert(s[i + 1] == t[i]);
                assert forall|j: int| 0 <= j < i + 1 implies s[j] != c by {
                    if j > 0 {
                        assert(t[j - 1] == s[j]);
                    }
                }
            },
            None => {
                assert forall|j: int| 0 <= j < s.len() implies s[j] != c by {
                    if j > 0 {
                        assert(t[j - 1] == s[j]);
                    }
                }
            },
        }
    }
}

pub proof fn lemma_find2_props(s: Seq<u8>, a: u8, b: u8)
    ensures
        match spec_find2(s, a, b) {
            Some(i) => 0 <= i && i + 2 <= s.len() && s[i] == a && s[i + 1] == b && (forall|j: int|
                0 <= j < i ==> !(#[trigger] s[j] == a && s[j + 1] == b)),
            None => forall|j: int| 0 <= j && j + 2 <= s.len() ==> !(#[trigger] s[j] == a && s[j + 1] == b),
        },
    decreases s.len(),
{
    if s.len() < 2 {
    } else if s[0] == a && s[1] == b {
    } else {
        let t = s.drop_first();
        lemma_find2_props(t, a, b);
        match spec_find2(t, a, b) {
            Some(i) => {
                assert(s[i + 1] == t[i]);
                assert(s[i + 2] == t[i + 1]);
                assert forall|j: int| 0 <= j < i + 1 implies !(#[trigger] s[j] == a && s[j + 1] == b) by {
                    if j > 0 {
                        assert(t[j - 1] == s[j]);
                        assert(t[j] == s[j + 1]);
                    }
                }
            },
            None => {
                assert forall|j: int| 0 <= j && j + 2 <= s.len() implies !(#[trigger] s[j] == a && s[j + 1]
                    == b) by {
                    if j > 0 {
                        assert(t[j - 1] == s[j]);
                        assert(t[j] == s[j + 1]);
                    }
                }
            },
        }
    }
}

/// If `i` is a first occurrence of `c` in `s`, the search finds exactly `i`.
pub proof fn lemma_find1_at(s: Seq<u8>, c: u8, i: int)
    requires
        0 <= i < s.len(),
        s[i] == c,
        forall|j: int| 0 <= j < i ==> s[j] != c,
    ensures
        spec_find1(s, c) == Some(i),
    decreases i,
{
    if s[0] == c {
        assert(i == 0);
    } else {
        let t = s.drop_first();
        assert(t[i - 1] == s[i]);
        assert forall|j: int| 0 <= j < i - 1 implies t[j] != c by {
            assert(t[j] == s[j + 1]);
        }
        lemma_find1_at(t, c, i - 1);
    }
}

/// If `i` is a first occurrence of the pair `a b` in `s`, the search finds
/// exactly `i`.
pub proof fn lemma_find2_at(s: Seq<u8>, a: u8, b: u8, i: int)
    requires
        0 <= i,
        i + 2 <= s.len(),
        s[i] == a,
        s[i + 1] == b,
        forall|j: int| 0 <= j < i ==> !(#[trigger] s[j] == a && s[j + 1] == b),
    ensures
        spec_find2(s, a, b) == Some(i),
    decreases i,
{
    if s[0] == a && s[1] == b {
        assert(i == 0);
    } else {
        let t = s.drop_first();
        assert(t[i - 1] == s[i]);
        assert(t[i] == s[i + 1]);
        assert forall|j: int| 0 <= j < i - 1 implies !(#[trigger] t[j] == a && t[j + 1] == b) by {
            assert(t[j] == s[j + 1]);
            assert(t[j + 1] == s[j + 2]);
        }
        lemma_find2_at(t, a, b, i - 1);
    }
}

/// `s` split on byte `c`, leftmost separator first; always at least one part.
pub open spec fn spec_split1(s: Seq<u8>, c: u8) -> Seq<Seq<u8>>
    decreases s.len(),
{
    match spec_find1(s, c) {
        None => seq![s],
        Some(i) => if 0 <= i && i + 1 <= s.len() {
            seq![s.take(i)] + spec_split1(s.skip(i + 1), c)
        } else {
            seq![s]
        },
    }
}

/// `s` split on the two-byte separator `a b`, leftmost separator first;
/// always at least one part.
pub open spec fn spec_split2(s: Seq<u8>, a: u8, b: u8) -> Seq<Seq<u8>>
    decreases s.len(),
{
    match spec_find2(s, a, b) {
        None => seq![s],
        Some(i) => if 0 <= i && i + 2 <= s.len() {
            seq![s.take(i)] + spec_split2(s.skip(i + 2), a, b)
        } else {
            seq![s]
        },
    }
}

pub proof fn lemma_split1_len(s: Seq<u8>, c: u8)
    ensures
        spec_split1(s, c).len() >= 1,
        spec_find1(s, c) is Some ==> spec_split1(s, c).len() >= 2,
{
    lemma_find1_props(s, c);
    match spec_find1(s, c) {
        None => {},
        Some(i) => {
            lemma_split1_len_rec(s.skip(i + 1), c);
        },
    }
}

proof fn lemma_split1_len_rec(s: Seq<u8>, c: u8)
    ensures
        spec_split1(s, c).len() >= 1,
{
    lemma_find1_props(s, c);
}

/// Whether `s` contains byte `c` at all.
pub open spec fn spec_contains1(s: Seq<u8>, c: u8) -> bool {
    spec_find1(s, c) is Some
}

/// Finds the first occurrence of `c` in `s` at or after `from`.
pub fn find1_from(s: &[u8], from: usize, c: u8) -> (r: Option<usize>)
    requires
        from <= s@.len(),
    ensures
        match r {
            Some(i) => from <= i && i < s@.len() && spec_find1(s@.skip(from as int), c) == Some(
                i - from as int,
            ),
            None => spec_find1(s@.skip(from as int), c) is None,
        },
{
    let ghost t = s@.skip(from as int);
    let mut i: usize = from;
    while i < s.len()
        invariant
            from <= i <= s@.len(),
            t == s@.skip(from as int),
            forall|j: int| from <= j < i ==> s@[j] != c,
        decreases s@.len() - i,
    {
        if s[i] == c {
            proof {
                assert(t[i - from as int] == s@[i as int]);
                assert forall|j: int| 0 <= j < i - from as int implies t[j] != c by {
                    assert(t[j] == s@[j + from]);
                }
                lemma_find1_at(t, c, i - from as int);
            }
            return Some(i);
        }
        i = i + 1;
    }
    proof {
        lemma_find1_props(t, c);
        if let Some(k) = spec_find1(t, c) {
            assert(t[k] == s@[k + from]);
            assert(false);
        }
    }
    None
}

/// Finds the first occurrence of the pair `a b` in `s` at or after `from`.
pub fn find2_from(s: &[u8], from: usize, a: u8, b: u8) -> (r: Option<usize>)
    requires
        from <= s@.len(),
    ensures
        match r {
            Some(i) => from <= i && i + 2 <= s@.len() && spec_find2(s@.skip(from as int), a, b)
                == Some(i - from as int),
            None => spec_find2(s@.skip(from as int), a, b) is None,
        },
{
    let ghost t = s@.skip(from as int);
    let mut i: usize = from;
    while s.len() - i > 1
        invariant
            from <= i,
            i <= s@.len(),
            t == s@.skip(from as int),
            forall|j: int| from <= j < i ==> !(#[trigger] s@[j] == a && s@[j + 1] == b),
        decreases s@.len() - i,
    {
        if s[i] == a && s[i + 1] == b {
            proof {
                assert(t[i - from as int] == s@[i as int]);
                assert(t[i - from as int + 1] == s@[i as int + 1]);
                assert forall|j: int| 0 <= j < i - from as int implies !(#[trigger] t[j] == a && t[j + 1]
                    == b) by {
                    assert(t[j] == s@[j + from]);
                    assert(t[j + 1] == s@[j + from + 1]);
                }
                lemma_find2_at(t, a, b, i - from as int);
            }
            return Some(i);
        }
        i = i + 1;
    }
    proof {
        lemma_find2_props(t, a, b);
        if let Some(k) = spec_find2(t, a, b) {
            assert(t[k] == s@[k + from]);
            assert(t[k + 1] == s@[k + from + 1]);
            assert(false);
        }
    }
    None
}

/// Splits `s` on byte `c`: the leftmost-first decomposition of
/// `spec_split1`.
pub fn split1(s: &[u8], c: u8) -> (parts: Vec<Vec<u8>>)
    ensures
        views(parts@) == spec_split1(s@, c),
        parts@.len() >= 1,
{
    let parts = split1_from(s, 0, c);
    proof {
        assert(s@.skip(0) =~= s@);
    }
    parts
}

fn split1_from(s: &[u8], from: usize, c: u8) -> (parts: Vec<Vec<u8>>)
    requires
        from <= s@.len(),
    ensures
        views(parts@) == spec_split1(s@.skip(from as int), c),
        parts@.len() >= 1,
    decreases s@.len() - from,
{
    let ghost t = s@.skip(from as int);
    match find1_from(s, from, c) {
        None => {
            let tok = slice_to_vec(slice_subrange(s, from, s.len()));
            let mut parts: Vec<Vec<u8>> = Vec::new();
            parts.push(tok);
            proof {
                assert(tok@ =~= t);
                assert(views(parts@) =~= seq![t]);
            }
            parts
        },
        Some(i) => {
            let n: usize = s.len();
            let tok = slice_to_vec(slice_subrange(s, from, i));
            let mut parts = split1_from(s, i + 1, c);
            let ghost rest = views(parts@);
            parts.insert(0, tok);
            proof {
                assert(t.take(i - from as int) =~= s@.subrange(from as int, i as int));
                assert(t.skip(i - from as int + 1) =~= s@.skip(i as int + 1));
                assert(views(parts@) =~= seq![tok@] + rest);
            }
            parts
        },
    }
}

/// Splits `s` on the two-byte separator `a b`: the leftmost-first
/// decomposition of `spec_split2`.
pub fn split2(s: &[u8], a: u8, b: u8) -> (parts: Vec<Vec<u8>>)
    ensures
        views(parts@) == spec_split2(s@, a, b),
        parts@.len() >= 1,
{
    let parts = split2_from(s, 0, a, b);
    proof {
        assert(s@.skip(0) =~= s@);
    }
    parts
}

fn split2_from(s: &[u8], from: usize, a: u8, b: u8) -> (parts: Vec<Vec<u8>>)
    requires
        from <= s@.len(),
    ensures
        views(parts@) == spec_split2(s@.skip(from as int), a, b),
        parts@.len() >= 1,
    decreases s@.len() - from,
{
    let ghost t = s@.skip(from as int);
    match find2_from(s, from, a, b) {
        None => {
            let tok = slice_to_vec(slice_subrange(s, from, s.len()));
            let mut parts: Vec<Vec<u8>> = Vec::new();
            parts.push(tok);
            proof {
                assert(tok@ =~= t);
                assert(views(parts@) =~= seq![t]);
            }
            parts
        },
        Some(i) => {
            let n: usize = s.len();
            let tok = slice_to_vec(slice_subrange(s, from, i));
            let mut parts = split2_from(s, i + 2, a, b);
            let ghost rest = views(parts@);
            parts.insert(0, tok);
            proof {
                assert(t.take(i - from as int) =~= s@.subrange(from as int, i as int));
                assert(t.skip(i - from as int + 2) =~= s@.skip(i as int + 2));
                assert(views(parts@) =~= seq![tok@] + rest);
            }
            parts
        },
    }
}

/// Byte-for-byte equality of two byte strings.
pub fn bytes_eq(x: &[u8], y: &[u8]) -> (r: bool)
    ensures
        r == (x@ == y@),
{
    if x.len() != y.len() {
        return false;
    }
    let mut i: usize = 0;
    while i < x.len()
        invariant
            x@.len() == y@.len(),
            i <= x@.len(),
            forall|j: int| 0 <= j < i ==> x@[j] == y@[j],
        decreases x@.len() - i,
    {
        if x[i] != y[i] {
            return false;
        }
        i = i + 1;
    }
    proof {
        assert(x@ =~= y@);
    }
    true
}

} // verus!

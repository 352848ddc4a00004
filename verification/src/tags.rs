//! The tag normalizer: arbitrary text becomes a canonical slug made of
//! lowercase ASCII letters and digits with single hyphens between words.
//!
//! Every character of the input contributes a short run of raw slug
//! characters (letters and digits kept, uppercase lowered, everything
//! else a hyphen; characters outside ASCII go through a transliteration
//! table first).  Runs of hyphens are then collapsed to one, and leading
//! and trailing hyphens are trimmed.

use vstd::prelude::*;
use vstd::string::StrSliceExecFns;

use crate::strutil::chars_to_string;

verus! {

// ---------------------------------------------------------------------------
// One character at a time
// ---------------------------------------------------------------------------

/// A character that may appear in a slug besides the separator.
pub open spec fn is_slug_char(c: char) -> bool {
    (('a' as u32) <= (c as u32) && (c as u32) <= ('z' as u32)) || (('0' as u32) <= (c as u32) && (
    c as u32) <= ('9' as u32))
}

/// An uppercase ASCII letter.
pub open spec fn is_ascii_upper(c: char) -> bool {
    ('A' as u32) <= (c as u32) && (c as u32) <= ('Z' as u32)
}

/// The lowercase counterpart of an uppercase ASCII letter.
pub open spec fn lower_ascii(c: char) -> char {
    (((c as u32) + 32) as char)
}

/// What a single ASCII character contributes to the raw slug: letters
/// and digits survive (lowercased), everything else is a separator.
pub open spec fn fold_ascii_char(c: char) -> char {
    if is_slug_char(c) {
        c
    } else if is_ascii_upper(c) {
        lower_ascii(c)
    } else {
        '-'
    }
}

/// The ASCII transliteration that `deunicode::deunicode_char` gives a
/// character, `None` where the table has no entry: a pure table lookup
/// that depends on the character alone.
pub uninterp spec fn transliteration_of(c: char) -> Option<Seq<char>>;

/// The raw slug characters contributed by one input character.
pub open spec fn fold_char(c: char) -> Seq<char> {
    if (c as u32) < 128 {
        seq![fold_ascii_char(c)]
    } else {
        match transliteration_of(c) {
            Some(t) => t.map_values(|d: char| fold_ascii_char(d)),
            None => seq!['-'],
        }
    }
}

/// The raw slug of a text: each character's contribution, concatenated.
pub open spec fn raw_slug(s: Seq<char>) -> Seq<char>
    decreases s.len(),
{
    if s.len() == 0 {
        Seq::empty()
    } else {
        raw_slug(s.drop_last()) + fold_char(s.last())
    }
}

// ---------------------------------------------------------------------------
// Collapsing separator runs, trimming the ends
// ---------------------------------------------------------------------------

/// The collapse of the first `i` raw characters: a separator is dropped
/// when the raw character just before it is a separator too.
pub open spec fn collapse_upto(s: Seq<char>, i: int) -> Seq<char>
    decreases i,
{
    if i <= 0 {
        Seq::empty()
    } else if s[i - 1] == '-' && i - 1 > 0 && s[i - 2] == '-' {
        collapse_upto(s, i - 1)
    } else {
        collapse_upto(s, i - 1).push(s[i - 1])
    }
}

/// The raw slug with separator runs collapsed to a single separator.
pub open spec fn collapse_seps(s: Seq<char>) -> Seq<char> {
    collapse_upto(s, s.len() as int)
}

/// Leading separators removed.
pub open spec fn trim_start_seps(s: Seq<char>) -> Seq<char>
    decreases s.len(),
{
    if s.len() > 0 && s[0] == '-' {
        trim_start_seps(s.drop_first())
    } else {
        s
    }
}

/// Trailing separators removed.
pub open spec fn trim_end_seps(s: Seq<char>) -> Seq<char>
    decreases s.len(),
{
    if s.len() > 0 && s.last() == '-' {
        trim_end_seps(s.drop_last())
    } else {
        s
    }
}

/// The canonical slug of a text.
pub open spec fn normalize_spec(s: Seq<char>) -> Seq<char> {
    trim_end_seps(trim_start_seps(collapse_seps(raw_slug(s))))
}

/// A sequence already in canonical slug form: only slug characters and
/// single separators, none of them at either end.
pub open spec fn canonical(s: Seq<char>) -> bool {
    &&& forall|i: int| 0 <= i < s.len() ==> is_slug_char(#[trigger] s[i]) || s[i] == '-'
    &&& forall|i: int| 0 <= i && i + 1 < s.len() ==> !(#[trigger] s[i] == '-' && s[i + 1] == '-')
    &&& (s.len() > 0 ==> s[0] != '-' && s.last() != '-')
}

// ---------------------------------------------------------------------------
// Facts about the pieces
// ---------------------------------------------------------------------------

/// Folding one ASCII character lands in the slug alphabet.
proof fn lemma_fold_ascii_alphabet(c: char)
    ensures
        is_slug_char(fold_ascii_char(c)) || fold_ascii_char(c) == '-',
{
    if !is_slug_char(c) && is_ascii_upper(c) {
        assert((lower_ascii(c) as u32) == (c as u32) + 32);
    }
}

/// Every raw character contributed by any input character is in the
/// slug alphabet.
proof fn lemma_fold_char_alphabet(c: char)
    ensures
        forall|j: int|
            0 <= j < fold_char(c).len() ==> is_slug_char(#[trigger] fold_char(c)[j]) || fold_char(
                c,
            )[j] == '-',
{
    assert forall|j: int| 0 <= j < fold_char(c).len() implies is_slug_char(
        #[trigger] fold_char(c)[j],
    ) || fold_char(c)[j] == '-' by {
        if (c as u32) < 128 {
            lemma_fold_ascii_alphabet(c);
        } else {
            match transliteration_of(c) {
                Some(t) => {
                    lemma_fold_ascii_alphabet(t[j]);
                },
                None => {},
            }
        }
    }
}

/// The whole raw slug stays in the slug alphabet.
proof fn lemma_raw_slug_alphabet(s: Seq<char>)
    ensures
        forall|j: int|
            0 <= j < raw_slug(s).len() ==> is_slug_char(#[trigger] raw_slug(s)[j]) || raw_slug(
                s,
            )[j] == '-',
    decreases s.len(),
{
    if s.len() > 0 {
        lemma_raw_slug_alphabet(s.drop_last());
        lemma_fold_char_alphabet(s.last());
        let a = raw_slug(s.drop_last());
        let f = fold_char(s.last());
        assert forall|j: int| 0 <= j < raw_slug(s).len() implies is_slug_char(
            #[trigger] raw_slug(s)[j],
        ) || raw_slug(s)[j] == '-' by {
            if j < a.len() {
                assert(raw_slug(s)[j] == a[j]);
            } else {
                assert(raw_slug(s)[j] == f[j - a.len()]);
            }
        }
    }
}

/// Collapsing yields no two adjacent separators, keeps the alphabet,
/// and ends with a separator only where the raw text did.
proof fn lemma_collapse_props(s: Seq<char>, i: int)
    requires
        0 <= i <= s.len(),
        forall|j: int| 0 <= j < s.len() ==> is_slug_char(#[trigger] s[j]) || s[j] == '-',
    ensures
        forall|j: int|
            0 <= j && j + 1 < collapse_upto(s, i).len() ==> !(#[trigger] collapse_upto(s, i)[j]
                == '-' && collapse_upto(s, i)[j + 1] == '-'),
        forall|j: int|
            0 <= j < collapse_upto(s, i).len() ==> is_slug_char(#[trigger] collapse_upto(s, i)[j])
                || collapse_upto(s, i)[j] == '-',
        collapse_upto(s, i).len() > 0 && collapse_upto(s, i).last() == '-' ==> i > 0 && s[i - 1]
            == '-',
    decreases i,
{
    if i > 0 {
        lemma_collapse_props(s, i - 1);
        let u = collapse_upto(s, i - 1);
        let w = collapse_upto(s, i);
        let c = s[i - 1];
        if c == '-' && i - 1 > 0 && s[i - 2] == '-' {
            assert(w == u);
        } else {
            assert(w == u.push(c));
            assert(w.last() == c);
            if u.len() > 0 {
                assert(u.len() > 0 ==> i - 1 > 0);
                if c == '-' && u.last() == '-' {
                    assert(s[i - 2] == '-');
                    assert(false);
                }
            }
            assert forall|j: int| 0 <= j && j + 1 < w.len() implies !(#[trigger] w[j] == '-' && w[j
                + 1] == '-') by {
                if j + 1 < u.len() {
                    assert(w[j] == u[j] && w[j + 1] == u[j + 1]);
                } else {
                    assert(w[j] == u.last() && w[j + 1] == c);
                }
            }
            assert forall|j: int| 0 <= j < w.len() implies is_slug_char(#[trigger] w[j]) || w[j]
                == '-' by {
                if j < u.len() {
                    assert(w[j] == u[j]);
                } else {
                    assert(w[j] == c);
                }
            }
        }
    }
}

/// Collapsing a text without adjacent separators changes nothing.
proof fn lemma_collapse_identity(s: Seq<char>, i: int)
    requires
        0 <= i <= s.len(),
        forall|j: int| 0 <= j && j + 1 < s.len() ==> !(#[trigger] s[j] == '-' && s[j + 1] == '-'),
    ensures
        collapse_upto(s, i) == s.take(i),
    decreases i,
{
    if i > 0 {
        lemma_collapse_identity(s, i - 1);
        assert(s.take(i) =~= s.take(i - 1).push(s[i - 1]));
    } else {
        assert(s.take(0) =~= Seq::<char>::empty());
    }
}

/// On a text without adjacent separators, trimming the start removes at
/// most the first character.
proof fn lemma_trim_start_one(u: Seq<char>)
    requires
        forall|j: int| 0 <= j && j + 1 < u.len() ==> !(#[trigger] u[j] == '-' && u[j + 1] == '-'),
    ensures
        trim_start_seps(u) == if u.len() > 0 && u[0] == '-' {
            u.drop_first()
        } else {
            u
        },
{
    if u.len() > 0 && u[0] == '-' {
        let v = u.drop_first();
        assert(trim_start_seps(u) == trim_start_seps(v));
        if v.len() > 0 {
            assert(v[0] == u[1]);
            assert(v[0] != '-');
        }
        assert(trim_start_seps(v) == v);
    }
}

/// On a text without adjacent separators, trimming the end removes at
/// most the last character.
proof fn lemma_trim_end_one(u: Seq<char>)
    requires
        forall|j: int| 0 <= j && j + 1 < u.len() ==> !(#[trigger] u[j] == '-' && u[j + 1] == '-'),
    ensures
        trim_end_seps(u) == if u.len() > 0 && u.last() == '-' {
            u.drop_last()
        } else {
            u
        },
{
    if u.len() > 0 && u.last() == '-' {
        let v = u.drop_last();
        assert(trim_end_seps(u) == trim_end_seps(v));
        if v.len() > 0 {
            assert(v.last() == u[u.len() - 2]);
            assert(v.last() != '-');
        }
        assert(trim_end_seps(v) == v);
    }
}

/// The normalizer's output is canonical.
pub proof fn lemma_normalize_canonical(s: Seq<char>)
    ensures
        canonical(normalize_spec(s)),
{
    let raw = raw_slug(s);
    let u = collapse_seps(raw);
    lemma_raw_slug_alphabet(s);
    lemma_collapse_props(raw, raw.len() as int);
    lemma_trim_start_one(u);
    let v = trim_start_seps(u);
    assert(forall|j: int|
        0 <= j && j + 1 < v.len() ==> !(#[trigger] v[j] == '-' && v[j + 1] == '-'));
    lemma_trim_end_one(v);
    let w = trim_end_seps(v);
    assert(canonical(w)) by {
        assert(forall|j: int| 0 <= j < v.len() ==> is_slug_char(#[trigger] v[j]) || v[j] == '-');
        if w.len() > 0 {
            assert(w[0] == v[0]);
            assert(v[0] != '-');
        }
    }
}

/// A canonical text is its own raw slug.
proof fn lemma_raw_slug_identity(t: Seq<char>)
    requires
        forall|j: int| 0 <= j < t.len() ==> is_slug_char(#[trigger] t[j]) || t[j] == '-',
    ensures
        raw_slug(t) == t,
    decreases t.len(),
{
    if t.len() == 0 {
        assert(raw_slug(t) =~= t);
    } else {
        lemma_raw_slug_identity(t.drop_last());
        let c = t.last();
        assert(is_slug_char(c) || c == '-');
        assert(('-' as u32) == 45);
        assert((c as u32) < 128);
        assert(fold_ascii_char(c) == c);
        assert(fold_char(c) =~= seq![c]);
        assert(raw_slug(t) =~= t.drop_last().push(c));
        assert(t.drop_last().push(c) =~= t);
    }
}

/// Normalizing a canonical text changes nothing.
pub proof fn lemma_normalize_identity_on_canonical(t: Seq<char>)
    requires
        canonical(t),
    ensures
        normalize_spec(t) == t,
{
    lemma_raw_slug_identity(t);
    lemma_collapse_identity(t, t.len() as int);
    assert(t.take(t.len() as int) =~= t);
    assert(collapse_seps(raw_slug(t)) == t);
    assert(trim_start_seps(t) == t);
    assert(trim_end_seps(t) == t);
}

/// Normalization is idempotent: normalizing a second time gives the
/// same slug back.
pub proof fn lemma_normalize_idempotent(s: Seq<char>)
    ensures
        normalize_spec(normalize_spec(s)) == normalize_spec(s),
{
    lemma_normalize_canonical(s);
    lemma_normalize_identity_on_canonical(normalize_spec(s));
}

// ---------------------------------------------------------------------------
// The executable normalizer
// ---------------------------------------------------------------------------

/// Relies on `deunicode::deunicode_char`: the ASCII transliteration of
/// one character out of a fixed table, `None` for characters the table
/// does not cover.
#[verifier::external_body]
fn transliterate_char(c: char) -> (r: Option<&'static str>)
    ensures
        r is Some <==> transliteration_of(c) is Some,
        r matches Some(t) ==> t@ == transliteration_of(c).unwrap(),
{
    deunicode::deunicode_char(c)
}

/// Folds one ASCII character into its raw slug form.
fn fold_ascii(c: char) -> (r: char)
    ensures
        r == fold_ascii_char(c),
{
    let v = c as u32;
    if (('a' as u32) <= v && v <= ('z' as u32)) || (('0' as u32) <= v && v <= ('9' as u32)) {
        c
    } else if ('A' as u32) <= v && v <= ('Z' as u32) {
        match char::from_u32(v + 32) {
            Some(l) => l,
            None => '-',
        }
    } else {
        '-'
    }
}

/// Relies on `char::from_u32`: every value below the surrogate range
/// is a valid code point and converts to the character it names.
pub assume_specification[ char::from_u32 ](x: u32) -> (r: Option<char>)
    ensures
        x < 0xD800 ==> r == Some(x as char),
;

/// Converts arbitrary text into its canonical slug.
pub fn normalize(s: &str) -> (r: String)
    ensures
        r@ == normalize_spec(s@),
{
    let n = s.unicode_len();
    let mut raw: Vec<char> = Vec::new();
    let mut idx: usize = 0;
    proof {
        assert(s@.take(0) =~= Seq::<char>::empty());
        assert(raw@ =~= raw_slug(s@.take(0)));
    }
    while idx < n
        invariant
            idx <= n,
            n == s@.len(),
            raw@ == raw_slug(s@.take(idx as int)),
        decreases n - idx,
    {
        let c = s.get_char(idx);
        proof {
            assert(s@.take(idx + 1).drop_last() =~= s@.take(idx as int));
            assert(s@.take(idx + 1).last() == s@[idx as int]);
        }
        if (c as u32) < 128 {
            raw.push(fold_ascii(c));
            proof {
                assert(fold_char(c) =~= seq![fold_ascii_char(c)]);
                assert(raw@ =~= raw_slug(s@.take(idx + 1)));
            }
        } else {
            match transliterate_char(c) {
                Some(t) => {
                    let ghost base = raw_slug(s@.take(idx as int));
                    let ghost tv = transliteration_of(c).unwrap();
                    let m = t.unicode_len();
                    let mut j: usize = 0;
                    proof {
                        assert(tv.take(0).map_values(|d: char| fold_ascii_char(d)) =~= Seq::<
                            char,
                        >::empty());
                        assert(raw@ =~= base + tv.take(0).map_values(
                            |d: char| fold_ascii_char(d),
                        ));
                    }
                    while j < m
                        invariant
                            j <= m,
                            m == tv.len(),
                            t@ == tv,
                            raw@ == base + tv.take(j as int).map_values(
                                |d: char| fold_ascii_char(d),
                            ),
                        decreases m - j,
                    {
                        let d = t.get_char(j);
                        raw.push(fold_ascii(d));
                        proof {
                            assert(tv.take(j + 1).map_values(|d: char| fold_ascii_char(d)) =~= tv
                                .take(j as int).map_values(|d: char| fold_ascii_char(d)).push(
                                fold_ascii_char(tv[j as int]),
                            ));
                        }
                        j = j + 1;
                    }
                    proof {
                        assert(tv.take(m as int) =~= tv);
                        assert(fold_char(c) == tv.map_values(|d: char| fold_ascii_char(d)));
                        assert(raw@ =~= raw_slug(s@.take(idx + 1)));
                    }
                },
                None => {
                    raw.push('-');
                    proof {
                        assert(fold_char(c) =~= seq!['-']);
                        assert(raw@ =~= raw_slug(s@.take(idx + 1)));
                    }
                },
            }
        }
        idx = idx + 1;
    }
    proof {
        assert(s@.take(n as int) =~= s@);
    }
    // Collapse runs of separators: a separator whose raw predecessor is
    // a separator too is dropped.
    let rl = raw.len();
    let mut out: Vec<char> = Vec::new();
    let mut k: usize = 0;
    while k < rl
        invariant
            k <= rl,
            rl == raw@.len(),
            out@ == collapse_upto(raw@, k as int),
        decreases rl - k,
    {
        let c = raw[k];
        if !(c == '-' && k > 0 && raw[k - 1] == '-') {
            out.push(c);
        }
        k = k + 1;
    }
    proof {
        lemma_raw_slug_alphabet(s@);
        lemma_collapse_props(raw@, raw@.len() as int);
    }
    // Trim a separator from either end; after collapsing there is at
    // most one at each.
    let ol = out.len();
    let start: usize = if ol > 0 && out[0] == '-' {
        1
    } else {
        0
    };
    let end: usize = if ol > start && out[ol - 1] == '-' {
        ol - 1
    } else {
        ol
    };
    proof {
        let u = out@;
        lemma_trim_start_one(u);
        let v = trim_start_seps(u);
        assert(forall|j: int|
            0 <= j && j + 1 < v.len() ==> !(#[trigger] v[j] == '-' && v[j + 1] == '-'));
        lemma_trim_end_one(v);
        if ol > 0 && u[0] == '-' {
            assert(v =~= u.drop_first());
        }
        if v.len() > 0 && v.last() == '-' {
            assert(trim_end_seps(v) =~= v.drop_last());
        }
        assert(trim_end_seps(v) =~= u.subrange(start as int, end as int));
    }
    chars_to_string(&out, start, end)
}

} // verus!

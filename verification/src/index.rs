//! The inverted index and its construction.
//!
//! `build_index` consumes the enumeration of raw documents that the store
//! handed over and produces the index: for every term occurring in some
//! document, one postings list with the exact per-document occurrence
//! counts. The index is built once and read-only afterwards.

use vstd::prelude::*;

use crate::text::lemma_term_count_le_len;
use crate::text::lemma_term_count_push;
use crate::text::lemma_tokens_len;
use crate::text::normalize;
use crate::text::normalized_terms;
use crate::text::term_count;

verus! {

/// One posting: a document and how often the term occurs in it.
#[derive(Debug, PartialEq, Eq, Structural, PartialOrd, Ord, Clone, Copy)]
pub struct Posting {
    pub id: u32,
    pub tf: u32,
}

/// A raw document as the store hands it over: the name it is filed under
/// and its text.
pub struct RawDocument {
    pub name: String,
    pub text: String,
}

/// Why index construction failed as a whole.
#[derive(Debug, PartialEq, Eq, Structural, Clone, Copy)]
pub enum IndexError {
    /// The document enumeration could not be produced at all.
    EmptyOrMissingStore,
    /// Some document is malformed: its name does not parse as an
    /// unsigned integer. A caller that enumerates the store reports a
    /// document whose content cannot be read with this error too.
    MalformedDocument,
}

/// All postings of one term.
pub struct IndexEntry {
    pub term: String,
    pub postings: Vec<Posting>,
}

/// The inverted index: for every term that occurs in at least one
/// document, the postings of the documents containing it.
pub struct InvertedIndex {
    pub entries: Vec<IndexEntry>,
}

/// The frequency recorded for document `id` in a postings sequence, if
/// any; later entries take precedence, though a well-formed index never
/// records a document twice for one term.
pub open spec fn tf_of(ps: Seq<Posting>, id: u32) -> Option<u32>
    decreases ps.len(),
{
    if ps.len() == 0 {
        None
    } else if ps.last().id == id {
        Some(ps.last().tf)
    } else {
        tf_of(ps.drop_last(), id)
    }
}

/// Whether some entry of `es` is keyed by the term `t`.
pub open spec fn has_term_in(es: Seq<IndexEntry>, t: Seq<char>) -> bool
    decreases es.len(),
{
    if es.len() == 0 {
        false
    } else if es.last().term@ == t {
        true
    } else {
        has_term_in(es.drop_last(), t)
    }
}

/// The postings recorded for `t` in `es`, or the empty sequence when no
/// entry is keyed by `t`.
pub open spec fn postings_in(es: Seq<IndexEntry>, t: Seq<char>) -> Seq<Posting>
    decreases es.len(),
{
    if es.len() == 0 {
        Seq::empty()
    } else if es.last().term@ == t {
        es.last().postings@
    } else {
        postings_in(es.drop_last(), t)
    }
}

/// No two entries are keyed by the same term.
pub open spec fn distinct_terms(es: Seq<IndexEntry>) -> bool {
    forall|i: int, j: int|
        0 <= i < j < es.len() ==> (#[trigger] es[i].term@) != (#[trigger] es[j].term@)
}

impl InvertedIndex {
    /// Whether the index holds an entry for the term `t`.
    pub open spec fn has_term(self, t: Seq<char>) -> bool {
        has_term_in(self.entries@, t)
    }

    /// The postings stored for `t`, empty when `t` is not indexed.
    pub open spec fn postings_of(self, t: Seq<char>) -> Seq<Posting> {
        postings_in(self.entries@, t)
    }

    /// The frequency the index records for term `t` in document `id`.
    pub open spec fn freq(self, t: Seq<char>, id: u32) -> Option<u32> {
        tf_of(self.postings_of(t), id)
    }

    /// Structural well-formedness: terms are unique, no postings list is
    /// empty, no posting has frequency zero, and no document appears twice
    /// in one postings list.
    pub open spec fn wf(self) -> bool {
        &&& distinct_terms(self.entries@)
        &&& forall|i: int|
            0 <= i < self.entries@.len() ==> (#[trigger] self.entries@[i].postings@).len() > 0
        &&& forall|i: int, k: int|
            0 <= i < self.entries@.len() && 0 <= k < self.entries@[i].postings@.len() ==> (
            #[trigger] self.entries@[i].postings@[k]).tf > 0
        &&& forall|i: int, k1: int, k2: int|
            0 <= i < self.entries@.len() && 0 <= k1 < k2 < self.entries@[i].postings@.len() ==> (
            #[trigger] self.entries@[i].postings@[k1]).id != (
            #[trigger] self.entries@[i].postings@[k2]).id
    }
}

/// Whether `c` is a decimal digit.
pub open spec fn is_digit_char(c: char) -> bool {
    '0' <= c && c <= '9'
}

/// The numeric value of a decimal digit.
pub open spec fn digit_val(c: char) -> nat {
    ((c as u32) - ('0' as u32)) as nat
}

/// The value of a digit string read in base ten.
pub open spec fn digits_val(s: Seq<char>) -> nat
    decreases s.len(),
{
    if s.len() == 0 {
        0
    } else {
        digits_val(s.drop_last()) * 10 + digit_val(s.last())
    }
}

/// Whether every character of `s` is a decimal digit.
pub open spec fn all_digits(s: Seq<char>) -> bool {
    forall|k: int| 0 <= k < s.len() ==> is_digit_char(#[trigger] s[k])
}

/// The digit part of a document name: everything after an optional
/// leading `+`.
pub open spec fn id_digits(s: Seq<char>) -> Seq<char> {
    if s.len() > 0 && s[0] == '+' {
        s.drop_first()
    } else {
        s
    }
}

/// What a document name must denote: a `u32` written in decimal digits,
/// optionally preceded by a single `+`.
pub open spec fn parse_id_spec(s: Seq<char>) -> Option<u32> {
    let ds = id_digits(s);
    if ds.len() > 0 && all_digits(ds) && digits_val(ds) <= u32::MAX {
        Some(digits_val(ds) as u32)
    } else {
        None
    }
}

/// A digit string is worth at least as much as any of its prefixes.
proof fn lemma_digits_val_prefix(s: Seq<char>, m: int)
    requires
        0 <= m <= s.len(),
    ensures
        digits_val(s) >= digits_val(s.take(m)),
    decreases s.len() - m,
{
    if m == s.len() {
        assert(s.take(m) =~= s);
    } else {
        lemma_digits_val_prefix(s, m + 1);
        assert(s.take(m + 1).drop_last() =~= s.take(m));
        assert(s.take(m + 1).last() == s[m]);
        assert(digits_val(s.take(m + 1)) == digits_val(s.take(m)) * 10 + digit_val(s[m]));
    }
}

/// Parses a document name: the decimal digits (after an optional `+`)
/// read as a `u32`, or `None` when the name is not such a number.
pub fn parse_doc_id(name: &str) -> (r: Option<u32>)
    ensures
        r == parse_id_spec(name@),
{
    let n = name.unicode_len();
    let start: usize = if n > 0 && name.get_char(0) == '+' {
        1
    } else {
        0
    };
    let ghost ds = id_digits(name@);
    proof {
        assert(ds =~= name@.skip(start as int));
    }
    if start == n {
        return None;
    }
    let mut v: u32 = 0;
    let mut k: usize = start;
    while k < n
        invariant
            start <= k <= n,
            n == name@.len(),
            ds == id_digits(name@),
            ds =~= name@.skip(start as int),
            forall|m: int| start <= m < k ==> is_digit_char(#[trigger] name@[m]),
            v == digits_val(name@.subrange(start as int, k as int)),
        decreases n - k,
    {
        let c = name.get_char(k);
        let ghost pre = name@.subrange(start as int, k as int);
        if c < '0' || c > '9' {
            proof {
                assert(ds[k - start] == name@[k as int]);
                assert(!all_digits(ds));
            }
            return None;
        }
        let d: u32 = (c as u32) - ('0' as u32);
        proof {
            assert(d == digit_val(c));
            assert(d <= 9) by {
                assert('0' as u32 == 48 && '9' as u32 == 57);
            }
        }
        if v > 429496729 || (v == 429496729 && d > 5) {
            // The value would exceed `u32::MAX`; the whole digit string is
            // then worth more than any `u32`, so the name does not parse.
            proof {
                assert(name@.subrange(start as int, k as int + 1).drop_last() =~= pre);
                assert(name@.subrange(start as int, k as int + 1).last() == name@[k as int]);
                assert(digits_val(name@.subrange(start as int, k as int + 1)) == v * 10 + d);
                assert(v * 10 + d > u32::MAX);
                assert(ds =~= name@.subrange(start as int, n as int));
                lemma_digits_val_prefix(ds, k + 1 - start);
                assert(ds.take(k + 1 - start) =~= name@.subrange(start as int, k as int + 1));
                assert(digits_val(ds) > u32::MAX);
            }
            return None;
        }
        v = v * 10 + d;
        k += 1;
        proof {
            assert(name@.subrange(start as int, k as int).drop_last() =~= pre);
            assert(name@.subrange(start as int, k as int).last() == name@[k - 1]);
        }
    }
    proof {
        assert(name@.subrange(start as int, n as int) =~= ds);
        assert(all_digits(ds));
        assert(ds.len() > 0);
    }
    Some(v)
}

/// A term occurs in `ts` iff some position of `ts` holds it.
pub proof fn lemma_term_count_pos_iff(ts: Seq<Seq<char>>, t: Seq<char>)
    ensures
        term_count(ts, t) > 0 <==> exists|j: int| 0 <= j < ts.len() && ts[j] == t,
    decreases ts.len(),
{
    if ts.len() > 0 {
        lemma_term_count_pos_iff(ts.drop_last(), t);
        if ts.last() == t {
            assert(ts[ts.len() - 1] == t);
        } else if term_count(ts, t) > 0 {
            let j = choose|j: int| 0 <= j < ts.drop_last().len() && ts.drop_last()[j] == t;
            assert(ts[j] == t);
        } else if exists|j: int| 0 <= j < ts.len() && ts[j] == t {
            let j = choose|j: int| 0 <= j < ts.len() && ts[j] == t;
            assert(ts.drop_last()[j] == t);
        }
    }
}

/// Appending an entry to an entry sequence: the new term is present, and
/// every term keeps its postings unless it is the new entry's term.
proof fn lemma_entries_push(es: Seq<IndexEntry>, e: IndexEntry, t: Seq<char>)
    ensures
        has_term_in(es.push(e), t) == (has_term_in(es, t) || e.term@ == t),
        postings_in(es.push(e), t) == if e.term@ == t {
            e.postings@
        } else {
            postings_in(es, t)
        },
{
    assert(es.push(e).drop_last() =~= es);
    assert(es.push(e).last() == e);
}

/// Replacing the entry at `j` by one keyed with the same term: presence of
/// every term is unchanged, and only that term's postings change.
proof fn lemma_entries_update(es: Seq<IndexEntry>, j: int, e2: IndexEntry, t: Seq<char>)
    requires
        0 <= j < es.len(),
        e2.term@ == es[j].term@,
        distinct_terms(es),
    ensures
        has_term_in(es.update(j, e2), t) == has_term_in(es, t),
        postings_in(es.update(j, e2), t) == if t == e2.term@ {
            e2.postings@
        } else {
            postings_in(es, t)
        },
    decreases es.len(),
{
    let n = es.len();
    let es2 = es.update(j, e2);
    if j == n - 1 {
        assert(es2.last() == e2);
        assert(es2.drop_last() =~= es.drop_last());
    } else {
        assert(es2.last() == es.last());
        assert(es2.drop_last() =~= es.drop_last().update(j, e2));
        assert(distinct_terms(es.drop_last())) by {
            assert forall|i1: int, j1: int|
                0 <= i1 < j1 < es.drop_last().len() implies (#[trigger] es.drop_last()[i1].term@)
                != (#[trigger] es.drop_last()[j1].term@) by {
                assert(es.drop_last()[i1] == es[i1]);
                assert(es.drop_last()[j1] == es[j1]);
            }
        }
        assert(es.drop_last()[j] == es[j]);
        lemma_entries_update(es.drop_last(), j, e2, t);
        assert(es[j].term@ != es.last().term@);
    }
}

/// A term that is not indexed has no postings.
pub proof fn lemma_no_term_postings(es: Seq<IndexEntry>, t: Seq<char>)
    ensures
        !has_term_in(es, t) ==> postings_in(es, t) == Seq::<Posting>::empty(),
    decreases es.len(),
{
    if es.len() > 0 {
        lemma_no_term_postings(es.drop_last(), t);
    }
}

/// A term is indexed iff some entry is keyed by it.
pub proof fn lemma_has_term_index(es: Seq<IndexEntry>, t: Seq<char>)
    ensures
        has_term_in(es, t) <==> exists|j: int| 0 <= j < es.len() && es[j].term@ == t,
    decreases es.len(),
{
    if es.len() > 0 {
        lemma_has_term_index(es.drop_last(), t);
        if es.last().term@ == t {
            assert(es[es.len() - 1].term@ == t);
        } else if has_term_in(es, t) {
            let j = choose|j: int| 0 <= j < es.len() - 1 && es.drop_last()[j].term@ == t;
            assert(es[j].term@ == t);
        } else if exists|j: int| 0 <= j < es.len() && es[j].term@ == t {
            let j = choose|j: int| 0 <= j < es.len() && es[j].term@ == t;
            assert(es.drop_last()[j].term@ == t);
        }
    }
}

/// If the entry at `j` is the last one keyed by `t`, its postings are the
/// postings of `t`.
pub proof fn lemma_postings_at_last_match(es: Seq<IndexEntry>, j: int, t: Seq<char>)
    requires
        0 <= j < es.len(),
        es[j].term@ == t,
        forall|k: int| j < k < es.len() ==> (#[trigger] es[k].term@) != t,
    ensures
        has_term_in(es, t),
        postings_in(es, t) == es[j].postings@,
    decreases es.len(),
{
    if j == es.len() - 1 {
    } else {
        assert(es.last().term@ != t);
        assert(es.drop_last()[j] == es[j]);
        lemma_postings_at_last_match(es.drop_last(), j, t);
    }
}

/// A document has no recorded frequency in a postings list exactly when it
/// appears in none of its postings.
proof fn lemma_tf_none_iff(ps: Seq<Posting>, id: u32)
    ensures
        tf_of(ps, id) is None <==> (forall|k: int| 0 <= k < ps.len() ==> (#[trigger] ps[k]).id
            != id),
    decreases ps.len(),
{
    if ps.len() > 0 {
        lemma_tf_none_iff(ps.drop_last(), id);
        assert(forall|k: int| 0 <= k < ps.len() - 1 ==> ps.drop_last()[k] == (#[trigger] ps[k]));
        assert(ps[ps.len() - 1] == ps.last());
    }
}

/// Appending a posting changes the recorded frequency of its document and
/// no other.
proof fn lemma_tf_push(ps: Seq<Posting>, p: Posting, id: u32)
    ensures
        tf_of(ps.push(p), id) == if p.id == id {
            Some(p.tf)
        } else {
            tf_of(ps, id)
        },
{
    assert(ps.push(p).drop_last() =~= ps);
    assert(ps.push(p).last() == p);
}

/// One term of a document together with its occurrence count.
pub struct TermFrequency {
    pub term: String,
    pub count: u32,
}

/// Computes the frequency table of one document's normalized term
/// sequence: one entry per distinct term, with the exact number of its
/// occurrences.
pub fn count_frequencies(terms: &Vec<String>) -> (r: Vec<TermFrequency>)
    requires
        terms@.len() <= u32::MAX,
    ensures
        forall|j: int|
            0 <= j < r@.len() ==> (#[trigger] r@[j]).count == term_count(
                terms.deep_view(),
                r@[j].term@,
            ) && r@[j].count > 0,
        forall|j1: int, j2: int|
            0 <= j1 < j2 < r@.len() ==> (#[trigger] r@[j1]).term@ != (#[trigger] r@[j2]).term@,
        forall|t: Seq<char>|
            #[trigger] term_count(terms.deep_view(), t) > 0 ==> exists|j: int|
                0 <= j < r@.len() && r@[j].term@ == t,
{
    let ghost ts = terms.deep_view();
    let mut r: Vec<TermFrequency> = Vec::new();
    let mut k: usize = 0;
    while k < terms.len()
        invariant
            0 <= k <= terms.len(),
            terms@.len() <= u32::MAX,
            ts == terms.deep_view(),
            forall|j: int|
                0 <= j < r@.len() ==> (#[trigger] r@[j]).count == term_count(ts, r@[j].term@)
                    && r@[j].count > 0,
            forall|j: int| 0 <= j < r@.len() ==> term_count(ts.take(k as int), (#[trigger] r@[j]).term@) > 0,
            forall|j1: int, j2: int|
                0 <= j1 < j2 < r@.len() ==> (#[trigger] r@[j1]).term@ != (#[trigger] r@[j2]).term@,
            forall|t: Seq<char>|
                #[trigger] term_count(ts.take(k as int), t) > 0 ==> exists|j: int|
                    0 <= j < r@.len() && r@[j].term@ == t,
        decreases terms.len() - k,
    {
        let ghost tk = ts[k as int];
        let ghost r_entry = r@;
        proof {
            assert(tk == terms@[k as int]@);
        }
        let mut seen = false;
        let mut j2: usize = 0;
        while j2 < k
            invariant
                0 <= j2 <= k < terms.len(),
                ts == terms.deep_view(),
                tk == ts[k as int],
                seen <==> exists|m: int| 0 <= m < j2 && ts[m] == tk,
            decreases k - j2,
        {
            if terms[j2] == terms[k] {
                proof {
                    assert(ts[j2 as int] == terms@[j2 as int]@);
                    assert(ts[j2 as int] == tk);
                }
                seen = true;
            }
            j2 += 1;
        }
        if !seen {
            let mut c: u32 = 0;
            let mut m: usize = 0;
            proof {
                assert(ts.take(0) =~= Seq::<Seq<char>>::empty());
            }
            while m < terms.len()
                invariant
                    0 <= m <= terms.len(),
                    terms@.len() <= u32::MAX,
                    ts == terms.deep_view(),
                    tk == ts[k as int],
                    k < terms.len(),
                    c == term_count(ts.take(m as int), tk),
                decreases terms.len() - m,
            {
                if terms[m] == terms[k] {
                    proof {
                        lemma_term_count_le_len(ts.take(m as int), tk);
                    }
                    c += 1;
                }
                m += 1;
                proof {
                    assert(ts.take(m as int) =~= ts.take(m as int - 1).push(ts[m as int - 1]));
                    lemma_term_count_push(ts.take(m as int - 1), ts[m as int - 1], tk);
                }
            }
            proof {
                assert(ts.take(terms@.len() as int) =~= ts);
                lemma_term_count_pos_iff(ts, tk);
                assert(c > 0);
            }
            let entry = TermFrequency { term: terms[k].clone(), count: c };
            proof {
                assert(entry.term@ == tk);
                // A term that some earlier table entry holds occurs among the
                // first k terms, while tk does not: the new entry is fresh.
                lemma_term_count_pos_iff(ts.take(k as int), tk);
                assert(forall|mm: int| 0 <= mm < k ==> ts.take(k as int)[mm] == (#[trigger] ts[mm]));
            }
            r.push(entry);
            proof {
                assert(r@[r@.len() - 1].term@ == tk);
            }
        }
        k += 1;
        proof {
            let kprev = k as int - 1;
            assert(ts.take(k as int) =~= ts.take(kprev).push(ts[kprev]));
            if seen {
                let m = choose|m: int| 0 <= m < kprev && ts[m] == tk;
                lemma_term_count_pos_iff(ts.take(kprev), tk);
                assert(ts.take(kprev)[m] == tk);
                assert(term_count(ts.take(kprev), tk) > 0);
            } else {
                assert(r@.len() > 0 && r@[r@.len() - 1].term@ == tk);
            }
            assert forall|t: Seq<char>| #[trigger] term_count(ts.take(k as int), t)
                > 0 implies exists|j: int| 0 <= j < r@.len() && r@[j].term@ == t by {
                lemma_term_count_push(ts.take(kprev), ts[kprev], t);
                if term_count(ts.take(kprev), t) > 0 {
                    assert(exists|j: int| 0 <= j < r_entry.len() && r_entry[j].term@ == t);
                    let j0 = choose|j: int| 0 <= j < r_entry.len() && r_entry[j].term@ == t;
                    assert(r@[j0].term@ == t);
                } else {
                    assert(t == tk);
                    assert(r@[r@.len() - 1].term@ == tk);
                }
            }
            assert forall|j: int| 0 <= j < r@.len() implies term_count(
                ts.take(k as int),
                (#[trigger] r@[j]).term@,
            ) > 0 by {
                lemma_term_count_push(ts.take(kprev), ts[kprev], r@[j].term@);
            }
        }
    }
    proof {
        assert(ts.take(terms@.len() as int) =~= ts);
    }
    r
}

/// Adds one posting for `term` to the index. The posting's document must
/// not yet be recorded for that term, and its frequency must be positive.
fn insert_posting(idx: &mut InvertedIndex, term: &String, p: Posting)
    requires
        old(idx).wf(),
        p.tf > 0,
        old(idx).freq(term@, p.id) is None,
    ensures
        final (idx).wf(),
        forall|t: Seq<char>|
            #[trigger] final (idx).has_term(t) == (old(idx).has_term(t) || t == term@),
        forall|t: Seq<char>, id: u32|
            #[trigger] final (idx).freq(t, id) == if t == term@ && id == p.id {
                Some(p.tf)
            } else {
                old(idx).freq(t, id)
            },
{
    let n = idx.entries.len();
    let mut j: usize = 0;
    while j < n
        invariant
            0 <= j <= n,
            n == idx.entries@.len(),
            *idx == *old(idx),
            old(idx).wf(),
            p.tf > 0,
            old(idx).freq(term@, p.id) is None,
            forall|m: int| 0 <= m < j ==> (#[trigger] idx.entries@[m].term@) != term@,
        decreases n - j,
    {
        if idx.entries[j].term == *term {
            let ghost es0 = idx.entries@;
            let mut e = idx.entries.remove(j);
            e.postings.push(p);
            idx.entries.insert(j, e);
            proof {
                let e2 = idx.entries@[j as int];
                assert(idx.entries@ =~= es0.update(j as int, e2));
                assert(e2.term@ == term@);
                assert(e2.postings@ =~= es0[j as int].postings@.push(p));
                lemma_postings_at_last_match(es0, j as int, term@);
                lemma_tf_none_iff(es0[j as int].postings@, p.id);
                assert forall|t: Seq<char>| #[trigger] idx.has_term(t) == (has_term_in(es0, t)
                    || t == term@) by {
                    lemma_entries_update(es0, j as int, e2, t);
                }
                assert forall|t: Seq<char>, id: u32| #[trigger] idx.freq(t, id) == (if t == term@
                    && id == p.id {
                    Some(p.tf)
                } else {
                    tf_of(postings_in(es0, t), id)
                }) by {
                    lemma_entries_update(es0, j as int, e2, t);
                    if t == term@ {
                        lemma_tf_push(es0[j as int].postings@, p, id);
                    }
                }
                assert(idx.wf()) by {
                    assert forall|i1: int, j1: int|
                        0 <= i1 < j1 < idx.entries@.len() implies (
                    #[trigger] idx.entries@[i1].term@) != (#[trigger] idx.entries@[j1].term@) by {
                        assert(es0[i1].term@ != es0[j1].term@);
                    }
                }
            }
            return ;
        }
        j += 1;
    }
    let ghost es0 = idx.entries@;
    proof {
        lemma_has_term_index(es0, term@);
        assert(!has_term_in(es0, term@));
        lemma_no_term_postings(es0, term@);
    }
    let mut ps: Vec<Posting> = Vec::new();
    ps.push(p);
    idx.entries.push(IndexEntry { term: term.clone(), postings: ps });
    proof {
        let e2 = idx.entries@.last();
        assert(idx.entries@ =~= es0.push(e2));
        assert(e2.term@ == term@);
        assert(e2.postings@.len() == 1 && e2.postings@[0] == p);
        assert forall|t: Seq<char>| #[trigger] idx.has_term(t) == (has_term_in(es0, t) || t
            == term@) by {
            lemma_entries_push(es0, e2, t);
        }
        assert forall|t: Seq<char>, id: u32| #[trigger] idx.freq(t, id) == (if t == term@ && id
            == p.id {
            Some(p.tf)
        } else {
            tf_of(postings_in(es0, t), id)
        }) by {
            lemma_entries_push(es0, e2, t);
            if t == term@ {
                assert(e2.postings@.drop_last() =~= Seq::<Posting>::empty());
                assert(e2.postings@.last() == p);
            }
        }
        assert(idx.wf()) by {
            lemma_has_term_index(es0, term@);
            assert forall|i1: int, j1: int|
                0 <= i1 < j1 < idx.entries@.len() implies (#[trigger] idx.entries@[i1].term@) != (
            #[trigger] idx.entries@[j1].term@) by {
                if j1 < es0.len() {
                    assert(es0[i1].term@ != es0[j1].term@);
                } else {
                    assert(es0[i1].term@ == idx.entries@[i1].term@);
                }
            }
        }
    }
}

/// Merges one document into the index: one posting per entry of the
/// document's frequency table, all for document `id`, which the index
/// must not mention yet.
fn add_document(idx: &mut InvertedIndex, id: u32, fs: &Vec<TermFrequency>)
    requires
        old(idx).wf(),
        forall|j: int| 0 <= j < fs@.len() ==> (#[trigger] fs@[j]).count > 0,
        forall|j1: int, j2: int|
            0 <= j1 < j2 < fs@.len() ==> (#[trigger] fs@[j1]).term@ != (#[trigger] fs@[j2]).term@,
        forall|t: Seq<char>| (#[trigger] old(idx).freq(t, id)) is None,
    ensures
        final (idx).wf(),
        forall|t: Seq<char>|
            #[trigger] final (idx).has_term(t) == (old(idx).has_term(t) || exists|j: int|
                0 <= j < fs@.len() && (#[trigger] fs@[j]).term@ == t),
        forall|t: Seq<char>, id2: u32|
            id2 != id ==> #[trigger] final (idx).freq(t, id2) == old(idx).freq(t, id2),
        forall|j: int|
            0 <= j < fs@.len() ==> #[trigger] final (idx).freq(fs@[j].term@, id) == Some(
                fs@[j].count,
            ),
        forall|t: Seq<char>|
            (forall|j: int| 0 <= j < fs@.len() ==> (#[trigger] fs@[j]).term@ != t) ==> (
            #[trigger] final (idx).freq(t, id)) is None,
{
    let mut j: usize = 0;
    while j < fs.len()
        invariant
            0 <= j <= fs@.len(),
            idx.wf(),
            forall|jj: int| 0 <= jj < fs@.len() ==> (#[trigger] fs@[jj]).count > 0,
            forall|j1: int, j2: int|
                0 <= j1 < j2 < fs@.len() ==> (#[trigger] fs@[j1]).term@ != (
                #[trigger] fs@[j2]).term@,
            forall|t: Seq<char>| (#[trigger] old(idx).freq(t, id)) is None,
            forall|t: Seq<char>|
                #[trigger] idx.has_term(t) == (old(idx).has_term(t) || exists|jj: int|
                    0 <= jj < j && (#[trigger] fs@[jj]).term@ == t),
            forall|t: Seq<char>, id2: u32|
                id2 != id ==> #[trigger] idx.freq(t, id2) == old(idx).freq(t, id2),
            forall|jj: int|
                0 <= jj < j ==> #[trigger] idx.freq(fs@[jj].term@, id) == Some(fs@[jj].count),
            forall|t: Seq<char>|
                (forall|jj: int| 0 <= jj < j ==> (#[trigger] fs@[jj]).term@ != t) ==> (
                #[trigger] idx.freq(t, id)) is None,
        decreases fs@.len() - j,
    {
        let p = Posting { id, tf: fs[j].count };
        proof {
            assert forall|jj: int| 0 <= jj < j implies (#[trigger] fs@[jj]).term@ != fs@[j as int].term@ by {
                assert(fs@[jj].term@ != fs@[j as int].term@);
            }
            assert(idx.freq(fs@[j as int].term@, id) is None);
        }
        insert_posting(idx, &fs[j].term, p);
        j += 1;
    }
}

/// The normalized term sequence of a document's text.
pub open spec fn doc_terms(d: RawDocument) -> Seq<Seq<char>> {
    normalized_terms(d.text@)
}

/// Whether every document name parses as an id.
pub open spec fn all_names_valid(docs: Seq<RawDocument>) -> bool {
    forall|i: int| 0 <= i < docs.len() ==> (#[trigger] parse_id_spec(docs[i].name@)) is Some
}

/// Whether no two document names denote the same id. The store files each
/// document under its own name, so ids are unique.
pub open spec fn distinct_doc_ids(docs: Seq<RawDocument>) -> bool {
    forall|i: int, j: int|
        0 <= i < j < docs.len() && (#[trigger] parse_id_spec(docs[i].name@)) is Some && (
        #[trigger] parse_id_spec(docs[j].name@)) is Some ==> parse_id_spec(docs[i].name@)
            != parse_id_spec(docs[j].name@)
}

/// The index holds exactly the content of `docs`: a term is indexed iff
/// some document contains it; the frequency recorded for a term and a
/// document is the exact occurrence count of the term in that document's
/// normalized term sequence; and only the ids of `docs` occur.
pub open spec fn index_describes(idx: InvertedIndex, docs: Seq<RawDocument>) -> bool {
    &&& (forall|t: Seq<char>|
        #[trigger] idx.has_term(t) <==> exists|i: int|
            0 <= i < docs.len() && term_count(#[trigger] doc_terms(docs[i]), t) > 0)
    &&& (forall|t: Seq<char>, i: int|
        0 <= i < docs.len() ==> (parse_id_spec(docs[i].name@) matches Some(did)
            ==> if #[trigger] term_count(doc_terms(docs[i]), t) > 0 {
                idx.freq(t, did) matches Some(f) && f == term_count(doc_terms(docs[i]), t)
            } else {
                idx.freq(t, did) is None
            }))
    &&& (forall|t: Seq<char>, id: u32|
        (#[trigger] idx.freq(t, id)) is Some ==> exists|i: int|
            0 <= i < docs.len() && #[trigger] parse_id_spec(docs[i].name@) == Some(id))
}

/// Builds the inverted index from the document enumeration the store
/// handed over, or reports why it cannot be built.
///
/// `documents` is `None` when the store could not be enumerated at all.
/// The build is all-or-nothing: one document whose name does not parse as
/// an id fails the whole build, and no partial index is returned.
pub fn build_index(documents: Option<&Vec<RawDocument>>) -> (r: Result<
    InvertedIndex,
    IndexError,
>)
    requires
        documents matches Some(docs) ==> (forall|i: int|
            0 <= i < docs@.len() ==> (#[trigger] docs@[i].text@).len() <= u32::MAX),
        documents matches Some(docs) ==> distinct_doc_ids(docs@),
    ensures
        match r {
            Ok(idx) => documents matches Some(docs) && all_names_valid(docs@) && idx.wf()
                && index_describes(idx, docs@),
            Err(IndexError::EmptyOrMissingStore) => documents is None,
            Err(IndexError::MalformedDocument) => documents matches Some(docs) && !all_names_valid(
                docs@,
            ),
        },
{
    let docs = match documents {
        None => {
            return Err(IndexError::EmptyOrMissingStore);
        },
        Some(docs) => docs,
    };
    let mut idx = InvertedIndex { entries: Vec::new() };
    let mut k: usize = 0;
    while k < docs.len()
        invariant
            0 <= k <= docs@.len(),
            documents == Some(docs),
            forall|i: int| 0 <= i < docs@.len() ==> (#[trigger] docs@[i].text@).len() <= u32::MAX,
            distinct_doc_ids(docs@),
            forall|i: int| 0 <= i < k ==> (#[trigger] parse_id_spec(docs@[i].name@)) is Some,
            idx.wf(),
            forall|t: Seq<char>|
                #[trigger] idx.has_term(t) <==> exists|i: int|
                    0 <= i < k && term_count(#[trigger] doc_terms(docs@[i]), t) > 0,
            forall|t: Seq<char>, i: int|
                0 <= i < k ==> (parse_id_spec(docs@[i].name@) matches Some(did)
                    ==> if #[trigger] term_count(doc_terms(docs@[i]), t) > 0 {
                        idx.freq(t, did) matches Some(f) && f == term_count(doc_terms(docs@[i]), t)
                    } else {
                        idx.freq(t, did) is None
                    }),
            forall|t: Seq<char>, id: u32|
                (#[trigger] idx.freq(t, id)) is Some ==> exists|i: int|
                    0 <= i < k && #[trigger] parse_id_spec(docs@[i].name@) == Some(id),
        decreases docs@.len() - k,
    {
        let d = &docs[k];
        let id = match parse_doc_id(d.name.as_str()) {
            None => {
                return Err(IndexError::MalformedDocument);
            },
            Some(id) => id,
        };
        let terms = normalize(d.text.as_str());
        proof {
            lemma_tokens_len(d.text@);
            assert(terms@.len() == terms.deep_view().len());
            assert(terms.deep_view() == doc_terms(docs@[k as int]));
        }
        let fs = count_frequencies(&terms);
        let ghost ts = terms.deep_view();
        proof {
            assert forall|t: Seq<char>| (#[trigger] idx.freq(t, id)) is None by {
                if idx.freq(t, id) is Some {
                    let i = choose|i: int|
                        0 <= i < k && #[trigger] parse_id_spec(docs@[i].name@) == Some(id);
                    assert(parse_id_spec(docs@[k as int].name@) == Some(id));
                }
            }
        }
        let ghost idx_before = idx;
        add_document(&mut idx, id, &fs);
        k += 1;
        proof {
            let kprev = k as int - 1;
            assert forall|t: Seq<char>| #[trigger] idx.has_term(t) <==> exists|i: int|
                0 <= i < k && term_count(#[trigger] doc_terms(docs@[i]), t) > 0 by {
                lemma_term_count_pos_iff(ts, t);
                if idx.has_term(t) {
                    if idx_before.has_term(t) {
                        let i = choose|i: int|
                            0 <= i < kprev && term_count(#[trigger] doc_terms(docs@[i]), t) > 0;
                        assert(0 <= i < k && term_count(doc_terms(docs@[i]), t) > 0);
                    } else {
                        let j = choose|j: int| 0 <= j < fs@.len() && (#[trigger] fs@[j]).term@ == t;
                        assert(fs@[j].count == term_count(ts, t));
                        assert(term_count(doc_terms(docs@[kprev]), t) > 0);
                    }
                } else {
                    if exists|i: int| 0 <= i < k && term_count(#[trigger] doc_terms(docs@[i]), t)
                        > 0 {
                        let i = choose|i: int|
                            0 <= i < k && term_count(#[trigger] doc_terms(docs@[i]), t) > 0;
                        if i < kprev {
                            assert(idx_before.has_term(t));
                        } else {
                            assert(term_count(ts, t) > 0);
                            let j = choose|j: int| 0 <= j < fs@.len() && (#[trigger] fs@[j]).term@ == t;
                            assert(idx.has_term(t));
                        }
                    }
                }
            }
            assert forall|t: Seq<char>, i: int|
                0 <= i < k implies (parse_id_spec(docs@[i].name@) matches Some(did)
                ==> if #[trigger] term_count(doc_terms(docs@[i]), t) > 0 {
                    idx.freq(t, did) matches Some(f) && f == term_count(doc_terms(docs@[i]), t)
                } else {
                    idx.freq(t, did) is None
                }) by {
                if parse_id_spec(docs@[i].name@) is Some {
                    let did = parse_id_spec(docs@[i].name@).unwrap();
                    if i < kprev {
                        assert(did != id);
                        assert(idx.freq(t, did) == idx_before.freq(t, did));
                    } else {
                        assert(did == id);
                        lemma_term_count_le_len(ts, t);
                        if term_count(doc_terms(docs@[i]), t) > 0 {
                            let j = choose|j: int|
                                0 <= j < fs@.len() && (#[trigger] fs@[j]).term@ == t;
                            assert(idx.freq(t, id) == Some(fs@[j].count));
                            assert(fs@[j].count == term_count(ts, t));
                        } else {
                            assert forall|j: int| 0 <= j < fs@.len() implies (
                            #[trigger] fs@[j]).term@ != t by {
                                if fs@[j].term@ == t {
                                    assert(fs@[j].count == term_count(ts, t) && fs@[j].count > 0);
                                }
                            }
                            assert(idx.freq(t, id) is None);
                        }
                    }
                }
            }
            assert forall|t: Seq<char>, id2: u32| (#[trigger] idx.freq(t, id2)) is Some implies exists|i: int|
                0 <= i < k && #[trigger] parse_id_spec(docs@[i].name@) == Some(id2) by {
                if id2 == id {
                    assert(parse_id_spec(docs@[kprev].name@) == Some(id2));
                } else {
                    assert(idx.freq(t, id2) == idx_before.freq(t, id2));
                    let i = choose|i: int|
                        0 <= i < kprev && #[trigger] parse_id_spec(docs@[i].name@) == Some(id2);
                    assert(0 <= i < k && parse_id_spec(docs@[i].name@) == Some(id2));
                }
            }
        }
    }
    Ok(idx)
}

/// Law: index construction is deterministic in content. Two indexes that
/// both describe the same document sequence agree on which terms are
/// indexed and on every recorded frequency; rebuilding from an unchanged
/// store can change nothing.
pub proof fn lemma_index_content_deterministic(
    i1: InvertedIndex,
    i2: InvertedIndex,
    docs: Seq<RawDocument>,
)
    requires
        index_describes(i1, docs),
        index_describes(i2, docs),
    ensures
        forall|t: Seq<char>| i1.has_term(t) == i2.has_term(t),
        forall|t: Seq<char>, id: u32| i1.freq(t, id) == i2.freq(t, id),
{
    assert forall|t: Seq<char>| i1.has_term(t) == i2.has_term(t) by {
        assert(i1.has_term(t) <==> exists|i: int|
            0 <= i < docs.len() && term_count(#[trigger] doc_terms(docs[i]), t) > 0);
        assert(i2.has_term(t) <==> exists|i: int|
            0 <= i < docs.len() && term_count(#[trigger] doc_terms(docs[i]), t) > 0);
    }
    assert forall|t: Seq<char>, id: u32| i1.freq(t, id) == i2.freq(t, id) by {
        if i1.freq(t, id) is Some {
            let i = choose|i: int|
                0 <= i < docs.len() && #[trigger] parse_id_spec(docs[i].name@) == Some(id);
            assert(term_count(doc_terms(docs[i]), t) >= 0);
        } else if i2.freq(t, id) is Some {
            let i = choose|i: int|
                0 <= i < docs.len() && #[trigger] parse_id_spec(docs[i].name@) == Some(id);
            assert(term_count(doc_terms(docs[i]), t) >= 0);
        }
    }
}

/// No two postings of the sequence mention the same document.
pub open spec fn distinct_posting_ids(ps: Seq<Posting>) -> bool {
    forall|k1: int, k2: int|
        0 <= k1 < k2 < ps.len() ==> (#[trigger] ps[k1]).id != (#[trigger] ps[k2]).id
}

/// A recorded frequency comes from some posting of the sequence.
proof fn lemma_tf_some_contains(ps: Seq<Posting>, id: u32)
    requires
        tf_of(ps, id) is Some,
    ensures
        exists|k: int|
            0 <= k < ps.len() && (#[trigger] ps[k]).id == id && Some(ps[k].tf) == tf_of(ps, id),
    decreases ps.len(),
{
    if ps.last().id == id {
        assert(ps[ps.len() - 1].id == id);
    } else {
        lemma_tf_some_contains(ps.drop_last(), id);
        let k = choose|k: int|
            0 <= k < ps.drop_last().len() && (#[trigger] ps.drop_last()[k]).id == id && Some(
                ps.drop_last()[k].tf,
            ) == tf_of(ps.drop_last(), id);
        assert(ps[k].id == id && Some(ps[k].tf) == tf_of(ps, id));
    }
}

/// Removing the one posting of a document removes exactly that document's
/// record and no other.
proof fn lemma_tf_remove(ps: Seq<Posting>, k: int, id: u32)
    requires
        0 <= k < ps.len(),
        distinct_posting_ids(ps),
    ensures
        tf_of(ps.remove(k), id) == if id == ps[k].id {
            None
        } else {
            tf_of(ps, id)
        },
    decreases ps.len(),
{
    if k == ps.len() - 1 {
        assert(ps.remove(k) =~= ps.drop_last());
        if id == ps[k].id {
            lemma_tf_none_iff(ps.drop_last(), id);
            assert(forall|m: int|
                0 <= m < ps.len() - 1 ==> (#[trigger] ps.drop_last()[m]) == ps[m]);
        }
    } else {
        assert(ps.remove(k).last() == ps.last());
        assert(ps.remove(k).drop_last() =~= ps.drop_last().remove(k));
        assert(distinct_posting_ids(ps.drop_last())) by {
            assert(forall|m: int|
                0 <= m < ps.len() - 1 ==> (#[trigger] ps.drop_last()[m]) == ps[m]);
        }
        lemma_tf_remove(ps.drop_last(), k, id);
        assert(ps.drop_last()[k] == ps[k]);
    }
}

/// Law: a posting collection is determined by what it records. Two
/// posting sequences without duplicate documents that record the same
/// frequency for every document hold the same postings, as multisets.
pub proof fn lemma_postings_content_determined(ps1: Seq<Posting>, ps2: Seq<Posting>)
    requires
        distinct_posting_ids(ps1),
        distinct_posting_ids(ps2),
        forall|id: u32| #[trigger] tf_of(ps1, id) == tf_of(ps2, id),
    ensures
        ps1.to_multiset() == ps2.to_multiset(),
    decreases ps1.len(),
{
    broadcast use vstd::seq_lib::group_to_multiset_ensures;
    broadcast use vstd::multiset::group_multiset_axioms;

    if ps1.len() == 0 {
        if ps2.len() > 0 {
            assert(tf_of(ps1, ps2.last().id) is None);
            assert(tf_of(ps2, ps2.last().id) is Some);
            assert(false);
        }
        assert(ps1.to_multiset() =~= ps2.to_multiset());
    } else {
        let p1 = ps1.last();
        assert(tf_of(ps1, p1.id) == Some(p1.tf));
        lemma_tf_some_contains(ps2, p1.id);
        let k = choose|k: int|
            0 <= k < ps2.len() && (#[trigger] ps2[k]).id == p1.id && Some(ps2[k].tf) == tf_of(
                ps2,
                p1.id,
            );
        assert(ps2[k] == p1);
        let rest1 = ps1.drop_last();
        let rest2 = ps2.remove(k);
        assert(distinct_posting_ids(rest1)) by {
            assert(forall|m: int| 0 <= m < ps1.len() - 1 ==> (#[trigger] rest1[m]) == ps1[m]);
        }
        assert(distinct_posting_ids(rest2)) by {
            assert(forall|m1: int, m2: int|
                0 <= m1 < m2 < rest2.len() ==> (#[trigger] rest2[m1]).id != (
                #[trigger] rest2[m2]).id);
        }
        assert forall|id: u32| #[trigger] tf_of(rest1, id) == tf_of(rest2, id) by {
            assert(tf_of(ps1, id) == tf_of(ps2, id));
            lemma_tf_remove(ps2, k, id);
            if id == p1.id {
                lemma_tf_none_iff(rest1, id);
                assert(forall|m: int| 0 <= m < ps1.len() - 1 ==> (#[trigger] rest1[m]) == ps1[m]);
            }
        }
        lemma_postings_content_determined(rest1, rest2);
        assert(ps1.remove(ps1.len() - 1) =~= rest1);
        assert(rest1.to_multiset() == ps1.to_multiset().remove(p1));
        assert(rest2.to_multiset() == ps2.to_multiset().remove(p1));
        assert(ps1.to_multiset().count(p1) > 0) by {
            assert(ps1.contains(p1));
        }
        assert(ps2.to_multiset().count(p1) > 0) by {
            assert(ps2.contains(ps2[k]));
        }
        assert(ps1.to_multiset().remove(p1).insert(p1) =~= ps1.to_multiset());
        assert(ps2.to_multiset().remove(p1).insert(p1) =~= ps2.to_multiset());
        assert(ps1.to_multiset() == ps2.to_multiset());
    }
}

/// In a well-formed index, a term's postings come from one entry, so they
/// mention no document twice.
proof fn lemma_wf_postings_distinct(idx: InvertedIndex, t: Seq<char>)
    requires
        idx.wf(),
    ensures
        distinct_posting_ids(idx.postings_of(t)),
{
    lemma_has_term_index(idx.entries@, t);
    if idx.has_term(t) {
        let j = choose|j: int| 0 <= j < idx.entries@.len() && idx.entries@[j].term@ == t;
        lemma_postings_at_last_match(idx.entries@, j, t);
    } else {
        lemma_no_term_postings(idx.entries@, t);
    }
}

/// Law: rebuilding the index from an unchanged document store yields, for
/// every term, the identical set of postings.
pub proof fn lemma_rebuild_identical(i1: InvertedIndex, i2: InvertedIndex, docs: Seq<RawDocument>)
    requires
        i1.wf(),
        i2.wf(),
        index_describes(i1, docs),
        index_describes(i2, docs),
    ensures
        forall|t: Seq<char>|
            #[trigger] i1.postings_of(t).to_multiset() == i2.postings_of(t).to_multiset(),
{
    lemma_index_content_deterministic(i1, i2, docs);
    assert forall|t: Seq<char>| #[trigger] i1.postings_of(t).to_multiset() == i2.postings_of(
        t,
    ).to_multiset() by {
        lemma_wf_postings_distinct(i1, t);
        lemma_wf_postings_distinct(i2, t);
        assert forall|id: u32| #[trigger] tf_of(i1.postings_of(t), id) == tf_of(
            i2.postings_of(t),
            id,
        ) by {
            assert(i1.freq(t, id) == i2.freq(t, id));
        }
        lemma_postings_content_determined(i1.postings_of(t), i2.postings_of(t));
    }
}

} // verus!

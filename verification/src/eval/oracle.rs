//! Location-only ref→def pairs from a SCIP index, for writing `oracle.edges`.
//!
//! The index is decoded by the `scip` crate; its documents are read back as
//! plain values. Every occurrence whose symbol roles carry the definition bit
//! defines its symbol; the first such occurrence (in document order) is the
//! symbol's definition site. Every other occurrence of a defined symbol is a
//! reference and makes a pair `(ref_path, ref_line, def_path, def_line)`,
//! lines 1-based, unless it sits on the definition's own line. The pairs come
//! out sorted and without duplicates.

use vstd::prelude::*;
use crate::eval::corpus::{oracle_manifest_text, oracle_line_text, loc_text, pair_keys, pair_key};
use crate::eval::score::LocKey;
use crate::text::{
    chars_of, chars_lt, lex_lt, str_eq, views, lemma_lex_irreflexive, lemma_lex_total, lemma_lex_transitive, push_str_chars,
    push_decimal, string_from_chars,
};

verus! {

broadcast use vstd::seq_lib::group_seq_properties, vstd::set::group_set_axioms;

/// One occurrence in a SCIP document: its symbol, role bits and range.
pub struct ScipOccurrence {
    pub symbol: String,
    pub symbol_roles: i32,
    pub range: Vec<i32>,
}

/// A SCIP occurrence as plain values.
pub struct ScipOccurrenceView {
    pub symbol: Seq<char>,
    pub symbol_roles: i32,
    pub range: Seq<i32>,
}

impl View for ScipOccurrence {
    type V = ScipOccurrenceView;

    open spec fn view(&self) -> ScipOccurrenceView {
        ScipOccurrenceView { symbol: self.symbol@, symbol_roles: self.symbol_roles, range: self.range@ }
    }
}

/// One SCIP document: its case-relative path and its occurrences.
pub struct ScipDocument {
    pub relative_path: String,
    pub occurrences: Vec<ScipOccurrence>,
}

/// A SCIP document as plain values.
pub struct ScipDocumentView {
    pub relative_path: Seq<char>,
    pub occurrences: Seq<ScipOccurrenceView>,
}

impl View for ScipDocument {
    type V = ScipDocumentView;

    open spec fn view(&self) -> ScipDocumentView {
        ScipDocumentView { relative_path: self.relative_path@, occurrences: views(self.occurrences@) }
    }
}

/// The documents of the SCIP index the protobuf bytes `bytes` encode, as
/// plain values; `None` when they decode to no index.
pub uninterp spec fn scip_documents(bytes: Seq<u8>) -> Option<Seq<ScipDocumentView>>;

/// `Message::parse_from_bytes` of `scip::types::Index`: the documents of the
/// index `bytes` encode, each path, symbol, role set and range copied as is.
/// A decoding failure is the decoder's error as text; its wording is not
/// stated here.
#[verifier::external_body]
fn decode_scip(bytes: &[u8]) -> (r: Result<Vec<ScipDocument>, String>)
    ensures
        r is Ok <==> scip_documents(bytes@) is Some,
        r matches Ok(docs) ==> scip_documents(bytes@) == Some(views(docs@)),
{
    match <scip::types::Index as protobuf::Message>::parse_from_bytes(bytes) {
        Ok(index) => Ok(index.documents.iter().map(|d| ScipDocument {
            relative_path: d.relative_path.clone(),
            occurrences: d.occurrences.iter().map(|o| ScipOccurrence {
                symbol: o.symbol.clone(),
                symbol_roles: o.symbol_roles,
                range: o.range.clone(),
            }).collect(),
        }).collect()),
        Err(e) => Err(e.to_string()),
    }
}

/// An occurrence together with the path of its document.
pub type Located = (Seq<char>, ScipOccurrenceView);

/// The occurrences `occs` of the document at `path`.
pub open spec fn located(path: Seq<char>, occs: Seq<ScipOccurrenceView>) -> Seq<Located> {
    occs.map_values(|o: ScipOccurrenceView| (path, o))
}

/// Every occurrence of `docs`, in document order, with its document's path.
pub open spec fn all_occurrences(docs: Seq<ScipDocumentView>) -> Seq<Located>
    decreases docs.len(),
{
    if docs.len() == 0 {
        Seq::empty()
    } else {
        all_occurrences(docs.drop_last()) + located(docs.last().relative_path, docs.last().occurrences)
    }
}

/// Whether occurrence `o` carries the `Definition` role (bit 1).
pub open spec fn is_definition(o: ScipOccurrenceView) -> bool {
    (o.symbol_roles & 1) != 0
}

/// The 1-based line of occurrence `o`: its range's first element, read as
/// an unsigned 0-based line (0 when the range is empty), plus one.
pub open spec fn start_line(o: ScipOccurrenceView) -> int {
    (if o.range.len() == 0 {
        0u32
    } else {
        o.range[0] as u32
    }) + 1
}

/// The definition site of `symbol` among `occs`: the path and line of its
/// first defining occurrence.
pub open spec fn first_definition(occs: Seq<Located>, symbol: Seq<char>) -> Option<(Seq<char>, int)>
    decreases occs.len(),
{
    if occs.len() == 0 {
        None
    } else {
        match first_definition(occs.drop_last(), symbol) {
            Some(d) => Some(d),
            None => if is_definition(occs.last().1) && occs.last().1.symbol == symbol {
                Some((occs.last().0, start_line(occs.last().1)))
            } else {
                None
            },
        }
    }
}

/// A location pair: reference path and line, definition path and line.
pub type OraclePair = (Seq<char>, int, Seq<char>, int);

/// The pair occurrence `l` makes among `occs`: a non-definition occurrence
/// of a defined, non-empty symbol, to that symbol's definition site, unless
/// both lie on the same line of the same file.
pub open spec fn pair_of(occs: Seq<Located>, l: Located) -> Option<OraclePair> {
    if l.1.symbol.len() == 0 || is_definition(l.1) {
        None
    } else {
        match first_definition(occs, l.1.symbol) {
            Some(d) => if l.0 == d.0 && start_line(l.1) == d.1 {
                None
            } else {
                Some((l.0, start_line(l.1), d.0, d.1))
            },
            None => None,
        }
    }
}

/// The pairs the first `n` of `occs` make.
pub open spec fn pairs_upto(occs: Seq<Located>, n: int) -> Set<OraclePair>
    decreases n,
{
    if n <= 0 {
        Set::empty()
    } else {
        match pair_of(occs, occs[n - 1]) {
            Some(p) => pairs_upto(occs, n - 1).insert(p),
            None => pairs_upto(occs, n - 1),
        }
    }
}

/// The pairs the occurrences of `docs` make.
pub open spec fn oracle_pair_set(docs: Seq<ScipDocumentView>) -> Set<OraclePair> {
    pairs_upto(all_occurrences(docs), all_occurrences(docs).len() as int)
}

/// Whether every line read from `docs` fits a `u32`: that of each defining
/// occurrence of a non-empty symbol, and that of each other occurrence of a
/// defined one.
pub open spec fn lines_fit(docs: Seq<ScipDocumentView>) -> bool {
    let occs = all_occurrences(docs);
    forall|i: int|
        0 <= i < occs.len() && (#[trigger] occs[i]).1.symbol.len() > 0 && (is_definition(occs[i].1) || first_definition(
            occs,
            occs[i].1.symbol,
        ) is Some) ==> start_line(occs[i].1) <= u32::MAX
}

/// Pairs ordered as tuples: by reference path, then line, then definition
/// path, then line, paths compared character by character.
pub open spec fn pair_lt(a: OraclePair, b: OraclePair) -> bool {
    ||| lex_lt(a.0, b.0)
    ||| a.0 == b.0 && a.1 < b.1
    ||| a.0 == b.0 && a.1 == b.1 && lex_lt(a.2, b.2)
    ||| a.0 == b.0 && a.1 == b.1 && a.2 == b.2 && a.3 < b.3
}

/// `s` is strictly increasing, so free of duplicates.
pub open spec fn sorted_pairs(s: Seq<OraclePair>) -> bool {
    forall|i: int, j: int| 0 <= i < j < s.len() ==> pair_lt(#[trigger] s[i], #[trigger] s[j])
}

/// A pair as plain values.
pub open spec fn pair_view(p: (String, u32, String, u32)) -> OraclePair {
    (p.0@, p.1 as int, p.2@, p.3 as int)
}

/// Pairs as plain values.
pub open spec fn pairs_view(v: Seq<(String, u32, String, u32)>) -> Seq<OraclePair> {
    Seq::new(v.len(), |i: int| pair_view(v[i]))
}

proof fn lemma_pair_irreflexive(a: OraclePair)
    ensures
        !pair_lt(a, a),
{
    lemma_lex_irreflexive(a.0);
    lemma_lex_irreflexive(a.2);
}

proof fn lemma_pair_total(a: OraclePair, b: OraclePair)
    ensures
        a == b || pair_lt(a, b) || pair_lt(b, a),
{
    lemma_lex_total(a.0, b.0);
    lemma_lex_total(a.2, b.2);
}

proof fn lemma_pair_transitive(a: OraclePair, b: OraclePair, c: OraclePair)
    requires
        pair_lt(a, b),
        pair_lt(b, c),
    ensures
        pair_lt(a, c),
{
    if lex_lt(a.0, b.0) && lex_lt(b.0, c.0) {
        lemma_lex_transitive(a.0, b.0, c.0);
    }
    if lex_lt(a.2, b.2) && lex_lt(b.2, c.2) {
        lemma_lex_transitive(a.2, b.2, c.2);
    }
}

/// Where each occurrence of `docs` sits: for the `k`-th of
/// `all_occurrences`, its document and its index there.
fn occurrence_index(docs: &Vec<ScipDocument>) -> (r: Vec<(usize, usize)>)
    ensures
        r@.len() == all_occurrences(views(docs@)).len(),
        forall|k: int|
            0 <= k < r@.len() ==> {
                &&& (#[trigger] r@[k]).0 < docs.len()
                &&& r@[k].1 < docs@[r@[k].0 as int].occurrences.len()
                &&& all_occurrences(views(docs@))[k] == (
                    docs@[r@[k].0 as int].relative_path@,
                    docs@[r@[k].0 as int].occurrences@[r@[k].1 as int]@,
                )
            },
{
    let ghost dv = views(docs@);
    let mut out: Vec<(usize, usize)> = Vec::new();
    let mut d: usize = 0;
    assert(dv.take(0) =~= Seq::<ScipDocumentView>::empty());
    while d < docs.len()
        invariant
            d <= docs.len(),
            dv == views(docs@),
            out@.len() == all_occurrences(dv.take(d as int)).len(),
            forall|k: int|
                0 <= k < out@.len() ==> {
                    &&& (#[trigger] out@[k]).0 < docs.len()
                    &&& out@[k].1 < docs@[out@[k].0 as int].occurrences.len()
                    &&& all_occurrences(dv.take(d as int))[k] == (
                        docs@[out@[k].0 as int].relative_path@,
                        docs@[out@[k].0 as int].occurrences@[out@[k].1 as int]@,
                    )
                },
        decreases docs.len() - d,
    {
        let ghost base = all_occurrences(dv.take(d as int));
        let ghost doc = dv[d as int];
        let n = docs[d].occurrences.len();
        let mut j: usize = 0;
        while j < n
            invariant
                d < docs.len(),
                j <= n,
                n == docs@[d as int].occurrences.len(),
                dv == views(docs@),
                doc == dv[d as int],
                out@.len() == base.len() + j,
                forall|k: int|
                    0 <= k < out@.len() ==> {
                        &&& (#[trigger] out@[k]).0 < docs.len()
                        &&& out@[k].1 < docs@[out@[k].0 as int].occurrences.len()
                        &&& (base + located(doc.relative_path, doc.occurrences.take(j as int)))[k] == (
                            docs@[out@[k].0 as int].relative_path@,
                            docs@[out@[k].0 as int].occurrences@[out@[k].1 as int]@,
                        )
                    },
            decreases n - j,
        {
            let ghost before = out@;
            out.push((d, j));
            proof {
                let pre = base + located(doc.relative_path, doc.occurrences.take(j as int));
                let post = base + located(doc.relative_path, doc.occurrences.take(j + 1));
                assert(post =~= pre.push((doc.relative_path, doc.occurrences[j as int])));
                assert forall|k: int| 0 <= k < out@.len() implies {
                    &&& (#[trigger] out@[k]).0 < docs.len()
                    &&& out@[k].1 < docs@[out@[k].0 as int].occurrences.len()
                    &&& post[k] == (
                        docs@[out@[k].0 as int].relative_path@,
                        docs@[out@[k].0 as int].occurrences@[out@[k].1 as int]@,
                    )
                } by {
                    if k < before.len() {
                        assert(out@[k] == before[k]);
                    }
                }
            }
            j = j + 1;
        }
        proof {
            assert(dv.take(d + 1).drop_last() =~= dv.take(d as int));
            assert(dv.take(d + 1).last() == doc);
            assert(doc.occurrences.take(n as int) =~= doc.occurrences);
            assert(all_occurrences(dv.take(d + 1)) == base + located(doc.relative_path, doc.occurrences));
        }
        d = d + 1;
    }
    assert(dv.take(docs.len() as int) =~= dv);
    out
}

/// The 1-based line of occurrence `o`, widened so that it cannot overflow.
fn occurrence_line(o: &ScipOccurrence) -> (r: u64)
    ensures
        r == start_line(o@),
{
    let first: u32 = if o.range.len() == 0 {
        0
    } else {
        o.range[0] as u32
    };
    first as u64 + 1
}

/// A definition table as plain values: symbol, path, line.
pub open spec fn table_view(t: Seq<(String, String, u64)>) -> Seq<(Seq<char>, Seq<char>, int)> {
    Seq::new(t.len(), |i: int| (t[i].0@, t[i].1@, t[i].2 as int))
}

/// The path and line the first entry of `tab` for `symbol` gives.
pub open spec fn table_lookup(tab: Seq<(Seq<char>, Seq<char>, int)>, symbol: Seq<char>) -> Option<(Seq<char>, int)>
    decreases tab.len(),
{
    if tab.len() == 0 {
        None
    } else {
        match table_lookup(tab.drop_last(), symbol) {
            Some(d) => Some(d),
            None => if tab.last().0 == symbol {
                Some((tab.last().1, tab.last().2))
            } else {
                None
            },
        }
    }
}

/// No symbol has two entries in `tab`.
pub open spec fn table_unique(tab: Seq<(Seq<char>, Seq<char>, int)>) -> bool {
    forall|i: int, j: int| 0 <= i < j < tab.len() ==> (#[trigger] tab[i]).0 != (#[trigger] tab[j]).0
}

proof fn lemma_table_lookup(tab: Seq<(Seq<char>, Seq<char>, int)>, symbol: Seq<char>, i: int)
    requires
        table_unique(tab),
        0 <= i < tab.len(),
        tab[i].0 == symbol,
    ensures
        table_lookup(tab, symbol) == Some((tab[i].1, tab[i].2)),
    decreases tab.len(),
{
    if i < tab.len() - 1 {
        let t = tab.drop_last();
        assert(t[i] == tab[i]);
        lemma_table_lookup(t, symbol, i);
    } else {
        lemma_table_absent(tab.drop_last(), symbol);
    }
}

proof fn lemma_table_absent(tab: Seq<(Seq<char>, Seq<char>, int)>, symbol: Seq<char>)
    requires
        forall|i: int| 0 <= i < tab.len() ==> (#[trigger] tab[i]).0 != symbol,
    ensures
        table_lookup(tab, symbol) is None,
    decreases tab.len(),
{
    if tab.len() > 0 {
        let t = tab.drop_last();
        assert forall|i: int| 0 <= i < t.len() implies (#[trigger] t[i]).0 != symbol by {
            assert(t[i] == tab[i]);
        }
        lemma_table_absent(t, symbol);
    }
}

/// The index of the entry of `tab` for `symbol`, if any.
fn find_definition(tab: &Vec<(String, String, u64)>, symbol: &str) -> (r: Option<usize>)
    ensures
        r matches Some(i) ==> i < tab.len() && tab@[i as int].0@ == symbol@,
        r is None ==> forall|i: int| 0 <= i < tab.len() ==> (#[trigger] tab@[i]).0@ != symbol@,
{
    let mut i: usize = 0;
    while i < tab.len()
        invariant
            i <= tab.len(),
            forall|k: int| 0 <= k < i ==> (#[trigger] tab@[k]).0@ != symbol@,
        decreases tab.len() - i,
    {
        if str_eq(tab[i].0.as_str(), symbol) {
            return Some(i);
        }
        i = i + 1;
    }
    None
}

proof fn lemma_first_definition_site(occs: Seq<Located>, symbol: Seq<char>)
    requires
        first_definition(occs, symbol) is Some,
    ensures
        exists|i: int|
            0 <= i < occs.len() && is_definition((#[trigger] occs[i]).1) && occs[i].1.symbol == symbol
                && first_definition(occs, symbol) == Some((occs[i].0, start_line(occs[i].1))),
    decreases occs.len(),
{
    let t = occs.drop_last();
    if first_definition(t, symbol) is Some {
        lemma_first_definition_site(t, symbol);
        let i = choose|i: int|
            0 <= i < t.len() && is_definition((#[trigger] t[i]).1) && t[i].1.symbol == symbol
                && first_definition(t, symbol) == Some((t[i].0, start_line(t[i].1)));
        assert(occs[i] == t[i]);
    } else {
        assert(occs[occs.len() - 1] == occs.last());
    }
}

/// The definition site of every non-empty symbol of `docs` (indexed by
/// `idx`): the first of its defining occurrences, one entry per symbol.
fn definition_table(docs: &Vec<ScipDocument>, idx: &Vec<(usize, usize)>) -> (r: Vec<(String, String, u64)>)
    requires
        idx@.len() == all_occurrences(views(docs@)).len(),
        forall|k: int|
            0 <= k < idx@.len() ==> {
                &&& (#[trigger] idx@[k]).0 < docs.len()
                &&& idx@[k].1 < docs@[idx@[k].0 as int].occurrences.len()
                &&& all_occurrences(views(docs@))[k] == (
                    docs@[idx@[k].0 as int].relative_path@,
                    docs@[idx@[k].0 as int].occurrences@[idx@[k].1 as int]@,
                )
            },
    ensures
        table_unique(table_view(r@)),
        forall|s: Seq<char>|
            s.len() > 0 ==> #[trigger] table_lookup(table_view(r@), s) == first_definition(all_occurrences(views(docs@)), s),
{
    let ghost occs = all_occurrences(views(docs@));
    let mut tab: Vec<(String, String, u64)> = Vec::new();
    let mut k: usize = 0;
    while k < idx.len()
        invariant
            k <= idx.len(),
            occs == all_occurrences(views(docs@)),
            idx@.len() == occs.len(),
            forall|x: int|
                0 <= x < idx@.len() ==> {
                    &&& (#[trigger] idx@[x]).0 < docs.len()
                    &&& idx@[x].1 < docs@[idx@[x].0 as int].occurrences.len()
                    &&& occs[x] == (
                        docs@[idx@[x].0 as int].relative_path@,
                        docs@[idx@[x].0 as int].occurrences@[idx@[x].1 as int]@,
                    )
                },
            table_unique(table_view(tab@)),
            forall|s: Seq<char>|
                s.len() > 0 ==> #[trigger] table_lookup(table_view(tab@), s) == first_definition(occs.take(k as int), s),
        decreases idx.len() - k,
    {
        let (d, j) = idx[k];
        let doc = &docs[d];
        let o = &doc.occurrences[j];
        let ghost before = tab@;
        proof {
            assert(occs.take(k + 1).drop_last() =~= occs.take(k as int));
            assert(occs.take(k + 1).last() == occs[k as int]);
        }
        if !o.symbol.as_str().is_empty() && (o.symbol_roles & 1) != 0 {
            match find_definition(&tab, o.symbol.as_str()) {
                Some(_) => {},
                None => {
                    let line = occurrence_line(o);
                    tab.push((o.symbol.clone(), doc.relative_path.clone(), line));
                    proof {
                        let tv = table_view(tab@);
                        assert(tv.drop_last() =~= table_view(before));
                        assert forall|s: Seq<char>| s.len() > 0 implies #[trigger] table_lookup(tv, s) == first_definition(
                            occs.take(k + 1),
                            s,
                        ) by {
                            assert(table_lookup(table_view(before), s) == first_definition(occs.take(k as int), s));
                            assert(tv.last() == (o.symbol@, doc.relative_path@, line as int));
                            assert(occs[k as int] == (doc.relative_path@, o@));
                            if s == o.symbol@ {
                                lemma_table_absent(table_view(before), s);
                            }
                        }
                        assert forall|a: int, b: int| 0 <= a < b < tv.len() implies (#[trigger] tv[a]).0 != (#[trigger] tv[b]).0 by {
                            if b == tv.len() - 1 {
                                assert(table_view(before)[a] == tv[a]);
                            } else {
                                assert(table_view(before)[a] == tv[a]);
                                assert(table_view(before)[b] == tv[b]);
                            }
                        }
                    }
                },
            }
            proof {
                assert forall|s: Seq<char>| s.len() > 0 implies #[trigger] table_lookup(table_view(tab@), s) == first_definition(
                    occs.take(k + 1),
                    s,
                ) by {
                    if tab@ == before && s == o.symbol@ {
                        let i = choose|i: int| 0 <= i < before.len() && (#[trigger] before[i]).0@ == s;
                        assert(table_view(before)[i].0 == s);
                        lemma_table_lookup(table_view(before), s, i);
                    }
                }
            }
        }
        k = k + 1;
    }
    assert(occs.take(idx.len() as int) =~= occs);
    tab
}

/// The entry of `tab` for `symbol`, as `table_lookup` gives it.
fn lookup_definition(tab: &Vec<(String, String, u64)>, symbol: &str) -> (r: Option<usize>)
    requires
        table_unique(table_view(tab@)),
    ensures
        r matches Some(i) ==> i < tab.len() && table_lookup(table_view(tab@), symbol@) == Some(
            (tab@[i as int].1@, tab@[i as int].2 as int),
        ),
        r is None ==> table_lookup(table_view(tab@), symbol@) is None,
{
    let found = find_definition(tab, symbol);
    proof {
        let tv = table_view(tab@);
        match found {
            Some(i) => {
                assert(tv[i as int].0 == symbol@);
                lemma_table_lookup(tv, symbol@, i as int);
            },
            None => {
                assert forall|k: int| 0 <= k < tv.len() implies (#[trigger] tv[k]).0 != symbol@ by {
                    assert(tab@[k].0@ != symbol@);
                }
                lemma_table_absent(tv, symbol@);
            },
        }
    }
    found
}

/// Whether every line read from `docs` fits a `u32` (see `lines_fit`).
pub fn lines_within(docs: &Vec<ScipDocument>) -> (r: bool)
    ensures
        r == lines_fit(views(docs@)),
{
    let ghost occs = all_occurrences(views(docs@));
    let idx = occurrence_index(docs);
    let tab = definition_table(docs, &idx);
    let mut k: usize = 0;
    while k < idx.len()
        invariant
            k <= idx.len(),
            occs == all_occurrences(views(docs@)),
            idx@.len() == occs.len(),
            forall|x: int|
                0 <= x < idx@.len() ==> {
                    &&& (#[trigger] idx@[x]).0 < docs.len()
                    &&& idx@[x].1 < docs@[idx@[x].0 as int].occurrences.len()
                    &&& occs[x] == (
                        docs@[idx@[x].0 as int].relative_path@,
                        docs@[idx@[x].0 as int].occurrences@[idx@[x].1 as int]@,
                    )
                },
            table_unique(table_view(tab@)),
            forall|s: Seq<char>| s.len() > 0 ==> #[trigger] table_lookup(table_view(tab@), s) == first_definition(occs, s),
            forall|i: int|
                0 <= i < k && (#[trigger] occs[i]).1.symbol.len() > 0 && (is_definition(occs[i].1) || first_definition(
                    occs,
                    occs[i].1.symbol,
                ) is Some) ==> start_line(occs[i].1) <= u32::MAX,
        decreases idx.len() - k,
    {
        let (d, j) = idx[k];
        let o = &docs[d].occurrences[j];
        assert(occs[k as int] == (docs@[d as int].relative_path@, o@));
        if !o.symbol.as_str().is_empty() {
            let counts = (o.symbol_roles & 1) != 0 || lookup_definition(&tab, o.symbol.as_str()).is_some();
            assert(counts == (is_definition(o@) || first_definition(occs, o.symbol@) is Some)) by {
                assert(table_lookup(table_view(tab@), o.symbol@) == first_definition(occs, o.symbol@));
            }
            if counts && occurrence_line(o) > 0xffff_ffffu64 {
                return false;
            }
        }
        k = k + 1;
    }
    true
}

/// Whether pair `a` sorts strictly before pair `b`.
fn pair_less(a: &(String, u32, String, u32), b: &(String, u32, String, u32)) -> (r: bool)
    ensures
        r == pair_lt(pair_view(*a), pair_view(*b)),
{
    let a0 = chars_of(a.0.as_str());
    let b0 = chars_of(b.0.as_str());
    if chars_lt(&a0, &b0) {
        return true;
    }
    if !str_eq(a.0.as_str(), b.0.as_str()) {
        return false;
    }
    if a.1 != b.1 {
        return a.1 < b.1;
    }
    let a2 = chars_of(a.2.as_str());
    let b2 = chars_of(b.2.as_str());
    if chars_lt(&a2, &b2) {
        return true;
    }
    if !str_eq(a.2.as_str(), b.2.as_str()) {
        return false;
    }
    a.3 < b.3
}

/// Whether pairs `a` and `b` are the same.
fn pair_same(a: &(String, u32, String, u32), b: &(String, u32, String, u32)) -> (r: bool)
    ensures
        r == (pair_view(*a) == pair_view(*b)),
{
    str_eq(a.0.as_str(), b.0.as_str()) && a.1 == b.1 && str_eq(a.2.as_str(), b.2.as_str()) && a.3 == b.3
}

/// Add `p` to the sorted pairs `out`, keeping them sorted and free of
/// duplicates.
fn insert_sorted(out: &mut Vec<(String, u32, String, u32)>, p: (String, u32, String, u32))
    requires
        sorted_pairs(pairs_view(old(out)@)),
    ensures
        sorted_pairs(pairs_view(final(out)@)),
        pairs_view(final(out)@).to_set() == pairs_view(old(out)@).to_set().insert(pair_view(p)),
{
    let ghost pv = pair_view(p);
    let ghost ov = pairs_view(out@);
    let mut i: usize = 0;
    while i < out.len() && pair_less(&out[i], &p)
        invariant
            i <= out.len(),
            out@ == old(out)@,
            ov == pairs_view(out@),
            pv == pair_view(p),
            forall|j: int| 0 <= j < i ==> pair_lt(#[trigger] ov[j], pv),
        decreases out.len() - i,
    {
        i = i + 1;
    }
    if i < out.len() && pair_same(&out[i], &p) {
        assert(ov[i as int] == pv);
        assert(ov.to_set().insert(pv) =~= ov.to_set()) by {
            assert(ov.contains(pv));
        }
        return;
    }
    proof {
        if i < out.len() {
            assert(ov[i as int] == pair_view(out@[i as int]));
            lemma_pair_total(ov[i as int], pv);
        }
    }
    out.insert(i, p);
    proof {
        let nv = pairs_view(out@);
        assert(nv =~= ov.insert(i as int, pv));
        assert forall|a: int, b: int| 0 <= a < b < nv.len() implies pair_lt(#[trigger] nv[a], #[trigger] nv[b]) by {
            if b < i {
                assert(nv[a] == ov[a] && nv[b] == ov[b]);
            } else if b == i {
                assert(nv[a] == ov[a]);
            } else if a < i {
                assert(nv[a] == ov[a] && nv[b] == ov[b - 1]);
                assert(a < b - 1);
            } else if a == i {
                assert(nv[b] == ov[b - 1]);
                if b - 1 > i {
                    assert(pair_lt(ov[i as int], ov[b - 1]));
                    lemma_pair_transitive(pv, ov[i as int], ov[b - 1]);
                }
            } else {
                assert(nv[a] == ov[a - 1] && nv[b] == ov[b - 1]);
            }
        }
        assert forall|x: OraclePair| nv.to_set().contains(x) <==> ov.to_set().insert(pv).contains(x) by {
            if nv.contains(x) {
                let w = choose|w: int| 0 <= w < nv.len() && nv[w] == x;
                if w < i {
                    assert(ov[w] == x);
                } else if w > i {
                    assert(ov[w - 1] == x);
                }
            }
            if ov.contains(x) {
                let w = choose|w: int| 0 <= w < ov.len() && ov[w] == x;
                if w < i {
                    assert(nv[w] == x);
                } else {
                    assert(nv[w + 1] == x);
                }
            }
            if x == pv {
                assert(nv[i as int] == x);
            }
        }
        assert(nv.to_set() =~= ov.to_set().insert(pv));
    }
}

/// The location pairs the occurrences of `docs` make, sorted and without
/// duplicates.
pub fn oracle_pairs(docs: &Vec<ScipDocument>) -> (r: Vec<(String, u32, String, u32)>)
    requires
        lines_fit(views(docs@)),
    ensures
        sorted_pairs(pairs_view(r@)),
        pairs_view(r@).to_set() == oracle_pair_set(views(docs@)),
{
    let ghost occs = all_occurrences(views(docs@));
    let idx = occurrence_index(docs);
    let tab = definition_table(docs, &idx);
    let mut out: Vec<(String, u32, String, u32)> = Vec::new();
    let mut k: usize = 0;
    assert(pairs_view(out@).to_set() =~= Set::<OraclePair>::empty());
    while k < idx.len()
        invariant
            k <= idx.len(),
            occs == all_occurrences(views(docs@)),
            lines_fit(views(docs@)),
            idx@.len() == occs.len(),
            forall|x: int|
                0 <= x < idx@.len() ==> {
                    &&& (#[trigger] idx@[x]).0 < docs.len()
                    &&& idx@[x].1 < docs@[idx@[x].0 as int].occurrences.len()
                    &&& occs[x] == (
                        docs@[idx@[x].0 as int].relative_path@,
                        docs@[idx@[x].0 as int].occurrences@[idx@[x].1 as int]@,
                    )
                },
            table_unique(table_view(tab@)),
            forall|s: Seq<char>| s.len() > 0 ==> #[trigger] table_lookup(table_view(tab@), s) == first_definition(occs, s),
            sorted_pairs(pairs_view(out@)),
            pairs_view(out@).to_set() == pairs_upto(occs, k as int),
        decreases idx.len() - k,
    {
        let (d, j) = idx[k];
        let doc = &docs[d];
        let o = &doc.occurrences[j];
        let ghost l = occs[k as int];
        assert(l == (doc.relative_path@, o@));
        let ghost before = pairs_view(out@);
        if !o.symbol.as_str().is_empty() && (o.symbol_roles & 1) == 0 {
            match lookup_definition(&tab, o.symbol.as_str()) {
                Some(e) => {
                    let line = occurrence_line(o);
                    let dline = tab[e].2;
                    proof {
                        assert(table_lookup(table_view(tab@), o.symbol@) == first_definition(occs, o.symbol@));
                        assert(start_line(occs[k as int].1) <= u32::MAX);
                        lemma_first_definition_site(occs, o.symbol@);
                        let w = choose|w: int|
                            0 <= w < occs.len() && is_definition((#[trigger] occs[w]).1) && occs[w].1.symbol == o.symbol@
                                && first_definition(occs, o.symbol@) == Some((occs[w].0, start_line(occs[w].1)));
                        assert(start_line(occs[w].1) <= u32::MAX);
                    }
                    if !(str_eq(doc.relative_path.as_str(), tab[e].1.as_str()) && line == dline) {
                        let pair = (doc.relative_path.clone(), line as u32, tab[e].1.clone(), dline as u32);
                        assert(pair_view(pair) == pair_of(occs, l).unwrap());
                        insert_sorted(&mut out, pair);
                    }
                },
                None => {},
            }
        }
        proof {
            assert(occs[(k + 1) - 1] == l);
        }
        k = k + 1;
    }
    out
}

/// The location pairs of the SCIP index `bytes` encodes, sorted and without
/// duplicates: `(ref_path, ref_line, def_path, def_line)`, lines 1-based; an
/// index that does not decode is the decoder's error.
pub fn oracle_edges_from_scip(bytes: &[u8]) -> (r: Result<Vec<(String, u32, String, u32)>, String>)
    requires
        scip_documents(bytes@) matches Some(docs) ==> lines_fit(docs),
    ensures
        r is Ok <==> scip_documents(bytes@) is Some,
        r matches Ok(v) ==> sorted_pairs(pairs_view(v@)) && pairs_view(v@).to_set() == oracle_pair_set(
            scip_documents(bytes@)->0,
        ),
{
    let docs = decode_scip(bytes)?;
    Ok(oracle_pairs(&docs))
}

/// `oracle_edges_from_scip` where every line it reads fits a `u32`; `None`
/// when the index decodes but one does not.
pub fn oracle_edges_checked(bytes: &[u8]) -> (r: Option<Result<Vec<(String, u32, String, u32)>, String>>)
    ensures
        r is None <==> (scip_documents(bytes@) matches Some(docs) && !lines_fit(docs)),
        r matches Some(res) ==> {
            &&& (res is Ok <==> scip_documents(bytes@) is Some)
            &&& (res matches Ok(v) ==> sorted_pairs(pairs_view(v@)) && pairs_view(v@).to_set() == oracle_pair_set(
                scip_documents(bytes@)->0,
            ))
        },
{
    match decode_scip(bytes) {
        Ok(docs) => {
            if lines_within(&docs) {
                Some(oracle_edges_from_scip(bytes))
            } else {
                None
            }
        },
        Err(e) => Some(Err(e)),
    }
}

/// The text of the `oracle.edges` manifest holding `pairs`: the header
/// comment line, then `<ref_file>:<ref_line> <def_file>:<def_line>` per pair.
pub fn oracle_manifest(pairs: &Vec<(String, u32, String, u32)>) -> (r: String)
    ensures
        r@ == oracle_manifest_text(pair_keys(pairs@)),
{
    let ghost ks = pair_keys(pairs@);
    let mut out: Vec<char> = Vec::new();
    push_str_chars(&mut out, "# oracle: SCIP index \u{2014} location pairs (ref -> def), role-agnostic");
    out.push('\n');
    assert(out@ =~= oracle_manifest_text(ks.take(0)));
    let mut i: usize = 0;
    while i < pairs.len()
        invariant
            i <= pairs.len(),
            ks == pair_keys(pairs@),
            out@ == oracle_manifest_text(ks.take(i as int)),
        decreases pairs.len() - i,
    {
        let ghost before = out@;
        let p = &pairs[i];
        push_str_chars(&mut out, p.0.as_str());
        out.push(':');
        push_decimal(&mut out, p.1 as usize);
        out.push(' ');
        push_str_chars(&mut out, p.2.as_str());
        out.push(':');
        push_decimal(&mut out, p.3 as usize);
        out.push('\n');
        proof {
            let k: LocKey = pair_key(pairs@[i as int]);
            assert(ks[i as int] == k);
            assert(ks.take(i + 1).drop_last() =~= ks.take(i as int));
            assert(ks.take(i + 1).last() == k);
            assert(out@ =~= before + (loc_text(k.ref_file, k.ref_line) + seq![' '] + loc_text(k.def_file, k.def_line)) + seq!['\n']);
            assert(oracle_line_text(k) == loc_text(k.ref_file, k.ref_line) + seq![' '] + loc_text(k.def_file, k.def_line));
        }
        i = i + 1;
    }
    assert(ks.take(pairs.len() as int) =~= ks);
    string_from_chars(out.as_slice())
}

proof fn lemma_pairs_upto_members(occs: Seq<Located>, n: int, p: OraclePair)
    requires
        pairs_upto(occs, n).contains(p),
    ensures
        exists|i: int| 0 <= i < n && pair_of(occs, #[trigger] occs[i]) == Some(p),
    decreases n,
{
    if n > 0 {
        if pairs_upto(occs, n - 1).contains(p) {
            lemma_pairs_upto_members(occs, n - 1, p);
        } else {
            assert(pair_of(occs, occs[n - 1]) == Some(p));
        }
    }
}

/// No oracle pair joins a reference to a definition on the same line of the
/// same file, and each pair's definition site is a defining occurrence of
/// the symbol its reference names.
pub proof fn law_oracle_pairs_skip_self_loops(docs: Seq<ScipDocumentView>, p: OraclePair)
    requires
        oracle_pair_set(docs).contains(p),
    ensures
        !(p.0 == p.2 && p.1 == p.3),
        exists|i: int, j: int|
            0 <= i < all_occurrences(docs).len() && 0 <= j < all_occurrences(docs).len() && {
                let r = #[trigger] all_occurrences(docs)[i];
                let d = #[trigger] all_occurrences(docs)[j];
                &&& !is_definition(r.1) && r.1.symbol.len() > 0 && (r.0, start_line(r.1)) == (p.0, p.1)
                &&& is_definition(d.1) && d.1.symbol == r.1.symbol && (d.0, start_line(d.1)) == (p.2, p.3)
            },
{
    let occs = all_occurrences(docs);
    lemma_pairs_upto_members(occs, occs.len() as int, p);
    let i = choose|i: int| 0 <= i < occs.len() && pair_of(occs, #[trigger] occs[i]) == Some(p);
    let r = occs[i];
    lemma_first_definition_site(occs, r.1.symbol);
    let j = choose|j: int|
        0 <= j < occs.len() && is_definition((#[trigger] occs[j]).1) && occs[j].1.symbol == r.1.symbol
            && first_definition(occs, r.1.symbol) == Some((occs[j].0, start_line(occs[j].1)));
    assert(occs[i] == r);
}

} // verus!

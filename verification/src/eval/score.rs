//! Precision/recall tallies of resolved edges against ground truth.
//!
//! The unit is a located ref→def edge: a reference site (file, line) bound to
//! a definition site (file, line), under a role for golden edges and
//! role-agnostic for oracle pairs. Both sides are compared as sets, so a
//! reference that resolves to `N` same-named definitions counts one true
//! positive and `N - 1` false positives.

use vstd::prelude::*;
use vstd::utf8::*;
use crate::graph::{CodeGraph, Edge, RefRole, Symbol};
use crate::symbol::scip_text;
use crate::text::{first_index_spec, first_index_of};
use crate::text::{chars_of, chars_eq, has_prefix, parse_unsigned, parse_unsigned_chars, slice_chars};

verus! {

broadcast use vstd::set::group_set_axioms, vstd::seq_lib::group_seq_properties, vstd::set_lib::group_set_properties;

/// A ground-truth ref→def edge, located by file and 1-based line at both ends.
#[derive(Debug, Clone, PartialEq, Eq, Hash)]
pub struct ExpectedEdge {
    pub ref_file: String,
    pub ref_line: u32,
    pub role: RefRole,
    pub def_file: String,
    pub def_line: u32,
}

/// The tallies of one comparison.
#[derive(Debug, Clone, PartialEq, Eq)]
pub struct Scorecard {
    /// Emitted edges that match an expected edge.
    pub true_positives: usize,
    /// Emitted edges with no matching expected edge.
    pub false_positives: usize,
    /// Expected edges no emitted edge matched.
    pub false_negatives: usize,
}

impl Default for Scorecard {
    fn default() -> (r: Self)
        ensures
            r.true_positives == 0,
            r.false_positives == 0,
            r.false_negatives == 0,
    {
        Scorecard { true_positives: 0, false_positives: 0, false_negatives: 0 }
    }
}

impl Scorecard {
    /// Fold another scorecard's tallies into this one.
    pub fn merge(&mut self, other: &Scorecard)
        requires
            old(self).true_positives + other.true_positives <= usize::MAX,
            old(self).false_positives + other.false_positives <= usize::MAX,
            old(self).false_negatives + other.false_negatives <= usize::MAX,
        ensures
            final(self).true_positives == old(self).true_positives + other.true_positives,
            final(self).false_positives == old(self).false_positives + other.false_positives,
            final(self).false_negatives == old(self).false_negatives + other.false_negatives,
    {
        self.true_positives = self.true_positives + other.true_positives;
        self.false_positives = self.false_positives + other.false_positives;
        self.false_negatives = self.false_negatives + other.false_negatives;
    }
}

/// A located edge as plain values; `role` is `None` for role-agnostic pairs.
pub struct LocKey {
    pub ref_file: Seq<char>,
    pub ref_line: u32,
    pub role: Option<RefRole>,
    pub def_file: Seq<char>,
    pub def_line: u32,
}

/// A located edge held as owned values.
pub struct EdgeKey {
    pub ref_file: String,
    pub ref_line: u32,
    pub role: Option<RefRole>,
    pub def_file: String,
    pub def_line: u32,
}

impl View for EdgeKey {
    type V = LocKey;

    open spec fn view(&self) -> LocKey {
        LocKey {
            ref_file: self.ref_file@,
            ref_line: self.ref_line,
            role: self.role,
            def_file: self.def_file@,
            def_line: self.def_line,
        }
    }
}

pub open spec fn key_views(v: Seq<EdgeKey>) -> Seq<LocKey> {
    Seq::new(v.len(), |i: int| v[i]@)
}

impl ExpectedEdge {
    /// This edge as a located key.
    pub open spec fn key(self) -> LocKey {
        LocKey {
            ref_file: self.ref_file@,
            ref_line: self.ref_line,
            role: Some(self.role),
            def_file: self.def_file@,
            def_line: self.def_line,
        }
    }
}

/// The set of expected edges.
pub open spec fn expected_set(expected: Seq<ExpectedEdge>) -> Set<LocKey> {
    Set::new(|k: LocKey| exists|j: int| 0 <= j < expected.len() && (#[trigger] expected[j]).key() == k)
}

/// Where a symbol id is defined: the file and line of the last symbol with
/// that SCIP string.
pub open spec fn def_loc(syms: Seq<Symbol>, id: Seq<char>) -> Option<(Seq<char>, u32)>
    decreases syms.len(),
{
    if syms.len() == 0 {
        None
    } else if scip_text(syms.last().id) == id {
        Some((syms.last().file@, syms.last().line))
    } else {
        def_loc(syms.drop_last(), id)
    }
}

/// Some expected edge has role `r`.
pub open spec fn role_asserted(expected: Seq<ExpectedEdge>, r: RefRole) -> bool {
    exists|j: int| 0 <= j < expected.len() && (#[trigger] expected[j]).role == r
}

/// The located key an emitted edge scores as: only edges of a role the case
/// asserts, and only when the target is located among the graph's symbols.
pub open spec fn scored_key(g: CodeGraph, expected: Seq<ExpectedEdge>, e: Edge) -> Option<LocKey> {
    if role_asserted(expected, e.role) {
        match def_loc(g.symbols@, scip_text(e.to)) {
            Some((f, l)) => Some(
                LocKey { ref_file: e.occ.file@, ref_line: e.occ.line, role: Some(e.role), def_file: f, def_line: l },
            ),
            None => None,
        }
    } else {
        None
    }
}

/// The set of located keys of the first `n` edges of `g`.
pub open spec fn emitted_upto(g: CodeGraph, expected: Seq<ExpectedEdge>, n: int) -> Set<LocKey> {
    Set::new(|k: LocKey| exists|j: int| 0 <= j < n && scored_key(g, expected, #[trigger] g.edges@[j]) == Some(k))
}

/// The set of located keys the graph emits.
pub open spec fn emitted_set(g: CodeGraph, expected: Seq<ExpectedEdge>) -> Set<LocKey> {
    emitted_upto(g, expected, g.edges@.len() as int)
}

/// A tally of an emitted set against an expected set.
pub open spec fn tally(sc: Scorecard, emitted: Set<LocKey>, expected: Set<LocKey>) -> bool {
    &&& sc.true_positives == emitted.intersect(expected).len()
    &&& sc.false_positives == emitted.len() - emitted.intersect(expected).len()
    &&& sc.false_negatives == expected.len() - emitted.intersect(expected).len()
}

fn key_eq(a: &EdgeKey, b: &EdgeKey) -> (r: bool)
    ensures
        r == (a@ == b@),
{
    let same_role = match (a.role, b.role) {
        (Some(x), Some(y)) => x == y,
        (None, None) => true,
        _ => false,
    };
    a.ref_file == b.ref_file && a.ref_line == b.ref_line && same_role && a.def_file == b.def_file
        && a.def_line == b.def_line
}

fn contains_key(v: &Vec<EdgeKey>, k: &EdgeKey) -> (r: bool)
    ensures
        r == key_views(v@).contains(k@),
{
    let mut i: usize = 0;
    while i < v.len()
        invariant
            i <= v.len(),
            forall|j: int| 0 <= j < i ==> v@[j]@ != k@,
        decreases v.len() - i,
    {
        if key_eq(&v[i], k) {
            assert(key_views(v@)[i as int] == k@);
            return true;
        }
        i = i + 1;
    }
    assert(!key_views(v@).contains(k@)) by {
        if key_views(v@).contains(k@) {
            let j = choose|j: int| 0 <= j < key_views(v@).len() && key_views(v@)[j] == k@;
            assert(v@[j]@ == k@);
        }
    }
    false
}

/// Add `k` to a duplicate-free key vector unless already present.
fn push_unique(v: &mut Vec<EdgeKey>, k: EdgeKey)
    requires
        key_views(old(v)@).no_duplicates(),
    ensures
        key_views(final(v)@).no_duplicates(),
        key_views(final(v)@).to_set() == key_views(old(v)@).to_set().insert(k@),
{
    if contains_key(v, &k) {
        assert(key_views(v@).to_set() =~= key_views(v@).to_set().insert(k@));
    } else {
        let ghost before = key_views(v@);
        v.push(k);
        assert(key_views(v@) =~= before.push(k@));
        assert(key_views(v@).to_set() =~= before.to_set().insert(k@));
    }
}

/// The number of keys of `a` (duplicate-free) that occur in `b`: the size of
/// the intersection of the two sets.
fn count_common(a: &Vec<EdgeKey>, b: &Vec<EdgeKey>) -> (r: usize)
    requires
        key_views(a@).no_duplicates(),
    ensures
        r == key_views(a@).to_set().intersect(key_views(b@).to_set()).len(),
{
    let ghost sa = key_views(a@);
    let ghost sb = key_views(b@).to_set();
    let mut n: usize = 0;
    let mut i: usize = 0;
    assert(sa.take(0).to_set() =~= Set::<LocKey>::empty());
    while i < a.len()
        invariant
            i <= a.len(),
            sa == key_views(a@),
            sb == key_views(b@).to_set(),
            sa.no_duplicates(),
            n <= i,
            n == sa.take(i as int).to_set().intersect(sb).len(),
        decreases a.len() - i,
    {
        let ghost before = sa.take(i as int).to_set();
        assert(sa.take(i + 1) =~= sa.take(i as int).push(sa[i as int]));
        assert(sa.take(i + 1).to_set() =~= before.insert(sa[i as int]));
        assert(!before.contains(sa[i as int])) by {
            if before.contains(sa[i as int]) {
                let j = choose|j: int| 0 <= j < i && sa.take(i as int)[j] == sa[i as int];
                assert(sa[j] == sa[i as int]);
            }
        }
        if contains_key(b, &a[i]) {
            assert(before.insert(sa[i as int]).intersect(sb) =~= before.intersect(sb).insert(sa[i as int]));
            n = n + 1;
        } else {
            assert(before.insert(sa[i as int]).intersect(sb) =~= before.intersect(sb));
        }
        i = i + 1;
    }
    assert(sa.take(a.len() as int) =~= sa);
    n
}

/// Tally a duplicate-free emitted vector against a duplicate-free expected
/// vector.
fn tally_keys(emitted: &Vec<EdgeKey>, expected: &Vec<EdgeKey>) -> (r: Scorecard)
    requires
        key_views(emitted@).no_duplicates(),
        key_views(expected@).no_duplicates(),
    ensures
        tally(r, key_views(emitted@).to_set(), key_views(expected@).to_set()),
{
    let tp = count_common(emitted, expected);
    proof {
        key_views(emitted@).unique_seq_to_set();
        key_views(expected@).unique_seq_to_set();
        vstd::set_lib::lemma_len_intersect(key_views(emitted@).to_set(), key_views(expected@).to_set());
        vstd::set_lib::lemma_len_intersect(key_views(expected@).to_set(), key_views(emitted@).to_set());
        assert(key_views(expected@).to_set().intersect(key_views(emitted@).to_set()) =~= key_views(emitted@).to_set().intersect(key_views(expected@).to_set()));
    }
    Scorecard {
        true_positives: tp,
        false_positives: emitted.len() - tp,
        false_negatives: expected.len() - tp,
    }
}

fn key_of_expected(e: &ExpectedEdge) -> (r: EdgeKey)
    ensures
        r@ == e.key(),
{
    EdgeKey {
        ref_file: e.ref_file.clone(),
        ref_line: e.ref_line,
        role: Some(e.role),
        def_file: e.def_file.clone(),
        def_line: e.def_line,
    }
}

/// The expected edges as a duplicate-free key vector.
fn expected_keys(expected: &Vec<ExpectedEdge>) -> (r: Vec<EdgeKey>)
    ensures
        key_views(r@).no_duplicates(),
        key_views(r@).to_set() == expected_set(expected@),
{
    let mut out: Vec<EdgeKey> = Vec::new();
    let mut i: usize = 0;
    while i < expected.len()
        invariant
            i <= expected.len(),
            key_views(out@).no_duplicates(),
            key_views(out@).to_set() == Set::new(
                |k: LocKey| exists|j: int| 0 <= j < i && (#[trigger] expected@[j]).key() == k,
            ),
        decreases expected.len() - i,
    {
        let ghost before = key_views(out@).to_set();
        push_unique(&mut out, key_of_expected(&expected[i]));
        assert(key_views(out@).to_set() =~= Set::new(
            |k: LocKey| exists|j: int| 0 <= j < i + 1 && (#[trigger] expected@[j]).key() == k,
        )) by {
            assert forall|k: LocKey| (exists|j: int| 0 <= j < i + 1 && (#[trigger] expected@[j]).key() == k) implies key_views(out@).to_set().contains(k) by {
                let j = choose|j: int| 0 <= j < i + 1 && (#[trigger] expected@[j]).key() == k;
                if j < i {
                    assert(before.contains(k));
                }
            }
        }
        i = i + 1;
    }
    assert(key_views(out@).to_set() =~= expected_set(expected@));
    out
}

/// The SCIP strings of each symbol.
fn symbol_ids(syms: &Vec<Symbol>) -> (r: Vec<String>)
    ensures
        r.len() == syms.len(),
        forall|i: int| 0 <= i < r.len() ==> (#[trigger] r@[i])@ == scip_text(syms@[i].id),
{
    let mut out: Vec<String> = Vec::new();
    let mut i: usize = 0;
    while i < syms.len()
        invariant
            i <= syms.len(),
            out.len() == i,
            forall|k: int| 0 <= k < i ==> (#[trigger] out@[k])@ == scip_text(syms@[k].id),
        decreases syms.len() - i,
    {
        out.push(syms[i].id.to_scip_string());
        i = i + 1;
    }
    out
}

/// Locate a SCIP id among the symbols: file and line of the last match.
fn locate(syms: &Vec<Symbol>, ids: &Vec<String>, id: &String) -> (r: Option<(String, u32)>)
    requires
        ids.len() == syms.len(),
        forall|i: int| 0 <= i < ids.len() ==> (#[trigger] ids@[i])@ == scip_text(syms@[i].id),
    ensures
        match (r, def_loc(syms@, id@)) {
            (Some((f, l)), Some((f2, l2))) => f@ == f2 && l == l2,
            (None, None) => true,
            _ => false,
        },
{
    let mut i = syms.len();
    assert(syms@.take(i as int) =~= syms@);
    while i > 0
        invariant
            i <= syms.len(),
            ids.len() == syms.len(),
            forall|k: int| 0 <= k < ids.len() ==> (#[trigger] ids@[k])@ == scip_text(syms@[k].id),
            def_loc(syms@, id@) == def_loc(syms@.take(i as int), id@),
        decreases i,
    {
        assert(syms@.take(i as int).drop_last() =~= syms@.take(i - 1));
        assert(syms@.take(i as int).last() == syms@[i - 1]);
        if ids[i - 1] == *id {
            return Some((syms[i - 1].file.clone(), syms[i - 1].line));
        }
        i = i - 1;
    }
    None
}

fn role_in(expected: &Vec<ExpectedEdge>, r: RefRole) -> (b: bool)
    ensures
        b == role_asserted(expected@, r),
{
    let mut i: usize = 0;
    while i < expected.len()
        invariant
            i <= expected.len(),
            forall|j: int| 0 <= j < i ==> (#[trigger] expected@[j]).role != r,
        decreases expected.len() - i,
    {
        if expected[i].role == r {
            return true;
        }
        i = i + 1;
    }
    false
}

/// Project a resolved graph into located edges and tally it against the
/// expected set. Only edges whose role some expected edge has are scored; an
/// edge whose target is not among the graph's symbols cannot be located and
/// is neither credited nor penalised.
pub fn score(graph: &CodeGraph, expected: &Vec<ExpectedEdge>) -> (r: Scorecard)
    ensures
        tally(r, emitted_set(*graph, expected@), expected_set(expected@)),
{
    let ids = symbol_ids(&graph.symbols);
    let mut emitted: Vec<EdgeKey> = Vec::new();
    let mut i: usize = 0;
    while i < graph.edges.len()
        invariant
            i <= graph.edges.len(),
            ids.len() == graph.symbols.len(),
            forall|k: int| 0 <= k < ids.len() ==> (#[trigger] ids@[k])@ == scip_text(graph.symbols@[k].id),
            key_views(emitted@).no_duplicates(),
            key_views(emitted@).to_set() == emitted_upto(*graph, expected@, i as int),
        decreases graph.edges.len() - i,
    {
        let e = &graph.edges[i];
        let ghost before = key_views(emitted@).to_set();
        let ghost sk = scored_key(*graph, expected@, *e);
        if role_in(expected, e.role) {
            let to = e.to.to_scip_string();
            match locate(&graph.symbols, &ids, &to) {
                Some((f, l)) => {
                    let k = EdgeKey { ref_file: e.occ.file.clone(), ref_line: e.occ.line, role: Some(e.role), def_file: f, def_line: l };
                    assert(sk == Some(k@));
                    push_unique(&mut emitted, k);
                },
                None => {
                    assert(sk is None);
                },
            }
        } else {
            assert(sk is None);
        }
        assert(key_views(emitted@).to_set() =~= emitted_upto(*graph, expected@, i + 1)) by {
            assert forall|k: LocKey| #[trigger] emitted_upto(*graph, expected@, i + 1).contains(k) implies key_views(emitted@).to_set().contains(k) by {
                let j = choose|j: int| 0 <= j < i + 1 && scored_key(*graph, expected@, #[trigger] graph.edges@[j]) == Some(k);
                if j < i {
                    assert(before.contains(k));
                }
            }
            assert forall|k: LocKey| key_views(emitted@).to_set().contains(k) implies #[trigger] emitted_upto(*graph, expected@, i + 1).contains(k) by {
                if before.contains(k) {
                    let j = choose|j: int| 0 <= j < i && scored_key(*graph, expected@, #[trigger] graph.edges@[j]) == Some(k);
                    assert(0 <= j < i + 1);
                } else {
                    assert(scored_key(*graph, expected@, graph.edges@[i as int]) == Some(k));
                }
            }
        }
        i = i + 1;
    }
    let exp = expected_keys(expected);
    tally_keys(&emitted, &exp)
}


/// The source text of `file`: the last entry for it.
pub open spec fn source_of(sources: Seq<(String, String)>, f: Seq<char>) -> Option<Seq<char>>
    decreases sources.len(),
{
    if sources.len() == 0 {
        None
    } else if sources.last().0@ == f {
        Some(sources.last().1@)
    } else {
        source_of(sources.drop_last(), f)
    }
}

/// Number of newline bytes in `b`.
pub open spec fn count_newlines(b: Seq<u8>) -> int
    decreases b.len(),
{
    if b.len() == 0 {
        0
    } else {
        count_newlines(b.drop_last()) + if b.last() == 10u8 {
            1int
        } else {
            0int
        }
    }
}

/// 1-based line of byte offset `intro` into a source, saturating at
/// `u32::MAX`.
pub open spec fn line_of_offset(src: Seq<char>, intro: int) -> u32 {
    let n = 1 + count_newlines(encode_utf8(src).take(intro));
    if n <= u32::MAX {
        n as u32
    } else {
        u32::MAX
    }
}

/// The definition site of a synthesized local symbol
/// `local <file>@<scope>:<name>@<intro>`: the file (up to the first `@`) and
/// the line of byte `intro` (after the last `@`) in that file's source.
pub open spec fn local_def_loc_spec(scip: Seq<char>, sources: Seq<(String, String)>) -> Option<(Seq<char>, u32)> {
    let pre = seq!['l', 'o', 'c', 'a', 'l', ' '];
    if !has_prefix(scip, pre) {
        None
    } else {
        let rest = scip.skip(6);
        let a = first_index_spec(rest, '@', 0);
        if a < 0 {
            None
        } else {
            let file = rest.take(a);
            let after = rest.skip(a + 1);
            let b = crate::text::last_index_spec(after, '@');
            if b < 0 {
                None
            } else {
                match parse_unsigned(after.skip(b + 1), usize::MAX as int) {
                    None => None,
                    Some(intro) => match source_of(sources, file) {
                        None => None,
                        Some(src) => if intro > encode_utf8(src).len() {
                            None
                        } else {
                            Some((file, line_of_offset(src, intro)))
                        },
                    },
                }
            }
        }
    }
}

fn find_source<'a>(sources: &'a Vec<(String, String)>, f: &Vec<char>) -> (r: Option<&'a String>)
    ensures
        match (r, source_of(sources@, f@)) {
            (Some(s), Some(t)) => s@ == t,
            (None, None) => true,
            _ => false,
        },
{
    let mut i = sources.len();
    assert(sources@.take(i as int) =~= sources@);
    while i > 0
        invariant
            i <= sources.len(),
            source_of(sources@, f@) == source_of(sources@.take(i as int), f@),
        decreases i,
    {
        assert(sources@.take(i as int).drop_last() =~= sources@.take(i - 1));
        assert(sources@.take(i as int).last() == sources@[i - 1]);
        if chars_eq(f, sources[i - 1].0.as_str()) {
            return Some(&sources[i - 1].1);
        }
        i = i - 1;
    }
    None
}

fn newline_line(src: &String, intro: usize) -> (r: u32)
    requires
        intro <= encode_utf8(src@).len(),
    ensures
        r == line_of_offset(src@, intro as int),
{
    let b = src.as_str().as_bytes();
    let mut n: u64 = 0;
    let mut i: usize = 0;
    while i < intro
        invariant
            i <= intro <= b@.len(),
            b@ == encode_utf8(src@),
            n == count_newlines(b@.take(i as int)),
            n <= i,
        decreases intro - i,
    {
        assert(b@.take(i + 1).drop_last() =~= b@.take(i as int));
        if b[i] == 10u8 {
            n = n + 1;
        }
        i = i + 1;
    }
    if n < u32::MAX as u64 {
        (n + 1) as u32
    } else {
        u32::MAX
    }
}

/// The file and byte offset named by a local symbol's SCIP string.
pub open spec fn local_parts_spec(scip: Seq<char>) -> Option<(Seq<char>, int)> {
    let pre = seq!['l', 'o', 'c', 'a', 'l', ' '];
    if !has_prefix(scip, pre) {
        None
    } else {
        let rest = scip.skip(6);
        let a = first_index_spec(rest, '@', 0);
        if a < 0 {
            None
        } else {
            let after = rest.skip(a + 1);
            let b = crate::text::last_index_spec(after, '@');
            if b < 0 {
                None
            } else {
                match parse_unsigned(after.skip(b + 1), usize::MAX as int) {
                    None => None,
                    Some(intro) => Some((rest.take(a), intro)),
                }
            }
        }
    }
}

proof fn lemma_local_def_loc_parts(scip: Seq<char>, sources: Seq<(String, String)>)
    ensures
        local_def_loc_spec(scip, sources) == match local_parts_spec(scip) {
            None => None,
            Some((file, intro)) => match source_of(sources, file) {
                None => None,
                Some(src) => if intro > encode_utf8(src).len() {
                    None
                } else {
                    Some((file, line_of_offset(src, intro)))
                },
            },
        },
{
}

#[verifier::rlimit(40)]
fn local_parts(scip: &String) -> (r: Option<(Vec<char>, usize)>)
    ensures
        match (r, local_parts_spec(scip@)) {
            (Some((f, n)), Some((f2, n2))) => f@ == f2 && n == n2,
            (None, None) => true,
            _ => false,
        },
{
    let cs = chars_of(scip.as_str());
    let pre = chars_of("local ");
    proof {
        reveal_strlit("local ");
        assert(pre@ =~= seq!['l', 'o', 'c', 'a', 'l', ' ']);
        assert(cs@.skip(0) =~= cs@);
    }
    if !crate::text::matches_at(&cs, 0, &pre) {
        return None;
    }
    let rest = slice_chars(&cs, 6, cs.len());
    assert(rest@ =~= cs@.skip(6));
    let a = match first_index_of(&rest, '@') {
        Some(a) => a,
        None => {
            return None;
        },
    };
    let file = slice_chars(&rest, 0, a);
    let after = slice_chars(&rest, a + 1, rest.len());
    assert(file@ =~= rest@.take(a as int));
    assert(after@ =~= rest@.skip(a + 1));
    proof {
        crate::text::lemma_last_index_bounds(after@, '@');
    }
    let b = match crate::text::last_index_of(&after, '@') {
        Some(b) => b,
        None => {
            return None;
        },
    };
    let digits = slice_chars(&after, b + 1, after.len());
    assert(digits@ =~= after@.skip(b + 1));
    match parse_unsigned_chars(&digits, usize::MAX as u64) {
        Some(v) => Some((file, v as usize)),
        None => None,
    }
}

/// The definition site of a synthesized local symbol, recovered from its SCIP
/// string and the sources of the case.
fn local_def_loc(scip: &String, sources: &Vec<(String, String)>) -> (r: Option<(String, u32)>)
    ensures
        match (r, local_def_loc_spec(scip@, sources@)) {
            (Some((f, l)), Some((f2, l2))) => f@ == f2 && l == l2,
            (None, None) => true,
            _ => false,
        },
{
    proof {
        lemma_local_def_loc_parts(scip@, sources@);
    }
    let (file, intro) = match local_parts(scip) {
        Some(p) => p,
        None => {
            return None;
        },
    };
    proof {
        let lp = local_parts_spec(scip@);
        assert(lp is Some && lp.unwrap().0 == file@ && lp.unwrap().1 == intro);
    }
    let src = match find_source(sources, &file) {
        Some(s) => s,
        None => {
            assert(source_of(sources@, file@) is None);
            return None;
        },
    };
    let blen = src.as_str().as_bytes().len();
    if intro > blen {
        return None;
    }
    let line = newline_line(src, intro);
    Some((crate::text::string_from_chars(file.as_slice()), line))
}

/// The located key an emitted edge scores as against an oracle: role-agnostic,
/// its target located among the graph's symbols or, failing that, as a
/// synthesized local.
pub open spec fn oracle_key(g: CodeGraph, sources: Seq<(String, String)>, e: Edge) -> Option<LocKey> {
    let loc = match def_loc(g.symbols@, scip_text(e.to)) {
        Some(l) => Some(l),
        None => local_def_loc_spec(scip_text(e.to), sources),
    };
    match loc {
        Some((f, l)) => Some(
            LocKey { ref_file: e.occ.file@, ref_line: e.occ.line, role: None, def_file: f, def_line: l },
        ),
        None => None,
    }
}

pub open spec fn oracle_emitted_upto(g: CodeGraph, sources: Seq<(String, String)>, n: int) -> Set<LocKey> {
    Set::new(|k: LocKey| exists|j: int| 0 <= j < n && oracle_key(g, sources, #[trigger] g.edges@[j]) == Some(k))
}

/// The role-agnostic located keys the graph emits.
pub open spec fn oracle_emitted(g: CodeGraph, sources: Seq<(String, String)>) -> Set<LocKey> {
    oracle_emitted_upto(g, sources, g.edges@.len() as int)
}

/// The oracle's location pairs as a set.
pub open spec fn oracle_set(oracle: Seq<(String, u32, String, u32)>) -> Set<LocKey> {
    Set::new(|k: LocKey| exists|j: int| 0 <= j < oracle.len() && k == (LocKey {
        ref_file: (#[trigger] oracle[j]).0@,
        ref_line: oracle[j].1,
        role: None,
        def_file: oracle[j].2@,
        def_line: oracle[j].3,
    }))
}

/// Tally a resolved graph against SCIP-oracle location pairs. Matching is
/// location-only; `sources` (case-relative path, source text) locates the
/// definition line of synthesized local targets.
pub fn score_oracle(graph: &CodeGraph, oracle: &Vec<(String, u32, String, u32)>, sources: &Vec<(String, String)>) -> (r: Scorecard)
    ensures
        tally(r, oracle_emitted(*graph, sources@), oracle_set(oracle@)),
{
    let ids = symbol_ids(&graph.symbols);
    let mut emitted: Vec<EdgeKey> = Vec::new();
    let mut i: usize = 0;
    while i < graph.edges.len()
        invariant
            i <= graph.edges.len(),
            ids.len() == graph.symbols.len(),
            forall|k: int| 0 <= k < ids.len() ==> (#[trigger] ids@[k])@ == scip_text(graph.symbols@[k].id),
            key_views(emitted@).no_duplicates(),
            key_views(emitted@).to_set() == oracle_emitted_upto(*graph, sources@, i as int),
        decreases graph.edges.len() - i,
    {
        let e = &graph.edges[i];
        let ghost before = key_views(emitted@).to_set();
        let ghost ok = oracle_key(*graph, sources@, *e);
        let to = e.to.to_scip_string();
        let loc = match locate(&graph.symbols, &ids, &to) {
            Some(l) => Some(l),
            None => local_def_loc(&to, sources),
        };
        match loc {
            Some((f, l)) => {
                let k = EdgeKey { ref_file: e.occ.file.clone(), ref_line: e.occ.line, role: None, def_file: f, def_line: l };
                assert(ok == Some(k@));
                push_unique(&mut emitted, k);
            },
            None => {
                assert(ok is None);
            },
        }
        assert(key_views(emitted@).to_set() =~= oracle_emitted_upto(*graph, sources@, i + 1)) by {
            assert forall|k: LocKey| #[trigger] oracle_emitted_upto(*graph, sources@, i + 1).contains(k) implies key_views(emitted@).to_set().contains(k) by {
                let j = choose|j: int| 0 <= j < i + 1 && oracle_key(*graph, sources@, #[trigger] graph.edges@[j]) == Some(k);
                if j < i {
                    assert(before.contains(k));
                }
            }
            assert forall|k: LocKey| key_views(emitted@).to_set().contains(k) implies #[trigger] oracle_emitted_upto(*graph, sources@, i + 1).contains(k) by {
                if before.contains(k) {
                    let j = choose|j: int| 0 <= j < i && oracle_key(*graph, sources@, #[trigger] graph.edges@[j]) == Some(k);
                    assert(0 <= j < i + 1);
                } else {
                    assert(oracle_key(*graph, sources@, graph.edges@[i as int]) == Some(k));
                }
            }
        }
        i = i + 1;
    }
    let mut exp: Vec<EdgeKey> = Vec::new();
    let mut j: usize = 0;
    while j < oracle.len()
        invariant
            j <= oracle.len(),
            key_views(exp@).no_duplicates(),
            key_views(exp@).to_set() == Set::new(|k: LocKey| exists|x: int| 0 <= x < j && k == (LocKey {
                ref_file: (#[trigger] oracle@[x]).0@,
                ref_line: oracle@[x].1,
                role: None,
                def_file: oracle@[x].2@,
                def_line: oracle@[x].3,
            })),
        decreases oracle.len() - j,
    {
        let ghost before = key_views(exp@).to_set();
        let o = &oracle[j];
        let k = EdgeKey { ref_file: o.0.clone(), ref_line: o.1, role: None, def_file: o.2.clone(), def_line: o.3 };
        push_unique(&mut exp, k);
        assert(key_views(exp@).to_set() =~= Set::new(|k: LocKey| exists|x: int| 0 <= x < j + 1 && k == (LocKey {
                ref_file: (#[trigger] oracle@[x]).0@,
                ref_line: oracle@[x].1,
                role: None,
                def_file: oracle@[x].2@,
                def_line: oracle@[x].3,
            }))) by {
            assert forall|k: LocKey| (exists|x: int| 0 <= x < j + 1 && k == (LocKey {
                ref_file: (#[trigger] oracle@[x]).0@,
                ref_line: oracle@[x].1,
                role: None,
                def_file: oracle@[x].2@,
                def_line: oracle@[x].3,
            })) implies key_views(exp@).to_set().contains(k) by {
                let x = choose|x: int| 0 <= x < j + 1 && k == (LocKey {
                    ref_file: (#[trigger] oracle@[x]).0@,
                    ref_line: oracle@[x].1,
                    role: None,
                    def_file: oracle@[x].2@,
                    def_line: oracle@[x].3,
                });
                if x < j {
                    assert(before.contains(k));
                }
            }
        }
        j = j + 1;
    }
    assert(key_views(exp@).to_set() =~= oracle_set(oracle@));
    tally_keys(&emitted, &exp)
}

/// A resolver that emits no edges makes no claim, right or wrong: it scores
/// no true and no false positives, and misses every expected edge.
pub proof fn law_silent_graph_claims_nothing(g: CodeGraph, expected: Seq<ExpectedEdge>, sc: Scorecard)
    requires
        g.edges@.len() == 0,
        tally(sc, emitted_set(g, expected), expected_set(expected)),
    ensures
        sc.true_positives == 0,
        sc.false_positives == 0,
        sc.false_negatives == expected_set(expected).len(),
{
    assert(emitted_set(g, expected) =~= Set::<LocKey>::empty());
    assert(emitted_set(g, expected).intersect(expected_set(expected)) =~= Set::<LocKey>::empty());
}

/// A graph whose scored edges are exactly the expected ones scores no false
/// positives and no false negatives.
pub proof fn law_exact_resolution_is_perfect(g: CodeGraph, expected: Seq<ExpectedEdge>, sc: Scorecard)
    requires
        emitted_set(g, expected) == expected_set(expected),
        tally(sc, emitted_set(g, expected), expected_set(expected)),
    ensures
        sc.false_positives == 0,
        sc.false_negatives == 0,
        sc.true_positives == expected_set(expected).len(),
{
    assert(emitted_set(g, expected).intersect(expected_set(expected)) =~= expected_set(expected));
}

/// An edge whose role no expected edge has is invisible to scoring: adding it
/// to a graph changes neither the true nor the false positives.
pub proof fn law_unasserted_roles_are_invisible(g: CodeGraph, g2: CodeGraph, e: Edge, expected: Seq<ExpectedEdge>)
    requires
        g2.symbols@ == g.symbols@,
        g2.edges@ == g.edges@.push(e),
        !role_asserted(expected, e.role),
    ensures
        emitted_set(g2, expected) == emitted_set(g, expected),
{
    let n = g.edges@.len() as int;
    assert forall|k: LocKey| #[trigger] emitted_set(g2, expected).contains(k) implies emitted_set(g, expected).contains(k) by {
        let j = choose|j: int| 0 <= j < n + 1 && scored_key(g2, expected, #[trigger] g2.edges@[j]) == Some(k);
        assert(j < n);
        assert(g2.edges@[j] == g.edges@[j]);
        assert(scored_key(g, expected, g.edges@[j]) == Some(k));
    }
    assert forall|k: LocKey| #[trigger] emitted_set(g, expected).contains(k) implies emitted_set(g2, expected).contains(k) by {
        let j = choose|j: int| 0 <= j < n && scored_key(g, expected, #[trigger] g.edges@[j]) == Some(k);
        assert(g2.edges@[j] == g.edges@[j]);
        assert(scored_key(g2, expected, g2.edges@[j]) == Some(k));
    }
    assert(emitted_set(g2, expected) =~= emitted_set(g, expected));
}

} // verus!

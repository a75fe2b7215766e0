//! Running cases: extract every source file of a case, resolve the facts into
//! a graph with a caller-chosen resolver, and score the graph against the
//! case's ground truth; aggregate per language and over the corpus.

use vstd::prelude::*;
use crate::graph::{CodeGraph, FileFacts};
use crate::eval::corpus::Case;
use crate::eval::score::{Scorecard, score, score_oracle, tally, emitted_set, expected_set, oracle_emitted, oracle_set};
use crate::extract::{extract_path, extracted, supported, parses, grammar_of};
use crate::extract::support::facts_wf;
use crate::lang::lang_of_path;
use crate::text::{chars_of, chars_lt, lex_lt, views, lemma_lex_irreflexive, lemma_lex_total, lemma_lex_transitive};

verus! {

/// Any function from a resolver and facts to a graph.
pub open spec fn resolution_fn<S>(f: spec_fn(S, Seq<FileFacts>) -> CodeGraph) -> bool {
    true
}

/// Resolution of a set of files' facts into a graph of symbols and edges.
/// A resolver is a function of itself and the facts it is given: equal
/// facts give the same graph, `resolved`.
pub trait Resolver: Sized {
    /// The graph this resolver builds from `facts`: some fixed function of
    /// the resolver and the facts, which its implementation computes.
    open spec fn resolved(&self, facts: Seq<FileFacts>) -> CodeGraph {
        (choose|f: spec_fn(Self, Seq<FileFacts>) -> CodeGraph| #[trigger] resolution_fn(f))(*self, facts)
    }

    /// Resolve `facts` into a graph.
    fn resolve(&self, facts: &Vec<FileFacts>) -> (g: CodeGraph)
        ensures
            g == self.resolved(facts@),
    ;
}

/// `sc` is the tally of graph `g` against the ground truth of `case`: its
/// oracle pairs when it has any, else its expected edges.
pub open spec fn graph_score(g: CodeGraph, case: Case, sc: Scorecard) -> bool {
    if case.oracle.len() > 0 {
        tally(sc, oracle_emitted(g, case.files@), oracle_set(case.oracle@))
    } else {
        tally(sc, emitted_set(g, case.expected@), expected_set(case.expected@))
    }
}

/// `sc` is the tally, against `case`, of the graph `resolver` builds from
/// the facts of the files of `case` that extract, in file order.
pub open spec fn case_scored<R: Resolver>(resolver: R, case: Case, sc: Scorecard) -> bool {
    exists|facts: Seq<FileFacts>, idx: Seq<int>|
        #[trigger] extracted_from(facts, case.files@, idx) && graph_score(resolver.resolved(facts), case, sc)
}

/// Score a resolved graph against a case's ground truth.
pub fn score_graph_for_case(graph: &CodeGraph, case: &Case) -> (r: Scorecard)
    ensures
        graph_score(*graph, *case, r),
{
    if case.oracle.len() > 0 {
        score_oracle(graph, &case.oracle, &case.files)
    } else {
        score(graph, &case.expected)
    }
}

/// Whether file `(name, source)` extracts: its path names a supported
/// language whose grammar parses the source.
pub open spec fn extracts(name: Seq<char>, source: Seq<char>) -> bool {
    lang_of_path(name) matches Some(l) && supported(l) && parses(grammar_of(l), source)
}

/// `facts` are the extractions of exactly the files of `files` that extract,
/// in file order (`idx` gives each one's file), each what its language's
/// extraction states.
pub open spec fn extracted_from(facts: Seq<FileFacts>, files: Seq<(String, String)>, idx: Seq<int>) -> bool {
    &&& idx.len() == facts.len()
    &&& forall|j: int| 0 <= j < idx.len() ==> 0 <= #[trigger] idx[j] < files.len()
    &&& forall|j: int, k: int| 0 <= j < k < idx.len() ==> #[trigger] idx[j] < #[trigger] idx[k]
    &&& forall|j: int|
        0 <= j < idx.len() ==> (lang_of_path(files[#[trigger] idx[j]].0@) matches Some(l) && supported(l)
            && facts_wf(facts[j], files[idx[j]].0@, files[idx[j]].1@, l)
            && extracted(l, files[idx[j]].1@, files[idx[j]].0@, facts[j]))
    &&& forall|i: int| 0 <= i < files.len() ==> (idx.contains(i) <==> extracts(#[trigger] files[i].0@, files[i].1@))
}

/// The facts of every file of `case` that extracts without error, in order.
pub fn case_facts(case: &Case) -> (r: Vec<FileFacts>)
    ensures
        exists|idx: Seq<int>| extracted_from(r@, case.files@, idx),
{
    let mut out: Vec<FileFacts> = Vec::new();
    let ghost mut idx: Seq<int> = Seq::empty();
    let mut i: usize = 0;
    while i < case.files.len()
        invariant
            i <= case.files.len(),
            idx.len() == out.len(),
            forall|j: int| 0 <= j < idx.len() ==> 0 <= #[trigger] idx[j] < i,
            forall|j: int, k: int| 0 <= j < k < idx.len() ==> #[trigger] idx[j] < #[trigger] idx[k],
            forall|j: int|
                0 <= j < idx.len() ==> (lang_of_path(case.files@[#[trigger] idx[j]].0@) matches Some(l) && supported(l)
                    && facts_wf(out@[j], case.files@[idx[j]].0@, case.files@[idx[j]].1@, l)
                    && extracted(l, case.files@[idx[j]].1@, case.files@[idx[j]].0@, out@[j])),
            forall|x: int| 0 <= x < i ==> (idx.contains(x) <==> extracts(#[trigger] case.files@[x].0@, case.files@[x].1@)),
        decreases case.files.len() - i,
    {
        let (name, src) = &case.files[i];
        let ghost old_idx = idx;
        let res = extract_path(name.as_str(), src.as_str());
        proof {
            assert(res is Ok <==> extracts(case.files@[i as int].0@, case.files@[i as int].1@));
        }
        match res {
            Ok(f) => {
                out.push(f);
                proof {
                    idx = idx.push(i as int);
                }
            },
            Err(_) => {},
        }
        proof {
            assert forall|x: int| 0 <= x < i + 1 implies (idx.contains(x) <==> extracts(
                #[trigger] case.files@[x].0@,
                case.files@[x].1@,
            )) by {
                assert(idx == old_idx || idx == old_idx.push(i as int));
                if idx.contains(x) {
                    let w = choose|w: int| 0 <= w < idx.len() && idx[w] == x;
                    if w < old_idx.len() {
                        assert(old_idx[w] == x);
                        assert(old_idx.contains(x));
                    }
                }
                if old_idx.contains(x) {
                    let w = choose|w: int| 0 <= w < old_idx.len() && old_idx[w] == x;
                    assert(idx[w] == x);
                }
                if x == i {
                    if idx.len() > old_idx.len() {
                        assert(idx[old_idx.len() as int] == x);
                    }
                } else {
                    assert(old_idx.contains(x) <==> extracts(case.files@[x].0@, case.files@[x].1@));
                }
            }
        }
        i = i + 1;
    }
    assert(extracted_from(out@, case.files@, idx));
    out
}

/// Extract every file of `case`, resolve with `resolver`, and score the graph
/// against the case's ground truth (oracle pairs when the case has them).
pub fn score_case<R: Resolver>(case: &Case, resolver: &R) -> (r: Scorecard)
    ensures
        case_scored(*resolver, *case, r),
{
    let facts = case_facts(case);
    let graph = resolver.resolve(&facts);
    let r = score_graph_for_case(&graph, case);
    proof {
        let idx = choose|idx: Seq<int>| extracted_from(facts@, case.files@, idx);
        assert(extracted_from(facts@, case.files@, idx) && graph_score(resolver.resolved(facts@), *case, r));
    }
    r
}

/// `cards` holds, case by case, a scorecard of each of `cases` as
/// `resolver` scores it.
pub open spec fn scored_cards<R: Resolver>(resolver: R, cases: Seq<Case>, cards: Seq<Scorecard>) -> bool {
    &&& cards.len() == cases.len()
    &&& forall|i: int| 0 <= i < cards.len() ==> case_scored(resolver, cases[i], #[trigger] cards[i])
}

/// `a + b`, or `usize::MAX` where the sum does not fit.
pub open spec fn sat_add(a: usize, b: usize) -> usize {
    if a + b > usize::MAX {
        usize::MAX
    } else {
        (a + b) as usize
    }
}

/// Two scorecards' tallies added.
pub open spec fn merged(a: Scorecard, b: Scorecard) -> Scorecard {
    Scorecard {
        true_positives: sat_add(a.true_positives, b.true_positives),
        false_positives: sat_add(a.false_positives, b.false_positives),
        false_negatives: sat_add(a.false_negatives, b.false_negatives),
    }
}

/// The tallies of `cards` added up.
pub open spec fn total_spec(cards: Seq<Scorecard>) -> Scorecard
    decreases cards.len(),
{
    if cards.len() == 0 {
        Scorecard { true_positives: 0, false_positives: 0, false_negatives: 0 }
    } else {
        merged(total_spec(cards.drop_last()), cards.last())
    }
}

fn add_into(total: &mut Scorecard, other: &Scorecard)
    ensures
        *final(total) == merged(*old(total), *other),
{
    total.true_positives = total.true_positives.saturating_add(other.true_positives);
    total.false_positives = total.false_positives.saturating_add(other.false_positives);
    total.false_negatives = total.false_negatives.saturating_add(other.false_negatives);
}

/// One scorecard over the whole corpus: every case scored with `resolver`
/// and the tallies added.
pub fn corpus_total<R: Resolver>(cases: &Vec<Case>, resolver: &R) -> (r: Scorecard)
    ensures
        exists|cards: Seq<Scorecard>| scored_cards(*resolver, cases@, cards) && r == total_spec(cards),
{
    let mut total = Scorecard { true_positives: 0, false_positives: 0, false_negatives: 0 };
    let ghost mut cards: Seq<Scorecard> = Seq::empty();
    let mut i: usize = 0;
    while i < cases.len()
        invariant
            i <= cases.len(),
            cards.len() == i,
            forall|k: int| 0 <= k < i ==> case_scored(*resolver, cases@[k], #[trigger] cards[k]),
            total == total_spec(cards),
        decreases cases.len() - i,
    {
        let sc = score_case(&cases[i], resolver);
        add_into(&mut total, &sc);
        proof {
            let prev = cards;
            cards = prev.push(sc);
            assert(cards.drop_last() =~= prev);
        }
        i = i + 1;
    }
    total
}

/// Strictly increasing in `String` order (so no key occurs twice).
pub open spec fn sorted_keys(v: Seq<Seq<char>>) -> bool {
    forall|i: int, j: int| 0 <= i < j < v.len() ==> lex_lt(#[trigger] v[i], #[trigger] v[j])
}

/// Insert `k` into the sorted `keys` unless it is there already.
fn add_key(keys: &mut Vec<String>, k: &String)
    requires
        sorted_keys(views(old(keys)@)),
    ensures
        sorted_keys(views(final(keys)@)),
        forall|x: Seq<char>| views(final(keys)@).contains(x) <==> (views(old(keys)@).contains(x) || x == k@),
{
    let kc = chars_of(k.as_str());
    let ghost v = views(keys@);
    let mut p: usize = 0;
    while p < keys.len()
        invariant
            p <= keys.len(),
            v == views(keys@),
            kc@ == k@,
            forall|i: int| 0 <= i < p ==> lex_lt(#[trigger] v[i], k@),
        ensures
            p <= keys.len(),
            v == views(keys@),
            forall|i: int| 0 <= i < p ==> lex_lt(#[trigger] v[i], k@),
            p < keys.len() ==> !lex_lt(v[p as int], k@),
        decreases keys.len() - p,
    {
        let pc = chars_of(keys[p].as_str());
        if !chars_lt(&pc, &kc) {
            break;
        }
        p = p + 1;
    }
    if p < keys.len() {
        let pc = chars_of(keys[p].as_str());
        if crate::text::chars_eq(&pc, k.as_str()) {
            assert(v.contains(k@)) by {
                assert(v[p as int] == k@);
            }
            return;
        }
        proof {
            lemma_lex_total(v[p as int], k@);
        }
    }
    proof {
        assert forall|m: int| p <= m < v.len() implies lex_lt(k@, #[trigger] v[m]) by {
            if m > p {
                lemma_lex_transitive(k@, v[p as int], v[m]);
            }
        }
    }
    keys.insert(p, k.clone());
    proof {
        let nv = views(keys@);
        assert(nv =~= v.take(p as int).push(k@) + v.skip(p as int));
        assert forall|i: int, j: int| 0 <= i < j < nv.len() implies lex_lt(#[trigger] nv[i], #[trigger] nv[j]) by {
            if j < p {
            } else if j == p {
                assert(nv[i] == v[i]);
            } else if i < p {
                assert(nv[j] == v[j - 1]);
                lemma_lex_transitive(v[i], k@, v[j - 1]);
            } else if i == p {
                assert(nv[j] == v[j - 1]);
            } else {
                assert(nv[i] == v[i - 1] && nv[j] == v[j - 1]);
            }
        }
        assert forall|x: Seq<char>| nv.contains(x) <==> (v.contains(x) || x == k@) by {
            if nv.contains(x) {
                let i = choose|i: int| 0 <= i < nv.len() && nv[i] == x;
                if i < p {
                    assert(v[i] == x);
                } else if i > p {
                    assert(v[i - 1] == x);
                }
            }
            if v.contains(x) {
                let i = choose|i: int| 0 <= i < v.len() && v[i] == x;
                if i < p {
                    assert(nv[i] == x);
                } else {
                    assert(nv[i + 1] == x);
                }
            }
            if x == k@ {
                assert(nv[p as int] == x);
            }
        }
    }
}

/// The cards of those of the first `n` cases whose language is `lang`.
pub open spec fn lang_cards(cases: Seq<Case>, cards: Seq<Scorecard>, lang: Seq<char>, n: int) -> Seq<Scorecard>
    decreases n,
{
    if n <= 0 {
        Seq::empty()
    } else {
        let prev = lang_cards(cases, cards, lang, n - 1);
        if cases[n - 1].lang@ == lang {
            prev.push(cards[n - 1])
        } else {
            prev
        }
    }
}

/// `groups` holds, in `String` order, one entry per distinct language of
/// `cases`, each the total of the cards of that language's cases.
pub open spec fn grouped(groups: Seq<(String, Scorecard)>, cases: Seq<Case>, cards: Seq<Scorecard>) -> bool {
    let keys = Seq::new(groups.len(), |i: int| groups[i].0@);
    &&& sorted_keys(keys)
    &&& forall|x: Seq<char>| keys.contains(x) <==> exists|k: int| 0 <= k < cases.len() && (#[trigger] cases[k]).lang@ == x
    &&& forall|i: int| 0 <= i < groups.len() ==> (#[trigger] groups[i]).1 == total_spec(lang_cards(cases, cards, groups[i].0@, cases.len() as int))
}

/// The total of the cards of `lang`'s cases.
fn lang_total(cases: &Vec<Case>, cards: &Vec<Scorecard>, lang: &String) -> (r: Scorecard)
    requires
        cards.len() == cases.len(),
    ensures
        r == total_spec(lang_cards(cases@, cards@, lang@, cases.len() as int)),
{
    let mut total = Scorecard { true_positives: 0, false_positives: 0, false_negatives: 0 };
    let mut i: usize = 0;
    while i < cases.len()
        invariant
            i <= cases.len(),
            cards.len() == cases.len(),
            total == total_spec(lang_cards(cases@, cards@, lang@, i as int)),
        decreases cases.len() - i,
    {
        let ghost prev = lang_cards(cases@, cards@, lang@, i as int);
        if crate::text::str_eq(cases[i].lang.as_str(), lang.as_str()) {
            add_into(&mut total, &cards[i]);
            assert(lang_cards(cases@, cards@, lang@, i + 1).drop_last() =~= prev);
        }
        i = i + 1;
    }
    total
}

/// Per-language scorecards, sorted by language: every case scored with
/// `resolver`, and each language's tallies added.
pub fn per_language<R: Resolver>(cases: &Vec<Case>, resolver: &R) -> (r: Vec<(String, Scorecard)>)
    ensures
        exists|cards: Seq<Scorecard>| scored_cards(*resolver, cases@, cards) && grouped(r@, cases@, cards),
{
    let mut cards: Vec<Scorecard> = Vec::new();
    let mut keys: Vec<String> = Vec::new();
    let mut i: usize = 0;
    while i < cases.len()
        invariant
            i <= cases.len(),
            cards.len() == i,
            forall|k: int| 0 <= k < i ==> case_scored(*resolver, cases@[k], #[trigger] cards@[k]),
            sorted_keys(views(keys@)),
            forall|x: Seq<char>| views(keys@).contains(x) <==> exists|k: int| 0 <= k < i && (#[trigger] cases@[k]).lang@ == x,
        decreases cases.len() - i,
    {
        let sc = score_case(&cases[i], resolver);
        cards.push(sc);
        let ghost before = views(keys@);
        add_key(&mut keys, &cases[i].lang);
        proof {
            assert forall|x: Seq<char>| views(keys@).contains(x) <==> exists|k: int| 0 <= k < i + 1 && (#[trigger] cases@[k]).lang@ == x by {
                if views(keys@).contains(x) && x != cases@[i as int].lang@ {
                    assert(before.contains(x));
                }
                if exists|k: int| 0 <= k < i + 1 && (#[trigger] cases@[k]).lang@ == x {
                    let k = choose|k: int| 0 <= k < i + 1 && (#[trigger] cases@[k]).lang@ == x;
                    if k < i {
                        assert(before.contains(x));
                    }
                }
            }
        }
        i = i + 1;
    }
    let mut groups: Vec<(String, Scorecard)> = Vec::new();
    let mut j: usize = 0;
    while j < keys.len()
        invariant
            j <= keys.len(),
            cards.len() == cases.len(),
            groups.len() == j,
            forall|x: int| 0 <= x < j ==> (#[trigger] groups@[x]).0@ == keys@[x]@,
            forall|x: int| 0 <= x < j ==> (#[trigger] groups@[x]).1 == total_spec(lang_cards(cases@, cards@, groups@[x].0@, cases.len() as int)),
        decreases keys.len() - j,
    {
        let t = lang_total(cases, &cards, &keys[j]);
        groups.push((keys[j].clone(), t));
        j = j + 1;
    }
    proof {
        let ks = Seq::new(groups@.len(), |x: int| groups@[x].0@);
        assert(ks =~= views(keys@));
        assert(grouped(groups@, cases@, cards@));
    }
    groups
}

/// The sum of `f` over `cards`, without saturation.
pub open spec fn raw_sum(cards: Seq<Scorecard>, f: spec_fn(Scorecard) -> int) -> int
    decreases cards.len(),
{
    if cards.len() == 0 {
        0
    } else {
        raw_sum(cards.drop_last(), f) + f(cards.last())
    }
}

/// The true positives of a scorecard.
pub open spec fn tp_of(sc: Scorecard) -> int {
    sc.true_positives as int
}

/// The false positives of a scorecard.
pub open spec fn fp_of(sc: Scorecard) -> int {
    sc.false_positives as int
}

/// The false negatives of a scorecard.
pub open spec fn fn_of(sc: Scorecard) -> int {
    sc.false_negatives as int
}

/// The scorecards of `groups`.
pub open spec fn group_cards(groups: Seq<(String, Scorecard)>) -> Seq<Scorecard> {
    Seq::new(groups.len(), |i: int| groups[i].1)
}

/// The sum over `keys` of each key's language total of `f` over the first
/// `n` cases.
spec fn keys_sum(keys: Seq<Seq<char>>, cases: Seq<Case>, cards: Seq<Scorecard>, n: int, f: spec_fn(Scorecard) -> int) -> int
    decreases keys.len(),
{
    if keys.len() == 0 {
        0
    } else {
        keys_sum(keys.drop_last(), cases, cards, n, f) + raw_sum(lang_cards(cases, cards, keys.last(), n), f)
    }
}

spec fn distinct(keys: Seq<Seq<char>>) -> bool {
    forall|i: int, j: int| 0 <= i < j < keys.len() ==> keys[i] != keys[j]
}

proof fn lemma_keys_sum_step(keys: Seq<Seq<char>>, cases: Seq<Case>, cards: Seq<Scorecard>, n: int, f: spec_fn(Scorecard) -> int)
    requires
        1 <= n <= cases.len(),
        distinct(keys),
    ensures
        keys_sum(keys, cases, cards, n, f) == keys_sum(keys, cases, cards, n - 1, f) + if keys.contains(cases[n - 1].lang@) {
            f(cards[n - 1])
        } else {
            0
        },
    decreases keys.len(),
{
    if keys.len() > 0 {
        let d = keys.drop_last();
        assert(distinct(d));
        lemma_keys_sum_step(d, cases, cards, n, f);
        let l = cases[n - 1].lang@;
        let prev = lang_cards(cases, cards, keys.last(), n - 1);
        if keys.last() == l {
            assert(lang_cards(cases, cards, keys.last(), n) == prev.push(cards[n - 1]));
            assert(prev.push(cards[n - 1]).drop_last() =~= prev);
            assert(!d.contains(l)) by {
                if d.contains(l) {
                    let i = choose|i: int| 0 <= i < d.len() && d[i] == l;
                    assert(keys[i] == keys[keys.len() - 1]);
                }
            }
            assert(keys.contains(l)) by {
                assert(keys[keys.len() - 1] == l);
            }
        } else {
            assert(keys.contains(l) == d.contains(l)) by {
                if keys.contains(l) {
                    let i = choose|i: int| 0 <= i < keys.len() && keys[i] == l;
                    assert(i < keys.len() - 1);
                    assert(d[i] == l);
                }
                if d.contains(l) {
                    let i = choose|i: int| 0 <= i < d.len() && d[i] == l;
                    assert(keys[i] == l);
                }
            }
        }
    }
}

proof fn lemma_keys_sum_zero(keys: Seq<Seq<char>>, cases: Seq<Case>, cards: Seq<Scorecard>, f: spec_fn(Scorecard) -> int)
    ensures
        keys_sum(keys, cases, cards, 0, f) == 0,
    decreases keys.len(),
{
    if keys.len() > 0 {
        lemma_keys_sum_zero(keys.drop_last(), cases, cards, f);
    }
}

/// Summing every key's language total over the first `n` cases gives the
/// total over those cases, when the keys are distinct and cover their
/// languages.
proof fn lemma_keys_sum_total(keys: Seq<Seq<char>>, cases: Seq<Case>, cards: Seq<Scorecard>, n: int, f: spec_fn(Scorecard) -> int)
    requires
        0 <= n <= cases.len(),
        cards.len() == cases.len(),
        distinct(keys),
        forall|k: int| 0 <= k < cases.len() ==> keys.contains(#[trigger] cases[k].lang@),
    ensures
        keys_sum(keys, cases, cards, n, f) == raw_sum(cards.take(n), f),
    decreases n,
{
    if n == 0 {
        lemma_keys_sum_zero(keys, cases, cards, f);
        assert(cards.take(0) =~= Seq::<Scorecard>::empty());
    } else {
        lemma_keys_sum_total(keys, cases, cards, n - 1, f);
        lemma_keys_sum_step(keys, cases, cards, n, f);
        assert(keys.contains(cases[n - 1].lang@));
        assert(cards.take(n).drop_last() =~= cards.take(n - 1));
    }
}

/// A language's cards never sum above all the cards.
proof fn lemma_lang_sum_bound(cases: Seq<Case>, cards: Seq<Scorecard>, lang: Seq<char>, n: int, f: spec_fn(Scorecard) -> int)
    requires
        0 <= n <= cards.len(),
        forall|s: Scorecard| #[trigger] f(s) >= 0,
    ensures
        0 <= raw_sum(lang_cards(cases, cards, lang, n), f) <= raw_sum(cards.take(n), f),
    decreases n,
{
    if n == 0 {
        assert(cards.take(0) =~= Seq::<Scorecard>::empty());
    } else {
        lemma_lang_sum_bound(cases, cards, lang, n - 1, f);
        assert(cards.take(n).drop_last() =~= cards.take(n - 1));
        let prev = lang_cards(cases, cards, lang, n - 1);
        if cases[n - 1].lang@ == lang {
            assert(prev.push(cards[n - 1]).drop_last() =~= prev);
        }
        assert(f(cards[n - 1]) >= 0);
    }
}

/// Where the plain sum fits, the saturating total is the plain sum.
proof fn lemma_total_is_raw(cards: Seq<Scorecard>)
    requires
        raw_sum(cards, |s: Scorecard| tp_of(s)) <= usize::MAX,
        raw_sum(cards, |s: Scorecard| fp_of(s)) <= usize::MAX,
        raw_sum(cards, |s: Scorecard| fn_of(s)) <= usize::MAX,
    ensures
        total_spec(cards).true_positives == raw_sum(cards, |s: Scorecard| tp_of(s)),
        total_spec(cards).false_positives == raw_sum(cards, |s: Scorecard| fp_of(s)),
        total_spec(cards).false_negatives == raw_sum(cards, |s: Scorecard| fn_of(s)),
    decreases cards.len(),
{
    if cards.len() > 0 {
        let d = cards.drop_last();
        lemma_raw_nonneg(d, |s: Scorecard| tp_of(s));
        lemma_raw_nonneg(d, |s: Scorecard| fp_of(s));
        lemma_raw_nonneg(d, |s: Scorecard| fn_of(s));
        lemma_total_is_raw(d);
    }
}

proof fn lemma_raw_nonneg(cards: Seq<Scorecard>, f: spec_fn(Scorecard) -> int)
    requires
        forall|s: Scorecard| #[trigger] f(s) >= 0,
    ensures
        raw_sum(cards, f) >= 0,
    decreases cards.len(),
{
    if cards.len() > 0 {
        lemma_raw_nonneg(cards.drop_last(), f);
        assert(f(cards.last()) >= 0);
    }
}

/// The groups' cards add up, field by field, to the sum over the keys.
proof fn lemma_groups_sum(groups: Seq<(String, Scorecard)>, cases: Seq<Case>, cards: Seq<Scorecard>, f: spec_fn(Scorecard) -> int)
    requires
        cards.len() == cases.len(),
        forall|i: int| 0 <= i < groups.len() ==> f((#[trigger] groups[i]).1) == raw_sum(
            lang_cards(cases, cards, groups[i].0@, cases.len() as int),
            f,
        ),
    ensures
        raw_sum(group_cards(groups), f) == keys_sum(Seq::new(groups.len(), |i: int| groups[i].0@), cases, cards, cases.len() as int, f),
    decreases groups.len(),
{
    if groups.len() > 0 {
        let d = groups.drop_last();
        assert forall|i: int| 0 <= i < d.len() implies f((#[trigger] d[i]).1) == raw_sum(
            lang_cards(cases, cards, d[i].0@, cases.len() as int),
            f,
        ) by {
            assert(d[i] == groups[i]);
        }
        lemma_groups_sum(d, cases, cards, f);
        assert(group_cards(groups).drop_last() =~= group_cards(d));
        assert(Seq::new(groups.len(), |i: int| groups[i].0@).drop_last() =~= Seq::new(d.len(), |i: int| d[i].0@));
        assert(f(groups[groups.len() - 1].1) == raw_sum(lang_cards(cases, cards, groups[groups.len() - 1].0@, cases.len() as int), f));
    }
}

/// The per-language scorecards add up to the corpus scorecard: summing the
/// groups `per_language` returns, field by field, gives `corpus_total` over
/// the same case scores, wherever the corpus sums fit in `usize`.
pub proof fn law_languages_partition_the_corpus(groups: Seq<(String, Scorecard)>, cases: Seq<Case>, cards: Seq<Scorecard>)
    requires
        cards.len() == cases.len(),
        grouped(groups, cases, cards),
        raw_sum(cards, |s: Scorecard| tp_of(s)) <= usize::MAX,
        raw_sum(cards, |s: Scorecard| fp_of(s)) <= usize::MAX,
        raw_sum(cards, |s: Scorecard| fn_of(s)) <= usize::MAX,
    ensures
        raw_sum(group_cards(groups), |s: Scorecard| tp_of(s)) == total_spec(cards).true_positives,
        raw_sum(group_cards(groups), |s: Scorecard| fp_of(s)) == total_spec(cards).false_positives,
        raw_sum(group_cards(groups), |s: Scorecard| fn_of(s)) == total_spec(cards).false_negatives,
{
    lemma_total_is_raw(cards);
    assert(forall|x: Scorecard| #[trigger] tp_of(x) >= 0);
    assert(forall|x: Scorecard| #[trigger] fp_of(x) >= 0);
    assert(forall|x: Scorecard| #[trigger] fn_of(x) >= 0);
    lemma_part(groups, cases, cards, |s: Scorecard| tp_of(s));
    lemma_part(groups, cases, cards, |s: Scorecard| fp_of(s));
    lemma_part(groups, cases, cards, |s: Scorecard| fn_of(s));
}

proof fn lemma_part(groups: Seq<(String, Scorecard)>, cases: Seq<Case>, cards: Seq<Scorecard>, f: spec_fn(Scorecard) -> int)
    requires
        cards.len() == cases.len(),
        grouped(groups, cases, cards),
        forall|s: Scorecard| #[trigger] f(s) >= 0,
        raw_sum(cards, |s: Scorecard| tp_of(s)) <= usize::MAX,
        raw_sum(cards, |s: Scorecard| fp_of(s)) <= usize::MAX,
        raw_sum(cards, |s: Scorecard| fn_of(s)) <= usize::MAX,
        (f == |s: Scorecard| tp_of(s)) || (f == |s: Scorecard| fp_of(s)) || (f == |s: Scorecard| fn_of(s)),
    ensures
        raw_sum(group_cards(groups), f) == raw_sum(cards, f),
{
    let n = cases.len() as int;
    let keys = Seq::new(groups.len(), |i: int| groups[i].0@);
    assert(distinct(keys)) by {
        assert forall|i: int, j: int| 0 <= i < j < keys.len() implies keys[i] != keys[j] by {
            assert(lex_lt(keys[i], keys[j]));
            lemma_lex_irreflexive(keys[i]);
        }
    }
    assert forall|k: int| 0 <= k < cases.len() implies keys.contains(#[trigger] cases[k].lang@) by {
        let c = cases[k];
        assert(0 <= k < cases.len() && cases[k].lang@ == c.lang@);
        assert(exists|m: int| 0 <= m < cases.len() && (#[trigger] cases[m]).lang@ == c.lang@);
    }
    assert(cards.take(n) =~= cards);
    assert forall|i: int| 0 <= i < groups.len() implies f((#[trigger] groups[i]).1) == raw_sum(
        lang_cards(cases, cards, groups[i].0@, n),
        f,
    ) by {
        let lc = lang_cards(cases, cards, groups[i].0@, n);
        assert(forall|x: Scorecard| #[trigger] tp_of(x) >= 0);
        assert(forall|x: Scorecard| #[trigger] fp_of(x) >= 0);
        assert(forall|x: Scorecard| #[trigger] fn_of(x) >= 0);
        lemma_lang_sum_bound(cases, cards, groups[i].0@, n, |s: Scorecard| tp_of(s));
        lemma_lang_sum_bound(cases, cards, groups[i].0@, n, |s: Scorecard| fp_of(s));
        lemma_lang_sum_bound(cases, cards, groups[i].0@, n, |s: Scorecard| fn_of(s));
        lemma_total_is_raw(lc);
    }
    lemma_groups_sum(groups, cases, cards, f);
    lemma_keys_sum_total(keys, cases, cards, n, f);
}

proof fn lemma_merged_assoc(x: Scorecard, y: Scorecard, z: Scorecard)
    ensures
        merged(merged(x, y), z) == merged(x, merged(y, z)),
{
}

/// Corpus tallies add up over a split corpus: the tally of two corpora's
/// case cards put together is the merge of the two tallies, and an empty
/// corpus tallies nothing.
pub proof fn law_corpus_total_splits(a: Seq<Scorecard>, b: Seq<Scorecard>)
    ensures
        total_spec(a + b) == merged(total_spec(a), total_spec(b)),
        total_spec(Seq::<Scorecard>::empty()) == (Scorecard { true_positives: 0, false_positives: 0, false_negatives: 0 }),
    decreases b.len(),
{
    if b.len() == 0 {
        assert(a + b =~= a);
    } else {
        law_corpus_total_splits(a, b.drop_last());
        assert((a + b).drop_last() =~= a + b.drop_last());
        assert((a + b).last() == b.last());
        lemma_merged_assoc(total_spec(a), total_spec(b.drop_last()), b.last());
    }
}

/// Corpus totals add up over a split corpus: case scores of a corpus `a`
/// followed by case scores of a corpus `b` are case scores of `a + b`, whose
/// total is the merge of the two corpora's totals; the empty corpus has no
/// cases to score and totals nothing.
pub proof fn law_corpus_total_splits_over_cases<R: Resolver>(
    resolver: R,
    a: Seq<Case>,
    b: Seq<Case>,
    ca: Seq<Scorecard>,
    cb: Seq<Scorecard>,
)
    requires
        scored_cards(resolver, a, ca),
        scored_cards(resolver, b, cb),
    ensures
        scored_cards(resolver, a + b, ca + cb),
        total_spec(ca + cb) == merged(total_spec(ca), total_spec(cb)),
        scored_cards(resolver, Seq::<Case>::empty(), Seq::<Scorecard>::empty()),
        total_spec(Seq::<Scorecard>::empty()) == (Scorecard { true_positives: 0, false_positives: 0, false_negatives: 0 }),
{
    assert forall|i: int| 0 <= i < (ca + cb).len() implies case_scored(resolver, (a + b)[i], #[trigger] (ca + cb)[i]) by {
        if i < ca.len() {
            assert((a + b)[i] == a[i] && (ca + cb)[i] == ca[i]);
        } else {
            assert((a + b)[i] == b[i - a.len()] && (ca + cb)[i] == cb[i - ca.len()]);
        }
    }
    law_corpus_total_splits(ca, cb);
}

} // verus!
